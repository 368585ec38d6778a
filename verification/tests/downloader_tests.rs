use bytes::Bytes;
use stream_pipe::downloader::{check_status, FrameAssembler};
use stream_pipe::error::AppError;
use stream_pipe::frame::Frame;

/// Feeds `body` to an assembler in chunks of the given lengths and returns
/// every frame it emits, the last short one included.
fn assemble(frame_size: usize, body: &[u8], chunk_lens: &[usize]) -> Vec<Frame> {
    let mut assembler = FrameAssembler::new(frame_size);
    let mut frames = Vec::new();
    let mut at = 0;
    for &len in chunk_lens {
        let chunk = Bytes::copy_from_slice(&body[at..at + len]);
        at += len;
        assert!(assembler.accepts_chunk(&chunk));
        frames.extend(assembler.on_chunk(Ok(chunk)).unwrap());
    }
    assert_eq!(at, body.len());
    frames.extend(assembler.finish());
    frames
}

fn sample_body(len: usize) -> Vec<u8> {
    (0..len).map(|i| (i % 251) as u8).collect()
}

#[test]
fn test_download_exitoso() {
    assert!(check_status(200).is_ok());
    let cuerpo = vec![0u8; 65536 * 3];
    let chunks = vec![8192; 24];
    let frames = assemble(65536, &cuerpo, &chunks);
    assert_eq!(frames.len(), 3);
    for (i, f) in frames.iter().enumerate() {
        assert_eq!(f.index, i);
        assert_eq!(f.size, 65536);
        assert_eq!(f.data.len(), 65536);
    }
}

#[test]
fn test_download_error_404() {
    let result = check_status(404);
    assert!(result.is_err());
    assert!(matches!(result, Err(AppError::UnexpectedEnd)));
}

#[test]
fn status_boundaries() {
    assert!(check_status(199).is_err());
    assert!(check_status(200).is_ok());
    assert!(check_status(204).is_ok());
    assert!(check_status(299).is_ok());
    assert!(check_status(300).is_err());
    assert!(check_status(500).is_err());
    assert!(check_status(0).is_err());
    assert!(check_status(2000).is_err());
}

#[test]
fn last_frame_is_partial() {
    let body = sample_body(10);
    let frames = assemble(4, &body, &[3, 5, 2]);
    assert_eq!(frames.len(), 3);
    assert_eq!(frames[0].index, 0);
    assert_eq!(&frames[0].data[..], &body[0..4]);
    assert_eq!(frames[1].index, 1);
    assert_eq!(&frames[1].data[..], &body[4..8]);
    assert_eq!(frames[2].index, 2);
    assert_eq!(frames[2].size, 2);
    assert_eq!(&frames[2].data[..], &body[8..10]);
}

#[test]
fn frames_do_not_depend_on_chunking() {
    let body = sample_body(1000);
    let a = assemble(64, &body, &[1000]);
    let b = assemble(64, &body, &[1, 63, 64, 200, 0, 7, 665]);
    let c = assemble(64, &body, &vec![1; 1000]);
    assert_eq!(a.len(), 16);
    for other in [&b, &c] {
        assert_eq!(other.len(), a.len());
        for (x, y) in a.iter().zip(other.iter()) {
            assert_eq!(x.index, y.index);
            assert_eq!(x.size, y.size);
            assert_eq!(x.data, y.data);
        }
    }
    assert_eq!(a[15].size, 1000 - 15 * 64);
}

#[test]
fn frames_reassemble_the_body() {
    let body = sample_body(777);
    let frames = assemble(100, &body, &[300, 300, 177]);
    let mut joined = Vec::new();
    let mut total = 0;
    for f in &frames {
        joined.extend_from_slice(&f.data);
        total += f.size;
    }
    assert_eq!(joined, body);
    assert_eq!(total, 777);
}

#[test]
fn exact_multiple_has_no_partial_frame() {
    let body = sample_body(300);
    let frames = assemble(100, &body, &[150, 150]);
    assert_eq!(frames.len(), 3);
    assert_eq!(frames[2].size, 100);
}

#[test]
fn empty_body_gives_no_frames() {
    let frames = assemble(65536, &[], &[]);
    assert!(frames.is_empty());
}

#[test]
fn frames_produced_counts_complete_frames() {
    let mut assembler = FrameAssembler::new(10);
    let out = assembler.on_chunk(Ok(Bytes::from(vec![7u8; 25]))).unwrap();
    assert_eq!(out.len(), 2);
    assert_eq!(assembler.frames_produced(), 2);
    let last = assembler.finish().unwrap();
    assert_eq!(last.index, 2);
    assert_eq!(last.size, 5);
}

#[test]
fn cut_connection_ends_with_unexpected_end() {
    let err = reqwest::Client::new().get("not a url").build().unwrap_err();
    let mut assembler = FrameAssembler::new(16);
    let before = assembler.on_chunk(Ok(Bytes::from(vec![1u8; 20]))).unwrap();
    assert_eq!(before.len(), 1);
    let result = assembler.on_chunk(Err(err));
    assert!(matches!(result, Err(AppError::UnexpectedEnd)));
    assert_eq!(assembler.frames_produced(), 1);
    let last = assembler.finish().unwrap();
    assert_eq!(last.size, 4);
}

#[test]
fn http_error_converts_into_app_error() {
    let err = reqwest::Client::new().get("::").build().unwrap_err();
    let app: AppError = AppError::from(err);
    assert!(matches!(app, AppError::Http(_)));
}

#[test]
fn accepts_rejects_oversized_chunk() {
    let assembler = FrameAssembler::new(4);
    assert!(assembler.accepts(1024));
    assert!(!assembler.accepts(usize::MAX));
}

#[test]
fn accepts_chunk_checks_the_chunk_length() {
    let assembler = FrameAssembler::new(4);
    assert!(assembler.accepts_chunk(&Bytes::from(vec![0u8; 4096])));
    assert!(assembler.accepts_chunk(&Bytes::new()));
}

#[test]
fn try_chunk_handles_items_like_on_chunk() {
    let mut assembler = FrameAssembler::new(4);
    let frames = assembler.try_chunk(Ok(Bytes::from(vec![9u8; 10]))).unwrap().unwrap();
    assert_eq!(frames.len(), 2);
    assert_eq!(frames[1].index, 1);
    let err = reqwest::Client::new().get("not a url").build().unwrap_err();
    assert!(matches!(assembler.try_chunk(Err(err)), Some(Err(AppError::UnexpectedEnd))));
    let last = assembler.finish().unwrap();
    assert_eq!(last.index, 2);
    assert_eq!(last.size, 2);
}
