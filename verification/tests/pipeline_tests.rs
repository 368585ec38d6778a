use std::collections::VecDeque;

use bytes::Bytes;
use stream_pipe::error::AppError;
use stream_pipe::frame::Frame;
use stream_pipe::pipeline::{Consumer, ConsumerEvent, ConsumerStep};

fn frame_vacio(index: usize, size: usize) -> Frame {
    Frame {
        index,
        size,
        data: Bytes::from(vec![0u8; size]),
    }
}

/// Drives one consumer against the queue until its step function stops it.
fn drain(queue: &mut VecDeque<Frame>, producer_done: bool) -> Result<usize, AppError> {
    let mut consumer = Consumer::new();
    loop {
        let event = match queue.pop_front() {
            Some(f) => ConsumerEvent::Popped(f),
            None => ConsumerEvent::Empty { producer_done },
        };
        match consumer.step(event) {
            ConsumerStep::Continue => {}
            ConsumerStep::Wait => panic!("the producer never finishes in this test"),
            ConsumerStep::Finished(total) => return Ok(total),
            ConsumerStep::Failed(e) => return Err(e),
        }
    }
}

#[test]
fn test_consumer_frame_unico() {
    let mut buffer = VecDeque::new();
    buffer.push_back(frame_vacio(0, 64));
    let total = drain(&mut buffer, true).unwrap();
    assert_eq!(total, 64);
}

#[test]
fn test_consumer_buffer_vacio_done() {
    let mut buffer: VecDeque<Frame> = VecDeque::new();
    let total = drain(&mut buffer, true).unwrap();
    assert_eq!(total, 0);
}

#[test]
fn test_consumer_multiples_frames() {
    let mut buffer = VecDeque::new();
    buffer.push_back(frame_vacio(0, 100));
    buffer.push_back(frame_vacio(1, 200));
    buffer.push_back(frame_vacio(2, 300));
    let total = drain(&mut buffer, true).unwrap();
    assert_eq!(total, 600);
}

#[test]
fn test_stress_multiples_workers() {
    let mut buffer = VecDeque::new();
    for i in 0..500 {
        buffer.push_back(frame_vacio(i, 64));
    }
    // Eight consumers take turns on the same queue, each with its own count.
    let mut workers: Vec<Consumer> = (0..8).map(|_| Consumer::new()).collect();
    let mut finished = vec![None; 8];
    let mut turn = 0usize;
    while finished.iter().any(|f| f.is_none()) {
        let w = turn % 8;
        turn += 1;
        if finished[w].is_some() {
            continue;
        }
        let event = match buffer.pop_front() {
            Some(f) => ConsumerEvent::Popped(f),
            None => ConsumerEvent::Empty { producer_done: true },
        };
        match workers[w].step(event) {
            ConsumerStep::Continue => {}
            ConsumerStep::Finished(total) => finished[w] = Some(total),
            _ => panic!("unexpected step"),
        }
    }
    let total: usize = finished.iter().map(|f| f.unwrap()).sum();
    assert_eq!(total, 32_000);
    let frames: usize = workers.iter().map(|w| w.frames_consumed()).sum();
    assert_eq!(frames, 500);
}

#[test]
fn test_total_bytes_siempre_exacto() {
    // A fixed pseudo-random sweep over lists of 1 to 50 sizes in 1..=1024.
    let mut seed: u64 = 0x2545_f491_4f6c_dd1d;
    let mut next = move || {
        seed ^= seed << 13;
        seed ^= seed >> 7;
        seed ^= seed << 17;
        seed
    };
    for _ in 0..200 {
        let n = (next() % 50 + 1) as usize;
        let sizes: Vec<usize> = (0..n).map(|_| (next() % 1024 + 1) as usize).collect();
        let expected: usize = sizes.iter().sum();
        let mut buffer = VecDeque::new();
        for (i, &size) in sizes.iter().enumerate() {
            buffer.push_back(frame_vacio(i, size));
        }
        assert_eq!(drain(&mut buffer, true).unwrap(), expected);
    }
}

#[test]
fn consumer_waits_while_producer_runs() {
    let mut consumer = Consumer::new();
    assert!(matches!(
        consumer.step(ConsumerEvent::Empty { producer_done: false }),
        ConsumerStep::Wait
    ));
    assert!(matches!(
        consumer.step(ConsumerEvent::Popped(frame_vacio(0, 10))),
        ConsumerStep::Continue
    ));
    assert!(matches!(
        consumer.step(ConsumerEvent::Empty { producer_done: false }),
        ConsumerStep::Wait
    ));
    assert!(matches!(
        consumer.step(ConsumerEvent::Empty { producer_done: true }),
        ConsumerStep::Finished(10)
    ));
    assert_eq!(consumer.total_bytes(), 10);
    assert_eq!(consumer.frames_consumed(), 1);
}

#[test]
fn consumer_reports_poisoned_lock() {
    let mut consumer = Consumer::new();
    consumer.step(ConsumerEvent::Popped(frame_vacio(0, 5)));
    let step = consumer.step(ConsumerEvent::Poisoned);
    assert!(matches!(step, ConsumerStep::Failed(AppError::LockPoisoned)));
    assert_eq!(consumer.total_bytes(), 5);
}

#[test]
fn consumer_counts_recorded_size() {
    // The running total follows each frame's recorded size.
    let mut consumer = Consumer::new();
    let frame = Frame { index: 0, size: 7, data: Bytes::from(vec![1u8; 7]) };
    consumer.step(ConsumerEvent::Popped(frame));
    consumer.step(ConsumerEvent::Popped(frame_vacio(1, 3)));
    assert_eq!(consumer.total_bytes(), 10);
}

#[test]
fn consumer_refuses_overflowing_frame() {
    let mut consumer = Consumer::new();
    assert!(consumer.accepts(usize::MAX));
    consumer.step(ConsumerEvent::Popped(frame_vacio(0, 1)));
    assert!(!consumer.accepts(usize::MAX));
    assert!(consumer.accepts(usize::MAX - 1));
}
