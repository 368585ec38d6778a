use vstd::prelude::*;

use bytes::{Bytes, BytesMut};

use crate::error::AppError;
use crate::frame::{
    bytes_len, bytes_mut_extend, bytes_mut_freeze, bytes_mut_len, bytes_mut_new, bytes_mut_split_to,
    bytes_mut_view, bytes_view, complete_frames, frame_spec, full_frames, joined, leftover,
    lemma_complete_frames_grow, lemma_frame_shapes, lemma_frames_of_concat,
    lemma_run_frames_split, run_frames, Frame,
};

verus! {

/// `reqwest::StatusCode::from_u16` followed by `StatusCode::is_success`:
/// `from_u16` accepts the codes `100..=999` and refuses the others, and
/// `is_success` holds of the codes in `200..300`. A refused code is not a
/// success either.
#[verifier::external_body]
fn status_is_success(code: u16) -> (r: bool)
    ensures
        r == (200 <= code && code < 300),
{
    match reqwest::StatusCode::from_u16(code) {
        Ok(status) => status.is_success(),
        Err(_) => false,
    }
}

/// Decides whether a response with HTTP status `code` carries the video:
/// any `2xx` status lets the download go on, any other ends it with
/// `UnexpectedEnd` before a byte is read.
pub fn check_status(code: u16) -> (r: Result<(), AppError>)
    ensures
        r is Ok <==> (200 <= code && code < 300),
        r is Err ==> r == Err::<(), AppError>(AppError::UnexpectedEnd),
{
    if !status_is_success(code) {
        return Err(AppError::UnexpectedEnd);
    }
    Ok(())
}

/// The producer's state: the bytes received so far that do not yet fill a
/// frame, and the index that the next frame gets.
pub struct FrameAssembler {
    accumulator: BytesMut,
    frame_index: usize,
    frame_size: usize,
    received: Ghost<Seq<u8>>,
    chunks: Ghost<Seq<Seq<u8>>>,
    history: Ghost<Seq<(nat, nat, Seq<u8>)>>,
}

/// What handling one item of the body stream does (see
/// `FrameAssembler::on_chunk`), from the state `before` to the state `after`
/// with result `r`.
pub open spec fn handles_chunk(
    before: FrameAssembler,
    after: FrameAssembler,
    chunk: Result<Bytes, reqwest::Error>,
    r: Result<Vec<Frame>, AppError>,
) -> bool {
    &&& after.wf()
    &&& after.frame_size() == before.frame_size()
    &&& match chunk {
        Err(_) => {
            &&& r == Err::<Vec<Frame>, AppError>(AppError::UnexpectedEnd)
            &&& after.received() == before.received()
            &&& after.chunks() == before.chunks()
            &&& after.history() == before.history()
        },
        Ok(c) => {
            let old_frames = full_frames(before.received(), before.frame_size());
            let new_frames = full_frames(after.received(), after.frame_size());
            &&& after.received() == before.received() + bytes_view(c)
            &&& after.chunks() == before.chunks().push(bytes_view(c))
            &&& new_frames.take(old_frames.len() as int) == old_frames
            &&& r matches Ok(frames) && frames.len() == new_frames.len() - old_frames.len() && (
            forall|i: int|
                0 <= i < frames.len() ==> {
                    &&& (#[trigger] frames[i]).index == old_frames.len() + i
                    &&& frames[i].size == before.frame_size()
                    &&& frames[i].bytes() == new_frames[old_frames.len() + i]
                    &&& frames[i].size_matches()
                }) && after.history() == before.history() + frames@.map_values(
                |f: Frame| frame_spec(f),
            )
        },
    }
}

impl FrameAssembler {
    /// Every byte of the body stream handed to the assembler so far, in order.
    pub closed spec fn received(&self) -> Seq<u8> {
        self.received@
    }

    /// The size of every complete frame.
    pub closed spec fn frame_size(&self) -> nat {
        self.frame_size as nat
    }

    /// The chunks of the body stream handed to the assembler so far.
    pub closed spec fn chunks(&self) -> Seq<Seq<u8>> {
        self.chunks@
    }

    /// Every frame returned so far, described by value, in the order the
    /// calls returned them.
    pub closed spec fn history(&self) -> Seq<(nat, nat, Seq<u8>)> {
        self.history@
    }

    /// The frames emitted so far are exactly the complete frames of the
    /// bytes received, and the bytes held back are exactly their leftover.
    pub closed spec fn wf(&self) -> bool {
        &&& self.frame_size > 0
        &&& bytes_mut_view(self.accumulator) == leftover(self.received@, self.frame_size as nat)
        &&& self.frame_index == full_frames(self.received@, self.frame_size as nat).len()
        &&& self.received@ == joined(self.chunks@)
        &&& self.history@ == complete_frames(self.received@, self.frame_size as nat)
    }

    /// Whether a chunk of `chunk_len` bytes fits the machine: the held-back
    /// bytes plus the chunk stay within `isize::MAX`, and the frame indices
    /// stay within `usize`.
    pub open spec fn can_take(&self, chunk_len: nat) -> bool {
        let pending = leftover(self.received(), self.frame_size()).len();
        &&& pending + chunk_len <= isize::MAX
        &&& full_frames(self.received(), self.frame_size()).len() + (pending + chunk_len)
            / self.frame_size() <= usize::MAX
    }

    /// An assembler that has received nothing, for frames of `frame_size`
    /// bytes. A frame size of 0 would never let a frame be cut.
    pub fn new(frame_size: usize) -> (s: Self)
        requires
            frame_size > 0,
        ensures
            s.wf(),
            s.received() == Seq::<u8>::empty(),
            s.chunks() == Seq::<Seq<u8>>::empty(),
            s.history() == Seq::<(nat, nat, Seq<u8>)>::empty(),
            s.frame_size() == frame_size,
    {
        let s = FrameAssembler {
            accumulator: bytes_mut_new(),
            frame_index: 0,
            frame_size,
            received: Ghost(Seq::empty()),
            chunks: Ghost(Seq::empty()),
            history: Ghost(Seq::empty()),
        };
        assert(full_frames(Seq::<u8>::empty(), frame_size as nat) =~= Seq::<Seq<u8>>::empty());
        assert(complete_frames(Seq::<u8>::empty(), frame_size as nat) =~= Seq::<
            (nat, nat, Seq<u8>),
        >::empty());
        s
    }

    /// The number of frames emitted so far.
    pub fn frames_produced(&self) -> (n: usize)
        requires
            self.wf(),
        ensures
            n == full_frames(self.received(), self.frame_size()).len(),
    {
        self.frame_index
    }

    /// Tells whether `on_chunk` may take a chunk of `chunk_len` bytes
    /// (see `can_take`).
    pub fn accepts(&self, chunk_len: usize) -> (b: bool)
        requires
            self.wf(),
        ensures
            b == self.can_take(chunk_len as nat),
    {
        let pending = bytes_mut_len(&self.accumulator);
        if pending > isize::MAX as usize || chunk_len > isize::MAX as usize - pending {
            return false;
        }
        let count = (pending + chunk_len) / self.frame_size;
        self.frame_index <= usize::MAX - count
    }

    /// Tells whether `on_chunk` may take `chunk` (see `can_take`).
    pub fn accepts_chunk(&self, chunk: &Bytes) -> (b: bool)
        requires
            self.wf(),
        ensures
            b == self.can_take(bytes_view(*chunk).len()),
            b <==> (leftover(self.received(), self.frame_size()).len() + bytes_view(*chunk).len()
                <= isize::MAX && full_frames(self.received() + bytes_view(*chunk), self.frame_size()).len()
                <= usize::MAX),
    {
        proof {
            lemma_chunk_refused_only_at_machine_limits(*self, bytes_view(*chunk));
        }
        self.accepts(bytes_len(chunk))
    }

    /// Handles the next item of the body stream.
    ///
    /// An error item means the connection was cut in the middle of the
    /// download: it ends the download with `UnexpectedEnd`, and the bytes
    /// held back are not turned into a frame.
    /// A chunk of bytes is appended to what was received, and every frame
    /// that is now complete is returned, in order, numbered on from the
    /// frames emitted before; the bytes that do not fill a frame are kept.
    pub fn on_chunk(&mut self, chunk: Result<Bytes, reqwest::Error>) -> (r: Result<
        Vec<Frame>,
        AppError,
    >)
        requires
            old(self).wf(),
            chunk is Ok ==> old(self).can_take(bytes_view(chunk->Ok_0).len()),
        ensures
            handles_chunk(*old(self), *final(self), chunk, r),
    {
        match chunk {
            Err(_) => Err(AppError::UnexpectedEnd),
            Ok(c) => Ok(self.push_chunk(&c)),
        }
    }

    /// Handles the next item of the body stream when the machine allows it:
    /// `None`, with the state unchanged, when the item is a chunk that
    /// `can_take` refuses; otherwise what `on_chunk` gives.
    pub fn try_chunk(&mut self, chunk: Result<Bytes, reqwest::Error>) -> (r: Option<
        Result<Vec<Frame>, AppError>,
    >)
        requires
            old(self).wf(),
        ensures
            (r is None) <==> (chunk is Ok && !old(self).can_take(bytes_view(chunk->Ok_0).len())),
            r is None ==> *final(self) == *old(self),
            r matches Some(res) ==> handles_chunk(*old(self), *final(self), chunk, res),
    {
        if let Ok(c) = &chunk {
            if !self.accepts_chunk(c) {
                return None;
            }
        }
        Some(self.on_chunk(chunk))
    }

    fn push_chunk(&mut self, chunk: &Bytes) -> (frames: Vec<Frame>)
        requires
            old(self).wf(),
            old(self).can_take(bytes_view(*chunk).len()),
        ensures
            final(self).wf(),
            final(self).frame_size() == old(self).frame_size(),
            final(self).received() == old(self).received() + bytes_view(*chunk),
            final(self).chunks() == old(self).chunks().push(bytes_view(*chunk)),
            final(self).history() == old(self).history() + frames@.map_values(
                |f: Frame| frame_spec(f),
            ),
            ({
                let before = full_frames(old(self).received(), old(self).frame_size());
                let after = full_frames(final(self).received(), final(self).frame_size());
                &&& after.take(before.len() as int) == before
                &&& frames.len() == after.len() - before.len()
                &&& forall|i: int|
                    0 <= i < frames.len() ==> {
                        &&& (#[trigger] frames[i]).index == before.len() + i
                        &&& frames[i].size == old(self).frame_size()
                        &&& frames[i].bytes() == after[before.len() + i]
                        &&& frames[i].size_matches()
                    }
            }),
    {
        let ghost fs = self.frame_size as nat;
        let ghost old_received = self.received@;
        let ghost held = leftover(old_received, fs);
        let ghost base = held + bytes_view(*chunk);
        let ghost start = self.frame_index as nat;
        proof {
            lemma_frames_of_concat(old_received, bytes_view(*chunk), fs);
            lemma_frame_shapes(base, fs);
        }
        bytes_mut_extend(&mut self.accumulator, chunk);
        let ghost old_history = self.history@;
        let ghost old_chunks = self.chunks@;
        proof {
            self.received = Ghost(old_received + bytes_view(*chunk));
            self.chunks = Ghost(old_chunks.push(bytes_view(*chunk)));
            assert(old_chunks.push(bytes_view(*chunk)).drop_last() =~= old_chunks);
        }
        let mut frames: Vec<Frame> = Vec::new();
        while bytes_mut_len(&self.accumulator) >= self.frame_size
            invariant
                self.frame_size as nat == fs,
                fs > 0,
                self.received@ == old_received + bytes_view(*chunk),
                self.chunks@ == old_chunks.push(bytes_view(*chunk)),
                self.history@ == old_history,
                full_frames(base, fs) == frames@.map_values(|f: Frame| f.bytes()) + full_frames(
                    bytes_mut_view(self.accumulator),
                    fs,
                ),
                leftover(base, fs) == leftover(bytes_mut_view(self.accumulator), fs),
                self.frame_index == start + frames.len(),
                self.frame_index + full_frames(bytes_mut_view(self.accumulator), fs).len()
                    <= usize::MAX,
                forall|i: int|
                    0 <= i < frames.len() ==> {
                        &&& (#[trigger] frames[i]).index == start + i
                        &&& frames[i].size == fs
                    },
            decreases bytes_mut_view(self.accumulator).len(),
        {
            let ghost pending = bytes_mut_view(self.accumulator);
            let head = bytes_mut_split_to(&mut self.accumulator, self.frame_size);
            let frame = Frame {
                index: self.frame_index,
                size: self.frame_size,
                data: bytes_mut_freeze(head),
            };
            proof {
                assert(pending.skip(fs as int) == bytes_mut_view(self.accumulator));
                assert(full_frames(pending, fs) == seq![pending.take(fs as int)] + full_frames(
                    pending.skip(fs as int),
                    fs,
                ));
                assert(frame.bytes() == pending.take(fs as int));
            }
            let ghost frames_before = frames@;
            frames.push(frame);
            self.frame_index = self.frame_index + 1;
            proof {
                assert(frames@.map_values(|f: Frame| f.bytes()) =~= frames_before.map_values(
                    |f: Frame| f.bytes(),
                ).push(frame.bytes()));
                assert(frames@.map_values(|f: Frame| f.bytes()) + full_frames(
                    bytes_mut_view(self.accumulator),
                    fs,
                ) =~= frames_before.map_values(|f: Frame| f.bytes()) + full_frames(pending, fs));
            }
        }
        proof {
            let rest = bytes_mut_view(self.accumulator);
            assert(full_frames(rest, fs) =~= Seq::<Seq<u8>>::empty());
            assert(leftover(rest, fs) == rest);
            let before = full_frames(old_received, fs);
            let after = full_frames(self.received@, fs);
            let mapped = frames@.map_values(|f: Frame| f.bytes());
            assert(mapped + Seq::<Seq<u8>>::empty() =~= mapped);
            assert(after == before + mapped);
            assert(after.take(before.len() as int) =~= before);
            lemma_frame_shapes(self.received@, fs);
            assert forall|i: int| 0 <= i < frames.len() implies #[trigger] frames[i].bytes()
                == after[before.len() + i] && frames[i].size_matches() by {
                assert(mapped[i] == frames[i].bytes());
                assert(after[before.len() + i].len() == fs);
            }
            lemma_complete_frames_grow(old_received, bytes_view(*chunk), fs);
            let described = frames@.map_values(|f: Frame| frame_spec(f));
            assert(described =~= Seq::new(
                (after.len() - before.len()) as nat,
                |i: int| ((before.len() + i) as nat, fs, after[before.len() + i]),
            ));
            self.history = Ghost(old_history + described);
        }
        frames
    }

    /// Ends the download: the bytes still held back, if any, become a last,
    /// shorter frame numbered after every frame emitted before.
    pub fn finish(self) -> (r: Option<Frame>)
        requires
            self.wf(),
        ensures
            ({
                let rest = leftover(self.received(), self.frame_size());
                &&& (r is None <==> rest.len() == 0)
                &&& r matches Some(f) ==> {
                    &&& f.index == full_frames(self.received(), self.frame_size()).len()
                    &&& f.size == rest.len()
                    &&& f.bytes() == rest
                    &&& f.size_matches()
                    &&& 0 < f.size < self.frame_size()
                }
                &&& self.history() + (match r {
                    Some(f) => seq![frame_spec(f)],
                    None => Seq::<(nat, nat, Seq<u8>)>::empty(),
                }) == run_frames(self.received(), self.frame_size())
            }),
    {
        proof {
            lemma_frame_shapes(self.received@, self.frame_size as nat);
            lemma_run_frames_split(self.received@, self.frame_size as nat);
        }
        let remaining = bytes_mut_len(&self.accumulator);
        if remaining > 0 {
            Some(
                Frame {
                    index: self.frame_index,
                    size: remaining,
                    data: bytes_mut_freeze(self.accumulator),
                },
            )
        } else {
            None
        }
    }
}

/// Chunk independence for runs of calls: two assemblers for the same frame
/// size whose chunks join to the same bytes have received the same bytes and
/// returned the same frames, however the network divided the bytes; their
/// `finish` then gives the same last frame.
pub proof fn lemma_assemblers_agree(a: FrameAssembler, b: FrameAssembler)
    requires
        a.wf(),
        b.wf(),
        a.frame_size() == b.frame_size(),
        joined(a.chunks()) == joined(b.chunks()),
    ensures
        a.received() == b.received(),
        a.history() == b.history(),
        leftover(a.received(), a.frame_size()) == leftover(b.received(), b.frame_size()),
{
}

/// A chunk is refused only when taking it would leave the machine's limits:
/// `can_take` holds exactly when the bytes held back after appending the
/// chunk fit in `isize::MAX` and the number of frames emitted once the chunk
/// is cut (so every frame index) fits in `usize`. Any chunk of any length is
/// taken while these limits hold, whatever the frame size.
pub proof fn lemma_chunk_refused_only_at_machine_limits(a: FrameAssembler, chunk: Seq<u8>)
    requires
        a.wf(),
    ensures
        a.can_take(chunk.len()) <==> (leftover(a.received(), a.frame_size()).len() + chunk.len()
            <= isize::MAX && full_frames(a.received() + chunk, a.frame_size()).len()
            <= usize::MAX),
{
    let fs = a.frame_size();
    let held = leftover(a.received(), fs);
    lemma_frames_of_concat(a.received(), chunk, fs);
    lemma_frame_shapes(held + chunk, fs);
    assert((held + chunk).len() == held.len() + chunk.len());
}

/// Taking a chunk never depends on a size limit of the pipeline's own: with
/// room left in the machine's limits, a well-formed assembler takes a chunk
/// of any length `n`, and in particular one that completes a frame.
pub proof fn lemma_chunks_within_limits_are_taken(a: FrameAssembler, n: nat)
    requires
        a.wf(),
        leftover(a.received(), a.frame_size()).len() + n <= isize::MAX,
        full_frames(a.received(), a.frame_size()).len() + (leftover(
            a.received(),
            a.frame_size(),
        ).len() + n) / a.frame_size() <= usize::MAX,
    ensures
        a.can_take(n),
{
}

} // verus!
