use vstd::prelude::*;

use bytes::{Bytes, BytesMut};

verus! {

/// An immutable, cheaply shareable byte buffer (`bytes::Bytes`).
#[verifier::external_type_specification]
#[verifier::external_body]
pub struct ExBytes(Bytes);

/// A growable byte buffer that can be split and frozen (`bytes::BytesMut`).
#[verifier::external_type_specification]
#[verifier::external_body]
pub struct ExBytesMut(BytesMut);

/// The bytes that a `Bytes` value holds, in order.
pub uninterp spec fn bytes_view(b: Bytes) -> Seq<u8>;

/// The bytes that a `BytesMut` value holds, in order.
pub uninterp spec fn bytes_mut_view(b: BytesMut) -> Seq<u8>;

/// `Bytes::len`: the number of bytes held.
#[verifier::external_body]
pub(crate) fn bytes_len(b: &Bytes) -> (n: usize)
    ensures
        n == bytes_view(*b).len(),
{
    b.len()
}

/// `BytesMut::new`: an empty buffer (the crate documents "length 0").
#[verifier::external_body]
pub(crate) fn bytes_mut_new() -> (r: BytesMut)
    ensures
        bytes_mut_view(r) == Seq::<u8>::empty(),
{
    BytesMut::new()
}

/// `BytesMut::len`: the number of bytes held.
#[verifier::external_body]
pub(crate) fn bytes_mut_len(b: &BytesMut) -> (n: usize)
    ensures
        n == bytes_mut_view(*b).len(),
{
    b.len()
}

/// `BytesMut::extend_from_slice`, given the bytes of a `Bytes`: appends them
/// at the end. The source reserves room first; a length beyond `isize::MAX`
/// is ruled out here. That the allocator can supply the memory is left
/// unsaid.
#[verifier::external_body]
pub(crate) fn bytes_mut_extend(acc: &mut BytesMut, chunk: &Bytes)
    requires
        bytes_mut_view(*old(acc)).len() + bytes_view(*chunk).len() <= isize::MAX,
    ensures
        bytes_mut_view(*final(acc)) == bytes_mut_view(*old(acc)) + bytes_view(*chunk),
{
    acc.extend_from_slice(chunk)
}

/// `BytesMut::split_to`: the returned buffer holds the first `at` bytes and
/// `acc` keeps the rest. The source panics when `at` exceeds the length.
#[verifier::external_body]
pub(crate) fn bytes_mut_split_to(acc: &mut BytesMut, at: usize) -> (head: BytesMut)
    requires
        at <= bytes_mut_view(*old(acc)).len(),
    ensures
        bytes_mut_view(head) == bytes_mut_view(*old(acc)).take(at as int),
        bytes_mut_view(*final(acc)) == bytes_mut_view(*old(acc)).skip(at as int),
{
    acc.split_to(at)
}

/// `BytesMut::freeze`: the same bytes, now immutable.
#[verifier::external_body]
pub(crate) fn bytes_mut_freeze(b: BytesMut) -> (r: Bytes)
    ensures
        bytes_view(r) == bytes_mut_view(b),
{
    b.freeze()
}

/// One unit of work in the pipeline: a numbered slice of the video stream.
///
/// `index` counts frames from 0 in stream order, `size` is the number of
/// bytes in `data` (the frame size for every frame but possibly the last).
pub struct Frame {
    pub index: usize,
    pub size: usize,
    pub data: Bytes,
}

impl Frame {
    /// The bytes carried by the frame.
    pub open spec fn bytes(&self) -> Seq<u8> {
        bytes_view(self.data)
    }

    /// The frame's recorded size agrees with the bytes it carries.
    pub open spec fn size_matches(&self) -> bool {
        self.size == self.bytes().len()
    }
}

/// The complete frames of `frame_size` bytes that `data` splits into, in
/// order. Bytes that do not fill a last frame are not part of it.
pub open spec fn full_frames(data: Seq<u8>, frame_size: nat) -> Seq<Seq<u8>>
    decreases data.len(),
{
    if frame_size == 0 || data.len() < frame_size {
        Seq::empty()
    } else {
        seq![data.take(frame_size as int)] + full_frames(data.skip(frame_size as int), frame_size)
    }
}

/// The bytes left over after cutting `data` into complete frames.
pub open spec fn leftover(data: Seq<u8>, frame_size: nat) -> Seq<u8>
    decreases data.len(),
{
    if frame_size == 0 || data.len() < frame_size {
        data
    } else {
        leftover(data.skip(frame_size as int), frame_size)
    }
}

/// Every complete frame holds exactly `frame_size` bytes, the leftover holds
/// fewer, and there are `data.len() / frame_size` complete frames.
pub proof fn lemma_frame_shapes(data: Seq<u8>, frame_size: nat)
    requires
        frame_size > 0,
    ensures
        forall|i: int|
            0 <= i < full_frames(data, frame_size).len() ==> #[trigger] full_frames(
                data,
                frame_size,
            )[i].len() == frame_size,
        leftover(data, frame_size).len() < frame_size,
        full_frames(data, frame_size).len() == (data.len() as int) / (frame_size as int),
        full_frames(data, frame_size).len() * frame_size + leftover(data, frame_size).len()
            == data.len(),
    decreases data.len(),
{
    let fs = frame_size as int;
    if data.len() < frame_size {
        vstd::arithmetic::div_mod::lemma_basic_div(data.len() as int, fs);
    } else {
        let rest = data.skip(fs);
        lemma_frame_shapes(rest, frame_size);
        vstd::arithmetic::div_mod::lemma_div_plus_one(rest.len() as int, fs);
        assert(fs + rest.len() == data.len());
        let ff = full_frames(data, frame_size);
        assert forall|i: int| 0 <= i < ff.len() implies #[trigger] ff[i].len() == frame_size by {
            if i > 0 {
                assert(ff[i] == full_frames(rest, frame_size)[i - 1]);
            }
        }
        assert(full_frames(rest, frame_size).len() * fs + fs == (full_frames(rest, frame_size).len()
            + 1) * fs) by (nonlinear_arith);
    }
}

/// Reassembly: the complete frames of `data`, concatenated, followed by the
/// leftover, give back `data` exactly. No byte is lost, duplicated or moved.
pub proof fn lemma_frames_reassemble(data: Seq<u8>, frame_size: nat)
    requires
        frame_size > 0,
    ensures
        full_frames(data, frame_size).flatten() + leftover(data, frame_size) == data,
    decreases data.len(),
{
    if data.len() >= frame_size {
        let fs = frame_size as int;
        let rest = data.skip(fs);
        lemma_frames_reassemble(rest, frame_size);
        let ff = full_frames(data, frame_size);
        assert(ff.first() == data.take(fs));
        assert(ff.drop_first() =~= full_frames(rest, frame_size));
        assert(data.take(fs) + rest =~= data);
        assert(ff.flatten() == data.take(fs) + full_frames(rest, frame_size).flatten());
        assert((data.take(fs) + full_frames(rest, frame_size).flatten()) + leftover(
            rest,
            frame_size,
        ) =~= data.take(fs) + (full_frames(rest, frame_size).flatten() + leftover(
            rest,
            frame_size,
        )));
    }
}

/// Chunk independence: cutting `first + second` into frames gives the frames
/// of `first`, then the frames of what `first` left over followed by
/// `second`; the final leftover is the same either way. So the frames of a
/// stream do not depend on how its bytes were divided into chunks.
pub proof fn lemma_frames_of_concat(first: Seq<u8>, second: Seq<u8>, frame_size: nat)
    requires
        frame_size > 0,
    ensures
        full_frames(first + second, frame_size) == full_frames(first, frame_size) + full_frames(
            leftover(first, frame_size) + second,
            frame_size,
        ),
        leftover(first + second, frame_size) == leftover(
            leftover(first, frame_size) + second,
            frame_size,
        ),
    decreases first.len(),
{
    let fs = frame_size as int;
    if first.len() < frame_size {
        assert(full_frames(first, frame_size) =~= Seq::<Seq<u8>>::empty());
        assert(full_frames(first, frame_size) + full_frames(first + second, frame_size)
            =~= full_frames(first + second, frame_size));
    } else {
        let rest = first.skip(fs);
        lemma_frames_of_concat(rest, second, frame_size);
        let whole = first + second;
        assert(whole.take(fs) =~= first.take(fs));
        assert(whole.skip(fs) =~= rest + second);
        assert(full_frames(whole, frame_size) == seq![first.take(fs)] + full_frames(
            rest + second,
            frame_size,
        ));
        assert(full_frames(first, frame_size) == seq![first.take(fs)] + full_frames(
            rest,
            frame_size,
        ));
        assert(seq![first.take(fs)] + (full_frames(rest, frame_size) + full_frames(
            leftover(rest, frame_size) + second,
            frame_size,
        )) =~= (seq![first.take(fs)] + full_frames(rest, frame_size)) + full_frames(
            leftover(rest, frame_size) + second,
            frame_size,
        ));
    }
}

/// Frame `i` of a stream holds the stream's bytes from `i * frame_size` to
/// `(i + 1) * frame_size`, and the leftover is everything after the last
/// complete frame.
pub proof fn lemma_frame_positions(data: Seq<u8>, frame_size: nat)
    requires
        frame_size > 0,
    ensures
        forall|i: int|
            0 <= i < full_frames(data, frame_size).len() ==> #[trigger] full_frames(
                data,
                frame_size,
            )[i] == data.subrange(i * frame_size, (i + 1) * frame_size),
        leftover(data, frame_size) == data.skip(
            (full_frames(data, frame_size).len() * frame_size) as int,
        ),
    decreases data.len(),
{
    let fs = frame_size as int;
    if data.len() < frame_size {
        assert(data.skip(0) =~= data);
    } else {
        let rest = data.skip(fs);
        lemma_frame_positions(rest, frame_size);
        let ff = full_frames(data, frame_size);
        let fr = full_frames(rest, frame_size);
        lemma_frame_shapes(data, frame_size);
        assert(ff == seq![data.take(fs)] + fr);
        assert(ff.len() == fr.len() + 1);
        assert forall|i: int| 0 <= i < ff.len() implies #[trigger] ff[i] == data.subrange(
            i * fs,
            (i + 1) * fs,
        ) by {
            if i == 0 {
                assert(ff[0] == data.take(fs));
                assert(data.take(fs) =~= data.subrange(0, fs));
                assert(ff[i] == data.subrange(i * fs, (i + 1) * fs));
            } else {
                assert(ff[i] == fr[i - 1]);
                assert(0 <= i - 1 < fr.len());
                assert(fr[i - 1] == rest.subrange((i - 1) * fs, i * fs));
                assert((i - 1) * fs + fs == i * fs) by (nonlinear_arith);
                assert(i * fs + fs == (i + 1) * fs) by (nonlinear_arith);
                assert((i + 1) * fs <= ff.len() * fs) by (nonlinear_arith)
                    requires
                        i + 1 <= ff.len(),
                        fs > 0,
                ;
                assert((i + 1) * fs <= data.len());
                assert(rest.len() == data.len() - fs);
                assert(rest.subrange((i - 1) * fs, i * fs) =~= data.subrange(i * fs, (i + 1) * fs));
                assert(ff[i] == data.subrange(i * fs, (i + 1) * fs));
            }
        }
        assert(fr.len() * fs + fs == ff.len() * fs) by (nonlinear_arith)
            requires
                ff.len() == fr.len() + 1,
        ;
        assert(rest.skip(fr.len() * fs) =~= data.skip(ff.len() * fs));
    }
}

/// The bytes of a list of chunks, one after the other.
pub open spec fn joined(chunks: Seq<Seq<u8>>) -> Seq<u8>
    decreases chunks.len(),
{
    if chunks.len() == 0 {
        Seq::empty()
    } else {
        joined(chunks.drop_last()) + chunks.last()
    }
}

/// The frames that handing `chunks` one after the other to a frame
/// assembler emits: at each chunk, the complete frames of everything
/// received that were not emitted before (`FrameAssembler::on_chunk`).
pub open spec fn emitted(chunks: Seq<Seq<u8>>, frame_size: nat) -> Seq<Seq<u8>>
    decreases chunks.len(),
{
    if chunks.len() == 0 {
        Seq::empty()
    } else {
        let before = full_frames(joined(chunks.drop_last()), frame_size);
        emitted(chunks.drop_last(), frame_size) + full_frames(joined(chunks), frame_size).skip(
            before.len() as int,
        )
    }
}

/// A whole run emits exactly the complete frames of the joined chunks.
pub proof fn lemma_run_frames(chunks: Seq<Seq<u8>>, frame_size: nat)
    requires
        frame_size > 0,
    ensures
        emitted(chunks, frame_size) == full_frames(joined(chunks), frame_size),
    decreases chunks.len(),
{
    if chunks.len() == 0 {
        assert(full_frames(Seq::<u8>::empty(), frame_size) =~= Seq::<Seq<u8>>::empty());
    } else {
        let prev = joined(chunks.drop_last());
        lemma_run_frames(chunks.drop_last(), frame_size);
        lemma_frames_of_concat(prev, chunks.last(), frame_size);
        let before = full_frames(prev, frame_size);
        let later = full_frames(leftover(prev, frame_size) + chunks.last(), frame_size);
        assert((before + later).skip(before.len() as int) =~= later);
        assert(before + later == full_frames(joined(chunks), frame_size));
    }
}

/// Chunk independence for whole runs: two runs whose chunks join to the same
/// bytes emit the same frames and hold back the same bytes, however the
/// bytes were divided into chunks.
pub proof fn lemma_runs_agree(first: Seq<Seq<u8>>, second: Seq<Seq<u8>>, frame_size: nat)
    requires
        frame_size > 0,
        joined(first) == joined(second),
    ensures
        emitted(first, frame_size) == emitted(second, frame_size),
        leftover(joined(first), frame_size) == leftover(joined(second), frame_size),
{
    lemma_run_frames(first, frame_size);
    lemma_run_frames(second, frame_size);
}

/// A frame described by value: its index, its size and its bytes.
pub open spec fn frame_spec(f: Frame) -> (nat, nat, Seq<u8>) {
    (f.index as nat, f.size as nat, f.bytes())
}

/// The complete frames of `data`, described by value: frame `i` has index
/// `i`, size `frame_size` and the bytes from `i * frame_size` on.
pub open spec fn complete_frames(data: Seq<u8>, frame_size: nat) -> Seq<(nat, nat, Seq<u8>)> {
    Seq::new(
        full_frames(data, frame_size).len(),
        |i: int| (i as nat, frame_size, data.subrange(i * frame_size, (i + 1) * frame_size)),
    )
}

/// The number of frames a stream of `len` bytes is cut into, the last
/// short frame included: `len / frame_size` rounded up.
pub open spec fn frame_count(len: nat, frame_size: nat) -> nat {
    ((len + frame_size - 1) / (frame_size as int)) as nat
}

/// The size of frame `i` of a stream of `len` bytes: the frame size, or
/// what is left of the stream if that is less.
pub open spec fn frame_len(len: nat, frame_size: nat, i: int) -> nat {
    if len - i * frame_size < frame_size {
        (len - i * frame_size) as nat
    } else {
        frame_size
    }
}

/// Every frame of a whole run over `data`, the last short one included,
/// described by value: frame `i` has index `i`, size
/// `frame_len(|data|, frame_size, i)` and the bytes of `data` from
/// `i * frame_size` on.
pub open spec fn run_frames(data: Seq<u8>, frame_size: nat) -> Seq<(nat, nat, Seq<u8>)> {
    Seq::new(
        frame_count(data.len(), frame_size),
        |i: int|
            (
                i as nat,
                frame_len(data.len(), frame_size, i),
                data.subrange(i * frame_size, i * frame_size + frame_len(data.len(), frame_size, i)),
            ),
    )
}

/// The frames of a whole run are the complete frames, followed by one frame
/// holding the leftover when anything is left over.
pub proof fn lemma_run_frames_split(data: Seq<u8>, frame_size: nat)
    requires
        frame_size > 0,
    ensures
        run_frames(data, frame_size) == complete_frames(data, frame_size) + if leftover(
            data,
            frame_size,
        ).len() > 0 {
            seq![
                (
                    full_frames(data, frame_size).len(),
                    leftover(data, frame_size).len(),
                    leftover(data, frame_size),
                ),
            ]
        } else {
            Seq::<(nat, nat, Seq<u8>)>::empty()
        },
{
    let fs = frame_size as int;
    let len = data.len() as int;
    lemma_frame_shapes(data, frame_size);
    lemma_frame_positions(data, frame_size);
    let k = full_frames(data, frame_size).len() as int;
    let r = leftover(data, frame_size).len() as int;
    assert(k * fs + r == len);
    if r == 0 {
        vstd::arithmetic::div_mod::lemma_fundamental_div_mod_converse(len + fs - 1, fs, k, fs - 1);
    } else {
        assert((k + 1) * fs == k * fs + fs) by (nonlinear_arith);
        vstd::arithmetic::div_mod::lemma_fundamental_div_mod_converse(
            len + fs - 1,
            fs,
            k + 1,
            r - 1,
        );
    }
    let run = run_frames(data, frame_size);
    let complete = complete_frames(data, frame_size);
    let tail = if r > 0 {
        seq![(k as nat, r as nat, leftover(data, frame_size))]
    } else {
        Seq::<(nat, nat, Seq<u8>)>::empty()
    };
    assert(run.len() == complete.len() + tail.len());
    assert forall|i: int| 0 <= i < run.len() implies #[trigger] run[i] == (complete + tail)[i] by {
        if i < k {
            assert(i * fs + fs <= k * fs) by (nonlinear_arith)
                requires
                    i < k,
                    fs > 0,
            ;
            assert((i + 1) * fs == i * fs + fs) by (nonlinear_arith);
            assert(frame_len(data.len(), frame_size, i) == frame_size);
        } else {
            assert(i == k);
            assert(frame_len(data.len(), frame_size, i) == r);
            assert(data.subrange(k * fs, k * fs + r) =~= data.skip(k * fs));
        }
    }
    assert(run =~= complete + tail);
}

/// When more bytes arrive, the complete frames described so far stay as they
/// are, and the frames completed by the new bytes follow them, numbered on.
pub proof fn lemma_complete_frames_grow(old: Seq<u8>, more: Seq<u8>, frame_size: nat)
    requires
        frame_size > 0,
    ensures
        ({
            let before = full_frames(old, frame_size);
            let after = full_frames(old + more, frame_size);
            complete_frames(old + more, frame_size) == complete_frames(old, frame_size) + Seq::new(
                (after.len() - before.len()) as nat,
                |i: int| ((before.len() + i) as nat, frame_size, after[before.len() + i]),
            )
        }),
{
    let fs = frame_size as int;
    let new = old + more;
    let before = full_frames(old, frame_size);
    let after = full_frames(new, frame_size);
    lemma_frames_of_concat(old, more, frame_size);
    lemma_frame_shapes(old, frame_size);
    lemma_frame_positions(new, frame_size);
    assert(after.len() >= before.len());
    let lhs = complete_frames(new, frame_size);
    let added = Seq::new(
        (after.len() - before.len()) as nat,
        |i: int| ((before.len() + i) as nat, frame_size, after[before.len() + i]),
    );
    let rhs = complete_frames(old, frame_size) + added;
    assert forall|j: int| 0 <= j < lhs.len() implies #[trigger] lhs[j] == rhs[j] by {
        if j < before.len() {
            assert(0 <= j * fs && j * fs <= (j + 1) * fs && (j + 1) * fs <= before.len() * fs)
                by (nonlinear_arith)
                requires
                    0 <= j,
                    j + 1 <= before.len(),
                    fs > 0,
            ;
            assert(new.subrange(j * fs, (j + 1) * fs) =~= old.subrange(j * fs, (j + 1) * fs));
        } else {
            assert(after[j] == new.subrange(j * fs, (j + 1) * fs));
        }
    }
    assert(lhs =~= rhs);
}

} // verus!
