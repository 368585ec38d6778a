use vstd::prelude::*;

use crate::error::AppError;
use crate::frame::{full_frames, leftover, lemma_frame_shapes, lemma_run_frames_split, run_frames, Frame};

verus! {

/// The sum of a sequence of frame sizes.
pub open spec fn sum_sizes(sizes: Seq<nat>) -> nat
    decreases sizes.len(),
{
    if sizes.len() == 0 {
        0
    } else {
        sum_sizes(sizes.drop_last()) + sizes.last()
    }
}

/// What a consumer learned from one attempt to take a frame off the shared
/// queue.
pub enum ConsumerEvent {
    /// A frame was taken off the front of the queue.
    Popped(Frame),
    /// The queue was empty; `producer_done` tells whether the producer had
    /// announced, before this attempt took the lock, that no more frames
    /// will come (so an empty queue then means every frame was taken).
    Empty { producer_done: bool },
    /// The queue's lock was poisoned.
    Poisoned,
}

/// What the consumer loop does next.
pub enum ConsumerStep {
    /// Try the queue again at once.
    Continue,
    /// Give the other tasks a turn, then try again.
    Wait,
    /// Stop: no frame is left and none will come. Carries the total number
    /// of bytes consumed.
    Finished(usize),
    /// Stop with this error.
    Failed(AppError),
}

/// A consumer's running count of the frames and bytes it has processed.
pub struct Consumer {
    total_bytes: usize,
    frames_consumed: usize,
    sizes: Ghost<Seq<nat>>,
}

impl Consumer {
    /// The sizes of the frames consumed so far, in the order they were taken.
    pub closed spec fn consumed(&self) -> Seq<nat> {
        self.sizes@
    }

    /// The running counters agree with the frames consumed.
    pub closed spec fn wf(&self) -> bool {
        &&& self.total_bytes == sum_sizes(self.sizes@)
        &&& self.frames_consumed == self.sizes@.len()
    }

    /// Whether one more frame of `size` bytes can be counted without
    /// leaving `usize`.
    pub open spec fn can_record(&self, size: nat) -> bool {
        &&& sum_sizes(self.consumed()) + size <= usize::MAX
        &&& self.consumed().len() + 1 <= usize::MAX
    }

    /// A consumer that has processed nothing.
    pub fn new() -> (c: Self)
        ensures
            c.wf(),
            c.consumed() == Seq::<nat>::empty(),
    {
        Consumer { total_bytes: 0, frames_consumed: 0, sizes: Ghost(Seq::empty()) }
    }

    /// The number of bytes consumed so far.
    pub fn total_bytes(&self) -> (n: usize)
        requires
            self.wf(),
        ensures
            n == sum_sizes(self.consumed()),
    {
        self.total_bytes
    }

    /// The number of frames consumed so far.
    pub fn frames_consumed(&self) -> (n: usize)
        requires
            self.wf(),
        ensures
            n == self.consumed().len(),
    {
        self.frames_consumed
    }

    /// Tells whether a frame of `size` bytes can be counted (see
    /// `can_record`).
    pub fn accepts(&self, size: usize) -> (b: bool)
        requires
            self.wf(),
        ensures
            b == self.can_record(size as nat),
            b <==> (sum_sizes(self.consumed().push(size as nat)) <= usize::MAX && self.consumed().push(
                size as nat,
            ).len() <= usize::MAX),
    {
        proof {
            lemma_frame_refused_only_on_overflow(*self, size as nat);
        }
        size <= usize::MAX - self.total_bytes && self.frames_consumed < usize::MAX
    }

    /// Decides what to do after one attempt to take a frame.
    ///
    /// A frame is counted and the loop goes on. An empty queue ends the loop
    /// with the total once the producer is done, and otherwise waits. A
    /// poisoned lock ends it with `LockPoisoned`.
    pub fn step(&mut self, event: ConsumerEvent) -> (r: ConsumerStep)
        requires
            old(self).wf(),
            event matches ConsumerEvent::Popped(f) ==> old(self).can_record(f.size as nat),
        ensures
            final(self).wf(),
            r is Finished ==> event matches ConsumerEvent::Empty { producer_done: true },
            match event {
                ConsumerEvent::Popped(f) => {
                    &&& final(self).consumed() == old(self).consumed().push(f.size as nat)
                    &&& r is Continue
                },
                ConsumerEvent::Empty { producer_done } => {
                    &&& final(self).consumed() == old(self).consumed()
                    &&& producer_done ==> r == ConsumerStep::Finished(
                        sum_sizes(old(self).consumed()) as usize,
                    )
                    &&& !producer_done ==> r is Wait
                },
                ConsumerEvent::Poisoned => {
                    &&& final(self).consumed() == old(self).consumed()
                    &&& r == ConsumerStep::Failed(AppError::LockPoisoned)
                },
            },
    {
        match event {
            ConsumerEvent::Popped(f) => {
                proof {
                    let next = self.sizes@.push(f.size as nat);
                    assert(next.drop_last() =~= self.sizes@);
                    self.sizes = Ghost(next);
                }
                self.total_bytes = self.total_bytes + f.size;
                self.frames_consumed = self.frames_consumed + 1;
                ConsumerStep::Continue
            },
            ConsumerEvent::Empty { producer_done } => {
                if producer_done {
                    ConsumerStep::Finished(self.total_bytes)
                } else {
                    ConsumerStep::Wait
                }
            },
            ConsumerEvent::Poisoned => ConsumerStep::Failed(AppError::LockPoisoned),
        }
    }
}

/// The sizes of the frames that `data` is cut into: one of `frame_size` for
/// every complete frame, then the leftover's length if anything is left over.
spec fn produced_sizes(data: Seq<u8>, frame_size: nat) -> Seq<nat> {
    let full = full_frames(data, frame_size).map_values(|f: Seq<u8>| f.len());
    if leftover(data, frame_size).len() > 0 {
        full.push(leftover(data, frame_size).len())
    } else {
        full
    }
}

/// The sizes of the frames of a whole run over `data`, in order.
pub open spec fn run_sizes(data: Seq<u8>, frame_size: nat) -> Seq<nat> {
    run_frames(data, frame_size).map_values(|t: (nat, nat, Seq<u8>)| t.1)
}

proof fn lemma_sum_constant(sizes: Seq<nat>, value: nat)
    requires
        forall|i: int| 0 <= i < sizes.len() ==> #[trigger] sizes[i] == value,
    ensures
        sum_sizes(sizes) == sizes.len() * value,
    decreases sizes.len(),
{
    if sizes.len() > 0 {
        lemma_sum_constant(sizes.drop_last(), value);
        assert((sizes.len() - 1) * value + value == sizes.len() * value) by (nonlinear_arith);
    }
}

/// Conservation: the sizes of all frames of a run over a stream, the last
/// short frame included, add up to the length of the stream. So consumers
/// that take every frame count exactly the number of bytes downloaded.
pub proof fn lemma_bytes_conserved(data: Seq<u8>, frame_size: nat)
    requires
        frame_size > 0,
    ensures
        sum_sizes(run_sizes(data, frame_size)) == data.len(),
{
    lemma_frame_shapes(data, frame_size);
    lemma_run_frames_split(data, frame_size);
    let full = full_frames(data, frame_size).map_values(|f: Seq<u8>| f.len());
    assert forall|i: int| 0 <= i < full.len() implies #[trigger] full[i] == frame_size by {
        assert(full_frames(data, frame_size)[i].len() == frame_size);
    }
    lemma_sum_constant(full, frame_size);
    let rest = leftover(data, frame_size);
    if rest.len() > 0 {
        assert(full.push(rest.len()).drop_last() =~= full);
    }
    assert(run_sizes(data, frame_size) =~= produced_sizes(data, frame_size));
}

/// The sizes, in order, of the frames in `sizes` that `owner` gives to
/// worker `w`.
pub open spec fn assigned(sizes: Seq<nat>, owner: Seq<nat>, w: nat) -> Seq<nat>
    decreases sizes.len(),
{
    if sizes.len() == 0 || owner.len() == 0 {
        Seq::empty()
    } else {
        let earlier = assigned(sizes.drop_last(), owner.drop_last(), w);
        if owner.last() == w {
            earlier.push(sizes.last())
        } else {
            earlier
        }
    }
}

/// The totals that workers `0..workers` report, added up.
pub open spec fn workers_total(sizes: Seq<nat>, owner: Seq<nat>, workers: nat) -> nat
    decreases workers,
{
    if workers == 0 {
        0
    } else {
        workers_total(sizes, owner, (workers - 1) as nat) + sum_sizes(
            assigned(sizes, owner, (workers - 1) as nat),
        )
    }
}

proof fn lemma_workers_total_push(
    sizes: Seq<nat>,
    owner: Seq<nat>,
    size: nat,
    w: nat,
    workers: nat,
)
    requires
        sizes.len() == owner.len(),
    ensures
        workers_total(sizes.push(size), owner.push(w), workers) == workers_total(
            sizes,
            owner,
            workers,
        ) + if w < workers {
            size
        } else {
            0
        },
    decreases workers,
{
    if workers > 0 {
        let k = (workers - 1) as nat;
        lemma_workers_total_push(sizes, owner, size, w, k);
        let s2 = sizes.push(size);
        let o2 = owner.push(w);
        assert(s2.drop_last() =~= sizes);
        assert(o2.drop_last() =~= owner);
        let a = assigned(sizes, owner, k);
        if w == k {
            assert(assigned(s2, o2, k) == a.push(size));
            assert(a.push(size).drop_last() =~= a);
        } else {
            assert(assigned(s2, o2, k) == a);
        }
    }
}

/// Sharing the queue among several workers loses and duplicates nothing:
/// whichever worker takes each frame, the workers' totals add up to the
/// sizes of all frames.
pub proof fn lemma_workers_share_total(sizes: Seq<nat>, owner: Seq<nat>, workers: nat)
    requires
        sizes.len() == owner.len(),
        forall|i: int| 0 <= i < owner.len() ==> #[trigger] owner[i] < workers,
    ensures
        workers_total(sizes, owner, workers) == sum_sizes(sizes),
    decreases sizes.len(),
{
    if sizes.len() == 0 {
        lemma_workers_total_empty(sizes, owner, workers);
    } else {
        let s0 = sizes.drop_last();
        let o0 = owner.drop_last();
        lemma_workers_share_total(s0, o0, workers);
        lemma_workers_total_push(s0, o0, sizes.last(), owner.last(), workers);
        assert(s0.push(sizes.last()) =~= sizes);
        assert(o0.push(owner.last()) =~= owner);
    }
}

proof fn lemma_workers_total_empty(sizes: Seq<nat>, owner: Seq<nat>, workers: nat)
    requires
        sizes.len() == 0,
    ensures
        workers_total(sizes, owner, workers) == 0,
    decreases workers,
{
    if workers > 0 {
        lemma_workers_total_empty(sizes, owner, (workers - 1) as nat);
    }
}

/// The totals of a list of consumers, added up.
pub open spec fn consumers_total(workers: Seq<Consumer>) -> nat
    decreases workers.len(),
{
    if workers.len() == 0 {
        0
    } else {
        consumers_total(workers.drop_last()) + sum_sizes(workers.last().consumed())
    }
}

proof fn lemma_consumers_total_prefix(
    workers: Seq<Consumer>,
    sizes: Seq<nat>,
    owner: Seq<nat>,
    n: nat,
)
    requires
        n <= workers.len(),
        forall|w: int| 0 <= w < workers.len() ==> #[trigger] workers[w].consumed() == assigned(
            sizes,
            owner,
            w as nat,
        ),
    ensures
        consumers_total(workers.take(n as int)) == workers_total(sizes, owner, n),
    decreases n,
{
    if n > 0 {
        lemma_consumers_total_prefix(workers, sizes, owner, (n - 1) as nat);
        assert(workers.take(n as int).drop_last() =~= workers.take(n - 1));
        assert(workers.take(n as int).last() == workers[n - 1]);
    }
}

/// Every downloaded byte is counted exactly once: when the frames of a run
/// over `data` are shared among consumers, each consumer having taken, in
/// order, the frames that `owner` gives it, the consumers' totals add up to
/// the length of `data`.
pub proof fn lemma_every_byte_counted_once(
    data: Seq<u8>,
    frame_size: nat,
    workers: Seq<Consumer>,
    owner: Seq<nat>,
)
    requires
        frame_size > 0,
        owner.len() == run_frames(data, frame_size).len(),
        forall|i: int| 0 <= i < owner.len() ==> #[trigger] owner[i] < workers.len(),
        forall|w: int| 0 <= w < workers.len() ==> #[trigger] workers[w].consumed() == assigned(
            run_sizes(data, frame_size),
            owner,
            w as nat,
        ),
    ensures
        consumers_total(workers) == data.len(),
{
    let sizes = run_sizes(data, frame_size);
    lemma_consumers_total_prefix(workers, sizes, owner, workers.len());
    assert(workers.take(workers.len() as int) =~= workers);
    lemma_workers_share_total(sizes, owner, workers.len());
    lemma_bytes_conserved(data, frame_size);
}

/// A frame is refused only when counting it would overflow: `can_record`
/// holds exactly when the total of the sizes consumed with this frame added,
/// and the number of frames consumed with it, both fit in `usize`. No limit
/// on the number of frames or on their sizes applies below that.
pub proof fn lemma_frame_refused_only_on_overflow(c: Consumer, size: nat)
    ensures
        c.can_record(size) <==> (sum_sizes(c.consumed().push(size)) <= usize::MAX
            && c.consumed().push(size).len() <= usize::MAX),
{
    assert(c.consumed().push(size).drop_last() =~= c.consumed());
}

} // verus!
