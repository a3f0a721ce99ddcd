//! UTC-aligned 15-second slot framing.
//!
//! [`SlotAssembler`] consumes a continuous stream of 12 kHz samples and emits
//! exactly one [`Slot`] of [`SLOT_SAMPLES`] samples per period boundary,
//! tagged with the UTC time of that boundary.
//!
//! Timing model: the stream start time is sampled once, and sample index `N`
//! is taken to be `N / SAMPLE_RATE` seconds after it.

use vstd::prelude::*;
use crate::seqs::{append_copy, copy_range};
use crate::time::{
    UtcTime, SLOT_SECS,
};

verus! {

/// Sample rate the decoder and slot framing operate at.
pub const SAMPLE_RATE: usize = 12_000;

/// Samples in one slot.
pub const SLOT_SAMPLES: usize = 180_000;

/// One complete 15 s slot of 12 kHz audio.
#[derive(Clone)]
pub struct Slot<S> {
    /// UTC time of the slot boundary (always a multiple of 15 s).
    pub utc: UtcTime,
    /// Exactly `SLOT_SAMPLES` mono samples at `SAMPLE_RATE`.
    pub samples: Vec<S>,
}

/// Assembles a continuous 12 kHz sample stream into UTC-aligned slots.
pub struct SlotAssembler<S> {
    buf: Vec<S>,
    /// Global sample index of `buf[0]`.
    buf_start: u64,
    /// Global sample index where the next slot begins.
    next_slot_start: u64,
    /// UTC time of the next slot boundary.
    next_slot_utc: UtcTime,
}

/// What an assembler holds: the samples from index `buf_start` on, and where
/// and when the next slot begins, which is always on a whole second.
#[verifier::ext_equal]
pub struct Framing<S> {
    pub buf: Seq<S>,
    pub buf_start: int,
    pub next_start: int,
    pub next_secs: int,
}

impl<S> Framing<S> {
    /// No sample of a slot that is still to come has been dropped.
    pub open spec fn ok(self) -> bool {
        0 <= self.buf_start <= self.next_start
    }

    /// Samples seen so far.
    pub open spec fn total(self) -> int {
        self.buf_start + self.buf.len()
    }

    /// Slots that `input` completes.
    pub open spec fn due(self, input: Seq<S>) -> int {
        let n = self.total() + input.len() - self.next_start;
        if n < SLOT_SAMPLES {
            0
        } else {
            n / (SLOT_SAMPLES as int)
        }
    }

    /// Samples can still be counted once `input` has been taken in, and the
    /// slots that it completes be dated.
    pub open spec fn room_for(self, input: Seq<S>) -> bool {
        &&& self.total() + input.len() + 2 * SLOT_SAMPLES <= u64::MAX
        &&& self.next_start + SLOT_SAMPLES <= u64::MAX
        &&& self.next_secs + self.due(input) * SLOT_SECS <= crate::time::MAX_SECS
    }

    /// The samples from global index `from` to `to`.
    pub open spec fn stretch(self, input: Seq<S>, from: int, to: int) -> Seq<S> {
        (self.buf + input).subrange(from - self.buf_start, to - self.buf_start)
    }

    /// Samples of the `j`-th slot that `input` completes.
    pub open spec fn slot_samples(self, input: Seq<S>, j: int) -> Seq<S> {
        self.stretch(
            input,
            self.next_start + j * SLOT_SAMPLES,
            self.next_start + (j + 1) * SLOT_SAMPLES,
        )
    }

    /// Boundary and samples of every slot that `input` completes.
    pub open spec fn slots(self, input: Seq<S>) -> Seq<(int, Seq<S>)> {
        Seq::new(
            self.due(input) as nat,
            |j: int| (self.next_secs + j * SLOT_SECS, self.slot_samples(input, j)),
        )
    }

    /// What is held once `input` has been taken in.
    pub open spec fn after(self, input: Seq<S>) -> Framing<S> {
        let all = self.buf + input;
        let next = self.next_start + self.due(input) * SLOT_SAMPLES;
        let keep = if next - self.buf_start < all.len() {
            next - self.buf_start
        } else {
            all.len() as int
        };
        Framing {
            buf: all.skip(keep),
            buf_start: self.buf_start + keep,
            next_start: next,
            next_secs: self.next_secs + self.due(input) * SLOT_SECS,
        }
    }
}

/// Sample index of the first boundary after `start`.
pub open spec fn lead_in(start: UtcTime) -> int {
    let ms = crate::time::millis_between(
        UtcTime { secs: first_boundary(start) as i64, nanos: 0 },
        start,
    );
    if ms < 0 {
        0
    } else {
        ms * SAMPLE_RATE / 1000
    }
}

/// The first 15 s boundary strictly after the second that holds `start`.
pub open spec fn first_boundary(start: UtcTime) -> int {
    (crate::time::slot_index(start.secs as int) + 1) * SLOT_SECS
}

/// What an assembler holds at first if its stream begins at `start`.
pub open spec fn fresh<S>(start: UtcTime) -> Framing<S> {
    Framing {
        buf: seq![],
        buf_start: 0,
        next_start: lead_in(start),
        next_secs: first_boundary(start),
    }
}

impl<S> View for SlotAssembler<S> {
    type V = Framing<S>;

    closed spec fn view(&self) -> Framing<S> {
        Framing {
            buf: self.buf@,
            buf_start: self.buf_start as int,
            next_start: self.next_slot_start as int,
            next_secs: self.next_slot_utc.secs as int,
        }
    }
}

impl<S> SlotAssembler<S> {
    /// The next boundary is a whole multiple of 15 s and an instant that
    /// exists; no sample that a later slot needs has been dropped.
    #[verifier::type_invariant]
    spec fn inv(self) -> bool {
        &&& self.buf_start <= self.next_slot_start
        &&& self.next_slot_utc.wf()
        &&& self.next_slot_utc.nanos == 0
        &&& self.next_slot_utc.secs as int % SLOT_SECS as int == 0
    }
}

impl<S: Copy> SlotAssembler<S> {
    /// Create an assembler whose stream begins at `stream_start`.
    pub fn new(stream_start: UtcTime) -> (res: Self)
        requires
            stream_start.wf(),
            first_boundary(stream_start) <= crate::time::MAX_SECS,
        ensures
            res@ == fresh::<S>(stream_start),
    {
        let next: i64 = (stream_start.slot() + 1) * SLOT_SECS;
        let next_slot_utc = UtcTime::from_timestamp(next, 0).unwrap();
        let ms: i64 = next_slot_utc.millis_since(stream_start);
        let next_slot_start: u64 = if ms < 0 {
            0
        } else {
            ms as u64 * (SAMPLE_RATE as u64) / 1000
        };
        SlotAssembler { buf: Vec::new(), buf_start: 0, next_slot_start, next_slot_utc }
    }

    /// UTC boundary of the slot currently being filled.
    pub fn next_slot_utc(&self) -> (res: UtcTime)
        ensures
            res.secs == self@.next_secs,
            res.nanos == 0,
            res.secs as int % SLOT_SECS as int == 0,
            res.wf(),
    {
        proof {
            use_type_invariant(self);
        }
        self.next_slot_utc
    }

    /// Whether `n` more samples can be counted, and the slots that they
    /// complete be dated.
    pub fn accepts(&self, n: usize) -> (r: bool)
        ensures
            forall|input: Seq<S>| input.len() == n ==> r == #[trigger] self@.room_for(input),
    {
        proof {
            use_type_invariant(self);
        }
        let len: u128 = SLOT_SAMPLES as u128;
        let max: u128 = u64::MAX as u128;
        let total: u128 = self.buf_start as u128 + self.buf.len() as u128 + n as u128;
        let next: u128 = self.next_slot_start as u128;
        if total + 2 * len > max || next + len > max {
            return false;
        }
        let due: u64 = if total < next + len {
            0
        } else {
            ((total - next) / (SLOT_SAMPLES as u128)) as u64
        };
        assert(due <= u64::MAX / 180_000);
        let later: i64 = due as i64 * SLOT_SECS;
        let secs: i64 = self.next_slot_utc.secs + later;
        secs <= crate::time::MAX_SECS
    }

    /// Feed resampled 12 kHz samples; returns any slots that completed.
    pub fn push(&mut self, samples: &[S]) -> (out: Vec<Slot<S>>)
        requires
            old(self)@.room_for(samples@),
        ensures
            final(self)@ == old(self)@.after(samples@),
            old(self)@.ok(),
            out@.len() == old(self)@.slots(samples@).len(),
            forall|j: int|
                0 <= j < out@.len() ==> {
                    let slot = #[trigger] out@[j];
                    &&& (slot.utc.secs as int, slot.samples@) == old(self)@.slots(samples@)[j]
                    &&& slot.utc.wf()
                    &&& slot.utc.nanos == 0
                    &&& slot.utc.secs as int % SLOT_SECS as int == 0
                    &&& slot.samples@.len() == SLOT_SAMPLES
                },
    {
        proof {
            use_type_invariant(&*self);
        }
        let ghost before = self@;
        let mut buf: Vec<S> = Vec::new();
        std::mem::swap(&mut buf, &mut self.buf);
        append_copy(&mut buf, samples);
        let buf_start: u64 = self.buf_start;
        let mut next_slot_start: u64 = self.next_slot_start;
        let mut next_slot_utc: UtcTime = self.next_slot_utc;
        let total: u64 = buf_start + buf.len() as u64;
        let mut out: Vec<Slot<S>> = Vec::new();
        while total >= next_slot_start + SLOT_SAMPLES as u64
            invariant
                before.ok(),
                before.buf_start == buf_start,
                buf@ == before.buf + samples@,
                total == before.total() + samples@.len(),
                total == buf_start + buf.len(),
                total + 2 * SLOT_SAMPLES <= u64::MAX,
                before.next_start + SLOT_SAMPLES <= u64::MAX,
                next_slot_start == before.next_start + out@.len() * SLOT_SAMPLES,
                next_slot_utc.secs == before.next_secs + out@.len() * SLOT_SECS,
                next_slot_utc.secs as int % SLOT_SECS as int == 0,
                next_slot_utc.nanos == 0,
                next_slot_utc.wf(),
                out@.len() == 0 || next_slot_start <= total,
                before.next_secs + before.due(samples@) * SLOT_SECS <= crate::time::MAX_SECS,
                forall|j: int|
                    0 <= j < out@.len() ==> {
                        let slot = #[trigger] out@[j];
                        &&& slot.utc.secs == before.next_secs + j * SLOT_SECS
                        &&& slot.utc.wf()
                        &&& slot.utc.nanos == 0
                        &&& slot.utc.secs as int % SLOT_SECS as int == 0
                        &&& slot.samples@ == before.slot_samples(samples@, j)
                        &&& slot.samples@.len() == SLOT_SAMPLES
                    },
            decreases total - next_slot_start,
        {
            let local: usize = (next_slot_start - buf_start) as usize;
            let slot = Slot {
                utc: next_slot_utc,
                samples: copy_range(buf.as_slice(), local, local + SLOT_SAMPLES),
            };
            proof {
                let k = out@.len() as int;
                let n = before.total() + samples@.len() - before.next_start;
                assert(n >= (k + 1) * SLOT_SAMPLES);
                assert(before.due(samples@) >= k + 1);
            }
            out.push(slot);
            next_slot_start = next_slot_start + SLOT_SAMPLES as u64;
            next_slot_utc = next_slot_utc.plus_millis(15_000);
        }
        proof {
            let k = out@.len() as int;
            let n = before.total() + samples@.len() - before.next_start;
            assert(n < (k + 1) * SLOT_SAMPLES);
            assert(k > 0 ==> n >= k * SLOT_SAMPLES);
            assert(before.due(samples@) == k);
        }
        // Drop consumed history to bound memory.
        let ahead: u64 = next_slot_start - buf_start;
        let keep_from: usize = if ahead < buf.len() as u64 {
            ahead as usize
        } else {
            buf.len()
        };
        let rest = if keep_from == 0 {
            buf
        } else {
            copy_range(buf.as_slice(), keep_from, buf.len())
        };
        self.next_slot_start = next_slot_start;
        self.next_slot_utc = next_slot_utc;
        self.buf_start = buf_start + keep_from as u64;
        self.buf = rest;
        assert(self@ == before.after(samples@));
        out
    }
}

/// A fresh assembler cuts the stream into consecutive slots: the `j`-th one
/// begins `j` slot lengths after the lead-in and `j` periods after the first
/// boundary, and no sample in between is lost or repeated.
pub proof fn lemma_slots_cover_the_stream<S>(start: UtcTime, stream: Seq<S>, j: int)
    requires
        start.wf(),
        first_boundary(start) <= crate::time::MAX_SECS,
        0 <= j,
        lead_in(start) + (j + 1) * SLOT_SAMPLES <= stream.len(),
    ensures
        ({
            let held = fresh::<S>(start);
            &&& j < held.slots(stream).len()
            &&& held.slots(stream)[j].0 == first_boundary(start) + j * SLOT_SECS
            &&& held.slots(stream)[j].1 == stream.subrange(
                lead_in(start) + j * SLOT_SAMPLES,
                lead_in(start) + (j + 1) * SLOT_SAMPLES,
            )
        }),
{
    assert(Seq::<S>::empty() + stream == stream);
}

/// Consumed history is dropped: what is held between calls never reaches one
/// slot.
pub proof fn lemma_history_is_bounded<S>(held: Framing<S>, input: Seq<S>)
    requires
        held.ok(),
    ensures
        held.after(input).buf.len() < SLOT_SAMPLES,
{
}

/// Chunking does not matter: feeding `a` and then `b` completes the same
/// slots, and leaves the same state, as feeding both at once.
pub proof fn lemma_chunking<S>(held: Framing<S>, a: Seq<S>, b: Seq<S>)
    requires
        held.ok(),
    ensures
        held.after(a).ok(),
        held.slots(a + b) == held.slots(a) + held.after(a).slots(b),
        held.after(a + b) == held.after(a).after(b),
{
    let mid = held.after(a);
    let k1 = held.due(a);
    let k2 = mid.due(b);
    let n = held.total() + (a + b).len() - held.next_start;
    assert((held.buf + a) + b == held.buf + (a + b));
    assert(mid.total() == held.total() + a.len());
    assert(mid.next_start == held.next_start + k1 * SLOT_SAMPLES);
    assert(held.due(a + b) == k1 + k2) by {
        let m = n - k1 * SLOT_SAMPLES;
        assert(k1 > 0 ==> m >= 0);
        assert(n / (SLOT_SAMPLES as int) == k1 + m / (SLOT_SAMPLES as int));
    }
    assert forall|j: int| 0 <= j < k1 implies held.slots(a + b)[j] == held.slots(a)[j] by {
        assert(held.slot_samples(a + b, j) == held.slot_samples(a, j));
    }
    assert forall|j: int| 0 <= j < k2 implies held.slots(a + b)[k1 + j] == mid.slots(b)[j] by {
        assert(held.slot_samples(a + b, k1 + j) == mid.slot_samples(b, j));
    }
    assert(held.slots(a + b) == held.slots(a) + mid.slots(b));
    assert(held.after(a + b).buf == mid.after(b).buf);
}

/// What is held once the chunks have been taken in, in turn.
pub open spec fn after_all<S>(held: Framing<S>, chunks: Seq<Seq<S>>) -> Framing<S>
    decreases chunks.len(),
{
    if chunks.len() == 0 {
        held
    } else {
        after_all(held, chunks.drop_last()).after(chunks.last())
    }
}

/// Every slot that the chunks complete, taken in in turn.
pub open spec fn slots_of_all<S>(held: Framing<S>, chunks: Seq<Seq<S>>) -> Seq<(int, Seq<S>)>
    decreases chunks.len(),
{
    if chunks.len() == 0 {
        seq![]
    } else {
        slots_of_all(held, chunks.drop_last()) + after_all(held, chunks.drop_last()).slots(
            chunks.last(),
        )
    }
}

/// Chunks taken in in turn come to the same as their samples at once.
proof fn lemma_chunks_join<S>(start: UtcTime, chunks: Seq<Seq<S>>)
    ensures
        after_all(fresh(start), chunks).ok(),
        after_all(fresh(start), chunks) == fresh::<S>(start).after(chunks.flatten()),
        slots_of_all(fresh(start), chunks) == fresh::<S>(start).slots(chunks.flatten()),
    decreases chunks.len(),
{
    let held = fresh::<S>(start);
    if chunks.len() == 0 {
        let none = Seq::<S>::empty();
        assert(chunks.flatten() == none);
        assert(held.due(none) == 0);
        assert(held.after(none) =~= held);
        assert(held.slots(none) =~= seq![]);
    } else {
        let front = chunks.drop_last();
        lemma_chunks_join(start, front);
        lemma_chunking(held, front.flatten(), chunks.last());
        lemma_chunking(held, front.flatten() + chunks.last(), seq![]);
        front.lemma_flatten_push(chunks.last());
        assert(front.push(chunks.last()) == chunks);
    }
}

/// However the stream is cut into chunks, the slots that come out are the
/// same: as many as fit behind the lead-in, one period apart from the first
/// boundary on, each with its own stretch of the stream. No sample is lost,
/// repeated or moved.
pub proof fn lemma_any_chunking<S>(start: UtcTime, chunks: Seq<Seq<S>>)
    ensures
        ({
            let stream = chunks.flatten();
            let lead = lead_in(start);
            let count = if stream.len() < lead {
                0
            } else {
                (stream.len() - lead) / (SLOT_SAMPLES as int)
            };
            &&& slots_of_all(fresh(start), chunks).len() == count
            &&& forall|k: int|
                0 <= k < count ==> #[trigger] slots_of_all(fresh(start), chunks)[k] == (
                    first_boundary(start) + k * SLOT_SECS,
                    stream.subrange(lead + k * SLOT_SAMPLES, lead + (k + 1) * SLOT_SAMPLES),
                )
            &&& after_all(fresh::<S>(start), chunks).next_secs == first_boundary(start) + count
                * SLOT_SECS
            &&& after_all(fresh::<S>(start), chunks).total() == stream.len()
        }),
{
    let stream = chunks.flatten();
    lemma_chunks_join(start, chunks);
    assert(Seq::<S>::empty() + stream == stream);
}

} // verus!
