//! The processing pipeline.
//!
//! Takes 12 kHz samples and cuts them two ways on one clock: into sliding
//! FFT windows for the waterfall, and into UTC-aligned 15 s slots for the
//! decoder. Both are timed by their position in the audio stream, so that a
//! waterfall column and a decode of the same instant fall into the same
//! slot.

use vstd::prelude::*;
use crate::seqs::{append_copy, copy_range};
use crate::slot::{Slot, SlotAssembler};
use crate::time::UtcTime;

verus! {

/// FFT size for the waterfall (2.93 Hz/bin at 12 kHz).
pub const FFT_N: usize = 4096;

/// Hop between waterfall columns.
pub const HOP: usize = 1024;

/// Number of low bins forwarded for display (0 to about 3 kHz).
pub const WF_BINS: usize = 1024;

/// Samples in a millisecond of the 12 kHz stream.
pub const SAMPLES_PER_MS: u64 = 12;

/// Events the pipeline emits to the UI.
pub enum PipelineEvent<F> {
    /// One waterfall column: linear magnitudes and the UTC of the column, so
    /// that slot-boundary markers fall on true 15 s marks.
    Spectrum { utc: UtcTime, mags: Vec<F> },
    /// RMS level of the most recent chunk (roughly 0..1).
    Level(F),
    /// A slot was framed and forwarded to the decoder.
    SlotCaptured { utc: UtcTime, samples: usize },
}

/// One FFT window of the stream.
pub struct Column<S> {
    /// Sample index of the window's centre.
    pub centre: u64,
    /// The window's `FFT_N` samples.
    pub window: Vec<S>,
}

/// Cuts the sample stream into overlapping FFT windows.
pub struct ColumnFramer<S> {
    acc: Vec<S>,
    /// Samples taken in so far.
    seen: u64,
}

/// What a [`ColumnFramer`] holds: the latest samples, and how many there were
/// in all.
#[verifier::ext_equal]
pub struct Framed<S> {
    pub acc: Seq<S>,
    pub seen: int,
}

impl<S> Framed<S> {
    /// What is held has been seen.
    pub open spec fn ok(self) -> bool {
        self.acc.len() <= self.seen
    }

    /// Sample index of the oldest sample held.
    pub open spec fn start(self) -> int {
        self.seen - self.acc.len()
    }

    /// Windows that `n` further samples complete.
    pub open spec fn count(self, n: int) -> int {
        if self.acc.len() + n < FFT_N {
            0
        } else {
            (self.acc.len() + n - FFT_N) / (HOP as int) + 1
        }
    }

    /// Centre and samples of the `j`-th window that `input` completes.
    pub open spec fn column(self, input: Seq<S>, j: int) -> (int, Seq<S>) {
        (
            self.start() + j * HOP + FFT_N / 2,
            (self.acc + input).subrange(j * HOP, j * HOP + FFT_N),
        )
    }

    /// Every window that `input` completes.
    pub open spec fn columns(self, input: Seq<S>) -> Seq<(int, Seq<S>)> {
        Seq::new(self.count(input.len() as int) as nat, |j: int| self.column(input, j))
    }

    /// What is held once `input` has been taken in.
    pub open spec fn after(self, input: Seq<S>) -> Self {
        Framed {
            acc: (self.acc + input).skip(self.count(input.len() as int) * HOP),
            seen: self.seen + input.len(),
        }
    }
}

impl<S> View for ColumnFramer<S> {
    type V = Framed<S>;

    closed spec fn view(&self) -> Framed<S> {
        Framed { acc: self.acc@, seen: self.seen as int }
    }
}

impl<S> ColumnFramer<S> {
    #[verifier::type_invariant]
    spec fn inv(self) -> bool {
        self@.ok()
    }
}

impl<S: Copy> ColumnFramer<S> {
    /// A framer at the start of the stream.
    pub fn new() -> (f: Self)
        ensures
            f@ == (Framed::<S> { acc: seq![], seen: 0 }),
    {
        ColumnFramer { acc: Vec::new(), seen: 0 }
    }

    /// Whether `n` more samples can be counted.
    pub fn accepts(&self, n: usize) -> (r: bool)
        ensures
            r == (self@.seen + n <= u64::MAX),
    {
        n as u64 <= u64::MAX - self.seen
    }

    /// Feed samples; returns the FFT windows that they complete, in order.
    pub fn push(&mut self, samples: &[S]) -> (out: Vec<Column<S>>)
        requires
            old(self)@.seen + samples@.len() <= u64::MAX,
        ensures
            old(self)@.ok(),
            final(self)@ == old(self)@.after(samples@),
            out@.len() == old(self)@.columns(samples@).len(),
            forall|j: int|
                0 <= j < out@.len() ==> {
                    let c = #[trigger] out@[j];
                    &&& (c.centre as int, c.window@) == old(self)@.columns(samples@)[j]
                    &&& c.window@.len() == FFT_N
                },
    {
        proof {
            use_type_invariant(&*self);
        }
        let ghost before = self@;
        let seen: u64 = self.seen + samples.len() as u64;
        let mut acc: Vec<S> = Vec::new();
        std::mem::swap(&mut acc, &mut self.acc);
        append_copy(&mut acc, samples);
        let start: u64 = seen - acc.len() as u64;
        let mut at: usize = 0;
        let mut out: Vec<Column<S>> = Vec::new();
        while acc.len() - at >= FFT_N
            invariant
                acc@ == before.acc + samples@,
                start == before.start(),
                start + acc@.len() == seen,
                at <= acc@.len(),
                at == out@.len() * HOP,
                out@.len() > 0 ==> at - HOP + FFT_N <= acc@.len(),
                forall|j: int|
                    0 <= j < out@.len() ==> {
                        let c = #[trigger] out@[j];
                        &&& (c.centre as int, c.window@) == before.column(samples@, j)
                        &&& c.window@.len() == FFT_N
                    },
            decreases acc@.len() - at,
        {
            let centre: u64 = start + at as u64 + FFT_N as u64 / 2;
            out.push(Column { centre, window: copy_range(acc.as_slice(), at, at + FFT_N) });
            at = at + HOP;
        }
        assert(before.count(samples@.len() as int) == out@.len());
        let rest = copy_range(acc.as_slice(), at, acc.len());
        assert(rest@ == acc@.skip(at as int));
        self.seen = seen;
        self.acc = rest;
        assert(self@ == before.after(samples@));
        out
    }
}

/// Chunking does not matter: feeding `a` and then `b` completes the same
/// windows, and leaves the same state, as feeding both at once.
pub proof fn lemma_column_chunking<S>(f: Framed<S>, a: Seq<S>, b: Seq<S>)
    requires
        f.ok(),
    ensures
        f.after(a).ok(),
        f.columns(a + b) == f.columns(a) + f.after(a).columns(b),
        f.after(a + b) == f.after(a).after(b),
{
    let mid = f.after(a);
    let (m, n) = (a.len() as int, b.len() as int);
    let k1 = f.count(m);
    let k2 = mid.count(n);
    assert(0 <= k1 * HOP <= f.acc.len() + m);
    assert(mid.acc.len() == f.acc.len() + m - k1 * HOP);
    assert(f.count(m + n) == k1 + k2);
    let all = f.acc + (a + b);
    assert(all == (f.acc + a) + b);
    assert(mid.acc + b == all.skip(k1 * HOP));
    assert forall|j: int| 0 <= j < k1 implies f.column(a + b, j) == #[trigger] f.column(a, j) by {
        assert(f.column(a + b, j).1 =~= f.column(a, j).1);
    }
    assert forall|j: int| 0 <= j < k2 implies f.column(a + b, k1 + j) == #[trigger] mid.column(
        b,
        j,
    ) by {
        assert(f.column(a + b, k1 + j).1 =~= mid.column(b, j).1);
    }
    assert(f.columns(a + b) =~= f.columns(a) + mid.columns(b));
    assert(f.after(a + b).acc =~= mid.after(b).acc);
}

/// The low bins of a spectrum that are displayed.
pub fn low_bins<F: Copy>(mags: &[F]) -> (low: Vec<F>)
    ensures
        low@ == if mags@.len() < WF_BINS {
            mags@
        } else {
            mags@.take(WF_BINS as int)
        },
{
    let n: usize = if mags.len() < WF_BINS {
        mags.len()
    } else {
        WF_BINS
    };
    let low = copy_range(mags, 0, n);
    assert(low@ == mags@.take(n as int));
    assert(mags@.take(mags@.len() as int) == mags@);
    low
}

/// Both cuts of one sample stream.
pub struct Pipeline<S> {
    assembler: SlotAssembler<S>,
    columns: ColumnFramer<S>,
    start: UtcTime,
}

/// What a chunk of samples completed.
pub struct Batch<S> {
    pub columns: Vec<Column<S>>,
    pub slots: Vec<Slot<S>>,
}

/// What a [`Pipeline`] holds.
#[verifier::ext_equal]
pub struct PipelineState<S> {
    pub slots: crate::slot::Framing<S>,
    pub columns: Framed<S>,
    pub start: UtcTime,
}

impl<S> PipelineState<S> {
    /// Samples can still be counted once `input` has been taken in, and the
    /// slots that it completes be dated.
    pub open spec fn room_for(self, input: Seq<S>) -> bool {
        &&& self.columns.seen + input.len() <= u64::MAX
        &&& self.slots.room_for(input)
    }

    /// What is held once `input` has been taken in.
    pub open spec fn after(self, input: Seq<S>) -> Self {
        PipelineState {
            slots: self.slots.after(input),
            columns: self.columns.after(input),
            start: self.start,
        }
    }
}

impl<S> View for Pipeline<S> {
    type V = PipelineState<S>;

    closed spec fn view(&self) -> PipelineState<S> {
        PipelineState { slots: self.assembler@, columns: self.columns@, start: self.start }
    }
}

impl<S: Copy> Pipeline<S> {
    /// A pipeline whose stream begins at `start`.
    pub fn new(start: UtcTime) -> (p: Self)
        requires
            start.wf(),
            crate::slot::first_boundary(start) <= crate::time::MAX_SECS,
        ensures
            p@.start == start,
            p@.columns == (Framed::<S> { acc: seq![], seen: 0 }),
            p@.slots == crate::slot::fresh::<S>(start),
    {
        Pipeline { assembler: SlotAssembler::new(start), columns: ColumnFramer::new(), start }
    }

    /// Whether `n` more samples can be taken in.
    pub fn accepts(&self, n: usize) -> (r: bool)
        ensures
            forall|input: Seq<S>| input.len() == n ==> r == #[trigger] self@.room_for(input),
    {
        let slots: bool = self.assembler.accepts(n);
        let columns: bool = self.columns.accepts(n);
        assert forall|input: Seq<S>| input.len() == n implies (slots && columns)
            == #[trigger] self@.room_for(input) by {
            assert(slots == self.assembler@.room_for(input));
        }
        slots && columns
    }

    /// Feed 12 kHz samples; returns the FFT windows and the slots that they
    /// complete, in order.
    pub fn push(&mut self, samples: &[S]) -> (out: Batch<S>)
        requires
            old(self)@.room_for(samples@),
        ensures
            final(self)@ == old(self)@.after(samples@),
            out.columns@.len() == old(self)@.columns.columns(samples@).len(),
            forall|j: int|
                0 <= j < out.columns@.len() ==> {
                    let c = #[trigger] out.columns@[j];
                    &&& (c.centre as int, c.window@) == old(self)@.columns.columns(samples@)[j]
                    &&& c.window@.len() == FFT_N
                },
            out.slots@.len() == old(self)@.slots.slots(samples@).len(),
            forall|j: int|
                0 <= j < out.slots@.len() ==> {
                    let slot = #[trigger] out.slots@[j];
                    &&& (slot.utc.secs as int, slot.samples@) == old(self)@.slots.slots(
                        samples@,
                    )[j]
                    &&& slot.utc.wf()
                    &&& slot.utc.nanos == 0
                    &&& slot.utc.secs as int % crate::time::SLOT_SECS as int == 0
                    &&& slot.samples@.len() == crate::slot::SLOT_SAMPLES
                },
    {
        let columns = self.columns.push(samples);
        let slots = self.assembler.push(samples);
        Batch { columns, slots }
    }

    /// UTC of the sample `centre` of the stream. `millis` gives the whole
    /// milliseconds before a sample.
    pub fn column_utc<M: Fn(u64) -> i64>(&self, centre: u64, millis: M) -> (utc: UtcTime)
        requires
            self@.start.wf(),
            call_requires(millis, (centre,)),
            forall|ms: i64| #[trigger]
                call_ensures(millis, (centre,), ms) ==> 0 <= ms && crate::time::millis_after(
                    self@.start,
                    ms as int,
                ).0 <= crate::time::MAX_SECS,
        ensures
            utc.wf(),
            exists|ms: i64| #[trigger]
                call_ensures(millis, (centre,), ms) && (utc.secs as int, utc.nanos as int)
                    == crate::time::millis_after(self@.start, ms as int),
    {
        let ms: i64 = millis(centre);
        self.start.plus_millis(ms)
    }
}

/// Both cuts of a stream run on one clock: however it is chunked, they have
/// seen the same samples.
pub proof fn lemma_one_clock<S>(p: PipelineState<S>, input: Seq<S>)
    requires
        p.slots.ok(),
        p.columns.ok(),
        p.slots.total() == p.columns.seen,
    ensures
        p.after(input).slots.ok(),
        p.after(input).columns.ok(),
        p.after(input).slots.total() == p.after(input).columns.seen,
{
    crate::slot::lemma_chunking(p.slots, input, seq![]);
    lemma_column_chunking(p.columns, input, seq![]);
}

/// Samples at the head of each slot whose columns are dated just before it.
///
/// A stream that starts between two milliseconds has its slots begin up to
/// one millisecond early. One that starts within a leap second that ends the
/// day has its first slot begin at once, so every slot begins as much too
/// early as is left of that second.
pub open spec fn early(start: UtcTime) -> int {
    let nanos = start.nanos as int % 1_000_000_000;
    if start.nanos >= 1_000_000_000 && crate::slot::first_boundary(start) % 86_400 == 0 {
        (1000 - nanos / 1_000_000) * SAMPLES_PER_MS
    } else if nanos % 1_000_000 == 0 {
        0
    } else {
        SAMPLES_PER_MS as int
    }
}

/// Waterfall and decodes keep in step: a column whose centre is a sample of
/// the `j`-th slot is dated within that very slot, exactly if its milliseconds
/// reach past the [`early`] samples at the slot's head. There are none of
/// these in a stream that starts on a whole millisecond, leap seconds aside.
///
/// `ms` are the whole milliseconds before the centre, or one less, which is
/// how far division in double precision can fall short; then the column is
/// dated right from a millisecond later on.
pub proof fn lemma_columns_keep_step(start: UtcTime, centre: int, ms: int, j: int)
    requires
        start.wf(),
        crate::slot::first_boundary(start) <= crate::time::MAX_SECS,
        0 <= j,
        crate::slot::lead_in(start) + j * crate::slot::SLOT_SAMPLES <= centre,
        centre < crate::slot::lead_in(start) + (j + 1) * crate::slot::SLOT_SAMPLES,
        0 <= ms,
        centre / (SAMPLES_PER_MS as int) - 1 <= ms <= centre / (SAMPLES_PER_MS as int),
    ensures
        ({
            let head = crate::slot::lead_in(start) + j * crate::slot::SLOT_SAMPLES + early(start);
            let dated = crate::time::slot_index(crate::time::millis_after(start, ms).0)
                == crate::time::slot_index(crate::slot::first_boundary(start)) + j;
            &&& dated <==> head <= ms * SAMPLES_PER_MS
            &&& head + SAMPLES_PER_MS <= centre ==> dated
            &&& head <= centre && ms == centre / (SAMPLES_PER_MS as int) ==> dated
        }),
{
    let s = start.secs as int;
    let n = start.nanos as int;
    let b = crate::slot::first_boundary(start);
    assert(b == (s / 15 + 1) * 15);
    assert(s < b <= s + 15);
    assert(b / 15 == s / 15 + 1);
    let boundary = UtcTime { secs: b as i64, nanos: 0 };
    let between = crate::time::nanos_between(boundary, start);
    let lead = crate::slot::lead_in(start);
    let nanos = n % 1_000_000_000;
    let sub = nanos / 1_000_000;
    // Milliseconds of the stream before its first slot.
    let led = lead / 12;
    assert(lead == led * 12);
    if n >= 1_000_000_000 && b % 86_400 == 0 {
        assert(b == s + 1);
        assert(s % 86_400 == 86_399);
        assert(between == -nanos);
        assert(led == 0);
    } else {
        if n >= 1_000_000_000 {
            assert(b == s + 1);
            assert(b % 86_400 == s % 86_400 + 1);
        }
        assert(between == (b - s) * 1_000_000_000 - nanos);
        assert(led == (b - s) * 1000 - sub - (if nanos % 1_000_000 == 0 {
            0int
        } else {
            1
        }));
    }
    assert(led + j * 15_000 - 1 <= ms < led + (j + 1) * 15_000);
    let at = crate::time::millis_after(start, ms).0;
    if n >= 1_000_000_000 && ms / 1000 == 0 && n + (ms % 1000) * 1_000_000 < 2_000_000_000 {
        assert(sub + ms < 1000);
        assert(at == s);
    } else {
        let sum = nanos + (ms % 1000) * 1_000_000;
        assert(at == s + ms / 1000 + sum / 1_000_000_000);
        assert(sum / 1_000_000_000 == (sub + ms % 1000) / 1000);
        assert(at == s + (ms + sub) / 1000);
    }
    assert(at < b + (j + 1) * 15);
    assert(b + j * 15 <= at <==> led + j * 15_000 + early(start) / 12 <= ms);
}

} // verus!
