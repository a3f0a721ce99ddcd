//! The skimmer view's own waterfall buffer.
//!
//! The slot in progress is accumulated as [`SUBCOLS`] time sub-columns: each
//! incoming FFT column is added into the sub-column matching its position
//! within the 15 s slot. At the slot boundary the sums are averaged and the
//! finished stripe is kept; only the last [`SLOTS_MAX`] stripes are. Keeping
//! several real columns per slot preserves the time axis, so that a steady
//! signal reads as a continuous trace.

use vstd::prelude::*;
use std::collections::VecDeque;
use crate::pipeline::WF_BINS;
use crate::time::{floor_div_mod, UtcTime, SLOT_SECS};

verus! {

/// Maximum recent slots the buffer ever retains. The view draws some or all
/// of these, so changing the display count is instant and never loses
/// history.
pub const SLOTS_MAX: usize = 24;

/// Frequency bins in a stripe.
pub const BINS: usize = WF_BINS;

/// Time sub-columns per slot.
pub const SUBCOLS: usize = 12;

/// One completed slot's waterfall data.
pub struct SkimmerStripe<F> {
    /// Slot index (UTC seconds / 15).
    pub slot: i64,
    /// `SUBCOLS` sub-columns, oldest first, of `BINS` magnitudes each.
    pub subcols: Vec<Vec<F>>,
}

/// What a stripe holds.
#[verifier::ext_equal]
pub struct Stripe<F> {
    pub slot: i64,
    pub subcols: Seq<Seq<F>>,
}

/// The skimmer view's waterfall buffer.
pub struct SkimmerWaterfall<F> {
    /// Completed slot stripes, oldest first.
    stripes: VecDeque<SkimmerStripe<F>>,
    /// Per-sub-column running sums for the slot in progress.
    cur_sums: Vec<Vec<F>>,
    /// Per-sub-column count of FFT columns folded in so far.
    cur_counts: Vec<u32>,
    /// The slot in progress, if there is one.
    cur_slot: Option<i64>,
    zero: F,
}

/// What a [`SkimmerWaterfall`] holds.
#[verifier::ext_equal]
pub struct Buffer<F> {
    pub stripes: Seq<Stripe<F>>,
    pub sums: Seq<Seq<F>>,
    pub counts: Seq<u32>,
    pub slot: Option<i64>,
    pub zero: F,
}

impl<F> View for SkimmerStripe<F> {
    type V = Stripe<F>;

    open spec fn view(&self) -> Stripe<F> {
        Stripe { slot: self.slot, subcols: self.subcols@.map_values(|c: Vec<F>| c@) }
    }
}

impl<F> View for SkimmerWaterfall<F> {
    type V = Buffer<F>;

    closed spec fn view(&self) -> Buffer<F> {
        Buffer {
            stripes: self.stripes@.map_values(|s: SkimmerStripe<F>| s@),
            sums: self.cur_sums@.map_values(|c: Vec<F>| c@),
            counts: self.cur_counts@,
            slot: self.cur_slot,
            zero: self.zero,
        }
    }
}

/// A sub-column that received nothing.
pub open spec fn blank<F>(zero: F) -> Seq<F> {
    Seq::new(BINS as nat, |i: int| zero)
}

/// The sub-column that an instant falls into: a twelfth of the slot each.
pub open spec fn subcol_of(utc: UtcTime) -> int {
    let ms = (utc.secs as int % SLOT_SECS as int) * 1000 + utc.nanos / 1_000_000;
    let sub = ms * SUBCOLS / (SLOT_SECS * 1000);
    if sub < SUBCOLS {
        sub
    } else {
        SUBCOLS - 1
    }
}

/// `subcols` are full-length sub-columns, as many as a stripe has.
pub open spec fn full<F>(subcols: Seq<Seq<F>>) -> bool {
    &&& subcols.len() == SUBCOLS
    &&& forall|s: int| 0 <= s < SUBCOLS ==> (#[trigger] subcols[s]).len() == BINS
}

/// Averaging `sum` over `count` columns can give `avg`.
pub open spec fn averages_to<F, M: Fn(F, u32) -> F>(
    sum: Seq<F>,
    count: u32,
    mean: M,
    avg: Seq<F>,
) -> bool {
    &&& avg.len() == BINS
    &&& forall|i: int| 0 <= i < BINS ==> call_ensures(mean, (sum[i], count), #[trigger] avg[i])
}

impl<F> Buffer<F> {
    /// Stripes and sums have their full size, and no more stripes are kept
    /// than may be.
    pub open spec fn ok(self) -> bool {
        &&& self.stripes.len() <= SLOTS_MAX
        &&& forall|i: int| 0 <= i < self.stripes.len() ==> full((#[trigger] self.stripes[i]).subcols)
        &&& full(self.sums)
        &&& self.counts.len() == SUBCOLS
    }

    /// Some column was folded in.
    pub open spec fn any(self) -> bool {
        exists|s: int| 0 <= s < self.counts.len() && #[trigger] self.counts[s] > 0
    }

    /// The buffer with the slot in progress begun anew.
    pub open spec fn restarted(self, slot: Option<i64>) -> Self {
        Buffer {
            sums: Seq::new(SUBCOLS as nat, |s: int| blank(self.zero)),
            counts: Seq::new(SUBCOLS as nat, |s: int| 0u32),
            slot,
            ..self
        }
    }

    /// The buffer with one more stripe; the oldest makes way if it is full.
    pub open spec fn with_stripe(self, stripe: Stripe<F>) -> Self {
        let all = self.stripes.push(stripe);
        Buffer {
            stripes: if all.len() > SLOTS_MAX {
                all.drop_first()
            } else {
                all
            },
            ..self
        }
    }

    /// Finishing the slot in progress makes this stripe of it: each
    /// sub-column's average, or nothing where it received nothing.
    pub open spec fn finishes_as<M: Fn(F, u32) -> F>(self, stripe: Stripe<F>, mean: M) -> bool {
        &&& self.slot == Some(stripe.slot)
        &&& full(stripe.subcols)
        &&& forall|s: int|
            0 <= s < SUBCOLS ==> if self.counts[s] > 0 {
                averages_to(self.sums[s], self.counts[s], mean, #[trigger] stripe.subcols[s])
            } else {
                stripe.subcols[s] == blank(self.zero)
            }
    }

    /// Finishing the slot in progress can leave `post`.
    pub open spec fn flushes_to<M: Fn(F, u32) -> F>(self, post: Self, mean: M) -> bool {
        if self.any() && self.slot is Some {
            exists|stripe: Stripe<F>|
                {
                    &&& #[trigger] self.finishes_as(stripe, mean)
                    &&& post == self.with_stripe(stripe).restarted(self.slot)
                }
        } else {
            post == self.restarted(self.slot)
        }
    }

    /// Adding `mags` into sub-column `sub` can leave `post`.
    pub open spec fn folds_to<P: Fn(F, F) -> F>(
        self,
        sub: int,
        mags: Seq<F>,
        post: Self,
        plus: P,
    ) -> bool {
        let sum = post.sums[sub];
        &&& sum.len() == BINS
        &&& forall|i: int|
            0 <= i < BINS ==> if i < mags.len() {
                call_ensures(plus, (self.sums[sub][i], mags[i]), #[trigger] sum[i])
            } else {
                sum[i] == self.sums[sub][i]
            }
        &&& post == (Buffer {
            sums: self.sums.update(sub, sum),
            counts: self.counts.update(sub, (self.counts[sub] + 1) as u32),
            ..self
        })
    }

    /// Before a column of slot `slot` is added, the buffer can be `mid`: the
    /// slot in progress is finished first if it is another one.
    pub open spec fn moves_to<M: Fn(F, u32) -> F>(self, slot: i64, mid: Self, mean: M) -> bool {
        if self.slot == Some(slot) {
            mid == self
        } else {
            exists|flushed: Self|
                #[trigger] self.flushes_to(flushed, mean) && mid == (Buffer {
                    slot: Some(slot),
                    ..flushed
                })
        }
    }

    /// Taking in a column at `utc` can leave `post`.
    pub open spec fn takes_column<P: Fn(F, F) -> F, M: Fn(F, u32) -> F>(
        self,
        utc: UtcTime,
        mags: Seq<F>,
        post: Self,
        plus: P,
        mean: M,
    ) -> bool {
        exists|mid: Self|
            {
                &&& #[trigger] self.moves_to(
                    crate::time::slot_index(utc.secs as int) as i64,
                    mid,
                    mean,
                )
                &&& mid.folds_to(subcol_of(utc), mags, post, plus)
            }
    }
}

/// A sub-column that received nothing.
fn blank_column<F: Copy>(zero: F) -> (c: Vec<F>)
    ensures
        c@ == blank(zero),
{
    let mut c: Vec<F> = Vec::new();
    while c.len() < BINS
        invariant
            c@.len() <= BINS,
            forall|i: int| 0 <= i < c@.len() ==> #[trigger] c@[i] == zero,
        decreases BINS - c@.len(),
    {
        c.push(zero);
    }
    assert(c@ == blank(zero));
    c
}

/// Sub-columns that received nothing.
fn blank_columns<F: Copy>(zero: F) -> (cs: Vec<Vec<F>>)
    ensures
        cs@.map_values(|c: Vec<F>| c@) == Seq::new(SUBCOLS as nat, |s: int| blank(zero)),
{
    let mut cs: Vec<Vec<F>> = Vec::new();
    while cs.len() < SUBCOLS
        invariant
            cs@.len() <= SUBCOLS,
            forall|s: int| 0 <= s < cs@.len() ==> (#[trigger] cs@[s])@ == blank(zero),
        decreases SUBCOLS - cs@.len(),
    {
        cs.push(blank_column(zero));
    }
    assert(cs@.map_values(|c: Vec<F>| c@) == Seq::new(SUBCOLS as nat, |s: int| blank(zero)));
    cs
}

/// Counts of nothing.
fn zero_counts() -> (cs: Vec<u32>)
    ensures
        cs@ == Seq::new(SUBCOLS as nat, |s: int| 0u32),
{
    let mut cs: Vec<u32> = Vec::new();
    while cs.len() < SUBCOLS
        invariant
            cs@.len() <= SUBCOLS,
            forall|s: int| 0 <= s < cs@.len() ==> #[trigger] cs@[s] == 0,
        decreases SUBCOLS - cs@.len(),
    {
        cs.push(0);
    }
    assert(cs@ == Seq::new(SUBCOLS as nat, |s: int| 0u32));
    cs
}

/// The sub-column that an instant falls into.
pub fn subcol(utc: UtcTime) -> (sub: usize)
    requires
        utc.nanos < 2_000_000_000,
    ensures
        sub == subcol_of(utc),
        sub < SUBCOLS,
{
    let into: u64 = floor_div_mod(utc.secs, SLOT_SECS).1 as u64;
    let ms: u64 = into * 1000 + (utc.nanos / 1_000_000) as u64;
    let sub: u64 = ms * 12 / 15_000;
    if sub < SUBCOLS as u64 {
        sub as usize
    } else {
        SUBCOLS - 1
    }
}

impl<F> SkimmerWaterfall<F> {
    #[verifier::type_invariant]
    spec fn inv(self) -> bool {
        self@.ok()
    }
}

impl<F: Copy> SkimmerWaterfall<F> {
    /// An empty buffer. `zero` is the magnitude of nothing.
    pub fn new(zero: F) -> (w: Self)
        ensures
            w@.ok(),
            w@.stripes.len() == 0,
            w@ == w@.restarted(None),
            w@.zero == zero,
    {
        let w = SkimmerWaterfall {
            stripes: VecDeque::new(),
            cur_sums: blank_columns(zero),
            cur_counts: zero_counts(),
            cur_slot: None,
            zero,
        };
        assert(w@ == w@.restarted(None));
        w
    }

    /// Whether one more column at `utc` can be counted.
    pub fn accepts(&self, utc: UtcTime) -> (r: bool)
        requires
            utc.nanos < 2_000_000_000,
        ensures
            r == (self@.slot != Some(crate::time::slot_index(utc.secs as int) as i64)
                || self@.counts[subcol_of(utc)] < u32::MAX),
    {
        proof {
            use_type_invariant(self);
        }
        let slot: i64 = utc.slot();
        let same: bool = match self.cur_slot {
            Some(s) => s == slot,
            None => false,
        };
        !same || self.cur_counts[subcol(utc)] < u32::MAX
    }

    /// Begins the slot in progress anew.
    fn restart(&mut self)
        ensures
            final(self)@ == old(self)@.restarted(old(self)@.slot),
            final(self)@.ok(),
    {
        proof {
            use_type_invariant(&*self);
        }
        self.cur_sums = blank_columns(self.zero);
        self.cur_counts = zero_counts();
    }

    /// Whether any column was folded into the slot in progress.
    fn any_column(&self) -> (r: bool)
        ensures
            r == self@.any(),
    {
        let mut s: usize = 0;
        while s < self.cur_counts.len()
            invariant
                s <= self.cur_counts@.len(),
                forall|j: int| 0 <= j < s ==> #[trigger] self.cur_counts@[j] == 0,
            decreases self.cur_counts@.len() - s,
        {
            if self.cur_counts[s] > 0 {
                assert(self@.counts[s as int] > 0);
                return true;
            }
            s += 1;
        }
        false
    }

    /// The average of sub-column `s`.
    fn averaged<M: Fn(F, u32) -> F>(&self, s: usize, mean: &M) -> (avg: Vec<F>)
        requires
            s < SUBCOLS,
            forall|v: F, n: u32| call_requires(*mean, (v, n)),
        ensures
            averages_to(self@.sums[s as int], self@.counts[s as int], *mean, avg@),
    {
        proof {
            use_type_invariant(self);
        }
        let sum = &self.cur_sums[s];
        assert(sum@ == self@.sums[s as int]);
        let count: u32 = self.cur_counts[s];
        let mut avg: Vec<F> = Vec::new();
        let mut i: usize = 0;
        while i < BINS
            invariant
                i <= BINS,
                avg@.len() == i,
                sum@.len() == BINS,
                forall|v: F, n: u32| call_requires(*mean, (v, n)),
                forall|j: int|
                    0 <= j < i ==> call_ensures(*mean, (sum@[j], count), #[trigger] avg@[j]),
            decreases BINS - i,
        {
            avg.push(mean(sum[i], count));
            i += 1;
        }
        avg
    }

    /// Finish the slot in progress: average each sub-column's sum and keep
    /// the completed stripe. A sub-column that received no columns is left
    /// blank. `mean` divides a sum by a count.
    pub fn flush<M: Fn(F, u32) -> F>(&mut self, mean: &M)
        requires
            forall|v: F, n: u32| call_requires(*mean, (v, n)),
        ensures
            final(self)@.ok(),
            old(self)@.flushes_to(final(self)@, *mean),
    {
        proof {
            use_type_invariant(&*self);
        }
        let ghost before = self@;
        if self.any_column() && self.cur_slot.is_some() {
            let slot: i64 = self.cur_slot.unwrap();
            let mut subcols: Vec<Vec<F>> = Vec::new();
            let mut s: usize = 0;
            while s < SUBCOLS
                invariant
                    s <= SUBCOLS,
                    self@ == before,
                    before.ok(),
                    subcols@.len() == s,
                    forall|v: F, n: u32| call_requires(*mean, (v, n)),
                    forall|j: int|
                        0 <= j < s ==> if before.counts[j] > 0 {
                            averages_to(
                                before.sums[j],
                                before.counts[j],
                                *mean,
                                (#[trigger] subcols@[j])@,
                            )
                        } else {
                            subcols@[j]@ == blank(before.zero)
                        },
                decreases SUBCOLS - s,
            {
                if self.cur_counts[s] > 0 {
                    subcols.push(self.averaged(s, mean));
                } else {
                    subcols.push(blank_column(self.zero));
                }
                s += 1;
            }
            let stripe = SkimmerStripe { slot, subcols };
            let ghost made = stripe@;
            proof {
                assert forall|s: int| 0 <= s < SUBCOLS implies (#[trigger] made.subcols[s]).len()
                    == BINS by {
                    assert(made.subcols[s] == subcols@[s]@);
                }
                assert forall|s: int| 0 <= s < SUBCOLS implies if before.counts[s] > 0 {
                    averages_to(
                        before.sums[s],
                        before.counts[s],
                        *mean,
                        #[trigger] made.subcols[s],
                    )
                } else {
                    made.subcols[s] == blank(before.zero)
                } by {
                    assert(made.subcols[s] == subcols@[s]@);
                }
                assert(before.finishes_as(made, *mean));
            }
            let mut stripes: VecDeque<SkimmerStripe<F>> = VecDeque::new();
            std::mem::swap(&mut stripes, &mut self.stripes);
            stripes.push_back(stripe);
            let ghost all = stripes@.map_values(|s: SkimmerStripe<F>| s@);
            assert(all == before.stripes.push(made));
            if stripes.len() > SLOTS_MAX {
                let _ = stripes.pop_front();
            }
            let ghost kept = stripes@.map_values(|s: SkimmerStripe<F>| s@);
            assert(kept == before.with_stripe(made).stripes);
            self.stripes = stripes;
            assert(self@ == before.with_stripe(made));
        }
        self.restart();
    }

    /// Fold one FFT magnitude column into the slot that `utc` falls into,
    /// into the sub-column matching its time position. Crossing a slot
    /// boundary flushes the previous slot into a stripe. `plus` adds two
    /// magnitudes, `mean` divides a sum by a count.
    pub fn push_column<P: Fn(F, F) -> F, M: Fn(F, u32) -> F>(
        &mut self,
        utc: UtcTime,
        mags: &[F],
        plus: P,
        mean: M,
    )
        requires
            utc.nanos < 2_000_000_000,
            old(self)@.slot != Some(crate::time::slot_index(utc.secs as int) as i64)
                || old(self)@.counts[subcol_of(utc)] < u32::MAX,
            forall|a: F, b: F| call_requires(plus, (a, b)),
            forall|v: F, n: u32| call_requires(mean, (v, n)),
        ensures
            final(self)@.ok(),
            old(self)@.takes_column(utc, mags@, final(self)@, plus, mean),
    {
        proof {
            use_type_invariant(&*self);
        }
        let slot: i64 = utc.slot();
        let same: bool = match self.cur_slot {
            Some(s) => s == slot,
            None => false,
        };
        let ghost before = self@;
        if !same {
            self.flush(&mean);
            let ghost flushed = self@;
            self.cur_slot = Some(slot);
            assert(before.flushes_to(flushed, mean));
            assert(self@ == (Buffer { slot: Some(slot), ..flushed }));
        }
        let ghost mid = self@;
        let sub: usize = subcol(utc);
        let ghost was = mid.sums[sub as int];
        assert(was == self.cur_sums@[sub as int]@);
        let mut sum: Vec<F> = Vec::new();
        let mut i: usize = 0;
        while i < BINS
            invariant
                i <= BINS,
                sum@.len() == i,
                sub < self.cur_sums@.len(),
                was == self.cur_sums@[sub as int]@,
                was.len() == BINS,
                forall|a: F, b: F| call_requires(plus, (a, b)),
                forall|j: int|
                    0 <= j < i ==> if j < mags@.len() {
                        call_ensures(plus, (was[j], mags@[j]), #[trigger] sum@[j])
                    } else {
                        sum@[j] == was[j]
                    },
            decreases BINS - i,
        {
            let v: F = self.cur_sums[sub][i];
            if i < mags.len() {
                sum.push(plus(v, mags[i]));
            } else {
                sum.push(v);
            }
            i += 1;
        }
        let count: u32 = self.cur_counts[sub] + 1;
        let mut sums = blank_columns(self.zero);
        std::mem::swap(&mut sums, &mut self.cur_sums);
        sums.set(sub, sum);
        let ghost now = sums@.map_values(|c: Vec<F>| c@);
        assert(now == mid.sums.update(sub as int, sum@));
        self.cur_sums = sums;
        self.cur_counts[sub] = count;
        proof {
            assert(self@.sums == mid.sums.update(sub as int, sum@));
            assert(slot == crate::time::slot_index(utc.secs as int) as i64);
            assert(before.moves_to(slot, mid, mean));
            assert(mid.folds_to(sub as int, mags@, self@, plus));
        }
    }

    /// Forgets everything.
    pub fn clear(&mut self)
        ensures
            final(self)@.ok(),
            final(self)@ == (Buffer { stripes: seq![], ..old(self)@.restarted(None) }),
    {
        proof {
            use_type_invariant(&*self);
        }
        self.stripes = VecDeque::new();
        self.cur_slot = None;
        self.restart();
        assert(self@.stripes == Seq::<Stripe<F>>::empty());
    }

    /// Number of stripes held.
    pub fn len(&self) -> (n: usize)
        ensures
            n == self@.stripes.len(),
    {
        self.stripes.len()
    }

    /// The stripe at index `i`, oldest first.
    pub fn stripe(&self, i: usize) -> (s: &SkimmerStripe<F>)
        requires
            i < self@.stripes.len(),
        ensures
            s@ == self@.stripes[i as int],
    {
        &self.stripes[i]
    }

    /// Index of the oldest stripe that is drawn when `display` of them are
    /// wanted: the most recent ones, and at least one.
    pub fn first_visible(&self, display: usize) -> (first: usize)
        requires
            self@.stripes.len() > 0,
        ensures
            first == self@.stripes.len() - shown(self@.stripes.len() as int, display as int),
            first < self@.stripes.len(),
    {
        let total: usize = self.stripes.len();
        if display == 0 {
            total - 1
        } else if display < total {
            total - display
        } else {
            0
        }
    }

    /// The column that slot `slot` is drawn in, counted from the oldest
    /// stripe that is drawn; `None` if it is not.
    pub fn column_of(&self, first: usize, slot: i64) -> (res: Option<usize>)
        requires
            first <= self@.stripes.len(),
        ensures
            match res {
                Some(c) => {
                    &&& first + c < self@.stripes.len()
                    &&& self@.stripes[first + c].slot == slot
                    &&& forall|k: int|
                        first <= k < first + c ==> (#[trigger] self@.stripes[k]).slot != slot
                },
                None => forall|k: int|
                    first <= k < self@.stripes.len() ==> (#[trigger] self@.stripes[k]).slot != slot,
            },
    {
        let mut k: usize = first;
        while k < self.stripes.len()
            invariant
                first <= k <= self.stripes@.len(),
                self@.stripes == self.stripes@.map_values(|s: SkimmerStripe<F>| s@),
                forall|j: int| first <= j < k ==> (#[trigger] self@.stripes[j]).slot != slot,
            decreases self.stripes@.len() - k,
        {
            assert(self@.stripes[k as int] == self.stripes@[k as int]@);
            if self.stripes[k].slot == slot {
                return Some(k - first);
            }
            k += 1;
        }
        None
    }
}

/// How many of `total` stripes are drawn when `display` are wanted.
pub open spec fn shown(total: int, display: int) -> int {
    let most = if display < total {
        display
    } else {
        total
    };
    if most < 1 {
        1
    } else {
        most
    }
}

/// The buffer once `stripes` have been kept, in order.
pub open spec fn kept<F>(b: Buffer<F>, stripes: Seq<Stripe<F>>) -> Buffer<F>
    decreases stripes.len(),
{
    if stripes.len() == 0 {
        b
    } else {
        kept(b, stripes.drop_last()).with_stripe(stripes.last())
    }
}

/// The buffer holds the latest [`SLOTS_MAX`] stripes, oldest first, however
/// many there were; showing more or fewer of them loses none.
pub proof fn lemma_latest_stripes_are_kept<F>(b: Buffer<F>, stripes: Seq<Stripe<F>>)
    requires
        b.stripes.len() == 0,
    ensures
        kept(b, stripes).stripes == if stripes.len() <= SLOTS_MAX {
            stripes
        } else {
            stripes.skip(stripes.len() - SLOTS_MAX)
        },
    decreases stripes.len(),
{
    if stripes.len() > 0 {
        lemma_latest_stripes_are_kept(b, stripes.drop_last());
        assert(kept(b, stripes).stripes =~= if stripes.len() <= SLOTS_MAX {
            stripes
        } else {
            stripes.skip(stripes.len() - SLOTS_MAX)
        });
    } else {
        assert(b.stripes =~= stripes);
    }
}

/// Sub-columns divide a slot evenly: an instant falls into the one with as
/// many whole 1.25 s before it, so later instants of a slot never fall into
/// an earlier one.
pub proof fn lemma_subcols_follow_time(a: UtcTime, b: UtcTime)
    requires
        a.nanos < 1_000_000_000,
        b.nanos < 1_000_000_000,
        crate::time::slot_index(a.secs as int) == crate::time::slot_index(b.secs as int),
        a.secs < b.secs || (a.secs == b.secs && a.nanos <= b.nanos),
    ensures
        subcol_of(a) == ((a.secs as int % 15) * 1000 + a.nanos / 1_000_000) / 1250,
        subcol_of(a) <= subcol_of(b) < SUBCOLS,
{
    let ra = a.secs as int % 15;
    let rb = b.secs as int % 15;
    let (ma, mb) = (a.nanos as int / 1_000_000, b.nanos as int / 1_000_000);
    assert(rb - ra == b.secs - a.secs);
    assert(ra * 1000 + ma <= rb * 1000 + mb);
    lemma_twelfths(a);
    lemma_twelfths(b);
}

proof fn lemma_twelfths(t: UtcTime)
    requires
        t.nanos < 1_000_000_000,
    ensures
        subcol_of(t) == ((t.secs as int % 15) * 1000 + t.nanos as int / 1_000_000) / 1250,
        0 <= subcol_of(t) < SUBCOLS,
{
    let ms = (t.secs as int % 15) * 1000 + t.nanos as int / 1_000_000;
    assert(0 <= ms < 15_000);
    assert(ms * 12 / 15_000 == ms / 1250);
    assert(ms / 1250 < 12);
}

} // verus!
