//! The skimmer's waterfall: what each bin of a stripe is made of.

use vstd::prelude::*;
use crate::skimmer::{Buffer, Stripe};
use crate::time::UtcTime;

verus! {

/// The twelfth of its slot that an instant falls into; a leap second counts
/// as the last.
pub open spec fn twelfth(utc: UtcTime) -> int {
    let ms = (utc.secs as int % 15) * 1000 + utc.nanos as int / 1_000_000;
    if ms < 15_000 {
        ms / 1250
    } else {
        11
    }
}

/// Which sub-column an instant falls into.
pub proof fn lemma_twelfth(utc: UtcTime)
    ensures
        crate::skimmer::subcol_of(utc) == twelfth(utc),
        0 <= twelfth(utc) < 12,
{
    let ms = (utc.secs as int % 15) * 1000 + utc.nanos as int / 1_000_000;
    assert(0 <= ms);
    assert(crate::skimmer::subcol_of(utc) == if ms * 12 / 15_000 < 12 {
        ms * 12 / 15_000
    } else {
        11
    });
    assert(ms * 12 / 15_000 == ms / 1250);
}

/// The columns are pushed one by one; `states` are what the buffer holds
/// before each and after the last. All fall into slot `slot`, which was not
/// in progress before.
pub open spec fn fills<F, P: Fn(F, F) -> F, M: Fn(F, u32) -> F>(
    states: Seq<Buffer<F>>,
    columns: Seq<(UtcTime, Seq<F>)>,
    slot: i64,
    plus: P,
    mean: M,
) -> bool {
    &&& states.len() == columns.len() + 1
    &&& states[0].ok()
    &&& states[0].slot != Some(slot)
    &&& forall|k: int|
        0 <= k < columns.len() ==> {
            &&& states[k].takes_column(
                (#[trigger] columns[k]).0,
                columns[k].1,
                states[k + 1],
                plus,
                mean,
            )
            &&& columns[k].0.secs as int / 15 == slot
        }
}

/// `accs` are the totals of bin `i` of sub-column `sub`, before each column
/// and after the last: a column whose instant falls into that sub-column adds
/// its own bin `i`, and no other column adds anything.
pub open spec fn bin_totals<F, P: Fn(F, F) -> F>(
    accs: Seq<F>,
    zero: F,
    columns: Seq<(UtcTime, Seq<F>)>,
    sub: int,
    i: int,
    plus: P,
    total: F,
) -> bool {
    let n = columns.len() as int;
    &&& accs.len() == n + 1
    &&& accs[0] == zero
    &&& accs[n] == total
    &&& forall|k: int|
        0 <= k < n ==> if twelfth((#[trigger] columns[k]).0) == sub && i < columns[k].1.len() {
            call_ensures(plus, (accs[k], columns[k].1[i]), accs[k + 1])
        } else {
            accs[k + 1] == accs[k]
        }
}

/// How many columns fall into sub-column `sub`.
pub open spec fn columns_in<F>(columns: Seq<(UtcTime, Seq<F>)>, sub: int) -> int
    decreases columns.len(),
{
    if columns.len() == 0 {
        0
    } else {
        columns_in(columns.drop_last(), sub) + (if twelfth(columns.last().0) == sub {
            1int
        } else {
            0
        })
    }
}

proof fn lemma_columns_in<F>(columns: Seq<(UtcTime, Seq<F>)>, sub: int)
    ensures
        0 <= columns_in(columns, sub) <= columns.len(),
    decreases columns.len(),
{
    if columns.len() > 0 {
        lemma_columns_in(columns.drop_last(), sub);
    }
}

/// What one column does to the buffer.
proof fn lemma_column<F, P: Fn(F, F) -> F, M: Fn(F, u32) -> F>(
    pre: Buffer<F>,
    utc: UtcTime,
    mags: Seq<F>,
    post: Buffer<F>,
    plus: P,
    mean: M,
) -> (mid: Buffer<F>)
    requires
        pre.ok(),
        pre.takes_column(utc, mags, post, plus, mean),
    ensures
        mid.ok(),
        post.ok(),
        pre.slot == Some((utc.secs as int / 15) as i64) ==> mid == pre,
        pre.slot != Some((utc.secs as int / 15) as i64) ==> {
            &&& forall|s: int, i: int|
                0 <= s < 12 && 0 <= i < 1024 ==> #[trigger] mid.sums[s][i] == pre.zero
            &&& forall|s: int| 0 <= s < 12 ==> #[trigger] mid.counts[s] == 0
            &&& exists|flushed: Buffer<F>| #[trigger]
                pre.flushes_to(flushed, mean) && flushed.stripes == mid.stripes
        },
        mid.zero == pre.zero,
        post.zero == pre.zero,
        post.stripes == mid.stripes,
        post.slot == Some((utc.secs as int / 15) as i64),
        forall|s: int|
            0 <= s < 12 ==> #[trigger] post.counts[s] == if s == twelfth(utc) {
                (mid.counts[s] + 1) as u32
            } else {
                mid.counts[s]
            },
        forall|s: int, i: int|
            0 <= s < 12 && 0 <= i < 1024 ==> if s == twelfth(utc) && i < mags.len() {
                call_ensures(plus, (mid.sums[s][i], mags[i]), #[trigger] post.sums[s][i])
            } else {
                post.sums[s][i] == mid.sums[s][i]
            },
{
    lemma_twelfth(utc);
    let slot = crate::time::slot_index(utc.secs as int) as i64;
    let sub = crate::skimmer::subcol_of(utc);
    let mid = choose|mid: Buffer<F>|
        {
            &&& #[trigger] pre.moves_to(slot, mid, mean)
            &&& mid.folds_to(sub, mags, post, plus)
        };
    assert(pre.moves_to(slot, mid, mean));
    if pre.slot != Some(slot) {
        let flushed = choose|flushed: Buffer<F>|
            #[trigger] pre.flushes_to(flushed, mean) && mid == (Buffer {
                slot: Some(slot),
                ..flushed
            });
        lemma_flush(pre, flushed, mean);
        assert(pre.flushes_to(flushed, mean) && flushed.stripes == mid.stripes);
    }
    assert forall|s: int, i: int| 0 <= s < 12 && 0 <= i < 1024 implies if s == twelfth(utc) && i
        < mags.len() {
        call_ensures(plus, (mid.sums[s][i], mags[i]), #[trigger] post.sums[s][i])
    } else {
        post.sums[s][i] == mid.sums[s][i]
    } by {
        if s == sub {
            let sum = post.sums[sub];
            assert(post.sums[s][i] == sum[i]);
        }
    }
    mid
}

/// Finishing a slot begins the next one blank, and keeps at most one more
/// stripe.
proof fn lemma_flush<F, M: Fn(F, u32) -> F>(pre: Buffer<F>, post: Buffer<F>, mean: M)
    requires
        pre.ok(),
        pre.flushes_to(post, mean),
    ensures
        post.ok(),
        post.zero == pre.zero,
        post.slot == pre.slot,
        forall|s: int, i: int|
            0 <= s < 12 && 0 <= i < 1024 ==> #[trigger] post.sums[s][i] == pre.zero,
        forall|s: int| 0 <= s < 12 ==> #[trigger] post.counts[s] == 0,
{
    if pre.any() && pre.slot is Some {
        let stripe = choose|stripe: Stripe<F>|
            {
                &&& #[trigger] pre.finishes_as(stripe, mean)
                &&& post == pre.with_stripe(stripe).restarted(pre.slot)
            };
        let all = pre.stripes.push(stripe);
        assert forall|i: int| 0 <= i < post.stripes.len() implies crate::skimmer::full(
            (#[trigger] post.stripes[i]).subcols,
        ) by {
            if all.len() > 24 {
                assert(post.stripes[i] == all[i + 1]);
                if i + 1 < pre.stripes.len() {
                    assert(all[i + 1] == pre.stripes[i + 1]);
                }
            } else if i < pre.stripes.len() {
                assert(all[i] == pre.stripes[i]);
            }
        }
    }
    assert forall|s: int| 0 <= s < 12 implies (#[trigger] post.sums[s]).len() == 1024 by {
        assert(post.sums[s] == crate::skimmer::blank(pre.zero));
    }
    assert forall|s: int, i: int| 0 <= s < 12 && 0 <= i < 1024 implies #[trigger] post.sums[s][i]
        == pre.zero by {
        assert(post.sums[s] == crate::skimmer::blank(pre.zero));
    }
}

/// The slot in progress, column by column: bin `i` of each sub-column is the
/// sum of bin `i`, and of no other bin, of exactly the columns that fell into
/// that sub-column, and its count is how many there were.
pub proof fn lemma_bins_add_up<F, P: Fn(F, F) -> F, M: Fn(F, u32) -> F>(
    states: Seq<Buffer<F>>,
    columns: Seq<(UtcTime, Seq<F>)>,
    slot: i64,
    plus: P,
    mean: M,
    sub: int,
    i: int,
) -> (accs: Seq<F>)
    requires
        fills(states, columns, slot, plus, mean),
        0 < columns.len() <= u32::MAX,
        0 <= sub < 12,
        0 <= i < 1024,
    ensures
        states.last().ok(),
        states.last().slot == Some(slot),
        states.last().zero == states[0].zero,
        states.last().stripes == states[1].stripes,
        states.last().counts[sub] == columns_in(columns, sub),
        bin_totals(
            accs,
            states[0].zero,
            columns,
            sub,
            i,
            plus,
            states.last().sums[sub][i],
        ),
    decreases columns.len(),
{
    let n = columns.len() - 1;
    let (ss, cs) = (states.drop_last(), columns.drop_last());
    let (pre, post) = (states[n], states[n + 1]);
    let (utc, mags) = columns[n];
    assert(pre.takes_column(columns[n].0, columns[n].1, states[n + 1], plus, mean));
    lemma_twelfth(utc);
    lemma_columns_in(cs, sub);
    let before = if n == 0 {
        seq![states[0].zero]
    } else {
        assert forall|k: int| 0 <= k < cs.len() implies {
            &&& ss[k].takes_column((#[trigger] cs[k]).0, cs[k].1, ss[k + 1], plus, mean)
            &&& cs[k].0.secs as int / 15 == slot
        } by {
            assert(cs[k] == columns[k]);
        }
        lemma_bins_add_up(ss, cs, slot, plus, mean, sub, i)
    };
    let mid = lemma_column(pre, utc, mags, post, plus, mean);
    let total = post.sums[sub][i];
    let accs = before.push(total);
    if n == 0 {
        assert(mid.sums[sub][i] == states[0].zero);
        assert(mid.counts[sub] == 0);
        assert(columns_in(cs, sub) == 0);
    } else {
        assert(ss.last() == pre);
        assert(mid == pre);
    }
    assert(post.counts[sub] == columns_in(columns, sub));
    assert forall|k: int| 0 <= k < columns.len() implies if twelfth((#[trigger] columns[k]).0)
        == sub && i < columns[k].1.len() {
        call_ensures(plus, (accs[k], columns[k].1[i]), accs[k + 1])
    } else {
        accs[k + 1] == accs[k]
    } by {
        if k < n {
            assert(cs[k] == columns[k]);
        }
    }
    accs
}

/// A finished stripe: it carries its slot's index, and bin `i` of each of its
/// twelve sub-columns is the mean, over the columns that fell into it, of
/// their bins `i`; a sub-column that nothing fell into is blank. It is kept
/// behind the stripes before it; the oldest goes if there were 24.
pub proof fn lemma_stripe_is_the_mean_of_its_columns<F, P: Fn(F, F) -> F, M: Fn(F, u32) -> F>(
    states: Seq<Buffer<F>>,
    columns: Seq<(UtcTime, Seq<F>)>,
    slot: i64,
    plus: P,
    mean: M,
    post: Buffer<F>,
    sub: int,
    i: int,
) -> (accs: Seq<F>)
    requires
        fills(states, columns, slot, plus, mean),
        0 < columns.len() <= u32::MAX,
        states.last().flushes_to(post, mean),
        0 <= sub < 12,
        0 <= i < 1024,
    ensures
        ({
            let before = states[1].stripes;
            let stripe = post.stripes.last();
            let count = columns_in(columns, sub);
            let total = states.last().sums[sub][i];
            &&& post.stripes.len() == if before.len() < 24 {
                before.len() + 1
            } else {
                24
            }
            &&& before.len() < 24 ==> forall|k: int|
                0 <= k < before.len() ==> #[trigger] post.stripes[k] == before[k]
            &&& before.len() == 24 ==> forall|k: int|
                0 <= k < 23 ==> #[trigger] post.stripes[k] == before[k + 1]
            &&& stripe.slot == slot
            &&& stripe.subcols.len() == 12
            &&& stripe.subcols[sub].len() == 1024
            &&& bin_totals(accs, states[0].zero, columns, sub, i, plus, total)
            &&& count == 0 ==> stripe.subcols[sub][i] == states[0].zero
            &&& count > 0 ==> call_ensures(mean, (total, count as u32), stripe.subcols[sub][i])
        }),
{
    let b = states.last();
    let accs = lemma_bins_add_up(states, columns, slot, plus, mean, sub, i);
    lemma_columns_in(columns, sub);
    let at = twelfth(columns.last().0);
    lemma_twelfth(columns.last().0);
    let other = lemma_bins_add_up(states, columns, slot, plus, mean, at, 0);
    lemma_columns_in(columns.drop_last(), at);
    assert(b.counts[at] > 0);
    assert(b.any());
    let stripe = choose|stripe: Stripe<F>|
        {
            &&& #[trigger] b.finishes_as(stripe, mean)
            &&& post == b.with_stripe(stripe).restarted(b.slot)
        };
    assert(b.finishes_as(stripe, mean));
    let all = b.stripes.push(stripe);
    assert(post.stripes.last() == stripe);
    if b.counts[sub] > 0 {
        assert(crate::skimmer::averages_to(
            b.sums[sub],
            b.counts[sub],
            mean,
            stripe.subcols[sub],
        ));
        assert(call_ensures(mean, (b.sums[sub][i], b.counts[sub]), stripe.subcols[sub][i]));
    } else {
        assert(stripe.subcols[sub] == crate::skimmer::blank(b.zero));
    }
    accs
}

/// A column of another slot first finishes the slot in progress, as
/// [`lemma_stripe_is_the_mean_of_its_columns`] says; a column of the same
/// slot leaves all stripes alone.
pub proof fn lemma_next_slot_finishes_the_last<F, P: Fn(F, F) -> F, M: Fn(F, u32) -> F>(
    pre: Buffer<F>,
    utc: UtcTime,
    mags: Seq<F>,
    post: Buffer<F>,
    plus: P,
    mean: M,
)
    requires
        pre.ok(),
        pre.takes_column(utc, mags, post, plus, mean),
    ensures
        post.slot == Some((utc.secs as int / 15) as i64),
        pre.slot == post.slot ==> post.stripes == pre.stripes,
        pre.slot != post.slot ==> exists|flushed: Buffer<F>| #[trigger]
            pre.flushes_to(flushed, mean) && flushed.stripes == post.stripes,
{
    let mid = lemma_column(pre, utc, mags, post, plus, mean);
}

/// Where no column was folded in, or no slot begun, finishing keeps no stripe.
pub proof fn lemma_nothing_makes_no_stripe<F, M: Fn(F, u32) -> F>(
    pre: Buffer<F>,
    post: Buffer<F>,
    mean: M,
)
    requires
        pre.ok(),
        pre.flushes_to(post, mean),
        pre.slot is None || forall|s: int| 0 <= s < 12 ==> #[trigger] pre.counts[s] == 0,
    ensures
        post.stripes == pre.stripes,
{
}

/// A buffer begun anew is blank, keeps its stripes and is in the given slot.
pub proof fn lemma_begun_anew<F>(b: Buffer<F>, slot: Option<i64>)
    ensures
        ({
            let post = b.restarted(slot);
            &&& post.slot == slot
            &&& post.stripes == b.stripes
            &&& post.zero == b.zero
            &&& post.sums.len() == 12
            &&& post.counts.len() == 12
            &&& forall|s: int|
                0 <= s < 12 ==> (#[trigger] post.sums[s]).len() == 1024 && post.counts[s] == 0
            &&& forall|s: int, i: int|
                0 <= s < 12 && 0 <= i < 1024 ==> #[trigger] post.sums[s][i] == b.zero
        }),
{
    let post = b.restarted(slot);
    assert forall|s: int| 0 <= s < 12 implies (#[trigger] post.sums[s]).len() == 1024
        && post.counts[s] == 0 by {
        assert(post.sums[s] == crate::skimmer::blank(b.zero));
    }
    assert forall|s: int, i: int| 0 <= s < 12 && 0 <= i < 1024 implies #[trigger] post.sums[s][i]
        == b.zero by {
        assert(post.sums[s] == crate::skimmer::blank(b.zero));
    }
}

/// The view shows the latest stripes, as many as are wanted, but at least one
/// and no more than there are.
pub proof fn lemma_shown_stripes(total: int, display: int)
    requires
        total >= 1,
        display >= 0,
    ensures
        1 <= crate::skimmer::shown(total, display) <= total,
        1 <= display <= total ==> crate::skimmer::shown(total, display) == display,
        display > total ==> crate::skimmer::shown(total, display) == total,
{
}

} // verus!
