//! Cross-period accumulation: which track a sample joins, what is summed, and
//! what comes of the sums.

use vstd::prelude::*;
use crate::accumulate::{AccState, LlrSample, TrackState, LLR_LEN};
use crate::decoder::{DecodeData, DecodeSource};
use crate::mshv::MshvState;
use crate::time::UtcTime;

verus! {

/// `accs` are the totals of adding up `items` from `zero` with `plus`, one by
/// one, and `r` is the last of them.
pub open spec fn totals<X, P: Fn(X, X) -> X>(
    accs: Seq<X>,
    zero: X,
    items: Seq<X>,
    plus: P,
    r: X,
) -> bool {
    &&& accs.len() == items.len() + 1
    &&& accs[0] == zero
    &&& accs[items.len() as int] == r
    &&& forall|k: int|
        0 <= k < items.len() ==> call_ensures(plus, (accs[k], #[trigger] items[k]), accs[k + 1])
}

/// Adding up `items` from `zero`, each once and in order, can give `r`.
pub open spec fn adds_to<X, P: Fn(X, X) -> X>(zero: X, items: Seq<X>, plus: P, r: X) -> bool {
    exists|accs: Seq<X>| totals(accs, zero, items, plus, r)
}

/// A sum takes in every item once, in order.
pub proof fn lemma_sum_takes_every_item<X, P: Fn(X, X) -> X>(
    zero: X,
    items: Seq<X>,
    plus: P,
    r: X,
)
    requires
        crate::accumulate::adds_up(zero, items, plus, r),
    ensures
        adds_to(zero, items, plus, r),
    decreases items.len(),
{
    if items.len() == 0 {
        assert(totals(seq![zero], zero, items, plus, r));
    } else {
        let m = choose|m: X|
            {
                &&& crate::accumulate::adds_up(zero, items.drop_last(), plus, m)
                &&& #[trigger] call_ensures(plus, (m, items.last()), r)
            };
        lemma_sum_takes_every_item(zero, items.drop_last(), plus, m);
        let before = choose|accs: Seq<X>| totals(accs, zero, items.drop_last(), plus, m);
        let accs = before.push(r);
        assert forall|k: int| 0 <= k < items.len() implies call_ensures(
            plus,
            (accs[k], #[trigger] items[k]),
            accs[k + 1],
        ) by {
            if k < items.len() - 1 {
                assert(items.drop_last()[k] == items[k]);
            }
        }
        assert(totals(accs, zero, items, plus, r));
    }
}

/// `sum` adds up, element by element, all the vectors of a window, oldest
/// first.
pub open spec fn is_window_sum<X, P: Fn(X, X) -> X>(
    window: Seq<(i64, Seq<X>)>,
    zero: X,
    plus: P,
    sum: Seq<X>,
) -> bool {
    &&& sum.len() == 174
    &&& forall|i: int|
        0 <= i < 174 ==> adds_to(
            zero,
            Seq::new(window.len(), |k: int| window[k].1[i]),
            plus,
            #[trigger] sum[i],
        )
}

proof fn lemma_window_sum<X, P: Fn(X, X) -> X>(
    window: Seq<(i64, Seq<X>)>,
    zero: X,
    plus: P,
    sum: Seq<X>,
)
    requires
        crate::mshv::sums_up(window, zero, plus, sum),
    ensures
        is_window_sum(window, zero, plus, sum),
{
    assert forall|i: int| 0 <= i < 174 implies adds_to(
        zero,
        Seq::new(window.len(), |k: int| window[k].1[i]),
        plus,
        #[trigger] sum[i],
    ) by {
        let items = Seq::new(window.len(), |k: int| window[k].1[i]);
        assert(crate::accumulate::column(window, i) =~= items);
        lemma_sum_takes_every_item(zero, items, plus, sum[i]);
    }
}

/// Decode `d` reports message `m` for track `t`: it is combined from all the
/// periods in the track's window, and from no others.
pub open spec fn reports<F, X>(
    d: DecodeData<F>,
    t: TrackState<F, X>,
    m: Seq<char>,
    utc: UtcTime,
) -> bool {
    &&& d.message == m
    &&& d.utc == utc
    &&& d.snr_db == 0
    &&& d.freq_hz == t.freq_hz
    &&& d.dt == t.dt
    &&& d.source == DecodeSource::Accumulated(t.window.len() as u32)
    &&& d.contrib_tags.len() == t.window.len()
    &&& forall|k: int| 0 <= k < t.window.len() ==> #[trigger] d.contrib_tags[k] == t.window[k].0
}

/// The LDPC decoder was given the sum of the whole window of `t` and came
/// back with `msg`.
pub open spec fn attempt<F, X, P: Fn(X, X) -> X, L: Fn([X; LLR_LEN]) -> Option<String>>(
    t: TrackState<F, X>,
    zero: X,
    plus: P,
    ldpc: L,
    sum: [X; LLR_LEN],
    msg: Option<String>,
) -> bool {
    &&& is_window_sum(t.window, zero, plus, sum@)
    &&& call_ensures(ldpc, (sum,), msg)
}

/// What became of track `t`, now `after`: its sum was tried, and if it decoded
/// as anything new, that is among the decodes `out`.
pub open spec fn recovered<F, X, P: Fn(X, X) -> X, L: Fn([X; LLR_LEN]) -> Option<String>>(
    t: TrackState<F, X>,
    after: TrackState<F, X>,
    out: Seq<DecodeData<F>>,
    single: Seq<Seq<char>>,
    utc: UtcTime,
    zero: X,
    plus: P,
    ldpc: L,
) -> bool {
    exists|sum: [X; LLR_LEN], msg: Option<String>|
        {
            &&& #[trigger] attempt(t, zero, plus, ldpc, sum, msg)
            &&& msg is None ==> after.last_reported == t.last_reported
            &&& msg matches Some(m) ==> {
                &&& after.last_reported == Some(m@)
                &&& !single.contains(m@) && t.last_reported != Some(m@) ==> exists|k: int|
                    0 <= k < out.len() && reports(#[trigger] out[k], t, m@, utc)
            }
        }
}

/// Decode `d` comes from one of the tracks `idxs`: at least two periods were
/// summed, the sum decoded as `d` says, and that was news.
pub open spec fn is_due<F, X, P: Fn(X, X) -> X, L: Fn([X; LLR_LEN]) -> Option<String>>(
    d: DecodeData<F>,
    acc: AccState<F, X>,
    idxs: Seq<usize>,
    single: Seq<Seq<char>>,
    utc: UtcTime,
    zero: X,
    plus: P,
    ldpc: L,
) -> bool {
    exists|j: int, sum: [X; LLR_LEN], msg: Option<String>|
        {
            &&& 0 <= j < idxs.len()
            &&& #[trigger] attempt(acc.tracks[idxs[j] as int], zero, plus, ldpc, sum, msg)
            &&& acc.tracks[idxs[j] as int].window.len() >= 2
            &&& msg is Some
            &&& reports(d, acc.tracks[idxs[j] as int], msg.unwrap()@, utc)
            &&& !single.contains(msg.unwrap()@)
            &&& acc.tracks[idxs[j] as int].last_reported != Some(msg.unwrap()@)
        }
}

proof fn lemma_one_track<F, X, P: Fn(X, X) -> X, L: Fn([X; LLR_LEN]) -> Option<String>>(
    pre: AccState<F, X>,
    idx: int,
    post: AccState<F, X>,
    last: Option<DecodeData<F>>,
    zero: X,
    plus: P,
    ldpc: L,
    single: Seq<Seq<char>>,
    utc: UtcTime,
)
    requires
        0 <= idx < pre.tracks.len(),
        crate::mshv::redecoded(pre, idx, post, last, zero, plus, ldpc, single, utc),
    ensures
        post.tracks.len() == pre.tracks.len(),
        forall|i: int| 0 <= i < pre.tracks.len() && i != idx ==> post.tracks[i] == pre.tracks[i],
        pre.tracks[idx].window.len() < 2 ==> post.tracks[idx] == pre.tracks[idx] && last is None,
        pre.tracks[idx].window.len() >= 2 ==> exists|sum: [X; LLR_LEN], msg: Option<String>|
            {
                &&& #[trigger] attempt(pre.tracks[idx], zero, plus, ldpc, sum, msg)
                &&& msg is None ==> last is None && post.tracks[idx].last_reported
                    == pre.tracks[idx].last_reported
                &&& msg matches Some(m) ==> {
                    &&& post.tracks[idx].last_reported == Some(m@)
                    &&& last is Some <==> !single.contains(m@) && pre.tracks[idx].last_reported
                        != Some(m@)
                    &&& last matches Some(d) ==> reports(d, pre.tracks[idx], m@, utc)
                }
            },
{
    let t = pre.tracks[idx];
    if t.window.len() >= 2 {
        let (sum, msg) = choose|sum: [X; LLR_LEN], msg: Option<String>|
            {
                &&& #[trigger] crate::mshv::tried(t.window, zero, plus, ldpc, sum, msg)
                &&& match msg {
                    Some(m) => (post, last) == crate::mshv::accepted(pre, idx, m@, single, utc),
                    None => post == pre && last is None,
                }
            };
        lemma_window_sum(t.window, zero, plus, sum@);
        assert(attempt(t, zero, plus, ldpc, sum, msg));
    }
}

proof fn lemma_all_tracks<F, X, P: Fn(X, X) -> X, L: Fn([X; LLR_LEN]) -> Option<String>>(
    pre: AccState<F, X>,
    idxs: Seq<usize>,
    post: AccState<F, X>,
    out: Seq<DecodeData<F>>,
    zero: X,
    plus: P,
    ldpc: L,
    single: Seq<Seq<char>>,
    utc: UtcTime,
)
    requires
        idxs.no_duplicates(),
        forall|k: int| 0 <= k < idxs.len() ==> (#[trigger] idxs[k]) < pre.tracks.len(),
        crate::mshv::redecoded_all(pre, idxs, post, out, zero, plus, ldpc, single, utc),
    ensures
        post.tracks.len() == pre.tracks.len(),
        out.len() <= idxs.len(),
        forall|i: int|
            0 <= i < pre.tracks.len() && !idxs.contains(i as usize) ==> #[trigger] post.tracks[i]
                == pre.tracks[i],
        forall|j: int|
            0 <= j < idxs.len() && pre.tracks[(#[trigger] idxs[j]) as int].window.len() >= 2
                ==> recovered(
                pre.tracks[idxs[j] as int],
                post.tracks[idxs[j] as int],
                out,
                single,
                utc,
                zero,
                plus,
                ldpc,
            ),
        forall|k: int|
            0 <= k < out.len() ==> is_due(
                #[trigger] out[k],
                pre,
                idxs,
                single,
                utc,
                zero,
                plus,
                ldpc,
            ),
    decreases idxs.len(),
{
    if idxs.len() > 0 {
        let shorter = idxs.drop_last();
        let idx = idxs.last() as int;
        let n = idxs.len() - 1;
        let (mid, before, last) = choose|
            mid: AccState<F, X>,
            before: Seq<DecodeData<F>>,
            last: Option<DecodeData<F>>,
        |
            {
                &&& crate::mshv::redecoded_all(
                    pre,
                    idxs.drop_last(),
                    mid,
                    before,
                    zero,
                    plus,
                    ldpc,
                    single,
                    utc,
                )
                &&& crate::mshv::redecoded(
                    mid,
                    idxs.last() as int,
                    post,
                    last,
                    zero,
                    plus,
                    ldpc,
                    single,
                    utc,
                )
                &&& out == #[trigger] crate::mshv::with_last(mid, before, last)
            };
        assert forall|k: int| 0 <= k < shorter.len() implies (#[trigger] shorter[k])
            < pre.tracks.len() by {
            assert(shorter[k] == idxs[k]);
        }
        lemma_all_tracks(pre, shorter, mid, before, zero, plus, ldpc, single, utc);
        assert(idxs[n] == idx);
        assert(!shorter.contains(idx as usize)) by {
            if shorter.contains(idx as usize) {
                let k = shorter.index_of(idx as usize);
                assert(idxs[k] == idxs[n]);
            }
        }
        assert(mid.tracks[idx] == pre.tracks[idx]);
        lemma_one_track(mid, idx, post, last, zero, plus, ldpc, single, utc);
        assert forall|i: int| 0 <= i < pre.tracks.len() && !idxs.contains(i as usize) implies (
        #[trigger] post.tracks[i]) == pre.tracks[i] by {
            if shorter.contains(i as usize) {
                let k = shorter.index_of(i as usize);
                assert(idxs[k] == i);
            }
            assert(i != idx);
            assert(mid.tracks[i] == pre.tracks[i]);
        }
        assert forall|j: int|
            0 <= j < idxs.len() && pre.tracks[(#[trigger] idxs[j]) as int].window.len()
                >= 2 implies recovered(
            pre.tracks[idxs[j] as int],
            post.tracks[idxs[j] as int],
            out,
            single,
            utc,
            zero,
            plus,
            ldpc,
        ) by {
            let t = pre.tracks[idxs[j] as int];
            if j < n {
                assert(shorter[j] == idxs[j]);
                assert(idxs[j] != idxs[n]);
                let after = mid.tracks[shorter[j] as int];
                assert(recovered(t, after, before, single, utc, zero, plus, ldpc));
                assert(post.tracks[idxs[j] as int] == after);
                let (sum, msg) = choose|sum: [X; LLR_LEN], msg: Option<String>|
                    {
                        &&& #[trigger] attempt(t, zero, plus, ldpc, sum, msg)
                        &&& msg is None ==> after.last_reported == t.last_reported
                        &&& msg matches Some(m) ==> {
                            &&& after.last_reported == Some(m@)
                            &&& !single.contains(m@) && t.last_reported != Some(m@)
                                ==> exists|k: int|
                                0 <= k < before.len() && reports(#[trigger] before[k], t, m@, utc)
                        }
                    };
                if let Some(m) = msg {
                    if !single.contains(m@) && t.last_reported != Some(m@) {
                        let k = choose|k: int|
                            0 <= k < before.len() && reports(#[trigger] before[k], t, m@, utc);
                        assert(out[k] == before[k]);
                    }
                }
                assert(attempt(t, zero, plus, ldpc, sum, msg));
            } else if let Some(d) = last {
                assert(out[before.len() as int] == d);
            }
        }
        assert forall|k: int| 0 <= k < out.len() implies is_due(
            #[trigger] out[k],
            pre,
            idxs,
            single,
            utc,
            zero,
            plus,
            ldpc,
        ) by {
            if k < before.len() {
                let d = before[k];
                assert(is_due(d, pre, shorter, single, utc, zero, plus, ldpc));
                let (j, sum, msg) = choose|j: int, sum: [X; LLR_LEN], msg: Option<String>|
                    {
                        &&& 0 <= j < shorter.len()
                        &&& #[trigger] attempt(
                            pre.tracks[shorter[j] as int],
                            zero,
                            plus,
                            ldpc,
                            sum,
                            msg,
                        )
                        &&& pre.tracks[shorter[j] as int].window.len() >= 2
                        &&& msg is Some
                        &&& reports(d, pre.tracks[shorter[j] as int], msg.unwrap()@, utc)
                        &&& !single.contains(msg.unwrap()@)
                        &&& pre.tracks[shorter[j] as int].last_reported != Some(msg.unwrap()@)
                    };
                assert(shorter[j] == idxs[j]);
                assert(attempt(pre.tracks[idxs[j] as int], zero, plus, ldpc, sum, msg));
            } else {
                let t = pre.tracks[idx];
                let (sum, msg) = choose|sum: [X; LLR_LEN], msg: Option<String>|
                    {
                        &&& #[trigger] attempt(t, zero, plus, ldpc, sum, msg)
                        &&& msg is None ==> last is None && post.tracks[idx].last_reported
                            == t.last_reported
                        &&& msg matches Some(m) ==> {
                            &&& post.tracks[idx].last_reported == Some(m@)
                            &&& last is Some <==> !single.contains(m@) && t.last_reported != Some(
                                m@,
                            )
                            &&& last matches Some(d) ==> reports(d, t, m@, utc)
                        }
                    };
                assert(attempt(pre.tracks[idxs[n] as int], zero, plus, ldpc, sum, msg));
            }
        }
    }
}

/// Every track that took a sample in this slot and holds two periods or more,
/// however many, has the sum of its whole window tried. If it decodes as
/// anything that was not found single-shot in the slot and is not what the
/// track reported last, that comes out, with the tags of all the periods
/// behind it; and nothing else comes out. Other tracks stay as they were.
pub proof fn lemma_every_sum_is_tried<
    F,
    X,
    G: Fn(F, F) -> u32,
    E: Fn(F, F) -> F,
    P: Fn(X, X) -> X,
    L: Fn([X; LLR_LEN]) -> Option<String>,
>(
    pre: MshvState<F, X>,
    ids: Seq<i64>,
    post: AccState<F, X>,
    out: Seq<DecodeData<F>>,
    idxs: Seq<usize>,
    mid: AccState<F, X>,
    gap: G,
    ease: E,
    zero: X,
    plus: P,
    ldpc: L,
)
    requires
        pre.acc.ok(),
        crate::mshv::accumulated_via(
            pre,
            ids,
            post,
            out,
            idxs,
            mid,
            gap,
            ease,
            zero,
            plus,
            ldpc,
        ),
    ensures
        post.tracks.len() == mid.tracks.len(),
        forall|j: int|
            0 <= j < idxs.len() ==> (#[trigger] idxs[j]) < mid.tracks.len() && (
            mid.tracks[idxs[j] as int].window.len() >= 2 ==> recovered(
                mid.tracks[idxs[j] as int],
                post.tracks[idxs[j] as int],
                out,
                pre.single,
                pre.utc,
                zero,
                plus,
                ldpc,
            )),
        forall|k: int|
            0 <= k < out.len() ==> is_due(
                #[trigger] out[k],
                mid,
                idxs,
                pre.single,
                pre.utc,
                zero,
                plus,
                ldpc,
            ),
        forall|i: int|
            0 <= i < mid.tracks.len() && !idxs.contains(i as usize) ==> #[trigger] post.tracks[i]
                == mid.tracks[i],
        post.period == mid.period,
        post.parity == mid.parity,
        forall|i: int|
            0 <= i < mid.tracks.len() ==> {
                let (t, u) = (mid.tracks[i], #[trigger] post.tracks[i]);
                &&& u.window == t.window
                &&& u.freq_hz == t.freq_hz
                &&& u.dt == t.dt
                &&& u.last_period == t.last_period
                &&& u.parity == t.parity
            },
{
    crate::mshv::lemma_decodes_stay_in_sequence(
        pre,
        ids,
        post,
        out,
        idxs,
        mid,
        gap,
        ease,
        zero,
        plus,
        ldpc,
    );
    let touched = crate::accumulate::first_seen(idxs);
    crate::accumulate::lemma_touched_once(idxs);
    assert forall|k: int| 0 <= k < touched.len() implies (#[trigger] touched[k])
        < mid.tracks.len() by {
        assert(touched.contains(touched[k]));
        assert(idxs.contains(touched[k]));
        let j = idxs.index_of(touched[k]);
        assert(idxs[j] == touched[k]);
    }
    lemma_all_tracks(mid, touched, post, out, zero, plus, ldpc, pre.single, pre.utc);
    assert forall|i: int| 0 <= i < mid.tracks.len() implies {
        let (t, u) = (mid.tracks[i], #[trigger] post.tracks[i]);
        &&& u.window == t.window
        &&& u.freq_hz == t.freq_hz
        &&& u.dt == t.dt
        &&& u.last_period == t.last_period
        &&& u.parity == t.parity
    } by {
        assert(mid.tracks[i].window == post.tracks[i].window);
    }
    assert forall|j: int| 0 <= j < idxs.len() implies (#[trigger] idxs[j]) < mid.tracks.len() && (
    mid.tracks[idxs[j] as int].window.len() >= 2 ==> recovered(
        mid.tracks[idxs[j] as int],
        post.tracks[idxs[j] as int],
        out,
        pre.single,
        pre.utc,
        zero,
        plus,
        ldpc,
    )) by {
        assert(idxs.contains(idxs[j]));
        assert(touched.contains(idxs[j]));
        let k = touched.index_of(idxs[j]);
        assert(touched[k] == idxs[j]);
    }
    assert forall|k: int| 0 <= k < out.len() implies is_due(
        #[trigger] out[k],
        mid,
        idxs,
        pre.single,
        pre.utc,
        zero,
        plus,
        ldpc,
    ) by {
        let d = out[k];
        assert(is_due(d, mid, touched, pre.single, pre.utc, zero, plus, ldpc));
        let (j, sum, msg) = choose|j: int, sum: [X; LLR_LEN], msg: Option<String>|
            {
                &&& 0 <= j < touched.len()
                &&& #[trigger] attempt(mid.tracks[touched[j] as int], zero, plus, ldpc, sum, msg)
                &&& mid.tracks[touched[j] as int].window.len() >= 2
                &&& msg is Some
                &&& reports(d, mid.tracks[touched[j] as int], msg.unwrap()@, pre.utc)
                &&& !pre.single.contains(msg.unwrap()@)
                &&& mid.tracks[touched[j] as int].last_reported != Some(msg.unwrap()@)
            };
        assert(touched.contains(touched[j]));
        assert(idxs.contains(touched[j]));
        let i = idxs.index_of(touched[j]);
        assert(idxs[i] == touched[j]);
        assert(attempt(mid.tracks[idxs[i] as int], zero, plus, ldpc, sum, msg));
    }
}

/// `s` is sample `raw` under the tag `id`.
pub open spec fn is_tagged<F, X>(s: LlrSample<F, X>, raw: LlrSample<F, X>, id: i64) -> bool {
    &&& s.tag == id
    &&& s.llr == raw.llr
    &&& s.freq_hz == raw.freq_hz
    &&& s.dt == raw.dt
    &&& s.sync == raw.sync
}

/// Sample `raw` takes the accumulator from `pre` to `post` through track `idx`
/// under the tag `id`.
pub open spec fn takes_one<F, X, G: Fn(F, F) -> u32, E: Fn(F, F) -> F>(
    pre: AccState<F, X>,
    raw: LlrSample<F, X>,
    id: i64,
    idx: int,
    post: AccState<F, X>,
    gap: G,
    ease: E,
) -> bool {
    exists|s: LlrSample<F, X>|
        is_tagged(s, raw, id) && #[trigger] pre.add_step(s, idx, post, gap, ease)
}

/// `states` are what the accumulator holds before each of the samples `raw`
/// and after the last; sample `k` goes to track `idxs[k]`, under the tag
/// `ids[k]`.
pub open spec fn takes_all<F, X, G: Fn(F, F) -> u32, E: Fn(F, F) -> F>(
    states: Seq<AccState<F, X>>,
    raw: Seq<LlrSample<F, X>>,
    ids: Seq<i64>,
    idxs: Seq<usize>,
    gap: G,
    ease: E,
) -> bool {
    &&& states.len() == raw.len() + 1
    &&& idxs.len() == raw.len()
    &&& forall|k: int|
        0 <= k < raw.len() ==> takes_one(
            states[k],
            #[trigger] raw[k],
            ids[k],
            idxs[k] as int,
            states[k + 1],
            gap,
            ease,
        )
}

/// Accumulating a slot begins a period of the slot's parity and then takes in
/// every sample of the slot, in order, each under the id of its own period,
/// before any track is tried.
pub proof fn lemma_every_sample_is_taken_in<
    F,
    X,
    G: Fn(F, F) -> u32,
    E: Fn(F, F) -> F,
    P: Fn(X, X) -> X,
    L: Fn([X; LLR_LEN]) -> Option<String>,
>(
    pre: MshvState<F, X>,
    ids: Seq<i64>,
    post: AccState<F, X>,
    out: Seq<DecodeData<F>>,
    idxs: Seq<usize>,
    mid: AccState<F, X>,
    gap: G,
    ease: E,
    zero: X,
    plus: P,
    ldpc: L,
)
    requires
        ids.len() == pre.samples.len(),
        crate::mshv::accumulated_via(
            pre,
            ids,
            post,
            out,
            idxs,
            mid,
            gap,
            ease,
            zero,
            plus,
            ldpc,
        ),
    ensures
        exists|states: Seq<AccState<F, X>>|
            {
                &&& #[trigger] takes_all(states, pre.samples, ids, idxs, gap, ease)
                &&& states[0] == pre.acc.advanced(
                    if pre.utc.secs as int % 30 < 15 {
                        0u8
                    } else {
                        1u8
                    },
                )
                &&& states.last() == mid
            },
{
    let raw = pre.samples;
    let samples = crate::mshv::all_tagged(raw, ids);
    let begun = pre.acc.advanced(crate::mshv::parity_of(pre.utc) as u8);
    lemma_samples_are_tagged(raw, ids, pre.utc);
    lemma_samples_are_added_in_order(begun, samples, idxs, mid, gap, ease);
    let states = choose|states: Seq<AccState<F, X>>|
        {
            &&& #[trigger] states.len() == samples.len() + 1
            &&& states[0] == begun
            &&& states[samples.len() as int] == mid
            &&& forall|k: int|
                0 <= k < samples.len() ==> states[k].add_step(
                    #[trigger] samples[k],
                    idxs[k] as int,
                    states[k + 1],
                    gap,
                    ease,
                )
        };
    assert forall|k: int| 0 <= k < raw.len() implies takes_one(
        states[k],
        #[trigger] raw[k],
        ids[k],
        idxs[k] as int,
        states[k + 1],
        gap,
        ease,
    ) by {
        let s = samples[k];
        assert(is_tagged(s, raw[k], ids[k]));
        assert(states[k].add_step(s, idxs[k] as int, states[k + 1], gap, ease));
    }
    assert(takes_all(states, raw, ids, idxs, gap, ease));
}

/// How far track `t` lies from sample `s`: `df` in frequency, `dd` in time.
pub open spec fn lies_at<F, X, G: Fn(F, F) -> u32>(
    t: TrackState<F, X>,
    s: LlrSample<F, X>,
    gap: G,
    df: u32,
    dd: u32,
) -> bool {
    &&& call_ensures(gap, (t.freq_hz, s.freq_hz), df)
    &&& call_ensures(gap, (t.dt, s.dt), dd)
}

/// Track `j` does not come before a track at index `idx` that lies `best`
/// away in frequency: it is of the other slot sequence, out of tolerance
/// (4 Hz and 0.30 s, as order keys), further away, or as far and further on.
pub open spec fn no_better<F, X, G: Fn(F, F) -> u32>(
    acc: AccState<F, X>,
    s: LlrSample<F, X>,
    gap: G,
    j: int,
    idx: int,
    best: u32,
) -> bool {
    acc.tracks[j].parity == acc.parity ==> exists|df: u32, dd: u32|
        #[trigger] lies_at(acc.tracks[j], s, gap, df, dd) && {
            ||| df > 0x4080_0000
            ||| dd > 0x3E99_999A
            ||| best < df
            ||| best == df && idx <= j
        }
}

/// A sample joins the track of its own slot sequence that is closest in
/// frequency among those within both tolerances, the first of them where two
/// are as close.
pub open spec fn joins<F, X, G: Fn(F, F) -> u32>(
    acc: AccState<F, X>,
    s: LlrSample<F, X>,
    gap: G,
    idx: int,
) -> bool {
    &&& 0 <= idx < acc.tracks.len()
    &&& acc.tracks[idx].parity == acc.parity
    &&& exists|df: u32, dd: u32|
        {
            &&& #[trigger] lies_at(acc.tracks[idx], s, gap, df, dd)
            &&& df <= 0x4080_0000
            &&& dd <= 0x3E99_999A
            &&& forall|j: int|
                0 <= j < acc.tracks.len() ==> #[trigger] no_better(acc, s, gap, j, idx, df)
        }
}

/// No track of the sample's own slot sequence is within both tolerances.
pub open spec fn stands_alone<F, X, G: Fn(F, F) -> u32>(
    acc: AccState<F, X>,
    s: LlrSample<F, X>,
    gap: G,
) -> bool {
    forall|j: int|
        0 <= j < acc.tracks.len() && (#[trigger] acc.tracks[j]).parity == acc.parity
            ==> exists|df: u32, dd: u32|
            #[trigger] lies_at(acc.tracks[j], s, gap, df, dd) && (df > 0x4080_0000 || dd
                > 0x3E99_999A)
}

/// Where a sample goes: to the track that it [`joins`], or to a new one
/// behind the others if it [`stands_alone`]. The track's window gains the
/// sample's tag and vector at its end, whatever they are, and loses its
/// oldest entry only if it held eight; its centroid eases toward the sample.
/// Every other track stays as it was.
pub proof fn lemma_sample_joins_the_closest_track<F, X, G: Fn(F, F) -> u32, E: Fn(F, F) -> F>(
    pre: AccState<F, X>,
    s: LlrSample<F, X>,
    idx: int,
    post: AccState<F, X>,
    gap: G,
    ease: E,
)
    requires
        pre.ok(),
        pre.add_step(s, idx, post, gap, ease),
    ensures
        joins(pre, s, gap, idx) || idx == pre.tracks.len() && stands_alone(pre, s, gap),
        post.period == pre.period,
        post.parity == pre.parity,
        forall|j: int|
            0 <= j < pre.tracks.len() && j != idx ==> #[trigger] post.tracks[j] == pre.tracks[j],
        post.tracks[idx].parity == pre.parity,
        post.tracks[idx].last_period == pre.period,
        idx == pre.tracks.len() ==> {
            let t = post.tracks[idx];
            &&& post.tracks.len() == pre.tracks.len() + 1
            &&& t.window.len() == 1
            &&& t.window[0] == (s.tag, s.llr@)
            &&& t.last_reported is None
            &&& call_ensures(ease, (s.freq_hz, s.freq_hz), t.freq_hz)
            &&& call_ensures(ease, (s.dt, s.dt), t.dt)
        },
        idx < pre.tracks.len() ==> {
            let (was, t) = (pre.tracks[idx], post.tracks[idx]);
            let n = was.window.len() as int;
            let gone: int = if n == 8 {
                1
            } else {
                0
            };
            &&& post.tracks.len() == pre.tracks.len()
            &&& t.window.len() == n + 1 - gone
            &&& t.window[n - gone] == (s.tag, s.llr@)
            &&& forall|k: int| 0 <= k < n - gone ==> #[trigger] t.window[k] == was.window[k + gone]
            &&& t.last_reported == was.last_reported
            &&& call_ensures(ease, (was.freq_hz, s.freq_hz), t.freq_hz)
            &&& call_ensures(ease, (was.dt, s.dt), t.dt)
        },
{
    let (gaps, found, freq, dt) = choose|
        gaps: Seq<Option<(u32, u32)>>,
        found: Option<usize>,
        freq: F,
        dt: F,
    | #[trigger]
        pre.step_via(s, idx, post, gap, ease, gaps, found, freq, dt);
    assert(pre.step_via(s, idx, post, gap, ease, gaps, found, freq, dt));
    assert forall|j: int| 0 <= j < pre.tracks.len() && gaps[j] is Some implies lies_at(
        pre.tracks[j],
        s,
        gap,
        (#[trigger] gaps[j]).unwrap().0,
        gaps[j].unwrap().1,
    ) by {}
    match found {
        Some(i) => {
            let (df, dd) = gaps[i as int].unwrap();
            assert(crate::accumulate::within(gaps[i as int]));
            assert(lies_at(pre.tracks[idx], s, gap, df, dd));
            assert forall|j: int| 0 <= j < pre.tracks.len() implies #[trigger] no_better(
                pre,
                s,
                gap,
                j,
                idx,
                df,
            ) by {
                if pre.tracks[j].parity == pre.parity {
                    assert(gaps[j] is Some);
                    let (ef, ed) = gaps[j].unwrap();
                    assert(lies_at(pre.tracks[j], s, gap, ef, ed));
                    if ef <= 0x4080_0000 && ed <= 0x3E99_999A {
                        assert(crate::accumulate::within(gaps[j]));
                    }
                }
            }
            assert(joins(pre, s, gap, idx));
        },
        None => {
            assert forall|j: int|
                0 <= j < pre.tracks.len() && (#[trigger] pre.tracks[j]).parity
                    == pre.parity implies exists|df: u32, dd: u32|
                #[trigger] lies_at(pre.tracks[j], s, gap, df, dd) && (df > 0x4080_0000 || dd
                    > 0x3E99_999A) by {
                assert(gaps[j] is Some);
                let (ef, ed) = gaps[j].unwrap();
                assert(lies_at(pre.tracks[j], s, gap, ef, ed));
                assert(!crate::accumulate::within(gaps[j]));
            }
        },
    }
}

/// Samples are added one by one, in order, none left out: there is a state
/// before each and after the last.
pub proof fn lemma_samples_are_added_in_order<F, X, G: Fn(F, F) -> u32, E: Fn(F, F) -> F>(
    pre: AccState<F, X>,
    samples: Seq<LlrSample<F, X>>,
    idxs: Seq<usize>,
    post: AccState<F, X>,
    gap: G,
    ease: E,
)
    requires
        pre.add_run(samples, idxs, post, gap, ease),
    ensures
        idxs.len() == samples.len(),
        exists|states: Seq<AccState<F, X>>|
            {
                &&& #[trigger] states.len() == samples.len() + 1
                &&& states[0] == pre
                &&& states[samples.len() as int] == post
                &&& forall|k: int|
                    0 <= k < samples.len() ==> states[k].add_step(
                        #[trigger] samples[k],
                        idxs[k] as int,
                        states[k + 1],
                        gap,
                        ease,
                    )
            },
    decreases samples.len(),
{
    if samples.len() == 0 {
        let states = seq![pre];
        assert(states.len() == samples.len() + 1);
    } else {
        let (fewer, shorter) = (samples.drop_last(), idxs.drop_last());
        let mid = choose|mid: AccState<F, X>|
            {
                &&& pre.add_run(samples.drop_last(), idxs.drop_last(), mid, gap, ease)
                &&& #[trigger] mid.add_step(
                    samples.last(),
                    idxs.last() as int,
                    post,
                    gap,
                    ease,
                )
            };
        lemma_samples_are_added_in_order(pre, fewer, shorter, mid, gap, ease);
        let before = choose|states: Seq<AccState<F, X>>|
            {
                &&& #[trigger] states.len() == fewer.len() + 1
                &&& states[0] == pre
                &&& states[fewer.len() as int] == mid
                &&& forall|k: int|
                    0 <= k < fewer.len() ==> states[k].add_step(
                        #[trigger] fewer[k],
                        shorter[k] as int,
                        states[k + 1],
                        gap,
                        ease,
                    )
            };
        let states = before.push(post);
        assert forall|k: int| 0 <= k < samples.len() implies states[k].add_step(
            #[trigger] samples[k],
            idxs[k] as int,
            states[k + 1],
            gap,
            ease,
        ) by {
            if k < fewer.len() {
                assert(fewer[k] == samples[k]);
                assert(before[k].add_step(fewer[k], shorter[k] as int, before[k + 1], gap, ease));
            }
        }
        assert(states.len() == samples.len() + 1);
    }
}

/// A new period counts one on, takes on the parity of its slot, and keeps,
/// in their order and unchanged, exactly the tracks that were updated within
/// the last eight periods.
pub proof fn lemma_period_drops_only_stale_tracks<F, X>(pre: AccState<F, X>, parity: u8)
    ensures
        ({
            let post = pre.advanced(parity);
            &&& post.period == pre.period + 1
            &&& post.parity == parity as int % 2
            &&& exists|from: Seq<int>|
                {
                    &&& #[trigger] from.len() == post.tracks.len()
                    &&& forall|i: int|
                        0 <= i < from.len() ==> 0 <= #[trigger] from[i] < pre.tracks.len()
                            && post.tracks[i] == pre.tracks[from[i]]
                            && pre.tracks[from[i]].last_period + 8 >= pre.period + 1
                    &&& forall|i: int, j: int| 0 <= i < j < from.len() ==> from[i] < from[j]
                    &&& forall|k: int|
                        0 <= k < pre.tracks.len() && (#[trigger] pre.tracks[k]).last_period + 8
                            >= pre.period + 1 ==> from.contains(k)
                }
        }),
{
    let fresh = |t: TrackState<F, X>| pre.period + 1 - t.last_period <= crate::accumulate::MAX_AGE;
    let from = lemma_kept_places(pre.tracks, fresh);
    assert(from.len() == pre.advanced(parity).tracks.len());
    assert forall|k: int|
        0 <= k < pre.tracks.len() && (#[trigger] pre.tracks[k]).last_period + 8 >= pre.period
            + 1 implies from.contains(k) by {
        assert(fresh(pre.tracks[k]));
    }
}

/// The places that a filter keeps.
proof fn lemma_kept_places<A>(s: Seq<A>, keep: spec_fn(A) -> bool) -> (from: Seq<int>)
    ensures
        from.len() == s.filter(keep).len(),
        forall|i: int|
            0 <= i < from.len() ==> 0 <= #[trigger] from[i] < s.len() && s.filter(keep)[i]
                == s[from[i]] && keep(s[from[i]]),
        forall|i: int, j: int| 0 <= i < j < from.len() ==> from[i] < from[j],
        forall|k: int| 0 <= k < s.len() && keep(#[trigger] s[k]) ==> from.contains(k),
    decreases s.len(),
{
    reveal(Seq::filter);
    if s.len() == 0 {
        seq![]
    } else {
        let n = s.len() - 1;
        let before = lemma_kept_places(s.drop_last(), keep);
        let from = if keep(s.last()) {
            before.push(n)
        } else {
            before
        };
        assert forall|i: int| 0 <= i < from.len() implies 0 <= #[trigger] from[i] < s.len()
            && s.filter(keep)[i] == s[from[i]] && keep(s[from[i]]) by {
            if i < before.len() {
                assert(before[i] == from[i]);
                assert(s.drop_last()[before[i]] == s[from[i]]);
            }
        }
        assert forall|k: int| 0 <= k < s.len() && keep(#[trigger] s[k]) implies from.contains(k) by {
            if k < n {
                assert(s.drop_last()[k] == s[k]);
                let i = before.index_of(k);
                assert(from[i] == k);
            } else {
                assert(from[before.len() as int] == n);
            }
        }
        from
    }
}

/// Noting a message for a track changes what the track reported last, and
/// nothing else.
pub proof fn lemma_noting_changes_one_thing<F, X>(acc: AccState<F, X>, idx: int, msg: Seq<char>)
    requires
        0 <= idx < acc.tracks.len(),
    ensures
        ({
            let post = acc.noted(idx, msg);
            &&& post.period == acc.period
            &&& post.parity == acc.parity
            &&& post.tracks.len() == acc.tracks.len()
            &&& post.tracks[idx].last_reported == Some(msg)
            &&& post.tracks[idx].window == acc.tracks[idx].window
            &&& post.tracks[idx].freq_hz == acc.tracks[idx].freq_hz
            &&& post.tracks[idx].dt == acc.tracks[idx].dt
            &&& post.tracks[idx].last_period == acc.tracks[idx].last_period
            &&& post.tracks[idx].parity == acc.tracks[idx].parity
            &&& forall|i: int|
                0 <= i < acc.tracks.len() && i != idx ==> #[trigger] post.tracks[i] == acc.tracks[i]
            &&& acc.is_news(idx, msg) <==> acc.tracks[idx].last_reported != Some(msg)
        }),
{
}

/// Touched tracks come in the order in which they were first touched.
pub proof fn lemma_touched_in_order(idxs: Seq<usize>, i: int, j: int)
    requires
        0 <= i < j < crate::accumulate::first_seen(idxs).len(),
    ensures
        exists|a: int|
            {
                &&& 0 <= a < idxs.len()
                &&& #[trigger] idxs[a] == crate::accumulate::first_seen(idxs)[i]
                &&& forall|b: int|
                    0 <= b <= a ==> #[trigger] idxs[b] != crate::accumulate::first_seen(idxs)[j]
            },
    decreases idxs.len(),
{
    let seen = crate::accumulate::first_seen(idxs);
    if idxs.len() > 0 {
        let shorter = idxs.drop_last();
        let before = crate::accumulate::first_seen(shorter);
        if j < before.len() {
            lemma_touched_in_order(shorter, i, j);
            let a = choose|a: int|
                {
                    &&& 0 <= a < shorter.len()
                    &&& #[trigger] shorter[a] == before[i]
                    &&& forall|b: int| 0 <= b <= a ==> #[trigger] shorter[b] != before[j]
                };
            assert(idxs[a] == seen[i]);
            assert forall|b: int| 0 <= b <= a implies #[trigger] idxs[b] != seen[j] by {
                assert(shorter[b] == idxs[b]);
            }
        } else {
            crate::accumulate::lemma_touched_once(shorter);
            assert(before.contains(before[i]));
            assert(shorter.contains(before[i]));
            let a = shorter.index_of(before[i]);
            assert(idxs[a] == seen[i]);
            assert forall|b: int| 0 <= b <= a implies #[trigger] idxs[b] != seen[j] by {
                assert(shorter[b] == idxs[b]);
                assert(shorter.contains(shorter[b]));
            }
        }
    }
}

/// The soft evidence of a candidate is the candidate's own: its coordinates,
/// its vector, the slot's time, and whether the LDPC decoder decodes that very
/// vector.
pub proof fn lemma_evidence_is_the_candidates<
    F,
    X,
    L: Fn([X; LLR_LEN]) -> Option<String>,
>(p: crate::store::PeriodSoft<F, X>, s: LlrSample<F, X>, utc: UtcTime, ldpc: L)
    requires
        crate::mshv::evidence_of(p, s, utc, ldpc),
    ensures
        p.utc == utc,
        p.freq_hz == s.freq_hz,
        p.dt == s.dt,
        p.sync == s.sync,
        p.llr@ == s.llr@,
        exists|v: [X; LLR_LEN], msg: Option<String>|
            {
                &&& #[trigger] call_ensures(ldpc, (v,), msg)
                &&& v@ == s.llr@
                &&& p.decoded <==> msg is Some
            },
{
}

/// Whether a vector of any length decodes on its own: only one of full length
/// can, and then the LDPC decoder says so.
pub proof fn lemma_decoding_alone<X, L: Fn([X; LLR_LEN]) -> Option<String>>(
    llr: Seq<X>,
    ldpc: L,
    r: bool,
)
    requires
        crate::mshv::decodes_as(llr, ldpc, r),
    ensures
        llr.len() != 174 ==> !r,
        llr.len() == 174 ==> exists|v: [X; LLR_LEN], msg: Option<String>|
            {
                &&& #[trigger] call_ensures(ldpc, (v,), msg)
                &&& v@ == llr
                &&& r <==> msg is Some
            },
{
}

/// Samples are tagged with the ids of their own periods and otherwise stay as
/// they were; the slot's parity tells even periods (:00, :30) from odd ones.
pub proof fn lemma_samples_are_tagged<F, X>(
    samples: Seq<LlrSample<F, X>>,
    ids: Seq<i64>,
    utc: UtcTime,
)
    ensures
        crate::mshv::all_tagged(samples, ids).len() == samples.len(),
        forall|k: int|
            0 <= k < samples.len() ==> {
                let t = #[trigger] crate::mshv::all_tagged(samples, ids)[k];
                &&& t.tag == ids[k]
                &&& t.llr == samples[k].llr
                &&& t.freq_hz == samples[k].freq_hz
                &&& t.dt == samples[k].dt
                &&& t.sync == samples[k].sync
            },
        crate::mshv::parity_of(utc) == if utc.secs as int % 30 < 15 {
            0int
        } else {
            1
        },
{
}

/// A message that the engine found is a single-shot decode of the slot, with
/// all that the engine said of it.
pub proof fn lemma_found_messages_are_kept<F>(f: crate::mshv::Found<F>, utc: UtcTime)
    ensures
        ({
            let d = crate::mshv::decode_found(f, utc);
            &&& d.utc == utc
            &&& d.snr_db == f.snr_db
            &&& d.dt == f.dt
            &&& d.freq_hz == f.freq_hz
            &&& d.message == f.message@
            &&& d.source is SingleShot
            &&& d.contrib_tags.len() == 0
        }),
{
}

} // verus!
