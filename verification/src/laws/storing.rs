//! Storing: what is asked for in the course of a slot, and what the rows
//! hold.

use vstd::prelude::*;
use crate::cycle::{Action, CycleState, EventData, Phase};
use crate::decoder::DecodeSource;

verus! {

proof fn lemma_runs_join(s: CycleState, a: Seq<EventData>, b: Seq<EventData>)
    ensures
        crate::cycle::run(s, a + b) == crate::cycle::run(crate::cycle::run(s, a), b),
        crate::cycle::answered(s, a + b) == crate::cycle::answered(s, a) + crate::cycle::answered(
            crate::cycle::run(s, a),
            b,
        ),
    decreases b.len(),
{
    if b.len() == 0 {
        assert(a + b =~= a);
        assert(crate::cycle::answered(s, a) + Seq::<Action>::empty() =~= crate::cycle::answered(
            s,
            a,
        ));
    } else {
        lemma_runs_join(s, a, b.drop_last());
        assert((a + b).drop_last() =~= a + b.drop_last());
        let mid = crate::cycle::run(s, a);
        assert(crate::cycle::answered(s, a + b) =~= crate::cycle::answered(s, a)
            + crate::cycle::answered(mid, b));
    }
}

/// What comes of storing an accumulated decode with these tags: its row is
/// written or not, and if it is, one link for each tag that names a row.
pub open spec fn outcome(answer: Option<i64>, tags: Seq<i64>) -> Seq<EventData> {
    seq![EventData::Saved(answer)] + if answer is Some {
        Seq::new(tags.filter(|t: i64| t >= 0).len(), |k: int| EventData::Linked)
    } else {
        seq![]
    }
}

/// What has to be done for accumulated decode `k`: store it, and if that
/// worked link its row to those of its periods that have one.
pub open spec fn writes(k: int, answer: Option<i64>, tags: Seq<i64>) -> Seq<Action> {
    seq![Action::SaveAccumulated(k as usize)] + if answer is Some {
        tags.filter(|t: i64| t >= 0).map_values(|t: i64| Action::Link(answer.unwrap(), t))
    } else {
        seq![]
    }
}

/// The outcomes of the first `n` accumulated decodes, one after the other.
pub open spec fn outcomes(answers: Seq<Option<i64>>, tags: Seq<Seq<i64>>, n: int) -> Seq<EventData>
    decreases n,
{
    if n <= 0 {
        seq![]
    } else {
        outcomes(answers, tags, n - 1) + outcome(answers[n - 1], tags[n - 1])
    }
}

/// What has to be done for the first `n` accumulated decodes.
pub open spec fn all_writes(answers: Seq<Option<i64>>, tags: Seq<Seq<i64>>, n: int) -> Seq<Action>
    decreases n,
{
    if n <= 0 {
        seq![]
    } else {
        all_writes(answers, tags, n - 1) + writes(n - 1, answers[n - 1], tags[n - 1])
    }
}

proof fn lemma_accumulated_in_turn(
    s: CycleState,
    answers: Seq<Option<i64>>,
    n: int,
)
    requires
        s.phase == (Phase::SavingAccumulated { next: 0 }),
        s.store is Some,
        s.tags.len() > 0,
        crate::cycle::sized(s.tags),
        answers.len() == s.tags.len(),
        0 <= n <= s.tags.len(),
    ensures
        ({
            let end = crate::cycle::run(s, outcomes(answers, s.tags, n));
            &&& end == (CycleState {
                phase: if n < s.tags.len() {
                    Phase::SavingAccumulated { next: n as usize }
                } else {
                    Phase::Done
                },
                ..s
            })
            &&& crate::cycle::answered(s, outcomes(answers, s.tags, n)) == all_writes(
                answers,
                s.tags,
                n,
            )
        }),
    decreases n,
{
    if n == 0 {
        assert(crate::cycle::answered(s, outcomes(answers, s.tags, 0)) =~= seq![]);
    } else {
        let k = n - 1;
        lemma_accumulated_in_turn(s, answers, k);
        let before = outcomes(answers, s.tags, k);
        let mid = crate::cycle::run(s, before);
        let (answer, tags) = (answers[k], s.tags[k]);
        lemma_runs_join(s, before, outcome(answer, tags));
        assert(mid.ok());
        match answer {
            Some(row) => {
                crate::cycle::lemma_links_every_row(mid, k as usize, row);
                let linked = crate::cycle::rows(tags);
                assert(linked == tags.filter(|t: i64| t >= 0));
                assert(outcome(answer, tags) =~= seq![EventData::Saved(Some(row))] + Seq::new(
                    linked.len(),
                    |i: int| EventData::Linked,
                ));
                assert(writes(k, answer, tags) =~= seq![Action::SaveAccumulated(k as usize)]
                    + linked.map_values(|t: i64| Action::Link(row, t)));
            },
            None => {
                let one = outcome(answer, tags);
                assert(one =~= seq![EventData::Saved(None)]);
                assert(one.drop_last() =~= seq![]);
                assert(one.last() == EventData::Saved(None));
                assert(crate::cycle::run(mid, one.drop_last()) == mid);
                assert(crate::cycle::run(mid, one) == mid.after(EventData::Saved(None)));
                assert(crate::cycle::answered(mid, one.drop_last()) =~= seq![]);
                assert(crate::cycle::answered(mid, one) =~= seq![
                    Action::SaveAccumulated(k as usize),
                ]);
                assert(writes(k, answer, tags) =~= seq![Action::SaveAccumulated(k as usize)]);
            },
        }
    }
}

/// What comes of a whole slot: it is decoded, the decodes and periods are
/// stored as `saves` and `periods` say, and so are the decodes that
/// accumulation recovers, with their tags.
pub open spec fn slot_events(
    store: Option<bool>,
    saves: Seq<Option<i64>>,
    periods: Seq<Option<i64>>,
    answers: Seq<Option<i64>>,
    tags: Seq<Seq<i64>>,
) -> Seq<EventData> {
    let saved = |id: Option<i64>| EventData::Saved(id);
    let first = seq![EventData::Decoded(saves.len() as usize)];
    let soft = seq![EventData::Soft(periods.len() as usize)];
    let last = seq![EventData::Accumulated(tags)];
    match store {
        None => first + last,
        Some(false) => first + saves.map_values(saved) + last + outcomes(
            answers,
            tags,
            tags.len() as int,
        ),
        Some(true) => first + saves.map_values(saved) + (soft + periods.map_values(saved)) + last
            + outcomes(answers, tags, tags.len() as int),
    }
}

/// What is to be done in the course of a slot.
pub open spec fn slot_actions(
    store: Option<bool>,
    saves: Seq<Option<i64>>,
    periods: Seq<Option<i64>>,
    answers: Seq<Option<i64>>,
    tags: Seq<Seq<i64>>,
) -> Seq<Action> {
    let decodes = Seq::new(saves.len(), |k: int| Action::SaveDecode(k as usize));
    let soft = seq![Action::TakeSoft] + Seq::new(
        periods.len(),
        |k: int| Action::SavePeriod(k as usize),
    );
    match store {
        None => seq![Action::Decode] + seq![Action::Accumulate],
        Some(false) => seq![Action::Decode] + decodes + seq![Action::Accumulate] + all_writes(
            answers,
            tags,
            tags.len() as int,
        ),
        Some(true) => seq![Action::Decode] + decodes + soft + seq![Action::Accumulate] + all_writes(
            answers,
            tags,
            tags.len() as int,
        ),
    }
}

proof fn lemma_accumulation(s: CycleState, answers: Seq<Option<i64>>, tags: Seq<Seq<i64>>)
    requires
        s.phase == Phase::Accumulating,
        crate::cycle::sized(tags),
        answers.len() == tags.len(),
    ensures
        ({
            let last = seq![EventData::Accumulated(tags)];
            let rest = if s.store is Some {
                outcomes(answers, tags, tags.len() as int)
            } else {
                seq![]
            };
            let acts = if s.store is Some {
                all_writes(answers, tags, tags.len() as int)
            } else {
                seq![]
            };
            let end = crate::cycle::run(s, last + rest);
            &&& end.phase == Phase::Done
            &&& end.ids == s.ids
            &&& crate::cycle::answered(s, last + rest) == seq![Action::Accumulate] + acts
        }),
{
    let last = seq![EventData::Accumulated(tags)];
    let mid = crate::cycle::run(s, last);
    assert(last.drop_last() =~= seq![]);
    assert(crate::cycle::run(s, last.drop_last()) == s);
    assert(mid == s.after(EventData::Accumulated(tags)));
    assert(crate::cycle::answered(s, last.drop_last()) =~= seq![]);
    assert(crate::cycle::answered(s, last) =~= seq![Action::Accumulate]);
    let n = tags.len() as int;
    if s.store is Some {
        let rest = outcomes(answers, tags, n);
        lemma_runs_join(s, last, rest);
        if n > 0 {
            lemma_accumulated_in_turn(mid, answers, n);
        } else {
            assert(rest =~= seq![]);
            assert(crate::cycle::answered(mid, rest) =~= seq![]);
        }
    } else {
        assert(last + Seq::<EventData>::empty() =~= last);
        assert(seq![Action::Accumulate] + Seq::<Action>::empty() =~= seq![Action::Accumulate]);
    }
}

/// The whole course of a slot, with any number of decodes, periods and
/// accumulated decodes, and whichever rows could be written: every decode is
/// stored in turn; every period too if that is being captured, and
/// accumulation gets their ids in order; every accumulated decode is stored,
/// and linked to exactly those of its periods that have a row. Without a
/// store nothing is written. Then the slot is done.
pub proof fn lemma_course_of_a_slot(
    store: Option<bool>,
    saves: Seq<Option<i64>>,
    periods: Seq<Option<i64>>,
    answers: Seq<Option<i64>>,
    tags: Seq<Seq<i64>>,
)
    requires
        saves.len() <= usize::MAX,
        periods.len() <= usize::MAX,
        answers.len() == tags.len() <= usize::MAX,
        forall|k: int| 0 <= k < tags.len() ==> (#[trigger] tags[k]).len() <= usize::MAX,
    ensures
        ({
            let new = CycleState { store, ids: seq![], tags: seq![], phase: Phase::Decoding };
            let events = slot_events(store, saves, periods, answers, tags);
            let end = crate::cycle::run(new, events);
            &&& end.action() == Action::Finish
            &&& crate::cycle::answered(new, events) == slot_actions(
                store,
                saves,
                periods,
                answers,
                tags,
            )
            &&& store == Some(true) ==> {
                &&& end.ids.len() == periods.len()
                &&& forall|k: int|
                    0 <= k < periods.len() ==> #[trigger] end.ids[k] == match periods[k] {
                        Some(row) => row as int,
                        None => -1,
                    }
            }
            &&& store != Some(true) ==> end.ids.len() == 0
        }),
{
    let new = CycleState { store, ids: seq![], tags: seq![], phase: Phase::Decoding };
    let saved = |id: Option<i64>| EventData::Saved(id);
    let first = seq![EventData::Decoded(saves.len() as usize)];
    let last = seq![EventData::Accumulated(tags)];
    let rest = outcomes(answers, tags, tags.len() as int);
    let decodes = Seq::new(saves.len(), |k: int| Action::SaveDecode(k as usize));
    assert(crate::cycle::sized(tags));
    match store {
        None => {
            let mid = crate::cycle::run(new, first);
            assert(first.drop_last() =~= seq![]);
            assert(crate::cycle::run(new, first.drop_last()) == new);
            assert(crate::cycle::answered(new, first.drop_last()) =~= seq![]);
            assert(crate::cycle::answered(new, first) =~= seq![Action::Decode]);
            lemma_accumulation(mid, answers, tags);
            lemma_runs_join(new, first, last + Seq::<EventData>::empty());
            assert(last + Seq::<EventData>::empty() =~= last);
            assert(seq![Action::Accumulate] + Seq::<Action>::empty() =~= seq![Action::Accumulate]);
        },
        Some(capture) => {
            let a = first + saves.map_values(saved);
            crate::cycle::lemma_saves_every_decode(new, saves);
            let mid = crate::cycle::run(new, a);
            if capture {
                let b = seq![EventData::Soft(periods.len() as usize)] + periods.map_values(saved);
                let soft = seq![Action::TakeSoft] + Seq::new(
                    periods.len(),
                    |k: int| Action::SavePeriod(k as usize),
                );
                crate::cycle::lemma_one_id_per_period(mid, periods);
                let then = crate::cycle::run(mid, b);
                lemma_store_stays(mid, b);
                lemma_accumulation(then, answers, tags);
                lemma_runs_join(new, a, b);
                lemma_runs_join(new, a + b, last + rest);
                assert(a + b + (last + rest) =~= slot_events(store, saves, periods, answers, tags));
                assert(slot_actions(store, saves, periods, answers, tags) =~= (seq![
                    Action::Decode,
                ] + decodes) + soft + (seq![Action::Accumulate] + all_writes(
                    answers,
                    tags,
                    tags.len() as int,
                )));
            } else {
                lemma_accumulation(mid, answers, tags);
                lemma_runs_join(new, a, last + rest);
                assert(a + (last + rest) =~= slot_events(store, saves, periods, answers, tags));
                assert(slot_actions(store, saves, periods, answers, tags) =~= (seq![
                    Action::Decode,
                ] + decodes) + (seq![Action::Accumulate] + all_writes(
                    answers,
                    tags,
                    tags.len() as int,
                )));
            }
        },
    }
}

proof fn lemma_store_stays(s: CycleState, events: Seq<EventData>)
    ensures
        crate::cycle::run(s, events).store == s.store,
    decreases events.len(),
{
    if events.len() > 0 {
        lemma_store_stays(s, events.drop_last());
    }
}

/// An event that does not answer what was asked for changes nothing.
pub proof fn lemma_other_events_change_nothing(s: CycleState, event: EventData)
    requires
        match s.action() {
            Action::Decode => !(event is Decoded),
            Action::TakeSoft => !(event is Soft),
            Action::Accumulate => !(event is Accumulated),
            Action::Link(_, _) => !(event is Linked),
            Action::Finish => true,
            _ => !(event is Saved),
        },
    ensures
        s.after(event) == s,
{
}

/// A stored vector: four bytes for each of 174 words, the least significant
/// first, and noughts where the vector is shorter.
pub proof fn lemma_stored_bytes(words: Seq<u32>, k: int)
    requires
        0 <= k < 174,
    ensures
        ({
            let b = crate::store::blob_of(words);
            let w: int = if k < words.len() {
                words[k] as int
            } else {
                0
            };
            &&& b.len() == 4 * 174
            &&& b[4 * k] + 0x100 * b[4 * k + 1] + 0x1_0000 * b[4 * k + 2] + 0x100_0000 * b[4 * k
                + 3] == w
        }),
{
    let b = crate::store::blob_of(words);
    let w = crate::store::word_at(words, k);
    assert((4 * k) / 4 == k && (4 * k) % 4 == 0);
    assert((4 * k + 1) / 4 == k && (4 * k + 1) % 4 == 1);
    assert((4 * k + 2) / 4 == k && (4 * k + 2) % 4 == 2);
    assert((4 * k + 3) / 4 == k && (4 * k + 3) % 4 == 3);
    assert(b[4 * k] == crate::store::le_byte(w, 0));
    assert(b[4 * k + 1] == crate::store::le_byte(w, 1));
    assert(b[4 * k + 2] == crate::store::le_byte(w, 2));
    assert(b[4 * k + 3] == crate::store::le_byte(w, 3));
}

/// Reading a stored vector gives the word that its four bytes make, the least
/// significant first, for each of the 174.
pub proof fn lemma_stored_words(blob: Seq<u8>, k: int)
    requires
        blob.len() == 696,
        0 <= k < 174,
    ensures
        crate::store::words_in(blob).len() == 174,
        crate::store::words_in(blob)[k] == blob[4 * k] + 0x100 * blob[4 * k + 1] + 0x1_0000
            * blob[4 * k + 2] + 0x100_0000 * blob[4 * k + 3],
{
    let part = blob.subrange(4 * k, 4 * k + 4);
    assert(part[0] == blob[4 * k] && part[1] == blob[4 * k + 1] && part[2] == blob[4 * k + 2]
        && part[3] == blob[4 * k + 3]);
}

/// The words of a vector are its values' bit patterns, in order, no more than
/// 174 of them.
pub proof fn lemma_words_are_the_values<X, B: Fn(X) -> u32>(
    llr: Seq<X>,
    bits: B,
    words: Seq<u32>,
    k: int,
)
    requires
        crate::store::words_of(llr, bits, words),
        0 <= k < llr.len(),
        k < 174,
    ensures
        k < words.len() <= 174,
        call_ensures(bits, (llr[k],), words[k]),
{
}

/// How a decode was obtained is stored by name, with the number of periods
/// where there is one.
pub proof fn lemma_source_is_stored(n: u32)
    ensures
        crate::store::source_columns(DecodeSource::SingleShot) == (
            seq!['s', 'i', 'n', 'g', 'l', 'e'],
            None::<i64>,
        ),
        crate::store::source_columns(DecodeSource::Accumulated(n)) == (
            seq!['a', 'c', 'c', 'u', 'm'],
            Some(n as i64),
        ),
        crate::store::source_columns(DecodeSource::Both(n)) == (
            seq!['b', 'o', 't', 'h'],
            Some(n as i64),
        ),
{
    reveal_strlit("single");
    reveal_strlit("accum");
    reveal_strlit("both");
    assert("single"@ =~= seq!['s', 'i', 'n', 'g', 'l', 'e']);
    assert("accum"@ =~= seq!['a', 'c', 'c', 'u', 'm']);
    assert("both"@ =~= seq!['b', 'o', 't', 'h']);
}

/// A flag is corrected exactly if it is not 1 for a period that decodes, or 0
/// for one that does not; and then to that.
pub proof fn lemma_wrong_flags_are_corrected(prev: i64, decoded: bool)
    ensures
        crate::backfill::correction(prev, decoded) == if decoded && prev != 1 {
            Some(1i64)
        } else if !decoded && prev != 0 {
            Some(0i64)
        } else {
            None
        },
        crate::backfill::flag_of(decoded) == 1 <==> decoded,
{
}

} // verus!
