//! What happens to a slot once it has been framed.
//!
//! A slot is decoded single-shot; the decodes are stored, and the soft
//! evidence of its periods too if that is being captured; accumulation runs
//! with the row ids of those periods; what it recovers is stored and linked
//! to the periods behind it; and the stations heard are reported.
//!
//! [`SlotCycle`] decides what comes next. The caller does it (it owns the
//! decoder and the database) and says what came of it.

use vstd::prelude::*;
use crate::decoder::{Decode, DecodeSource};
use crate::pskreporter::{parse_spot, Reporter, Spot};
use crate::time::UtcTime;

verus! {

/// Row id that stands for a period whose row could not be written.
pub const NO_ROW: i64 = -1;

/// What the caller is to do next.
#[derive(Clone, Copy, Debug, PartialEq, Eq, Structural)]
pub enum Action {
    /// Decode the slot single-shot. Answered by [`Event::Decoded`].
    Decode,
    /// Store the single-shot decode with this index. Answered by
    /// [`Event::Saved`].
    SaveDecode(usize),
    /// Take the soft evidence from the decoder. Answered by
    /// [`Event::Soft`].
    TakeSoft,
    /// Store the period with this index. Answered by [`Event::Saved`].
    SavePeriod(usize),
    /// Run accumulation with the period ids. Answered by
    /// [`Event::Accumulated`].
    Accumulate,
    /// Store the accumulated decode with this index. Answered by
    /// [`Event::Saved`].
    SaveAccumulated(usize),
    /// Link a decode row to a period row. Answered by [`Event::Linked`].
    Link(i64, i64),
    /// Report the stations heard and pass the decodes on; the slot is done.
    Finish,
}

/// What came of an action.
pub enum Event {
    /// The slot was decoded, with this many decodes.
    Decoded(usize),
    /// The decoder handed over this many periods.
    Soft(usize),
    /// A row was written, with this id, or could not be.
    Saved(Option<i64>),
    /// Accumulation recovered decodes with these contributing periods.
    Accumulated(Vec<Vec<i64>>),
    /// A link was written.
    Linked,
}

/// How far a slot has come.
#[derive(Clone, Copy, Debug, PartialEq, Eq, Structural)]
pub enum Phase {
    Decoding,
    SavingDecode { next: usize, count: usize },
    TakingSoft,
    SavingPeriod { count: usize },
    Accumulating,
    SavingAccumulated { next: usize },
    Linking { decode: usize, row: i64, tag: usize },
    Done,
}

/// Where one slot stands.
pub struct SlotCycle {
    /// `None` without a store, else whether it captures soft evidence.
    store: Option<bool>,
    /// Row ids of the periods stored so far.
    ids: Vec<i64>,
    /// Contributing periods of each accumulated decode.
    tags: Vec<Vec<i64>>,
    phase: Phase,
}

/// What came of an action, with its lists as sequences.
pub enum EventData {
    Decoded(usize),
    Soft(usize),
    Saved(Option<i64>),
    Accumulated(Seq<Seq<i64>>),
    Linked,
}

impl View for Event {
    type V = EventData;

    open spec fn view(&self) -> EventData {
        match self {
            Event::Decoded(n) => EventData::Decoded(*n),
            Event::Soft(n) => EventData::Soft(*n),
            Event::Saved(id) => EventData::Saved(*id),
            Event::Accumulated(tags) => EventData::Accumulated(
                tags@.map_values(|t: Vec<i64>| t@),
            ),
            Event::Linked => EventData::Linked,
        }
    }
}

/// What a [`SlotCycle`] holds.
#[verifier::ext_equal]
pub struct CycleState {
    pub store: Option<bool>,
    pub ids: Seq<i64>,
    pub tags: Seq<Seq<i64>>,
    pub phase: Phase,
}

/// First index from `from` on of a tag that names a row, or the length.
pub open spec fn next_row(tags: Seq<i64>, from: int) -> int
    decreases tags.len() - from,
{
    if from >= tags.len() {
        tags.len() as int
    } else if tags[from] >= 0 {
        from
    } else {
        next_row(tags, from + 1)
    }
}

impl CycleState {
    /// Indices lie within the lists they point into, and only tags that name
    /// a row are linked.
    pub open spec fn ok(self) -> bool {
        match self.phase {
            Phase::SavingDecode { next, count } => next < count && self.store is Some,
            Phase::TakingSoft => self.store == Some(true),
            Phase::SavingPeriod { count } => self.ids.len() < count && self.store == Some(true),
            Phase::SavingAccumulated { next } => next < self.tags.len() && self.store is Some,
            Phase::Linking { decode, row, tag } => {
                &&& self.store is Some
                &&& decode < self.tags.len()
                &&& tag < self.tags[decode as int].len()
                &&& self.tags[decode as int][tag as int] >= 0
            },
            _ => true,
        }
    }

    /// What the caller is to do in this state.
    pub open spec fn action(self) -> Action {
        match self.phase {
            Phase::Decoding => Action::Decode,
            Phase::SavingDecode { next, count } => Action::SaveDecode(next),
            Phase::TakingSoft => Action::TakeSoft,
            Phase::SavingPeriod { count } => Action::SavePeriod(self.ids.len() as usize),
            Phase::Accumulating => Action::Accumulate,
            Phase::SavingAccumulated { next } => Action::SaveAccumulated(next),
            Phase::Linking { decode, row, tag } => Action::Link(
                row,
                self.tags[decode as int][tag as int],
            ),
            Phase::Done => Action::Finish,
        }
    }

    /// The state in another phase.
    pub open spec fn at(self, phase: Phase) -> Self {
        CycleState { phase, ..self }
    }

    /// Once all single-shot decodes are dealt with: take the soft evidence if
    /// it is captured, else accumulate.
    pub open spec fn after_decodes(self) -> Self {
        if self.store == Some(true) {
            self.at(Phase::TakingSoft)
        } else {
            self.at(Phase::Accumulating)
        }
    }

    /// On to the accumulated decode with index `next`, if there is one and a
    /// store to put it in.
    pub open spec fn on_to(self, next: int) -> Self {
        if next < self.tags.len() && self.store is Some {
            self.at(Phase::SavingAccumulated { next: next as usize })
        } else {
            self.at(Phase::Done)
        }
    }

    /// On to the first link from index `from` on, or to the next decode.
    pub open spec fn on_to_link(self, decode: usize, row: i64, from: int) -> Self {
        let tag = next_row(self.tags[decode as int], from);
        if tag < self.tags[decode as int].len() {
            self.at(Phase::Linking { decode, row, tag: tag as usize })
        } else {
            self.on_to(decode + 1)
        }
    }

    /// The state after `event`. An event that answers nothing leaves it as it
    /// was.
    pub open spec fn after(self, event: EventData) -> Self {
        match (self.phase, event) {
            (Phase::Decoding, EventData::Decoded(n)) => if self.store is Some && n > 0 {
                self.at(Phase::SavingDecode { next: 0, count: n })
            } else {
                self.after_decodes()
            },
            (Phase::SavingDecode { next, count }, EventData::Saved(_)) => if next + 1 < count {
                self.at(Phase::SavingDecode { next: (next + 1) as usize, count })
            } else {
                self.after_decodes()
            },
            (Phase::TakingSoft, EventData::Soft(n)) => if n > self.ids.len() {
                self.at(Phase::SavingPeriod { count: n })
            } else {
                self.at(Phase::Accumulating)
            },
            (Phase::SavingPeriod { count }, EventData::Saved(id)) => {
                let ids = self.ids.push(
                    match id {
                        Some(row) => row,
                        None => NO_ROW,
                    },
                );
                CycleState {
                    ids,
                    phase: if ids.len() < count {
                        Phase::SavingPeriod { count }
                    } else {
                        Phase::Accumulating
                    },
                    ..self
                }
            },
            (Phase::Accumulating, EventData::Accumulated(tags)) => (CycleState {
                tags,
                ..self
            }).on_to(0),
            (Phase::SavingAccumulated { next }, EventData::Saved(id)) => match id {
                Some(row) => self.on_to_link(next, row, 0),
                None => self.on_to(next + 1),
            },
            (Phase::Linking { decode, row, tag }, EventData::Linked) => self.on_to_link(
                decode,
                row,
                tag + 1,
            ),
            _ => self,
        }
    }
}

impl View for SlotCycle {
    type V = CycleState;

    closed spec fn view(&self) -> CycleState {
        CycleState {
            store: self.store,
            ids: self.ids@,
            tags: self.tags@.map_values(|t: Vec<i64>| t@),
            phase: self.phase,
        }
    }
}

/// First index from `from` on of a tag that names a row, or the length.
fn find_row(tags: &Vec<i64>, from: usize) -> (k: usize)
    requires
        from <= tags@.len(),
    ensures
        k == next_row(tags@, from as int),
        from <= k <= tags@.len(),
        k < tags@.len() ==> tags@[k as int] >= 0,
{
    let mut k: usize = from;
    while k < tags.len() && tags[k] < 0
        invariant
            from <= k <= tags@.len(),
            next_row(tags@, from as int) == next_row(tags@, k as int),
        decreases tags@.len() - k,
    {
        k += 1;
    }
    k
}

impl SlotCycle {
    #[verifier::type_invariant]
    spec fn inv(self) -> bool {
        self@.ok()
    }

    /// A slot that is yet to be decoded. `store` says whether there is a
    /// store, and whether it captures soft evidence.
    pub fn new(store: Option<bool>) -> (c: Self)
        ensures
            c@ == (CycleState { store, ids: seq![], tags: seq![], phase: Phase::Decoding }),
    {
        SlotCycle { store, ids: Vec::new(), tags: Vec::new(), phase: Phase::Decoding }
    }

    /// What to do next.
    pub fn action(&self) -> (a: Action)
        ensures
            a == self@.action(),
    {
        proof {
            use_type_invariant(self);
        }
        match self.phase {
            Phase::Decoding => Action::Decode,
            Phase::SavingDecode { next, count } => Action::SaveDecode(next),
            Phase::TakingSoft => Action::TakeSoft,
            Phase::SavingPeriod { count } => Action::SavePeriod(self.ids.len()),
            Phase::Accumulating => Action::Accumulate,
            Phase::SavingAccumulated { next } => Action::SaveAccumulated(next),
            Phase::Linking { decode, row, tag } => {
                assert(self@.tags[decode as int] == self.tags@[decode as int]@);
                Action::Link(row, self.tags[decode][tag])
            },
            Phase::Done => Action::Finish,
        }
    }

    /// Row ids of the periods stored, in order; a period whose row could not
    /// be written has [`NO_ROW`].
    pub fn period_ids(&self) -> (ids: &[i64])
        ensures
            ids@ == self@.ids,
    {
        self.ids.as_slice()
    }

    fn phase_after_decodes(&self) -> (p: Phase)
        ensures
            self@.at(p) == self@.after_decodes(),
    {
        match self.store {
            Some(true) => Phase::TakingSoft,
            _ => Phase::Accumulating,
        }
    }

    fn phase_on_to(&self, next: usize) -> (p: Phase)
        ensures
            self@.at(p) == self@.on_to(next as int),
    {
        if next < self.tags.len() && self.store.is_some() {
            Phase::SavingAccumulated { next }
        } else {
            Phase::Done
        }
    }

    fn phase_on_to_link(&self, decode: usize, row: i64, from: usize) -> (p: Phase)
        requires
            decode < self@.tags.len(),
            from <= self@.tags[decode as int].len(),
        ensures
            self@.at(p) == self@.on_to_link(decode, row, from as int),
            p matches Phase::Linking { decode: d, row: _, tag } ==> {
                &&& d == decode
                &&& tag < self@.tags[decode as int].len()
                &&& self@.tags[decode as int][tag as int] >= 0
            },
    {
        proof {
            assert(self@.tags[decode as int] == self.tags@[decode as int]@);
        }
        let decodes: usize = self.tags.len();
        assert(decode < decodes);
        let tag: usize = find_row(&self.tags[decode], from);
        if tag < self.tags[decode].len() {
            Phase::Linking { decode, row, tag }
        } else {
            self.phase_on_to(decode + 1)
        }
    }

    /// Takes in what came of the last action.
    pub fn step(&mut self, event: Event)
        ensures
            final(self)@ == old(self)@.after(event@),
    {
        proof {
            use_type_invariant(&*self);
        }
        let ghost before = self@;
        match (self.phase, event) {
            (Phase::Decoding, Event::Decoded(n)) => {
                if self.store.is_some() && n > 0 {
                    self.phase = Phase::SavingDecode { next: 0, count: n };
                } else {
                    self.phase = self.phase_after_decodes();
                }
            },
            (Phase::SavingDecode { next, count }, Event::Saved(_)) => {
                if next + 1 < count {
                    self.phase = Phase::SavingDecode { next: next + 1, count };
                } else {
                    self.phase = self.phase_after_decodes();
                }
            },
            (Phase::TakingSoft, Event::Soft(n)) => {
                if n > self.ids.len() {
                    self.phase = Phase::SavingPeriod { count: n };
                } else {
                    self.phase = Phase::Accumulating;
                }
            },
            (Phase::SavingPeriod { count }, Event::Saved(id)) => {
                let row: i64 = match id {
                    Some(row) => row,
                    None => NO_ROW,
                };
                let mut ids: Vec<i64> = Vec::new();
                self.phase = Phase::Accumulating;
                std::mem::swap(&mut ids, &mut self.ids);
                ids.push(row);
                let more: bool = ids.len() < count;
                self.ids = ids;
                if more {
                    self.phase = Phase::SavingPeriod { count };
                }
                assert(self@ == before.after(EventData::Saved(id)));
            },
            (Phase::Accumulating, Event::Accumulated(tags)) => {
                self.tags = tags;
                self.phase = self.phase_on_to(0);
            },
            (Phase::SavingAccumulated { next }, Event::Saved(id)) => {
                match id {
                    Some(row) => {
                        self.phase = self.phase_on_to_link(next, row, 0);
                    },
                    None => {
                        let decodes: usize = self.tags.len();
                        assert(next < decodes);
                        self.phase = self.phase_on_to(next + 1);
                    },
                }
            },
            (Phase::Linking { decode, row, tag }, Event::Linked) => {
                assert(before.tags[decode as int] == self.tags@[decode as int]@);
                let tags: usize = self.tags[decode].len();
                assert(tag < tags);
                self.phase = self.phase_on_to_link(decode, row, tag + 1);
            },
            _ => {},
        }
    }
}

/// The state after `events`, in order.
pub open spec fn run(s: CycleState, events: Seq<EventData>) -> CycleState
    decreases events.len(),
{
    if events.len() == 0 {
        s
    } else {
        run(s, events.drop_last()).after(events.last())
    }
}

/// The actions that `events` answered.
pub open spec fn answered(s: CycleState, events: Seq<EventData>) -> Seq<Action>
    decreases events.len(),
{
    if events.len() == 0 {
        seq![]
    } else {
        answered(s, events.drop_last()).push(run(s, events.drop_last()).action())
    }
}

/// The row id that goes with a period once its row was written or not.
pub open spec fn row_or_none(id: Option<i64>) -> i64 {
    match id {
        Some(row) => row,
        None => NO_ROW,
    }
}

/// The tags that name a row.
pub open spec fn rows(tags: Seq<i64>) -> Seq<i64> {
    tags.filter(|t: i64| t >= 0)
}

proof fn lemma_next_row(tags: Seq<i64>, from: int)
    requires
        0 <= from <= tags.len(),
    ensures
        from <= next_row(tags, from) <= tags.len(),
        next_row(tags, from) < tags.len() ==> tags[next_row(tags, from)] >= 0,
        rows(tags.take(next_row(tags, from))) == rows(tags.take(from)),
    decreases tags.len() - from,
{
    if from < tags.len() && tags[from] < 0 {
        lemma_next_row(tags, from + 1);
        reveal(Seq::filter);
        assert(tags.take(from + 1).drop_last() == tags.take(from));
    }
}

/// Lists that fit in memory.
pub open spec fn sized(tags: Seq<Seq<i64>>) -> bool {
    &&& tags.len() <= usize::MAX
    &&& forall|k: int| 0 <= k < tags.len() ==> (#[trigger] tags[k]).len() <= usize::MAX
}

/// Whatever comes of an action, the state stays sound and the store is the
/// one that the slot began with.
pub proof fn lemma_step_keeps_ok(s: CycleState, event: EventData)
    requires
        s.ok(),
        sized(s.tags),
        event matches EventData::Accumulated(tags) ==> sized(tags),
    ensures
        sized(s.after(event).tags),
        s.after(event).ok(),
        s.after(event).store == s.store,
{
    match (s.phase, event) {
        (Phase::SavingAccumulated { next }, EventData::Saved(Some(row))) => {
            lemma_next_row(s.tags[next as int], 0);
        },
        (Phase::Linking { decode, row, tag }, EventData::Linked) => {
            lemma_next_row(s.tags[decode as int], tag + 1);
        },
        _ => {},
    }
}

/// Nothing is written without a store, no soft evidence is taken or written
/// unless it is being captured, and a decode is linked only to rows that
/// exist.
pub proof fn lemma_writes_what_is_asked(s: CycleState)
    requires
        s.ok(),
    ensures
        s.action() matches Action::SaveDecode(_) ==> s.store is Some,
        s.action() matches Action::SaveAccumulated(_) ==> s.store is Some,
        s.action() matches Action::Link(_, _) ==> s.store is Some,
        s.action() is TakeSoft ==> s.store == Some(true),
        s.action() matches Action::SavePeriod(_) ==> s.store == Some(true),
        s.action() matches Action::Link(_, period) ==> period >= 0,
{
}

/// Where there is a store, every single-shot decode is stored in turn.
pub proof fn lemma_saves_every_decode(s: CycleState, answers: Seq<Option<i64>>)
    requires
        s.phase == Phase::Decoding,
        s.store is Some,
        answers.len() <= usize::MAX,
    ensures
        ({
            let events = seq![EventData::Decoded(answers.len() as usize)] + answers.map_values(
                |id: Option<i64>| EventData::Saved(id),
            );
            &&& run(s, events) == s.after_decodes()
            &&& answered(s, events) == seq![Action::Decode] + Seq::new(
                answers.len(),
                |k: int| Action::SaveDecode(k as usize),
            )
        }),
{
    let n = answers.len();
    let events = seq![EventData::Decoded(n as usize)] + answers.map_values(
        |id: Option<i64>| EventData::Saved(id),
    );
    lemma_saving_decodes(s, answers, n as int);
    assert(events.take(n + 1int) == events);
}

proof fn lemma_saving_decodes(s: CycleState, answers: Seq<Option<i64>>, m: int)
    requires
        s.phase == Phase::Decoding,
        s.store is Some,
        answers.len() <= usize::MAX,
        0 <= m <= answers.len(),
    ensures
        ({
            let events = (seq![EventData::Decoded(answers.len() as usize)] + answers.map_values(
                |id: Option<i64>| EventData::Saved(id),
            )).take(m + 1);
            &&& run(s, events) == if m < answers.len() {
                s.at(Phase::SavingDecode { next: m as usize, count: answers.len() as usize })
            } else {
                s.after_decodes()
            }
            &&& answered(s, events) == seq![Action::Decode] + Seq::new(
                m as nat,
                |k: int| Action::SaveDecode(k as usize),
            )
        }),
    decreases m,
{
    let n = answers.len();
    let first = EventData::Decoded(n as usize);
    let all = seq![first] + answers.map_values(|id: Option<i64>| EventData::Saved(id));
    let events = all.take(m + 1);
    if m == 0 {
        assert(events.drop_last() == Seq::<EventData>::empty());
        assert(events.last() == first);
        assert(run(s, events.drop_last()) == s);
        assert(run(s, events) == s.after(first));
        assert(answered(s, events.drop_last()) == Seq::<Action>::empty());
        assert(answered(s, events) == seq![Action::Decode] + Seq::new(
            0,
            |k: int| Action::SaveDecode(k as usize),
        ));
    } else {
        lemma_saving_decodes(s, answers, m - 1);
        assert(events.drop_last() == all.take(m));
        assert(events.last() == EventData::Saved(answers[m - 1]));
        let before = run(s, all.take(m));
        assert(run(s, events) == before.after(EventData::Saved(answers[m - 1])));
        assert(answered(s, events) == seq![Action::Decode] + Seq::new(
            m as nat,
            |k: int| Action::SaveDecode(k as usize),
        ));
    }
}

/// Every period handed over is stored in turn, and accumulation is given one
/// id per period, in the same order.
pub proof fn lemma_one_id_per_period(s: CycleState, answers: Seq<Option<i64>>)
    requires
        s.phase == Phase::TakingSoft,
        s.ids.len() == 0,
        answers.len() <= usize::MAX,
    ensures
        ({
            let events = seq![EventData::Soft(answers.len() as usize)] + answers.map_values(
                |id: Option<i64>| EventData::Saved(id),
            );
            let end = run(s, events);
            &&& end.phase == Phase::Accumulating
            &&& end.ids == answers.map_values(|id: Option<i64>| row_or_none(id))
            &&& end.tags == s.tags
            &&& answered(s, events) == seq![Action::TakeSoft] + Seq::new(
                answers.len(),
                |k: int| Action::SavePeriod(k as usize),
            )
        }),
{
    let n = answers.len();
    let first = EventData::Soft(n as usize);
    let saved = |id: Option<i64>| EventData::Saved(id);
    let row = |id: Option<i64>| row_or_none(id);
    let events = seq![first] + answers.map_values(saved);
    lemma_saving_periods(s, answers, n as int);
    assert(events.take(n + 1int) == events);
    assert(answers.take(n as int) == answers);
}

proof fn lemma_saving_periods(s: CycleState, answers: Seq<Option<i64>>, m: int)
    requires
        s.phase == Phase::TakingSoft,
        s.ids.len() == 0,
        answers.len() <= usize::MAX,
        0 <= m <= answers.len(),
    ensures
        ({
            let events = (seq![EventData::Soft(answers.len() as usize)] + answers.map_values(
                |id: Option<i64>| EventData::Saved(id),
            )).take(m + 1);
            let end = run(s, events);
            &&& end.phase == if m < answers.len() {
                Phase::SavingPeriod { count: answers.len() as usize }
            } else {
                Phase::Accumulating
            }
            &&& end.ids == answers.take(m).map_values(|id: Option<i64>| row_or_none(id))
            &&& end.tags == s.tags
            &&& end.store == s.store
            &&& answered(s, events) == seq![Action::TakeSoft] + Seq::new(
                m as nat,
                |k: int| Action::SavePeriod(k as usize),
            )
        }),
    decreases m,
{
    let n = answers.len();
    let first = EventData::Soft(n as usize);
    let all = seq![first] + answers.map_values(|id: Option<i64>| EventData::Saved(id));
    let events = all.take(m + 1);
    if m == 0 {
        assert(events.drop_last() == Seq::<EventData>::empty());
        assert(events.last() == first);
        assert(run(s, events.drop_last()) == s);
        assert(run(s, events) == s.after(first));
        assert(answers.take(0).map_values(|id: Option<i64>| row_or_none(id)) == s.ids);
        assert(answered(s, events.drop_last()) == Seq::<Action>::empty());
        assert(answered(s, events) == seq![Action::TakeSoft] + Seq::new(
            0,
            |k: int| Action::SavePeriod(k as usize),
        ));
    } else {
        lemma_saving_periods(s, answers, m - 1);
        assert(events.drop_last() == all.take(m));
        assert(events.last() == EventData::Saved(answers[m - 1]));
        let before = run(s, all.take(m));
        assert(run(s, events) == before.after(EventData::Saved(answers[m - 1])));
        assert(run(s, events).ids == answers.take(m).map_values(
            |id: Option<i64>| row_or_none(id),
        ));
        assert(answered(s, events) == seq![Action::TakeSoft] + Seq::new(
            m as nat,
            |k: int| Action::SavePeriod(k as usize),
        ));
    }
}

/// An accumulated decode whose row was written is linked to exactly those of
/// its contributing periods that have a row, in order; then comes the next
/// decode.
pub proof fn lemma_links_every_row(s: CycleState, next: usize, row: i64)
    requires
        s.ok(),
        s.phase == (Phase::SavingAccumulated { next }),
        s.tags[next as int].len() <= usize::MAX,
    ensures
        ({
            let linked = rows(s.tags[next as int]);
            let events = seq![EventData::Saved(Some(row))] + Seq::new(
                linked.len(),
                |k: int| EventData::Linked,
            );
            &&& run(s, events) == s.on_to(next + 1)
            &&& answered(s, events) == seq![Action::SaveAccumulated(next)] + linked.map_values(
                |t: i64| Action::Link(row, t),
            )
        }),
{
    let linked = rows(s.tags[next as int]);
    let events = seq![EventData::Saved(Some(row))] + Seq::new(
        linked.len(),
        |k: int| EventData::Linked,
    );
    lemma_linking(s, next, row, linked.len() as int);
    assert(events.take(linked.len() + 1int) == events);
    assert(linked.take(linked.len() as int) == linked);
}

proof fn lemma_linking(s: CycleState, next: usize, row: i64, m: int)
    requires
        s.ok(),
        s.phase == (Phase::SavingAccumulated { next }),
        s.tags[next as int].len() <= usize::MAX,
        0 <= m <= rows(s.tags[next as int]).len(),
    ensures
        ({
            let tags = s.tags[next as int];
            let linked = rows(tags);
            let events = (seq![EventData::Saved(Some(row))] + Seq::new(
                linked.len(),
                |k: int| EventData::Linked,
            )).take(m + 1);
            let end = run(s, events);
            &&& if m < linked.len() {
                &&& end.phase matches Phase::Linking { decode, row: r, tag }
                &&& decode == next
                &&& r == row
                &&& tag < tags.len()
                &&& tags[tag as int] >= 0
                &&& rows(tags.take(tag as int)) == linked.take(m)
                &&& end == s.at(end.phase)
            } else {
                end == s.on_to(next + 1)
            }
            &&& answered(s, events) == seq![Action::SaveAccumulated(next)] + linked.take(
                m,
            ).map_values(|t: i64| Action::Link(row, t))
        }),
    decreases m,
{
    let tags = s.tags[next as int];
    let linked = rows(tags);
    let all = seq![EventData::Saved(Some(row))] + Seq::new(
        linked.len(),
        |k: int| EventData::Linked,
    );
    let events = all.take(m + 1);
    reveal(Seq::filter);
    if m == 0 {
        assert(events.drop_last() == Seq::<EventData>::empty());
        assert(events.last() == EventData::Saved(Some(row)));
        assert(run(s, events.drop_last()) == s);
        assert(run(s, events) == s.on_to_link(next, row, 0));
        lemma_next_row(tags, 0);
        assert(tags.take(0) == Seq::<i64>::empty());
        assert(rows(tags.take(0)) == linked.take(0));
        assert(answered(s, events.drop_last()) == Seq::<Action>::empty());
        assert(answered(s, events) == seq![Action::SaveAccumulated(next)] + linked.take(
            0,
        ).map_values(|t: i64| Action::Link(row, t)));
        lemma_rows_done(tags, next_row(tags, 0), 0);
    } else {
        lemma_linking(s, next, row, m - 1);
        assert(events.drop_last() == all.take(m));
        assert(events.last() == EventData::Linked);
        let before = run(s, all.take(m));
        match before.phase {
            Phase::Linking { decode, row: r, tag } => {
                assert(run(s, events) == before.on_to_link(next, row, tag + 1));
                lemma_next_row(tags, tag + 1);
                let t2 = next_row(tags, tag + 1);
                assert(tags.take(tag + 1).drop_last() == tags.take(tag as int));
                assert(rows(tags.take(tag + 1)) == linked.take(m - 1).push(tags[tag as int]));
                lemma_rows_done(tags, t2, m);
                lemma_rows_prefix(tags, t2);
                assert(linked.take(m) == linked.take(m - 1).push(tags[tag as int]));
                assert(before.action() == Action::Link(row, tags[tag as int]));
                assert(answered(s, events) == seq![Action::SaveAccumulated(next)] + linked.take(
                    m,
                ).map_values(|t: i64| Action::Link(row, t)));
            },
            _ => {},
        }
    }
}

/// The rows of a prefix come first among the rows of the whole.
proof fn lemma_rows_prefix(tags: Seq<i64>, n: int)
    requires
        0 <= n <= tags.len(),
    ensures
        rows(tags.take(n)).len() <= rows(tags).len(),
        rows(tags.take(n)) == rows(tags).take(rows(tags.take(n)).len() as int),
    decreases tags.len(),
{
    reveal(Seq::filter);
    if n < tags.len() {
        lemma_rows_prefix(tags.drop_last(), n);
        assert(tags.drop_last().take(n) == tags.take(n));
    } else {
        assert(tags.take(n) == tags);
        assert(rows(tags).take(rows(tags).len() as int) == rows(tags));
    }
}

/// With `m` rows before index `at`, a row at `at` means that there are more,
/// and the end means that there are not.
proof fn lemma_rows_done(tags: Seq<i64>, at: int, m: int)
    requires
        0 <= at <= tags.len(),
        rows(tags.take(at)).len() == m,
    ensures
        at < tags.len() && tags[at] >= 0 ==> m < rows(tags).len(),
        at == tags.len() ==> m == rows(tags).len(),
{
    reveal(Seq::filter);
    if at < tags.len() {
        lemma_rows_prefix(tags, at + 1);
        assert(tags.take(at + 1).drop_last() == tags.take(at));
    } else {
        assert(tags.take(at) == tags);
    }
}

/// The contributing periods of each decode.
pub fn contributions<F>(decodes: &[Decode<F>]) -> (tags: Vec<Vec<i64>>)
    ensures
        tags@.map_values(|t: Vec<i64>| t@) == decodes@.map_values(
            |d: Decode<F>| d@.contrib_tags,
        ),
{
    let mut tags: Vec<Vec<i64>> = Vec::new();
    let mut k: usize = 0;
    while k < decodes.len()
        invariant
            k <= decodes@.len(),
            tags@.map_values(|t: Vec<i64>| t@) == decodes@.map_values(
                |d: Decode<F>| d@.contrib_tags,
            ).take(k as int),
        decreases decodes@.len() - k,
    {
        let list = &decodes[k].contrib_tags;
        let ghost before = tags@.map_values(|t: Vec<i64>| t@);
        tags.push(crate::seqs::copy_range(list.as_slice(), 0, list.len()));
        assert(list@.subrange(0, list@.len() as int) == list@);
        assert(tags@.map_values(|t: Vec<i64>| t@) == before.push(list@));
        k += 1;
    }
    tags
}

/// The decodes of a slot as they are shown and reported: those found
/// single-shot, then those that accumulation recovered.
pub fn batch<F>(single: Vec<Decode<F>>, accumulated: Vec<Decode<F>>) -> (out: Vec<Decode<F>>)
    ensures
        out@ == single@ + accumulated@,
        crate::decoder::said(out@) == crate::decoder::said(single@) + crate::decoder::said(
            accumulated@,
        ),
{
    let ghost (a, b) = (single@, accumulated@);
    let mut out = single;
    let mut rest = accumulated;
    out.append(&mut rest);
    assert(crate::decoder::said(a + b) =~= crate::decoder::said(a) + crate::decoder::said(b));
    out
}

/// Unix time of a slot as a spot carries it.
pub open spec fn heard_at(utc: UtcTime) -> u32 {
    let secs: int = if utc.secs < 0 {
        0
    } else {
        utc.secs as int
    };
    (secs % 0x1_0000_0000) as u32
}

/// The spot that decode `d` gives rise to, if it names a station and its
/// locator: heard `offset` Hz above the dial frequency. An accumulation-only
/// decode has no calibrated SNR.
pub open spec fn spot_from<F>(
    d: crate::decoder::DecodeData<F>,
    offset: u64,
    dial: u64,
    utc: UtcTime,
) -> Option<crate::pskreporter::SpotData> {
    match crate::pskreporter::spot_of(d.message) {
        Some((call, grid)) => Some(
            crate::pskreporter::SpotData {
                call,
                grid,
                freq_hz: ((dial + offset) % 0x1_0000_0000) as u32,
                snr: if d.source is Accumulated {
                    None
                } else {
                    Some(d.snr_db)
                },
                mode: "FT8"@,
                time: heard_at(utc),
            },
        ),
        None => None,
    }
}

/// The reporter once every decode has been offered to it, in order.
pub open spec fn offered_all<F>(
    r: crate::pskreporter::ReporterState,
    decodes: Seq<Decode<F>>,
    offsets: Seq<u64>,
    dial: u64,
    utc: UtcTime,
) -> crate::pskreporter::ReporterState
    decreases decodes.len(),
{
    if decodes.len() == 0 {
        r
    } else {
        let n = decodes.len() - 1;
        let before = offered_all(r, decodes.drop_last(), offsets, dial, utc);
        match spot_from(decodes[n]@, offsets[n], dial, utc) {
            Some(spot) => before.offered(spot),
            None => before,
        }
    }
}

/// The spot that a decode gives rise to, if it names a station and its
/// locator.
pub fn spot_for<F>(d: &Decode<F>, offset: u64, dial: u64, utc: UtcTime) -> (res: Option<Spot>)
    requires
        dial + offset <= u64::MAX,
    ensures
        match res {
            Some(spot) => spot_from(d@, offset, dial, utc) == Some(spot@),
            None => spot_from(d@, offset, dial, utc) is None,
        },
{
    match parse_spot(d.message.as_str()) {
        Some((call, grid)) => {
            let snr = match d.source {
                DecodeSource::Accumulated(_) => None,
                _ => Some(d.snr_db),
            };
            let secs: i64 = if utc.secs < 0 {
                0
            } else {
                utc.secs
            };
            Some(
                Spot {
                    call,
                    grid,
                    freq_hz: ((dial + offset) % 0x1_0000_0000) as u32,
                    snr,
                    mode: "FT8".to_owned(),
                    time: (secs % 0x1_0000_0000) as u32,
                },
            )
        },
        None => None,
    }
}

/// Queues a spot for every decode that names a station and its locator, and
/// gives the datagram to send if the reporter's flush window has run out.
///
/// `offsets` holds the decodes' audio frequencies in whole Hz; `now` and
/// `now_secs` are as for [`Reporter::tick`].
pub fn report<F>(
    reporter: &mut Reporter,
    decodes: &[Decode<F>],
    offsets: &[u64],
    dial: u64,
    utc: UtcTime,
    now: u64,
    now_secs: u32,
) -> (datagram: Option<Vec<u8>>)
    requires
        offsets@.len() == decodes@.len(),
        forall|k: int| 0 <= k < offsets@.len() ==> dial + #[trigger] offsets@[k] <= u64::MAX,
    ensures
        ({
            let queued = offered_all(old(reporter)@, decodes@, offsets@, dial, utc);
            &&& final(reporter)@ == queued.ticked(now, now_secs).0
            &&& match datagram {
                Some(d) => queued.ticked(now, now_secs).1 == Some(d@),
                None => queued.ticked(now, now_secs).1 is None,
            }
        }),
{
    let ghost before = reporter@;
    let mut k: usize = 0;
    while k < decodes.len()
        invariant
            k <= decodes@.len(),
            offsets@.len() == decodes@.len(),
            forall|k: int| 0 <= k < offsets@.len() ==> dial + #[trigger] offsets@[k] <= u64::MAX,
            reporter@ == offered_all(before, decodes@.take(k as int), offsets@, dial, utc),
        decreases decodes@.len() - k,
    {
        assert(decodes@.take(k + 1).drop_last() == decodes@.take(k as int));
        if let Some(spot) = spot_for(&decodes[k], offsets[k], dial, utc) {
            reporter.add_spot(spot);
        }
        k += 1;
    }
    assert(decodes@.take(k as int) == decodes@);
    reporter.tick(now, now_secs)
}

} // verus!
