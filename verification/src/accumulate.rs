//! Cross-period soft-LLR accumulation.
//!
//! FT8 stations routinely repeat the same message over several 15 s periods.
//! Every transmission of an identical message produces the identical 174-bit
//! LDPC codeword, so the per-period soft LLR vectors can simply be summed.
//!
//! An undecoded signal offers only two handles for cross-period association:
//! audio frequency and time offset. Each track therefore keeps a sliding
//! window of the last [`WINDOW`] LLR vectors: old vectors age out, and the
//! track centroid eases toward each new sample.
//!
//! Frequencies, offsets and LLRs are carried as values of a caller's type.
//! How far two of them lie apart, and how a centroid eases, the caller says;
//! which track a sample belongs to, what its window holds and when it is
//! dropped is decided here.

use vstd::prelude::*;
use std::collections::VecDeque;

verus! {

/// FT8 LDPC codeword length, bits.
pub const LLR_LEN: usize = 174;

/// Sliding-window depth: how many periods of LLRs are summed at most.
pub const WINDOW: usize = 8;

/// Association tolerance in audio frequency, 4 Hz, as an order key.
///
/// See [`crate::order`]; the keys that stand for no number lie within no
/// tolerance.
pub const FREQ_TOL_KEY: u32 = 0x4080_0000;

/// Association tolerance in time offset, 0.30 s, as an order key.
pub const DT_TOL_KEY: u32 = 0x3E99_999A;

/// Drop a track after this many periods with no update.
pub const MAX_AGE: u64 = 8;

/// One candidate's base (non-AP) LLR vector for a single period.
#[derive(Clone)]
pub struct LlrSample<F, X> {
    pub freq_hz: F,
    pub dt: F,
    pub sync: i32,
    pub llr: [X; LLR_LEN],
    /// Caller-assigned identity for this sample's period, carried through so
    /// that the exact set of periods behind an accumulated decode can be
    /// recovered.
    pub tag: i64,
}

/// A signal followed across periods at roughly constant (freq, dt).
struct Track<F, X> {
    freq_hz: F,
    dt: F,
    /// Windowed LLR vectors paired with their period tags.
    recent: VecDeque<(i64, [X; LLR_LEN])>,
    last_period: u64,
    /// Last message reported for this track.
    last_reported: Option<String>,
    /// Slot-sequence parity this track belongs to.
    parity: u8,
}

/// Tracks signals across periods and accumulates their LLR vectors.
pub struct Accumulator<F, X> {
    tracks: Vec<Track<F, X>>,
    period: u64,
    /// Parity of the slot currently being added.
    cur_parity: u8,
}

/// What one track holds; the window is oldest first.
#[verifier::ext_equal]
pub struct TrackState<F, X> {
    pub freq_hz: F,
    pub dt: F,
    pub window: Seq<(i64, Seq<X>)>,
    pub last_period: int,
    pub last_reported: Option<Seq<char>>,
    pub parity: int,
}

/// What an accumulator holds.
#[verifier::ext_equal]
pub struct AccState<F, X> {
    pub tracks: Seq<TrackState<F, X>>,
    pub period: int,
    pub parity: int,
}

/// Both gaps lie within the association tolerances.
pub open spec fn within(gap: Option<(u32, u32)>) -> bool {
    gap matches Some((df, dd)) && df <= FREQ_TOL_KEY && dd <= DT_TOL_KEY
}

/// How far apart the frequencies lie.
pub open spec fn freq_gap(gap: Option<(u32, u32)>) -> u32 {
    match gap {
        Some((df, _)) => df,
        None => 0,
    }
}

/// Track `r` is the closest in frequency of those within tolerance, the
/// first of them where several are equally close; `None` if there is none.
pub open spec fn is_nearest(gaps: Seq<Option<(u32, u32)>>, r: Option<usize>) -> bool {
    match r {
        Some(i) => {
            &&& i < gaps.len()
            &&& within(gaps[i as int])
            &&& forall|j: int|
                0 <= j < gaps.len() && #[trigger] within(gaps[j]) ==> {
                    ||| freq_gap(gaps[i as int]) < freq_gap(gaps[j])
                    ||| freq_gap(gaps[i as int]) == freq_gap(gaps[j]) && i <= j
                }
        },
        None => forall|j: int| 0 <= j < gaps.len() ==> !#[trigger] within(gaps[j]),
    }
}

impl<F, X> TrackState<F, X> {
    /// A track just opened for `s`.
    pub open spec fn opened(s: LlrSample<F, X>, period: int, parity: int) -> Self {
        TrackState {
            freq_hz: s.freq_hz,
            dt: s.dt,
            window: seq![],
            last_period: period,
            last_reported: None,
            parity,
        }
    }

    /// The track with `s` in its window, its centroid moved to `(freq, dt)`.
    pub open spec fn folded(self, s: LlrSample<F, X>, freq: F, dt: F, period: int) -> Self {
        let kept = if self.window.len() == WINDOW {
            self.window.drop_first()
        } else {
            self.window
        };
        TrackState {
            freq_hz: freq,
            dt,
            window: kept.push((s.tag, s.llr@)),
            last_period: period,
            last_reported: self.last_reported,
            parity: self.parity,
        }
    }

    /// The period tags in the window, oldest first.
    pub open spec fn tags(self) -> Seq<i64> {
        self.window.map_values(|e: (i64, Seq<X>)| e.0)
    }
}

impl<F, X> AccState<F, X> {
    /// Windows hold at most [`WINDOW`] vectors of full length, and no track
    /// was updated in a period that is still to come.
    pub open spec fn ok(self) -> bool {
        &&& 0 <= self.parity <= 1
        &&& 0 <= self.period
        &&& forall|i: int|
            0 <= i < self.tracks.len() ==> {
                let t = #[trigger] self.tracks[i];
                &&& t.window.len() <= WINDOW
                &&& 0 <= t.last_period <= self.period
                &&& 0 <= t.parity <= 1
            }
    }

    /// `gaps` says how far each track of the current parity lies from `s`.
    pub open spec fn measured<G: Fn(F, F) -> u32>(
        self,
        s: LlrSample<F, X>,
        gap: G,
        gaps: Seq<Option<(u32, u32)>>,
    ) -> bool {
        &&& gaps.len() == self.tracks.len()
        &&& forall|i: int|
            0 <= i < gaps.len() ==> {
                let t = self.tracks[i];
                match #[trigger] gaps[i] {
                    Some((df, dd)) => {
                        &&& t.parity == self.parity
                        &&& call_ensures(gap, (t.freq_hz, s.freq_hz), df)
                        &&& call_ensures(gap, (t.dt, s.dt), dd)
                    },
                    None => t.parity != self.parity,
                }
            }
    }

    /// The state once a track for `s` has been found or opened.
    pub open spec fn associated(self, s: LlrSample<F, X>, found: Option<usize>) -> Self {
        match found {
            Some(_) => self,
            None => AccState {
                tracks: self.tracks.push(TrackState::opened(s, self.period, self.parity)),
                period: self.period,
                parity: self.parity,
            },
        }
    }

    /// Index of the track that was found or opened.
    pub open spec fn target(self, found: Option<usize>) -> int {
        match found {
            Some(i) => i as int,
            None => self.tracks.len() as int,
        }
    }

    /// The state with `s` folded into track `idx`.
    pub open spec fn folded(self, idx: int, s: LlrSample<F, X>, freq: F, dt: F) -> Self {
        AccState {
            tracks: self.tracks.update(
                idx,
                self.tracks[idx].folded(s, freq, dt, self.period),
            ),
            period: self.period,
            parity: self.parity,
        }
    }

    /// `post` is this state with `s` folded into track `idx`: the nearest
    /// track by `gaps`, or a new one, with its centroid eased to `(freq, dt)`.
    pub open spec fn step_via<G: Fn(F, F) -> u32, E: Fn(F, F) -> F>(
        self,
        s: LlrSample<F, X>,
        idx: int,
        post: Self,
        gap: G,
        ease: E,
        gaps: Seq<Option<(u32, u32)>>,
        found: Option<usize>,
        freq: F,
        dt: F,
    ) -> bool {
        let mid = self.associated(s, found);
        &&& self.measured(s, gap, gaps)
        &&& is_nearest(gaps, found)
        &&& idx == self.target(found)
        &&& call_ensures(ease, (mid.tracks[idx].freq_hz, s.freq_hz), freq)
        &&& call_ensures(ease, (mid.tracks[idx].dt, s.dt), dt)
        &&& post == mid.folded(idx, s, freq, dt)
    }

    /// One sample takes this state to `post` through track `idx`: the nearest
    /// track of the current parity within tolerance, or a new one, takes it
    /// into its window and eases its centroid.
    pub open spec fn add_step<G: Fn(F, F) -> u32, E: Fn(F, F) -> F>(
        self,
        s: LlrSample<F, X>,
        idx: int,
        post: Self,
        gap: G,
        ease: E,
    ) -> bool {
        exists|gaps: Seq<Option<(u32, u32)>>, found: Option<usize>, freq: F, dt: F| #[trigger]
            self.step_via(s, idx, post, gap, ease, gaps, found, freq, dt)
    }

    /// The samples, in order, take this state to `post`; sample `k` goes
    /// through track `idxs[k]`.
    pub open spec fn add_run<G: Fn(F, F) -> u32, E: Fn(F, F) -> F>(
        self,
        samples: Seq<LlrSample<F, X>>,
        idxs: Seq<usize>,
        post: Self,
        gap: G,
        ease: E,
    ) -> bool
        decreases samples.len(),
    {
        if samples.len() == 0 {
            idxs.len() == 0 && post == self
        } else {
            &&& idxs.len() == samples.len()
            &&& exists|mid: Self|
                {
                    &&& self.add_run(samples.drop_last(), idxs.drop_last(), mid, gap, ease)
                    &&& #[trigger] mid.add_step(
                        samples.last(),
                        idxs.last() as int,
                        post,
                        gap,
                        ease,
                    )
                }
        }
    }

    /// `msg` differs from what was last reported for track `idx`.
    pub open spec fn is_news(self, idx: int, msg: Seq<char>) -> bool {
        self.tracks[idx].last_reported != Some(msg)
    }

    /// The state once `msg` has been reported for track `idx`.
    pub open spec fn noted(self, idx: int, msg: Seq<char>) -> Self {
        let t = self.tracks[idx];
        AccState {
            tracks: self.tracks.update(idx, TrackState { last_reported: Some(msg), ..t }),
            period: self.period,
            parity: self.parity,
        }
    }

    /// The state one period on, with the tracks that went without an update
    /// for too long dropped.
    pub open spec fn advanced(self, parity: u8) -> Self {
        let period = self.period + 1;
        AccState {
            tracks: self.tracks.filter(
                |t: TrackState<F, X>| period - t.last_period <= MAX_AGE,
            ),
            period,
            parity: (parity as int) % 2,
        }
    }
}

/// The distinct values of `s`, each where it first occurs.
pub open spec fn first_seen(s: Seq<usize>) -> Seq<usize>
    decreases s.len(),
{
    if s.len() == 0 {
        seq![]
    } else {
        let before = first_seen(s.drop_last());
        if before.contains(s.last()) {
            before
        } else {
            before.push(s.last())
        }
    }
}

/// Adding up `column` from `zero` with `plus`, in order, can give `r`.
pub open spec fn adds_up<X, P: Fn(X, X) -> X>(zero: X, column: Seq<X>, plus: P, r: X) -> bool
    decreases column.len(),
{
    if column.len() == 0 {
        r == zero
    } else {
        exists|m: X|
            {
                &&& adds_up(zero, column.drop_last(), plus, m)
                &&& #[trigger] call_ensures(plus, (m, column.last()), r)
            }
    }
}

/// Element `i` of every vector in the window, oldest first.
pub open spec fn column<X>(window: Seq<(i64, Seq<X>)>, i: int) -> Seq<X> {
    window.map_values(|e: (i64, Seq<X>)| e.1[i])
}

/// Finds the track to associate with, given how far each one lies away;
/// tracks of the other parity have no entry.
pub fn nearest(gaps: &Vec<Option<(u32, u32)>>) -> (r: Option<usize>)
    ensures
        is_nearest(gaps@, r),
{
    let mut best: Option<usize> = None;
    let mut best_df: u32 = 0;
    let mut i: usize = 0;
    while i < gaps.len()
        invariant
            i <= gaps@.len(),
            is_nearest(gaps@.take(i as int), best),
            best matches Some(b) ==> gaps@[b as int] matches Some((df, _)) && df == best_df,
        decreases gaps@.len() - i,
    {
        let ghost seen = gaps@.take(i as int);
        let ghost more = gaps@.take(i + 1);
        assert(forall|j: int| 0 <= j < i ==> seen[j] == more[j]);
        assert(more[i as int] == gaps@[i as int]);
        if let Some((df, dd)) = gaps[i] {
            if df <= FREQ_TOL_KEY && dd <= DT_TOL_KEY {
                let closer: bool = match best {
                    Some(_) => df < best_df,
                    None => true,
                };
                if closer {
                    best = Some(i);
                    best_df = df;
                }
            }
        }
        proof {
            assert forall|j: int| 0 <= j < more.len() && #[trigger] within(more[j]) implies (
            best is Some && (freq_gap(more[best->0 as int]) < freq_gap(more[j]) || (
            freq_gap(more[best->0 as int]) == freq_gap(more[j]) && best->0 <= j))) by {
                if j < i {
                    assert(within(seen[j]));
                }
            }
        }
        i += 1;
    }
    assert(gaps@.take(gaps@.len() as int) == gaps@);
    best
}

/// Whether `v` holds `x`.
fn holds(v: &Vec<usize>, x: usize) -> (r: bool)
    ensures
        r == v@.contains(x),
{
    let mut i: usize = 0;
    while i < v.len()
        invariant
            i <= v@.len(),
            forall|j: int| 0 <= j < i ==> v@[j] != x,
        decreases v@.len() - i,
    {
        if v[i] == x {
            return true;
        }
        i += 1;
    }
    false
}

impl<F, X> View for Track<F, X> {
    type V = TrackState<F, X>;

    closed spec fn view(&self) -> TrackState<F, X> {
        TrackState {
            freq_hz: self.freq_hz,
            dt: self.dt,
            window: self.recent@.map_values(|e: (i64, [X; LLR_LEN])| (e.0, e.1@)),
            last_period: self.last_period as int,
            last_reported: match self.last_reported {
                Some(m) => Some(m@),
                None => None,
            },
            parity: self.parity as int,
        }
    }
}

impl<F, X> View for Accumulator<F, X> {
    type V = AccState<F, X>;

    closed spec fn view(&self) -> AccState<F, X> {
        AccState {
            tracks: self.tracks@.map_values(|t: Track<F, X>| t@),
            period: self.period as int,
            parity: self.cur_parity as int,
        }
    }
}

impl<F, X> Accumulator<F, X> {
    #[verifier::type_invariant]
    spec fn inv(self) -> bool {
        self@.ok()
    }
}

impl<F: Copy, X: Copy> Accumulator<F, X> {
    /// An accumulator that follows no signal yet.
    pub fn new() -> (res: Self)
        ensures
            res@ == (AccState::<F, X> { tracks: seq![], period: 0, parity: 0 }),
    {
        Accumulator { tracks: Vec::new(), period: 0, cur_parity: 0 }
    }

    /// Advance to the next period and drop stale tracks. Call once per slot,
    /// before [`add`](Self::add).
    ///
    /// `parity` is the slot-sequence parity of the slot about to be added: 0
    /// for an even UTC slot (:00/:30), 1 for an odd one (:15/:45). Samples
    /// added this period only associate with tracks of the same parity.
    pub fn next_period(&mut self, parity: u8)
        requires
            old(self)@.period < u64::MAX,
        ensures
            final(self)@ == old(self)@.advanced(parity),
    {
        proof {
            use_type_invariant(&*self);
        }
        let mut tracks: Vec<Track<F, X>> = Vec::new();
        std::mem::swap(&mut tracks, &mut self.tracks);
        let p: u64 = self.period + 1;
        let ghost all = tracks@.map_values(|t: Track<F, X>| t@);
        let ghost fresh = |t: TrackState<F, X>| p - t.last_period <= MAX_AGE;
        let mut i: usize = 0;
        let ghost mut k: int = 0;
        while i < tracks.len()
            invariant
                0 <= k <= all.len(),
                i <= tracks@.len(),
                tracks@.len() - i == all.len() - k,
                fresh == (|t: TrackState<F, X>| p - t.last_period <= MAX_AGE),
                forall|j: int| 0 <= j < all.len() ==> (#[trigger] all[j]).last_period < p,
                tracks@.map_values(|t: Track<F, X>| t@) == all.take(k).filter(fresh) + all.skip(k),
                all.take(k).filter(fresh).len() == i,
            decreases tracks@.len() - i,
        {
            broadcast use vstd::seq_lib::group_filter_ensures;
            let age: u64 = p.saturating_sub(tracks[i].last_period);
            proof {
                let now = tracks@.map_values(|t: Track<F, X>| t@);
                assert(now[i as int] == all[k]);
                assert(all.take(k + 1).drop_last() == all.take(k));
                reveal(Seq::filter);
            }
            if age <= MAX_AGE {
                i += 1;
            } else {
                let ghost now = tracks@.map_values(|t: Track<F, X>| t@);
                let _ = tracks.remove(i);
                assert(tracks@.map_values(|t: Track<F, X>| t@) == now.remove(i as int));
            }
            proof {
                k = k + 1;
            }
        }
        proof {
            assert(all.take(k) == all);
            assert(all.skip(k) == Seq::<TrackState<F, X>>::empty());
            let kept = all.filter(fresh);
            assert forall|j: int| 0 <= j < kept.len() implies all.contains(#[trigger] kept[j]) by {
                crate::seqs::lemma_filter_kept(all, fresh, j);
            }
        }
        self.cur_parity = parity % 2;
        self.period = p;
        self.tracks = tracks;
    }

    /// Measures how far each track of the current parity lies from `s`.
    fn measure<G: Fn(F, F) -> u32>(&self, s: &LlrSample<F, X>, gap: &G) -> (gaps: Vec<
        Option<(u32, u32)>,
    >)
        requires
            forall|a: F, b: F| call_requires(*gap, (a, b)),
        ensures
            self@.measured(*s, *gap, gaps@),
    {
        let mut gaps: Vec<Option<(u32, u32)>> = Vec::new();
        let mut i: usize = 0;
        while i < self.tracks.len()
            invariant
                i <= self.tracks@.len(),
                forall|a: F, b: F| call_requires(*gap, (a, b)),
                gaps@.len() == i,
                forall|j: int|
                    0 <= j < i ==> {
                        let t = self@.tracks[j];
                        match #[trigger] gaps@[j] {
                            Some((df, dd)) => {
                                &&& t.parity == self@.parity
                                &&& call_ensures(*gap, (t.freq_hz, s.freq_hz), df)
                                &&& call_ensures(*gap, (t.dt, s.dt), dd)
                            },
                            None => t.parity != self@.parity,
                        }
                    },
            decreases self.tracks@.len() - i,
        {
            let t = &self.tracks[i];
            if t.parity != self.cur_parity {
                gaps.push(None);
            } else {
                let df: u32 = gap(t.freq_hz, s.freq_hz);
                let dd: u32 = gap(t.dt, s.dt);
                gaps.push(Some((df, dd)));
            }
            i += 1;
        }
        gaps
    }

    /// The track that `s` belongs to, given how far each track lies from it;
    /// a new track is opened if none lies within tolerance. It inherits the
    /// current parity.
    pub fn associate(&mut self, s: &LlrSample<F, X>, gaps: &Vec<Option<(u32, u32)>>) -> (idx:
        usize)
        requires
            gaps@.len() == old(self)@.tracks.len(),
        ensures
            exists|found: Option<usize>|
                {
                    &&& #[trigger] is_nearest(gaps@, found)
                    &&& idx == old(self)@.target(found)
                    &&& final(self)@ == old(self)@.associated(*s, found)
                },
            idx < final(self)@.tracks.len(),
    {
        proof {
            use_type_invariant(&*self);
        }
        let ghost before = self@;
        let found = nearest(gaps);
        match found {
            Some(i) => {
                assert(is_nearest(gaps@, found));
                i
            },
            None => {
                let mut tracks: Vec<Track<F, X>> = Vec::new();
                std::mem::swap(&mut tracks, &mut self.tracks);
                let t = Track {
                    freq_hz: s.freq_hz,
                    dt: s.dt,
                    recent: VecDeque::with_capacity(WINDOW),
                    last_period: self.period,
                    last_reported: None,
                    parity: self.cur_parity,
                };
                assert(t@ == TrackState::opened(*s, before.period, before.parity));
                tracks.push(t);
                let idx: usize = tracks.len() - 1;
                assert(tracks@.map_values(|t: Track<F, X>| t@) == before.associated(*s, found).tracks);
                self.tracks = tracks;
                assert(is_nearest(gaps@, found));
                assert(self@ == before.associated(*s, found));
                idx
            },
        }
    }

    /// Takes `s` into the window of track `idx` and moves the centroid to
    /// `(freq, dt)`. A full window loses its oldest vector.
    pub fn fold(&mut self, idx: usize, s: &LlrSample<F, X>, freq: F, dt: F)
        requires
            idx < old(self)@.tracks.len(),
        ensures
            final(self)@ == old(self)@.folded(idx as int, *s, freq, dt),
    {
        proof {
            use_type_invariant(&*self);
        }
        let ghost before = self@;
        let mut tracks: Vec<Track<F, X>> = Vec::new();
        std::mem::swap(&mut tracks, &mut self.tracks);
        let t = &mut tracks[idx];
        if t.recent.len() == WINDOW {
            let _ = t.recent.pop_front();
        }
        t.recent.push_back((s.tag, s.llr));
        t.freq_hz = freq;
        t.dt = dt;
        t.last_period = self.period;
        assert(tracks@[idx as int]@ == before.tracks[idx as int].folded(*s, freq, dt, before.period));
        assert(tracks@.map_values(|t: Track<F, X>| t@) == before.folded(idx as int, *s, freq, dt).tracks);
        self.tracks = tracks;
        assert(self@ == before.folded(idx as int, *s, freq, dt));
    }

    /// Fold this period's candidate LLR samples into the tracks. Returns the
    /// indices of tracks that were updated, the candidates for an
    /// accumulated re-decode.
    ///
    /// `gap` gives the order key of how far two values lie apart, and `ease`
    /// moves a centroid toward a new sample.
    pub fn add<G: Fn(F, F) -> u32, E: Fn(F, F) -> F>(
        &mut self,
        samples: &[LlrSample<F, X>],
        gap: G,
        ease: E,
    ) -> (touched: Vec<usize>)
        requires
            forall|a: F, b: F| call_requires(gap, (a, b)),
            forall|a: F, b: F| call_requires(ease, (a, b)),
        ensures
            exists|idxs: Seq<usize>|
                {
                    &&& #[trigger] old(self)@.add_run(samples@, idxs, final(self)@, gap, ease)
                    &&& touched@ == first_seen(idxs)
                },
            old(self)@.ok(),
            final(self)@.ok(),
            forall|k: int|
                0 <= k < touched@.len() ==> (#[trigger] touched@[k]) < final(self)@.tracks.len(),
    {
        proof {
            use_type_invariant(&*self);
        }
        let mut touched: Vec<usize> = Vec::new();
        let ghost before = self@;
        let ghost mut idxs: Seq<usize> = seq![];
        let mut k: usize = 0;
        while k < samples.len()
            invariant
                k <= samples@.len(),
                forall|a: F, b: F| call_requires(gap, (a, b)),
                forall|a: F, b: F| call_requires(ease, (a, b)),
                before.add_run(samples@.take(k as int), idxs, self@, gap, ease),
                touched@ == first_seen(idxs),
            decreases samples@.len() - k,
        {
            let ghost pre = self@;
            let s = &samples[k];
            let gaps = self.measure(s, &gap);
            let idx = self.associate(s, &gaps);
            let ghost mid = self@;
            let freq = ease(self.track_freq(idx), s.freq_hz);
            let dt = ease(self.track_dt(idx), s.dt);
            self.fold(idx, s, freq, dt);
            let seen = holds(&touched, idx);
            proof {
                let found = choose|found: Option<usize>|
                    {
                        &&& #[trigger] is_nearest(gaps@, found)
                        &&& idx == pre.target(found)
                        &&& mid == pre.associated(*s, found)
                    };
                assert(pre.step_via(*s, idx as int, self@, gap, ease, gaps@, found, freq, dt));
                let more = idxs.push(idx);
                let done = samples@.take(k + 1);
                assert(done.drop_last() == samples@.take(k as int));
                assert(more.drop_last() == idxs);
                assert(pre.add_step(done.last(), more.last() as int, self@, gap, ease));
                idxs = more;
            }
            if !seen {
                touched.push(idx);
            }
            k += 1;
        }
        assert(samples@.take(k as int) == samples@);
        proof {
            lemma_parities_never_mix(before, samples@, idxs, self@, gap, ease);
            lemma_touched_once(idxs);
            assert forall|k: int| 0 <= k < touched@.len() implies (#[trigger] touched@[k])
                < self@.tracks.len() by {
                assert(first_seen(idxs).contains(touched@[k]));
                assert(idxs.contains(touched@[k]));
                let j = idxs.index_of(touched@[k]);
                assert(idxs[j] == touched@[k]);
            }
        }
        touched
    }

    /// Number of periods currently summed for a track.
    pub fn depth(&self, idx: usize) -> (n: usize)
        requires
            idx < self@.tracks.len(),
        ensures
            n == self@.tracks[idx as int].window.len(),
            n <= WINDOW,
    {
        proof {
            use_type_invariant(self);
            assert(self@.tracks[idx as int] == self.tracks@[idx as int]@);
        }
        self.tracks[idx].recent.len()
    }

    /// The accumulated (summed) LLR vector for a track: element by element,
    /// the windowed vectors added to `zero`, oldest first.
    pub fn summed_llr<P: Fn(X, X) -> X>(&self, idx: usize, zero: X, plus: &P) -> (sum: [X; LLR_LEN])
        requires
            idx < self@.tracks.len(),
            forall|a: X, b: X| call_requires(*plus, (a, b)),
        ensures
            forall|i: int|
                0 <= i < LLR_LEN ==> adds_up(
                    zero,
                    column(self@.tracks[idx as int].window, i),
                    *plus,
                    #[trigger] sum@[i],
                ),
    {
        let t = &self.tracks[idx];
        let mut sum: [X; LLR_LEN] = [zero; LLR_LEN];
        let mut k: usize = 0;
        let ghost window = t@.window;
        assert(window == self@.tracks[idx as int].window);
        while k < t.recent.len()
            invariant
                k <= t.recent@.len(),
                window == t@.window,
                forall|a: X, b: X| call_requires(*plus, (a, b)),
                forall|i: int|
                    0 <= i < LLR_LEN ==> adds_up(
                        zero,
                        column(window.take(k as int), i),
                        *plus,
                        #[trigger] sum@[i],
                    ),
            decreases t.recent@.len() - k,
        {
            let ghost done = sum@;
            let mut i: usize = 0;
            while i < LLR_LEN
                invariant
                    k < t.recent@.len(),
                    i <= LLR_LEN,
                    window == t@.window,
                    forall|a: X, b: X| call_requires(*plus, (a, b)),
                    forall|j: int|
                        0 <= j < LLR_LEN ==> adds_up(
                            zero,
                            column(window.take(k as int), j),
                            *plus,
                            #[trigger] done[j],
                        ),
                    forall|j: int|
                        0 <= j < i ==> adds_up(
                            zero,
                            column(window.take(k + 1), j),
                            *plus,
                            #[trigger] sum@[j],
                        ),
                    forall|j: int| i <= j < LLR_LEN ==> #[trigger] sum@[j] == done[j],
                decreases LLR_LEN - i,
            {
                let old_value = sum[i];
                let r = plus(old_value, t.recent[k].1[i]);
                proof {
                    let all = column(window.take(k + 1), i as int);
                    assert(all.drop_last() == column(window.take(k as int), i as int));
                    assert(adds_up(zero, all.drop_last(), *plus, done[i as int]));
                    assert(all.last() == t.recent@[k as int].1@[i as int]);
                    assert(call_ensures(*plus, (done[i as int], all.last()), r));
                }
                sum[i] = r;
                i += 1;
            }
            k += 1;
        }
        assert(window.take(k as int) == window);
        sum
    }

    /// The period tags currently summed for a track, oldest first: the exact
    /// set of periods that fed an accumulated decode for this track.
    pub fn track_tags(&self, idx: usize) -> (tags: Vec<i64>)
        requires
            idx < self@.tracks.len(),
        ensures
            tags@ == self@.tracks[idx as int].tags(),
    {
        let t = &self.tracks[idx];
        let mut tags: Vec<i64> = Vec::new();
        let mut k: usize = 0;
        while k < t.recent.len()
            invariant
                k <= t.recent@.len(),
                tags@ == t@.tags().take(k as int),
            decreases t.recent@.len() - k,
        {
            tags.push(t.recent[k].0);
            k += 1;
        }
        assert(self@.tracks[idx as int] == t@);
        tags
    }

    /// A track's current centroid frequency, Hz.
    pub fn track_freq(&self, idx: usize) -> (freq: F)
        requires
            idx < self@.tracks.len(),
        ensures
            freq == self@.tracks[idx as int].freq_hz,
    {
        self.tracks[idx].freq_hz
    }

    /// A track's current centroid time offset, seconds.
    pub fn track_dt(&self, idx: usize) -> (dt: F)
        requires
            idx < self@.tracks.len(),
        ensures
            dt == self@.tracks[idx as int].dt,
    {
        self.tracks[idx].dt
    }

    /// Record that `msg` was decoded for a track; returns `true` if this is a
    /// new result (differs from the last one reported for that track), so
    /// the caller can suppress repeats while still catching message changes.
    pub fn note_decode(&mut self, idx: usize, msg: &str) -> (is_new: bool)
        requires
            idx < old(self)@.tracks.len(),
        ensures
            is_new == old(self)@.is_news(idx as int, msg@),
            final(self)@ == old(self)@.noted(idx as int, msg@),
    {
        proof {
            use_type_invariant(&*self);
        }
        let ghost before = self@;
        let mut tracks: Vec<Track<F, X>> = Vec::new();
        std::mem::swap(&mut tracks, &mut self.tracks);
        let t = &mut tracks[idx];
        let latest = msg.to_owned();
        let is_new: bool = match &t.last_reported {
            Some(m) => !(*m == latest),
            None => true,
        };
        t.last_reported = Some(latest);
        assert(tracks@[idx as int]@ == before.noted(idx as int, msg@).tracks[idx as int]);
        assert(tracks@.map_values(|t: Track<F, X>| t@) == before.noted(idx as int, msg@).tracks);
        self.tracks = tracks;
        is_new
    }

    /// Number of live tracks.
    pub fn track_count(&self) -> (n: usize)
        ensures
            n == self@.tracks.len(),
    {
        self.tracks.len()
    }

    /// Number of periods seen so far.
    pub fn periods(&self) -> (n: u64)
        ensures
            n == self@.period,
    {
        self.period
    }
}

impl<F: Copy, X: Copy> Default for Accumulator<F, X> {
    fn default() -> (res: Self)
        ensures
            res@ == (AccState::<F, X> { tracks: seq![], period: 0, parity: 0 }),
    {
        Accumulator::new()
    }
}

/// The most recent [`WINDOW`] entries, oldest first.
pub open spec fn latest<A>(entries: Seq<A>) -> Seq<A> {
    if entries.len() <= WINDOW {
        entries
    } else {
        entries.skip(entries.len() - WINDOW)
    }
}

/// One sample given to a track, with the centroid that it moved the track to
/// and the period that it came in.
pub type Feed<F, X> = (LlrSample<F, X>, F, F, int);

/// The track once `feeds` have been folded in, in order.
pub open spec fn fed<F, X>(t: TrackState<F, X>, feeds: Seq<Feed<F, X>>) -> TrackState<F, X>
    decreases feeds.len(),
{
    if feeds.len() == 0 {
        t
    } else {
        let (s, freq, dt, period) = feeds.last();
        fed(t, feeds.drop_last()).folded(s, freq, dt, period)
    }
}

/// A track sums the latest [`WINDOW`] vectors that it was given, and no
/// others: older vectors age out, so that a stale message clears itself.
pub proof fn lemma_window_is_the_latest<F, X>(t: TrackState<F, X>, feeds: Seq<Feed<F, X>>)
    requires
        t.window.len() == 0,
    ensures
        fed(t, feeds).window == latest(feeds.map_values(|f: Feed<F, X>| (f.0.tag, f.0.llr@))),
    decreases feeds.len(),
{
    let entry = |f: Feed<F, X>| (f.0.tag, f.0.llr@);
    if feeds.len() > 0 {
        lemma_window_is_the_latest(t, feeds.drop_last());
        let before = feeds.drop_last().map_values(entry);
        let all = feeds.map_values(entry);
        assert(all == before.push(entry(feeds.last())));
        assert(fed(t, feeds).window == latest(all));
    } else {
        assert(feeds.map_values(entry) == t.window);
    }
}

/// One sample keeps the invariant and reaches one track, which is of the
/// current parity.
proof fn lemma_step<F, X, G: Fn(F, F) -> u32, E: Fn(F, F) -> F>(
    pre: AccState<F, X>,
    s: LlrSample<F, X>,
    idx: int,
    post: AccState<F, X>,
    gap: G,
    ease: E,
)
    requires
        pre.ok(),
        pre.add_step(s, idx, post, gap, ease),
    ensures
        post.ok(),
        post.parity == pre.parity,
        post.period == pre.period,
        pre.tracks.len() <= post.tracks.len(),
        0 <= idx < post.tracks.len(),
        post.tracks[idx].parity == pre.parity,
        post.tracks[idx].last_period == pre.period,
        post.tracks[idx].window.len() >= 1,
        post.tracks[idx].window.last() == (s.tag, s.llr@),
        forall|j: int|
            0 <= j < pre.tracks.len() && j != idx ==> #[trigger] post.tracks[j] == pre.tracks[j],
        idx < pre.tracks.len() ==> pre.tracks[idx].parity == pre.parity,
{
    let (gaps, found, freq, dt) = choose|
        gaps: Seq<Option<(u32, u32)>>,
        found: Option<usize>,
        freq: F,
        dt: F,
    | #[trigger]
        pre.step_via(s, idx, post, gap, ease, gaps, found, freq, dt);
    assert(pre.step_via(s, idx, post, gap, ease, gaps, found, freq, dt));
    let mid = pre.associated(s, found);
    assert(mid.ok());
    if let Some(i) = found {
        assert(within(gaps[i as int]));
    }
}

/// Adding samples keeps the invariant and stays within one slot sequence: a
/// track of the other parity is left as it was, every track that takes a
/// sample is of the current parity and counts as updated in this period, and
/// no track is lost.
pub proof fn lemma_parities_never_mix<F, X, G: Fn(F, F) -> u32, E: Fn(F, F) -> F>(
    pre: AccState<F, X>,
    samples: Seq<LlrSample<F, X>>,
    idxs: Seq<usize>,
    post: AccState<F, X>,
    gap: G,
    ease: E,
)
    requires
        pre.ok(),
        pre.add_run(samples, idxs, post, gap, ease),
    ensures
        post.ok(),
        post.parity == pre.parity,
        post.period == pre.period,
        pre.tracks.len() <= post.tracks.len(),
        forall|j: int|
            0 <= j < pre.tracks.len() && pre.tracks[j].parity != pre.parity
                ==> #[trigger] post.tracks[j] == pre.tracks[j],
        forall|j: int|
            0 <= j < pre.tracks.len() ==> (#[trigger] post.tracks[j]).parity
                == pre.tracks[j].parity,
        forall|j: int|
            pre.tracks.len() <= j < post.tracks.len() ==> (#[trigger] post.tracks[j]).parity
                == pre.parity,
        forall|k: int|
            0 <= k < idxs.len() ==> (#[trigger] idxs[k]) < post.tracks.len()
                && post.tracks[idxs[k] as int].parity == pre.parity
                && post.tracks[idxs[k] as int].last_period == pre.period
                && post.tracks[idxs[k] as int].window.len() >= 1,
    decreases samples.len(),
{
    if samples.len() > 0 {
        let mid = choose|mid: AccState<F, X>|
            {
                &&& pre.add_run(samples.drop_last(), idxs.drop_last(), mid, gap, ease)
                &&& #[trigger] mid.add_step(
                    samples.last(),
                    idxs.last() as int,
                    post,
                    gap,
                    ease,
                )
            };
        lemma_parities_never_mix(pre, samples.drop_last(), idxs.drop_last(), mid, gap, ease);
        lemma_step(mid, samples.last(), idxs.last() as int, post, gap, ease);
        assert forall|k: int| 0 <= k < idxs.len() implies (#[trigger] idxs[k]) < post.tracks.len()
            && post.tracks[idxs[k] as int].parity == pre.parity
            && post.tracks[idxs[k] as int].last_period == pre.period
            && post.tracks[idxs[k] as int].window.len() >= 1 by {
            if k < idxs.len() - 1 {
                assert(idxs.drop_last()[k] == idxs[k]);
            }
        }
    }
}

/// Entry `e` of track `t` was there before, or is one of the samples that went
/// through the track.
pub open spec fn is_accounted_for<F, X>(
    pre: AccState<F, X>,
    samples: Seq<LlrSample<F, X>>,
    idxs: Seq<usize>,
    t: int,
    e: (i64, Seq<X>),
) -> bool {
    ||| t < pre.tracks.len() && pre.tracks[t].window.contains(e)
    ||| exists|k: int|
        0 <= k < samples.len() && #[trigger] idxs[k] == t && e == (samples[k].tag, samples[k].llr@)
}

/// The periods behind a track are exactly known: whatever its window holds
/// was there before, or is a sample that was just added to it, with that
/// sample's own tag.
pub proof fn lemma_windows_are_accounted_for<F, X, G: Fn(F, F) -> u32, E: Fn(F, F) -> F>(
    pre: AccState<F, X>,
    samples: Seq<LlrSample<F, X>>,
    idxs: Seq<usize>,
    post: AccState<F, X>,
    gap: G,
    ease: E,
    t: int,
    e: (i64, Seq<X>),
)
    requires
        pre.ok(),
        pre.add_run(samples, idxs, post, gap, ease),
        0 <= t < post.tracks.len(),
        post.tracks[t].window.contains(e),
    ensures
        is_accounted_for(pre, samples, idxs, t, e),
    decreases samples.len(),
{
    if samples.len() > 0 {
        let (fewer, shorter) = (samples.drop_last(), idxs.drop_last());
        let mid = choose|mid: AccState<F, X>|
            {
                &&& pre.add_run(samples.drop_last(), idxs.drop_last(), mid, gap, ease)
                &&& #[trigger] mid.add_step(
                    samples.last(),
                    idxs.last() as int,
                    post,
                    gap,
                    ease,
                )
            };
        lemma_parities_never_mix(pre, fewer, shorter, mid, gap, ease);
        lemma_step(mid, samples.last(), idxs.last() as int, post, gap, ease);
        lemma_step_entry(mid, samples.last(), idxs.last() as int, post, gap, ease, t, e);
        if t < mid.tracks.len() && mid.tracks[t].window.contains(e) {
            lemma_windows_are_accounted_for(pre, fewer, shorter, mid, gap, ease, t, e);
            if !(t < pre.tracks.len() && pre.tracks[t].window.contains(e)) {
                let k = choose|k: int|
                    0 <= k < fewer.len() && #[trigger] shorter[k] == t && e == (
                        fewer[k].tag,
                        fewer[k].llr@,
                    );
                assert(idxs[k] == t && samples[k] == fewer[k]);
            }
        } else {
            let k = samples.len() - 1;
            assert(idxs[k] == t && e == (samples[k].tag, samples[k].llr@));
        }
    }
}

proof fn lemma_step_entry<F, X, G: Fn(F, F) -> u32, E: Fn(F, F) -> F>(
    pre: AccState<F, X>,
    s: LlrSample<F, X>,
    idx: int,
    post: AccState<F, X>,
    gap: G,
    ease: E,
    t: int,
    e: (i64, Seq<X>),
)
    requires
        pre.ok(),
        pre.add_step(s, idx, post, gap, ease),
        0 <= t < post.tracks.len(),
        post.tracks[t].window.contains(e),
    ensures
        t < pre.tracks.len() && pre.tracks[t].window.contains(e) || t == idx && e == (
            s.tag,
            s.llr@,
        ),
{
    let (gaps, found, freq, dt) = choose|
        gaps: Seq<Option<(u32, u32)>>,
        found: Option<usize>,
        freq: F,
        dt: F,
    | #[trigger]
        pre.step_via(s, idx, post, gap, ease, gaps, found, freq, dt);
    let mid = pre.associated(s, found);
    assert(post == mid.folded(idx, s, freq, dt));
    let j = post.tracks[t].window.index_of(e);
    if t == idx {
        let was = mid.tracks[idx].window;
        let now = post.tracks[idx].window;
        if j < now.len() - 1 {
            if was.len() == WINDOW {
                assert(now[j] == was[j + 1]);
            } else {
                assert(now[j] == was[j]);
            }
            assert(was.contains(e));
        }
    }
}

/// A sample's entry in a window.
pub open spec fn entry_of<F, X>(s: LlrSample<F, X>) -> (i64, Seq<X>) {
    (s.tag, s.llr@)
}

/// What each track was given so far, once the track at `idx`, a new one if
/// there is none yet, has been given `e`.
pub open spec fn give<X>(
    given: Seq<Seq<(i64, Seq<X>)>>,
    idx: int,
    e: (i64, Seq<X>),
) -> Seq<Seq<(i64, Seq<X>)>> {
    if idx < given.len() {
        given.update(idx, given[idx].push(e))
    } else {
        given.push(seq![e])
    }
}

/// What each track was given so far, once sample `k` has been given to track
/// `idxs[k]`, in order.
pub open spec fn give_all<F, X>(
    given: Seq<Seq<(i64, Seq<X>)>>,
    samples: Seq<LlrSample<F, X>>,
    idxs: Seq<usize>,
) -> Seq<Seq<(i64, Seq<X>)>>
    decreases samples.len(),
{
    if samples.len() == 0 {
        given
    } else {
        give(
            give_all(given, samples.drop_last(), idxs.drop_last()),
            idxs.last() as int,
            entry_of(samples.last()),
        )
    }
}

/// The elements of `b` at the places where `keep` holds of `a`.
pub open spec fn filter_by<A, B>(a: Seq<A>, b: Seq<B>, keep: spec_fn(A) -> bool) -> Seq<B>
    decreases a.len(),
{
    if a.len() == 0 {
        seq![]
    } else {
        let before = filter_by(a.drop_last(), b.drop_last(), keep);
        if keep(a.last()) {
            before.push(b.last())
        } else {
            before
        }
    }
}

/// One call on an accumulator.
pub enum Call<F, X> {
    /// A period of this parity begins.
    NextPeriod(u8),
    /// Samples are added; the second list says which track each went to.
    Add(Seq<LlrSample<F, X>>, Seq<usize>),
    /// A message is noted for a track.
    NoteDecode(int, Seq<char>),
}

impl<F, X> Call<F, X> {
    /// The call can take an accumulator from `pre` to `post`.
    pub open spec fn takes<G: Fn(F, F) -> u32, E: Fn(F, F) -> F>(
        self,
        pre: AccState<F, X>,
        post: AccState<F, X>,
        gap: G,
        ease: E,
    ) -> bool {
        match self {
            Call::NextPeriod(parity) => post == pre.advanced(parity),
            Call::Add(samples, idxs) => pre.add_run(samples, idxs, post, gap, ease),
            Call::NoteDecode(idx, msg) => 0 <= idx < pre.tracks.len() && post == pre.noted(
                idx,
                msg,
            ),
        }
    }

    /// What each live track was given so far, once the call has been made in
    /// state `pre`.
    pub open spec fn gives(
        self,
        pre: AccState<F, X>,
        given: Seq<Seq<(i64, Seq<X>)>>,
    ) -> Seq<Seq<(i64, Seq<X>)>> {
        match self {
            Call::NextPeriod(_) => filter_by(
                pre.tracks,
                given,
                |t: TrackState<F, X>| pre.period + 1 - t.last_period <= MAX_AGE,
            ),
            Call::Add(samples, idxs) => give_all(given, samples, idxs),
            Call::NoteDecode(_, _) => given,
        }
    }
}

/// `calls` are made on a new accumulator, in order; `states` are what it
/// holds before each and after the last.
pub open spec fn is_history<F, X, G: Fn(F, F) -> u32, E: Fn(F, F) -> F>(
    states: Seq<AccState<F, X>>,
    calls: Seq<Call<F, X>>,
    gap: G,
    ease: E,
) -> bool {
    &&& states.len() == calls.len() + 1
    &&& states[0] == (AccState::<F, X> { tracks: seq![], period: 0, parity: 0 })
    &&& forall|k: int|
        0 <= k < calls.len() ==> (#[trigger] calls[k]).takes(states[k], states[k + 1], gap, ease)
}

/// What each live track was given in all, one list per track, oldest first.
pub open spec fn given_in<F, X>(states: Seq<AccState<F, X>>, calls: Seq<Call<F, X>>) -> Seq<
    Seq<(i64, Seq<X>)>,
>
    decreases calls.len(),
{
    if calls.len() == 0 {
        seq![]
    } else {
        let n = calls.len() - 1;
        calls.last().gives(states[n], given_in(states.drop_last(), calls.drop_last()))
    }
}

/// Each track's window is the latest of what the track was given.
pub open spec fn windows_follow<F, X>(
    acc: AccState<F, X>,
    given: Seq<Seq<(i64, Seq<X>)>>,
) -> bool {
    &&& given.len() == acc.tracks.len()
    &&& forall|i: int|
        0 <= i < given.len() ==> (#[trigger] given[i]).len() >= 1 && acc.tracks[i].window == latest(
            given[i],
        )
}

proof fn lemma_step_follows<F, X, G: Fn(F, F) -> u32, E: Fn(F, F) -> F>(
    pre: AccState<F, X>,
    given: Seq<Seq<(i64, Seq<X>)>>,
    s: LlrSample<F, X>,
    idx: int,
    post: AccState<F, X>,
    gap: G,
    ease: E,
)
    requires
        windows_follow(pre, given),
        pre.add_step(s, idx, post, gap, ease),
    ensures
        windows_follow(post, give(given, idx, entry_of(s))),
{
    let (gaps, found, freq, dt) = choose|
        gaps: Seq<Option<(u32, u32)>>,
        found: Option<usize>,
        freq: F,
        dt: F,
    | #[trigger]
        pre.step_via(s, idx, post, gap, ease, gaps, found, freq, dt);
    let mid = pre.associated(s, found);
    let after = give(given, idx, entry_of(s));
    assert(post == mid.folded(idx, s, freq, dt));
    if let Some(i) = found {
        assert(idx == i && i < pre.tracks.len());
    }
    assert forall|i: int| 0 <= i < after.len() implies (#[trigger] after[i]).len() >= 1
        && post.tracks[i].window == latest(after[i]) by {
        if i != idx {
            assert(after[i] == given[i]);
            assert(post.tracks[i] == pre.tracks[i]);
        } else if idx < given.len() {
            let (was, all) = (given[idx], after[idx]);
            assert(all == was.push(entry_of(s)));
            assert(mid.tracks[idx].window == latest(was));
            assert(post.tracks[idx].window =~= latest(all));
        } else {
            assert(after[idx] == seq![entry_of(s)]);
            assert(post.tracks[idx].window =~= latest(after[idx]));
        }
    }
}

proof fn lemma_run_follows<F, X, G: Fn(F, F) -> u32, E: Fn(F, F) -> F>(
    pre: AccState<F, X>,
    given: Seq<Seq<(i64, Seq<X>)>>,
    samples: Seq<LlrSample<F, X>>,
    idxs: Seq<usize>,
    post: AccState<F, X>,
    gap: G,
    ease: E,
)
    requires
        windows_follow(pre, given),
        pre.add_run(samples, idxs, post, gap, ease),
    ensures
        windows_follow(post, give_all(given, samples, idxs)),
    decreases samples.len(),
{
    if samples.len() > 0 {
        let (fewer, shorter) = (samples.drop_last(), idxs.drop_last());
        let mid = choose|mid: AccState<F, X>|
            {
                &&& pre.add_run(samples.drop_last(), idxs.drop_last(), mid, gap, ease)
                &&& #[trigger] mid.add_step(
                    samples.last(),
                    idxs.last() as int,
                    post,
                    gap,
                    ease,
                )
            };
        lemma_run_follows(pre, given, fewer, shorter, mid, gap, ease);
        lemma_step_follows(
            mid,
            give_all(given, fewer, shorter),
            samples.last(),
            idxs.last() as int,
            post,
            gap,
            ease,
        );
    }
}

/// Dropping tracks drops what they were given along with them.
proof fn lemma_filter_follows<F, X>(
    tracks: Seq<TrackState<F, X>>,
    given: Seq<Seq<(i64, Seq<X>)>>,
    keep: spec_fn(TrackState<F, X>) -> bool,
)
    requires
        given.len() == tracks.len(),
        forall|i: int|
            0 <= i < given.len() ==> (#[trigger] given[i]).len() >= 1 && tracks[i].window == latest(
                given[i],
            ),
    ensures
        ({
            let (ts, gs) = (tracks.filter(keep), filter_by(tracks, given, keep));
            &&& gs.len() == ts.len()
            &&& forall|i: int|
                0 <= i < gs.len() ==> (#[trigger] gs[i]).len() >= 1 && ts[i].window == latest(gs[i])
        }),
    decreases tracks.len(),
{
    reveal(Seq::filter);
    if tracks.len() > 0 {
        let (ts, gs) = (tracks.drop_last(), given.drop_last());
        assert forall|i: int| 0 <= i < gs.len() implies (#[trigger] gs[i]).len() >= 1
            && ts[i].window == latest(gs[i]) by {
            assert(gs[i] == given[i]);
        }
        lemma_filter_follows(ts, gs, keep);
        assert(given.last() == given[given.len() - 1]);
    }
}

/// Through any run of periods, additions and notes from the start on, every
/// live track sums the latest [`WINDOW`] samples that it was given, and no
/// others: that is what its depth, its tags and its sums are made of.
pub proof fn lemma_windows_follow_history<F, X, G: Fn(F, F) -> u32, E: Fn(F, F) -> F>(
    states: Seq<AccState<F, X>>,
    calls: Seq<Call<F, X>>,
    gap: G,
    ease: E,
)
    requires
        is_history(states, calls, gap, ease),
    ensures
        ({
            let acc = states.last();
            let given = given_in(states, calls);
            &&& given.len() == acc.tracks.len()
            &&& forall|i: int|
                0 <= i < acc.tracks.len() ==> {
                    let t = #[trigger] acc.tracks[i];
                    &&& given[i].len() >= 1
                    &&& t.window == latest(given[i])
                    &&& t.window.len() == if given[i].len() < WINDOW {
                        given[i].len()
                    } else {
                        WINDOW as nat
                    }
                    &&& t.tags() == latest(given[i]).map_values(|e: (i64, Seq<X>)| e.0)
                    &&& forall|j: int|
                        0 <= j < LLR_LEN ==> #[trigger] column(t.window, j) == column(
                            latest(given[i]),
                            j,
                        )
                }
        }),
{
    lemma_history_follows(states, calls, gap, ease);
    let given = given_in(states, calls);
    assert forall|i: int| 0 <= i < given.len() implies states.last().tracks[i].window == latest(
        given[i],
    ) && (#[trigger] given[i]).len() >= 1 by {}
}

proof fn lemma_history_follows<F, X, G: Fn(F, F) -> u32, E: Fn(F, F) -> F>(
    states: Seq<AccState<F, X>>,
    calls: Seq<Call<F, X>>,
    gap: G,
    ease: E,
)
    requires
        is_history(states, calls, gap, ease),
    ensures
        windows_follow(states.last(), given_in(states, calls)),
    decreases calls.len(),
{
    if calls.len() > 0 {
        let n = calls.len() - 1;
        let (ss, cs) = (states.drop_last(), calls.drop_last());
        assert forall|k: int| 0 <= k < cs.len() implies (#[trigger] cs[k]).takes(
            ss[k],
            ss[k + 1],
            gap,
            ease,
        ) by {
            assert(calls[k].takes(states[k], states[k + 1], gap, ease));
        }
        lemma_history_follows(ss, cs, gap, ease);
        let (pre, post) = (states[n], states[n + 1]);
        let given = given_in(ss, cs);
        assert(ss.last() == pre);
        assert(calls[n].takes(pre, post, gap, ease));
        match calls[n] {
            Call::NextPeriod(parity) => {
                let fresh = |t: TrackState<F, X>| pre.period + 1 - t.last_period <= MAX_AGE;
                lemma_filter_follows(pre.tracks, given, fresh);
                assert(post.tracks == pre.tracks.filter(fresh));
            },
            Call::Add(samples, idxs) => {
                lemma_run_follows(pre, given, samples, idxs, post, gap, ease);
            },
            Call::NoteDecode(idx, msg) => {
                assert forall|i: int| 0 <= i < given.len() implies (#[trigger] given[i]).len() >= 1
                    && post.tracks[i].window == latest(given[i]) by {
                    assert(post.tracks[i].window == pre.tracks[i].window);
                }
            },
        }
    }
}

/// The touched tracks are reported once each, and exactly those that took a
/// sample.
pub proof fn lemma_touched_once(idxs: Seq<usize>)
    ensures
        first_seen(idxs).no_duplicates(),
        forall|x: usize| first_seen(idxs).contains(x) <==> idxs.contains(x),
    decreases idxs.len(),
{
    if idxs.len() > 0 {
        let before = idxs.drop_last();
        lemma_touched_once(before);
        assert(idxs == before.push(idxs.last()));
        let seen = first_seen(before);
        assert forall|x: usize| first_seen(idxs).contains(x) <==> idxs.contains(x) by {
            assert(idxs.contains(x) <==> before.contains(x) || x == idxs.last()) by {
                if before.contains(x) {
                    let j = before.index_of(x);
                    assert(idxs[j] == x);
                }
                if x == idxs.last() {
                    assert(idxs[idxs.len() - 1] == x);
                }
            }
            if !seen.contains(idxs.last()) {
                assert(seen.push(idxs.last()).contains(x) <==> seen.contains(x) || x
                    == idxs.last()) by {
                    if seen.contains(x) {
                        let j = seen.index_of(x);
                        assert(seen.push(idxs.last())[j] == x);
                    }
                    if x == idxs.last() {
                        assert(seen.push(idxs.last())[seen.len() as int] == x);
                    }
                }
            }
        }
    }
}

/// Starting a period keeps the invariant, drops every track that went more
/// than [`MAX_AGE`] periods without an update, and keeps all others.
pub proof fn lemma_stale_tracks_are_dropped<F, X>(pre: AccState<F, X>, parity: u8)
    requires
        pre.ok(),
    ensures
        pre.advanced(parity).ok(),
        forall|t: TrackState<F, X>|
            #[trigger] pre.advanced(parity).tracks.contains(t) <==> {
                &&& pre.tracks.contains(t)
                &&& pre.period + 1 - t.last_period <= MAX_AGE
            },
{
    let post = pre.advanced(parity);
    let fresh = |t: TrackState<F, X>| pre.period + 1 - t.last_period <= MAX_AGE;
    assert(post.tracks == pre.tracks.filter(fresh));
    assert forall|i: int| 0 <= i < post.tracks.len() implies pre.tracks.contains(
        #[trigger] post.tracks[i],
    ) && fresh(post.tracks[i]) by {
        crate::seqs::lemma_filter_kept(pre.tracks, fresh, i);
    }
    assert forall|t: TrackState<F, X>| pre.tracks.contains(t) && fresh(t) implies post.tracks.contains(
        t,
    ) by {
        let j = pre.tracks.index_of(t);
        broadcast use vstd::seq_lib::group_filter_ensures;

        assert(fresh(pre.tracks[j]));
    }
}

/// The state after as many further periods as `parities` has entries, with
/// nothing added in any of them.
pub open spec fn idle<F, X>(pre: AccState<F, X>, parities: Seq<u8>) -> AccState<F, X>
    decreases parities.len(),
{
    if parities.len() == 0 {
        pre
    } else {
        idle(pre, parities.drop_last()).advanced(parities.last())
    }
}

proof fn lemma_idle_ages<F, X>(pre: AccState<F, X>, parities: Seq<u8>)
    requires
        pre.ok(),
    ensures
        idle(pre, parities).ok(),
        idle(pre, parities).period == pre.period + parities.len(),
        forall|t: TrackState<F, X>| #[trigger]
            idle(pre, parities).tracks.contains(t) ==> t.last_period <= pre.period,
    decreases parities.len(),
{
    if parities.len() > 0 {
        let mid = idle(pre, parities.drop_last());
        lemma_idle_ages(pre, parities.drop_last());
        lemma_stale_tracks_are_dropped(mid, parities.last());
    } else {
        assert forall|t: TrackState<F, X>| #[trigger] pre.tracks.contains(t) implies t.last_period
            <= pre.period by {
            let j = pre.tracks.index_of(t);
            assert(pre.tracks[j] == t);
        }
    }
}

/// Nothing is followed for ever: once more than [`MAX_AGE`] periods have gone
/// by without a sample, no track is left.
pub proof fn lemma_silence_clears_everything<F, X>(pre: AccState<F, X>, parities: Seq<u8>)
    requires
        pre.ok(),
        parities.len() > MAX_AGE,
    ensures
        idle(pre, parities).tracks.len() == 0,
{
    let post = idle(pre, parities);
    let mid = idle(pre, parities.drop_last());
    lemma_idle_ages(pre, parities);
    lemma_idle_ages(pre, parities.drop_last());
    lemma_stale_tracks_are_dropped(mid, parities.last());
    if post.tracks.len() > 0 {
        assert(post.tracks.contains(post.tracks[0]));
    }
}

/// A message repeated for a track is not news, and a different one is.
pub proof fn lemma_only_changes_are_news<F, X>(
    s: AccState<F, X>,
    idx: int,
    msg: Seq<char>,
    next: Seq<char>,
)
    requires
        0 <= idx < s.tracks.len(),
    ensures
        s.noted(idx, msg).is_news(idx, next) <==> next != msg,
{
}

/// There is one nearest track, or none.
pub proof fn lemma_nearest_is_unique(
    gaps: Seq<Option<(u32, u32)>>,
    a: Option<usize>,
    b: Option<usize>,
)
    requires
        is_nearest(gaps, a),
        is_nearest(gaps, b),
    ensures
        a == b,
{
    match (a, b) {
        (Some(i), Some(j)) => {
            assert(within(gaps[i as int]));
            assert(within(gaps[j as int]));
        },
        (Some(i), None) => {
            assert(within(gaps[i as int]));
        },
        (None, Some(j)) => {
            assert(within(gaps[j as int]));
        },
        (None, None) => {},
    }
}

} // verus!
