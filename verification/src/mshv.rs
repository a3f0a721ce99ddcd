//! Soft-decision decoding with accumulation.
//!
//! The engine decodes a slot single-shot and hands over one LLR vector per
//! candidate. [`MshvDecoder`] keeps those, follows them across periods in an
//! [`Accumulator`], and has the LDPC decoder try the sums: signals seen
//! weakly across several periods surface that the single-shot path misses.
//!
//! The engine is the caller's. Its LDPC decoder is passed in as a function
//! from a 174-element LLR vector to the message, if the vector decodes to a
//! CRC-valid codeword.

use vstd::prelude::*;
use crate::accumulate::{Accumulator, LlrSample, LLR_LEN};
use crate::decoder::{Decode, DecodeSource};
use crate::seqs::copy_range;
use crate::store::PeriodSoft;
use crate::time::UtcTime;

verus! {

/// One message that the engine found in a slot.
pub struct Found<F> {
    /// Signal-to-noise estimate, dB.
    pub snr_db: i32,
    /// Time offset of the signal, seconds.
    pub dt: F,
    /// Audio frequency, Hz.
    pub freq_hz: F,
    /// Decoded message text.
    pub message: String,
}

/// The decode that a message found in the slot at `utc` makes.
pub open spec fn decode_found<F>(f: Found<F>, utc: UtcTime) -> crate::decoder::DecodeData<F> {
    crate::decoder::DecodeData {
        utc,
        snr_db: f.snr_db,
        dt: f.dt,
        freq_hz: f.freq_hz,
        message: f.message@,
        source: DecodeSource::SingleShot,
        contrib_tags: seq![],
    }
}

/// The single-shot decodes of the slot at `utc`, in the order in which the
/// engine found them.
pub fn single_shot<F: Copy>(found: &[Found<F>], utc: UtcTime) -> (out: Vec<Decode<F>>)
    ensures
        crate::decoder::said(out@) == found@.map_values(|f: Found<F>| decode_found(f, utc)),
{
    let ghost all = found@.map_values(|f: Found<F>| decode_found(f, utc));
    let mut out: Vec<Decode<F>> = Vec::new();
    let mut k: usize = 0;
    while k < found.len()
        invariant
            k <= found@.len(),
            all == found@.map_values(|f: Found<F>| decode_found(f, utc)),
            crate::decoder::said(out@) == all.take(k as int),
        decreases found@.len() - k,
    {
        let f = &found[k];
        let ghost before = crate::decoder::said(out@);
        let d = Decode {
            utc,
            snr_db: f.snr_db,
            dt: f.dt,
            freq_hz: f.freq_hz,
            message: f.message.as_str().to_owned(),
            source: DecodeSource::SingleShot,
            contrib_tags: Vec::new(),
        };
        assert(d@ == all[k as int]);
        out.push(d);
        assert(crate::decoder::said(out@) == before.push(all[k as int]));
        k += 1;
    }
    assert(all.take(k as int) == all);
    out
}

/// Bookkeeping of a soft-decision decoder.
pub struct MshvDecoder<F, X> {
    acc: Accumulator<F, X>,
    /// Soft-LLR evidence from the most recent slot, awaiting collection. One
    /// entry per candidate.
    period_soft: Vec<PeriodSoft<F, X>>,
    /// The most recent slot's LLR samples, in the order of `period_soft`.
    pending_samples: Vec<LlrSample<F, X>>,
    /// Messages found single-shot in the most recent slot, so that the
    /// accumulated path does not report them a second time.
    pending_single: Vec<String>,
    /// UTC of the most recent slot.
    pending_utc: UtcTime,
}

/// What a [`MshvDecoder`] holds.
#[verifier::ext_equal]
pub struct MshvState<F, X> {
    pub acc: crate::accumulate::AccState<F, X>,
    pub soft: Seq<PeriodSoft<F, X>>,
    pub samples: Seq<LlrSample<F, X>>,
    pub single: Seq<Seq<char>>,
    pub utc: UtcTime,
}

impl<F, X> View for MshvDecoder<F, X> {
    type V = MshvState<F, X>;

    closed spec fn view(&self) -> MshvState<F, X> {
        MshvState {
            acc: self.acc@,
            soft: self.period_soft@,
            samples: self.pending_samples@,
            single: self.pending_single@.map_values(|m: String| m@),
            utc: self.pending_utc,
        }
    }
}

/// Slot-sequence parity: 0 for an even UTC slot (:00/:30), 1 for an odd one.
pub open spec fn parity_of(utc: UtcTime) -> int {
    crate::time::slot_index(utc.secs as int) % 2
}

/// Whether vector `llr` decodes on its own can come out as `r`.
pub open spec fn decodes_as<X, L: Fn([X; LLR_LEN]) -> Option<String>>(
    llr: Seq<X>,
    ldpc: L,
    r: bool,
) -> bool {
    if llr.len() != LLR_LEN {
        !r
    } else {
        exists|v: [X; LLR_LEN], msg: Option<String>|
            v@ == llr && #[trigger] call_ensures(ldpc, (v,), msg) && r == (msg is Some)
    }
}

/// `p` is the soft evidence of candidate `s` in the slot at `utc`.
pub open spec fn evidence_of<F, X, L: Fn([X; LLR_LEN]) -> Option<String>>(
    p: PeriodSoft<F, X>,
    s: LlrSample<F, X>,
    utc: UtcTime,
    ldpc: L,
) -> bool {
    &&& p.utc == utc
    &&& p.freq_hz == s.freq_hz
    &&& p.dt == s.dt
    &&& p.sync == s.sync
    &&& p.llr@ == s.llr@
    &&& decodes_as(s.llr@, ldpc, p.decoded)
}

/// Sample `s` with another tag.
pub open spec fn tagged<F, X>(s: LlrSample<F, X>, tag: i64) -> LlrSample<F, X> {
    LlrSample { tag, ..s }
}

/// The decode that track `idx` gives rise to when its sum decodes as `msg`.
pub open spec fn decode_of<F, X>(
    acc: crate::accumulate::AccState<F, X>,
    idx: int,
    msg: Seq<char>,
    utc: UtcTime,
) -> crate::decoder::DecodeData<F> {
    let t = acc.tracks[idx];
    crate::decoder::DecodeData {
        utc,
        snr_db: 0,
        dt: t.dt,
        freq_hz: t.freq_hz,
        message: msg,
        source: DecodeSource::Accumulated(t.window.len() as u32),
        contrib_tags: t.tags(),
    }
}

/// What comes of track `idx` when its sum decodes as `msg`: the message is
/// noted for the track, and reported unless it was found single-shot in this
/// slot or is what the track reported last.
pub open spec fn accepted<F, X>(
    acc: crate::accumulate::AccState<F, X>,
    idx: int,
    msg: Seq<char>,
    single: Seq<Seq<char>>,
    utc: UtcTime,
) -> (crate::accumulate::AccState<F, X>, Option<crate::decoder::DecodeData<F>>) {
    let report = !single.contains(msg) && acc.is_news(idx, msg);
    (
        acc.noted(idx, msg),
        if report {
            Some(decode_of(acc, idx, msg, utc))
        } else {
            None
        },
    )
}

/// `sum` is the accumulated LLR vector of a track with this window.
pub open spec fn sums_up<X, P: Fn(X, X) -> X>(
    window: Seq<(i64, Seq<X>)>,
    zero: X,
    plus: P,
    sum: Seq<X>,
) -> bool {
    &&& sum.len() == LLR_LEN
    &&& forall|i: int|
        0 <= i < LLR_LEN ==> crate::accumulate::adds_up(
            zero,
            crate::accumulate::column(window, i),
            plus,
            #[trigger] sum[i],
        )
}

/// The LDPC decoder was given the sum of a track with this window and came
/// back with `msg`.
pub open spec fn tried<X, P: Fn(X, X) -> X, L: Fn([X; LLR_LEN]) -> Option<String>>(
    window: Seq<(i64, Seq<X>)>,
    zero: X,
    plus: P,
    ldpc: L,
    sum: [X; LLR_LEN],
    msg: Option<String>,
) -> bool {
    &&& sums_up(window, zero, plus, sum@)
    &&& call_ensures(ldpc, (sum,), msg)
}

/// Re-decoding track `idx` takes the accumulator from `pre` to `post` and
/// gives `out`. A track with a single period has nothing to combine.
pub open spec fn redecoded<F, X, P: Fn(X, X) -> X, L: Fn([X; LLR_LEN]) -> Option<String>>(
    pre: crate::accumulate::AccState<F, X>,
    idx: int,
    post: crate::accumulate::AccState<F, X>,
    out: Option<crate::decoder::DecodeData<F>>,
    zero: X,
    plus: P,
    ldpc: L,
    single: Seq<Seq<char>>,
    utc: UtcTime,
) -> bool {
    if pre.tracks[idx].window.len() < 2 {
        post == pre && out is None
    } else {
        exists|sum: [X; LLR_LEN], msg: Option<String>|
            {
                &&& #[trigger] tried(pre.tracks[idx].window, zero, plus, ldpc, sum, msg)
                &&& match msg {
                    Some(m) => (post, out) == accepted(pre, idx, m@, single, utc),
                    None => post == pre && out is None,
                }
            }
    }
}

/// Re-decoding the tracks `idxs` in order takes the accumulator from `pre` to
/// `post` and gives the decodes `out`.
pub open spec fn redecoded_all<F, X, P: Fn(X, X) -> X, L: Fn([X; LLR_LEN]) -> Option<String>>(
    pre: crate::accumulate::AccState<F, X>,
    idxs: Seq<usize>,
    post: crate::accumulate::AccState<F, X>,
    out: Seq<crate::decoder::DecodeData<F>>,
    zero: X,
    plus: P,
    ldpc: L,
    single: Seq<Seq<char>>,
    utc: UtcTime,
) -> bool
    decreases idxs.len(),
{
    if idxs.len() == 0 {
        post == pre && out.len() == 0
    } else {
        exists|
            mid: crate::accumulate::AccState<F, X>,
            before: Seq<crate::decoder::DecodeData<F>>,
            last: Option<crate::decoder::DecodeData<F>>,
        |
            {
                &&& redecoded_all(
                    pre,
                    idxs.drop_last(),
                    mid,
                    before,
                    zero,
                    plus,
                    ldpc,
                    single,
                    utc,
                )
                &&& redecoded(mid, idxs.last() as int, post, last, zero, plus, ldpc, single, utc)
                &&& out == #[trigger] with_last(mid, before, last)
            }
    }
}

/// `before` with `last` behind it, if there is one; `mid` is the state in
/// between.
pub open spec fn with_last<F, X>(
    mid: crate::accumulate::AccState<F, X>,
    before: Seq<crate::decoder::DecodeData<F>>,
    last: Option<crate::decoder::DecodeData<F>>,
) -> Seq<crate::decoder::DecodeData<F>> {
    match last {
        Some(d) => before.push(d),
        None => before,
    }
}

/// The samples, each tagged with the id of its period.
pub open spec fn all_tagged<F, X>(samples: Seq<LlrSample<F, X>>, ids: Seq<i64>) -> Seq<
    LlrSample<F, X>,
> {
    Seq::new(samples.len(), |k: int| tagged(samples[k], ids[k]))
}

/// Accumulating the slot held in `pre` ends with the accumulator in state
/// `post` and gives the decodes `out`: a period of the slot's parity begins,
/// the tagged samples go into the tracks `idxs` and leave state `mid`, and
/// each track that took one is re-decoded once.
pub open spec fn accumulated_via<
    F,
    X,
    G: Fn(F, F) -> u32,
    E: Fn(F, F) -> F,
    P: Fn(X, X) -> X,
    L: Fn([X; LLR_LEN]) -> Option<String>,
>(
    pre: MshvState<F, X>,
    ids: Seq<i64>,
    post: crate::accumulate::AccState<F, X>,
    out: Seq<crate::decoder::DecodeData<F>>,
    idxs: Seq<usize>,
    mid: crate::accumulate::AccState<F, X>,
    gap: G,
    ease: E,
    zero: X,
    plus: P,
    ldpc: L,
) -> bool {
    &&& pre.acc.advanced(parity_of(pre.utc) as u8).add_run(
        all_tagged(pre.samples, ids),
        idxs,
        mid,
        gap,
        ease,
    )
    &&& redecoded_all(
        mid,
        crate::accumulate::first_seen(idxs),
        post,
        out,
        zero,
        plus,
        ldpc,
        pre.single,
        pre.utc,
    )
}

/// Whether `list` holds `text`.
fn holds(list: &Vec<String>, text: &String) -> (r: bool)
    ensures
        r == list@.map_values(|m: String| m@).contains(text@),
{
    let ghost texts = list@.map_values(|m: String| m@);
    let mut i: usize = 0;
    while i < list.len()
        invariant
            i <= list@.len(),
            texts == list@.map_values(|m: String| m@),
            forall|j: int| 0 <= j < i ==> #[trigger] texts[j] != text@,
        decreases list@.len() - i,
    {
        assert(texts[i as int] == list@[i as int]@);
        if list[i] == *text {
            return true;
        }
        i += 1;
    }
    false
}

impl<F: Copy, X: Copy> MshvDecoder<F, X> {
    /// A decoder that has seen no slot yet; `now` stands in for its time.
    pub fn new(now: UtcTime) -> (res: Self)
        ensures
            res@ == (MshvState::<F, X> {
                acc: crate::accumulate::AccState { tracks: seq![], period: 0, parity: 0 },
                soft: seq![],
                samples: seq![],
                single: seq![],
                utc: now,
            }),
    {
        MshvDecoder {
            acc: Accumulator::new(),
            period_soft: Vec::new(),
            pending_samples: Vec::new(),
            pending_single: Vec::new(),
            pending_utc: now,
        }
    }

    /// Run the LDPC decoder on a single LLR vector.
    ///
    /// Returns `true` if the vector has full length and decodes to a
    /// CRC-valid FT8 codeword, i.e. if this soft evidence would decode
    /// single-shot on its own.
    pub fn llr_decodes<L: Fn([X; LLR_LEN]) -> Option<String>>(llr: &[X], ldpc: &L) -> (r: bool)
        requires
            forall|v: [X; LLR_LEN]| call_requires(*ldpc, (v,)),
        ensures
            decodes_as(llr@, *ldpc, r),
    {
        if llr.len() != LLR_LEN {
            return false;
        }
        let mut v: [X; LLR_LEN] = [llr[0]; LLR_LEN];
        let mut i: usize = 0;
        while i < LLR_LEN
            invariant
                i <= LLR_LEN,
                llr@.len() == LLR_LEN,
                forall|j: int| 0 <= j < i ==> #[trigger] v@[j] == llr@[j],
            decreases LLR_LEN - i,
        {
            v[i] = llr[i];
            i += 1;
        }
        assert(v@ == llr@);
        let msg = ldpc(v);
        assert(call_ensures(*ldpc, (v,), msg));
        msg.is_some()
    }

    /// Takes in the outcome of a single-shot decode of the slot at `utc`: its
    /// decodes and the LLR samples of its candidates.
    ///
    /// One piece of soft evidence is kept per candidate. Its `decoded` flag
    /// means that the period's own soft evidence decodes single-shot, so it
    /// is determined by running the LDPC decoder on each LLR vector.
    pub fn note_slot<L: Fn([X; LLR_LEN]) -> Option<String>>(
        &mut self,
        utc: UtcTime,
        decodes: &[Decode<F>],
        samples: Vec<LlrSample<F, X>>,
        ldpc: L,
    )
        requires
            forall|v: [X; LLR_LEN]| call_requires(ldpc, (v,)),
        ensures
            final(self)@.acc == old(self)@.acc,
            final(self)@.soft.len() == samples@.len(),
            forall|k: int|
                0 <= k < samples@.len() ==> evidence_of(
                    #[trigger] final(self)@.soft[k],
                    samples@[k],
                    utc,
                    ldpc,
                ),
            final(self)@.samples == samples@,
            final(self)@.single == decodes@.map_values(|d: Decode<F>| d@.message),
            final(self)@.utc == utc,
    {
        let mut soft: Vec<PeriodSoft<F, X>> = Vec::new();
        let mut k: usize = 0;
        while k < samples.len()
            invariant
                k <= samples@.len(),
                soft@.len() == k,
                forall|v: [X; LLR_LEN]| call_requires(ldpc, (v,)),
                forall|j: int|
                    0 <= j < k ==> evidence_of(#[trigger] soft@[j], samples@[j], utc, ldpc),
            decreases samples@.len() - k,
        {
            let s = &samples[k];
            let llr = copy_range(s.llr.as_slice(), 0, LLR_LEN);
            assert(llr@ == s.llr@);
            let decoded: bool = Self::llr_decodes(llr.as_slice(), &ldpc);
            soft.push(
                PeriodSoft { utc, freq_hz: s.freq_hz, dt: s.dt, sync: s.sync, llr, decoded },
            );
            k += 1;
        }
        let mut single: Vec<String> = Vec::new();
        let mut i: usize = 0;
        while i < decodes.len()
            invariant
                i <= decodes@.len(),
                single@.map_values(|m: String| m@) == decodes@.map_values(
                    |d: Decode<F>| d@.message,
                ).take(i as int),
            decreases decodes@.len() - i,
        {
            let ghost before = single@.map_values(|m: String| m@);
            let m = decodes[i].message.clone();
            single.push(m);
            assert(single@.map_values(|m: String| m@) == before.push(decodes@[i as int]@.message));
            i += 1;
        }
        self.period_soft = soft;
        self.pending_samples = samples;
        self.pending_single = single;
        self.pending_utc = utc;
    }

    /// Drain the soft-LLR evidence of the most recent slot.
    pub fn take_period_soft(&mut self) -> (soft: Vec<PeriodSoft<F, X>>)
        ensures
            soft@ == old(self)@.soft,
            final(self)@ == (MshvState { soft: seq![], ..old(self)@ }),
    {
        let mut soft: Vec<PeriodSoft<F, X>> = Vec::new();
        std::mem::swap(&mut soft, &mut self.period_soft);
        soft
    }

    /// Takes in that the sum of track `idx` decoded as `msg`: notes the
    /// message for the track, and gives the decode to report, if it is one.
    pub fn accept(&mut self, idx: usize, msg: String, single: &Vec<String>, utc: UtcTime) -> (res:
        Option<Decode<F>>)
        requires
            idx < old(self)@.acc.tracks.len(),
        ensures
            ({
                let (acc, out) = accepted(
                    old(self)@.acc,
                    idx as int,
                    msg@,
                    single@.map_values(|m: String| m@),
                    utc,
                );
                &&& final(self)@ == (MshvState { acc, ..old(self)@ })
                &&& match res {
                    Some(d) => out == Some(d@),
                    None => out is None,
                }
            }),
    {
        let depth: usize = self.acc.depth(idx);
        let dt = self.acc.track_dt(idx);
        let freq_hz = self.acc.track_freq(idx);
        let contrib_tags = self.acc.track_tags(idx);
        let is_new: bool = self.acc.note_decode(idx, msg.as_str());
        if holds(single, &msg) || !is_new {
            return None;
        }
        let d = Decode {
            utc,
            snr_db: 0,
            dt,
            freq_hz,
            message: msg,
            source: DecodeSource::Accumulated(depth as u32),
            contrib_tags,
        };
        Some(d)
    }

    /// Run cross-period accumulation for the slot just taken in.
    ///
    /// `period_ids` are the row ids of its soft evidence, in order; they
    /// become the tags of its samples. If their number differs from that of
    /// the samples, no links could be made, so accumulation is skipped for
    /// this slot. Returns the decodes recovered only by accumulation.
    pub fn run_accumulation<
        G: Fn(F, F) -> u32,
        E: Fn(F, F) -> F,
        P: Fn(X, X) -> X,
        L: Fn([X; LLR_LEN]) -> Option<String>,
    >(&mut self, period_ids: &[i64], gap: G, ease: E, zero: X, plus: P, ldpc: L) -> (out: Vec<
        Decode<F>,
    >)
        requires
            old(self)@.acc.period < u64::MAX,
            forall|a: F, b: F| call_requires(gap, (a, b)),
            forall|a: F, b: F| call_requires(ease, (a, b)),
            forall|a: X, b: X| call_requires(plus, (a, b)),
            forall|v: [X; LLR_LEN]| call_requires(ldpc, (v,)),
        ensures
            period_ids@.len() != old(self)@.samples.len() ==> {
                &&& out@.len() == 0
                &&& final(self)@ == (MshvState { samples: seq![], ..old(self)@ })
            },
            period_ids@.len() == old(self)@.samples.len() ==> {
                &&& exists|idxs: Seq<usize>, mid: crate::accumulate::AccState<F, X>| #[trigger]
                    accumulated_via(
                        old(self)@,
                        period_ids@,
                        final(self)@.acc,
                        crate::decoder::said(out@),
                        idxs,
                        mid,
                        gap,
                        ease,
                        zero,
                        plus,
                        ldpc,
                    )
                &&& final(self)@ == (MshvState {
                    acc: final(self)@.acc,
                    samples: seq![],
                    single: seq![],
                    ..old(self)@
                })
            },
    {
        let ghost before = self@;
        let mut samples: Vec<LlrSample<F, X>> = Vec::new();
        std::mem::swap(&mut samples, &mut self.pending_samples);
        let mut out: Vec<Decode<F>> = Vec::new();
        if period_ids.len() != samples.len() {
            return out;
        }
        let mut k: usize = 0;
        while k < samples.len()
            invariant
                k <= samples@.len(),
                samples@.len() == before.samples.len(),
                period_ids@.len() == samples@.len(),
                forall|j: int|
                    0 <= j < k ==> #[trigger] samples@[j] == tagged(
                        before.samples[j],
                        period_ids@[j],
                    ),
                forall|j: int|
                    k <= j < samples@.len() ==> #[trigger] samples@[j] == before.samples[j],
            decreases samples@.len() - k,
        {
            samples[k].tag = period_ids[k];
            k += 1;
        }
        assert(samples@ == all_tagged(before.samples, period_ids@));
        let mut single: Vec<String> = Vec::new();
        std::mem::swap(&mut single, &mut self.pending_single);
        let utc: UtcTime = self.pending_utc;
        let parity: u8 = crate::time::floor_div_mod(utc.slot(), 2).1 as u8;
        self.acc.next_period(parity);
        let ghost pre = self.acc@;
        let touched = self.acc.add(samples.as_slice(), gap, ease);
        let ghost mid = self.acc@;
        let mut n: usize = 0;
        while n < touched.len()
            invariant
                n <= touched@.len(),
                before.single == single@.map_values(|m: String| m@),
                utc == before.utc,
                self@.soft == before.soft,
                self@.samples.len() == 0,
                self@.single.len() == 0,
                self@.utc == before.utc,
                self@.acc.tracks.len() == mid.tracks.len(),
                forall|a: X, b: X| call_requires(plus, (a, b)),
                forall|v: [X; LLR_LEN]| call_requires(ldpc, (v,)),
                forall|k: int|
                    0 <= k < touched@.len() ==> (#[trigger] touched@[k]) < mid.tracks.len(),
                redecoded_all(
                    mid,
                    touched@.take(n as int),
                    self@.acc,
                    crate::decoder::said(out@),
                    zero,
                    plus,
                    ldpc,
                    before.single,
                    utc,
                ),
            decreases touched@.len() - n,
        {
            let idx: usize = touched[n];
            let ghost acc = self@.acc;
            let ghost done = crate::decoder::said(out@);
            let ghost mut last: Option<crate::decoder::DecodeData<F>> = None;
            let depth: usize = self.acc.depth(idx);
            if depth >= 2 {
                let sum = self.acc.summed_llr(idx, zero, &plus);
                assert(sums_up(acc.tracks[idx as int].window, zero, plus, sum@));
                let msg = ldpc(sum);
                let ghost came = msg;
                assert(tried(acc.tracks[idx as int].window, zero, plus, ldpc, sum, came));
                if let Some(m) = msg {
                    let res = self.accept(idx, m, &single, utc);
                    if let Some(d) = res {
                        proof {
                            last = Some(d@);
                        }
                        out.push(d);
                    }
                }
            }
            proof {
                assert(redecoded(
                    acc,
                    idx as int,
                    self@.acc,
                    last,
                    zero,
                    plus,
                    ldpc,
                    before.single,
                    utc,
                ));
                let more = touched@.take(n + 1);
                assert(more.drop_last() == touched@.take(n as int));
                assert(more.last() == idx);
                assert(crate::decoder::said(out@) == with_last(acc, done, last));
            }
            n += 1;
        }
        proof {
            assert(touched@.take(n as int) == touched@);
            let idxs = choose|idxs: Seq<usize>|
                {
                    &&& #[trigger] pre.add_run(samples@, idxs, mid, gap, ease)
                    &&& touched@ == crate::accumulate::first_seen(idxs)
                };
            assert(accumulated_via(
                before,
                period_ids@,
                self@.acc,
                crate::decoder::said(out@),
                idxs,
                mid,
                gap,
                ease,
                zero,
                plus,
                ldpc,
            ));
        }
        out
    }

    /// Number of slots accumulated so far.
    pub fn periods(&self) -> (n: u64)
        ensures
            n == self@.acc.period,
    {
        self.acc.periods()
    }
}

/// `d` is an accumulated decode of one of the tracks `idxs`: it combines at
/// least two and at most [`WINDOW`](crate::accumulate::WINDOW) periods, names
/// exactly those that the track's window holds, carries no SNR, and was not
/// found single-shot.
pub open spec fn is_combined<F, X>(
    d: crate::decoder::DecodeData<F>,
    acc: crate::accumulate::AccState<F, X>,
    idxs: Seq<usize>,
    single: Seq<Seq<char>>,
    utc: UtcTime,
) -> bool {
    &&& d.utc == utc
    &&& d.snr_db == 0
    &&& 2 <= d.contrib_tags.len() <= crate::accumulate::WINDOW
    &&& d.source == DecodeSource::Accumulated(d.contrib_tags.len() as u32)
    &&& !single.contains(d.message)
    &&& exists|j: int|
        0 <= j < idxs.len() && d.contrib_tags == acc.tracks[(#[trigger] idxs[j]) as int].tags()
}

/// Two states whose tracks differ in nothing but what was reported last.
pub open spec fn same_windows<F, X>(
    a: crate::accumulate::AccState<F, X>,
    b: crate::accumulate::AccState<F, X>,
) -> bool {
    &&& a.period == b.period
    &&& a.parity == b.parity
    &&& a.tracks.len() == b.tracks.len()
    &&& forall|i: int|
        0 <= i < a.tracks.len() ==> {
            let s = #[trigger] a.tracks[i];
            let t = b.tracks[i];
            &&& s.freq_hz == t.freq_hz
            &&& s.dt == t.dt
            &&& s.window == t.window
            &&& s.last_period == t.last_period
            &&& s.parity == t.parity
        }
}

/// Re-decoding moves no evidence: it leaves every window as it was, keeps
/// the invariant, and every decode that it gives is combined from the
/// periods of one of the tracks.
pub proof fn lemma_redecoding_is_sound<
    F,
    X,
    P: Fn(X, X) -> X,
    L: Fn([X; LLR_LEN]) -> Option<String>,
>(
    pre: crate::accumulate::AccState<F, X>,
    idxs: Seq<usize>,
    post: crate::accumulate::AccState<F, X>,
    out: Seq<crate::decoder::DecodeData<F>>,
    zero: X,
    plus: P,
    ldpc: L,
    single: Seq<Seq<char>>,
    utc: UtcTime,
)
    requires
        pre.ok(),
        forall|k: int| 0 <= k < idxs.len() ==> (#[trigger] idxs[k]) < pre.tracks.len(),
        redecoded_all(pre, idxs, post, out, zero, plus, ldpc, single, utc),
    ensures
        post.ok(),
        same_windows(pre, post),
        out.len() <= idxs.len(),
        forall|k: int| 0 <= k < out.len() ==> is_combined(#[trigger] out[k], pre, idxs, single, utc),
    decreases idxs.len(),
{
    if idxs.len() > 0 {
        let shorter = idxs.drop_last();
        let (mid, before, last) = choose|
            mid: crate::accumulate::AccState<F, X>,
            before: Seq<crate::decoder::DecodeData<F>>,
            last: Option<crate::decoder::DecodeData<F>>,
        |
            {
                &&& redecoded_all(
                    pre,
                    idxs.drop_last(),
                    mid,
                    before,
                    zero,
                    plus,
                    ldpc,
                    single,
                    utc,
                )
                &&& redecoded(mid, idxs.last() as int, post, last, zero, plus, ldpc, single, utc)
                &&& out == #[trigger] with_last(mid, before, last)
            };
        assert forall|k: int| 0 <= k < shorter.len() implies (#[trigger] shorter[k])
            < pre.tracks.len() by {
            assert(shorter[k] == idxs[k]);
        }
        lemma_redecoding_is_sound(
            pre,
            shorter,
            mid,
            before,
            zero,
            plus,
            ldpc,
            single,
            utc,
        );
        let idx = idxs.last() as int;
        assert(idxs[idxs.len() - 1] == idx);
        assert(mid.tracks[idx].window == pre.tracks[idx].window);
        assert forall|k: int| 0 <= k < out.len() implies is_combined(
            #[trigger] out[k],
            pre,
            idxs,
            single,
            utc,
        ) by {
            if k < before.len() {
                assert(is_combined(before[k], pre, shorter, single, utc));
                let j = choose|j: int|
                    0 <= j < shorter.len() && before[k].contrib_tags == pre.tracks[(
                    #[trigger] shorter[j]) as int].tags();
                assert(idxs[j] == shorter[j]);
            } else {
                assert(out[k].contrib_tags == pre.tracks[idxs[idxs.len() - 1] as int].tags());
            }
        }
    }
}

/// The LDPC decoder was given the sum of one of the tracks `idxs` and came
/// back with `message`.
pub open spec fn vouched_for<F, X, P: Fn(X, X) -> X, L: Fn([X; LLR_LEN]) -> Option<String>>(
    message: Seq<char>,
    acc: crate::accumulate::AccState<F, X>,
    idxs: Seq<usize>,
    zero: X,
    plus: P,
    ldpc: L,
) -> bool {
    exists|j: int, sum: [X; LLR_LEN], msg: Option<String>|
        {
            &&& 0 <= j < idxs.len()
            &&& #[trigger] tried(
                acc.tracks[idxs[j] as int].window,
                zero,
                plus,
                ldpc,
                sum,
                msg,
            )
            &&& msg matches Some(m)
            &&& m@ == message
        }
}

/// The LDPC decoder, and the CRC check in it, is the sole arbiter: no message
/// is reported that it did not give for the very sum of a track. A sum that
/// spans a message change just fails and is never emitted.
pub proof fn lemma_ldpc_is_the_sole_arbiter<
    F,
    X,
    P: Fn(X, X) -> X,
    L: Fn([X; LLR_LEN]) -> Option<String>,
>(
    pre: crate::accumulate::AccState<F, X>,
    idxs: Seq<usize>,
    post: crate::accumulate::AccState<F, X>,
    out: Seq<crate::decoder::DecodeData<F>>,
    zero: X,
    plus: P,
    ldpc: L,
    single: Seq<Seq<char>>,
    utc: UtcTime,
)
    requires
        pre.ok(),
        forall|k: int| 0 <= k < idxs.len() ==> (#[trigger] idxs[k]) < pre.tracks.len(),
        redecoded_all(pre, idxs, post, out, zero, plus, ldpc, single, utc),
    ensures
        forall|k: int|
            0 <= k < out.len() ==> vouched_for(
                (#[trigger] out[k]).message,
                pre,
                idxs,
                zero,
                plus,
                ldpc,
            ),
    decreases idxs.len(),
{
    if idxs.len() > 0 {
        let shorter = idxs.drop_last();
        let (mid, before, last) = choose|
            mid: crate::accumulate::AccState<F, X>,
            before: Seq<crate::decoder::DecodeData<F>>,
            last: Option<crate::decoder::DecodeData<F>>,
        |
            {
                &&& redecoded_all(
                    pre,
                    idxs.drop_last(),
                    mid,
                    before,
                    zero,
                    plus,
                    ldpc,
                    single,
                    utc,
                )
                &&& redecoded(mid, idxs.last() as int, post, last, zero, plus, ldpc, single, utc)
                &&& out == #[trigger] with_last(mid, before, last)
            };
        assert forall|k: int| 0 <= k < shorter.len() implies (#[trigger] shorter[k])
            < pre.tracks.len() by {
            assert(shorter[k] == idxs[k]);
        }
        lemma_ldpc_is_the_sole_arbiter(
            pre,
            shorter,
            mid,
            before,
            zero,
            plus,
            ldpc,
            single,
            utc,
        );
        lemma_redecoding_is_sound(pre, shorter, mid, before, zero, plus, ldpc, single, utc);
        let idx = idxs.last() as int;
        assert(idxs[idxs.len() - 1] == idx);
        let window = pre.tracks[idx].window;
        assert(mid.tracks[idx].window == window);
        assert forall|k: int| 0 <= k < out.len() implies vouched_for(
            (#[trigger] out[k]).message,
            pre,
            idxs,
            zero,
            plus,
            ldpc,
        ) by {
            if k < before.len() {
                assert(vouched_for(before[k].message, pre, shorter, zero, plus, ldpc));
                let (j, sum, msg) = choose|j: int, sum: [X; LLR_LEN], msg: Option<String>|
                    {
                        &&& 0 <= j < shorter.len()
                        &&& #[trigger] tried(
                            pre.tracks[shorter[j] as int].window,
                            zero,
                            plus,
                            ldpc,
                            sum,
                            msg,
                        )
                        &&& msg matches Some(m)
                        &&& m@ == before[k].message
                    };
                assert(shorter[j] == idxs[j]);
                assert(tried(pre.tracks[idxs[j] as int].window, zero, plus, ldpc, sum, msg));
            } else {
                let (sum, msg) = choose|sum: [X; LLR_LEN], msg: Option<String>|
                    {
                        &&& #[trigger] tried(window, zero, plus, ldpc, sum, msg)
                        &&& match msg {
                            Some(m) => (post, last) == accepted(mid, idx, m@, single, utc),
                            None => post == mid && last is None,
                        }
                    };
                assert(tried(
                    pre.tracks[idxs[idxs.len() - 1] as int].window,
                    zero,
                    plus,
                    ldpc,
                    sum,
                    msg,
                ));
            }
        }
    }
}

/// Accumulation stays within one slot sequence: every period behind a decode
/// belongs to a track of the slot's own parity that was updated in this very
/// slot. Tracks of the other parity stay as they were.
pub proof fn lemma_decodes_stay_in_sequence<
    F,
    X,
    G: Fn(F, F) -> u32,
    E: Fn(F, F) -> F,
    P: Fn(X, X) -> X,
    L: Fn([X; LLR_LEN]) -> Option<String>,
>(
    pre: MshvState<F, X>,
    ids: Seq<i64>,
    post: crate::accumulate::AccState<F, X>,
    out: Seq<crate::decoder::DecodeData<F>>,
    idxs: Seq<usize>,
    mid: crate::accumulate::AccState<F, X>,
    gap: G,
    ease: E,
    zero: X,
    plus: P,
    ldpc: L,
)
    requires
        pre.acc.ok(),
        accumulated_via(pre, ids, post, out, idxs, mid, gap, ease, zero, plus, ldpc),
    ensures
        mid.ok(),
        post.ok(),
        mid.parity == parity_of(pre.utc),
        same_windows(mid, post),
        forall|k: int|
            0 <= k < out.len() ==> is_combined(#[trigger] out[k], mid, idxs, pre.single, pre.utc),
        forall|j: int|
            0 <= j < idxs.len() ==> (#[trigger] idxs[j]) < mid.tracks.len()
                && mid.tracks[idxs[j] as int].parity == parity_of(pre.utc)
                && mid.tracks[idxs[j] as int].last_period == mid.period,
{
    let parity = parity_of(pre.utc) as u8;
    let begun = pre.acc.advanced(parity);
    crate::accumulate::lemma_stale_tracks_are_dropped(pre.acc, parity);
    crate::accumulate::lemma_parities_never_mix(
        begun,
        all_tagged(pre.samples, ids),
        idxs,
        mid,
        gap,
        ease,
    );
    crate::accumulate::lemma_touched_once(idxs);
    let touched = crate::accumulate::first_seen(idxs);
    assert forall|k: int| 0 <= k < touched.len() implies (#[trigger] touched[k])
        < mid.tracks.len() by {
        assert(touched.contains(touched[k]));
        assert(idxs.contains(touched[k]));
        let j = idxs.index_of(touched[k]);
        assert(idxs[j] == touched[k]);
    }
    lemma_redecoding_is_sound(
        mid,
        touched,
        post,
        out,
        zero,
        plus,
        ldpc,
        pre.single,
        pre.utc,
    );
    assert forall|k: int| 0 <= k < out.len() implies is_combined(
        #[trigger] out[k],
        mid,
        idxs,
        pre.single,
        pre.utc,
    ) by {
        assert(is_combined(out[k], mid, touched, pre.single, pre.utc));
        let j = choose|j: int|
            0 <= j < touched.len() && out[k].contrib_tags == mid.tracks[(
            #[trigger] touched[j]) as int].tags();
        assert(touched.contains(touched[j]));
        assert(idxs.contains(touched[j]));
        let i = idxs.index_of(touched[j]);
        assert(idxs[i] == touched[j]);
    }
}

/// A message that was found single-shot, or that the track reported last, is
/// not reported again; any other message is, as soon as it decodes.
pub proof fn lemma_reports_only_news<F, X>(
    acc: crate::accumulate::AccState<F, X>,
    idx: int,
    msg: Seq<char>,
    single: Seq<Seq<char>>,
    utc: UtcTime,
)
    requires
        0 <= idx < acc.tracks.len(),
    ensures
        accepted(acc, idx, msg, single, utc).1 is None <==> single.contains(msg)
            || acc.tracks[idx].last_reported == Some(msg),
        accepted(accepted(acc, idx, msg, single, utc).0, idx, msg, single, utc).1 is None,
{
}

} // verus!
