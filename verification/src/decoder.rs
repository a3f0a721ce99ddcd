//! The decoder boundary.
//!
//! [`Ft8Decoder`] is the seam where a decoding engine plugs in: slot in,
//! `Vec<Decode>` out. [`StubDecoder`] does no FT8 decoding; it reports the
//! strongest spectral peaks in a slot, so that the path from capture to the
//! decode table can be exercised against live off-air audio.
//!
//! Magnitudes are compared through their order keys, see [`crate::order`].

use vstd::prelude::*;
use crate::dsp::{hann, Spectrum, SpectrumState};
use crate::order::{nth_key, INF_KEY};
use crate::slot::Slot;
use crate::store::PeriodSoft;
use crate::text::decimal;
use crate::time::UtcTime;

verus! {

/// How a decode was obtained; lets the UI show single-shot vs accumulation.
#[derive(Clone, Copy, PartialEq, Eq, Debug, Structural)]
pub enum DecodeSource {
    /// Decoded from a single 15 s slot (stock FT8).
    SingleShot,
    /// Decoded only after soft-combining `n` slots.
    Accumulated(u32),
    /// Decoded both ways (combined `n` slots, also caught single-shot).
    Both(u32),
}

impl DecodeSource {
    /// The short text that names the source.
    pub open spec fn badge_text(self) -> Seq<char> {
        match self {
            DecodeSource::SingleShot => "single"@,
            DecodeSource::Accumulated(n) => "accum x"@ + crate::text::decimal_of(n as nat),
            DecodeSource::Both(n) => "both x"@ + crate::text::decimal_of(n as nat),
        }
    }

    /// The short text that names the source, as the decode table shows it.
    pub fn badge(&self) -> (res: String)
        ensures
            res@ == self.badge_text(),
    {
        match self {
            DecodeSource::SingleShot => "single".to_owned(),
            DecodeSource::Accumulated(n) => "accum x".to_owned().concat(decimal(*n as u64).as_str()),
            DecodeSource::Both(n) => "both x".to_owned().concat(decimal(*n as u64).as_str()),
        }
    }
}

/// One decoded FT8 message.
#[derive(Clone, Debug)]
pub struct Decode<F> {
    /// UTC of the slot the decode belongs to.
    pub utc: UtcTime,
    /// Signal-to-noise estimate, dB in 2500 Hz reference bandwidth.
    pub snr_db: i32,
    /// Time offset of the signal, seconds.
    pub dt: F,
    /// Audio frequency in the passband, Hz.
    pub freq_hz: F,
    /// Decoded message text.
    pub message: String,
    /// Provenance of this decode.
    pub source: DecodeSource,
    /// For an accumulated decode: the row ids of the periods whose soft-LLR
    /// vectors were summed to produce it. Empty for a single-shot decode.
    pub contrib_tags: Vec<i64>,
}

/// What a decode says.
#[verifier::ext_equal]
pub struct DecodeData<F> {
    pub utc: UtcTime,
    pub snr_db: i32,
    pub dt: F,
    pub freq_hz: F,
    pub message: Seq<char>,
    pub source: DecodeSource,
    pub contrib_tags: Seq<i64>,
}

impl<F> View for Decode<F> {
    type V = DecodeData<F>;

    open spec fn view(&self) -> DecodeData<F> {
        DecodeData {
            utc: self.utc,
            snr_db: self.snr_db,
            dt: self.dt,
            freq_hz: self.freq_hz,
            message: self.message@,
            source: self.source,
            contrib_tags: self.contrib_tags@,
        }
    }
}

/// What the decodes say.
pub open spec fn said<F>(decodes: Seq<Decode<F>>) -> Seq<DecodeData<F>> {
    decodes.map_values(|d: Decode<F>| d@)
}

/// A slot decoder. One call must find every signal in the passband, not just
/// the strongest.
///
/// Decoding a slot is a two-step sequence, so that cross-period accumulation
/// can be linked to the exact period rows that it combined:
///
///  1. [`decode`](Self::decode) runs the single-shot decode and stashes this
///     slot's soft-LLR evidence, drained by
///     [`take_period_soft`](Self::take_period_soft).
///  2. The caller writes the period rows, obtaining their ids, and calls
///     [`run_accumulation`](Self::run_accumulation) with those ids.
///
/// A decoder with no accumulation implements only `decode` and `name`.
pub trait Ft8Decoder<S, F, X>: Send {
    /// Single-shot decode of one slot.
    fn decode(&mut self, slot: &Slot<S>) -> Vec<Decode<F>>;

    /// The decoder's name.
    fn name(&self) -> &str;

    /// Drain the soft-LLR evidence collected during the most recent
    /// `decode()` call. Only a soft-decision decoder has any to hand over.
    fn take_period_soft(&mut self) -> (soft: Vec<PeriodSoft<F, X>>)
        default_ensures
            soft@.len() == 0,
    {
        Vec::new()
    }

    /// Run cross-period soft-LLR accumulation for the slot just decoded.
    ///
    /// `period_ids` are the row ids of the soft evidence from the most recent
    /// `decode()`, in the order in which `take_period_soft` returned it.
    /// Returns any decodes recovered only by accumulation.
    fn run_accumulation(&mut self, period_ids: &[i64]) -> (decodes: Vec<Decode<F>>)
        default_ensures
            decodes@.len() == 0,
    {
        Vec::new()
    }
}

// ---- spectral peaks ------------------------------------------------------

/// Samples in the stub decoder's analysis window.
pub const STUB_WINDOW: usize = 4096;

/// First bin of the passband that is searched (200 Hz).
pub const PEAK_LO: usize = 68;

/// First bin past the passband that is searched (2800 Hz).
pub const PEAK_HI: usize = 955;

/// How many peaks are reported at most.
pub const MAX_PEAKS: usize = 6;

/// What the stub decoder says of every peak.
pub const STUB_MESSAGE: &'static str = "(stub \u{2014} MSHV FT8 decoder not yet integrated)";

/// The number with key `a` is greater than the one with key `b`.
pub open spec fn louder(a: u32, b: u32) -> bool {
    b < a <= INF_KEY
}

/// The number with key `a` is at least the one with key `b`.
pub open spec fn as_loud(a: u32, b: u32) -> bool {
    b <= a <= INF_KEY
}

/// `m` is the median of `keys`: the element at index `len / 2` in sorted
/// order.
pub open spec fn is_median(keys: Seq<u32>, m: u32) -> bool {
    crate::order::is_nth(keys, keys.len() as int / 2, m)
}

/// First bin past those that are searched.
pub open spec fn peak_end(n: int) -> int {
    if n - 2 < PEAK_HI {
        n - 2
    } else {
        PEAK_HI as int
    }
}

/// Bin `i` is a local maximum of the passband above the threshold.
pub open spec fn is_peak(keys: Seq<u32>, threshold: u32, i: int) -> bool {
    &&& PEAK_LO <= i < peak_end(keys.len() as int)
    &&& louder(keys[i], keys[i - 1])
    &&& as_loud(keys[i], keys[i + 1])
    &&& louder(keys[i], threshold)
}

/// Peak `i` is reported before peak `j`: it is louder, or as loud and lower.
pub open spec fn ahead(keys: Seq<u32>, i: int, j: int) -> bool {
    keys[i] > keys[j] || (keys[i] == keys[j] && i < j)
}

/// `r` lists the foremost of the peaks below bin `end`, as many as may be
/// reported, in the order in which they are reported.
pub open spec fn are_foremost(keys: Seq<u32>, threshold: u32, end: int, r: Seq<usize>) -> bool {
    &&& r.len() <= MAX_PEAKS
    &&& forall|a: int|
        0 <= a < r.len() ==> is_peak(keys, threshold, (#[trigger] r[a]) as int) && r[a] < end
    &&& forall|a: int, b: int|
        0 <= a < b < r.len() ==> ahead(
            keys,
            (#[trigger] r[a]) as int,
            (#[trigger] r[b]) as int,
        )
    &&& forall|i: int|
        #![trigger is_peak(keys, threshold, i)]
        0 <= i < end && is_peak(keys, threshold, i) ==> {
            ||| r.contains(i as usize)
            ||| r.len() == MAX_PEAKS && ahead(keys, r.last() as int, i)
        }
}

/// Puts peak `i`, which lies above all others so far, in its place.
fn insert_peak(r: &mut Vec<usize>, keys: &[u32], threshold: u32, i: usize)
    requires
        are_foremost(keys@, threshold, i as int, old(r)@),
        is_peak(keys@, threshold, i as int),
    ensures
        are_foremost(keys@, threshold, i + 1, final(r)@),
{
    let ghost before = r@;
    let mut at: usize = r.len();
    while at > 0 && keys[r[at - 1]] < keys[i]
        invariant
            at <= r@.len(),
            r@ == before,
            are_foremost(keys@, threshold, i as int, before),
            is_peak(keys@, threshold, i as int),
            forall|a: int| at <= a < before.len() ==> keys@[(#[trigger] before[a]) as int] < keys@[i as int],
        decreases at,
    {
        at -= 1;
    }
    r.insert(at, i);
    let ghost full = r@;
    assert(full == before.insert(at as int, i));
    if r.len() > MAX_PEAKS {
        let _ = r.pop();
    }
    proof {
        let post = r@;
        assert forall|a: int| 0 <= a < at implies ahead(
            keys@,
            (#[trigger] before[a]) as int,
            i as int,
        ) by {
            if a < at - 1 {
                assert(ahead(keys@, before[a] as int, before[at - 1] as int));
            }
        }
        assert forall|a: int, b: int| 0 <= a < b < full.len() implies ahead(
            keys@,
            (#[trigger] full[a]) as int,
            (#[trigger] full[b]) as int,
        ) by {
            let x = if a < at {
                a
            } else {
                a - 1
            };
            let y = if b < at {
                b
            } else {
                b - 1
            };
            if a != at && b != at {
                assert(ahead(keys@, before[x] as int, before[y] as int));
            }
        }
        assert forall|j: int|
            #![trigger is_peak(keys@, threshold, j)]
            0 <= j < i + 1 && is_peak(keys@, threshold, j) implies {
            ||| post.contains(j as usize)
            ||| post.len() == MAX_PEAKS && ahead(keys@, post.last() as int, j)
        } by {
            if full.contains(j as usize) {
                let k = full.index_of(j as usize);
                if k < post.len() {
                    assert(post[k] == j);
                } else {
                    assert(k == post.len());
                    assert(ahead(keys@, full[post.len() - 1] as int, full[k] as int));
                }
            } else if j < i {
                assert(!before.contains(j as usize)) by {
                    if before.contains(j as usize) {
                        let k = before.index_of(j as usize);
                        if k < at {
                            assert(full[k] == j);
                        } else {
                            assert(full[k + 1] == j);
                        }
                    }
                }
                assert(ahead(keys@, before.last() as int, j));
                assert(full.last() == before.last() || full.last() == i);
                if post.last() != before.last() {
                    let k = post.len() - 1;
                    assert(ahead(keys@, full[k] as int, full[k + 1] as int));
                }
            } else {
                assert(full[at as int] == i);
            }
        }
    }
}

/// The bins of the strongest peaks of a spectrum, loudest first.
pub fn pick_peaks(keys: &[u32], threshold: u32) -> (r: Vec<usize>)
    requires
        keys@.len() >= 2,
    ensures
        are_foremost(keys@, threshold, keys@.len() as int, r@),
{
    let end: usize = if keys.len() - 2 < PEAK_HI {
        keys.len() - 2
    } else {
        PEAK_HI
    };
    let mut r: Vec<usize> = Vec::new();
    let mut i: usize = PEAK_LO;
    while i < end
        invariant
            keys@.len() >= 2,
            end == peak_end(keys@.len() as int),
            PEAK_LO <= i,
            are_foremost(keys@, threshold, i as int, r@),
        decreases end - i,
    {
        let k: u32 = keys[i];
        if k <= INF_KEY && k > keys[i - 1] && k >= keys[i + 1] && k > threshold {
            assert(is_peak(keys@, threshold, i as int));
            insert_peak(&mut r, keys, threshold, i);
        } else {
            assert(!is_peak(keys@, threshold, i as int));
            assert(are_foremost(keys@, threshold, i + 1, r@));
        }
        i += 1;
    }
    assert forall|j: int|
        #![trigger is_peak(keys@, threshold, j)]
        0 <= j < keys@.len() && is_peak(keys@, threshold, j) implies {
        ||| r@.contains(j as usize)
        ||| r@.len() == MAX_PEAKS && ahead(keys@, r@.last() as int, j)
    } by {
        assert(j < i);
    }
    r
}

/// Two listings of the foremost peaks agree as far as both go.
proof fn lemma_peaks_agree(
    keys: Seq<u32>,
    threshold: u32,
    end: int,
    a: Seq<usize>,
    b: Seq<usize>,
    k: int,
)
    requires
        are_foremost(keys, threshold, end, a),
        are_foremost(keys, threshold, end, b),
        0 <= k <= a.len(),
        k <= b.len(),
    ensures
        forall|j: int| 0 <= j < k ==> a[j] == b[j],
    decreases k,
{
    if k > 0 {
        lemma_peaks_agree(keys, threshold, end, a, b, k - 1);
        if a[k - 1] != b[k - 1] {
            if ahead(keys, a[k - 1] as int, b[k - 1] as int) {
                lemma_peak_missed(keys, threshold, end, a, b, k - 1);
            } else {
                lemma_peak_missed(keys, threshold, end, b, a, k - 1);
            }
        }
    }
}

/// Where two listings agree up to index `k`, the one cannot have a peak there
/// that comes ahead of the other's.
proof fn lemma_peak_missed(
    keys: Seq<u32>,
    threshold: u32,
    end: int,
    a: Seq<usize>,
    b: Seq<usize>,
    k: int,
)
    requires
        are_foremost(keys, threshold, end, a),
        are_foremost(keys, threshold, end, b),
        0 <= k < a.len(),
        k < b.len(),
        forall|j: int| 0 <= j < k ==> a[j] == b[j],
    ensures
        !ahead(keys, a[k] as int, b[k] as int),
{
    assert(is_peak(keys, threshold, a[k] as int));
    if b.contains(a[k]) {
        let j = b.index_of(a[k]);
        if j < k {
            assert(ahead(keys, a[j] as int, a[k] as int));
        } else if j > k {
            assert(ahead(keys, b[k] as int, b[j] as int));
        }
    } else {
        assert(ahead(keys, b.last() as int, a[k] as int));
        if k < b.len() - 1 {
            assert(ahead(keys, b[k] as int, b[b.len() - 1] as int));
        }
    }
}

/// The foremost peaks of a spectrum can be listed in one way only.
pub proof fn lemma_peaks_are_unique(
    keys: Seq<u32>,
    threshold: u32,
    end: int,
    a: Seq<usize>,
    b: Seq<usize>,
)
    requires
        are_foremost(keys, threshold, end, a),
        are_foremost(keys, threshold, end, b),
    ensures
        a == b,
{
    if a.len() < b.len() {
        lemma_peaks_agree(keys, threshold, end, a, b, a.len() as int);
        lemma_no_more_peaks(keys, threshold, end, a, b);
    } else if b.len() < a.len() {
        lemma_peaks_agree(keys, threshold, end, b, a, b.len() as int);
        lemma_no_more_peaks(keys, threshold, end, b, a);
    } else {
        lemma_peaks_agree(keys, threshold, end, a, b, a.len() as int);
        assert(a =~= b);
    }
}

proof fn lemma_no_more_peaks(
    keys: Seq<u32>,
    threshold: u32,
    end: int,
    a: Seq<usize>,
    b: Seq<usize>,
)
    requires
        are_foremost(keys, threshold, end, a),
        are_foremost(keys, threshold, end, b),
        a.len() <= b.len(),
        forall|j: int| 0 <= j < a.len() ==> a[j] == b[j],
    ensures
        a.len() == b.len(),
{
    let k = a.len() as int;
    if k < b.len() {
        assert(is_peak(keys, threshold, b[k] as int));
        let j = a.index_of(b[k]);
        assert(ahead(keys, b[j] as int, b[k] as int));
    }
}

/// Decode `d` reports bin `p` of a spectrum with median `median`.
pub open spec fn reports_peak<F, R: Fn(u32, u32) -> i32, H: Fn(usize) -> F>(
    d: DecodeData<F>,
    utc: UtcTime,
    keys: Seq<u32>,
    median: u32,
    p: usize,
    snr: R,
    freq: H,
    dt: F,
) -> bool {
    &&& d.utc == utc
    &&& call_ensures(snr, (keys[p as int], median), d.snr_db)
    &&& d.dt == dt
    &&& call_ensures(freq, (p,), d.freq_hz)
    &&& d.message == STUB_MESSAGE@
    &&& d.source == DecodeSource::SingleShot
    &&& d.contrib_tags.len() == 0
}

/// `out` reports the peaks `peaks` of a spectrum, one each.
pub open spec fn reports_peaks<F, T: Fn(u32) -> u32, R: Fn(u32, u32) -> i32, H: Fn(usize) -> F>(
    out: Seq<Decode<F>>,
    utc: UtcTime,
    keys: Seq<u32>,
    median: u32,
    level: u32,
    peaks: Seq<usize>,
    threshold: T,
    snr: R,
    freq: H,
    dt: F,
) -> bool {
    &&& is_median(keys, median)
    &&& call_ensures(threshold, (median,), level)
    &&& are_foremost(keys, level, keys.len() as int, peaks)
    &&& out.len() == peaks.len()
    &&& forall|k: int|
        0 <= k < out.len() ==> reports_peak(
            (#[trigger] out[k])@,
            utc,
            keys,
            median,
            peaks[k],
            snr,
            freq,
            dt,
        )
}

/// Placeholder decoder: reports the loudest spectral peaks in a slot.
///
/// This does not decode FT8. It exists so the rest of the application can be
/// run against a real radio: a row per strong carrier.
pub struct StubDecoder<S> {
    spec: Spectrum<S>,
}

impl<S> View for StubDecoder<S> {
    type V = SpectrumState<S>;

    closed spec fn view(&self) -> SpectrumState<S> {
        self.spec@
    }
}

impl<S> StubDecoder<S> {
    /// The spectrum is as long as the analysis window.
    #[verifier::type_invariant]
    closed spec fn ok(self) -> bool {
        self.spec@.win.len() == STUB_WINDOW
    }
}

impl<S: Copy> StubDecoder<S> {
    /// A stub decoder that analyses through a Hann window: `at` gives the
    /// window's value at an index for a length, and `zero` is silence.
    pub fn new<A: Fn(usize, usize) -> S>(zero: S, at: A) -> (d: Self)
        requires
            forall|i: usize, n: usize| call_requires(at, (i, n)),
        ensures
            d@.zero == zero,
            d@.win.len() == STUB_WINDOW,
            forall|i: int|
                0 <= i < STUB_WINDOW ==> call_ensures(
                    at,
                    (i as usize, STUB_WINDOW),
                    #[trigger] d@.win[i],
                ),
    {
        // The value for a window of one sample is never taken at this length.
        StubDecoder { spec: Spectrum::new(hann(STUB_WINDOW, zero, at), zero) }
    }

    /// The samples to transform: a stretch from the middle of the slot, each
    /// multiplied with its window value by `times`, or `None` if the slot is
    /// too short.
    pub fn window<M: Fn(S, S) -> S>(&self, slot: &Slot<S>, times: M) -> (res: Option<Vec<S>>)
        requires
            forall|a: S, b: S| call_requires(times, (a, b)),
        ensures
            match res {
                Some(w) => {
                    let start = (slot.samples@.len() - STUB_WINDOW) / 2;
                    &&& slot.samples@.len() >= STUB_WINDOW
                    &&& w@.len() == STUB_WINDOW
                    &&& crate::dsp::is_framed(
                        self@,
                        slot.samples@.subrange(start, start + STUB_WINDOW),
                        times,
                        w@,
                    )
                },
                None => slot.samples@.len() < STUB_WINDOW,
            },
    {
        proof {
            use_type_invariant(self);
        }
        let n: usize = slot.samples.len();
        if n < STUB_WINDOW {
            return None;
        }
        let start: usize = (n - STUB_WINDOW) / 2;
        let middle = crate::seqs::copy_range(slot.samples.as_slice(), start, start + STUB_WINDOW);
        Some(self.spec.frame(middle.as_slice(), times))
    }

    /// Reports the strongest peaks of the window's spectrum, given as order
    /// keys. `threshold` gives the key that a peak has to exceed for a
    /// spectrum with the given median key, `snr` the estimate for a peak key
    /// and a median key, and `freq` the frequency of a bin.
    pub fn decode<F: Copy, T: Fn(u32) -> u32, R: Fn(u32, u32) -> i32, H: Fn(usize) -> F>(
        &self,
        utc: UtcTime,
        keys: &[u32],
        threshold: T,
        snr: R,
        freq: H,
        dt: F,
    ) -> (out: Vec<Decode<F>>)
        requires
            keys@.len() >= 2,
            forall|m: u32| call_requires(threshold, (m,)),
            forall|k: u32, m: u32| call_requires(snr, (k, m)),
            forall|p: usize| call_requires(freq, (p,)),
        ensures
            exists|median: u32, level: u32, peaks: Seq<usize>| #[trigger]
                reports_peaks(
                    out@,
                    utc,
                    keys@,
                    median,
                    level,
                    peaks,
                    threshold,
                    snr,
                    freq,
                    dt,
                ),
    {
        let median: u32 = nth_key(keys, keys.len() / 2);
        let level: u32 = threshold(median);
        let peaks = pick_peaks(keys, level);
        let mut out: Vec<Decode<F>> = Vec::new();
        let mut k: usize = 0;
        while k < peaks.len()
            invariant
                k <= peaks@.len(),
                out@.len() == k,
                forall|k: u32, m: u32| call_requires(snr, (k, m)),
                forall|p: usize| call_requires(freq, (p,)),
                are_foremost(keys@, level, keys@.len() as int, peaks@),
                forall|j: int|
                    0 <= j < k ==> reports_peak(
                        (#[trigger] out@[j])@,
                        utc,
                        keys@,
                        median,
                        peaks@[j],
                        snr,
                        freq,
                        dt,
                    ),
            decreases peaks@.len() - k,
        {
            let p: usize = peaks[k];
            out.push(
                Decode {
                    utc,
                    snr_db: snr(keys[p], median),
                    dt,
                    freq_hz: freq(p),
                    message: STUB_MESSAGE.to_owned(),
                    source: DecodeSource::SingleShot,
                    contrib_tags: Vec::new(),
                },
            );
            k += 1;
        }
        assert(reports_peaks(
            out@,
            utc,
            keys@,
            median,
            level,
            peaks@,
            threshold,
            snr,
            freq,
            dt,
        ));
        out
    }
}

} // verus!
