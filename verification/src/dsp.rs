//! Sample-rate conversion from the codec rate down to the 12 kHz the decoder
//! needs.
//!
//! Filter taps and samples are values of a caller's type, and so is the one
//! operation on them: multiply and accumulate.

use vstd::prelude::*;
use crate::seqs::{append_copy, copy_range};

verus! {

/// Filtering window `w` with `taps`, newest sample first, from `zero` on, can
/// give `r`.
pub open spec fn filters_to<S, M: Fn(S, S, S) -> S>(
    zero: S,
    taps: Seq<S>,
    w: Seq<S>,
    mac: M,
    r: S,
) -> bool
    decreases taps.len(),
{
    if taps.len() == 0 {
        r == zero
    } else {
        exists|acc: S|
            {
                &&& filters_to(zero, taps.drop_last(), w, mac, acc)
                &&& #[trigger] call_ensures(
                    mac,
                    (acc, taps.last(), w[w.len() - taps.len()]),
                    r,
                )
            }
    }
}

/// Integer-factor decimator (anti-alias FIR and downsampling), stateful
/// across arbitrary chunk sizes via a sample history and a phase offset.
pub struct Decimator<S> {
    taps: Vec<S>,
    factor: usize,
    /// The last `taps.len() - 1` input samples.
    hist: Vec<S>,
    /// Index of the first output sample within the next input chunk.
    offset: usize,
    zero: S,
}

/// What a decimator holds.
#[verifier::ext_equal]
pub struct DecimatorState<S> {
    pub taps: Seq<S>,
    pub factor: int,
    pub hist: Seq<S>,
    pub offset: int,
    pub zero: S,
}

/// Taps of the filter for a factor.
pub open spec fn taps_for(factor: int) -> int {
    8 * factor + 1
}

impl<S> DecimatorState<S> {
    /// The history is one sample short of a window.
    pub open spec fn ok(self) -> bool {
        &&& self.factor >= 2
        &&& self.taps.len() == taps_for(self.factor)
        &&& self.hist.len() == self.taps.len() - 1
        &&& 0 <= self.offset < self.factor
    }

    /// Number of outputs that `n` input samples give.
    pub open spec fn count(self, n: int) -> int {
        if n <= self.offset {
            0
        } else {
            (n - self.offset + self.factor - 1) / self.factor
        }
    }

    /// The samples that the `j`-th output is filtered from.
    pub open spec fn window(self, input: Seq<S>, j: int) -> Seq<S> {
        let at = self.offset + j * self.factor;
        (self.hist + input).subrange(at, at + self.taps.len())
    }

    /// The samples behind each output that `input` gives.
    pub open spec fn windows(self, input: Seq<S>) -> Seq<Seq<S>> {
        Seq::new(self.count(input.len() as int) as nat, |j: int| self.window(input, j))
    }

    /// What is held once `input` has been taken in.
    pub open spec fn after(self, input: Seq<S>) -> Self {
        DecimatorState {
            hist: (self.hist + input).skip(input.len() as int),
            offset: self.offset + self.count(input.len() as int) * self.factor - input.len(),
            ..self
        }
    }
}

/// Decimating `input` can give `out` and leave `post`.
pub open spec fn decimates<S, M: Fn(S, S, S) -> S>(
    pre: DecimatorState<S>,
    input: Seq<S>,
    mac: M,
    out: Seq<S>,
    post: DecimatorState<S>,
) -> bool {
    &&& post == pre.after(input)
    &&& out.len() == pre.windows(input).len()
    &&& forall|j: int|
        0 <= j < out.len() ==> filters_to(
            pre.zero,
            pre.taps,
            pre.windows(input)[j],
            mac,
            #[trigger] out[j],
        )
}

impl<S> View for Decimator<S> {
    type V = DecimatorState<S>;

    closed spec fn view(&self) -> DecimatorState<S> {
        DecimatorState {
            taps: self.taps@,
            factor: self.factor as int,
            hist: self.hist@,
            offset: self.offset as int,
            zero: self.zero,
        }
    }
}

impl<S> Decimator<S> {
    #[verifier::type_invariant]
    spec fn inv(self) -> bool {
        self@.ok()
    }
}

/// Number of taps of the filter for a factor.
pub fn num_taps(factor: usize) -> (n: usize)
    requires
        taps_for(factor as int) <= usize::MAX,
    ensures
        n == taps_for(factor as int),
{
    8 * factor + 1
}

proof fn lemma_count_bound(offset: int, factor: int, n: int, k: int)
    requires
        factor >= 2,
        0 <= offset,
        0 <= k,
        offset + k * factor < n,
    ensures
        (n - offset + factor - 1) / factor >= k + 1,
{
    vstd::arithmetic::div_mod::lemma_fundamental_div_mod(n - offset + factor - 1, factor);
    vstd::arithmetic::div_mod::lemma_mod_bound(n - offset + factor - 1, factor);
    let q = (n - offset + factor - 1) / factor;
    let r = (n - offset + factor - 1) % factor;
    assert(q >= k + 1) by (nonlinear_arith)
        requires
            n - offset + factor - 1 == factor * q + r,
            0 <= r < factor,
            offset + k * factor < n,
            factor >= 2,
    ;
}

proof fn lemma_count_exact(offset: int, factor: int, n: int, k: int)
    requires
        factor >= 2,
        0 <= offset,
        0 <= k,
        n > offset,
        n <= offset + k * factor,
        k > 0 ==> offset + (k - 1) * factor < n,
    ensures
        (n - offset + factor - 1) / factor == k,
{
    vstd::arithmetic::div_mod::lemma_fundamental_div_mod(n - offset + factor - 1, factor);
    vstd::arithmetic::div_mod::lemma_mod_bound(n - offset + factor - 1, factor);
    let q = (n - offset + factor - 1) / factor;
    let r = (n - offset + factor - 1) % factor;
    assert(q <= k) by (nonlinear_arith)
        requires
            n - offset + factor - 1 == factor * q + r,
            0 <= r < factor,
            n <= offset + k * factor,
            factor >= 2,
    ;
    assert(k > 0);
    lemma_count_bound(offset, factor, n, k - 1);
}

impl<S: Copy> Decimator<S> {
    /// A decimator by `factor` with the given filter, which has seen silence
    /// so far.
    pub fn new(factor: usize, taps: Vec<S>, zero: S) -> (d: Self)
        requires
            factor >= 2,
            taps@.len() == taps_for(factor as int),
        ensures
            d@ == (DecimatorState {
                taps: taps@,
                factor: factor as int,
                hist: Seq::new((taps@.len() - 1) as nat, |i: int| zero),
                offset: 0,
                zero,
            }),
    {
        let mut hist: Vec<S> = Vec::new();
        let mut i: usize = 0;
        while i < taps.len() - 1
            invariant
                taps@.len() >= 1,
                i <= taps@.len() - 1,
                hist@ == Seq::new(i as nat, |i: int| zero),
            decreases taps@.len() - i,
        {
            hist.push(zero);
            i += 1;
            assert(hist@ == Seq::new(i as nat, |i: int| zero));
        }
        Decimator { taps, factor, hist, offset: 0, zero }
    }

    /// Filters one window.
    fn filter<M: Fn(S, S, S) -> S>(&self, w: &[S], mac: &M) -> (r: S)
        requires
            w@.len() == self@.taps.len(),
            forall|a: S, t: S, x: S| call_requires(*mac, (a, t, x)),
        ensures
            filters_to(self@.zero, self@.taps, w@, *mac, r),
    {
        let mut acc: S = self.zero;
        let mut t: usize = 0;
        while t < self.taps.len()
            invariant
                t <= self.taps@.len(),
                w@.len() == self.taps@.len(),
                forall|a: S, t: S, x: S| call_requires(*mac, (a, t, x)),
                filters_to(self.zero, self.taps@.take(t as int), w@, *mac, acc),
            decreases self.taps@.len() - t,
        {
            let next: S = mac(acc, self.taps[t], w[w.len() - 1 - t]);
            proof {
                let done = self.taps@.take(t + 1);
                assert(done.drop_last() == self.taps@.take(t as int));
                assert(call_ensures(*mac, (acc, done.last(), w@[w@.len() - done.len()]), next));
            }
            acc = next;
            t += 1;
        }
        assert(self.taps@.take(t as int) == self.taps@);
        acc
    }

    /// Feeds input samples; returns the decimated output.
    pub fn process<M: Fn(S, S, S) -> S>(&mut self, input: &[S], mac: &M) -> (out: Vec<S>)
        requires
            old(self)@.hist.len() + input@.len() <= usize::MAX,
            forall|a: S, t: S, x: S| call_requires(*mac, (a, t, x)),
        ensures
            old(self)@.ok(),
            decimates(old(self)@, input@, *mac, out@, final(self)@),
    {
        proof {
            use_type_invariant(&*self);
        }
        let ghost before = self@;
        let n: usize = input.len();
        let nt: usize = self.taps.len();
        let mut s = copy_range(self.hist.as_slice(), 0, self.hist.len());
        append_copy(&mut s, input);
        assert(s@ == before.hist + input@);
        let mut out: Vec<S> = Vec::new();
        let mut i: usize = self.offset;
        while i < n
            invariant
                before.ok(),
                self@ == before,
                before.factor == self.factor,
                before.taps.len() == nt,
                n == input@.len(),
                s@ == before.hist + input@,
                before.hist.len() + n <= usize::MAX,
                i == before.offset + out@.len() * before.factor,
                i < n + before.factor,
                out@.len() > 0 ==> i - before.factor < n,
                forall|a: S, t: S, x: S| call_requires(*mac, (a, t, x)),
                forall|j: int|
                    0 <= j < out@.len() ==> filters_to(
                        before.zero,
                        before.taps,
                        before.window(input@, j),
                        *mac,
                        #[trigger] out@[j],
                    ),
            decreases n + before.factor - i,
        {
            let w = copy_range(s.as_slice(), i, i + nt);
            let ghost k = out@.len() as int;
            assert(w@ == before.window(input@, k));
            let r: S = self.filter(w.as_slice(), mac);
            out.push(r);
            assert((k + 1) * before.factor == k * before.factor + before.factor)
                by (nonlinear_arith);
            i = i + self.factor;
        }
        proof {
            let k = out@.len() as int;
            assert(k > 0 ==> (k - 1) * before.factor == k * before.factor - before.factor)
                by (nonlinear_arith);
            if n > before.offset {
                lemma_count_exact(before.offset, before.factor, n as int, k);
            } else {
                assert(k == 0) by {
                    if k > 0 {
                        assert(before.offset + (k - 1) * before.factor < n);
                        assert((k - 1) * before.factor >= 0) by (nonlinear_arith)
                            requires
                                k > 0,
                                before.factor >= 2,
                        ;
                    }
                }
            }
            assert(before.count(n as int) == k);
        }
        let rest = copy_range(s.as_slice(), s.len() - (nt - 1), s.len());
        assert(rest@ == before.after(input@).hist);
        self.offset = i - n;
        self.hist = rest;
        assert(self@ == before.after(input@));
        out
    }
}

/// Chunking does not matter: feeding `a` and then `b` filters the same
/// windows, and leaves the same state, as feeding both at once.
pub proof fn lemma_chunking<S>(d: DecimatorState<S>, a: Seq<S>, b: Seq<S>)
    requires
        d.ok(),
    ensures
        d.after(a).ok(),
        d.windows(a + b) == d.windows(a) + d.after(a).windows(b),
        d.after(a + b) == d.after(a).after(b),
{
    let mid = d.after(a);
    let f = d.factor;
    let (m, n) = (a.len() as int, b.len() as int);
    let k1 = d.count(m);
    let k2 = mid.count(n);
    lemma_count_steps(d.offset, f, m);
    lemma_count_steps(mid.offset, f, n);
    assert(mid.offset == d.offset + k1 * f - m);
    assert(d.count(m + n) == k1 + k2) by {
        assert((k1 + k2) * f == k1 * f + k2 * f) by (nonlinear_arith);
        if m + n > d.offset {
            if k2 > 0 {
                assert((k1 + k2 - 1) * f == k1 * f + (k2 - 1) * f) by (nonlinear_arith);
            } else if k1 > 0 {
                assert((k1 - 1) * f == k1 * f - f) by (nonlinear_arith);
            }
            lemma_count_exact(d.offset, f, m + n, k1 + k2);
        } else {
            assert(k1 == 0);
            assert(k2 == 0);
        }
    }
    let all = d.hist + (a + b);
    assert(all == (d.hist + a) + b);
    assert(mid.hist + b == all.skip(m));
    assert forall|j: int| 0 <= j < k1 implies d.window(a + b, j) == #[trigger] d.window(a, j) by {
        assert(j * f <= (k1 - 1) * f) by (nonlinear_arith)
            requires
                j <= k1 - 1,
                f >= 2,
        ;
        assert(0 <= j * f) by (nonlinear_arith)
            requires
                0 <= j,
                f >= 2,
        ;
        assert(d.window(a + b, j) =~= d.window(a, j));
    }
    assert forall|j: int| 0 <= j < k2 implies d.window(a + b, k1 + j) == #[trigger] mid.window(
        b,
        j,
    ) by {
        assert((k1 + j) * f == k1 * f + j * f) by (nonlinear_arith);
        assert(j * f <= (k2 - 1) * f) by (nonlinear_arith)
            requires
                j <= k2 - 1,
                f >= 2,
        ;
        assert(0 <= j * f) by (nonlinear_arith)
            requires
                0 <= j,
                f >= 2,
        ;
        assert(d.window(a + b, k1 + j) =~= mid.window(b, j));
    }
    assert(d.windows(a + b) =~= d.windows(a) + mid.windows(b));
    assert((k1 + k2) * f == k1 * f + k2 * f) by (nonlinear_arith);
    assert(d.after(a + b).hist =~= mid.after(b).hist);
}

/// The outputs taken up to `n` end where the next one lies.
pub proof fn lemma_count_steps(offset: int, factor: int, n: int)
    requires
        factor >= 2,
        0 <= offset < factor,
        0 <= n,
    ensures
        ({
            let k = if n <= offset {
                0
            } else {
                (n - offset + factor - 1) / factor
            };
            &&& 0 <= k
            &&& n <= offset + k * factor < n + factor
            &&& k > 0 ==> offset + (k - 1) * factor < n
        }),
{
    if n > offset {
        let x = n - offset + factor - 1;
        vstd::arithmetic::div_mod::lemma_fundamental_div_mod(x, factor);
        vstd::arithmetic::div_mod::lemma_mod_bound(x, factor);
        let k = x / factor;
        let r = x % factor;
        assert(k >= 0 && offset + (k - 1) * factor < n && n <= offset + k * factor && offset + k
            * factor < n + factor) by (nonlinear_arith)
            requires
                x == factor * k + r,
                x == n - offset + factor - 1,
                0 <= r < factor,
                x >= factor,
                factor >= 2,
        ;
    }
}

/// However a stream is cut into chunks, a decimator that starts on its first
/// sample gives one output for every `factor` samples begun.
pub proof fn lemma_output_count<S>(d: DecimatorState<S>, n: int)
    requires
        d.ok(),
        d.offset == 0,
        0 <= n,
    ensures
        d.count(n) == (n + d.factor - 1) / d.factor,
        d.count(n) * d.factor < n + d.factor,
        n <= d.count(n) * d.factor,
{
    lemma_count_steps(0, d.factor, n);
    if n == 0 {
        assert((d.factor - 1) / d.factor == 0) by {
            vstd::arithmetic::div_mod::lemma_basic_div(d.factor - 1, d.factor);
        }
    }
}

/// Multiplying and accumulating gives one result for the same arguments.
pub open spec fn mac_is_function<S, M: Fn(S, S, S) -> S>(mac: M) -> bool {
    forall|a: S, t: S, x: S, r: S, q: S| #[trigger]
        call_ensures(mac, (a, t, x), r) && #[trigger] call_ensures(mac, (a, t, x), q) ==> r == q
}

/// A window is filtered to one value.
proof fn lemma_filter_is_unique<S, M: Fn(S, S, S) -> S>(
    zero: S,
    taps: Seq<S>,
    w: Seq<S>,
    mac: M,
    r: S,
    q: S,
)
    requires
        mac_is_function(mac),
        filters_to(zero, taps, w, mac, r),
        filters_to(zero, taps, w, mac, q),
    ensures
        r == q,
    decreases taps.len(),
{
    if taps.len() > 0 {
        let x = w[w.len() - taps.len()];
        let a = choose|acc: S|
            filters_to(zero, taps.drop_last(), w, mac, acc) && #[trigger] call_ensures(
                mac,
                (acc, taps.last(), x),
                r,
            );
        let b = choose|acc: S|
            filters_to(zero, taps.drop_last(), w, mac, acc) && #[trigger] call_ensures(
                mac,
                (acc, taps.last(), x),
                q,
            );
        lemma_filter_is_unique(zero, taps.drop_last(), w, mac, a, b);
    }
}

/// Input is decimated in one way only.
pub proof fn lemma_decimation_is_unique<S, M: Fn(S, S, S) -> S>(
    d: DecimatorState<S>,
    input: Seq<S>,
    mac: M,
    out: Seq<S>,
    post: DecimatorState<S>,
    other: Seq<S>,
    last: DecimatorState<S>,
)
    requires
        mac_is_function(mac),
        decimates(d, input, mac, out, post),
        decimates(d, input, mac, other, last),
    ensures
        out == other,
        post == last,
{
    assert forall|j: int| 0 <= j < out.len() implies out[j] == #[trigger] other[j] by {
        lemma_filter_is_unique(d.zero, d.taps, d.windows(input)[j], mac, out[j], other[j]);
    }
    assert(out =~= other);
}

/// Feeding `a` and then `b` is one way to decimate both at once.
pub proof fn lemma_decimation_chunks<S, M: Fn(S, S, S) -> S>(
    d: DecimatorState<S>,
    a: Seq<S>,
    b: Seq<S>,
    mac: M,
    out_a: Seq<S>,
    mid: DecimatorState<S>,
    out_b: Seq<S>,
    post: DecimatorState<S>,
)
    requires
        d.ok(),
        decimates(d, a, mac, out_a, mid),
        decimates(mid, b, mac, out_b, post),
    ensures
        mid.ok(),
        decimates(d, a + b, mac, out_a + out_b, post),
{
    lemma_chunking(d, a, b);
    let out = out_a + out_b;
    assert forall|j: int| 0 <= j < out.len() implies filters_to(
        d.zero,
        d.taps,
        d.windows(a + b)[j],
        mac,
        #[trigger] out[j],
    ) by {
        if j < out_a.len() {
            assert(filters_to(d.zero, d.taps, d.windows(a)[j], mac, out_a[j]));
        } else {
            let i = j - out_a.len();
            assert(filters_to(mid.zero, mid.taps, mid.windows(b)[i], mac, out_b[i]));
        }
    }
}

/// The chunks are decimated in turn: `states` are what is held before each
/// and after the last, and `outs` what each gives.
pub open spec fn decimates_in_turn<S, M: Fn(S, S, S) -> S>(
    states: Seq<DecimatorState<S>>,
    chunks: Seq<Seq<S>>,
    mac: M,
    outs: Seq<Seq<S>>,
) -> bool {
    &&& states.len() == chunks.len() + 1
    &&& outs.len() == chunks.len()
    &&& forall|k: int|
        0 <= k < chunks.len() ==> decimates(
            states[k],
            #[trigger] chunks[k],
            mac,
            outs[k],
            states[k + 1],
        )
}

/// Decimating chunks in turn is one way to decimate them joined.
proof fn lemma_chunks_join<S, M: Fn(S, S, S) -> S>(
    states: Seq<DecimatorState<S>>,
    chunks: Seq<Seq<S>>,
    mac: M,
    outs: Seq<Seq<S>>,
)
    requires
        decimates_in_turn(states, chunks, mac, outs),
        states[0].ok(),
    ensures
        decimates(states[0], chunks.flatten(), mac, outs.flatten(), states.last()),
    decreases chunks.len(),
{
    let d = states[0];
    let n = chunks.len() as int;
    if n == 0 {
        let none = Seq::<S>::empty();
        assert(chunks.flatten() == none);
        assert(outs.flatten() == none);
        assert(d.count(0) == 0);
        assert((d.hist + none).skip(0) =~= d.hist);
        assert(d.after(none) =~= d);
    } else {
        let (ss, cs, os) = (states.drop_last(), chunks.drop_last(), outs.drop_last());
        assert forall|k: int| 0 <= k < cs.len() implies decimates(
            ss[k],
            #[trigger] cs[k],
            mac,
            os[k],
            ss[k + 1],
        ) by {
            assert(decimates(states[k], chunks[k], mac, outs[k], states[k + 1]));
        }
        lemma_chunks_join(ss, cs, mac, os);
        assert(decimates(states[n - 1], chunks[n - 1], mac, outs[n - 1], states[n - 1 + 1]));
        lemma_decimation_chunks(
            d,
            cs.flatten(),
            chunks.last(),
            mac,
            os.flatten(),
            ss.last(),
            outs.last(),
            states.last(),
        );
        cs.lemma_flatten_push(chunks.last());
        os.lemma_flatten_push(outs.last());
        assert(cs.push(chunks.last()) == chunks);
        assert(os.push(outs.last()) == outs);
    }
}

/// Decimation does not depend on chunks: however a stream is cut, empty
/// chunks too, the outputs in turn are those of the stream at once, and the
/// same is held at the end. A decimator that starts on the stream's first
/// sample gives one output for every `factor` samples begun.
pub proof fn lemma_chunked_decimation<S, M: Fn(S, S, S) -> S>(
    states: Seq<DecimatorState<S>>,
    chunks: Seq<Seq<S>>,
    mac: M,
    outs: Seq<Seq<S>>,
    whole: Seq<S>,
    post: DecimatorState<S>,
)
    requires
        mac_is_function(mac),
        decimates_in_turn(states, chunks, mac, outs),
        states[0].ok(),
        decimates(states[0], chunks.flatten(), mac, whole, post),
    ensures
        outs.flatten() == whole,
        states.last() == post,
        states[0].offset == 0 ==> outs.flatten().len() == (chunks.flatten().len()
            + states[0].factor - 1) / states[0].factor,
{
    let d = states[0];
    let stream = chunks.flatten();
    lemma_chunks_join(states, chunks, mac, outs);
    lemma_decimation_is_unique(d, stream, mac, outs.flatten(), states.last(), whole, post);
    if d.offset == 0 {
        lemma_output_count(d, stream.len() as int);
        lemma_count_steps(d.offset, d.factor, stream.len() as int);
    }
}

/// Arithmetic of a fractional read position.
pub struct Interpolation<W, B, A, R> {
    /// Whole samples before a position.
    pub whole: W,
    /// The value at a position, from the samples on both sides of it.
    pub blend: B,
    /// The position of the next output sample.
    pub advance: A,
    /// A position counted from that many samples later on.
    pub rest: R,
    /// Outputs per chunk at most.
    pub limit: usize,
}

/// Stateful linear-interpolation resampler for non-integer rate ratios.
/// Adequate for the waterfall and a first decoder bring-up.
pub struct LinearResampler<S, T> {
    /// Fractional read position within `tail`.
    pos: T,
    tail: Vec<S>,
}

/// What a [`LinearResampler`] holds.
#[verifier::ext_equal]
pub struct LinearState<S, T> {
    pub pos: T,
    pub tail: Seq<S>,
}

impl<S, T> View for LinearResampler<S, T> {
    type V = LinearState<S, T>;

    closed spec fn view(&self) -> LinearState<S, T> {
        LinearState { pos: self.pos, tail: self.tail@ }
    }
}

/// Sample `k` of an output: read at position `pos`, with `whole` samples
/// before it, from both its neighbours.
pub open spec fn is_read<S, T, W, B: Fn(S, S, T) -> S, A: Fn(T) -> T, R>(
    data: Seq<S>,
    lerp: Interpolation<W, B, A, R>,
    pos: T,
    whole: usize,
    next: T,
    out: S,
) -> bool {
    &&& whole + 1 < data.len()
    &&& call_ensures(lerp.blend, (data[whole as int], data[whole + 1], pos), out)
    &&& call_ensures(lerp.advance, (pos,), next)
}

/// Of `whole` samples, those that are there.
pub open spec fn used_up(whole: usize, len: int) -> usize {
    if whole < len {
        whole
    } else {
        len as usize
    }
}

impl<S, T> LinearState<S, T> {
    /// Feeding `input` can give `out` and leave `post`: one output at each of
    /// `positions` but the last, as long as both neighbours are there.
    /// `wholes` are the whole samples before each position; of those before
    /// the last, what is there is consumed, and the position that is kept
    /// counts from there.
    pub open spec fn reads_along<
        W: Fn(T) -> usize,
        B: Fn(S, S, T) -> S,
        A: Fn(T) -> T,
        R: Fn(T, usize) -> T,
    >(
        self,
        input: Seq<S>,
        lerp: Interpolation<W, B, A, R>,
        positions: Seq<T>,
        wholes: Seq<usize>,
        out: Seq<S>,
        post: Self,
    ) -> bool {
        let data = self.tail + input;
        let n = out.len() as int;
        let used = used_up(wholes[n], data.len() as int);
        &&& data.len() <= usize::MAX
        &&& positions.len() == n + 1
        &&& wholes.len() == n + 1
        &&& positions[0] == self.pos
        &&& forall|k: int|
            0 <= k <= n ==> call_ensures(lerp.whole, (positions[k],), #[trigger] wholes[k])
        &&& forall|k: int|
            0 <= k < n ==> is_read(
                data,
                lerp,
                positions[k],
                wholes[k],
                positions[k + 1],
                #[trigger] out[k],
            )
        &&& n <= lerp.limit
        &&& n < lerp.limit ==> wholes[n] + 1 >= data.len()
        &&& call_ensures(lerp.rest, (positions[n], used), post.pos)
        &&& post.tail == data.skip(used as int)
    }

    /// Feeding `input` can give `out` and leave `post`.
    pub open spec fn reads<
        W: Fn(T) -> usize,
        B: Fn(S, S, T) -> S,
        A: Fn(T) -> T,
        R: Fn(T, usize) -> T,
    >(self, input: Seq<S>, lerp: Interpolation<W, B, A, R>, out: Seq<S>, post: Self) -> bool {
        exists|positions: Seq<T>, wholes: Seq<usize>| #[trigger]
            self.reads_along(input, lerp, positions, wholes, out, post)
    }
}

impl<S: Copy, T: Copy> LinearResampler<S, T> {
    /// A resampler that has seen nothing yet and reads from `pos` on.
    pub fn new(pos: T) -> (r: Self)
        ensures
            r@ == (LinearState::<S, T> { pos, tail: seq![] }),
    {
        LinearResampler { pos, tail: Vec::new() }
    }

    /// Feeds input samples; returns the interpolated output.
    pub fn process<
        W: Fn(T) -> usize,
        B: Fn(S, S, T) -> S,
        A: Fn(T) -> T,
        R: Fn(T, usize) -> T,
    >(&mut self, input: &[S], lerp: &Interpolation<W, B, A, R>) -> (out: Vec<S>)
        requires
            forall|p: T| call_requires(lerp.whole, (p,)),
            forall|a: S, b: S, p: T| call_requires(lerp.blend, (a, b, p)),
            forall|p: T| call_requires(lerp.advance, (p,)),
            forall|p: T, n: usize| call_requires(lerp.rest, (p, n)),
        ensures
            old(self)@.reads(input@, *lerp, out@, final(self)@),
    {
        let ghost before = self@;
        append_copy(&mut self.tail, input);
        let ghost data = self.tail@;
        let len: usize = self.tail.len();
        let mut out: Vec<S> = Vec::new();
        let mut pos: T = self.pos;
        let mut whole: usize = (lerp.whole)(pos);
        let ghost mut positions: Seq<T> = seq![pos];
        let ghost mut wholes: Seq<usize> = seq![whole];
        while len >= 2 && whole < len - 1 && out.len() < lerp.limit
            invariant
                self.tail@ == data,
                data == before.tail + input@,
                len == data.len(),
                positions.len() == out@.len() + 1,
                wholes.len() == out@.len() + 1,
                positions[0] == before.pos,
                positions.last() == pos,
                wholes.last() == whole,
                out@.len() <= lerp.limit,
                forall|k: int|
                    0 <= k <= out@.len() ==> call_ensures(
                        lerp.whole,
                        (positions[k],),
                        #[trigger] wholes[k],
                    ),
                forall|k: int|
                    0 <= k < out@.len() ==> is_read(
                        data,
                        *lerp,
                        positions[k],
                        wholes[k],
                        positions[k + 1],
                        #[trigger] out@[k],
                    ),
                forall|p: T| call_requires(lerp.whole, (p,)),
                forall|a: S, b: S, p: T| call_requires(lerp.blend, (a, b, p)),
                forall|p: T| call_requires(lerp.advance, (p,)),
            decreases lerp.limit - out@.len(),
        {
            let y: S = (lerp.blend)(self.tail[whole], self.tail[whole + 1], pos);
            let next: T = (lerp.advance)(pos);
            let next_whole: usize = (lerp.whole)(next);
            let ghost was = out@;
            out.push(y);
            proof {
                assert(is_read(data, *lerp, pos, whole, next, y));
                let (ps, ws) = (positions, wholes);
                positions = positions.push(next);
                wholes = wholes.push(next_whole);
                assert forall|k: int| 0 <= k < out@.len() implies is_read(
                    data,
                    *lerp,
                    positions[k],
                    wholes[k],
                    positions[k + 1],
                    #[trigger] out@[k],
                ) by {
                    if k < was.len() {
                        assert(is_read(data, *lerp, ps[k], ws[k], ps[k + 1], was[k]));
                    }
                }
            }
            pos = next;
            whole = next_whole;
        }
        let from: usize = if whole < len {
            whole
        } else {
            len
        };
        self.tail = copy_range(self.tail.as_slice(), from, len);
        self.pos = (lerp.rest)(pos, from);
        proof {
            assert(self.tail@ == data.skip(from as int));
            assert(before.reads_along(input@, *lerp, positions, wholes, out@, self@));
        }
        out
    }
}

/// Arithmetic of read positions, as mathematical functions.
#[verifier::reject_recursive_types(S)]
#[verifier::reject_recursive_types(T)]
pub struct Positions<S, T> {
    /// Whole samples before a position.
    pub whole: spec_fn(T) -> nat,
    /// The value at a position, from the samples on both sides of it.
    pub blend: spec_fn(S, S, T) -> S,
    /// The position of the next output sample.
    pub advance: spec_fn(T) -> T,
    /// A position counted from that many samples later on.
    pub rest: spec_fn(T, int) -> T,
    /// The positions at which the arithmetic is relied on.
    pub sound: spec_fn(T) -> bool,
}

impl<S, T> Positions<S, T> {
    /// What `lerp` computes is what these functions say.
    pub open spec fn describe<
        W: Fn(T) -> usize,
        B: Fn(S, S, T) -> S,
        A: Fn(T) -> T,
        R: Fn(T, usize) -> T,
    >(self, lerp: Interpolation<W, B, A, R>) -> bool {
        &&& forall|p: T, u: usize| #[trigger]
            call_ensures(lerp.whole, (p,), u) ==> u == (self.whole)(p)
        &&& forall|a: S, b: S, p: T, x: S| #[trigger]
            call_ensures(lerp.blend, (a, b, p), x) ==> x == (self.blend)(a, b, p)
        &&& forall|p: T, q: T| #[trigger]
            call_ensures(lerp.advance, (p,), q) ==> q == (self.advance)(p)
        &&& forall|p: T, n: usize, q: T| #[trigger]
            call_ensures(lerp.rest, (p, n), q) ==> q == (self.rest)(p, n as int)
    }

    /// The arithmetic is exact as long as `len` samples are read: advancing
    /// moves on from one sound position to the next. Counting a position from
    /// later on, though not from past it, changes neither what is read there
    /// nor how it advances; counting on twice is counting on once.
    pub open spec fn exact(self, len: nat) -> bool {
        &&& forall|p: T|
            (self.sound)(p) && (self.whole)(p) + 1 < len ==> (self.sound)(
                #[trigger] (self.advance)(p),
            ) && (self.whole)(p) <= (self.whole)((self.advance)(p))
        &&& forall|p: T, n: int|
            (self.sound)(p) && 0 <= n <= (self.whole)(p) ==> (self.whole)(
                #[trigger] (self.rest)(p, n),
            ) == (self.whole)(p) - n
        &&& forall|p: T, n: int, a: S, b: S|
            (self.sound)(p) && 0 <= n <= (self.whole)(p) ==> #[trigger] (self.blend)(
                a,
                b,
                (self.rest)(p, n),
            ) == (self.blend)(a, b, p)
        &&& forall|p: T, n: int|
            (self.sound)(p) && (self.whole)(p) + 1 < len && 0 <= n <= (self.whole)(p)
                ==> #[trigger] (self.advance)((self.rest)(p, n)) == (self.rest)(
                (self.advance)(p),
                n,
            )
        &&& forall|p: T, m: int, n: int|
            (self.sound)(p) && 0 <= m && 0 <= n && m + n <= (self.whole)(p) ==> #[trigger] (
            self.rest)((self.rest)(p, m), n) == (self.rest)(p, m + n)
    }

    /// The position `k` outputs after `p`.
    pub open spec fn ahead(self, p: T, k: int) -> T
        decreases k,
    {
        if k <= 0 {
            p
        } else {
            (self.advance)(self.ahead(p, k - 1))
        }
    }

    /// Whole samples before the position `k` outputs after `p`.
    pub open spec fn whole_at(self, p: T, k: int) -> int {
        (self.whole)(self.ahead(p, k)) as int
    }

    /// Of the samples before the position `k` outputs after `p`, those that
    /// are there.
    pub open spec fn used(self, p: T, k: int, len: int) -> int {
        if self.whole_at(p, k) < len {
            self.whole_at(p, k)
        } else {
            len
        }
    }

    /// `y` is what `data` holds at the position `k` outputs after `p`.
    pub open spec fn is_value(self, data: Seq<S>, p: T, k: int, y: S) -> bool {
        let w = self.whole_at(p, k);
        &&& w + 1 < data.len()
        &&& y == (self.blend)(data[w], data[w + 1], self.ahead(p, k))
    }

    /// From `pre`, `input` gives `out` and leaves `post`.
    pub open spec fn gives(
        self,
        pre: LinearState<S, T>,
        input: Seq<S>,
        out: Seq<S>,
        post: LinearState<S, T>,
    ) -> bool {
        let data = pre.tail + input;
        let n = out.len() as int;
        let used = self.used(pre.pos, n, data.len() as int);
        &&& forall|k: int| 0 <= k < n ==> self.is_value(data, pre.pos, k, #[trigger] out[k])
        &&& self.whole_at(pre.pos, n) + 1 >= data.len()
        &&& post.pos == (self.rest)(self.ahead(pre.pos, n), used)
        &&& post.tail == data.skip(used)
    }
}

/// A resampler whose arithmetic is described gives what the description says.
proof fn lemma_reads_as_described<
    S,
    T,
    W: Fn(T) -> usize,
    B: Fn(S, S, T) -> S,
    A: Fn(T) -> T,
    R: Fn(T, usize) -> T,
>(
    ideal: Positions<S, T>,
    lerp: Interpolation<W, B, A, R>,
    pre: LinearState<S, T>,
    input: Seq<S>,
    out: Seq<S>,
    post: LinearState<S, T>,
)
    requires
        ideal.describe(lerp),
        pre.reads(input, lerp, out, post),
        out.len() < lerp.limit,
    ensures
        ideal.gives(pre, input, out, post),
{
    let (ps, ws) = choose|ps: Seq<T>, ws: Seq<usize>| #[trigger]
        pre.reads_along(input, lerp, ps, ws, out, post);
    let n = out.len() as int;
    let data = pre.tail + input;
    assert forall|k: int| 0 <= k <= n implies #[trigger] ps[k] == ideal.ahead(pre.pos, k) && ws[k]
        == ideal.whole_at(pre.pos, k) by {
        lemma_positions_as_described(ideal, lerp, pre, input, ps, ws, out, post, k);
    }
    assert forall|k: int| 0 <= k < n implies ideal.is_value(
        data,
        pre.pos,
        k,
        #[trigger] out[k],
    ) by {
        assert(is_read(data, lerp, ps[k], ws[k], ps[k + 1], out[k]));
    }
    assert(ps[n] == ideal.ahead(pre.pos, n));
}

proof fn lemma_positions_as_described<
    S,
    T,
    W: Fn(T) -> usize,
    B: Fn(S, S, T) -> S,
    A: Fn(T) -> T,
    R: Fn(T, usize) -> T,
>(
    ideal: Positions<S, T>,
    lerp: Interpolation<W, B, A, R>,
    pre: LinearState<S, T>,
    input: Seq<S>,
    ps: Seq<T>,
    ws: Seq<usize>,
    out: Seq<S>,
    post: LinearState<S, T>,
    k: int,
)
    requires
        ideal.describe(lerp),
        pre.reads_along(input, lerp, ps, ws, out, post),
        0 <= k <= out.len(),
    ensures
        ps[k] == ideal.ahead(pre.pos, k),
        ws[k] == ideal.whole_at(pre.pos, k),
    decreases k,
{
    if k > 0 {
        lemma_positions_as_described(ideal, lerp, pre, input, ps, ws, out, post, k - 1);
        let j = k - 1;
        assert(is_read(pre.tail + input, lerp, ps[j], ws[j], ps[j + 1], out[j]));
    }
    assert(call_ensures(lerp.whole, (ps[k],), ws[k]));
}

/// Input gives one output only.
proof fn lemma_given_once<S, T>(
    ideal: Positions<S, T>,
    pre: LinearState<S, T>,
    input: Seq<S>,
    out: Seq<S>,
    post: LinearState<S, T>,
    other: Seq<S>,
    last: LinearState<S, T>,
)
    requires
        ideal.gives(pre, input, out, post),
        ideal.gives(pre, input, other, last),
    ensures
        out == other,
        post == last,
{
    let data = pre.tail + input;
    if out.len() < other.len() {
        assert(ideal.is_value(data, pre.pos, out.len() as int, other[out.len() as int]));
    } else if other.len() < out.len() {
        assert(ideal.is_value(data, pre.pos, other.len() as int, out[other.len() as int]));
    }
    assert forall|k: int| 0 <= k < out.len() implies out[k] == #[trigger] other[k] by {
        assert(ideal.is_value(data, pre.pos, k, out[k]));
    }
    assert(out =~= other);
}

/// Reading along keeps to sound positions.
proof fn lemma_stays_sound<S, T>(ideal: Positions<S, T>, p: T, len: nat, n: int)
    requires
        ideal.exact(len),
        (ideal.sound)(p),
        0 <= n,
        forall|k: int| 0 <= k < n ==> #[trigger] ideal.whole_at(p, k) + 1 < len,
    ensures
        (ideal.sound)(ideal.ahead(p, n)),
    decreases n,
{
    if n > 0 {
        lemma_stays_sound(ideal, p, len, n - 1);
        assert(ideal.whole_at(p, n - 1) + 1 < len);
    }
}

/// Counting from later on, and then going ahead, is going ahead and then
/// counting from later on.
proof fn lemma_ahead_of_rest<S, T>(
    ideal: Positions<S, T>,
    p: T,
    len: nat,
    n: int,
    used: int,
    j: int,
)
    requires
        ideal.exact(len),
        (ideal.sound)(ideal.ahead(p, n)),
        0 <= n,
        0 <= j,
        0 <= used <= ideal.whole_at(p, n),
        forall|i: int|
            0 <= i < j ==> used + #[trigger] ideal.whole_at(
                (ideal.rest)(ideal.ahead(p, n), used),
                i,
            ) + 1 < len,
    ensures
        (ideal.sound)(ideal.ahead(p, n + j)),
        used <= ideal.whole_at(p, n + j),
        ideal.ahead((ideal.rest)(ideal.ahead(p, n), used), j) == (ideal.rest)(
            ideal.ahead(p, n + j),
            used,
        ),
        ideal.whole_at((ideal.rest)(ideal.ahead(p, n), used), j) == ideal.whole_at(p, n + j) - used,
    decreases j,
{
    let q = (ideal.rest)(ideal.ahead(p, n), used);
    if j > 0 {
        lemma_ahead_of_rest(ideal, p, len, n, used, j - 1);
        let at = ideal.ahead(p, n + j - 1);
        assert(used + ideal.whole_at(q, j - 1) + 1 < len);
        assert(ideal.ahead(p, n + j) == (ideal.advance)(at));
        assert((ideal.advance)((ideal.rest)(at, used)) == (ideal.rest)((ideal.advance)(at), used));
    }
}

/// What `a` and then `b` give is what both give at once.
proof fn lemma_given_in_two<S, T>(
    ideal: Positions<S, T>,
    pre: LinearState<S, T>,
    a: Seq<S>,
    out_a: Seq<S>,
    mid: LinearState<S, T>,
    b: Seq<S>,
    out_b: Seq<S>,
    post: LinearState<S, T>,
)
    requires
        ideal.exact(pre.tail.len() + a.len() + b.len()),
        (ideal.sound)(pre.pos),
        ideal.gives(pre, a, out_a, mid),
        ideal.gives(mid, b, out_b, post),
    ensures
        ideal.gives(pre, a + b, out_a + out_b, post),
{
    let (n1, n2) = (out_a.len() as int, out_b.len() as int);
    let first = pre.tail + a;
    let data = pre.tail + (a + b);
    let out = out_a + out_b;
    assert(data == first + b);
    let used = ideal.used(pre.pos, n1, first.len() as int);
    let later = mid.tail + b;
    assert(later == data.skip(used));
    let len = data.len();
    assert forall|k: int| 0 <= k < n1 implies #[trigger] ideal.whole_at(pre.pos, k) + 1 < len by {
        assert(ideal.is_value(first, pre.pos, k, out_a[k]));
    }
    lemma_stays_sound(ideal, pre.pos, len, n1);
    assert forall|i: int| 0 <= i < n2 implies used + #[trigger] ideal.whole_at(mid.pos, i) + 1
        < len by {
        assert(ideal.is_value(later, mid.pos, i, out_b[i]));
    }
    assert forall|k: int| 0 <= k < out.len() implies ideal.is_value(
        data,
        pre.pos,
        k,
        #[trigger] out[k],
    ) by {
        if k < n1 {
            assert(ideal.is_value(first, pre.pos, k, out_a[k]));
        } else {
            let j = k - n1;
            lemma_ahead_of_rest(ideal, pre.pos, len, n1, used, j);
            assert(ideal.is_value(later, mid.pos, j, out_b[j]));
            let at = ideal.ahead(pre.pos, k);
            let w = ideal.whole_at(pre.pos, k);
            assert((ideal.blend)(data[w], data[w + 1], (ideal.rest)(at, used)) == (ideal.blend)(
                data[w],
                data[w + 1],
                at,
            ));
        }
    }
    lemma_ahead_of_rest(ideal, pre.pos, len, n1, used, n2);
    let used2 = ideal.used(mid.pos, n2, later.len() as int);
    let all = ideal.used(pre.pos, n1 + n2, data.len() as int);
    assert(all == used + used2);
    let at = ideal.ahead(pre.pos, n1 + n2);
    assert((ideal.rest)((ideal.rest)(at, used), used2) == (ideal.rest)(at, used + used2));
    assert(post.tail =~= data.skip(all));
}

/// The chunks are resampled in turn: `states` are what is held before each
/// and after the last, and `outs` what each gives, short of the limit.
pub open spec fn reads_in_turn<
    S,
    T,
    W: Fn(T) -> usize,
    B: Fn(S, S, T) -> S,
    A: Fn(T) -> T,
    R: Fn(T, usize) -> T,
>(
    states: Seq<LinearState<S, T>>,
    chunks: Seq<Seq<S>>,
    lerp: Interpolation<W, B, A, R>,
    outs: Seq<Seq<S>>,
) -> bool {
    &&& states.len() == chunks.len() + 1
    &&& outs.len() == chunks.len()
    &&& forall|k: int|
        0 <= k < chunks.len() ==> {
            &&& states[k].reads(#[trigger] chunks[k], lerp, outs[k], states[k + 1])
            &&& outs[k].len() < lerp.limit
        }
}

proof fn lemma_given_in_turn<
    S,
    T,
    W: Fn(T) -> usize,
    B: Fn(S, S, T) -> S,
    A: Fn(T) -> T,
    R: Fn(T, usize) -> T,
>(
    ideal: Positions<S, T>,
    lerp: Interpolation<W, B, A, R>,
    states: Seq<LinearState<S, T>>,
    chunks: Seq<Seq<S>>,
    outs: Seq<Seq<S>>,
)
    requires
        ideal.describe(lerp),
        ideal.exact(states[0].tail.len() + chunks.flatten().len()),
        (ideal.sound)(states[0].pos),
        reads_in_turn(states, chunks, lerp, outs),
        chunks.len() > 0,
    ensures
        ideal.gives(states[0], chunks.flatten(), outs.flatten(), states.last()),
    decreases chunks.len(),
{
    let n = chunks.len() as int;
    let (ss, cs, os) = (states.drop_last(), chunks.drop_last(), outs.drop_last());
    assert(states[n - 1].reads(chunks[n - 1], lerp, outs[n - 1], states[n - 1 + 1]));
    lemma_reads_as_described(ideal, lerp, states[n - 1], chunks[n - 1], outs[n - 1], states[n]);
    if n == 1 {
        chunks.lemma_flatten_one_element();
        outs.lemma_flatten_one_element();
    } else {
        assert forall|k: int| 0 <= k < cs.len() implies {
            &&& ss[k].reads(#[trigger] cs[k], lerp, os[k], ss[k + 1])
            &&& os[k].len() < lerp.limit
        } by {
            assert(states[k].reads(chunks[k], lerp, outs[k], states[k + 1]));
        }
        cs.lemma_flatten_push(chunks.last());
        os.lemma_flatten_push(outs.last());
        assert(cs.push(chunks.last()) == chunks);
        assert(os.push(outs.last()) == outs);
        lemma_given_in_turn(ideal, lerp, ss, cs, os);
        lemma_given_in_two(
            ideal,
            states[0],
            cs.flatten(),
            os.flatten(),
            ss.last(),
            chunks.last(),
            outs.last(),
            states.last(),
        );
    }
}

/// Resampling does not depend on chunks: where positions are exact, however a
/// stream is cut, the outputs in turn are those of the stream at once, and
/// the same is held at the end. A read position past the end of a chunk
/// carries over to the next.
pub proof fn lemma_chunked_resampling<
    S,
    T,
    W: Fn(T) -> usize,
    B: Fn(S, S, T) -> S,
    A: Fn(T) -> T,
    R: Fn(T, usize) -> T,
>(
    ideal: Positions<S, T>,
    lerp: Interpolation<W, B, A, R>,
    states: Seq<LinearState<S, T>>,
    chunks: Seq<Seq<S>>,
    outs: Seq<Seq<S>>,
    whole: Seq<S>,
    post: LinearState<S, T>,
)
    requires
        ideal.describe(lerp),
        ideal.exact(states[0].tail.len() + chunks.flatten().len()),
        (ideal.sound)(states[0].pos),
        reads_in_turn(states, chunks, lerp, outs),
        chunks.len() > 0,
        states[0].reads(chunks.flatten(), lerp, whole, post),
        whole.len() < lerp.limit,
    ensures
        outs.flatten() == whole,
        states.last() == post,
{
    let pre = states[0];
    lemma_given_in_turn(ideal, lerp, states, chunks, outs);
    lemma_reads_as_described(ideal, lerp, pre, chunks.flatten(), whole, post);
    lemma_given_once(
        ideal,
        pre,
        chunks.flatten(),
        outs.flatten(),
        states.last(),
        whole,
        post,
    );
}

/// Feeding `a` and then `b` gives the same outputs, and leaves the same state,
/// as feeding both at once, where positions are exact.
pub proof fn lemma_resampled_in_two<
    S,
    T,
    W: Fn(T) -> usize,
    B: Fn(S, S, T) -> S,
    A: Fn(T) -> T,
    R: Fn(T, usize) -> T,
>(
    ideal: Positions<S, T>,
    lerp: Interpolation<W, B, A, R>,
    pre: LinearState<S, T>,
    a: Seq<S>,
    out_a: Seq<S>,
    mid: LinearState<S, T>,
    b: Seq<S>,
    out_b: Seq<S>,
    post: LinearState<S, T>,
    whole: Seq<S>,
    last: LinearState<S, T>,
)
    requires
        ideal.describe(lerp),
        ideal.exact(pre.tail.len() + a.len() + b.len()),
        (ideal.sound)(pre.pos),
        pre.reads(a, lerp, out_a, mid),
        mid.reads(b, lerp, out_b, post),
        pre.reads(a + b, lerp, whole, last),
        out_a.len() < lerp.limit,
        out_b.len() < lerp.limit,
        whole.len() < lerp.limit,
    ensures
        out_a + out_b == whole,
        post == last,
{
    lemma_reads_as_described(ideal, lerp, pre, a, out_a, mid);
    lemma_reads_as_described(ideal, lerp, mid, b, out_b, post);
    lemma_reads_as_described(ideal, lerp, pre, a + b, whole, last);
    lemma_given_in_two(ideal, pre, a, out_a, mid, b, out_b, post);
    lemma_given_once(ideal, pre, a + b, out_a + out_b, post, whole, last);
}

/// How to convert one rate to another.
#[derive(Clone, Copy, Debug, PartialEq, Eq, Structural)]
pub enum RatePlan {
    /// The rates are equal.
    Passthrough,
    /// The input rate is this multiple of the output rate.
    Decimate(usize),
    /// Any other ratio.
    Linear,
}

/// The cheapest correct conversion from one rate to another.
pub open spec fn plan_of(in_rate: u32, out_rate: u32) -> RatePlan {
    if in_rate == out_rate {
        RatePlan::Passthrough
    } else if in_rate > out_rate && in_rate % out_rate == 0 {
        RatePlan::Decimate((in_rate / out_rate) as usize)
    } else {
        RatePlan::Linear
    }
}

/// Codec-rate to 12 kHz conversion, picking the cheapest correct method.
pub enum Resampler<S, T> {
    Passthrough,
    Decimate(Decimator<S>),
    Linear(LinearResampler<S, T>),
}

impl<S, T> Resampler<S, T> {
    /// Which method this is.
    pub open spec fn plan(self) -> RatePlan {
        match self {
            Resampler::Passthrough => RatePlan::Passthrough,
            Resampler::Decimate(d) => RatePlan::Decimate(d@.factor as usize),
            Resampler::Linear(_) => RatePlan::Linear,
        }
    }
}

impl<S: Copy, T: Copy> Resampler<S, T> {
    /// The resampler for a pair of rates. `design` gives the filter taps for
    /// a tap count and a decimation factor; a linear resampler reads from
    /// `pos` on.
    pub fn for_rate<D: Fn(usize, usize) -> Vec<S>>(
        in_rate: u32,
        out_rate: u32,
        zero: S,
        pos: T,
        design: D,
    ) -> (r: Self)
        requires
            out_rate == 0 ==> in_rate == 0,
            out_rate > 0 ==> taps_for(in_rate as int / out_rate as int) <= usize::MAX,
            forall|n: usize, f: usize| call_requires(design, (n, f)),
            forall|n: usize, f: usize, taps: Vec<S>| #[trigger]
                call_ensures(design, (n, f), taps) ==> taps@.len() == n,
        ensures
            r.plan() == plan_of(in_rate, out_rate),
            r matches Resampler::Decimate(d) ==> {
                &&& d@.ok()
                &&& d@.offset == 0
                &&& d@.zero == zero
                &&& d@.hist == Seq::new((d@.taps.len() - 1) as nat, |i: int| zero)
                &&& exists|taps: Vec<S>| #[trigger]
                    call_ensures(
                        design,
                        (taps_for(d@.factor) as usize, d@.factor as usize),
                        taps,
                    ) && d@.taps == taps@
            },
            r matches Resampler::Linear(l) ==> l@ == (LinearState::<S, T> { pos, tail: seq![] }),
    {
        if in_rate == out_rate {
            Resampler::Passthrough
        } else if in_rate > out_rate && in_rate % out_rate == 0 {
            let factor: usize = (in_rate / out_rate) as usize;
            proof {
                vstd::arithmetic::div_mod::lemma_fundamental_div_mod(
                    in_rate as int,
                    out_rate as int,
                );
                assert(factor >= 2) by (nonlinear_arith)
                    requires
                        in_rate == out_rate * factor,
                        in_rate > out_rate,
                ;
            }
            let n: usize = num_taps(factor);
            let taps = design(n, factor);
            assert(call_ensures(design, (n, factor), taps));
            Resampler::Decimate(Decimator::new(factor, taps, zero))
        } else {
            Resampler::Linear(LinearResampler::new(pos))
        }
    }

    /// Converts a chunk. `mac` multiplies and accumulates for the decimator,
    /// `lerp` moves the read position of the linear resampler.
    pub fn process<
        M: Fn(S, S, S) -> S,
        W: Fn(T) -> usize,
        B: Fn(S, S, T) -> S,
        A: Fn(T) -> T,
        R: Fn(T, usize) -> T,
    >(&mut self, input: &[S], mac: &M, lerp: &Interpolation<W, B, A, R>) -> (out: Vec<S>)
        requires
            *old(self) matches Resampler::Decimate(d) ==> d@.hist.len() + input@.len()
                <= usize::MAX,
            forall|a: S, t: S, x: S| call_requires(*mac, (a, t, x)),
            forall|p: T| call_requires(lerp.whole, (p,)),
            forall|a: S, b: S, p: T| call_requires(lerp.blend, (a, b, p)),
            forall|p: T| call_requires(lerp.advance, (p,)),
            forall|p: T, n: usize| call_requires(lerp.rest, (p, n)),
        ensures
            final(self).plan() == old(self).plan(),
            match (*old(self), *final(self)) {
                (Resampler::Passthrough, _) => out@ == input@,
                (Resampler::Decimate(d), Resampler::Decimate(e)) => decimates(
                    d@,
                    input@,
                    *mac,
                    out@,
                    e@,
                ),
                (Resampler::Linear(l), Resampler::Linear(m)) => l@.reads(
                    input@,
                    *lerp,
                    out@,
                    m@,
                ),
                _ => false,
            },
    {
        match self {
            Resampler::Passthrough => {
                let v = copy_range(input, 0, input.len());
                assert(v@ == input@);
                v
            },
            Resampler::Decimate(d) => d.process(input, mac),
            Resampler::Linear(l) => l.process(input, lerp),
        }
    }

    /// The method's name.
    pub fn describe(&self) -> (text: &'static str)
        ensures
            text@ == match self.plan() {
                RatePlan::Passthrough => "passthrough"@,
                RatePlan::Decimate(_) => "integer decimation (FIR)"@,
                RatePlan::Linear => "linear (non-integer ratio)"@,
            },
    {
        match self {
            Resampler::Passthrough => "passthrough",
            Resampler::Decimate(_) => "integer decimation (FIR)",
            Resampler::Linear(_) => "linear (non-integer ratio)",
        }
    }
}

/// Hann window of length `n`: `at` gives the value at an index for a length;
/// a window of one sample or none passes everything.
pub fn hann<F: Copy, A: Fn(usize, usize) -> F>(n: usize, one: F, at: A) -> (win: Vec<F>)
    requires
        forall|i: usize, n: usize| call_requires(at, (i, n)),
    ensures
        win@.len() == n,
        n <= 1 ==> forall|i: int| 0 <= i < n ==> #[trigger] win@[i] == one,
        n > 1 ==> forall|i: int|
            0 <= i < n ==> call_ensures(at, (i as usize, n), #[trigger] win@[i]),
{
    let mut win: Vec<F> = Vec::new();
    while win.len() < n
        invariant
            win@.len() <= n,
            forall|i: usize, n: usize| call_requires(at, (i, n)),
            n <= 1 ==> forall|i: int| 0 <= i < win@.len() ==> #[trigger] win@[i] == one,
            n > 1 ==> forall|i: int|
                0 <= i < win@.len() ==> call_ensures(at, (i as usize, n), #[trigger] win@[i]),
        decreases n - win@.len(),
    {
        let v: F = if n <= 1 {
            one
        } else {
            at(win.len(), n)
        };
        win.push(v);
    }
    win
}

/// Framing of a windowed FFT: which samples go in, and which bins come out.
pub struct Spectrum<S> {
    win: Vec<S>,
    zero: S,
}

/// What a [`Spectrum`] holds.
#[verifier::ext_equal]
pub struct SpectrumState<S> {
    pub win: Seq<S>,
    pub zero: S,
}

impl<S> View for Spectrum<S> {
    type V = SpectrumState<S>;

    closed spec fn view(&self) -> SpectrumState<S> {
        SpectrumState { win: self.win@, zero: self.zero }
    }
}

/// `out` is what goes into the transform for `samples`: each sample of the
/// window's length, silence past the end, multiplied with its window value.
pub open spec fn is_framed<S, M: Fn(S, S) -> S>(
    spec: SpectrumState<S>,
    samples: Seq<S>,
    times: M,
    out: Seq<S>,
) -> bool {
    &&& out.len() == spec.win.len()
    &&& forall|i: int|
        0 <= i < out.len() ==> call_ensures(
            times,
            (
                if i < samples.len() {
                    samples[i]
                } else {
                    spec.zero
                },
                spec.win[i],
            ),
            #[trigger] out[i],
        )
}

/// `samples` cut to length `n`, or continued with `zero` up to it.
pub open spec fn fitted<S>(samples: Seq<S>, n: nat, zero: S) -> Seq<S> {
    Seq::new(
        n,
        |i: int|
            if i < samples.len() {
                samples[i]
            } else {
                zero
            },
    )
}

/// Short input counts as continued with silence, and long input as cut: it is
/// framed just as the same input brought to the window's length.
pub proof fn lemma_input_is_fitted<S, M: Fn(S, S) -> S>(
    spec: SpectrumState<S>,
    samples: Seq<S>,
    times: M,
    out: Seq<S>,
)
    ensures
        is_framed(spec, samples, times, out) <==> is_framed(
            spec,
            fitted(samples, spec.win.len(), spec.zero),
            times,
            out,
        ),
{
    let fit = fitted(samples, spec.win.len(), spec.zero);
    if is_framed(spec, fit, times, out) {
        assert forall|i: int| 0 <= i < out.len() implies call_ensures(
            times,
            (
                if i < samples.len() {
                    samples[i]
                } else {
                    spec.zero
                },
                spec.win[i],
            ),
            #[trigger] out[i],
        ) by {
            assert(fit[i] == if i < samples.len() {
                samples[i]
            } else {
                spec.zero
            });
        }
    }
}

impl<S: Copy> Spectrum<S> {
    /// A spectrum as long as its window `win`; `zero` pads short input.
    pub fn new(win: Vec<S>, zero: S) -> (s: Self)
        ensures
            s@ == (SpectrumState { win: win@, zero }),
    {
        Spectrum { win, zero }
    }

    /// The windowed samples that go into the transform. Input that is too
    /// short is zero-padded; longer input is cut. `times` multiplies a sample
    /// with its window value.
    pub fn frame<M: Fn(S, S) -> S>(&self, samples: &[S], times: M) -> (out: Vec<S>)
        requires
            forall|a: S, b: S| call_requires(times, (a, b)),
        ensures
            is_framed(self@, samples@, times, out@),
    {
        let mut out: Vec<S> = Vec::new();
        let mut i: usize = 0;
        while i < self.win.len()
            invariant
                i <= self.win@.len(),
                out@.len() == i,
                forall|a: S, b: S| call_requires(times, (a, b)),
                forall|j: int|
                    0 <= j < i ==> call_ensures(
                        times,
                        (
                            if j < samples@.len() {
                                samples@[j]
                            } else {
                                self.zero
                            },
                            self.win@[j],
                        ),
                        #[trigger] out@[j],
                    ),
            decreases self.win@.len() - i,
        {
            let s: S = if i < samples.len() {
                samples[i]
            } else {
                self.zero
            };
            out.push(times(s, self.win[i]));
            i += 1;
        }
        out
    }

    /// Number of bins that count: half the transform's length.
    pub fn bins(&self) -> (n: usize)
        ensures
            n == self@.win.len() / 2,
    {
        self.win.len() / 2
    }
}

} // verus!
