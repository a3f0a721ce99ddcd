//! Sample-rate conversion and spectra: which input meets which tap, where a
//! fractional position is read, and which sample meets which window value.

use vstd::prelude::*;
use crate::dsp::{DecimatorState, Interpolation, LinearState, RatePlan, SpectrumState};

verus! {

/// `accs` are the totals of a convolution from `zero` on: step `t` takes tap
/// `t` and the sample `t` places before the newest one of `w`, and `r` is the
/// last total.
pub open spec fn convolves<S, M: Fn(S, S, S) -> S>(
    accs: Seq<S>,
    zero: S,
    taps: Seq<S>,
    w: Seq<S>,
    mac: M,
    r: S,
) -> bool {
    &&& accs.len() == taps.len() + 1
    &&& accs[0] == zero
    &&& accs[taps.len() as int] == r
    &&& forall|t: int|
        0 <= t < taps.len() ==> call_ensures(
            mac,
            (accs[t], #[trigger] taps[t], w[w.len() - 1 - t]),
            accs[t + 1],
        )
}

/// The filter is a convolution over the whole window: every tap meets exactly
/// one sample, tap `t` the one `t` places before the newest.
pub proof fn lemma_filter_is_a_convolution<S, M: Fn(S, S, S) -> S>(
    zero: S,
    taps: Seq<S>,
    w: Seq<S>,
    mac: M,
    r: S,
)
    requires
        crate::dsp::filters_to(zero, taps, w, mac, r),
    ensures
        exists|accs: Seq<S>| convolves(accs, zero, taps, w, mac, r),
    decreases taps.len(),
{
    if taps.len() == 0 {
        assert(convolves(seq![zero], zero, taps, w, mac, r));
    } else {
        let n = taps.len() - 1;
        let x = w[w.len() - taps.len()];
        let m = choose|acc: S|
            {
                &&& crate::dsp::filters_to(zero, taps.drop_last(), w, mac, acc)
                &&& #[trigger] call_ensures(mac, (acc, taps.last(), x), r)
            };
        lemma_filter_is_a_convolution(zero, taps.drop_last(), w, mac, m);
        let before = choose|accs: Seq<S>| convolves(accs, zero, taps.drop_last(), w, mac, m);
        let accs = before.push(r);
        assert forall|t: int| 0 <= t < taps.len() implies call_ensures(
            mac,
            (accs[t], #[trigger] taps[t], w[w.len() - 1 - t]),
            accs[t + 1],
        ) by {
            if t < n {
                assert(taps.drop_last()[t] == taps[t]);
            } else {
                assert(w[w.len() - 1 - t] == x);
            }
        }
        assert(convolves(accs, zero, taps, w, mac, r));
    }
}

/// In exact integer arithmetic, a lone one `k` samples back comes out as tap
/// `k`, for every tap.
pub proof fn lemma_impulse_gives_the_tap<M: Fn(i64, i64, i64) -> i64>(
    taps: Seq<i64>,
    w: Seq<i64>,
    mac: M,
    r: i64,
    k: int,
)
    requires
        0 <= k < taps.len(),
        w.len() == taps.len(),
        forall|i: int|
            0 <= i < w.len() ==> #[trigger] w[i] == if i == w.len() - 1 - k {
                1i64
            } else {
                0i64
            },
        forall|a: i64, t: i64, x: i64, y: i64| #[trigger]
            call_ensures(mac, (a, t, x), y) ==> y == a + t * x,
        crate::dsp::filters_to(0, taps, w, mac, r),
    ensures
        r == taps[k],
{
    lemma_filter_is_a_convolution(0, taps, w, mac, r);
    let accs = choose|accs: Seq<i64>| convolves(accs, 0, taps, w, mac, r);
    lemma_impulse_totals(accs, taps, w, mac, r, k, taps.len() as int);
}

proof fn lemma_impulse_totals<M: Fn(i64, i64, i64) -> i64>(
    accs: Seq<i64>,
    taps: Seq<i64>,
    w: Seq<i64>,
    mac: M,
    r: i64,
    k: int,
    t: int,
)
    requires
        0 <= k < taps.len(),
        w.len() == taps.len(),
        forall|i: int|
            0 <= i < w.len() ==> #[trigger] w[i] == if i == w.len() - 1 - k {
                1i64
            } else {
                0i64
            },
        forall|a: i64, t: i64, x: i64, y: i64| #[trigger]
            call_ensures(mac, (a, t, x), y) ==> y == a + t * x,
        convolves(accs, 0, taps, w, mac, r),
        0 <= t <= taps.len(),
    ensures
        accs[t] == if t <= k {
            0
        } else {
            taps[k]
        },
    decreases t,
{
    if t > 0 {
        let s = t - 1;
        lemma_impulse_totals(accs, taps, w, mac, r, k, s);
        let x = w[w.len() - 1 - s];
        assert(call_ensures(mac, (accs[s], taps[s], x), accs[s + 1]));
        assert(taps[s] * x == if s == k {
            taps[s] as int
        } else {
            0
        }) by (nonlinear_arith)
            requires
                x == (if s == k {
                    1i64
                } else {
                    0i64
                }),
        ;
    }
}

/// The sample at index `i` of the input, or before it of what was held.
pub open spec fn sample_at<S>(hist: Seq<S>, input: Seq<S>, i: int) -> S {
    if i < 0 {
        hist[hist.len() + i]
    } else {
        input[i]
    }
}

/// Whatever a decimator holds: output `j` is the convolution of the taps with
/// the samples from `j` factors past its next output position backwards, and
/// the state moves on by just the input.
pub proof fn lemma_decimation_convolves_what_is_held<S, M: Fn(S, S, S) -> S>(
    d: DecimatorState<S>,
    input: Seq<S>,
    mac: M,
    out: Seq<S>,
    post: DecimatorState<S>,
)
    requires
        d.ok(),
        crate::dsp::decimates(d, input, mac, out, post),
    ensures
        post == d.after(input),
        out.len() > 0 ==> d.offset + (out.len() - 1) * d.factor < input.len(),
        input.len() <= d.offset + out.len() * d.factor,
        forall|j: int|
            0 <= j < out.len() ==> convolves_at(d, input, mac, j, #[trigger] out[j]),
{
    let f = d.factor;
    let n = input.len() as int;
    crate::dsp::lemma_count_steps(d.offset, f, n);
    assert(out.len() == d.count(n));
    assert forall|j: int| 0 <= j < out.len() implies convolves_at(
        d,
        input,
        mac,
        j,
        #[trigger] out[j],
    ) by {
        assert(0 <= j * f <= (out.len() - 1) * f) by (nonlinear_arith)
            requires
                0 <= j <= out.len() - 1,
                f >= 2,
        ;
        let w = d.windows(input)[j];
        assert(crate::dsp::filters_to(d.zero, d.taps, w, mac, out[j]));
        lemma_filter_is_a_convolution(d.zero, d.taps, w, mac, out[j]);
        let accs = choose|accs: Seq<S>| convolves(accs, d.zero, d.taps, w, mac, out[j]);
        assert(accs.len() == d.taps.len() + 1);
        assert forall|t: int| 0 <= t < d.taps.len() implies call_ensures(
            mac,
            (accs[t], #[trigger] d.taps[t], sample_at(d.hist, input, d.offset + j * f - t)),
            accs[t + 1],
        ) by {
            let all = d.hist + input;
            let at = d.offset + j * f + d.taps.len() - 1 - t;
            assert(w[w.len() - 1 - t] == all[at]);
        }
    }
}

/// Output `j` is `r`: the taps, one by one, with the samples from its position
/// backwards.
pub open spec fn convolves_at<S, M: Fn(S, S, S) -> S>(
    d: DecimatorState<S>,
    input: Seq<S>,
    mac: M,
    j: int,
    r: S,
) -> bool {
    exists|accs: Seq<S>|
        {
            &&& #[trigger] accs.len() == d.taps.len() + 1
            &&& accs[0] == d.zero
            &&& accs[d.taps.len() as int] == r
            &&& forall|t: int|
                0 <= t < d.taps.len() ==> call_ensures(
                    mac,
                    (
                        accs[t],
                        #[trigger] d.taps[t],
                        sample_at(d.hist, input, d.offset + j * d.factor - t),
                    ),
                    accs[t + 1],
                )
        }
}

/// The sample `i` of a stream that was silent before it began.
pub open spec fn heard<S>(stream: Seq<S>, zero: S, i: int) -> S {
    if i < 0 {
        zero
    } else {
        stream[i]
    }
}

/// Decimating a stream from its start: one output for every `factor` samples
/// begun, and output `j` is the convolution of the taps with the samples from
/// `j * factor` backwards.
pub proof fn lemma_decimation_convolves_the_stream<S, M: Fn(S, S, S) -> S>(
    d: DecimatorState<S>,
    stream: Seq<S>,
    mac: M,
    out: Seq<S>,
    post: DecimatorState<S>,
    j: int,
)
    requires
        d.ok(),
        d.offset == 0,
        d.hist == Seq::new((d.taps.len() - 1) as nat, |i: int| d.zero),
        crate::dsp::decimates(d, stream, mac, out, post),
        0 <= j < out.len(),
    ensures
        out.len() * d.factor < stream.len() + d.factor,
        stream.len() <= out.len() * d.factor,
        0 <= j * d.factor < stream.len(),
        exists|accs: Seq<S>|
            {
                &&& #[trigger] accs.len() == d.taps.len() + 1
                &&& accs[0] == d.zero
                &&& accs[d.taps.len() as int] == out[j]
                &&& forall|t: int|
                    0 <= t < d.taps.len() ==> call_ensures(
                        mac,
                        (
                            accs[t],
                            #[trigger] d.taps[t],
                            heard(stream, d.zero, j * d.factor - t),
                        ),
                        accs[t + 1],
                    )
            },
{
    let f = d.factor;
    let n = stream.len() as int;
    crate::dsp::lemma_output_count(d, n);
    assert(out.len() == d.count(n));
    assert(0 <= j * f <= (out.len() - 1) * f) by (nonlinear_arith)
        requires
            0 <= j <= out.len() - 1,
            f >= 2,
    ;
    assert((out.len() - 1) * f == out.len() * f - f) by (nonlinear_arith);
    let w = d.windows(stream)[j];
    lemma_filter_is_a_convolution(d.zero, d.taps, w, mac, out[j]);
    let accs = choose|accs: Seq<S>| convolves(accs, d.zero, d.taps, w, mac, out[j]);
    assert(accs.len() == d.taps.len() + 1);
    assert forall|t: int| 0 <= t < d.taps.len() implies call_ensures(
        mac,
        (accs[t], #[trigger] d.taps[t], heard(stream, d.zero, j * f - t)),
        accs[t + 1],
    ) by {
        let all = d.hist + stream;
        let at = j * f + d.taps.len() - 1 - t;
        assert(w[w.len() - 1 - t] == all[at]);
        if j * f - t < 0 {
            assert(all[at] == d.hist[at]);
        } else {
            assert(all[at] == stream[j * f - t]);
        }
    }
}

/// What a decimator holds after some input: the latest samples, as many as it
/// has taps less one, and how far into the next input its next output lies.
pub proof fn lemma_decimator_keeps_the_latest<S>(d: DecimatorState<S>, input: Seq<S>, i: int)
    requires
        d.ok(),
        0 <= i < d.hist.len(),
    ensures
        ({
            let post = d.after(input);
            let back = d.hist.len() - i;
            &&& post.hist.len() == d.hist.len()
            &&& post.hist[i] == if back <= input.len() {
                input[input.len() - back]
            } else {
                d.hist[i + input.len()]
            }
            &&& post.taps == d.taps
            &&& post.factor == d.factor
            &&& post.zero == d.zero
            &&& 0 <= post.offset < d.factor
            &&& (post.offset + input.len() - d.offset) % d.factor == 0
        }),
{
    crate::dsp::lemma_chunking(d, input, seq![]);
    let k = d.count(input.len() as int);
    assert(d.after(input).offset + input.len() - d.offset == k * d.factor);
    vstd::arithmetic::div_mod::lemma_mod_multiples_basic(k, d.factor);
}

/// `out` is read from what `pre` held and `input`, at the positions `ps` but
/// the last; `ws` are the whole samples before each.
pub open spec fn walks<
    S,
    T,
    W: Fn(T) -> usize,
    B: Fn(S, S, T) -> S,
    A: Fn(T) -> T,
    R: Fn(T, usize) -> T,
>(
    pre: LinearState<S, T>,
    input: Seq<S>,
    lerp: Interpolation<W, B, A, R>,
    ps: Seq<T>,
    ws: Seq<usize>,
    out: Seq<S>,
    post: LinearState<S, T>,
) -> bool {
    let data = pre.tail + input;
    let n = out.len() as int;
    &&& ps.len() == n + 1
    &&& ws.len() == n + 1
    &&& ps[0] == pre.pos
    &&& forall|k: int| 0 <= k < n ==> call_ensures(lerp.advance, (#[trigger] ps[k],), ps[k + 1])
    &&& forall|k: int| 0 <= k <= n ==> call_ensures(lerp.whole, (ps[k],), #[trigger] ws[k])
    &&& forall|k: int| 0 <= k < n ==> #[trigger] ws[k] + 1 < data.len()
    &&& forall|k: int|
        0 <= k < n ==> call_ensures(
            lerp.blend,
            (data[ws[k] as int], data[ws[k] + 1], ps[k]),
            #[trigger] out[k],
        )
    &&& n < lerp.limit ==> ws[n] + 1 >= data.len()
    &&& n <= lerp.limit
    &&& ws[n] <= data.len() ==> {
        &&& call_ensures(lerp.rest, (ps[n], ws[n]), post.pos)
        &&& post.tail == data.skip(ws[n] as int)
    }
    &&& ws[n] > data.len() ==> {
        &&& call_ensures(lerp.rest, (ps[n], data.len() as usize), post.pos)
        &&& post.tail.len() == 0
    }
}

/// A linear resampler reads at one position after the other, from the first
/// on. At each it blends the two samples that the position lies between, the
/// earlier first; it goes on as long as both are there; and it keeps, with the
/// position counted from there, the samples from that position on.
pub proof fn lemma_reads_between_neighbours<
    S,
    T,
    W: Fn(T) -> usize,
    B: Fn(S, S, T) -> S,
    A: Fn(T) -> T,
    R: Fn(T, usize) -> T,
>(
    pre: LinearState<S, T>,
    input: Seq<S>,
    lerp: Interpolation<W, B, A, R>,
    out: Seq<S>,
    post: LinearState<S, T>,
)
    requires
        pre.reads(input, lerp, out, post),
    ensures
        exists|ps: Seq<T>, ws: Seq<usize>| walks(pre, input, lerp, ps, ws, out, post),
{
    let (ps, ws) = choose|ps: Seq<T>, ws: Seq<usize>| #[trigger]
        pre.reads_along(input, lerp, ps, ws, out, post);
    let data = pre.tail + input;
    let n = out.len() as int;
    assert(ps.len() == n + 1 && ws.len() == n + 1);
    assert forall|k: int| 0 <= k < n implies call_ensures(lerp.advance, (#[trigger] ps[k],), ps[k
        + 1]) by {
        assert(crate::dsp::is_read(data, lerp, ps[k], ws[k], ps[k + 1], out[k]));
    }
    assert forall|k: int| 0 <= k < n implies #[trigger] ws[k] + 1 < data.len() by {
        assert(crate::dsp::is_read(data, lerp, ps[k], ws[k], ps[k + 1], out[k]));
    }
    assert forall|k: int| 0 <= k < n implies call_ensures(
        lerp.blend,
        (data[ws[k] as int], data[ws[k] + 1], ps[k]),
        #[trigger] out[k],
    ) by {
        assert(crate::dsp::is_read(data, lerp, ps[k], ws[k], ps[k + 1], out[k]));
    }
    let used = crate::dsp::used_up(ws[n], data.len() as int);
    assert(ws[n] <= data.len() ==> used == ws[n]);
    assert(ws[n] > data.len() ==> used == data.len());
    assert(walks(pre, input, lerp, ps, ws, out, post));
}

/// The filter has eight taps for each sample of the factor, and one more.
pub proof fn lemma_filter_length(factor: int)
    ensures
        crate::dsp::taps_for(factor) == 8 * factor + 1,
{
}

/// Which conversion is used: none between equal rates, decimation by a whole
/// factor of at least two, and linear interpolation for every other ratio.
pub proof fn lemma_plan_fits_the_rates(in_rate: u32, out_rate: u32, factor: usize)
    requires
        out_rate > 0,
    ensures
        crate::dsp::plan_of(in_rate, out_rate) is Passthrough <==> in_rate == out_rate,
        crate::dsp::plan_of(in_rate, out_rate) == RatePlan::Decimate(factor) <==> factor >= 2
            && in_rate == factor * out_rate,
        crate::dsp::plan_of(in_rate, out_rate) is Linear <==> in_rate % out_rate != 0 || in_rate
            == 0,
{
    let (a, b) = (in_rate as int, out_rate as int);
    vstd::arithmetic::div_mod::lemma_fundamental_div_mod(a, b);
    vstd::arithmetic::div_mod::lemma_mod_bound(a, b);
    let (q, r) = (a / b, a % b);
    let f = factor as int;
    if a > b && r == 0 {
        assert(q >= 2) by (nonlinear_arith)
            requires
                a == b * q + r,
                r == 0,
                a > b,
                b > 0,
        ;
        assert(q <= a) by (nonlinear_arith)
            requires
                a == b * q,
                b > 0,
                q >= 2,
        ;
        assert(a == f * b <==> q == f) by (nonlinear_arith)
            requires
                a == b * q,
                b > 0,
        ;
    }
    if f >= 2 && a == f * b {
        assert(a > b) by (nonlinear_arith)
            requires
                a == f * b,
                f >= 2,
                b > 0,
        ;
        vstd::arithmetic::div_mod::lemma_mod_multiples_basic(f, b);
    }
    if a != 0 && a < b {
        vstd::arithmetic::div_mod::lemma_small_mod(a as nat, b as nat);
    }
    if a == 0 {
        vstd::arithmetic::div_mod::lemma_small_mod(0, b as nat);
    }
    if a == b {
        vstd::arithmetic::div_mod::lemma_mod_self_0(b);
    }
}

/// What goes into a transform: sample `i` times window value `i`, silence in
/// the place of samples that are not there, and nothing past the window.
pub proof fn lemma_samples_meet_their_window_values<S, M: Fn(S, S) -> S>(
    spec: SpectrumState<S>,
    samples: Seq<S>,
    times: M,
    out: Seq<S>,
    i: int,
)
    requires
        crate::dsp::is_framed(spec, samples, times, out),
        0 <= i < out.len(),
    ensures
        out.len() == spec.win.len(),
        i < samples.len() ==> call_ensures(times, (samples[i], spec.win[i]), out[i]),
        i >= samples.len() ==> call_ensures(times, (spec.zero, spec.win[i]), out[i]),
{
}

} // verus!
