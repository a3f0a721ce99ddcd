//! Sample-rate conversion.

use ft8mon::dsp::{hann as window, num_taps, Decimator, Interpolation, LinearResampler, Resampler, Spectrum};

fn mac(acc: f32, tap: f32, x: f32) -> f32 {
    acc + tap * x
}

fn hann(n: usize) -> Vec<f32> {
    window(n, 1.0, |i: usize, n: usize| {
        let v = (std::f32::consts::PI * i as f32 / (n as f32 - 1.0)).sin();
        v * v
    })
}

fn lowpass(n: usize, factor: usize) -> Vec<f32> {
    let fc = 0.45 / factor as f32;
    let mid = (n - 1) as f32 / 2.0;
    let win = hann(n);
    let mut h: Vec<f32> = (0..n)
        .map(|k| {
            let x = k as f32 - mid;
            let sinc = if x.abs() < 1e-6 {
                2.0 * fc
            } else {
                (2.0 * std::f32::consts::PI * fc * x).sin() / (std::f32::consts::PI * x)
            };
            sinc * win[k]
        })
        .collect();
    let sum: f32 = h.iter().sum();
    for v in &mut h {
        *v /= sum;
    }
    h
}

fn decimator(factor: usize) -> Decimator<f32> {
    Decimator::new(factor, lowpass(num_taps(factor), factor), 0.0)
}

fn linear(step: f64, input: &[f32], r: &mut LinearResampler<f32, f64>, limit: usize) -> Vec<f32> {
    r.process(
        input,
        &Interpolation {
            whole: |pos: f64| pos.floor() as usize,
            blend: |a: f32, b: f32, pos: f64| {
                let f = (pos - pos.floor()) as f32;
                a * (1.0 - f) + b * f
            },
            advance: |pos: f64| pos + step,
            rest: |pos: f64, n: usize| pos - n as f64,
            limit,
        },
    )
}

#[test]
fn decimator_output_count_is_consistent() {
    // 48 kHz -> 12 kHz: 4:1, regardless of how input is chunked.
    let mut d = decimator(4);
    let mut total = 0;
    for chunk in [1000usize, 333, 4096, 17].iter() {
        total += d.process(&vec![0.0; *chunk], &mac).len();
    }
    let expected = (1000 + 333 + 4096 + 17) / 4;
    assert!((total as i64 - expected as i64).abs() <= 1);
}

#[test]
fn decimator_passes_dc() {
    let mut d = decimator(4);
    // Steady DC of 1.0 should come out near 1.0 once the FIR fills.
    let mut last = 0.0;
    for _ in 0..20 {
        for v in d.process(&vec![1.0; 4096], &mac) {
            last = v;
        }
    }
    assert!((last - 1.0).abs() < 0.02, "DC gain off: {last}");
}

#[test]
fn linear_resampler_rate_ratio() {
    // 44_100 -> 12_000 should yield about in_len * 12000/44100 samples.
    let mut r = LinearResampler::new(0.0);
    let n_in = 44_100;
    let out = linear(44_100.0 / 12_000.0, &vec![0.0; n_in], &mut r, usize::MAX);
    let expected = n_in as f64 * 12_000.0 / 44_100.0;
    assert!((out.len() as f64 - expected).abs() < 2.0);
}

#[test]
fn short_windows_pass_everything() {
    assert_eq!(hann(0), Vec::<f32>::new());
    assert_eq!(hann(1), vec![1.0]);
    let w = hann(5);
    assert_eq!((w[0], w[2]), (0.0, 1.0));
    assert!((w[1] - 0.5).abs() < 1e-6);
}

#[test]
fn decimation_does_not_depend_on_chunks() {
    let input: Vec<f32> = (0..5000).map(|i| ((i * 37) % 101) as f32).collect();
    let whole = decimator(4).process(&input, &mac);
    let mut d = decimator(4);
    let mut pieces = Vec::new();
    for chunk in input.chunks(3) {
        pieces.extend(d.process(chunk, &mac));
    }
    assert_eq!(whole, pieces);
    assert_eq!(whole.len(), 1250);
    // Empty chunks, and a length that the factor does not divide.
    let mut d = decimator(4);
    let mut pieces = Vec::new();
    let mut rest = &input[..];
    let mut total = 0;
    for size in [1000, 0, 333, 0, 17] {
        let (chunk, more) = rest.split_at(size);
        pieces.extend(d.process(chunk, &mac));
        rest = more;
        total += size;
    }
    assert_eq!(pieces, decimator(4).process(&input[..total], &mac));
    assert_eq!(pieces.len(), 338);
}

#[test]
fn taps_run_from_the_newest_sample_back() {
    let mut taps = vec![0i64; num_taps(2)];
    taps[0] = 1;
    taps[3] = 10;
    let mut d = Decimator::new(2, taps, 0);
    let out = d.process(&[1, 2, 3, 4, 5, 6, 7], &|acc, t, x| acc + t * x);
    assert_eq!(out, vec![1, 3, 25, 47]);
}

#[test]
fn methods_by_rate() {
    for (rate, name) in [
        (12_000, "passthrough"),
        (48_000, "integer decimation (FIR)"),
        (24_000, "integer decimation (FIR)"),
        (44_100, "linear (non-integer ratio)"),
        (8_000, "linear (non-integer ratio)"),
    ] {
        let r = Resampler::for_rate(rate, 12_000, 0.0f32, 0.0f64, lowpass);
        assert_eq!(r.describe(), name);
    }
}

#[test]
fn interpolation_carries_over_chunks() {
    let input: Vec<f32> = (0..1000).map(|i| i as f32).collect();
    let mut whole = LinearResampler::new(0.0);
    let all = linear(1.5, &input, &mut whole, usize::MAX);
    assert_eq!(&all[..4], &[0.0, 1.5, 3.0, 4.5]);
    assert_eq!(all.len(), 666);
    let mut r = LinearResampler::new(0.0);
    let mut pieces = Vec::new();
    for chunk in input.chunks(7) {
        pieces.extend(linear(1.5, chunk, &mut r, usize::MAX));
    }
    assert_eq!(all, pieces);
    // Upsampling reads between the same two samples more than once.
    let mut up = LinearResampler::new(0.0);
    assert_eq!(linear(0.5, &[0.0, 1.0, 2.0], &mut up, usize::MAX), vec![0.0, 0.5, 1.0, 1.5]);
    // A step past the end of a chunk carries over to the next.
    let mut far = LinearResampler::new(0.0);
    assert_eq!(linear(3.0, &[0.0, 1.0], &mut far, usize::MAX), vec![0.0]);
    assert_eq!(linear(3.0, &[2.0, 3.0, 4.0, 5.0], &mut far, usize::MAX), vec![3.0]);
    let mut far = LinearResampler::new(0.0);
    assert_eq!(linear(10.0, &[5.0, 6.0], &mut far, usize::MAX), vec![5.0]);
    for _ in 0..4 {
        assert_eq!(linear(10.0, &[7.0, 8.0], &mut far, usize::MAX), Vec::<f32>::new());
    }
    assert_eq!(linear(10.0, &[9.0, 10.0], &mut far, usize::MAX), vec![9.0]);
    // The limit ends a chunk early.
    let mut cut = LinearResampler::new(0.0);
    assert_eq!(linear(1.0, &[1.0, 2.0, 3.0], &mut cut, 1), vec![1.0]);
    assert_eq!(linear(1.0, &[], &mut cut, 9), vec![2.0]);
}

#[test]
fn resampling_does_not_depend_on_chunks() {
    let input: Vec<f32> = (0..1000).map(|i| ((i * 37) % 101) as f32).collect();
    // Steps that binary fractions hold, so that positions are exact.
    for step in [0.25, 1.5, 2.5, 3.0, 3.675f32 as f64, 10.0] {
        let step = (step * 64.0).round() / 64.0;
        let whole = linear(step, &input, &mut LinearResampler::new(0.0), usize::MAX);
        for size in [1, 2, 3, 7, 250] {
            let mut r = LinearResampler::new(0.0);
            let mut pieces = linear(step, &[], &mut r, usize::MAX);
            for chunk in input.chunks(size) {
                pieces.extend(linear(step, chunk, &mut r, usize::MAX));
            }
            assert_eq!(whole, pieces, "step {step}, chunks of {size}");
        }
    }
}

#[test]
fn each_method_takes_its_samples() {
    let lerp = Interpolation {
        whole: |pos: usize| pos,
        blend: |a: f32, _b: f32, _pos: usize| a,
        advance: |pos: usize| pos + 2,
        rest: |pos: usize, n: usize| pos - n,
        limit: usize::MAX,
    };
    let mut pass = Resampler::for_rate(12_000, 12_000, 0.0f32, 0usize, lowpass);
    assert_eq!(pass.process(&[1.0, 2.0], &mac, &lerp), vec![1.0, 2.0]);
    let mut dec = Resampler::for_rate(48_000, 12_000, 0.0f32, 0usize, lowpass);
    assert_eq!(dec.process(&vec![0.0; 8], &mac, &lerp), vec![0.0, 0.0]);
    let mut lin = Resampler::for_rate(44_100, 12_000, 0.0f32, 0usize, lowpass);
    assert_eq!(lin.process(&[1.0, 2.0, 3.0, 4.0], &mac, &lerp), vec![1.0, 3.0]);
    assert_eq!(lin.process(&[5.0, 6.0], &mac, &lerp), vec![5.0]);
}

#[test]
fn spectra_are_framed_to_their_length() {
    let s = Spectrum::new(vec![1.0f32, 2.0, 3.0, 4.0], 0.0);
    let times = |a: f32, b: f32| a * b;
    assert_eq!(s.frame(&[1.0, 1.0], times), vec![1.0, 2.0, 0.0, 0.0]);
    assert_eq!(s.frame(&[1.0; 9], times), vec![1.0, 2.0, 3.0, 4.0]);
    assert_eq!(s.bins(), 2);
}
