//! Decode sources and the stub decoder.

use ft8mon::decoder::{
    pick_peaks, Decode, DecodeSource, Ft8Decoder, StubDecoder, MAX_PEAKS, PEAK_HI, PEAK_LO,
    STUB_MESSAGE, STUB_WINDOW,
};
use ft8mon::slot::Slot;
use ft8mon::time::UtcTime;

fn utc() -> UtcTime {
    UtcTime::from_timestamp(1_700_000_010, 0).unwrap()
}

fn keys(mags: &[f32]) -> Vec<u32> {
    mags.iter().map(|m| m.to_bits()).collect()
}

/// A Hann window's value at an index.
fn hann_at(i: usize, n: usize) -> f32 {
    let v = (std::f32::consts::PI * i as f32 / (n as f32 - 1.0)).sin();
    v * v
}

#[test]
fn badges() {
    assert_eq!(DecodeSource::SingleShot.badge(), "single");
    assert_eq!(DecodeSource::Accumulated(3).badge(), "accum x3");
    assert_eq!(DecodeSource::Both(12).badge(), "both x12");
}

#[test]
fn passband_bins_are_200_to_2800_hz() {
    let bin_hz = 12_000.0f32 / 4096.0;
    assert_eq!(PEAK_LO, (200.0 / bin_hz) as usize);
    assert_eq!(PEAK_HI, (2800.0 / bin_hz) as usize);
}

#[test]
fn window_is_the_middle_of_the_slot() {
    let slot = Slot {
        utc: utc(),
        samples: (0..5001u32).collect(),
    };
    // Window values that tell their index and their length apart.
    let stub = StubDecoder::new(0u32, |i: usize, n: usize| (n + i) as u32);
    let w = stub.window(&slot, |s: u32, v: u32| s * v).unwrap();
    assert_eq!(w.len(), STUB_WINDOW);
    assert_eq!(w[0], 452 * 4096);
    assert_eq!(w[1], 453 * 4097);
    assert_eq!(w[4095], 4547 * 8191);
    let short = Slot {
        utc: utc(),
        samples: vec![0u32; STUB_WINDOW - 1],
    };
    assert!(stub.window(&short, |s: u32, v: u32| s * v).is_none());
}

#[test]
fn stub_analyses_through_a_hann_window() {
    let slot = Slot {
        utc: utc(),
        samples: vec![1.0f32; STUB_WINDOW],
    };
    let w = StubDecoder::new(0.0f32, hann_at)
        .window(&slot, |s: f32, v: f32| s * v)
        .unwrap();
    assert_eq!(w.len(), 4096);
    assert_eq!(w[0], 0.0);
    assert_eq!(w[1024], hann_at(1024, 4096));
    assert!((w[2048] - 1.0).abs() < 1e-5);
    assert!(w[4095].abs() < 1e-9);
}

#[test]
fn peaks_come_loudest_first() {
    let mut mags = vec![1.0f32; 2048];
    for (bin, m) in [(100, 9.0), (200, 20.0), (300, 9.0), (67, 50.0), (955, 50.0), (400, 5.0)] {
        mags[bin] = m;
    }
    let level = 6.0f32.to_bits();
    assert_eq!(pick_peaks(&keys(&mags), level), vec![200, 100, 300]);
    // A plateau counts once, at its lower edge.
    mags[500] = 12.0;
    mags[501] = 12.0;
    assert_eq!(pick_peaks(&keys(&mags), level), vec![200, 500, 100, 300]);
    // What is no number is no peak.
    mags[600] = f32::NAN;
    assert_eq!(pick_peaks(&keys(&mags), level), vec![200, 500, 100, 300]);
}

#[test]
fn no_more_peaks_than_reported() {
    let mut mags = vec![1.0f32; 2048];
    for k in 0..10 {
        mags[100 + 10 * k] = 10.0 + k as f32;
    }
    let picked = pick_peaks(&keys(&mags), 6.0f32.to_bits());
    assert_eq!(picked.len(), MAX_PEAKS);
    assert_eq!(picked, vec![190, 180, 170, 160, 150, 140]);
}

#[test]
fn short_spectra_have_no_peaks() {
    assert_eq!(pick_peaks(&keys(&[1.0, 2.0]), 0), Vec::<usize>::new());
    let mut mags = vec![1.0f32; 80];
    mags[70] = 9.0;
    mags[78] = 9.0;
    assert_eq!(pick_peaks(&keys(&mags), 0), vec![70]);
}

#[test]
fn stub_decodes_report_their_peaks() {
    let mut mags = vec![1.0f32; 2048];
    mags[512] = 100.0;
    let threshold = |m: u32| (f32::from_bits(m).max(1e-9) * 6.0).to_bits();
    let snr = |k: u32, m: u32| {
        (10.0 * (f32::from_bits(k) / f32::from_bits(m).max(1e-9)).log10()) as i32 - 26
    };
    let freq = |bin: usize| bin as f32 * (12_000.0 / 4096.0);
    let out = StubDecoder::new(0.0f32, hann_at)
        .decode(utc(), &keys(&mags), threshold, snr, freq, 0.0f32);
    assert_eq!(out.len(), 1);
    assert_eq!(out[0].utc, utc());
    assert_eq!(out[0].snr_db, -6);
    assert_eq!(out[0].freq_hz, 1500.0);
    assert_eq!(out[0].dt, 0.0);
    assert_eq!(out[0].message, STUB_MESSAGE);
    assert_eq!(STUB_MESSAGE, "(stub \u{2014} MSHV FT8 decoder not yet integrated)");
    assert_eq!(out[0].source, DecodeSource::SingleShot);
    assert!(out[0].contrib_tags.is_empty());
}

struct Silent;

impl Ft8Decoder<f32, f32, f64> for Silent {
    fn decode(&mut self, _slot: &Slot<f32>) -> Vec<Decode<f32>> {
        Vec::new()
    }

    fn name(&self) -> &str {
        "silent"
    }
}

#[test]
fn a_plain_decoder_accumulates_nothing() {
    let mut d: Box<dyn Ft8Decoder<f32, f32, f64>> = Box::new(Silent);
    assert_eq!(d.name(), "silent");
    assert!(d.take_period_soft().is_empty());
    assert!(d.run_accumulation(&[1, 2]).is_empty());
}
