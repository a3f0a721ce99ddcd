//! Soft-decision decoding with accumulation.

use ft8mon::accumulate::{LlrSample, LLR_LEN};
use ft8mon::decoder::{Decode, DecodeSource};
use ft8mon::mshv::{single_shot, Found, MshvDecoder};
use ft8mon::time::UtcTime;

type Decoder = MshvDecoder<f32, f64>;

fn at(secs: i64) -> UtcTime {
    UtcTime::from_timestamp(secs, 0).unwrap()
}

fn gap(a: f32, b: f32) -> u32 {
    (a - b).abs().to_bits()
}

fn ease(a: f32, b: f32) -> f32 {
    0.7 * a + 0.3 * b
}

fn plus(a: f64, b: f64) -> f64 {
    a + b
}

/// Decodes once the evidence is strong enough.
fn ldpc(llr: [f64; LLR_LEN]) -> Option<String> {
    if llr[0] >= 2.0 {
        Some("CQ G1HJW JO01".to_string())
    } else {
        None
    }
}

fn candidate(freq: f32, strength: f64) -> LlrSample<f32, f64> {
    LlrSample {
        freq_hz: freq,
        dt: 0.0,
        sync: 4,
        llr: [strength; LLR_LEN],
        tag: 0,
    }
}

fn single(message: &str, utc: UtcTime) -> Decode<f32> {
    Decode {
        utc,
        snr_db: -3,
        dt: 0.0,
        freq_hz: 1000.0,
        message: message.to_string(),
        source: DecodeSource::SingleShot,
        contrib_tags: vec![],
    }
}

fn accumulate(d: &mut Decoder, ids: &[i64]) -> Vec<Decode<f32>> {
    d.run_accumulation(ids, gap, ease, 0.0, plus, ldpc)
}

#[test]
fn llr_vectors_need_their_full_length() {
    assert!(Decoder::llr_decodes(&[2.5; LLR_LEN], &ldpc));
    assert!(!Decoder::llr_decodes(&[1.5; LLR_LEN], &ldpc));
    assert!(!Decoder::llr_decodes(&[2.5; LLR_LEN - 1], &ldpc));
    assert!(!Decoder::llr_decodes(&[], &ldpc));
}

#[test]
fn soft_evidence_is_kept_per_candidate() {
    let mut d = Decoder::new(at(0));
    let utc = at(1_700_000_010);
    d.note_slot(utc, &[], vec![candidate(800.0, 1.0), candidate(900.0, 3.0)], ldpc);
    let soft = d.take_period_soft();
    assert_eq!(soft.len(), 2);
    assert_eq!(soft[0].utc, utc);
    assert_eq!(soft[0].freq_hz, 800.0);
    assert_eq!(soft[0].sync, 4);
    assert_eq!(soft[0].llr, vec![1.0; LLR_LEN]);
    assert!(!soft[0].decoded);
    assert!(soft[1].decoded);
    assert!(d.take_period_soft().is_empty());
}

#[test]
fn weak_signals_surface_from_several_periods() {
    let mut d = Decoder::new(at(0));
    let first = at(1_700_000_010);
    d.note_slot(first, &[], vec![candidate(1000.0, 1.0)], ldpc);
    assert!(accumulate(&mut d, &[41]).is_empty());
    // Two slots on: the same sequence.
    let second = at(1_700_000_040);
    d.note_slot(second, &[], vec![candidate(1001.0, 1.0)], ldpc);
    let out = accumulate(&mut d, &[57]);
    assert_eq!(out.len(), 1);
    assert_eq!(out[0].utc, second);
    assert_eq!(out[0].message, "CQ G1HJW JO01");
    assert_eq!(out[0].source, DecodeSource::Accumulated(2));
    assert_eq!(out[0].contrib_tags, vec![41, 57]);
    assert_eq!(out[0].snr_db, 0);
    assert_eq!(out[0].freq_hz, ease(ease(1000.0, 1000.0), 1001.0));
    // The same message again is no news.
    d.note_slot(at(1_700_000_070), &[], vec![candidate(1000.0, 1.0)], ldpc);
    assert!(accumulate(&mut d, &[60]).is_empty());
    assert_eq!(d.periods(), 3);
}

#[test]
fn adjacent_slots_are_never_combined() {
    let mut d = Decoder::new(at(0));
    d.note_slot(at(1_700_000_010), &[], vec![candidate(1000.0, 1.0)], ldpc);
    assert!(accumulate(&mut d, &[1]).is_empty());
    d.note_slot(at(1_700_000_025), &[], vec![candidate(1000.0, 1.0)], ldpc);
    assert!(accumulate(&mut d, &[2]).is_empty());
}

#[test]
fn single_shot_messages_are_not_reported_twice() {
    let mut d = Decoder::new(at(0));
    d.note_slot(at(1_700_000_010), &[], vec![candidate(1000.0, 1.0)], ldpc);
    accumulate(&mut d, &[1]);
    let utc = at(1_700_000_040);
    d.note_slot(utc, &[single("CQ G1HJW JO01", utc)], vec![candidate(1000.0, 1.0)], ldpc);
    assert!(accumulate(&mut d, &[2]).is_empty());
    // It was noted for the track all the same.
    d.note_slot(at(1_700_000_070), &[], vec![candidate(1000.0, 1.0)], ldpc);
    assert!(accumulate(&mut d, &[3]).is_empty());
}

#[test]
fn missing_row_ids_skip_the_slot() {
    let mut d = Decoder::new(at(0));
    d.note_slot(at(1_700_000_010), &[], vec![candidate(1000.0, 1.0)], ldpc);
    assert!(accumulate(&mut d, &[]).is_empty());
    assert_eq!(d.periods(), 0);
    // The samples are gone with it.
    d.note_slot(at(1_700_000_040), &[], vec![candidate(1000.0, 1.0)], ldpc);
    assert!(accumulate(&mut d, &[2]).is_empty());
    assert_eq!(d.periods(), 1);
}

#[test]
fn found_messages_are_stamped_with_their_slot() {
    let found = [
        Found { snr_db: -7, dt: 0.25f32, freq_hz: 1160.0, message: "CQ G1HJW JO01".to_string() },
        Found { snr_db: 3, dt: -0.5, freq_hz: 700.0, message: "G1HJW G0BIX 73".to_string() },
    ];
    let out = single_shot(&found, at(1_700_000_010));
    assert_eq!(out.len(), 2);
    for (d, f) in out.iter().zip(&found) {
        assert_eq!(d.utc, at(1_700_000_010));
        assert_eq!((d.snr_db, d.dt, d.freq_hz), (f.snr_db, f.dt, f.freq_hz));
        assert_eq!(d.message, f.message);
        assert_eq!(d.source, DecodeSource::SingleShot);
        assert!(d.contrib_tags.is_empty());
    }
}
