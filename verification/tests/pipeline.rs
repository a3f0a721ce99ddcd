//! The two cuts of the sample stream.

use ft8mon::pipeline::{low_bins, ColumnFramer, Pipeline, FFT_N, HOP, WF_BINS};
use ft8mon::slot::SLOT_SAMPLES;
use ft8mon::time::UtcTime;

/// Milliseconds before a sample, in double precision.
fn millis(centre: u64) -> i64 {
    let secs = centre as f64 / 12_000.0;
    (secs * 1000.0) as i64
}

#[test]
fn windows_hop_along_the_stream() {
    let mut f = ColumnFramer::new();
    let data: Vec<u32> = (0..(FFT_N + 2 * HOP) as u32).collect();
    let cols = f.push(&data);
    assert_eq!(cols.len(), 3);
    for (k, c) in cols.iter().enumerate() {
        assert_eq!(c.centre as usize, k * HOP + FFT_N / 2);
        assert_eq!(c.window.len(), FFT_N);
        assert_eq!(c.window[0] as usize, k * HOP);
    }
}

#[test]
fn windows_do_not_depend_on_chunks() {
    let data: Vec<u32> = (0..20_000).collect();
    let mut whole = ColumnFramer::new();
    let all = whole.push(&data);
    let mut f = ColumnFramer::new();
    let mut pieces = Vec::new();
    for chunk in data.chunks(333) {
        pieces.extend(f.push(chunk));
    }
    assert_eq!(all.len(), (20_000 - FFT_N) / HOP + 1);
    assert_eq!(all.len(), pieces.len());
    for (a, b) in all.iter().zip(&pieces) {
        assert_eq!((a.centre, &a.window), (b.centre, &b.window));
    }
    assert!(f.accepts(1));
}

#[test]
fn only_low_bins_are_shown() {
    let mags: Vec<f32> = (0..2048).map(|i| i as f32).collect();
    let low = low_bins(&mags);
    assert_eq!(low.len(), WF_BINS);
    assert_eq!(low[1023], 1023.0);
    assert_eq!(low_bins(&mags[..5]), &mags[..5]);
}

#[test]
fn columns_and_slots_keep_step() {
    let start = UtcTime::from_timestamp(1_700_000_003, 250_000_000).unwrap();
    let mut p = Pipeline::new(start);
    let lead = 6_750 * 12;
    let data = vec![0u8; lead + 2 * SLOT_SAMPLES];
    assert!(p.accepts(data.len()));
    let mut columns = Vec::new();
    let mut slots = Vec::new();
    for chunk in data.chunks(9_999) {
        let batch = p.push(chunk);
        columns.extend(batch.columns);
        slots.extend(batch.slots);
    }
    assert_eq!(slots.len(), 2);
    assert_eq!(slots[0].utc.secs, 1_700_000_010);
    for c in &columns {
        let utc = p.column_utc(c.centre, millis);
        let centre = c.centre as usize;
        if centre >= lead && centre < lead + SLOT_SAMPLES {
            assert_eq!(utc.slot(), slots[0].utc.slot());
        } else if centre >= lead + SLOT_SAMPLES {
            assert_eq!(utc.slot(), slots[1].utc.slot());
        } else {
            assert_eq!(utc.slot(), slots[0].utc.slot() - 1);
        }
    }
}

#[test]
fn columns_are_dated_by_their_sample() {
    let start = UtcTime::from_timestamp(1_700_000_003, 250_000_000).unwrap();
    let p: Pipeline<u8> = Pipeline::new(start);
    assert_eq!(p.column_utc(0, millis), start);
    // The fraction of a millisecond is dropped.
    assert_eq!(p.column_utc(2_048 + 11, millis).nanos, 421_000_000);
    assert_eq!(p.column_utc(9_000, millis).secs, 1_700_000_004);
    // Double precision can fall a millisecond short.
    let late = p.column_utc(3_075_072, millis);
    assert_eq!((late.secs, late.nanos), (1_700_000_259, 505_000_000));
    let exact = p.column_utc(3_075_072, |c: u64| (c / 12) as i64);
    assert_eq!((exact.secs, exact.nanos), (1_700_000_259, 506_000_000));
}

#[test]
fn a_start_between_milliseconds_blurs_one() {
    // Half a millisecond past: slots begin half a millisecond early.
    let start = UtcTime::from_timestamp(1_700_000_003, 250_500_000).unwrap();
    let p: Pipeline<u8> = Pipeline::new(start);
    let exact = |c: u64| (c / 12) as i64;
    let lead = 6_749 * 12;
    let slot = UtcTime::from_timestamp(1_700_000_010, 0).unwrap().slot();
    assert_eq!(p.column_utc(lead, exact).slot(), slot - 1);
    assert_eq!(p.column_utc(lead + 11, exact).slot(), slot - 1);
    assert_eq!(p.column_utc(lead + 12, exact).slot(), slot);
    let len = SLOT_SAMPLES as u64;
    assert_eq!(p.column_utc(lead + len - 1, exact).slot(), slot);
    assert_eq!(p.column_utc(lead + len + 12, exact).slot(), slot + 1);
}
