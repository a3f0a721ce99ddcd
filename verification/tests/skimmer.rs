//! The skimmer's waterfall buffer.

use ft8mon::skimmer::{subcol, SkimmerWaterfall, BINS, SLOTS_MAX, SUBCOLS};
use ft8mon::time::UtcTime;

fn plus(a: f32, b: f32) -> f32 {
    a + b
}

fn mean(sum: f32, n: u32) -> f32 {
    sum * (1.0 / n as f32)
}

fn push(w: &mut SkimmerWaterfall<f32>, secs: i64, ms: u32, mag: f32) {
    let utc = UtcTime::from_timestamp(secs, ms * 1_000_000).unwrap();
    assert!(w.accepts(utc));
    w.push_column(utc, &vec![mag; BINS], plus, mean);
}

#[test]
fn sub_columns_divide_the_slot() {
    for r in 0..15i64 {
        for ms in 0..2000u32 {
            let t = UtcTime { secs: r, nanos: ms * 1_000_000 + 999_999 };
            let into_slot = (r as f64 + ms as f64 / 1000.0) / 15.0;
            let expect = ((into_slot * SUBCOLS as f64) as usize).min(SUBCOLS - 1);
            assert_eq!(subcol(t), expect);
        }
    }
    // Before the epoch the slot still begins on a multiple of 15 s.
    assert_eq!(subcol(UtcTime { secs: -15, nanos: 0 }), 0);
    assert_eq!(subcol(UtcTime { secs: -1, nanos: 0 }), 11);
}

#[test]
fn a_slot_becomes_a_stripe_of_averages() {
    let mut w = SkimmerWaterfall::new(0.0f32);
    push(&mut w, 1_700_000_010, 0, 1.0);
    push(&mut w, 1_700_000_011, 0, 3.0);
    push(&mut w, 1_700_000_024, 900, 5.0);
    assert_eq!(w.len(), 0);
    // Crossing the boundary finishes the slot.
    push(&mut w, 1_700_000_025, 0, 9.0);
    assert_eq!(w.len(), 1);
    let s = w.stripe(0);
    assert_eq!(s.slot, 1_700_000_010 / 15);
    assert_eq!(s.subcols.len(), SUBCOLS);
    assert_eq!(s.subcols[0], vec![2.0; BINS]);
    assert_eq!(s.subcols[5], vec![0.0; BINS]);
    assert_eq!(s.subcols[11], vec![5.0; BINS]);
    w.flush(&mean);
    assert_eq!(w.len(), 2);
    assert_eq!(w.stripe(1).subcols[0], vec![9.0; BINS]);
    // Nothing more to finish.
    w.flush(&mean);
    assert_eq!(w.len(), 2);
}

#[test]
fn short_columns_leave_the_upper_bins_alone() {
    let mut w = SkimmerWaterfall::new(0.0f32);
    let utc = UtcTime::from_timestamp(30, 0).unwrap();
    w.push_column(utc, &[2.0, 4.0], plus, mean);
    w.push_column(utc, &vec![6.0; BINS + 5], plus, mean);
    w.flush(&mean);
    let col = &w.stripe(0).subcols[0];
    assert_eq!(&col[..3], &[4.0, 5.0, 3.0]);
    assert_eq!(col.len(), BINS);
}

#[test]
fn only_the_latest_stripes_are_kept() {
    let mut w = SkimmerWaterfall::new(0.0f32);
    for k in 0..30i64 {
        push(&mut w, 1_700_000_010 + 15 * k, 0, k as f32);
    }
    assert_eq!(w.len(), SLOTS_MAX);
    assert_eq!(w.stripe(0).subcols[0][0], 5.0);
    assert_eq!(w.stripe(SLOTS_MAX - 1).subcols[0][0], 28.0);
    assert_eq!(w.first_visible(8), 16);
    assert_eq!(w.first_visible(24), 0);
    assert_eq!(w.first_visible(99), 0);
    assert_eq!(w.first_visible(0), 23);
    let slot = w.stripe(17).slot;
    assert_eq!(w.column_of(16, slot), Some(1));
    assert_eq!(w.column_of(18, slot), None);
    w.clear();
    assert_eq!(w.len(), 0);
    w.flush(&mean);
    assert_eq!(w.len(), 0);
}
