//! Cross-period accumulation.

use ft8mon::accumulate::{
    nearest, Accumulator, LlrSample, DT_TOL_KEY, FREQ_TOL_KEY, LLR_LEN, MAX_AGE, WINDOW,
};

type Acc = Accumulator<f32, f64>;

fn gap(a: f32, b: f32) -> u32 {
    (a - b).abs().to_bits()
}

fn ease(centroid: f32, sample: f32) -> f32 {
    0.7 * centroid + 0.3 * sample
}

fn plus(a: f64, b: f64) -> f64 {
    a + b
}

fn sample(freq: f32, fill: f64) -> LlrSample<f32, f64> {
    LlrSample {
        freq_hz: freq,
        dt: 0.1,
        sync: 1,
        llr: [fill; LLR_LEN],
        tag: 0,
    }
}

fn tagged(freq: f32, dt: f32, tag: i64) -> LlrSample<f32, f64> {
    LlrSample {
        freq_hz: freq,
        dt,
        sync: 1,
        llr: [tag as f64; LLR_LEN],
        tag,
    }
}

fn add(acc: &mut Acc, samples: &[LlrSample<f32, f64>]) -> Vec<usize> {
    acc.add(samples, gap, ease)
}

/// Step the accumulator one slot, alternating parity 0,1,0,1,... as real
/// consecutive UTC slots do.
fn step(acc: &mut Acc, slot: u64) {
    acc.next_period((slot & 1) as u8);
}

#[test]
fn same_frequency_accumulates_one_track() {
    let mut acc = Acc::new();
    // A station appears every other slot, same parity each time.
    for slot in [0u64, 2, 4] {
        step(&mut acc, slot);
        add(&mut acc, &[sample(1000.0, 1.0)]);
    }
    assert_eq!(acc.track_count(), 1);
    assert_eq!(acc.depth(0), 3);
    // Three periods of all-1.0 LLRs sum to 3.0 per bit.
    assert!((acc.summed_llr(0, 0.0, &plus)[0] - 3.0).abs() < 1e-9);
}

#[test]
fn distant_frequency_forms_a_new_track() {
    let mut acc = Acc::new();
    step(&mut acc, 0);
    add(&mut acc, &[sample(1000.0, 1.0), sample(1500.0, 1.0)]);
    assert_eq!(acc.track_count(), 2);
}

#[test]
fn small_drift_stays_one_track() {
    let mut acc = Acc::new();
    step(&mut acc, 0);
    add(&mut acc, &[sample(1000.0, 1.0)]);
    step(&mut acc, 2); // same parity, two slots on
    add(&mut acc, &[sample(1002.5, 1.0)]); // within the frequency tolerance
    assert_eq!(acc.track_count(), 1);
    assert_eq!(acc.depth(0), 2);
}

#[test]
fn opposite_parity_does_not_accumulate() {
    // Two signals at the same frequency but in opposite slot sequences are
    // different stations and must never share a track.
    let mut acc = Acc::new();
    step(&mut acc, 0); // even slot
    add(&mut acc, &[sample(1000.0, 1.0)]);
    step(&mut acc, 1); // odd slot: adjacent, opposite parity
    add(&mut acc, &[sample(1000.0, 1.0)]);
    assert_eq!(acc.track_count(), 2, "parities must form separate tracks");
    assert_eq!(acc.depth(0), 1);
    assert_eq!(acc.depth(1), 1);
}

#[test]
fn both_parities_track_independently() {
    // A monitor hears stations in both sequences; each parity keeps its own
    // track and accumulates only within itself.
    let mut acc = Acc::new();
    for slot in 0..6u64 {
        step(&mut acc, slot);
        // An even-slot station at 1000 Hz, an odd-slot one at 2000 Hz.
        let freq = if slot % 2 == 0 { 1000.0 } else { 2000.0 };
        add(&mut acc, &[sample(freq, 1.0)]);
    }
    assert_eq!(acc.track_count(), 2);
    // Three even slots, three odd: each track has depth 3.
    assert_eq!(acc.depth(0), 3);
    assert_eq!(acc.depth(1), 3);
}

#[test]
fn window_caps_accumulation_depth() {
    let mut acc = Acc::new();
    // Same-parity slots: 0, 2, 4, ...
    for k in 0..(WINDOW + 5) {
        step(&mut acc, (k as u64) * 2);
        add(&mut acc, &[sample(1000.0, 1.0)]);
    }
    assert_eq!(acc.depth(0), WINDOW);
}

#[test]
fn stale_tracks_are_pruned() {
    let mut acc = Acc::new();
    step(&mut acc, 0);
    add(&mut acc, &[sample(1000.0, 1.0)]);
    for k in 1..(MAX_AGE + 3) {
        step(&mut acc, k);
    }
    assert_eq!(acc.track_count(), 0);
}

#[test]
fn note_decode_flags_only_changes() {
    let mut acc = Acc::new();
    step(&mut acc, 0);
    add(&mut acc, &[sample(1000.0, 1.0)]);
    assert!(acc.note_decode(0, "CQ G4ABC IO81"));
    assert!(!acc.note_decode(0, "CQ G4ABC IO81")); // repeat
    assert!(acc.note_decode(0, "G4ABC GW4WND 73")); // changed
}

#[test]
fn tolerance_keys_are_four_hertz_and_three_tenths() {
    assert_eq!(FREQ_TOL_KEY, 4.0f32.to_bits());
    assert_eq!(DT_TOL_KEY, 0.30f32.to_bits());
}

#[test]
fn tolerances_are_inclusive_and_both_needed() {
    let mut acc = Acc::new();
    step(&mut acc, 0);
    add(&mut acc, &[tagged(1000.0, 0.0, 1)]);
    // Exactly 4 Hz away still belongs.
    assert_eq!(add(&mut acc, &[tagged(1004.0, 0.0, 2)]), vec![0]);
    // Close in frequency but not in time.
    assert_eq!(add(&mut acc, &[tagged(1001.0, 0.9, 3)]), vec![1]);
    // No number at all: belongs nowhere.
    assert_eq!(add(&mut acc, &[tagged(f32::NAN, 0.0, 4)]), vec![2]);
    assert_eq!(acc.track_count(), 3);
}

#[test]
fn closest_track_wins_and_ties_go_to_the_first() {
    let near = gap(0.0, 1.0);
    let far = gap(0.0, 3.0);
    let out = gap(0.0, 5.0);
    let same = gap(0.0, 0.0);
    assert_eq!(nearest(&vec![]), None);
    assert_eq!(nearest(&vec![None, Some((out, same))]), None);
    assert_eq!(nearest(&vec![Some((far, same)), Some((near, same))]), Some(1));
    assert_eq!(nearest(&vec![None, Some((near, same)), Some((near, same))]), Some(1));
}

#[test]
fn centroid_eases_toward_the_sample() {
    let mut acc = Acc::new();
    step(&mut acc, 0);
    add(&mut acc, &[tagged(1000.0, 0.0, 1), tagged(1003.0, 0.2, 2)]);
    assert_eq!(acc.track_freq(0), ease(1000.0, 1003.0));
    assert_eq!(acc.track_dt(0), ease(0.0, 0.2));
}

#[test]
fn window_holds_the_latest_tags_and_sums_them() {
    let mut acc = Acc::new();
    for k in 0..11i64 {
        acc.next_period(0);
        add(&mut acc, &[tagged(1000.0, 0.0, k)]);
    }
    assert_eq!(acc.track_tags(0), vec![3, 4, 5, 6, 7, 8, 9, 10]);
    assert_eq!(acc.summed_llr(0, 0.0, &plus)[17], 52.0);
    assert_eq!(acc.periods(), 11);
}

#[test]
fn touched_tracks_are_reported_once() {
    let mut acc = Acc::new();
    acc.next_period(1);
    let touched = add(
        &mut acc,
        &[sample(500.0, 1.0), sample(900.0, 1.0), sample(501.0, 1.0)],
    );
    assert_eq!(touched, vec![0, 1]);
    assert_eq!(acc.depth(0), 2);
}

#[test]
fn a_track_survives_up_to_its_age_limit() {
    let mut acc = Acc::default();
    acc.next_period(0);
    add(&mut acc, &[sample(1000.0, 1.0)]);
    for _ in 0..MAX_AGE {
        acc.next_period(0);
    }
    assert_eq!(acc.track_count(), 1);
    acc.next_period(0);
    assert_eq!(acc.track_count(), 0);
}

#[test]
fn windows_follow_the_history() {
    let mut acc = Acc::new();
    // One station falls silent early; the other goes on, and moves up in the
    // list when the first is dropped.
    for p in 0..20i64 {
        acc.next_period(0);
        let mut samples = vec![tagged(1500.0, 0.1, 100 + p)];
        if p < 3 {
            samples.insert(0, tagged(900.0, 0.1, p));
        }
        add(&mut acc, &samples);
        if p == 2 {
            assert_eq!(acc.track_tags(0), vec![0, 1, 2]);
            assert_eq!(acc.track_tags(1), vec![100, 101, 102]);
            acc.note_decode(0, "CQ G1HJW JO01");
        }
    }
    assert_eq!(acc.track_count(), 1);
    assert_eq!(acc.depth(0), WINDOW);
    assert_eq!(acc.track_tags(0), (112..120).collect::<Vec<i64>>());
    let sum: i64 = (112..120).sum();
    assert_eq!(acc.summed_llr(0, 0.0, &plus)[0], sum as f64);
}
