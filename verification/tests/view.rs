//! What the views show.

use ft8mon::decoder::{Decode, DecodeSource};
use ft8mon::time::UtcTime;
use ft8mon::view::{
    extend_log, noise_key, table_rows, Dashboard, Marker, Waterfall, MAX_DECODES, WF_HEIGHT,
};

fn at(secs: i64) -> UtcTime {
    UtcTime::from_timestamp(secs, 0).unwrap()
}

fn decode(secs: i64, snr_db: i32, source: DecodeSource) -> Decode<f32> {
    Decode {
        utc: at(secs),
        snr_db,
        dt: 0.0,
        freq_hz: 1000.0,
        message: "CQ G1HJW JO01".to_string(),
        source,
        contrib_tags: vec![],
    }
}

#[test]
fn rows_scroll_down_and_off() {
    let mut w = Waterfall::new();
    for k in 0..WF_HEIGHT + 5 {
        w.push(at(k as i64), k);
    }
    assert_eq!(w.len(), WF_HEIGHT);
    assert_eq!(w.row(0).1, WF_HEIGHT + 4);
    assert_eq!(w.row(WF_HEIGHT - 1).1, 5);
    w.clear();
    assert_eq!(w.len(), 0);
}

#[test]
fn markers_lie_on_slot_boundaries() {
    let mut w = Waterfall::new();
    assert!(w.slot_markers().is_empty());
    for secs in [1_700_000_020, 1_700_000_024, 1_700_000_026, 1_700_000_039, 1_700_000_041] {
        w.push(at(secs), ());
    }
    // Rows, newest first: :41 | :39 :26 | :24 :20 past 22:13.
    assert_eq!(
        w.slot_markers(),
        vec![Marker { row: 1, second: 0 }, Marker { row: 3, second: 45 }]
    );
}

#[test]
fn markers_before_the_epoch() {
    let mut w = Waterfall::new();
    for secs in [-31, -16, -14, -1, 0, 14, 16] {
        w.push(at(secs), ());
    }
    // Slots, newest row first: 1 | 0 0 | -1 -1 | -2 | -3.
    assert_eq!(
        w.slot_markers(),
        vec![
            Marker { row: 1, second: 15 },
            Marker { row: 3, second: 0 },
            Marker { row: 5, second: 45 },
            Marker { row: 6, second: 30 },
        ]
    );
}

#[test]
fn noise_floor_is_the_15th_percentile() {
    let keys: Vec<u32> = (0..200).rev().collect();
    assert_eq!(noise_key(&keys), 30);
    assert_eq!(noise_key(&[7]), 7);
}

#[test]
fn the_log_keeps_the_latest() {
    let mut log: Vec<usize> = Vec::new();
    extend_log(&mut log, (0..400).collect());
    assert_eq!(log.len(), 400);
    extend_log(&mut log, (400..650).collect());
    assert_eq!(log, (150..650).collect::<Vec<_>>());
    extend_log(&mut log, (0..2000).collect());
    assert_eq!(log.len(), MAX_DECODES);
    assert_eq!(log[0], 1500);
    // In one batch or in two.
    let mut one: Vec<usize> = Vec::new();
    extend_log(&mut one, (0..650).collect());
    assert_eq!(one, (150..650).collect::<Vec<_>>());
}

#[test]
fn the_table_is_newest_first() {
    let ds = [
        decode(1_700_000_010, -7, DecodeSource::SingleShot),
        decode(1_700_000_025, 0, DecodeSource::Accumulated(4)),
    ];
    let rows = table_rows(&ds);
    assert_eq!(rows.len(), 2);
    assert_eq!(rows[0].index, 1);
    assert_eq!(rows[0].utc, "22:13:45");
    assert_eq!(rows[0].snr, "+0");
    assert_eq!(rows[0].badge, "accum x4");
    assert_eq!(rows[1].index, 0);
    assert_eq!(rows[1].utc, "22:13:30");
    assert_eq!(rows[1].snr, "-7");
    assert_eq!(rows[1].badge, "single");
}

#[test]
fn a_new_run_keeps_the_decodes() {
    let mut d: Dashboard<f32, u8> = Dashboard::new(0.0);
    let plus = |a: f32, b: f32| a + b;
    let mean = |s: f32, n: u32| s / n as f32;
    d.take_spectrum(at(1_700_000_010), 1, &[1.0], plus, mean);
    d.take_spectrum(at(1_700_000_025), 2, &[1.0], plus, mean);
    d.take_level(0.5);
    d.take_slot();
    d.take_decodes(vec![decode(1_700_000_010, 1, DecodeSource::SingleShot)]);
    assert_eq!(d.waterfall.len(), 2);
    assert_eq!(d.skimmer.len(), 1);
    assert_eq!((d.level, d.slot_count, d.decodes.len()), (0.5, 1, 1));
    d.start();
    assert_eq!((d.waterfall.len(), d.skimmer.len()), (0, 0));
    assert_eq!((d.slot_count, d.decodes.len()), (0, 1));
}
