//! Rows of the capture database.

use ft8mon::accumulate::LLR_LEN;
use ft8mon::decoder::{Decode, DecodeSource};
use ft8mon::store::{pack_llr, unpack_llr, PeriodSoft, Store, BLOB_LEN};
use ft8mon::time::UtcTime;

fn bits(x: f64) -> u32 {
    (x as f32).to_bits()
}

fn utc() -> UtcTime {
    UtcTime::from_timestamp(1_700_000_010, 0).unwrap()
}

fn period(llr: Vec<f64>, decoded: bool) -> PeriodSoft<f32, f64> {
    PeriodSoft {
        utc: utc(),
        freq_hz: 1160.0,
        dt: 0.1,
        sync: 7,
        llr,
        decoded,
    }
}

#[test]
fn decode_rows() {
    let store = Store::new(3, true);
    for (source, name, depth) in [
        (DecodeSource::SingleShot, "single", None),
        (DecodeSource::Accumulated(3), "accum", Some(3)),
        (DecodeSource::Both(4), "both", Some(4)),
    ] {
        let row = store.record_decode(&Decode {
            utc: utc(),
            snr_db: -12,
            dt: 0.2f32,
            freq_hz: 1160.0,
            message: "CQ M8LBY IO91".to_string(),
            source,
            contrib_tags: vec![],
        });
        assert_eq!(row.session_id, 3);
        assert_eq!(row.utc, "2023-11-14T22:13:30+00:00");
        assert_eq!(row.snr_db, -12);
        assert_eq!((row.dt, row.freq_hz), (0.2, 1160.0));
        assert_eq!(row.message, "CQ M8LBY IO91");
        assert_eq!(row.source, name);
        assert_eq!(row.depth, depth);
    }
}

#[test]
fn a_stored_vector_is_174_singles() {
    let store = Store::new(1, true);
    let llr: Vec<f64> = (0..LLR_LEN).map(|i| (i as f64) * 0.01 - 0.5).collect();
    let row = store.record_period(&period(llr, false), bits).unwrap();
    assert_eq!(row.llr.len(), LLR_LEN * 4);
    assert_eq!(BLOB_LEN, LLR_LEN * 4);
    // First value survives the round trip.
    let first = f32::from_le_bytes([row.llr[0], row.llr[1], row.llr[2], row.llr[3]]);
    assert!((first - (-0.5f32)).abs() < 1e-6);
    assert_eq!(row.utc, "2023-11-14T22:13:30+00:00");
    assert_eq!((row.session_id, row.sync, row.decoded), (1, 7, 0));
    assert_eq!((row.freq_hz, row.dt), (1160.0, 0.1));
}

#[test]
fn short_vectors_are_padded_and_long_ones_cut() {
    let store = Store::new(1, true);
    let row = store.record_period(&period(vec![1.0, 2.0], true), bits).unwrap();
    assert_eq!(row.decoded, 1);
    let words = unpack_llr(&row.llr).unwrap();
    assert_eq!(words[1], 2.0f32.to_bits());
    assert!(words[2..].iter().all(|w| *w == 0));
    let row = store.record_period(&period(vec![1.0; 200], true), bits).unwrap();
    assert_eq!(row.llr.len(), BLOB_LEN);
}

#[test]
fn a_lean_store_writes_no_periods() {
    let store = Store::new(8, false);
    assert!(!store.capture_soft());
    assert_eq!(store.session_id(), 8);
    assert!(store.record_period(&period(vec![0.0; LLR_LEN], true), bits).is_none());
}

#[test]
fn vectors_read_back_as_written() {
    let words: Vec<u32> = (0..LLR_LEN as u32).map(|i| i.wrapping_mul(0x9E37_79B9)).collect();
    let blob = pack_llr(&words);
    assert_eq!(&blob[4..8], &0x9E37_79B9u32.to_le_bytes());
    assert_eq!(unpack_llr(&blob), Some(words));
    assert_eq!(unpack_llr(&blob[1..]), None);
    assert_eq!(unpack_llr(&[]), None);
}
