//! The path of a slot through decoding, storing and reporting.

use ft8mon::cycle::{batch, contributions, report, spot_for, Action, Event, SlotCycle, NO_ROW};
use ft8mon::decoder::{Decode, DecodeSource};
use ft8mon::pskreporter::{Reporter, FLUSH_NANOS};
use ft8mon::time::UtcTime;

fn utc() -> UtcTime {
    UtcTime::from_timestamp(1_700_000_010, 0).unwrap()
}

fn decode(message: &str, source: DecodeSource, tags: Vec<i64>) -> Decode<f32> {
    Decode {
        utc: utc(),
        snr_db: -12,
        dt: 0.2,
        freq_hz: 1160.0,
        message: message.to_string(),
        source,
        contrib_tags: tags,
    }
}

#[test]
fn without_a_store_nothing_is_written() {
    let mut c = SlotCycle::new(None);
    assert_eq!(c.action(), Action::Decode);
    c.step(Event::Decoded(3));
    assert_eq!(c.action(), Action::Accumulate);
    assert!(c.period_ids().is_empty());
    c.step(Event::Accumulated(vec![vec![1, 2]]));
    assert_eq!(c.action(), Action::Finish);
}

#[test]
fn a_lean_store_keeps_decodes_only() {
    let mut c = SlotCycle::new(Some(false));
    c.step(Event::Decoded(2));
    assert_eq!(c.action(), Action::SaveDecode(0));
    c.step(Event::Saved(None));
    assert_eq!(c.action(), Action::SaveDecode(1));
    c.step(Event::Saved(Some(9)));
    assert_eq!(c.action(), Action::Accumulate);
    c.step(Event::Accumulated(vec![]));
    assert_eq!(c.action(), Action::Finish);
}

#[test]
fn a_full_capture_links_decodes_to_their_periods() {
    let mut c = SlotCycle::new(Some(true));
    c.step(Event::Decoded(0));
    assert_eq!(c.action(), Action::TakeSoft);
    c.step(Event::Soft(3));
    assert_eq!(c.action(), Action::SavePeriod(0));
    c.step(Event::Saved(Some(71)));
    assert_eq!(c.action(), Action::SavePeriod(1));
    c.step(Event::Saved(None));
    assert_eq!(c.action(), Action::SavePeriod(2));
    c.step(Event::Saved(Some(73)));
    assert_eq!(c.action(), Action::Accumulate);
    assert_eq!(c.period_ids(), &[71, NO_ROW, 73]);
    c.step(Event::Accumulated(vec![vec![60, NO_ROW, 73], vec![50, 71], vec![NO_ROW]]));
    assert_eq!(c.action(), Action::SaveAccumulated(0));
    c.step(Event::Saved(Some(5)));
    assert_eq!(c.action(), Action::Link(5, 60));
    c.step(Event::Linked);
    assert_eq!(c.action(), Action::Link(5, 73));
    c.step(Event::Linked);
    // A decode that could not be stored is not linked.
    assert_eq!(c.action(), Action::SaveAccumulated(1));
    c.step(Event::Saved(None));
    // A period without a row is not linked to.
    assert_eq!(c.action(), Action::SaveAccumulated(2));
    c.step(Event::Saved(Some(6)));
    assert_eq!(c.action(), Action::Finish);
}

#[test]
fn answers_out_of_turn_change_nothing() {
    let mut c = SlotCycle::new(Some(true));
    c.step(Event::Linked);
    c.step(Event::Saved(Some(1)));
    c.step(Event::Soft(2));
    assert_eq!(c.action(), Action::Decode);
    c.step(Event::Decoded(0));
    c.step(Event::Soft(0));
    assert_eq!(c.action(), Action::Accumulate);
}

#[test]
fn contributions_are_the_tags() {
    let ds = [
        decode("A", DecodeSource::Accumulated(2), vec![4, 8]),
        decode("B", DecodeSource::SingleShot, vec![]),
    ];
    assert_eq!(contributions(&ds), vec![vec![4, 8], vec![]]);
}

#[test]
fn a_decode_becomes_a_spot() {
    let d = decode("CQ G1HJW JO01", DecodeSource::SingleShot, vec![]);
    let s = spot_for(&d, 1160, 144_174_000, utc()).unwrap();
    assert_eq!((s.call.as_str(), s.grid.as_str()), ("G1HJW", "JO01"));
    assert_eq!(s.freq_hz, 144_175_160);
    assert_eq!(s.snr, Some(-12));
    assert_eq!(s.mode, "FT8");
    assert_eq!(s.time, 1_700_000_010);
    // An accumulation-only decode has no calibrated SNR.
    let d = decode("CQ G1HJW JO01", DecodeSource::Accumulated(2), vec![]);
    assert_eq!(spot_for(&d, 0, 0, utc()).unwrap().snr, None);
    let d = decode("CQ G1HJW JO01", DecodeSource::Both(2), vec![]);
    assert_eq!(spot_for(&d, 0, 0, utc()).unwrap().snr, Some(-12));
    // No locator, no spot.
    let d = decode("G0VXM DJ9ON 73", DecodeSource::SingleShot, vec![]);
    assert!(spot_for(&d, 0, 0, utc()).is_none());
    // Frequencies and times are cut to 32 bits, times before the epoch to 0.
    let d = decode("CQ G1HJW JO01", DecodeSource::SingleShot, vec![]);
    assert_eq!(spot_for(&d, 2, 0xFFFF_FFFF, utc()).unwrap().freq_hz, 1);
    let early = UtcTime::from_timestamp(-5, 0).unwrap();
    assert_eq!(spot_for(&d, 0, 0, early).unwrap().time, 0);
    let late = UtcTime::from_timestamp(0x1_0000_0003, 0).unwrap();
    assert_eq!(spot_for(&d, 0, 0, late).unwrap().time, 3);
}

#[test]
fn reporting_queues_and_ticks() {
    let mut r = Reporter::new("GW4WND", "IO82KM", "", 0, 0, 0);
    let ds = [
        decode("CQ G1HJW JO01", DecodeSource::SingleShot, vec![]),
        decode("G0VXM DJ9ON 73", DecodeSource::SingleShot, vec![]),
        decode("CQ DX G0VXM IO93", DecodeSource::Accumulated(2), vec![]),
        decode("CQ GW4WND IO82KM", DecodeSource::SingleShot, vec![]),
    ];
    assert_eq!(report(&mut r, &ds, &[1, 2, 3, 4], 1000, utc(), 1, 1), None);
    assert_eq!(r.pending(), 2);
    assert_eq!(r.spots()[1].freq_hz, 1003);
    assert_eq!(r.spots()[1].snr, None);
    let none: [Decode<f32>; 0] = [];
    assert!(report(&mut r, &none, &[], 0, utc(), FLUSH_NANOS, 1).is_some());
}

#[test]
fn accumulated_decodes_come_last() {
    let single = vec![
        decode("CQ G1HJW JO01", DecodeSource::SingleShot, vec![]),
        decode("CQ DX G0VXM IO93", DecodeSource::SingleShot, vec![]),
    ];
    let accumulated = vec![decode("CQ DJ9ON JO31", DecodeSource::Accumulated(2), vec![4, 5])];
    let out = batch(single, accumulated);
    let messages: Vec<&str> = out.iter().map(|d| d.message.as_str()).collect();
    assert_eq!(messages, ["CQ G1HJW JO01", "CQ DX G0VXM IO93", "CQ DJ9ON JO31"]);
    assert_eq!(out[2].contrib_tags, vec![4, 5]);
    assert!(batch(Vec::<Decode<f32>>::new(), vec![]).is_empty());
}
