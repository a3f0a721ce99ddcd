//! UTC instants, held against `chrono`.

use chrono::{DateTime, TimeZone, Utc};
use ft8mon::time::{floor_div_mod, UtcTime, MAX_SECS, MIN_SECS};

fn both(secs: i64, nanos: u32) -> (UtcTime, DateTime<Utc>) {
    (
        UtcTime::from_timestamp(secs, nanos).unwrap(),
        Utc.timestamp_opt(secs, nanos).unwrap(),
    )
}

#[test]
fn representable_range_is_chronos() {
    assert_eq!(DateTime::<Utc>::MIN_UTC.timestamp(), MIN_SECS);
    assert_eq!(DateTime::<Utc>::MAX_UTC.timestamp(), MAX_SECS);
    for (secs, nanos) in [
        (MIN_SECS, 0),
        (MAX_SECS, 999_999_999),
        (59, 1_999_999_999),
        (-1, 1_500_000_000),
    ] {
        assert!(UtcTime::from_timestamp(secs, nanos).is_some());
        assert!(Utc.timestamp_opt(secs, nanos).single().is_some());
    }
    for (secs, nanos) in [
        (MIN_SECS - 1, 0),
        (MAX_SECS + 1, 0),
        (0, 1_000_000_000),
        (58, 1_000_000_000),
        (59, 2_000_000_000),
    ] {
        assert!(UtcTime::from_timestamp(secs, nanos).is_none());
        assert!(Utc.timestamp_opt(secs, nanos).single().is_none());
    }
}

#[test]
fn from_timestamp_keeps_its_parts() {
    let t = UtcTime::from_timestamp(1_700_000_003, 5).unwrap();
    assert_eq!((t.secs, t.nanos), (1_700_000_003, 5));
}

#[test]
fn milliseconds_between_instants() {
    let (a, ca) = both(1_700_000_010, 0);
    let (b, cb) = both(1_700_000_003, 1_000_001);
    assert_eq!(a.millis_since(b), 6_998);
    assert_eq!(a.millis_since(b), (ca - cb).num_milliseconds());
    assert_eq!(b.millis_since(a), -6_998);
    assert_eq!(b.millis_since(a), (cb - ca).num_milliseconds());
    // Across a leap second, in one day and over midnight.
    for (s, t) in [
        (both(1_483_228_799, 1_500_000_000), both(1_483_228_790, 0)),
        (both(1_483_228_800, 0), both(1_483_228_799, 1_500_000_000)),
        (both(1_483_228_859, 0), both(1_483_228_799, 1_250_000_000)),
        (both(1_483_228_739, 1_000_000_000), both(1_483_228_740, 0)),
        (both(1_483_228_740, 0), both(1_483_228_739, 1_000_000_000)),
    ] {
        assert_eq!(s.0.millis_since(t.0), (s.1 - t.1).num_milliseconds());
    }
}

#[test]
fn adding_milliseconds() {
    let (a, ca) = both(1_700_000_003, 999_500_000);
    for ms in [0i64, 1, 499, 500, 1_000, 15_000, 86_400_000, 123_456_789] {
        let sum = a.plus_millis(ms);
        let expect = ca + chrono::Duration::milliseconds(ms);
        assert_eq!(sum.secs, expect.timestamp());
        assert_eq!(sum.nanos, expect.timestamp_subsec_nanos());
    }
    assert_eq!(a.plus_millis(1), UtcTime::from_timestamp(1_700_000_004, 500_000).unwrap());
    // Within a leap second, and out of it.
    let (l, cl) = both(1_483_228_799, 1_250_000_000);
    for ms in [0i64, 500, 749, 750, 1_000, 2_500] {
        let sum = l.plus_millis(ms);
        let expect = cl + chrono::Duration::milliseconds(ms);
        assert_eq!((sum.secs, sum.nanos), (expect.timestamp(), expect.timestamp_subsec_nanos()));
    }
}

#[test]
fn texts_of_an_instant() {
    let (t, c) = both(1_700_000_003, 0);
    assert_eq!(t.hhmmss(), "221323");
    assert_eq!(t.clock(), "22:13:23");
    assert_eq!(t.to_rfc3339(), "2023-11-14T22:13:23+00:00");
    assert_eq!(t.to_rfc3339(), c.to_rfc3339());
    for (secs, nanos) in [(-1i64, 0u32), (0, 0), (86_399, 1_000_000_000), (951_782_400, 123_000_000)] {
        let (t, c) = both(secs, nanos);
        assert_eq!(t.hhmmss(), c.format("%H%M%S").to_string());
        assert_eq!(t.clock(), c.format("%H:%M:%S").to_string());
        assert_eq!(t.to_rfc3339(), c.to_rfc3339());
    }
    assert_eq!(both(86_399, 1_000_000_000).0.hhmmss(), "235960");
}

#[test]
fn parts_of_an_instant() {
    let (t, c) = both(-1, 987_654_321);
    assert_eq!(t.subsec_millis(), 987);
    assert_eq!(t.subsec_millis(), c.timestamp_subsec_millis());
    assert_eq!(t.slot(), -1);
    assert_eq!(both(1_700_000_024, 0).0.slot(), 113_333_334);
    assert_eq!(both(1_700_000_025, 0).0.slot(), 113_333_335);
}

#[test]
fn division_rounds_down() {
    for a in [-31i64, -30, -16, -15, -1, 0, 1, 14, 15, 29, i64::MIN, i64::MAX] {
        assert_eq!(floor_div_mod(a, 15), (a.div_euclid(15), a.rem_euclid(15)));
    }
}
