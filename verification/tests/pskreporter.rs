//! Message parsing and PSK Reporter datagrams.

use ft8mon::pskreporter::{
    ent_field, finish_set, is_callsign, is_grid, pad4, parse_spot, push_str, push_u16, push_u32,
    rx_descriptor, sender_callsign, session_observation_id, tx_descriptor, Reporter, Spot,
    FLUSH_NANOS, MAX_QUEUE,
};

fn spot(call: &str, snr: Option<i32>) -> Spot {
    Spot {
        call: call.into(),
        grid: "IO82".into(),
        freq_hz: 144_174_966,
        snr,
        mode: "FT8".into(),
        time: 1_700_000_000,
    }
}

fn reporter() -> Reporter {
    Reporter::new("GW4WND", "IO82KM", "", 123, 456, 0)
}

#[test]
fn parses_cq_messages() {
    assert_eq!(
        parse_spot("CQ G1HJW JO01"),
        Some(("G1HJW".into(), "JO01".into()))
    );
    assert_eq!(
        parse_spot("CQ DX G0VXM IO93"),
        Some(("G0VXM".into(), "IO93".into()))
    );
    assert_eq!(
        parse_spot("CQ GW4WND IO82KM"),
        Some(("GW4WND".into(), "IO82KM".into()))
    );
}

#[test]
fn parses_exchange_messages() {
    // "to from grid": the sender is the second callsign.
    assert_eq!(
        parse_spot("G0VXM DJ9ON JO31"),
        Some(("DJ9ON".into(), "JO31".into()))
    );
    // "to from R grid": the bare R is skipped.
    assert_eq!(
        parse_spot("G0VXM DJ9ON R JO31"),
        Some(("DJ9ON".into(), "JO31".into()))
    );
}

#[test]
fn sender_callsign_identifies_the_transmitting_station() {
    // CQ forms: sender is the calling station.
    assert_eq!(sender_callsign("CQ G1HJW JO01").as_deref(), Some("G1HJW"));
    assert_eq!(
        sender_callsign("CQ DX G0VXM IO93").as_deref(),
        Some("G0VXM")
    );
    // Exchange forms: sender is the second (from) callsign, whatever the
    // trailing report. Across a QSO the two stations alternate as sender, so
    // keying tracks on this correctly yields one track per station.
    assert_eq!(
        sender_callsign("G1HJW G0BIX 73").as_deref(),
        Some("G0BIX")
    );
    assert_eq!(
        sender_callsign("G0BIX G1HJW +02").as_deref(),
        Some("G1HJW")
    );
    assert_eq!(
        sender_callsign("G1HJW G0BIX R-01").as_deref(),
        Some("G0BIX")
    );
    // Free text / no sender: no callsign.
    assert_eq!(sender_callsign("TNX FER QSO"), None);
}

#[test]
fn rejects_messages_without_a_grid() {
    assert_eq!(parse_spot("G0VXM DJ9ON -10"), None);
    assert_eq!(parse_spot("G0VXM DJ9ON R-07"), None);
    assert_eq!(parse_spot("G0VXM DJ9ON RRR"), None);
    assert_eq!(parse_spot("G0VXM DJ9ON 73"), None);
    assert_eq!(parse_spot("CQ G1HJW"), None);
    assert_eq!(parse_spot("TNX 73 GL"), None);
}

#[test]
fn grid_validation() {
    assert!(is_grid("IO82"));
    assert!(is_grid("IO82KM"));
    assert!(is_grid("jo31"));
    assert!(!is_grid("IO8")); // too short
    assert!(!is_grid("IO82X")); // odd length
    assert!(!is_grid("ZZ99")); // field letters past R
    assert!(!is_grid("73")); // a report, not a grid
}

#[test]
fn tx_descriptor_is_byte_exact() {
    // The sender template: Set 2, template 0x50E3, 7 fields, 60 bytes total
    // (already 4-byte aligned).
    let d = tx_descriptor();
    let expect: &[u8] = &[
        0x00, 0x02, 0x00, 0x3C, 0x50, 0xE3, 0x00, 0x07, // set hdr
        0x80, 0x01, 0xFF, 0xFF, 0x00, 0x00, 0x76, 0x8F, // senderCallsign
        0x80, 0x05, 0x00, 0x04, 0x00, 0x00, 0x76, 0x8F, // frequency
        0x80, 0x06, 0x00, 0x01, 0x00, 0x00, 0x76, 0x8F, // sNR
        0x80, 0x0A, 0xFF, 0xFF, 0x00, 0x00, 0x76, 0x8F, // mode
        0x80, 0x03, 0xFF, 0xFF, 0x00, 0x00, 0x76, 0x8F, // senderLocator
        0x80, 0x0B, 0x00, 0x01, 0x00, 0x00, 0x76, 0x8F, // informationSource
        0x00, 0x96, 0x00, 0x04, // dateTimeSeconds (IE 150)
    ];
    assert_eq!(d, expect);
}

#[test]
fn rx_descriptor_is_byte_exact() {
    // The receiver template: Options Set 3, template 0x50E2, 4 fields,
    // 42 bytes padded to 44.
    let d = rx_descriptor();
    let expect: &[u8] = &[
        0x00, 0x03, 0x00, 0x2C, 0x50, 0xE2, 0x00, 0x04, 0x00, 0x00, // set hdr + scope
        0x80, 0x02, 0xFF, 0xFF, 0x00, 0x00, 0x76, 0x8F, // receiverCallsign
        0x80, 0x04, 0xFF, 0xFF, 0x00, 0x00, 0x76, 0x8F, // receiverLocator
        0x80, 0x08, 0xFF, 0xFF, 0x00, 0x00, 0x76, 0x8F, // decodingSoftware
        0x80, 0x09, 0xFF, 0xFF, 0x00, 0x00, 0x76, 0x8F, // antennaInformation
        0x00, 0x00, // padding to 44
    ];
    assert_eq!(d, expect);
}

#[test]
fn datagram_layout_and_alignment() {
    let mut r = reporter();
    r.add_spot(spot("G1HJW", Some(-11)));
    let dg = r.build_datagram(1_700_000_001);
    // IPFIX version 10.
    assert_eq!(&dg[0..2], &[0x00, 0x0A]);
    // Length field equals the real length.
    let len = u16::from_be_bytes([dg[2], dg[3]]) as usize;
    assert_eq!(len, dg.len());
    // Whole datagram is 4-byte aligned.
    assert_eq!(dg.len() % 4, 0);
    // Both descriptors and both data records are present, in order:
    // header(16) then Set 3 (rx desc), Set 2 (tx desc), 0x50E2, 0x50E3.
    assert_eq!(&dg[16..18], &[0x00, 0x03]); // rx descriptor Set
    let has = |id: [u8; 2]| dg.windows(2).any(|w| w == id);
    assert!(has([0x00, 0x02])); // tx descriptor Set
    assert!(has([0x50, 0xE2])); // rx data record
    assert!(has([0x50, 0xE3])); // tx data record
    // Descriptors are sent on every datagram, not just the first.
    let dg2 = r.build_datagram(1_700_000_002);
    assert_eq!(&dg2[16..18], &[0x00, 0x03]);
    // Observation id stable; sequence increments.
    assert_eq!(&dg[12..16], &dg2[12..16]);
    assert_ne!(&dg[8..12], &dg2[8..12]);
}

#[test]
fn no_snr_spot_encodes_as_zero() {
    let mut r = reporter();
    r.add_spot(spot("DJ9ON", None));
    let rec = r.tx_record();
    // Set header (4) + call: 1-byte len + "DJ9ON" (5) = offset 10,
    // then frequency u32 (4) -> SNR byte at offset 14.
    assert_eq!(rec[14], 0);
}

#[test]
fn own_callsign_is_not_spotted() {
    let mut r = reporter();
    r.add_spot(spot("GW4WND", Some(0)));
    assert_eq!(r.pending(), 0);
}

#[test]
fn repeat_callsign_replaces_not_duplicates() {
    let mut r = reporter();
    for snr in [-15, -8, -3] {
        r.add_spot(spot("G1HJW", Some(snr)));
    }
    assert_eq!(r.pending(), 1);
}

#[test]
fn accumulation_decode_does_not_erase_a_real_snr() {
    let mut r = reporter();
    r.add_spot(spot("G1HJW", Some(-9))); // heard single-shot first
    r.add_spot(spot("G1HJW", None)); // later accumulation decode
    assert_eq!(r.pending(), 1);
    assert_eq!(r.spots()[0].snr, Some(-9));
}

#[test]
fn callsign_validation() {
    for s in ["G1HJW", "gw4wnd", "EA8/G3XYZ/P", "A1B"] {
        assert!(is_callsign(s), "{s}");
    }
    for s in ["CQ", "DX", "ABCDE", "12345", "A1", "AB1234567890", "G1-HJ", "\u{c4}1B", ""] {
        assert!(!is_callsign(s), "{s}");
    }
}

#[test]
fn a_lone_roger_is_no_sender() {
    // With two words only, the word before the last is the sender's place.
    assert_eq!(sender_callsign("R JO31"), None);
    assert_eq!(sender_callsign("g0vxm dj9on r jo31").as_deref(), Some("DJ9ON"));
    assert_eq!(parse_spot("g0vxm dj9on r jo31"), Some(("DJ9ON".into(), "JO31".into())));
    assert_eq!(sender_callsign("G1HJW"), None);
    assert_eq!(sender_callsign(""), None);
}

#[test]
fn a_spot_names_the_sender() {
    for m in ["CQ G1HJW JO01", "G0VXM DJ9ON R JO31", "G0VXM DJ9ON 73", "TNX FER QSO"] {
        if let Some((call, _)) = parse_spot(m) {
            assert_eq!(sender_callsign(m), Some(call));
        }
    }
}

#[test]
fn byte_helpers_are_big_endian() {
    let mut b = Vec::new();
    push_u16(&mut b, 0x1234);
    push_u32(&mut b, 0x89AB_CDEF);
    push_str(&mut b, "A\u{e4}");
    assert_eq!(b, [0x12, 0x34, 0x89, 0xAB, 0xCD, 0xEF, 3, b'A', 0xC3, 0xA4]);
    pad4(&mut b);
    assert_eq!(b.len(), 12);
    finish_set(&mut b);
    assert_eq!(&b[0..4], &[0x12, 0x34, 0x00, 0x0C]);
    let mut f = Vec::new();
    ent_field(&mut f, 5, 4);
    assert_eq!(f, [0x80, 0x05, 0x00, 0x04, 0x00, 0x00, 0x76, 0x8F]);
}

#[test]
fn long_strings_are_cut() {
    let mut b = Vec::new();
    push_str(&mut b, &"x".repeat(300));
    assert_eq!(b.len(), 255);
    assert_eq!(b[0], 254);
}

#[test]
fn records_are_byte_exact() {
    let mut r = reporter();
    r.add_spot(spot("G1HJW", Some(-11)));
    let mut expect: Vec<u8> = vec![0x50, 0xE3, 0x00, 0x20];
    expect.extend([5]);
    expect.extend(b"G1HJW");
    expect.extend(144_174_966u32.to_be_bytes());
    expect.extend([(-11i8) as u8]);
    expect.extend([3]);
    expect.extend(b"FT8");
    expect.extend([4]);
    expect.extend(b"IO82");
    expect.extend([1]);
    expect.extend(1_700_000_000u32.to_be_bytes());
    // 29 bytes, padded to 32.
    expect.extend([0, 0, 0]);
    assert_eq!(expect.len(), 0x20);
    assert_eq!(r.tx_record(), expect);
    let rx = r.rx_record();
    assert_eq!(&rx[0..2], &[0x50, 0xE2]);
    assert_eq!(rx[3] as usize, rx.len());
    assert_eq!(&rx[4..11], b"\x06GW4WND");
    assert_eq!(&rx[11..18], b"\x06IO82KM");
    assert_eq!(&rx[18..37], b"\x12GW4WND FT8 Skimmer");
    assert_eq!(rx[37], 0);
    let dg = r.build_datagram(7);
    assert_eq!(&dg[4..8], &7u32.to_be_bytes());
    assert_eq!(&dg[8..12], &1u32.to_be_bytes());
    assert_eq!(&dg[16..60], &rx_descriptor()[..]);
    assert_eq!(&dg[60..120], &tx_descriptor()[..]);
    assert_eq!(&dg[120..120 + rx.len()], &rx[..]);
    assert_eq!(&dg[120 + rx.len()..], &expect[..]);
}

#[test]
fn snr_is_clamped_to_a_byte() {
    for (snr, byte) in [(-500, 0x80u8), (-128, 0x80), (-1, 0xFF), (127, 0x7F), (500, 0x7F)] {
        let mut r = reporter();
        r.add_spot(spot("DJ9ON", Some(snr)));
        assert_eq!(r.tx_record()[14], byte);
    }
}

#[test]
fn the_queue_is_capped_but_known_stations_still_update() {
    let mut r = reporter();
    for k in 0..MAX_QUEUE + 10 {
        r.add_spot(spot(&format!("G{k}AB"), Some(k as i32)));
    }
    assert_eq!(r.pending(), MAX_QUEUE);
    r.add_spot(spot("G3AB", Some(-1)));
    assert_eq!(r.pending(), MAX_QUEUE);
    assert_eq!(r.spots()[3].snr, Some(-1));
    r.add_spot(spot("gw4wnd", Some(1)));
    assert_eq!(r.pending(), MAX_QUEUE);
}

#[test]
fn flushes_wait_for_the_window_and_for_success() {
    let mut r = Reporter::new("gw4wnd", "IO82KM", "dipole", 0, 1, 1_000);
    r.add_spot(spot("G1HJW", Some(-9)));
    assert_eq!(r.tick(1_000 + FLUSH_NANOS - 1, 5), None);
    let sent = r.tick(1_000 + FLUSH_NANOS, 5);
    assert!(sent.is_some());
    // Nothing is cleared until the send has succeeded.
    assert_eq!(r.note_sent(false), 0);
    assert_eq!(r.pending(), 1);
    // The next datagram is a full window away.
    assert_eq!(r.tick(1_000 + 2 * FLUSH_NANOS - 1, 5), None);
    assert!(r.tick(1_000 + 2 * FLUSH_NANOS, 5).is_some());
    assert_eq!(r.note_sent(true), 1);
    assert_eq!(r.pending(), 0);
    // A window with nothing to report passes in silence.
    assert_eq!(r.tick(1_000 + 3 * FLUSH_NANOS, 5), None);
    assert_eq!(r.flush(5), None);
    // A clock that stands still or runs backwards sends nothing.
    r.add_spot(spot("G1HJW", None));
    assert_eq!(r.tick(0, 5), None);
    assert!(r.flush(6).is_some());
}

#[test]
fn observation_id_mixes_time_and_process() {
    assert_eq!(session_observation_id(0, 0), 0);
    assert_eq!(
        session_observation_id(123_456_789, 4242),
        123_456_789 ^ 4242u32.wrapping_mul(2_654_435_761)
    );
}

#[test]
fn a_sign_off_is_no_locator() {
    assert!(is_grid("RR73"));
    assert_eq!(parse_spot("G0VXM DJ9ON RR73"), None);
    assert_eq!(parse_spot("g0vxm dj9on rr73"), None);
    assert_eq!(sender_callsign("G0VXM DJ9ON RR73").as_deref(), Some("DJ9ON"));
    assert_eq!(sender_callsign("G0VXM DJ9ON RRR").as_deref(), Some("DJ9ON"));
    // Other squares of that field are locators.
    assert_eq!(
        parse_spot("G0VXM DJ9ON RR72"),
        Some(("DJ9ON".into(), "RR72".into()))
    );
    assert_eq!(
        parse_spot("G0VXM DJ9ON RR73AA"),
        Some(("DJ9ON".into(), "RR73AA".into()))
    );
}

#[test]
fn free_text_has_no_sender() {
    for m in [
        "TNX G1HJW GL",
        "CQ G1HJW",
        "G0VXM DJ9ON",
        "G0VXM DJ9ON R",
        "G0VXM DJ9ON -",
        "G0VXM DJ9ON R-",
        "G0VXM DJ9ON 07",
        "G0VXM DJ9ON -1X",
        "G0VXM DJ9ON RRRR",
        "G0VXM DJ9ON 733",
        "",
    ] {
        assert_eq!(sender_callsign(m), None, "{m}");
        assert_eq!(parse_spot(m), None, "{m}");
    }
    for m in ["-07", "+02", "R-12", "r+3", "rrr", "73", "JO31", "jo31kl", "R JO31"] {
        let m = format!("G0VXM DJ9ON {m}");
        assert_eq!(sender_callsign(&m).as_deref(), Some("DJ9ON"), "{m}");
    }
}
