//! Station tracks and their labels.

use ft8mon::decoder::{Decode, DecodeSource};
use ft8mon::pskreporter::parse_spot;
use ft8mon::time::UtcTime;
use ft8mon::tracks::{group_tracks, place_labels, top_down, track_key};

fn decode(secs: i64, message: &str) -> Decode<f32> {
    Decode {
        utc: UtcTime::from_timestamp(secs, 0).unwrap(),
        snr_db: 0,
        dt: 0.0,
        freq_hz: 1000.0,
        message: message.to_string(),
        source: DecodeSource::SingleShot,
        contrib_tags: vec![],
    }
}

#[test]
fn keys_are_senders_or_raw_text() {
    assert_eq!(track_key("CQ g1hjw JO01"), "G1HJW");
    assert_eq!(track_key("TNX FER QSO"), "TNX FER QSO");
    assert_eq!(track_key("TNX G1HJW GL"), "TNX G1HJW GL");
}

#[test]
fn a_spotted_station_is_the_tracked_one() {
    for m in ["CQ DX g0vxm IO93", "G0VXM DJ9ON R JO31", "G1HJW G0BIX IO91"] {
        let (call, _) = parse_spot(m).unwrap();
        assert_eq!(track_key(m), call);
    }
}

#[test]
fn a_qso_is_two_tracks() {
    let ds = [
        decode(45, "CQ G1HJW JO01"),
        decode(60, "G1HJW G0BIX IO91"),
        decode(15, "CQ G9ZZZ IO91"),
        decode(75, "G0BIX G1HJW -07"),
        decode(30, "TNX FER QSO"),
        decode(30, "CQ G1HJW JO01"),
        decode(60, "CQ G1HJW JO01"),
    ];
    // Slot 2 begins at 30 s; the decode at 15 s is out of view.
    let tracks = group_tracks(&ds, 2);
    let found: Vec<(&str, Vec<usize>)> =
        tracks.iter().map(|t| (t.key.as_str(), t.members.clone())).collect();
    assert_eq!(
        found,
        vec![
            ("G1HJW", vec![5, 0, 6, 3]),
            ("G0BIX", vec![1]),
            ("TNX FER QSO", vec![4]),
        ]
    );
    assert!(group_tracks(&ds, 6).is_empty());
}

#[test]
fn labels_go_from_the_top_down() {
    assert_eq!(top_down(&[30, 10, 20, 10]), vec![1, 3, 2, 0]);
    assert_eq!(top_down(&[]), Vec::<usize>::new());
}

#[test]
fn labels_do_not_overlap() {
    let wants = [10.0f32, 12.0, 50.0, 51.0, 52.0];
    let placed = place_labels(&wants, f32::MIN, |above: f32, want: f32| want.max(above + 14.0));
    assert_eq!(placed, vec![10.0, 24.0, 50.0, 64.0, 78.0]);
    for w in placed.windows(2) {
        assert!(w[1] - w[0] >= 14.0);
    }
}
