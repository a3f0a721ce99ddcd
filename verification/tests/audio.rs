//! Input configurations and down-mixing.

use ft8mon::audio::{down_mix, pick_config, ConfigRange, Format};

fn range(channels: u16, min_rate: u32, max_rate: u32, format: Format) -> ConfigRange {
    ConfigRange { channels, min_rate, max_rate, format }
}

#[test]
fn the_most_wanted_rate_wins() {
    let ranges = [
        range(2, 44_100, 44_100, Format::F32),
        range(1, 8_000, 24_000, Format::I16),
        range(1, 8_000, 48_000, Format::Other),
        range(0, 8_000, 48_000, Format::F32),
    ];
    assert_eq!(pick_config(&ranges), Some((1, 24_000)));
    let more = [ranges[0], ranges[1], range(1, 48_000, 48_000, Format::U16), range(2, 8_000, 96_000, Format::F32)];
    assert_eq!(pick_config(&more), Some((2, 48_000)));
    assert_eq!(pick_config(&ranges[..1]), Some((0, 44_100)));
    assert_eq!(pick_config(&ranges[2..]), None);
    assert_eq!(pick_config(&[]), None);
}

#[test]
fn down_mix_takes_the_first_channel() {
    let data = [1i16, -1, 2, -2, 3];
    assert_eq!(down_mix(&data, 2, |s| s as i32 * 10), vec![10, 20, 30]);
    assert_eq!(down_mix(&data, 1, |s| s), data.to_vec());
    assert_eq!(down_mix(&data, 7, |s| s), vec![1]);
    assert_eq!(down_mix(&[0i16; 0], 2, |s| s), Vec::<i16>::new());
    assert_eq!(down_mix(&[16_384i16], 1, |s| s as f32 / 32768.0), vec![0.5]);
}
