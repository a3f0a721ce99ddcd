//! Text helpers, held against std.

use ft8mon::text::{
    chars_of, decimal, eq_ignore_case, is_whitespace, signed, split_words, to_upper,
};

#[test]
fn white_space_is_stds() {
    for u in 0..=0x10FFFFu32 {
        if let Some(c) = char::from_u32(u) {
            assert_eq!(is_whitespace(c), c.is_whitespace(), "U+{u:04X}");
        }
    }
}

#[test]
fn words_are_stds() {
    for s in [
        "",
        "   ",
        "CQ",
        " CQ G1HJW JO01 ",
        "a\tb\u{2003}c\u{00a0}d",
        "one\n\ntwo",
        "gr\u{fc}\u{df}e  an\u{3000}alle",
    ] {
        let words: Vec<String> = split_words(s).iter().map(|w| w.iter().collect()).collect();
        let expect: Vec<String> = s.split_whitespace().map(|w| w.to_string()).collect();
        assert_eq!(words, expect);
    }
}

#[test]
fn white_space_sets_words_apart() {
    let left = split_words("CQ DX");
    let right = split_words("G0VXM IO93");
    let mut both = left.clone();
    both.extend(right);
    assert_eq!(split_words("CQ DX G0VXM IO93"), both);
}

#[test]
fn upper_case_touches_ascii_only() {
    let s = "az\u{e4}\u{df}AZ09/";
    assert_eq!(to_upper(&chars_of(s)), s.to_ascii_uppercase());
    assert_eq!(chars_of(s).into_iter().collect::<String>(), s);
}

#[test]
fn case_is_ignored_for_ascii_only() {
    assert!(eq_ignore_case("gw4wnd", "GW4WND"));
    assert!(!eq_ignore_case("GW4WND", "GW4WN"));
    assert!(!eq_ignore_case("\u{e4}", "\u{c4}"));
}

#[test]
fn numbers_in_decimal() {
    for n in [0u64, 7, 10, 99, 100, 12_345, u64::MAX] {
        assert_eq!(decimal(n), n.to_string());
    }
    for n in [0i32, -1, 1, -26, 12, i32::MIN, i32::MAX] {
        assert_eq!(signed(n), format!("{n:+}"));
    }
}
