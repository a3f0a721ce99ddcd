//! Messages: who sent one, what is spotted of it, and how numbers are
//! written.
//!
//! The laws speak of the message's text. A message is some text `p`, white
//! space, and then the words that count.

use vstd::prelude::*;
use crate::decoder::DecodeSource;

verus! {

/// A character that sets words apart.
pub open spec fn is_gap(c: char) -> bool {
    let u = c as u32;
    ||| u == 0x20
    ||| 0x09 <= u <= 0x0d
    ||| u == 0x85 || u == 0xa0
    ||| u == 0x1680
    ||| 0x2000 <= u <= 0x200a
    ||| u == 0x2028 || u == 0x2029 || u == 0x202f || u == 0x205f || u == 0x3000
}

/// A word: something, and no gap in it.
pub open spec fn is_word(w: Seq<char>) -> bool {
    &&& w.len() > 0
    &&& forall|i: int| 0 <= i < w.len() ==> !is_gap(#[trigger] w[i])
}

/// A letter up to R.
pub open spec fn to_r(c: char) -> bool {
    'A' <= c <= 'R' || 'a' <= c <= 'r'
}

/// A letter up to X.
pub open spec fn to_x(c: char) -> bool {
    'A' <= c <= 'X' || 'a' <= c <= 'x'
}

/// A letter.
pub open spec fn to_z(c: char) -> bool {
    'A' <= c <= 'Z' || 'a' <= c <= 'z'
}

/// A locator: two letters up to R and two digits (`IO82`), and two letters up
/// to X behind them or not (`IO82KM`).
pub open spec fn is_locator(w: Seq<char>) -> bool {
    &&& w.len() == 4 || w.len() == 6
    &&& forall|i: int| 0 <= i < 2 ==> to_r(#[trigger] w[i])
    &&& forall|i: int| 2 <= i < 4 ==> '0' <= #[trigger] w[i] <= '9'
    &&& forall|i: int| 4 <= i < w.len() ==> to_x(#[trigger] w[i])
}

/// A callsign: three to eleven letters, digits and slashes, with a letter and
/// a digit among them.
pub open spec fn is_call(w: Seq<char>) -> bool {
    &&& 3 <= w.len() <= 11
    &&& forall|i: int|
        0 <= i < w.len() ==> '0' <= #[trigger] w[i] <= '9' || to_z(w[i]) || w[i] == '/'
    &&& exists|i: int| 0 <= i < w.len() && to_z(#[trigger] w[i])
    &&& exists|i: int| 0 <= i < w.len() && '0' <= #[trigger] w[i] <= '9'
}

/// An R, large or small.
pub open spec fn is_r(c: char) -> bool {
    c == 'R' || c == 'r'
}

/// A report: a sign and digits (`-07`), from `k` on.
pub open spec fn is_report_from(w: Seq<char>, k: int) -> bool {
    &&& w.len() >= k + 2
    &&& w[k] == '+' || w[k] == '-'
    &&& forall|i: int| k < i < w.len() ==> '0' <= #[trigger] w[i] <= '9'
}

/// A report, with or without an R before it.
pub open spec fn is_report(w: Seq<char>) -> bool {
    is_report_from(w, 0) || w.len() > 0 && is_r(w[0]) && is_report_from(w, 1)
}

/// `RR73`.
pub open spec fn is_rr73(w: Seq<char>) -> bool {
    w.len() == 4 && is_r(w[0]) && is_r(w[1]) && w[2] == '7' && w[3] == '3'
}

/// `RRR`, `RR73` or `73`.
pub open spec fn is_goodbye(w: Seq<char>) -> bool {
    ||| w.len() == 3 && is_r(w[0]) && is_r(w[1]) && is_r(w[2])
    ||| is_rr73(w)
    ||| w.len() == 2 && w[0] == '7' && w[1] == '3'
}

/// What a standard message ends in.
pub open spec fn is_ending(w: Seq<char>) -> bool {
    is_locator(w) || is_report(w) || is_goodbye(w)
}

/// `u` is `w` in capitals.
pub open spec fn is_capitals(u: Seq<char>, w: Seq<char>) -> bool {
    &&& u.len() == w.len()
    &&& forall|i: int|
        0 <= i < w.len() ==> (#[trigger] u[i]) as u32 == if 'a' <= w[i] <= 'z' {
            (w[i] as u32 - 32) as u32
        } else {
            w[i] as u32
        }
}

proof fn lemma_words_as_read(w: Seq<char>)
    ensures
        crate::pskreporter::grid_like(w) <==> is_locator(w),
        crate::pskreporter::callsign_like(w) <==> is_call(w),
        crate::pskreporter::report_like(w) <==> is_report(w),
        crate::pskreporter::is_rr73(w) <==> is_rr73(w),
        crate::pskreporter::is_sign_off(w) <==> is_goodbye(w),
        crate::pskreporter::is_roger(w) <==> w.len() == 1 && is_r(w[0]),
        is_capitals(crate::text::upper(w), w),
{
    lemma_capitals(w);
    lemma_locators(w);
    lemma_callsigns(w);
    lemma_reports(w);
    lemma_goodbyes(w);
}

/// Small ASCII letters become capitals, and everything else stays as it is.
pub proof fn lemma_capitals(w: Seq<char>)
    ensures
        is_capitals(crate::text::upper(w), w),
{
}

/// What counts as a locator.
pub proof fn lemma_locators(w: Seq<char>)
    ensures
        crate::pskreporter::grid_like(w) <==> is_locator(w),
{
    if crate::pskreporter::grid_like(w) {
        assert(is_locator(w));
    }
    if is_locator(w) {
        assert(to_r(w[0]) && to_r(w[1]));
        assert('0' <= w[2] <= '9' && '0' <= w[3] <= '9');
        if w.len() == 6 {
            assert(to_x(w[4]) && to_x(w[5]));
        }
    }
}

/// What counts as a callsign.
pub proof fn lemma_callsigns(w: Seq<char>)
    ensures
        crate::pskreporter::callsign_like(w) <==> is_call(w),
{
    assert forall|i: int| 0 <= i < w.len() implies {
        &&& crate::text::is_letter(#[trigger] w[i]) <==> to_z(w[i])
        &&& crate::text::is_digit(w[i]) <==> '0' <= w[i] <= '9'
    } by {}
    if crate::pskreporter::callsign_like(w) {
        let i = choose|i: int| 0 <= i < w.len() && crate::text::is_letter(#[trigger] w[i]);
        let j = choose|i: int| 0 <= i < w.len() && crate::text::is_digit(#[trigger] w[i]);
        assert(to_z(w[i]));
        assert('0' <= w[j] <= '9');
    }
    if is_call(w) {
        let i = choose|i: int| 0 <= i < w.len() && to_z(#[trigger] w[i]);
        let j = choose|i: int| 0 <= i < w.len() && '0' <= #[trigger] w[i] <= '9';
        assert(crate::text::is_letter(w[i]));
        assert(crate::text::is_digit(w[j]));
    }
}

/// What counts as a report.
pub proof fn lemma_reports(w: Seq<char>)
    ensures
        crate::pskreporter::report_like(w) <==> is_report(w),
{
    assert(crate::pskreporter::signed_number(w) <==> is_report_from(w, 0)) by {
        if crate::pskreporter::signed_number(w) {
            assert forall|i: int| 0 < i < w.len() implies '0' <= #[trigger] w[i] <= '9' by {
                assert(crate::text::is_digit(w[i]));
            }
        }
        if is_report_from(w, 0) {
            assert forall|i: int| 1 <= i < w.len() implies crate::text::is_digit(
                #[trigger] w[i],
            ) by {}
        }
    }
    if w.len() > 0 {
        let v = w.skip(1);
        assert(crate::pskreporter::signed_number(v) <==> is_report_from(w, 1)) by {
            if crate::pskreporter::signed_number(v) {
                assert(v[0] == w[1]);
                assert forall|i: int| 1 < i < w.len() implies '0' <= #[trigger] w[i] <= '9' by {
                    assert(crate::text::is_digit(v[i - 1]));
                }
            }
            if is_report_from(w, 1) {
                assert(v[0] == w[1]);
                assert forall|i: int| 1 <= i < v.len() implies crate::text::is_digit(
                    #[trigger] v[i],
                ) by {
                    assert(v[i] == w[i + 1]);
                }
            }
        }
    }
}

/// What counts as a sign-off.
pub proof fn lemma_goodbyes(w: Seq<char>)
    ensures
        crate::pskreporter::is_rr73(w) <==> is_rr73(w),
        crate::pskreporter::is_sign_off(w) <==> is_goodbye(w),
{
    reveal_strlit("RRR");
    reveal_strlit("RR73");
    reveal_strlit("73");
    let u = crate::text::upper(w);
    assert(u.len() == w.len());
    assert forall|i: int| 0 <= i < w.len() implies #[trigger] u[i] == crate::text::upper_char(
        w[i],
    ) by {}
    if u == "RRR"@ {
        assert(u[0] == 'R' && u[1] == 'R' && u[2] == 'R');
    }
    if u == "RR73"@ {
        assert(u[0] == 'R' && u[1] == 'R' && u[2] == '7' && u[3] == '3');
    }
    if w == "73"@ {
        assert(w[0] == '7' && w[1] == '3');
    }
    if is_rr73(w) {
        assert(u =~= "RR73"@);
    }
    if w.len() == 3 && is_r(w[0]) && is_r(w[1]) && is_r(w[2]) {
        assert(u =~= "RRR"@);
    }
    if w.len() == 2 && w[0] == '7' && w[1] == '3' {
        assert(w =~= "73"@);
    }
}

/// The words of `p`, then `s`, then a word `w`, are those of `p` and `w`.
proof fn lemma_word_behind(p: Seq<char>, s: char, w: Seq<char>)
    requires
        is_gap(s),
        is_word(w),
    ensures
        crate::text::words_of(p.push(s) + w) == crate::text::words_of(p).push(w),
{
    crate::text::lemma_words_apart(p, s, w);
    crate::text::lemma_one_word(w);
    assert(crate::text::words_of(p) + seq![w] == crate::text::words_of(p).push(w));
}

/// The text `p`, and behind it two words.
pub open spec fn with_two(p: Seq<char>, s: char, b: Seq<char>, t: char, c: Seq<char>) -> Seq<char> {
    p + seq![s] + b + seq![t] + c
}

proof fn lemma_two_words(p: Seq<char>, s: char, b: Seq<char>, t: char, c: Seq<char>)
    requires
        is_gap(s),
        is_gap(t),
        is_word(b),
        is_word(c),
    ensures
        crate::text::words_of(with_two(p, s, b, t, c)) == crate::text::words_of(p).push(b).push(c),
{
    let front = p.push(s) + b;
    lemma_word_behind(p, s, b);
    lemma_word_behind(front, t, c);
    assert(front.push(t) + c =~= with_two(p, s, b, t, c));
}

/// The sender stands right before the end: of `... b c`, where `b` is a
/// callsign and `c` what a standard message ends in, the sender is `b`,
/// whatever stands before it. If `c` is a locator, and not `RR73`, that is
/// spotted with it; else nothing is.
pub proof fn lemma_sender_stands_before_the_end(
    p: Seq<char>,
    s: char,
    b: Seq<char>,
    t: char,
    c: Seq<char>,
)
    requires
        is_gap(s),
        is_gap(t),
        is_word(b),
        is_word(c),
        is_call(b),
        is_ending(c),
    ensures
        ({
            let m = with_two(p, s, b, t, c);
            &&& crate::pskreporter::sender_of(m) matches Some(call) && is_capitals(call, b)
            &&& is_locator(c) && !is_rr73(c) ==> {
                &&& crate::pskreporter::spot_of(m) matches Some((call, grid))
                &&& is_capitals(call, b)
                &&& is_capitals(grid, c)
            }
            &&& !is_locator(c) || is_rr73(c) ==> crate::pskreporter::spot_of(m) is None
            &&& is_capitals(crate::tracks::key_of(m), b)
        }),
{
    lemma_two_words(p, s, b, t, c);
    let words = crate::text::words_of(with_two(p, s, b, t, c));
    let n = words.len();
    assert(words[n - 2] == b);
    assert(words.last() == c);
    lemma_words_as_read(b);
    lemma_words_as_read(c);
}

/// A bare R before the end is skipped: of `... b R c` the sender is `b`.
pub proof fn lemma_sender_stands_before_a_bare_r(
    p: Seq<char>,
    s: char,
    b: Seq<char>,
    t: char,
    r: char,
    u: char,
    c: Seq<char>,
)
    requires
        is_gap(s),
        is_gap(t),
        is_gap(u),
        is_word(b),
        is_word(c),
        is_call(b),
        is_r(r),
        is_ending(c),
    ensures
        ({
            let m = with_two(p + seq![s] + b, t, seq![r], u, c);
            &&& crate::pskreporter::sender_of(m) matches Some(call) && is_capitals(call, b)
            &&& is_locator(c) && !is_rr73(c) ==> {
                &&& crate::pskreporter::spot_of(m) matches Some((call, grid))
                &&& is_capitals(call, b)
                &&& is_capitals(grid, c)
            }
            &&& !is_locator(c) || is_rr73(c) ==> crate::pskreporter::spot_of(m) is None
            &&& is_capitals(crate::tracks::key_of(m), b)
        }),
{
    let front = p + seq![s] + b;
    let bare = seq![r];
    lemma_word_behind(p, s, b);
    assert(front =~= p.push(s) + b);
    assert(is_word(bare));
    lemma_two_words(front, t, bare, u, c);
    let words = crate::text::words_of(with_two(front, t, bare, u, c));
    let n = words.len();
    assert(words[n - 3] == b);
    assert(words[n - 2] == bare);
    assert(words.last() == c);
    assert(bare[0] == r);
    lemma_words_as_read(b);
    lemma_words_as_read(bare);
    lemma_words_as_read(c);
}

/// Where the word before the end is neither a callsign nor a bare R, or the
/// message does not end as a standard one does, nobody is named as its sender
/// and nothing is spotted; the message is grouped by its text.
pub proof fn lemma_other_messages_have_no_sender(
    p: Seq<char>,
    s: char,
    b: Seq<char>,
    t: char,
    c: Seq<char>,
)
    requires
        is_gap(s),
        is_gap(t),
        is_word(b),
        is_word(c),
        !is_ending(c) || !is_call(b) && !(b.len() == 1 && is_r(b[0])),
    ensures
        crate::pskreporter::sender_of(with_two(p, s, b, t, c)) is None,
        crate::pskreporter::spot_of(with_two(p, s, b, t, c)) is None,
        crate::tracks::key_of(with_two(p, s, b, t, c)) == with_two(p, s, b, t, c),
{
    lemma_two_words(p, s, b, t, c);
    let words = crate::text::words_of(with_two(p, s, b, t, c));
    let n = words.len();
    assert(words[n - 2] == b);
    assert(words.last() == c);
    lemma_words_as_read(b);
    lemma_words_as_read(c);
}

/// Nor has a message of a single word a sender, or one of none.
pub proof fn lemma_one_word_has_no_sender(w: Seq<char>)
    requires
        forall|i: int| 0 <= i < w.len() ==> !is_gap(#[trigger] w[i]),
    ensures
        crate::pskreporter::sender_of(w) is None,
        crate::pskreporter::spot_of(w) is None,
{
    if w.len() > 0 {
        crate::text::lemma_one_word(w);
    }
}

/// White space around a message makes no difference to who sent it.
pub proof fn lemma_white_space_makes_no_difference(m: Seq<char>, s: char)
    requires
        is_gap(s),
    ensures
        crate::pskreporter::sender_of(m.push(s)) == crate::pskreporter::sender_of(m),
        crate::pskreporter::spot_of(m.push(s)) == crate::pskreporter::spot_of(m),
        crate::pskreporter::sender_of(seq![s] + m) == crate::pskreporter::sender_of(m),
        crate::pskreporter::spot_of(seq![s] + m) == crate::pskreporter::spot_of(m),
{
    let none = Seq::<char>::empty();
    crate::text::lemma_words_apart(m, s, none);
    crate::text::lemma_words_apart(none, s, m);
    assert(m.push(s) + none =~= m.push(s));
    assert(none.push(s) + m =~= seq![s] + m);
    assert(crate::text::words_of(none) == Seq::<Seq<char>>::empty());
    assert(crate::text::words_of(m) + Seq::<Seq<char>>::empty() =~= crate::text::words_of(m));
    assert(Seq::<Seq<char>>::empty() + crate::text::words_of(m) =~= crate::text::words_of(m));
}

/// The number that a string of digits stands for.
pub open spec fn value_of(s: Seq<char>) -> int
    decreases s.len(),
{
    if s.len() == 0 {
        0
    } else {
        10 * value_of(s.drop_last()) + (s.last() as int - '0' as int)
    }
}

/// A number is written in digits that stand for it, without leading zeros.
pub proof fn lemma_decimals_read_back(n: nat)
    ensures
        value_of(crate::text::decimal_of(n)) == n,
        crate::text::decimal_of(n).len() > 0,
        n > 0 ==> crate::text::decimal_of(n)[0] != '0',
        n == 0 ==> crate::text::decimal_of(n).len() == 1,
        forall|i: int|
            0 <= i < crate::text::decimal_of(n).len() ==> '0'
                <= #[trigger] crate::text::decimal_of(n)[i] <= '9',
    decreases n,
{
    let s = crate::text::decimal_of(n);
    if n < 10 {
        assert(s.drop_last() =~= seq![]);
        assert(value_of(s.drop_last()) == 0);
    } else {
        lemma_decimals_read_back(n / 10);
        assert(s.drop_last() =~= crate::text::decimal_of(n / 10));
    }
}

/// A signed number is written as its sign, plus for nought, and its amount.
pub proof fn lemma_signed_numbers_read_back(n: int)
    ensures
        ({
            let s = crate::text::signed_of(n);
            &&& s.len() >= 2
            &&& s[0] == if n < 0 {
                '-'
            } else {
                '+'
            }
            &&& value_of(s.skip(1)) == if n < 0 {
                -n
            } else {
                n
            }
        }),
{
    let amount = (if n < 0 {
        -n
    } else {
        n
    }) as nat;
    lemma_decimals_read_back(amount);
    assert(crate::text::signed_of(n).skip(1) =~= crate::text::decimal_of(amount));
}

/// A badge names how a decode was obtained, and from how many periods.
pub proof fn lemma_badges_tell_the_source(n: u32)
    ensures
        DecodeSource::SingleShot.badge_text() == seq!['s', 'i', 'n', 'g', 'l', 'e'],
        ({
            let s = DecodeSource::Accumulated(n).badge_text();
            &&& s.len() > 7
            &&& s.take(7) == seq!['a', 'c', 'c', 'u', 'm', ' ', 'x']
            &&& value_of(s.skip(7)) == n
        }),
        ({
            let s = DecodeSource::Both(n).badge_text();
            &&& s.len() > 6
            &&& s.take(6) == seq!['b', 'o', 't', 'h', ' ', 'x']
            &&& value_of(s.skip(6)) == n
        }),
{
    reveal_strlit("single");
    reveal_strlit("accum x");
    reveal_strlit("both x");
    lemma_decimals_read_back(n as nat);
    let digits = crate::text::decimal_of(n as nat);
    assert(DecodeSource::SingleShot.badge_text() =~= seq!['s', 'i', 'n', 'g', 'l', 'e']);
    let s = DecodeSource::Accumulated(n).badge_text();
    assert(s.take(7) =~= seq!['a', 'c', 'c', 'u', 'm', ' ', 'x']);
    assert(s.skip(7) =~= digits);
    let t = DecodeSource::Both(n).badge_text();
    assert(t.take(6) =~= seq!['b', 'o', 't', 'h', ' ', 'x']);
    assert(t.skip(6) =~= digits);
}

} // verus!
