//! Plain-text helpers: characters, words, ASCII case and decimal numbers.

use vstd::prelude::*;

verus! {

/// `String::push`: the character is appended.
pub assume_specification[ String::push ](s: &mut String, c: char)
    ensures
        final(s)@ == old(s)@.push(c),
;

/// A character with Unicode's `White_Space` property.
pub open spec fn is_white(c: char) -> bool {
    let u = c as u32;
    ||| 0x09 <= u <= 0x0d
    ||| u == 0x20
    ||| u == 0x85
    ||| u == 0xa0
    ||| u == 0x1680
    ||| 0x2000 <= u <= 0x200a
    ||| u == 0x2028
    ||| u == 0x2029
    ||| u == 0x202f
    ||| u == 0x205f
    ||| u == 0x3000
}

/// The words of `s`: its longest runs of characters that are not white space,
/// in order.
pub open spec fn words_of(s: Seq<char>) -> Seq<Seq<char>>
    decreases s.len(),
{
    if s.len() == 0 {
        seq![]
    } else {
        let before = words_of(s.drop_last());
        if is_white(s.last()) {
            before
        } else if s.len() == 1 || is_white(s[s.len() - 2]) {
            before.push(seq![s.last()])
        } else {
            before.drop_last().push(before.last().push(s.last()))
        }
    }
}

/// The upper-case form of an ASCII letter; other characters as they are.
pub open spec fn upper_char(c: char) -> char {
    if 'a' <= c && c <= 'z' {
        (c as u32 - 32) as char
    } else {
        c
    }
}

/// `s` with its ASCII letters in upper case.
pub open spec fn upper(s: Seq<char>) -> Seq<char> {
    s.map_values(|c: char| upper_char(c))
}

/// An ASCII letter.
pub open spec fn is_letter(c: char) -> bool {
    ('a' <= c && c <= 'z') || ('A' <= c && c <= 'Z')
}

/// An ASCII digit.
pub open spec fn is_digit(c: char) -> bool {
    '0' <= c && c <= '9'
}

/// `n` in decimal.
pub open spec fn decimal_of(n: nat) -> Seq<char>
    decreases n,
{
    let last = (48 + n % 10) as char;
    if n < 10 {
        seq![last]
    } else {
        decimal_of(n / 10).push(last)
    }
}

/// `n` in decimal, always with its sign.
pub open spec fn signed_of(n: int) -> Seq<char> {
    if n < 0 {
        seq!['-'] + decimal_of((-n) as nat)
    } else {
        seq!['+'] + decimal_of(n as nat)
    }
}

/// Whether `c` is white space.
pub fn is_whitespace(c: char) -> (r: bool)
    ensures
        r == is_white(c),
{
    let u: u32 = c as u32;
    (0x09 <= u && u <= 0x0d) || u == 0x20 || u == 0x85 || u == 0xa0 || u == 0x1680 || (0x2000 <= u
        && u <= 0x200a) || u == 0x2028 || u == 0x2029 || u == 0x202f || u == 0x205f || u == 0x3000
}

/// The characters of a string.
pub fn chars_of(s: &str) -> (res: Vec<char>)
    ensures
        res@ == s@,
{
    broadcast use vstd::string::axiom_spec_iter;
    let mut res: Vec<char> = Vec::new();
    for c in it: s.chars()
        invariant
            it.seq() == s@,
            res@ == s@.take(it.index() as int),
    {
        res.push(c);
    }
    assert(s@.take(s@.len() as int) == s@);
    res
}

/// The upper-case form of an ASCII letter; other characters as they are.
pub fn to_upper_char(c: char) -> (r: char)
    ensures
        r == upper_char(c),
{
    if 'a' <= c && c <= 'z' {
        let u: u8 = c as u8;
        (u - 32) as char
    } else {
        c
    }
}

/// `s` with its ASCII letters in upper case.
pub fn to_upper(s: &[char]) -> (res: String)
    ensures
        res@ == upper(s@),
{
    let mut res = String::new();
    let mut i: usize = 0;
    while i < s.len()
        invariant
            i <= s@.len(),
            res@ == upper(s@).take(i as int),
        decreases s@.len() - i,
    {
        res.push(to_upper_char(s[i]));
        i += 1;
    }
    assert(upper(s@).take(s@.len() as int) == upper(s@));
    res
}

/// Whether two strings differ in nothing but the case of ASCII letters.
pub fn eq_ignore_case(a: &str, b: &str) -> (r: bool)
    ensures
        r == (upper(a@) == upper(b@)),
{
    let a = to_upper(chars_of(a).as_slice());
    let b = to_upper(chars_of(b).as_slice());
    a == b
}

/// The words of a string.
pub fn split_words(s: &str) -> (res: Vec<Vec<char>>)
    ensures
        res@.map_values(|w: Vec<char>| w@) == words_of(s@),
{
    let chars = chars_of(s);
    let mut res: Vec<Vec<char>> = Vec::new();
    let mut in_word: bool = false;
    let mut i: usize = 0;
    while i < chars.len()
        invariant
            chars@ == s@,
            i <= chars@.len(),
            res@.map_values(|w: Vec<char>| w@) == words_of(chars@.take(i as int)),
            in_word <==> i > 0 && !is_white(chars@[i - 1]),
            in_word ==> res@.len() > 0,
        decreases chars@.len() - i,
    {
        let c: char = chars[i];
        let ghost done = chars@.take(i + 1);
        let ghost seen = res@;
        assert(done.drop_last() == chars@.take(i as int));
        if is_whitespace(c) {
            in_word = false;
        } else if !in_word {
            let mut w: Vec<char> = Vec::new();
            w.push(c);
            assert(w@ == seq![c]);
            res.push(w);
            in_word = true;
            assert(res@.map_values(|w: Vec<char>| w@) == words_of(chars@.take(i as int)).push(seq![c]));
        } else {
            let last: usize = res.len() - 1;
            res[last].push(c);
            assert(res@.map_values(|w: Vec<char>| w@) == seen.map_values(|w: Vec<char>| w@).drop_last().push(
                seen.map_values(|w: Vec<char>| w@).last().push(c),
            ));
        }
        i += 1;
    }
    assert(chars@.take(chars@.len() as int) == chars@);
    res
}

/// `n` in decimal.
pub fn decimal(n: u64) -> (res: String)
    ensures
        res@ == decimal_of(n as nat),
    decreases n,
{
    let d: u8 = (n % 10) as u8;
    let mut res = if n < 10 {
        String::new()
    } else {
        decimal(n / 10)
    };
    res.push((48 + d) as char);
    res
}

/// `n` in decimal, always with its sign.
pub fn signed(n: i32) -> (res: String)
    ensures
        res@ == signed_of(n as int),
{
    let mut res = String::new();
    let wide: i64 = n as i64;
    if wide < 0 {
        res.push('-');
        res.concat(decimal((-wide) as u64).as_str())
    } else {
        res.push('+');
        res.concat(decimal(wide as u64).as_str())
    }
}

/// Text without white space is one word.
pub proof fn lemma_one_word(w: Seq<char>)
    requires
        w.len() > 0,
        forall|i: int| 0 <= i < w.len() ==> !is_white(#[trigger] w[i]),
    ensures
        words_of(w) == seq![w],
    decreases w.len(),
{
    if w.len() == 1 {
        assert(words_of(w.drop_last()) == Seq::<Seq<char>>::empty());
        assert(w == seq![w.last()]);
        assert(words_of(w) == seq![w]);
    } else {
        lemma_one_word(w.drop_last());
        assert(w.drop_last().push(w.last()) == w);
        assert(words_of(w) == seq![w]);
    }
}

/// White space sets words apart: the words before it and those after it are
/// found independently.
pub proof fn lemma_words_apart(a: Seq<char>, c: char, b: Seq<char>)
    requires
        is_white(c),
    ensures
        words_of(a.push(c) + b) == words_of(a) + words_of(b),
    decreases b.len(),
{
    let s = a.push(c) + b;
    if b.len() == 0 {
        assert(s == a.push(c));
        assert(s.drop_last() == a);
        assert(words_of(a) + words_of(b) == words_of(a));
    } else {
        let shorter = b.drop_last();
        lemma_words_apart(a, c, shorter);
        assert(s.drop_last() == a.push(c) + shorter);
        if b.len() > 1 {
            assert(s[s.len() - 2] == b[b.len() - 2]);
            if !is_white(b[b.len() - 2]) {
                lemma_word_open(shorter);
            }
        }
        assert(words_of(s) == words_of(a) + words_of(b));
    }
}

/// Text that does not end in white space has a word.
proof fn lemma_word_open(s: Seq<char>)
    requires
        s.len() > 0,
        !is_white(s.last()),
    ensures
        words_of(s).len() > 0,
{
}

} // verus!
