//! PSK Reporter spot upload.
//!
//! Reception reports travel as IPFIX (RFC 5101) datagrams:
//!
//!   header  +  receiver template  +  sender template  +  receiver data  +  sender data
//!
//! The two template descriptors are sent in every datagram, not just the
//! first few: PSK Reporter does not durably cache templates against the
//! observation id, so a datagram without them is unparseable and dropped.
//!
//! A single sender template carries every spot. Its `sNR` field is mandatory,
//! so a spot with no calibrated SNR (an accumulation-only decode) is sent
//! with an SNR of 0.
//!
//! A station is reported at most once per flush window, flushes are every
//! five minutes, and the timer is anchored to process start. What is sent,
//! and when, is decided here; the socket is the caller's.

use vstd::prelude::*;
use crate::seqs::append_copy;
use crate::text::{chars_of, eq_ignore_case, split_words, to_upper, to_upper_char};

verus! {

/// PSK Reporter's IANA enterprise number; it tags every proprietary field.
pub const ENTERPRISE: u32 = 30351;

/// Sender-information template id.
pub const TX_TEMPLATE_ID: u16 = 0x50E3;

/// Receiver-information template id.
pub const RX_TEMPLATE_ID: u16 = 0x50E2;

/// Flush interval, nanoseconds: one datagram per five minutes.
pub const FLUSH_NANOS: u64 = 300_000_000_000;

/// Cap on the pending-spot queue, so a long network outage cannot grow it
/// without bound.
pub const MAX_QUEUE: usize = 256;

/// Software identifier reported as `decodingSoftware`.
pub const SOFTWARE: &'static str = "GW4WND FT8 Skimmer";

/// One station heard; becomes a single sender-information record.
#[derive(Clone, Debug, PartialEq)]
pub struct Spot {
    /// Transmitting station's callsign (with any prefix or suffix).
    pub call: String,
    /// Transmitting station's Maidenhead locator (4 or 6 characters).
    pub grid: String,
    /// RF frequency the station was heard on, Hz.
    pub freq_hz: u32,
    /// Signal-to-noise estimate, dB; `None` when no calibrated SNR exists
    /// (accumulation-only decodes). A `None` spot is sent with an SNR of 0.
    pub snr: Option<i32>,
    /// Mode string, e.g. "FT8".
    pub mode: String,
    /// Unix time the station was heard.
    pub time: u32,
}

/// What a spot says.
#[verifier::ext_equal]
pub struct SpotData {
    pub call: Seq<char>,
    pub grid: Seq<char>,
    pub freq_hz: u32,
    pub snr: Option<i32>,
    pub mode: Seq<char>,
    pub time: u32,
}

impl View for Spot {
    type V = SpotData;

    open spec fn view(&self) -> SpotData {
        SpotData {
            call: self.call@,
            grid: self.grid@,
            freq_hz: self.freq_hz,
            snr: self.snr,
            mode: self.mode@,
            time: self.time,
        }
    }
}

// ---- IPFIX bytes (everything big-endian) ---------------------------------

/// A 16-bit number, most significant byte first.
pub open spec fn be16(v: u16) -> Seq<u8> {
    seq![(v / 256) as u8, (v % 256) as u8]
}

/// A 32-bit number, most significant byte first.
pub open spec fn be32(v: u32) -> Seq<u8> {
    seq![
        (v / 0x100_0000) as u8,
        (v / 0x1_0000 % 256) as u8,
        (v / 0x100 % 256) as u8,
        (v % 256) as u8,
    ]
}

/// A length as it goes on the wire: its low 16 bits.
pub open spec fn wire_len(n: int) -> u16 {
    (n % 0x1_0000) as u16
}

/// A variable-length string: a 1-byte length, then at most 254 UTF-8 bytes.
pub open spec fn str_field(s: Seq<char>) -> Seq<u8> {
    let utf = vstd::utf8::encode_utf8(s);
    let n = if utf.len() < 254 {
        utf.len() as int
    } else {
        254
    };
    seq![n as u8] + utf.take(n)
}

/// NUL bytes up to the next 4-byte boundary.
pub open spec fn padding(len: int) -> Seq<u8> {
    Seq::new(((4 - len % 4) % 4) as nat, |i: int| 0u8)
}

/// A finished Set: padded to a 4-byte boundary, with its padded size in its
/// length field (bytes 2 and 3).
pub open spec fn sealed(set: Seq<u8>) -> Seq<u8> {
    let s = set + padding(set.len() as int);
    let n = be16(wire_len(s.len() as int));
    s.update(2, n[0]).update(3, n[1])
}

/// An enterprise-specific field specifier.
pub open spec fn ent_bytes(ie: u16, len: u16) -> Seq<u8> {
    be16((0x8000 + ie) as u16) + be16(len) + be32(ENTERPRISE)
}

/// The sender-information template: Set ID 2, seven fields, 60 bytes.
#[verifier::opaque]
pub open spec fn tx_template() -> Seq<u8> {
    be16(2) + be16(60) + be16(TX_TEMPLATE_ID) + be16(7)
        + ent_bytes(1, 0xFFFF)  // senderCallsign
        + ent_bytes(5, 4)  // frequency
        + ent_bytes(6, 1)  // sNR
        + ent_bytes(10, 0xFFFF)  // mode
        + ent_bytes(3, 0xFFFF)  // senderLocator
        + ent_bytes(11, 1)  // informationSource
        + be16(150) + be16(4)  // dateTimeSeconds, no enterprise
}

/// The receiver-information template: Options Set ID 3, four fields, 42
/// bytes padded to 44.
#[verifier::opaque]
pub open spec fn rx_template() -> Seq<u8> {
    be16(3) + be16(44) + be16(RX_TEMPLATE_ID) + be16(4) + be16(0)
        + ent_bytes(2, 0xFFFF)  // receiverCallsign
        + ent_bytes(4, 0xFFFF)  // receiverLocator
        + ent_bytes(8, 0xFFFF)  // decodingSoftware
        + ent_bytes(9, 0xFFFF)  // antennaInformation
        + seq![0u8, 0u8]
}

/// Appends a 16-bit number, most significant byte first.
pub fn push_u16(b: &mut Vec<u8>, v: u16)
    ensures
        final(b)@ == old(b)@ + be16(v),
{
    b.push((v / 256) as u8);
    b.push((v % 256) as u8);
}

/// Appends a 32-bit number, most significant byte first.
pub fn push_u32(b: &mut Vec<u8>, v: u32)
    ensures
        final(b)@ == old(b)@ + be32(v),
{
    b.push((v / 0x100_0000) as u8);
    b.push((v / 0x1_0000 % 256) as u8);
    b.push((v / 0x100 % 256) as u8);
    b.push((v % 256) as u8);
}

/// Appends a variable-length string: a 1-byte length prefix, then UTF-8
/// bytes (254 at most).
pub fn push_str(b: &mut Vec<u8>, s: &str)
    ensures
        final(b)@ == old(b)@ + str_field(s@),
{
    let utf: &[u8] = s.as_bytes();
    let n: usize = if utf.len() < 254 {
        utf.len()
    } else {
        254
    };
    b.push(n as u8);
    let head = crate::seqs::copy_range(utf, 0, n);
    append_copy(b, head.as_slice());
    assert(utf@.subrange(0, n as int) == utf@.take(n as int));
    assert(b@ == old(b)@ + str_field(s@));
}

/// Pads to the next 4-byte boundary with NUL bytes.
pub fn pad4(b: &mut Vec<u8>)
    ensures
        final(b)@ == old(b)@ + padding(old(b)@.len() as int),
{
    let ghost before = b@;
    while b.len() % 4 != 0
        invariant
            before.len() <= b@.len() <= before.len() + padding(before.len() as int).len(),
            b@ == before + padding(before.len() as int).take(b@.len() - before.len()),
        decreases before.len() + padding(before.len() as int).len() - b@.len(),
    {
        b.push(0);
        assert(b@ == before + padding(before.len() as int).take(b@.len() - before.len()));
    }
    assert(b@ == before + padding(before.len() as int));
}

/// Finishes an IPFIX Set: pads to a 4-byte boundary, then patches its length
/// field (bytes 2 and 3) to the padded size.
pub fn finish_set(set: &mut Vec<u8>)
    requires
        old(set)@.len() > 0,
    ensures
        final(set)@ == sealed(old(set)@),
{
    pad4(set);
    let len: u16 = (set.len() % 0x1_0000) as u16;
    set[2] = (len / 256) as u8;
    set[3] = (len % 256) as u8;
}

/// Appends an enterprise-specific field specifier to a template.
pub fn ent_field(d: &mut Vec<u8>, ie: u16, len: u16)
    requires
        ie < 0x8000,
    ensures
        final(d)@ == old(d)@ + ent_bytes(ie, len),
{
    push_u16(d, 0x8000 + ie);
    push_u16(d, len);
    push_u32(d, ENTERPRISE);
    assert(d@ == old(d)@ + ent_bytes(ie, len));
}

/// Sender-information template descriptor.
///
/// Seven fields: senderCallsign, frequency, sNR, mode, senderLocator,
/// informationSource, dateTimeSeconds.
pub fn tx_descriptor() -> (d: Vec<u8>)
    ensures
        d@ == tx_template(),
        d@.len() == 60,
{
    let mut d: Vec<u8> = Vec::new();
    push_u16(&mut d, 2);
    push_u16(&mut d, 0);
    push_u16(&mut d, TX_TEMPLATE_ID);
    push_u16(&mut d, 7);
    ent_field(&mut d, 1, 0xFFFF);
    ent_field(&mut d, 5, 4);
    ent_field(&mut d, 6, 1);
    ent_field(&mut d, 10, 0xFFFF);
    ent_field(&mut d, 3, 0xFFFF);
    ent_field(&mut d, 11, 1);
    push_u16(&mut d, 150);
    push_u16(&mut d, 4);
    finish_set(&mut d);
    proof {
        reveal(tx_template);
    }
    d
}

/// Receiver-information template descriptor.
pub fn rx_descriptor() -> (d: Vec<u8>)
    ensures
        d@ == rx_template(),
        d@.len() == 44,
{
    let mut d: Vec<u8> = Vec::new();
    push_u16(&mut d, 3);
    push_u16(&mut d, 0);
    push_u16(&mut d, RX_TEMPLATE_ID);
    push_u16(&mut d, 4);
    push_u16(&mut d, 0);
    ent_field(&mut d, 2, 0xFFFF);
    ent_field(&mut d, 4, 0xFFFF);
    ent_field(&mut d, 8, 0xFFFF);
    ent_field(&mut d, 9, 0xFFFF);
    finish_set(&mut d);
    proof {
        reveal(rx_template);
    }
    d
}

// ---- who sent what -------------------------------------------------------

/// A 4- or 6-character Maidenhead locator, in either case.
pub open spec fn grid_like(s: Seq<char>) -> bool {
    &&& s.len() == 4 || s.len() == 6
    &&& 'A' <= crate::text::upper_char(s[0]) && crate::text::upper_char(s[0]) <= 'R'
    &&& 'A' <= crate::text::upper_char(s[1]) && crate::text::upper_char(s[1]) <= 'R'
    &&& crate::text::is_digit(s[2])
    &&& crate::text::is_digit(s[3])
    &&& s.len() == 6 ==> {
        &&& 'A' <= crate::text::upper_char(s[4]) && crate::text::upper_char(s[4]) <= 'X'
        &&& 'A' <= crate::text::upper_char(s[5]) && crate::text::upper_char(s[5]) <= 'X'
    }
}

/// A plausible amateur callsign: 3 to 11 ASCII letters, digits and `/`, with
/// at least one letter and one digit.
pub open spec fn callsign_like(s: Seq<char>) -> bool {
    &&& 3 <= s.len() <= 11
    &&& forall|i: int|
        0 <= i < s.len() ==> crate::text::is_letter(#[trigger] s[i]) || crate::text::is_digit(s[i])
            || s[i] == '/'
    &&& exists|i: int| 0 <= i < s.len() && crate::text::is_letter(#[trigger] s[i])
    &&& exists|i: int| 0 <= i < s.len() && crate::text::is_digit(#[trigger] s[i])
}

/// A sign and at least one digit.
pub open spec fn signed_number(w: Seq<char>) -> bool {
    &&& w.len() >= 2
    &&& w[0] == '+' || w[0] == '-'
    &&& forall|i: int| 1 <= i < w.len() ==> crate::text::is_digit(#[trigger] w[i])
}

/// A signal report (`-07`, `+02`), with or without a leading `R` (`R-12`).
pub open spec fn report_like(w: Seq<char>) -> bool {
    ||| signed_number(w)
    ||| w.len() > 0 && crate::text::upper_char(w[0]) == 'R' && signed_number(w.skip(1))
}

/// `RR73`, in either case: a sign-off that has the form of a locator.
pub open spec fn is_rr73(w: Seq<char>) -> bool {
    crate::text::upper(w) == "RR73"@
}

/// A word that ends an exchange: `RRR`, `RR73` or `73`, in either case.
pub open spec fn is_sign_off(w: Seq<char>) -> bool {
    crate::text::upper(w) == "RRR"@ || is_rr73(w) || w == "73"@
}

/// A word that a standard message ends in: a locator, a report or a sign-off.
/// A message that ends otherwise is free text.
pub open spec fn closes(w: Seq<char>) -> bool {
    grid_like(w) || report_like(w) || is_sign_off(w)
}

/// A bare `R`, in either case.
pub open spec fn is_roger(w: Seq<char>) -> bool {
    w.len() == 1 && crate::text::upper_char(w[0]) == 'R'
}

/// The word that names the sender: the one before the last, or the one
/// before that where a bare `R` stands in between.
pub open spec fn sender_word(words: Seq<Seq<char>>) -> Seq<char> {
    let n = words.len();
    if is_roger(words[n - 2]) && n > 2 {
        words[n - 3]
    } else {
        words[n - 2]
    }
}

/// The station that sent `message`, if it is a standard message that names
/// one.
pub open spec fn sender_of(message: Seq<char>) -> Option<Seq<char>> {
    let words = crate::text::words_of(message);
    if words.len() >= 2 && closes(words.last()) && callsign_like(sender_word(words)) {
        Some(crate::text::upper(sender_word(words)))
    } else {
        None
    }
}

/// The station that sent `message`, and the locator that it ends in.
pub open spec fn spot_of(message: Seq<char>) -> Option<(Seq<char>, Seq<char>)> {
    let words = crate::text::words_of(message);
    match sender_of(message) {
        Some(call) if grid_like(words.last()) && !is_rr73(words.last()) => Some(
            (call, crate::text::upper(words.last())),
        ),
        _ => None,
    }
}

/// The characters form a locator.
fn grid_chars(s: &[char]) -> (r: bool)
    ensures
        r == grid_like(s@),
{
    if s.len() != 4 && s.len() != 6 {
        return false;
    }
    let a = to_upper_char(s[0]);
    let b = to_upper_char(s[1]);
    let square: bool = 'A' <= a && a <= 'R' && 'A' <= b && b <= 'R' && '0' <= s[2] && s[2] <= '9'
        && '0' <= s[3] && s[3] <= '9';
    if s.len() == 4 {
        return square;
    }
    let c = to_upper_char(s[4]);
    let d = to_upper_char(s[5]);
    square && 'A' <= c && c <= 'X' && 'A' <= d && d <= 'X'
}

/// The characters from index `from` on form a signed number.
fn signed_chars(s: &[char], from: usize) -> (r: bool)
    requires
        from <= s@.len(),
    ensures
        r == signed_number(s@.skip(from as int)),
{
    let ghost w = s@.skip(from as int);
    if s.len() - from < 2 || (s[from] != '+' && s[from] != '-') {
        return false;
    }
    let mut i: usize = from + 1;
    while i < s.len()
        invariant
            from < i <= s@.len(),
            w == s@.skip(from as int),
            forall|j: int| 1 <= j < i - from ==> crate::text::is_digit(#[trigger] w[j]),
        decreases s@.len() - i,
    {
        if s[i] < '0' || '9' < s[i] {
            assert(!crate::text::is_digit(w[i - from]));
            return false;
        }
        i += 1;
    }
    true
}

/// The characters form a report.
fn report_chars(s: &[char]) -> (r: bool)
    ensures
        r == report_like(s@),
{
    assert(s@.skip(0) == s@);
    if s.len() == 0 {
        return false;
    }
    signed_chars(s, 0) || (to_upper_char(s[0]) == 'R' && signed_chars(s, 1))
}

/// The characters are `RR73`.
fn rr73_chars(s: &[char]) -> (r: bool)
    ensures
        r == is_rr73(s@),
{
    proof {
        reveal_strlit("RR73");
    }
    let r: bool = s.len() == 4 && to_upper_char(s[0]) == 'R' && to_upper_char(s[1]) == 'R' && s[2]
        == '7' && s[3] == '3';
    assert(r ==> crate::text::upper(s@) =~= "RR73"@);
    assert(is_rr73(s@) ==> r) by {
        if is_rr73(s@) {
            let u = crate::text::upper(s@);
            assert(u.len() == s@.len());
            assert(u[0] == 'R' && u[1] == 'R' && u[2] == '7' && u[3] == '3');
        }
    }
    r
}

/// The characters form a sign-off.
fn sign_off_chars(s: &[char]) -> (r: bool)
    ensures
        r == is_sign_off(s@),
{
    proof {
        reveal_strlit("RRR");
        reveal_strlit("73");
    }
    let rrr: bool = s.len() == 3 && to_upper_char(s[0]) == 'R' && to_upper_char(s[1]) == 'R'
        && to_upper_char(s[2]) == 'R';
    let seventy_three: bool = s.len() == 2 && s[0] == '7' && s[1] == '3';
    assert(rrr ==> crate::text::upper(s@) =~= "RRR"@);
    assert(crate::text::upper(s@) == "RRR"@ ==> rrr) by {
        let u = crate::text::upper(s@);
        assert(u.len() == s@.len());
        if u == "RRR"@ {
            assert(u[0] == 'R' && u[1] == 'R' && u[2] == 'R');
        }
    }
    assert(seventy_three ==> s@ =~= "73"@);
    rrr || seventy_three || rr73_chars(s)
}

/// The characters form a word that a standard message ends in.
fn closing_chars(s: &[char]) -> (r: bool)
    ensures
        r == closes(s@),
{
    grid_chars(s) || report_chars(s) || sign_off_chars(s)
}

/// The characters form a callsign.
fn callsign_chars(s: &[char]) -> (r: bool)
    ensures
        r == callsign_like(s@),
{
    if s.len() < 3 || s.len() > 11 {
        return false;
    }
    let mut has_letter: bool = false;
    let mut has_digit: bool = false;
    let mut i: usize = 0;
    while i < s.len()
        invariant
            i <= s@.len(),
            forall|j: int|
                0 <= j < i ==> crate::text::is_letter(#[trigger] s@[j]) || crate::text::is_digit(
                    s@[j],
                ) || s@[j] == '/',
            has_letter <==> exists|j: int| 0 <= j < i && crate::text::is_letter(#[trigger] s@[j]),
            has_digit <==> exists|j: int| 0 <= j < i && crate::text::is_digit(#[trigger] s@[j]),
        decreases s@.len() - i,
    {
        let c: char = s[i];
        if ('a' <= c && c <= 'z') || ('A' <= c && c <= 'Z') {
            has_letter = true;
            assert(crate::text::is_letter(s@[i as int]));
        } else if '0' <= c && c <= '9' {
            has_digit = true;
            assert(crate::text::is_digit(s@[i as int]));
        } else if c != '/' {
            assert(!crate::text::is_letter(s@[i as int]) && !crate::text::is_digit(s@[i as int]));
            return false;
        }
        i += 1;
    }
    has_letter && has_digit
}

/// True for a 4- or 6-character Maidenhead locator (`IO82`, `IO82KM`).
pub fn is_grid(s: &str) -> (r: bool)
    ensures
        r == grid_like(s@),
{
    grid_chars(chars_of(s).as_slice())
}

/// True for a plausible amateur callsign: alphanumeric plus `/`, at least one
/// letter and one digit. The digit requirement also rejects "CQ" and "DX".
pub fn is_callsign(s: &str) -> (r: bool)
    ensures
        r == callsign_like(s@),
{
    callsign_chars(chars_of(s).as_slice())
}

/// Extract the sender's callsign from an FT8 message.
///
/// FT8 messages name two stations as `<recipient> <sender> <report/grid>`,
/// or `CQ <sender> <grid>` / `CQ DX <sender> <grid>` for a call. The sender,
/// the station actually transmitting and so the one to spot or to track, is
/// the callsign immediately before the trailing report or grid token, with a
/// bare `R` skipped: a locator, a report (`-07`, `R-12`), `RRR`, `RR73` or
/// `73`. `None` for free text, which ends in none of these, or anything
/// without a recognisable sender callsign.
///
/// This is the single source of truth for "who sent this": both PSK Reporter
/// spotting and the skimmer view's per-station track grouping use it.
pub fn sender_callsign(message: &str) -> (res: Option<String>)
    ensures
        match res {
            Some(call) => sender_of(message@) == Some(call@),
            None => sender_of(message@) is None,
        },
{
    let tokens = split_words(message);
    let ghost words = crate::text::words_of(message@);
    assert(tokens@.len() == words.len());
    if tokens.len() < 2 {
        return None;
    }
    assert(forall|i: int| 0 <= i < words.len() ==> words[i] == #[trigger] tokens@[i]@);
    let last: usize = tokens.len() - 1;
    assert(words.last() == tokens@[last as int]@);
    if !closing_chars(tokens[last].as_slice()) {
        return None;
    }
    let mut ci: usize = tokens.len() - 2;
    if tokens[ci].len() == 1 && to_upper_char(tokens[ci][0]) == 'R' && ci > 0 {
        ci = ci - 1;
    }
    assert(tokens@[ci as int]@ == sender_word(words));
    if callsign_chars(tokens[ci].as_slice()) {
        Some(to_upper(tokens[ci].as_slice()))
    } else {
        None
    }
}

/// Decode an FT8 message into a spottable `(callsign, grid)`.
///
/// PSK Reporter only wants standard messages that carry the sender's
/// callsign and their locator: CQ calls and the `Call Call Grid` /
/// `Call Call R Grid` exchange forms. Report exchanges (`-12`, `R-07`,
/// `RRR`, `RR73`, `73`) carry no grid and yield `None`, as do non-standard and free
/// text messages.
pub fn parse_spot(message: &str) -> (res: Option<(String, String)>)
    ensures
        match res {
            Some((call, grid)) => spot_of(message@) == Some((call@, grid@)),
            None => spot_of(message@) is None,
        },
{
    let tokens = split_words(message);
    let ghost words = crate::text::words_of(message@);
    assert(tokens@.len() == words.len());
    if tokens.len() < 2 {
        return None;
    }
    let last: usize = tokens.len() - 1;
    assert(words.last() == tokens@[last as int]@);
    if !grid_chars(tokens[last].as_slice()) || rr73_chars(tokens[last].as_slice()) {
        return None;
    }
    match sender_callsign(message) {
        Some(call) => Some((call, to_upper(tokens[last].as_slice()))),
        None => None,
    }
}

/// Spotting and track grouping never disagree about a message's identity: a
/// spot names the message's sender. Both parts are in upper case, and the
/// locator is one: a sign-off is never taken for it.
pub proof fn lemma_spot_names_the_sender(message: Seq<char>)
    ensures
        spot_of(message) matches Some((call, grid)) ==> {
            &&& sender_of(message) == Some(call)
            &&& callsign_like(call)
            &&& grid_like(grid)
            &&& !is_sign_off(grid)
            &&& crate::text::upper(call) == call
            &&& crate::text::upper(grid) == grid
        },
{
    let words = crate::text::words_of(message);
    if spot_of(message) is Some {
        let w = sender_word(words);
        let call = crate::text::upper(w);
        assert forall|i: int| 0 <= i < call.len() implies crate::text::is_letter(#[trigger] call[i])
            || crate::text::is_digit(call[i]) || call[i] == '/' by {
            assert(crate::text::is_letter(w[i]) || crate::text::is_digit(w[i]) || w[i] == '/');
        }
        let a = choose|i: int| 0 <= i < w.len() && crate::text::is_letter(#[trigger] w[i]);
        let b = choose|i: int| 0 <= i < w.len() && crate::text::is_digit(#[trigger] w[i]);
        assert(crate::text::is_letter(call[a]));
        assert(crate::text::is_digit(call[b]));
        assert(crate::text::upper(call) == call);
        let g = crate::text::upper(words.last());
        assert(crate::text::upper(g) == g);
        reveal_strlit("RRR");
        reveal_strlit("73");
    }
}

/// A message is sent by someone only where it ends as a standard message
/// does: free text has no sender, and so nothing to spot.
pub proof fn lemma_free_text_has_no_sender(message: Seq<char>)
    requires
        ({
            let words = crate::text::words_of(message);
            words.len() == 0 || !closes(words.last())
        }),
    ensures
        sender_of(message) is None,
        spot_of(message) is None,
{
}

/// An exchange that ends in a report or a sign-off carries no locator, so
/// nothing is spotted.
pub proof fn lemma_reports_are_not_spotted(message: Seq<char>)
    requires
        ({
            let words = crate::text::words_of(message);
            words.len() > 0 && (report_like(words.last()) || is_sign_off(words.last()))
        }),
    ensures
        spot_of(message) is None,
{
    let w = crate::text::words_of(message).last();
    reveal_strlit("RRR");
    reveal_strlit("73");
    assert(crate::text::upper(w).len() == w.len());
    if report_like(w) && grid_like(w) {
        assert(w.skip(1)[0] == w[1]);
    }
}

// ---- the reporter --------------------------------------------------------

/// PSK Reporter spot uploader: the queue of stations heard and the datagrams
/// made of it.
///
/// Times are nanoseconds on a clock that never runs backwards, counted from
/// process start, so flushes are not synchronised with the wall clock.
pub struct Reporter {
    rx_call: String,
    rx_grid: String,
    rx_ant: String,
    observation_id: u32,
    sequence: u32,
    spots: Vec<Spot>,
    last_send: u64,
}

/// What a reporter holds.
#[verifier::ext_equal]
pub struct ReporterState {
    pub rx_call: Seq<char>,
    pub rx_grid: Seq<char>,
    pub rx_ant: Seq<char>,
    pub observation_id: u32,
    pub sequence: u32,
    pub spots: Seq<SpotData>,
    pub last_send: u64,
}

/// Index of the first spot of station `call`, or the length if there is none.
pub open spec fn position(spots: Seq<SpotData>, call: Seq<char>) -> int
    decreases spots.len(),
{
    if spots.len() == 0 {
        0
    } else if spots[0].call == call {
        0
    } else {
        1 + position(spots.drop_first(), call)
    }
}

/// The SNR of a spot as the wire carries it: one signed byte, 0 if there is
/// none.
pub open spec fn snr_byte(snr: Option<i32>) -> u8 {
    let v: int = match snr {
        Some(db) => db as int,
        None => 0,
    };
    let c = if v < -128 {
        -128
    } else if v > 127 {
        127
    } else {
        v
    };
    (if c < 0 {
        c + 256
    } else {
        c
    }) as u8
}

/// One sender-information record; the field order is that of
/// [`tx_template`].
pub open spec fn spot_record(s: SpotData) -> Seq<u8> {
    str_field(s.call) + be32(s.freq_hz) + seq![snr_byte(s.snr)] + str_field(s.mode) + str_field(
        s.grid,
    ) + seq![1u8] + be32(s.time)
}

/// Appending piece by piece appends the pieces as a whole.
proof fn lemma_append(
    d: Seq<u8>,
    call: Seq<u8>,
    freq: Seq<u8>,
    snr: u8,
    mode: Seq<u8>,
    grid: Seq<u8>,
    source: u8,
    time: Seq<u8>,
)
    ensures
        (d + call + freq).push(snr) + mode + grid == d + (call + freq + seq![snr] + mode + grid),
        (d + (call + freq + seq![snr] + mode + grid)).push(source) + time == d + (call + freq
            + seq![snr] + mode + grid + seq![source] + time),
{
    let front = call + freq + seq![snr] + mode + grid;
    assert((d + call + freq).push(snr) + mode + grid =~= d + front);
    assert((d + front).push(source) + time =~= d + (front + seq![source] + time));
}

/// Appends the record of a spot.
fn push_spot(d: &mut Vec<u8>, s: &Spot)
    ensures
        final(d)@ == old(d)@ + spot_record(s@),
{
    push_str(d, s.call.as_str());
    push_u32(d, s.freq_hz);
    d.push(snr_on_wire(s.snr));
    push_str(d, s.mode.as_str());
    push_str(d, s.grid.as_str());
    d.push(1);
    push_u32(d, s.time);
    proof {
        lemma_append(
            old(d)@,
            str_field(s@.call),
            be32(s@.freq_hz),
            snr_byte(s@.snr),
            str_field(s@.mode),
            str_field(s@.grid),
            1,
            be32(s@.time),
        );
    }
}

/// The records of all spots, in order.
pub open spec fn spot_records(spots: Seq<SpotData>) -> Seq<u8>
    decreases spots.len(),
{
    if spots.len() == 0 {
        seq![]
    } else {
        spot_records(spots.drop_last()) + spot_record(spots.last())
    }
}

impl ReporterState {
    /// No station is queued twice, none under our own call, and the queue
    /// stays within its cap.
    pub open spec fn ok(self) -> bool {
        &&& self.spots.len() <= MAX_QUEUE
        &&& forall|i: int, j: int|
            0 <= i < j < self.spots.len() ==> (#[trigger] self.spots[i]).call != (
            #[trigger] self.spots[j]).call
        &&& forall|i: int|
            0 <= i < self.spots.len() ==> crate::text::upper((#[trigger] self.spots[i]).call)
                != crate::text::upper(self.rx_call)
    }

    /// `spot` is of our own station.
    pub open spec fn is_own(self, spot: SpotData) -> bool {
        crate::text::upper(spot.call) == crate::text::upper(self.rx_call)
    }

    /// The state once `spot` has been offered.
    ///
    /// Our own station is ignored. A station already queued has its entry
    /// replaced, and keeps its SNR where the new spot has none. Any other
    /// spot is queued as long as there is room.
    pub open spec fn offered(self, spot: SpotData) -> Self {
        let at = position(self.spots, spot.call);
        if self.is_own(spot) {
            self
        } else if at < self.spots.len() {
            let snr = if spot.snr is None {
                self.spots[at].snr
            } else {
                spot.snr
            };
            ReporterState { spots: self.spots.update(at, SpotData { snr, ..spot }), ..self }
        } else if self.spots.len() < MAX_QUEUE {
            ReporterState { spots: self.spots.push(spot), ..self }
        } else {
            self
        }
    }

    /// Receiver-information data record.
    pub open spec fn rx_bytes(self) -> Seq<u8> {
        sealed(
            be16(RX_TEMPLATE_ID) + be16(0) + str_field(self.rx_call) + str_field(self.rx_grid)
                + str_field(SOFTWARE@) + str_field(self.rx_ant),
        )
    }

    /// Sender-information data record: one entry per queued spot.
    pub open spec fn tx_bytes(self) -> Seq<u8> {
        sealed(be16(TX_TEMPLATE_ID) + be16(0) + spot_records(self.spots))
    }

    /// Everything in a datagram after its header.
    pub open spec fn payload(self) -> Seq<u8> {
        rx_template() + tx_template() + self.rx_bytes() + self.tx_bytes()
    }

    /// A complete datagram with the state's own sequence number.
    pub open spec fn datagram(self, now_secs: u32) -> Seq<u8> {
        be16(10) + be16(wire_len(self.payload().len() + 16int)) + be32(now_secs) + be32(
            self.sequence,
        ) + be32(self.observation_id) + self.payload()
    }

    /// The state with the next sequence number.
    pub open spec fn numbered(self) -> Self {
        ReporterState {
            sequence: if self.sequence == u32::MAX {
                0
            } else {
                (self.sequence + 1) as u32
            },
            ..self
        }
    }

    /// The flush window has run out at `now`.
    pub open spec fn is_due(self, now: u64) -> bool {
        now - self.last_send >= FLUSH_NANOS
    }

    /// What a flush sends, if there is anything to report.
    pub open spec fn flushed(self, now_secs: u32) -> (Self, Option<Seq<u8>>) {
        if self.spots.len() == 0 {
            (self, None)
        } else {
            (self.numbered(), Some(self.numbered().datagram(now_secs)))
        }
    }

    /// What a tick at `now` sends: nothing before the window has run out.
    pub open spec fn ticked(self, now: u64, now_secs: u32) -> (Self, Option<Seq<u8>>) {
        if self.is_due(now) {
            (ReporterState { last_send: now, ..self }).flushed(now_secs)
        } else {
            (self, None)
        }
    }
}

impl View for Reporter {
    type V = ReporterState;

    closed spec fn view(&self) -> ReporterState {
        ReporterState {
            rx_call: self.rx_call@,
            rx_grid: self.rx_grid@,
            rx_ant: self.rx_ant@,
            observation_id: self.observation_id,
            sequence: self.sequence,
            spots: self.spots@.map_values(|s: Spot| s@),
            last_send: self.last_send,
        }
    }
}

/// Identifier for one session, reasonably unique across monitors: the
/// nanoseconds of the start time mixed with the process id.
pub fn session_observation_id(nanos: u32, pid: u32) -> (id: u32)
    ensures
        id == nanos ^ ((pid * 2_654_435_761) % 0x1_0000_0000) as u32,
{
    nanos ^ pid.wrapping_mul(2_654_435_761)
}

/// The SNR of a spot as the wire carries it.
fn snr_on_wire(snr: Option<i32>) -> (b: u8)
    ensures
        b == snr_byte(snr),
{
    let v: i32 = match snr {
        Some(db) => db,
        None => 0,
    };
    if v < -128 {
        128
    } else if v < 0 {
        (v + 256) as u8
    } else if v > 127 {
        127
    } else {
        v as u8
    }
}

proof fn lemma_position(spots: Seq<SpotData>, call: Seq<char>, at: int)
    requires
        0 <= at <= spots.len(),
        forall|i: int| 0 <= i < at ==> (#[trigger] spots[i]).call != call,
        at < spots.len() ==> spots[at].call == call,
    ensures
        position(spots, call) == at,
    decreases spots.len(),
{
    if at > 0 {
        let rest = spots.drop_first();
        assert(forall|i: int| 0 <= i < rest.len() ==> rest[i] == #[trigger] spots[i + 1]);
        assert forall|i: int| 0 <= i < at - 1 implies (#[trigger] rest[i]).call != call by {
            assert(spots[i + 1].call != call);
        }
        lemma_position(rest, call, at - 1);
    }
}

proof fn lemma_position_found(spots: Seq<SpotData>, call: Seq<char>)
    ensures
        0 <= position(spots, call) <= spots.len(),
        position(spots, call) < spots.len() ==> spots[position(spots, call)].call == call,
        forall|i: int|
            0 <= i < position(spots, call) ==> (#[trigger] spots[i]).call != call,
    decreases spots.len(),
{
    if spots.len() > 0 && spots[0].call != call {
        let rest = spots.drop_first();
        lemma_position_found(rest, call);
        assert forall|i: int| 0 <= i < position(spots, call) implies (#[trigger] spots[i]).call
            != call by {
            if i > 0 {
                assert(rest[i - 1] == spots[i]);
            }
        }
    }
}

/// Whatever is offered, no station is queued twice, our own call is never
/// queued, and the queue stays within its cap.
pub proof fn lemma_offer_keeps_ok(r: ReporterState, spot: SpotData)
    requires
        r.ok(),
    ensures
        r.offered(spot).ok(),
{
    lemma_position_found(r.spots, spot.call);
}

/// Puts four pieces together.
fn join(a: Vec<u8>, b: &[u8], c: &[u8], d: &[u8]) -> (res: Vec<u8>)
    ensures
        res@ == a@ + b@ + c@ + d@,
{
    let mut res = a;
    append_copy(&mut res, b);
    append_copy(&mut res, c);
    append_copy(&mut res, d);
    res
}

/// Puts the message header in front of a payload.
fn frame(payload: &[u8], now_secs: u32, sequence: u32, observation_id: u32) -> (msg: Vec<u8>)
    ensures
        msg@ == be16(10) + be16(wire_len(payload@.len() + 16int)) + be32(now_secs) + be32(sequence)
            + be32(observation_id) + payload@,
{
    let total: u16 = ((payload.len() % 0x1_0000 + 16) % 0x1_0000) as u16;
    assert(total == wire_len(payload@.len() + 16int));
    let mut msg: Vec<u8> = Vec::new();
    push_u16(&mut msg, 10);
    push_u16(&mut msg, total);
    push_u32(&mut msg, now_secs);
    push_u32(&mut msg, sequence);
    push_u32(&mut msg, observation_id);
    append_copy(&mut msg, payload);
    assert(Seq::<u8>::empty() + be16(10) == be16(10));
    msg
}

impl Reporter {
    #[verifier::type_invariant]
    spec fn inv(self) -> bool {
        self@.ok()
    }

    /// Create a reporter for the given receiving station. `nanos` and `pid`
    /// make its observation id, and the first flush window opens at `now`.
    pub fn new(rx_call: &str, rx_grid: &str, rx_ant: &str, nanos: u32, pid: u32, now: u64) -> (r:
        Self)
        ensures
            r@ == (ReporterState {
                rx_call: crate::text::upper(rx_call@),
                rx_grid: rx_grid@,
                rx_ant: rx_ant@,
                observation_id: nanos ^ ((pid * 2_654_435_761) % 0x1_0000_0000) as u32,
                sequence: 0,
                spots: seq![],
                last_send: now,
            }),
    {
        Reporter {
            rx_call: to_upper(chars_of(rx_call).as_slice()),
            rx_grid: rx_grid.to_owned(),
            rx_ant: rx_ant.to_owned(),
            observation_id: session_observation_id(nanos, pid),
            sequence: 0,
            spots: Vec::new(),
            last_send: now,
        }
    }

    /// Queue a spot. A repeat of a callsign already queued this window
    /// replaces the earlier entry (one report per call per flush). A real
    /// SNR is never lost to a later accumulation decode: if the incoming
    /// spot has no SNR but the queued one does, the SNR is carried forward.
    /// Spots of our own callsign are ignored.
    pub fn add_spot(&mut self, spot: Spot)
        ensures
            final(self)@ == old(self)@.offered(spot@),
    {
        proof {
            use_type_invariant(&*self);
            lemma_offer_keeps_ok(self@, spot@);
        }
        let ghost before = self@;
        if eq_ignore_case(spot.call.as_str(), self.rx_call.as_str()) {
            return;
        }
        let mut spots: Vec<Spot> = Vec::new();
        std::mem::swap(&mut spots, &mut self.spots);
        let mut at: usize = 0;
        while at < spots.len() && spots[at].call != spot.call
            invariant
                at <= spots@.len(),
                spots@.map_values(|s: Spot| s@) == before.spots,
                forall|i: int| 0 <= i < at ==> (#[trigger] before.spots[i]).call != spot.call@,
            decreases spots@.len() - at,
        {
            assert(before.spots[at as int] == spots@[at as int]@);
            at += 1;
        }
        proof {
            if at < spots@.len() {
                assert(before.spots[at as int] == spots@[at as int]@);
            }
            lemma_position(before.spots, spot.call@, at as int);
        }
        if at < spots.len() {
            let snr = match spot.snr {
                Some(db) => Some(db),
                None => spots[at].snr,
            };
            let merged = Spot {
                call: spot.call,
                grid: spot.grid,
                freq_hz: spot.freq_hz,
                snr,
                mode: spot.mode,
                time: spot.time,
            };
            spots.set(at, merged);
        } else if spots.len() < MAX_QUEUE {
            spots.push(spot);
        }
        assert(spots@.map_values(|s: Spot| s@) == before.offered(spot@).spots);
        self.spots = spots;
        assert(self@ == before.offered(spot@));
    }

    /// Called once per slot. Gives the datagram to send when the five-minute
    /// window has elapsed and there is something worth sending; the caller
    /// answers with [`note_sent`](Self::note_sent). `now_secs` is the Unix
    /// time.
    pub fn tick(&mut self, now: u64, now_secs: u32) -> (datagram: Option<Vec<u8>>)
        ensures
            final(self)@ == old(self)@.ticked(now, now_secs).0,
            match datagram {
                Some(d) => old(self)@.ticked(now, now_secs).1 == Some(d@),
                None => old(self)@.ticked(now, now_secs).1 is None,
            },
    {
        proof {
            use_type_invariant(&*self);
        }
        if now.saturating_sub(self.last_send) < FLUSH_NANOS {
            return None;
        }
        self.last_send = now;
        self.flush(now_secs)
    }

    /// Build a datagram now, if there is anything to report. The spots stay
    /// queued until the caller reports success by
    /// [`note_sent`](Self::note_sent).
    pub fn flush(&mut self, now_secs: u32) -> (datagram: Option<Vec<u8>>)
        ensures
            final(self)@ == old(self)@.flushed(now_secs).0,
            match datagram {
                Some(d) => old(self)@.flushed(now_secs).1 == Some(d@),
                None => old(self)@.flushed(now_secs).1 is None,
            },
    {
        if self.spots.len() == 0 {
            return None;
        }
        Some(self.build_datagram(now_secs))
    }

    /// Record whether a datagram was sent. Pending spots are cleared only on
    /// success; returns how many were.
    pub fn note_sent(&mut self, sent: bool) -> (n: usize)
        ensures
            sent ==> final(self)@ == (ReporterState { spots: seq![], ..old(self)@ }),
            sent ==> n == old(self)@.spots.len(),
            !sent ==> final(self)@ == old(self)@ && n == 0,
    {
        proof {
            use_type_invariant(&*self);
        }
        if sent {
            let n: usize = self.spots.len();
            self.spots = Vec::new();
            assert(self@.spots == Seq::<SpotData>::empty());
            n
        } else {
            0
        }
    }

    /// Number of spots currently queued.
    pub fn pending(&self) -> (n: usize)
        ensures
            n == self@.spots.len(),
    {
        self.spots.len()
    }

    /// The spots currently queued, oldest first.
    pub fn spots(&self) -> (res: &[Spot])
        ensures
            res@.map_values(|s: Spot| s@) == self@.spots,
    {
        self.spots.as_slice()
    }

    /// Receiver-information data record.
    pub fn rx_record(&self) -> (d: Vec<u8>)
        ensures
            d@ == self@.rx_bytes(),
    {
        let mut d: Vec<u8> = Vec::new();
        push_u16(&mut d, RX_TEMPLATE_ID);
        push_u16(&mut d, 0);
        push_str(&mut d, self.rx_call.as_str());
        push_str(&mut d, self.rx_grid.as_str());
        push_str(&mut d, SOFTWARE);
        push_str(&mut d, self.rx_ant.as_str());
        assert(d@ == be16(RX_TEMPLATE_ID) + be16(0) + str_field(self@.rx_call) + str_field(
            self@.rx_grid,
        ) + str_field(SOFTWARE@) + str_field(self@.rx_ant));
        finish_set(&mut d);
        d
    }

    /// Sender-information data record: one entry per queued spot. Field order
    /// matches [`tx_descriptor`]. A spot with no calibrated SNR is sent with
    /// an SNR of 0.
    pub fn tx_record(&self) -> (d: Vec<u8>)
        ensures
            d@ == self@.tx_bytes(),
    {
        let mut d: Vec<u8> = Vec::new();
        push_u16(&mut d, TX_TEMPLATE_ID);
        push_u16(&mut d, 0);
        let ghost head = be16(TX_TEMPLATE_ID) + be16(0);
        assert(d@ == head + spot_records(self@.spots.take(0)));
        let mut i: usize = 0;
        while i < self.spots.len()
            invariant
                i <= self.spots@.len(),
                self@.spots == self.spots@.map_values(|s: Spot| s@),
                d@ == head + spot_records(self@.spots.take(i as int)),
            decreases self.spots@.len() - i,
        {
            push_spot(&mut d, &self.spots[i]);
            proof {
                let done = self@.spots.take(i + 1);
                let (recs, rec) = (spot_records(done.drop_last()), spot_record(done.last()));
                assert(done.drop_last() == self@.spots.take(i as int));
                assert(d@ == head + recs + rec);
                assert(head + recs + rec =~= head + (recs + rec));
            }
            i += 1;
        }
        assert(self@.spots.take(i as int) == self@.spots);
        finish_set(&mut d);
        d
    }

    /// Everything in a datagram after its header: both descriptors, then both
    /// data records.
    fn build_payload(&self) -> (p: Vec<u8>)
        ensures
            p@ == self@.payload(),
    {
        let rx_desc = rx_descriptor();
        let tx_desc = tx_descriptor();
        let rx = self.rx_record();
        let tx = self.tx_record();
        join(rx_desc, tx_desc.as_slice(), rx.as_slice(), tx.as_slice())
    }

    /// Assemble a complete IPFIX datagram: header, both descriptors, both
    /// data records. Takes the next sequence number.
    pub fn build_datagram(&mut self, now_secs: u32) -> (msg: Vec<u8>)
        ensures
            final(self)@ == old(self)@.numbered(),
            msg@ == old(self)@.numbered().datagram(now_secs),
    {
        proof {
            use_type_invariant(&*self);
        }
        self.sequence = self.sequence.wrapping_add(1);
        assert(self@ == old(self)@.numbered());
        let payload = self.build_payload();
        frame(payload.as_slice(), now_secs, self.sequence, self.observation_id)
    }
}

/// A station that is not our own, and is queued already or finds room, is
/// queued with what the latest spot says of it. Its SNR is lost to no later
/// spot without one, and every other entry stays as it was.
pub proof fn lemma_latest_spot_counts(r: ReporterState, spot: SpotData)
    requires
        r.ok(),
        !r.is_own(spot),
        position(r.spots, spot.call) < r.spots.len() || r.spots.len() < MAX_QUEUE,
    ensures
        ({
            let at = position(r.spots, spot.call);
            let post = r.offered(spot).spots;
            &&& 0 <= at < post.len()
            &&& position(post, spot.call) == at
            &&& post[at].call == spot.call
            &&& post[at].grid == spot.grid
            &&& post[at].freq_hz == spot.freq_hz
            &&& post[at].mode == spot.mode
            &&& post[at].time == spot.time
            &&& spot.snr is Some ==> post[at].snr == spot.snr
            &&& spot.snr is None && at < r.spots.len() ==> post[at].snr == r.spots[at].snr
            &&& forall|i: int|
                0 <= i < r.spots.len() && i != at ==> #[trigger] post[i] == r.spots[i]
        }),
{
    let at = position(r.spots, spot.call);
    let post = r.offered(spot).spots;
    lemma_position_found(r.spots, spot.call);
    assert forall|i: int| 0 <= i < at implies (#[trigger] post[i]).call != spot.call by {
        assert(post[i] == r.spots[i]);
    }
    lemma_position(post, spot.call, at);
}

/// Building a datagram takes no spot out of the queue, numbers the datagram
/// apart from the one before it, and leaves the observation id alone.
pub proof fn lemma_flush_keeps_the_queue(r: ReporterState, now_secs: u32)
    ensures
        r.flushed(now_secs).0.spots == r.spots,
        r.flushed(now_secs).0.observation_id == r.observation_id,
        r.flushed(now_secs).1 is Some <==> r.spots.len() > 0,
        r.flushed(now_secs).1 is Some ==> r.flushed(now_secs).0.sequence != r.sequence,
{
}

/// Two ticks that both find their window run out lie at least the flush
/// interval apart, whatever was queued or sent in between.
pub proof fn lemma_ticks_are_apart(
    r: ReporterState,
    s: ReporterState,
    first: u64,
    first_secs: u32,
    second: u64,
)
    requires
        r.is_due(first),
        s.last_send == r.ticked(first, first_secs).0.last_send,
        s.is_due(second),
    ensures
        second - first >= FLUSH_NANOS,
{
}

/// The pieces of a datagram in their places: version 10, the length, the
/// time, the sequence number, the observation id, both template descriptors,
/// the receiver record and the sender record.
pub open spec fn laid_out(
    d: Seq<u8>,
    length: Seq<u8>,
    time: Seq<u8>,
    sequence: Seq<u8>,
    id: Seq<u8>,
    rx: Seq<u8>,
    tx: Seq<u8>,
) -> bool {
    &&& d.len() == 120 + rx.len() + tx.len()
    &&& d.subrange(0, 2) == be16(10)
    &&& d.subrange(2, 4) == length
    &&& d.subrange(4, 8) == time
    &&& d.subrange(8, 12) == sequence
    &&& d.subrange(12, 16) == id
    &&& d.subrange(16, 60) == rx_template()
    &&& d.subrange(60, 120) == tx_template()
    &&& d.subrange(120, 120int + rx.len()) == rx
    &&& d.subrange(120int + rx.len(), d.len() as int) == tx
}

/// The layout of a datagram: a 16-byte header, then both template
/// descriptors, whatever was sent before, then both data records. It is a
/// whole number of 4-byte words long, and its length field holds its length
/// as long as 16 bits can.
pub proof fn lemma_datagram_layout(r: ReporterState, now_secs: u32)
    ensures
        laid_out(
            r.datagram(now_secs),
            be16(wire_len(r.datagram(now_secs).len() as int)),
            be32(now_secs),
            be32(r.sequence),
            be32(r.observation_id),
            r.rx_bytes(),
            r.tx_bytes(),
        ),
        r.datagram(now_secs).len() % 4 == 0,
        r.datagram(now_secs).len() <= u16::MAX ==> 256 * r.datagram(now_secs)[2] + r.datagram(
            now_secs,
        )[3] == r.datagram(now_secs).len(),
{
    lemma_record_headers(r);
    lemma_pieces(now_secs, r.sequence, r.observation_id, r.rx_bytes(), r.tx_bytes());
}

/// Each data record begins with its template id and its own length, and is a
/// whole number of 4-byte words long.
pub proof fn lemma_record_headers(r: ReporterState)
    ensures
        r.rx_bytes().len() % 4 == 0,
        r.rx_bytes().subrange(0, 2) == be16(RX_TEMPLATE_ID),
        r.rx_bytes().subrange(2, 4) == be16(wire_len(r.rx_bytes().len() as int)),
        r.tx_bytes().len() % 4 == 0,
        r.tx_bytes().subrange(0, 2) == be16(TX_TEMPLATE_ID),
        r.tx_bytes().subrange(2, 4) == be16(wire_len(r.tx_bytes().len() as int)),
{
    let rx = r.rx_bytes();
    lemma_set_header(
        RX_TEMPLATE_ID,
        str_field(r.rx_call) + str_field(r.rx_grid) + str_field(SOFTWARE@) + str_field(r.rx_ant),
    );
    assert(rx == sealed(
        be16(RX_TEMPLATE_ID) + be16(0) + (str_field(r.rx_call) + str_field(r.rx_grid) + str_field(
            SOFTWARE@,
        ) + str_field(r.rx_ant)),
    )) by {
        assert(be16(RX_TEMPLATE_ID) + be16(0) + str_field(r.rx_call) + str_field(r.rx_grid)
            + str_field(SOFTWARE@) + str_field(r.rx_ant) == be16(RX_TEMPLATE_ID) + be16(0) + (
        str_field(r.rx_call) + str_field(r.rx_grid) + str_field(SOFTWARE@) + str_field(r.rx_ant)));
    }
    lemma_set_header(TX_TEMPLATE_ID, spot_records(r.spots));
}

proof fn lemma_template_lengths()
    ensures
        rx_template().len() == 44,
        tx_template().len() == 60,
{
    reveal(rx_template);
    reveal(tx_template);
}

proof fn lemma_set_header(id: u16, body: Seq<u8>)
    ensures
        ({
            let set = sealed(be16(id) + be16(0) + body);
            &&& set.len() % 4 == 0
            &&& set.len() >= 4
            &&& set.subrange(0, 2) == be16(id)
            &&& set.subrange(2, 4) == be16(wire_len(set.len() as int))
        }),
{
}

/// Where the pieces of a header lie, and what follows it.
proof fn lemma_head(
    version: Seq<u8>,
    length: Seq<u8>,
    time: Seq<u8>,
    sequence: Seq<u8>,
    id: Seq<u8>,
    p: Seq<u8>,
)
    requires
        version.len() == 2,
        length.len() == 2,
        time.len() == 4,
        sequence.len() == 4,
        id.len() == 4,
    ensures
        ({
            let d = version + length + time + sequence + id + p;
            &&& d.len() == 16 + p.len()
            &&& d.subrange(0, 2) == version
            &&& d.subrange(2, 4) == length
            &&& d.subrange(4, 8) == time
            &&& d.subrange(8, 12) == sequence
            &&& d.subrange(12, 16) == id
            &&& forall|i: int, j: int|
                0 <= i <= j <= p.len() ==> #[trigger] p.subrange(i, j) == d.subrange(16 + i, 16 + j)
        }),
{
    let d = version + length + time + sequence + id + p;
    assert(d.subrange(0, 2) =~= version);
    assert(d.subrange(2, 4) =~= length);
    assert(d.subrange(4, 8) =~= time);
    assert(d.subrange(8, 12) =~= sequence);
    assert(d.subrange(12, 16) =~= id);
    assert forall|i: int, j: int| 0 <= i <= j <= p.len() implies #[trigger] p.subrange(i, j)
        == d.subrange(16 + i, 16 + j) by {
        assert(p.subrange(i, j) =~= d.subrange(16 + i, 16 + j));
    }
}

/// Where four pieces lie.
proof fn lemma_body(a: Seq<u8>, b: Seq<u8>, c: Seq<u8>, d: Seq<u8>)
    ensures
        ({
            let p = a + b + c + d;
            let (x, y, z) = (a.len() as int, a.len() + b.len(), a.len() + b.len() + c.len());
            &&& p.len() == z + d.len()
            &&& p.subrange(0, x) == a
            &&& p.subrange(x, y as int) == b
            &&& p.subrange(y as int, z as int) == c
            &&& p.subrange(z as int, p.len() as int) == d
        }),
{
    let p = a + b + c + d;
    let (x, y, z) = (a.len() as int, a.len() + b.len(), a.len() + b.len() + c.len());
    assert(p.subrange(0, x) =~= a);
    assert(p.subrange(x, y as int) =~= b);
    assert(p.subrange(y as int, z as int) =~= c);
    assert(p.subrange(z as int, p.len() as int) =~= d);
}

/// A length field holds the length as long as 16 bits can.
proof fn lemma_length_field(n: int)
    requires
        0 <= n,
    ensures
        be16(wire_len(n)).len() == 2,
        n <= u16::MAX ==> 256 * be16(wire_len(n))[0] + be16(wire_len(n))[1] == n,
{
}

/// The pieces of a message lie where [`laid_out`] says.
proof fn lemma_places(
    version: Seq<u8>,
    length: Seq<u8>,
    time: Seq<u8>,
    sequence: Seq<u8>,
    id: Seq<u8>,
    a: Seq<u8>,
    b: Seq<u8>,
    rx: Seq<u8>,
    tx: Seq<u8>,
)
    requires
        version.len() == 2,
        length.len() == 2,
        time.len() == 4,
        sequence.len() == 4,
        id.len() == 4,
        a.len() == 44,
        b.len() == 60,
    ensures
        ({
            let d = version + length + time + sequence + id + (a + b + rx + tx);
            &&& d.len() == 120 + rx.len() + tx.len()
            &&& d.subrange(0, 2) == version
            &&& d.subrange(2, 4) == length
            &&& d.subrange(4, 8) == time
            &&& d.subrange(8, 12) == sequence
            &&& d.subrange(12, 16) == id
            &&& d.subrange(16, 60) == a
            &&& d.subrange(60, 120) == b
            &&& d.subrange(120, 120int + rx.len()) == rx
            &&& d.subrange(120int + rx.len(), d.len() as int) == tx
            &&& d[2] == length[0]
            &&& d[3] == length[1]
        }),
{
    let p = a + b + rx + tx;
    let d = version + length + time + sequence + id + p;
    lemma_head(version, length, time, sequence, id, p);
    lemma_body(a, b, rx, tx);
    assert(p.subrange(0, 44) == a);
    assert(p.subrange(44, 104) == b);
    assert(p.subrange(104, 104int + rx.len()) == rx);
    assert(p.subrange(104int + rx.len(), p.len() as int) == tx);
    assert(d.subrange(2, 4)[0] == d[2] && d.subrange(2, 4)[1] == d[3]);
}

proof fn lemma_pieces(now_secs: u32, sequence: u32, id: u32, rx: Seq<u8>, tx: Seq<u8>)
    requires
        rx.len() % 4 == 0,
        tx.len() % 4 == 0,
    ensures
        ({
            let p = rx_template() + tx_template() + rx + tx;
            let d = be16(10) + be16(wire_len(p.len() + 16int)) + be32(now_secs) + be32(sequence)
                + be32(id) + p;
            &&& laid_out(
                d,
                be16(wire_len(d.len() as int)),
                be32(now_secs),
                be32(sequence),
                be32(id),
                rx,
                tx,
            )
            &&& d.len() % 4 == 0
            &&& d.len() <= u16::MAX ==> 256 * d[2] + d[3] == d.len()
        }),
{
    let p = rx_template() + tx_template() + rx + tx;
    lemma_template_lengths();
    lemma_length_field(p.len() + 16int);
    lemma_places(
        be16(10),
        be16(wire_len(p.len() + 16int)),
        be32(now_secs),
        be32(sequence),
        be32(id),
        rx_template(),
        tx_template(),
        rx,
        tx,
    );
}

} // verus!
