//! UTC instants and the 15 s period grid.
//!
//! An instant is held by its parts: whole seconds since the Unix epoch and
//! nanoseconds into that second, as `chrono` gives them. Everything that needs
//! the calendar, or chrono's treatment of leap seconds, is left to `chrono`.

use vstd::prelude::*;

verus! {

/// Length of one FT8 T/R period, seconds.
pub const SLOT_SECS: i64 = 15;

/// First second that a `chrono` date can name.
pub const MIN_SECS: i64 = -8_334_601_228_800;

/// Last second that a `chrono` date can name.
pub const MAX_SECS: i64 = 8_210_266_876_799;

/// An instant in UTC.
///
/// A leap second is written as the second before it with `nanos` of one
/// thousand million or more.
#[derive(Clone, Copy, Debug, PartialEq, Eq, Structural)]
pub struct UtcTime {
    /// Whole seconds since the Unix epoch.
    pub secs: i64,
    /// Nanoseconds into the second.
    pub nanos: u32,
}

/// The seconds and nanoseconds that name an instant.
pub open spec fn representable(secs: int, nanos: int) -> bool {
    &&& MIN_SECS <= secs <= MAX_SECS
    &&& 0 <= nanos < 2_000_000_000
    &&& nanos >= 1_000_000_000 ==> secs % 60 == 59
}

/// Index of the 15 s period that holds second `secs`.
pub open spec fn slot_index(secs: int) -> int {
    secs / (SLOT_SECS as int)
}

/// Nanoseconds from `b` to `a`.
///
/// A leap second that lies between the two counts as a second of its own
/// when both times of day are compared within one day.
pub open spec fn nanos_between(a: UtcTime, b: UtcTime) -> int {
    let leap: int = if a.secs % 86_400 > b.secs % 86_400 && b.nanos >= 1_000_000_000 {
        1
    } else if a.secs % 86_400 < b.secs % 86_400 && a.nanos >= 1_000_000_000 {
        -1
    } else {
        0
    };
    (a.secs - b.secs + leap) * 1_000_000_000 + a.nanos - b.nanos
}

/// Division that drops the fraction, whatever the sign.
pub open spec fn trunc_div(a: int, b: int) -> int
    recommends
        b > 0,
{
    if a >= 0 {
        a / b
    } else {
        -((-a) / b)
    }
}

/// Whole milliseconds from `b` to `a`.
pub open spec fn millis_between(a: UtcTime, b: UtcTime) -> int {
    trunc_div(nanos_between(a, b), 1_000_000)
}

/// Seconds and nanoseconds of the instant `ms` milliseconds after `t`.
///
/// An instant within a leap second stays in it as long as the sum does.
pub open spec fn millis_after(t: UtcTime, ms: int) -> (int, int) {
    let add_secs = ms / 1000;
    let add_nanos = (ms % 1000) * 1_000_000;
    if t.nanos >= 1_000_000_000 && add_secs == 0 && t.nanos + add_nanos < 2_000_000_000 {
        (t.secs as int, t.nanos + add_nanos)
    } else {
        let sum = (t.nanos as int) % 1_000_000_000 + add_nanos;
        (t.secs + add_secs + sum / 1_000_000_000, sum % 1_000_000_000)
    }
}

/// Two decimal digits.
pub open spec fn two_digits(n: int) -> Seq<char> {
    seq![(48 + n / 10 % 10) as char, (48 + n % 10) as char]
}

/// Hour, minute and second of the day; the second is 60 in a leap second.
pub open spec fn time_of_day(t: UtcTime) -> (int, int, int) {
    let s = (t.secs as int) % 86_400;
    (s / 3600, s / 60 % 60, s % 60 + t.nanos / 1_000_000_000)
}

/// The time of day with `sep` between its three parts.
pub open spec fn clock_text(t: UtcTime, sep: Seq<char>) -> Seq<char> {
    let (h, m, s) = time_of_day(t);
    two_digits(h) + sep + two_digits(m) + sep + two_digits(s)
}

/// What `chrono` writes for the instant in RFC 3339 form.
pub uninterp spec fn rfc3339_text(secs: i64, nanos: u32) -> Seq<char>;

/// `chrono::Utc.timestamp_opt`: an instant exists exactly for the parts that
/// are representable, and its own parts are those it was made from.
#[verifier::external_body]
fn chrono_timestamp_opt(secs: i64, nanos: u32) -> (res: Option<(i64, u32)>)
    ensures
        res == (if representable(secs as int, nanos as int) {
            Some((secs, nanos))
        } else {
            None
        }),
{
    match chrono::TimeZone::timestamp_opt(&chrono::Utc, secs, nanos).single() {
        Some(t) => Some((t.timestamp(), t.timestamp_subsec_nanos())),
        None => None,
    }
}

/// `DateTime - DateTime` and `TimeDelta::num_milliseconds`: the whole
/// milliseconds from the second instant to the first, fraction dropped.
#[verifier::external_body]
fn chrono_num_milliseconds(a: UtcTime, b: UtcTime) -> (ms: i64)
    requires
        a.wf(),
        b.wf(),
    ensures
        ms == millis_between(a, b),
{
    let a = chrono::TimeZone::timestamp_opt(&chrono::Utc, a.secs, a.nanos).unwrap();
    let b = chrono::TimeZone::timestamp_opt(&chrono::Utc, b.secs, b.nanos).unwrap();
    (a - b).num_milliseconds()
}

/// `DateTime + TimeDelta::milliseconds`: the instant that many milliseconds
/// later. Sums past the last representable day are left out, as they panic.
#[verifier::external_body]
fn chrono_add_milliseconds(t: UtcTime, ms: i64) -> (res: UtcTime)
    requires
        t.wf(),
        0 <= ms,
        millis_after(t, ms as int).0 <= MAX_SECS,
    ensures
        (res.secs as int, res.nanos as int) == millis_after(t, ms as int),
{
    let t = chrono::TimeZone::timestamp_opt(&chrono::Utc, t.secs, t.nanos).unwrap();
    let sum = t + chrono::Duration::milliseconds(ms);
    UtcTime { secs: sum.timestamp(), nanos: sum.timestamp_subsec_nanos() }
}

/// `DateTime::to_rfc3339`, named by [`rfc3339_text`].
#[verifier::external_body]
fn chrono_to_rfc3339(t: UtcTime) -> (res: String)
    requires
        t.wf(),
    ensures
        res@ == rfc3339_text(t.secs, t.nanos),
{
    let t = chrono::TimeZone::timestamp_opt(&chrono::Utc, t.secs, t.nanos).unwrap();
    t.to_rfc3339()
}

/// `DateTime::format` with hour, minute and second as two digits each, bare
/// or with colons between them.
#[verifier::external_body]
fn chrono_format(t: UtcTime, pattern: &str) -> (res: String)
    requires
        t.wf(),
        pattern@ == "%H%M%S"@ || pattern@ == "%H:%M:%S"@,
    ensures
        pattern@ == "%H%M%S"@ ==> res@ == clock_text(t, seq![]),
        pattern@ == "%H:%M:%S"@ ==> res@ == clock_text(t, seq![':']),
{
    let t = chrono::TimeZone::timestamp_opt(&chrono::Utc, t.secs, t.nanos).unwrap();
    t.format(pattern).to_string()
}

/// Quotient and remainder of a division that rounds down; the remainder is
/// never negative.
pub fn floor_div_mod(a: i64, b: i64) -> (res: (i64, i64))
    requires
        0 < b,
    ensures
        res.0 == a as int / b as int,
        res.1 == a as int % b as int,
{
    if a >= 0 {
        (a / b, a % b)
    } else {
        let m: i64 = -(a + 1);
        let q: i64 = m / b;
        let r: i64 = m % b;
        proof {
            vstd::arithmetic::div_mod::lemma_fundamental_div_mod(m as int, b as int);
            vstd::arithmetic::div_mod::lemma_mod_bound(m as int, b as int);
            assert(a == (-q - 1) * b + (b - 1 - r)) by (nonlinear_arith)
                requires
                    a == -m - 1,
                    m == b * q + r,
            ;
            vstd::arithmetic::div_mod::lemma_fundamental_div_mod_converse(
                a as int,
                b as int,
                -q - 1,
                b - 1 - r,
            );
            vstd::arithmetic::div_mod::lemma_div_basics(m as int);
            assert(0 <= q <= m) by {
                vstd::arithmetic::div_mod::lemma_div_pos_is_pos(m as int, b as int);
                vstd::arithmetic::div_mod::lemma_div_is_ordered_by_denominator(m as int, 1, b as int);
            }
        }
        (-q - 1, b - 1 - r)
    }
}

impl UtcTime {
    /// The instant is one that `chrono` can hold.
    pub open spec fn wf(self) -> bool {
        representable(self.secs as int, self.nanos as int)
    }

    /// The instant `nanos` nanoseconds into second `secs`, if there is one.
    pub fn from_timestamp(secs: i64, nanos: u32) -> (res: Option<UtcTime>)
        ensures
            res is Some <==> representable(secs as int, nanos as int),
            res matches Some(t) ==> t.wf() && t.secs == secs && t.nanos == nanos,
    {
        match chrono_timestamp_opt(secs, nanos) {
            Some(parts) => Some(UtcTime { secs: parts.0, nanos: parts.1 }),
            None => None,
        }
    }

    /// Whole milliseconds from `earlier` to this instant.
    pub fn millis_since(self, earlier: UtcTime) -> (ms: i64)
        requires
            self.wf(),
            earlier.wf(),
        ensures
            ms == millis_between(self, earlier),
    {
        chrono_num_milliseconds(self, earlier)
    }

    /// The instant `ms` milliseconds later.
    pub fn plus_millis(self, ms: i64) -> (res: UtcTime)
        requires
            self.wf(),
            0 <= ms,
            millis_after(self, ms as int).0 <= MAX_SECS,
        ensures
            res.wf(),
            (res.secs as int, res.nanos as int) == millis_after(self, ms as int),
    {
        chrono_add_milliseconds(self, ms)
    }

    /// Whole milliseconds into the second.
    pub fn subsec_millis(self) -> (ms: u32)
        ensures
            ms == self.nanos / 1_000_000,
    {
        self.nanos / 1_000_000
    }

    /// Index of the 15 s period that holds this instant.
    pub fn slot(self) -> (index: i64)
        ensures
            index == slot_index(self.secs as int),
    {
        floor_div_mod(self.secs, SLOT_SECS).0
    }

    /// The instant in RFC 3339 form.
    pub fn to_rfc3339(self) -> (res: String)
        requires
            self.wf(),
        ensures
            res@ == rfc3339_text(self.secs, self.nanos),
    {
        chrono_to_rfc3339(self)
    }

    /// The time of day as `HHMMSS`.
    pub fn hhmmss(self) -> (res: String)
        requires
            self.wf(),
        ensures
            res@ == clock_text(self, seq![]),
    {
        chrono_format(self, "%H%M%S")
    }

    /// The time of day as `HH:MM:SS`.
    pub fn clock(self) -> (res: String)
        requires
            self.wf(),
        ensures
            res@ == clock_text(self, seq![':']),
    {
        chrono_format(self, "%H:%M:%S")
    }
}

} // verus!
