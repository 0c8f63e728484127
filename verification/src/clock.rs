//! Instants and the time between them.
use vstd::prelude::*;

use crate::digest;
use crate::models::Timestamp;
use crate::numbers;
use crate::numbers::push_zero_padded;
use crate::text::append_str;

verus! {

/// The instant that a date and time in the notation of RFC 3339 tells, as
/// `chrono::DateTime::parse_from_rfc3339` reads it: whole seconds since 1970
/// and nanoseconds, which count past a second in a leap second. `None` for
/// text that it refuses.
pub uninterp spec fn rfc3339(s: Seq<char>) -> Option<(i64, u32)>;

/// `chrono::DateTime::parse_from_rfc3339`: the instant that a date and time
/// tells.
#[verifier::external_body]
pub(crate) fn parse_rfc3339(s: &str) -> (r: Option<(i64, u32)>)
    ensures
        r == rfc3339(s@),
{
    chrono::DateTime::parse_from_rfc3339(s).ok().map(|d| (d.timestamp(), d.timestamp_subsec_nanos()))
}

/// Whether an instant lies in the years 0 to 9999 of its local time, which is
/// ahead of universal time by whole minutes and less than a day.
pub open spec fn in_four_digit_years(t: Timestamp) -> bool {
    &&& t.offset as int % 60 == 0
    &&& -86400 < t.offset < 86400
    &&& -62_167_219_200 <= t.secs + t.offset <= 253_402_300_799
}

/// An instant in the notation of RFC 3339, as `chrono::DateTime::to_rfc3339`
/// writes it; `None` for one that `chrono` does not know.
pub uninterp spec fn rfc3339_text(secs: i64, nanos: u32, offset: i32) -> Option<Seq<char>>;

/// `chrono::FixedOffset::east_opt`, `TimeZone::timestamp_opt` and
/// `DateTime::to_rfc3339`: an instant in the notation of RFC 3339, or `None` if
/// the instant or the offset is out of range. The text consists of digits,
/// letters and punctuation. In the years of four digits every instant outside
/// leap seconds has one, and it tells the instant.
#[verifier::external_body]
pub(crate) fn rfc3339_of(t: &Timestamp) -> (r: Option<String>)
    ensures
        r.deep_view() == rfc3339_text(t.secs, t.nanos, t.offset),
        r matches Some(s) ==> digest::verbatim(s@),
        in_four_digit_years(*t) && t.nanos < 1_000_000_000 ==> r is Some,
        in_four_digit_years(*t) ==> (r matches Some(s) ==> rfc3339(s@) == Some((t.secs, t.nanos))),
{
    let offset = chrono::FixedOffset::east_opt(t.offset)?;
    let at = chrono::TimeZone::timestamp_opt(&offset, t.secs, t.nanos).single()?;
    Some(at.to_rfc3339())
}

/// Whether a format of `chrono` has only fields for date and time of day.
pub open spec fn date_time_format(format: Seq<char>) -> bool {
    format == "%Y-%m-%d %H:%M:%S"@
}

/// An instant in a format, as `chrono::DateTime::format` writes it; `None` for
/// one that `chrono` does not know.
pub uninterp spec fn formatted(
    secs: i64,
    nanos: u32,
    offset: i32,
    format: Seq<char>,
) -> Option<Seq<char>>;

/// `chrono::FixedOffset::east_opt`, `TimeZone::timestamp_opt` and
/// `DateTime::format`: an instant in a format, or `None` if the instant or the
/// offset is out of range.
#[verifier::external_body]
pub(crate) fn format_of(t: &Timestamp, format: &str) -> (r: Option<String>)
    requires
        date_time_format(format@),
    ensures
        r.deep_view() == formatted(t.secs, t.nanos, t.offset, format@),
{
    let offset = chrono::FixedOffset::east_opt(t.offset)?;
    let at = chrono::TimeZone::timestamp_opt(&offset, t.secs, t.nanos).single()?;
    Some(at.format(format).to_string())
}

/// The quotient rounded towards zero.
pub open spec fn trunc_div(n: int, d: int) -> int {
    if n >= 0 {
        n / d
    } else {
        -((-n) / d)
    }
}

/// The nanoseconds from one instant to another, both given as whole seconds
/// since 1970 and nanoseconds. A leap second that lies between counts if it
/// falls on an earlier time of day than the other instant.
pub open spec fn nanos_between(from: (int, int), to: (int, int)) -> int {
    let a = from.0 % 86400;
    let b = to.0 % 86400;
    let leap: int = if b > a && from.1 >= 1_000_000_000 {
        1
    } else if b < a && to.1 >= 1_000_000_000 {
        -1
    } else {
        0
    };
    (to.0 - from.0 + leap) * 1_000_000_000 + (to.1 - from.1)
}

fn second_of_day(secs: i64) -> (r: u32)
    ensures
        r == secs as int % 86400,
        r < 86400,
{
    let u: u128 = (secs as i128 + 86400 * 110_000_000_000_000) as u128;
    assert(u as int == secs + 86400 * 110_000_000_000_000);
    assert(u as int % 86400 == secs as int % 86400);
    (u % 86400) as u32
}

/// The nanoseconds from one instant to another.
pub fn nanos_between_of(from_secs: i64, from_nanos: u32, to_secs: i64, to_nanos: u32) -> (r: i128)
    ensures
        r == nanos_between(
            (from_secs as int, from_nanos as int),
            (to_secs as int, to_nanos as int),
        ),
        -0x8000_0000_0000_0000_0000_0000 <= r <= 0x8000_0000_0000_0000_0000_0000,
{
    let a: u32 = second_of_day(from_secs);
    let b: u32 = second_of_day(to_secs);
    let leap: i128 = if b > a && from_nanos >= 1_000_000_000 {
        1
    } else if b < a && to_nanos >= 1_000_000_000 {
        -1
    } else {
        0
    };
    (to_secs as i128 - from_secs as i128 + leap) * 1_000_000_000 + (to_nanos as i128
        - from_nanos as i128)
}

/// The quotient rounded towards zero.
pub fn trunc_div_of(n: i128, d: u128) -> (r: i128)
    requires
        d > 0,
        -0x8000_0000_0000_0000_0000_0000 <= n <= 0x8000_0000_0000_0000_0000_0000,
    ensures
        r == trunc_div(n as int, d as int),
        n >= 0 ==> 0 <= r <= n,
        n <= 0 ==> n <= r <= 0,
{
    if n >= 0 {
        let u: u128 = n as u128;
        let q: u128 = u / d;
        assert(q <= u) by (nonlinear_arith)
            requires
                q == u / d,
                d > 0,
        ;
        q as i128
    } else {
        let u: u128 = (0 - n) as u128;
        let q: u128 = u / d;
        assert(q <= u) by (nonlinear_arith)
            requires
                q == u / d,
                d > 0,
        ;
        0 - (q as i128)
    }
}

impl Timestamp {
    /// The instant without its offset.
    pub open spec fn instant(self) -> (int, int) {
        (self.secs as int, self.nanos as int)
    }

    /// Whether the instant lies within `2^43` seconds of 1970.
    pub open spec fn in_range(self) -> bool {
        -0x800_0000_0000 <= self.secs <= 0x800_0000_0000
    }

    /// The instant in the notation of RFC 3339; `None` if it is out of range.
    pub fn to_rfc3339(&self) -> (r: Option<String>)
        ensures
            r.deep_view() == rfc3339_text(self.secs, self.nanos, self.offset),
            r matches Some(s) ==> digest::verbatim(s@),
            in_four_digit_years(*self) && self.nanos < 1_000_000_000 ==> r is Some,
            in_four_digit_years(*self) ==> (r matches Some(s) ==> rfc3339(s@) == Some(
                (self.secs, self.nanos),
            )),
    {
        rfc3339_of(self)
    }

    /// The local date and time of day; `None` if the instant is out of range.
    pub fn date_and_time(&self) -> (r: Option<String>)
        ensures
            r.deep_view() == formatted(
                self.secs,
                self.nanos,
                self.offset,
                "%Y-%m-%d %H:%M:%S"@,
            ),
    {
        format_of(self, "%Y-%m-%d %H:%M:%S")
    }
}

/// Whole milliseconds from one instant to another. A negative number comes
/// out as its complement to `2^64`.
pub open spec fn elapsed_ms(from: Timestamp, to: Timestamp) -> int {
    let ms = trunc_div(nanos_between(from.instant(), to.instant()), 1_000_000);
    if ms >= 0 {
        ms
    } else {
        ms + 0x1_0000_0000_0000_0000
    }
}

/// Whole milliseconds from one instant to another.
pub fn elapsed_ms_of(from: Timestamp, to: Timestamp) -> (r: u64)
    requires
        from.in_range(),
        to.in_range(),
    ensures
        r == elapsed_ms(from, to),
{
    let n: i128 = nanos_between_of(from.secs, from.nanos, to.secs, to.nanos);
    assert(-0x1000_0000_0000 * 1_000_000_000 - 6_000_000_000 <= n <= 0x1000_0000_0000 * 1_000_000_000
        + 6_000_000_000);
    let ms: i128 = trunc_div_of(n, 1_000_000);
    if ms >= 0 {
        ms as u64
    } else {
        (ms + 0x1_0000_0000_0000_0000) as u64
    }
}

/// Whole seconds from one instant to another.
pub open spec fn elapsed_secs(from: Timestamp, to: Timestamp) -> int {
    trunc_div(nanos_between(from.instant(), to.instant()), 1_000_000_000)
}

/// Whole seconds from one instant to another.
pub fn elapsed_secs_of(from: Timestamp, to: Timestamp) -> (r: i64)
    requires
        from.in_range(),
        to.in_range(),
    ensures
        r == elapsed_secs(from, to),
{
    let n: i128 = nanos_between_of(from.secs, from.nanos, to.secs, to.nanos);
    trunc_div_of(n, 1_000_000_000) as i64
}

/// Whole days from one instant to another.
pub open spec fn days_between(from: (int, int), to: (int, int)) -> int {
    trunc_div(trunc_div(nanos_between(from, to), 1_000_000_000), 86400)
}

/// Whole days from one instant to another.
pub fn days_between_of(from_secs: i64, from_nanos: u32, to_secs: i64, to_nanos: u32) -> (r: i128)
    ensures
        r == days_between((from_secs as int, from_nanos as int), (to_secs as int, to_nanos as int)),
{
    let n: i128 = nanos_between_of(from_secs, from_nanos, to_secs, to_nanos);
    trunc_div_of(trunc_div_of(n, 1_000_000_000), 86400)
}

/// The local time of day as hours, minutes and seconds. A leap second is
/// second 60.
pub open spec fn time_of_day(t: Timestamp) -> Seq<char> {
    let s = (t.secs + t.offset) % 86400;
    numbers::zero_padded((s / 3600) as nat, 2) + ":"@ + numbers::zero_padded(
        ((s / 60) % 60) as nat,
        2,
    ) + ":"@ + numbers::zero_padded((s % 60 + (t.nanos / 1_000_000_000)) as nat, 2)
}

/// The local time of day as hours, minutes and seconds.
pub fn time_of_day_str(t: Timestamp) -> (r: String)
    requires
        t.in_range(),
    ensures
        r@ == time_of_day(t),
{
    let local: i64 = t.secs + t.offset as i64;
    let s: u32 = second_of_day(local);
    let mut out = String::new();
    push_zero_padded(&mut out, (s / 3600) as u128, 2);
    append_str(&mut out, ":");
    push_zero_padded(&mut out, ((s / 60) % 60) as u128, 2);
    append_str(&mut out, ":");
    push_zero_padded(&mut out, (s % 60 + t.nanos / 1_000_000_000) as u128, 2);
    assert(out@ =~= time_of_day(t));
    out
}

/// An instant does not move while nothing happens.
pub proof fn lemma_no_time_passes(t: Timestamp)
    ensures
        elapsed_ms(t, t) == 0,
        elapsed_secs(t, t) == 0,
        days_between(t.instant(), t.instant()) == 0,
{
}

/// Between two moments without a leap second, the whole milliseconds, seconds
/// and days that have passed are those by which the second is later.
pub proof fn lemma_time_that_passes(t: Timestamp, u: Timestamp, nanos: nat)
    requires
        t.nanos < 1_000_000_000,
        u.nanos < 1_000_000_000,
        u.secs * 1_000_000_000 + u.nanos == t.secs * 1_000_000_000 + t.nanos + nanos,
    ensures
        elapsed_ms(t, u) == nanos / 1_000_000,
        elapsed_secs(t, u) == nanos / 1_000_000_000,
        days_between(t.instant(), u.instant()) == nanos / 86_400_000_000_000,
{
    assert(nanos_between(t.instant(), u.instant()) == nanos);
    assert((nanos / 1_000_000_000) / 86400 == nanos / 86_400_000_000_000);
}

/// Where no leap second is about, going back takes as long as going forth.
pub proof fn lemma_time_goes_back(a: (int, int), b: (int, int), c: (int, int))
    requires
        a.1 < 1_000_000_000,
        b.1 < 1_000_000_000,
        c.1 < 1_000_000_000,
    ensures
        nanos_between(a, b) == -nanos_between(b, a),
        nanos_between(a, c) == nanos_between(a, b) + nanos_between(b, c),
{
}

/// The time of day shows hours, minutes and seconds of local time, each with
/// two digits.
pub proof fn lemma_time_of_day(t: Timestamp, day: int, h: nat, m: nat, s: nat)
    requires
        t.nanos < 1_000_000_000,
        h < 24,
        m < 60,
        s < 60,
        t.secs + t.offset == day * 86400 + h * 3600 + m * 60 + s,
    ensures
        time_of_day(t) == numbers::zero_padded(h, 2) + ":"@ + numbers::zero_padded(m, 2) + ":"@
            + numbers::zero_padded(s, 2),
{
    let r = (t.secs + t.offset) % 86400;
    assert(r == h * 3600 + m * 60 + s);
    assert(r / 3600 == h);
    assert((r / 60) % 60 == m);
    assert(r % 60 == s);
}

/// Where the second moment is earlier, the seconds and days are those by which
/// it is, with a minus sign, and the milliseconds wrap around.
pub proof fn lemma_time_before(t: Timestamp, u: Timestamp, nanos: nat)
    requires
        t.nanos < 1_000_000_000,
        u.nanos < 1_000_000_000,
        t.secs * 1_000_000_000 + t.nanos == u.secs * 1_000_000_000 + u.nanos + nanos,
        nanos >= 1_000_000,
    ensures
        elapsed_secs(t, u) == -(nanos / 1_000_000_000),
        days_between(t.instant(), u.instant()) == -(nanos / 86_400_000_000_000),
        elapsed_ms(t, u) == 0x1_0000_0000_0000_0000 - nanos / 1_000_000,
{
    assert(nanos_between(t.instant(), u.instant()) == -(nanos as int));
    assert((nanos / 1_000_000_000) / 86400 == nanos / 86_400_000_000_000);
}

} // verus!
