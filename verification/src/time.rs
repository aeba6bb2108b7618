//! UTC instants as whole seconds since the Unix epoch, the offsets of time references,
//! and the chrono calls that parse and print instants.

use vstd::prelude::*;

verus! {

/// The earliest second chrono represents (`-262143-01-01T00:00:00`).
pub open spec fn min_instant() -> int {
    -8334601315200
}

/// The latest second chrono represents (`+262142-12-31T23:59:59`).
pub open spec fn max_instant() -> int {
    8210266876799
}

pub open spec fn instant_in_range(t: int) -> bool {
    min_instant() <= t <= max_instant()
}

/// The most seconds a chrono `TimeDelta` holds (`i64::MAX` milliseconds, truncated).
pub open spec fn max_delta_secs() -> int {
    9223372036854775
}

/// Seconds in `n` units of size `per`, when the product fits in `i64` and in a `TimeDelta`.
pub open spec fn delta_of(n: int, per: int) -> Option<int> {
    let s = n * per;
    if i64::MIN <= s <= i64::MAX && -max_delta_secs() <= s <= max_delta_secs() {
        Some(s)
    } else {
        None
    }
}

/// The offset of `amount` units as seconds: `m` minutes, `h` hours, `d` days, `W` weeks,
/// `M` thirty days, `Y` 365 days, anything else days; `None` where chrono cannot build the
/// duration (or `amount * 30` / `amount * 365` leaves `i64`).
pub open spec fn offset_secs(amount: i64, unit: Seq<char>) -> Option<int> {
    if unit == seq!['m'] {
        delta_of(amount as int, 60)
    } else if unit == seq!['h'] {
        delta_of(amount as int, 3600)
    } else if unit == seq!['d'] {
        delta_of(amount as int, 86400)
    } else if unit == seq!['W'] {
        delta_of(amount as int, 604800)
    } else if unit == seq!['M'] {
        if i64::MIN <= amount * 30 <= i64::MAX {
            delta_of(amount * 30, 86400)
        } else {
            None
        }
    } else if unit == seq!['Y'] {
        if i64::MIN <= amount * 365 <= i64::MAX {
            delta_of(amount * 365, 86400)
        } else {
            None
        }
    } else {
        delta_of(amount as int, 86400)
    }
}

fn checked_delta(n: i64, per: i64) -> (r: Option<i64>)
    requires
        0 < per <= 604800,
    ensures
        match delta_of(n as int, per as int) {
            Some(s) => r == Some(s as i64),
            None => r is None,
        },
{
    let a = n as i128;
    let b = per as i128;
    assert(-604800 * 9223372036854775808 <= a * b <= 604800 * 9223372036854775808)
        by (nonlinear_arith)
        requires
            -9223372036854775808 <= a <= 9223372036854775807,
            0 < b <= 604800,
    ;
    let p = a * b;
    if -9223372036854775 <= p && p <= 9223372036854775 {
        Some(p as i64)
    } else {
        None
    }
}

/// The seconds of a time reference's offset, as chrono's `TimeDelta` constructors give
/// them; `None` where they would fail.
pub fn compute_offset(amount: i64, unit: &str) -> (r: Option<i64>)
    ensures
        match offset_secs(amount, unit@) {
            Some(s) => r == Some(s as i64),
            None => r is None,
        },
{
    let u = crate::text::chars_of(unit);
    if u.len() == 1 && u[0] == 'm' {
        assert(u@ == seq!['m']);
        checked_delta(amount, 60)
    } else if u.len() == 1 && u[0] == 'h' {
        assert(u@ == seq!['h']);
        checked_delta(amount, 3600)
    } else if u.len() == 1 && u[0] == 'd' {
        assert(u@ == seq!['d']);
        checked_delta(amount, 86400)
    } else if u.len() == 1 && u[0] == 'W' {
        assert(u@ == seq!['W']);
        checked_delta(amount, 604800)
    } else if u.len() == 1 && u[0] == 'M' {
        assert(u@ == seq!['M']);
        let m = (amount as i128) * 30;
        if m < i64::MIN as i128 || m > i64::MAX as i128 {
            None
        } else {
            checked_delta(m as i64, 86400)
        }
    } else if u.len() == 1 && u[0] == 'Y' {
        assert(u@ == seq!['Y']);
        let m = (amount as i128) * 365;
        if m < i64::MIN as i128 || m > i64::MAX as i128 {
            None
        } else {
            checked_delta(m as i64, 86400)
        }
    } else {
        assert(u@ != seq!['m'] && u@ != seq!['h'] && u@ != seq!['d'] && u@ != seq!['W']
            && u@ != seq!['M'] && u@ != seq!['Y']) by {
            if u@.len() == 1 {
                assert(u@[0] == u[0]);
            }
        }
        checked_delta(amount, 86400)
    }
}

/// What chrono prints for the instant `secs` with `%Y-%m-%dT%H:%M:%S`.
pub uninterp spec fn iso_seconds_text(secs: int) -> Seq<char>;

/// The seconds of the instant that `DateTime::parse_from_rfc3339` reads from `s`.
pub uninterp spec fn rfc3339_seconds(s: Seq<char>) -> Option<i64>;

/// The seconds of the UTC instant that `NaiveDateTime::parse_from_str` reads from `s` with
/// the format `fmt`.
pub uninterp spec fn naive_seconds(s: Seq<char>, fmt: Seq<char>) -> Option<i64>;

/// The seconds of the calendar date that `NaiveDate::parse_from_str` reads from `s` with
/// the format `fmt`, at midnight UTC.
pub uninterp spec fn naive_date_seconds(s: Seq<char>, fmt: Seq<char>) -> Option<i64>;

/// Calls `chrono::DateTime::from_timestamp(secs, 0)` and `format("%Y-%m-%dT%H:%M:%S")`;
/// the contract claims that the text is a function of `secs` alone (the instant is in
/// chrono's range, so the conversion succeeds).
#[verifier::external_body]
pub(crate) fn format_instant(secs: i64) -> (s: String)
    requires
        instant_in_range(secs as int),
    ensures
        s@ == iso_seconds_text(secs as int),
{
    match chrono::DateTime::from_timestamp(secs, 0) {
        Some(dt) => dt.format("%Y-%m-%dT%H:%M:%S").to_string(),
        None => String::new(),
    }
}

/// Calls `chrono::DateTime::parse_from_rfc3339` and takes the instant's `timestamp()`; the
/// contract claims only that the result is a function of `s`.
#[verifier::external_body]
pub(crate) fn parse_rfc3339(s: &str) -> (r: Option<i64>)
    ensures
        r == rfc3339_seconds(s@),
        r matches Some(t) ==> instant_in_range(t as int),
{
    match chrono::DateTime::parse_from_rfc3339(s) {
        Ok(dt) => Some(dt.timestamp()),
        Err(_) => None,
    }
}

/// Calls `chrono::NaiveDateTime::parse_from_str` and takes the UTC `timestamp()`; the
/// contract claims only that the result is a function of `s` and `fmt`.
#[verifier::external_body]
fn parse_naive(s: &str, fmt: &str) -> (r: Option<i64>)
    ensures
        r == naive_seconds(s@, fmt@),
        r matches Some(t) ==> instant_in_range(t as int),
{
    match chrono::NaiveDateTime::parse_from_str(s, fmt) {
        Ok(ndt) => Some(ndt.and_utc().timestamp()),
        Err(_) => None,
    }
}

/// Calls `chrono::NaiveDate::parse_from_str` and takes the `timestamp()` of its midnight
/// in UTC; the contract claims only that the result is a function of `s` and `fmt`.
#[verifier::external_body]
pub(crate) fn parse_naive_date(s: &str, fmt: &str) -> (r: Option<i64>)
    ensures
        r == naive_date_seconds(s@, fmt@),
        r matches Some(t) ==> instant_in_range(t as int),
{
    match chrono::NaiveDate::parse_from_str(s, fmt) {
        Ok(d) => Some(d.and_time(chrono::NaiveTime::MIN).and_utc().timestamp()),
        Err(_) => None,
    }
}

pub open spec fn fmt_frac() -> Seq<char> {
    seq!['%', 'Y', '-', '%', 'm', '-', '%', 'd', 'T', '%', 'H', ':', '%', 'M', ':', '%', 'S', '%', '.', 'f']
}

pub open spec fn fmt_secs() -> Seq<char> {
    seq!['%', 'Y', '-', '%', 'm', '-', '%', 'd', 'T', '%', 'H', ':', '%', 'M', ':', '%', 'S']
}

pub open spec fn fmt_mins() -> Seq<char> {
    seq!['%', 'Y', '-', '%', 'm', '-', '%', 'd', 'T', '%', 'H', ':', '%', 'M']
}

pub open spec fn fmt_date() -> Seq<char> {
    seq!['%', 'Y', '-', '%', 'm', '-', '%', 'd']
}

/// An ISO-8601 instant: RFC 3339 with an offset first, then without one (taken as UTC)
/// with fractional seconds, with seconds, with minutes, or a bare date (its midnight).
pub open spec fn iso_instant(s: Seq<char>) -> Option<i64> {
    if rfc3339_seconds(s) is Some {
        rfc3339_seconds(s)
    } else if naive_seconds(s, fmt_frac()) is Some {
        naive_seconds(s, fmt_frac())
    } else if naive_seconds(s, fmt_secs()) is Some {
        naive_seconds(s, fmt_secs())
    } else if naive_seconds(s, fmt_mins()) is Some {
        naive_seconds(s, fmt_mins())
    } else {
        naive_date_seconds(s, fmt_date())
    }
}

/// Parses an ISO-8601 string into a UTC instant, in whole seconds since the Unix epoch
/// (the instant's floor: a fraction of a second is dropped, which no deadline, written to
/// the second, can show).
pub fn parse_iso_datetime(s: &str) -> (r: Option<i64>)
    ensures
        r == iso_instant(s@),
{
    if let Some(t) = parse_rfc3339(s) {
        return Some(t);
    }
    let f1 = crate::text::string_of(
        &vec!['%', 'Y', '-', '%', 'm', '-', '%', 'd', 'T', '%', 'H', ':', '%', 'M', ':', '%', 'S', '%', '.', 'f'],
    );
    if let Some(t) = parse_naive(s, f1.as_str()) {
        return Some(t);
    }
    let f2 = crate::text::string_of(
        &vec!['%', 'Y', '-', '%', 'm', '-', '%', 'd', 'T', '%', 'H', ':', '%', 'M', ':', '%', 'S'],
    );
    if let Some(t) = parse_naive(s, f2.as_str()) {
        return Some(t);
    }
    let f3 = crate::text::string_of(
        &vec!['%', 'Y', '-', '%', 'm', '-', '%', 'd', 'T', '%', 'H', ':', '%', 'M'],
    );
    if let Some(t) = parse_naive(s, f3.as_str()) {
        return Some(t);
    }
    let f4 = crate::text::string_of(&vec!['%', 'Y', '-', '%', 'm', '-', '%', 'd']);
    parse_naive_date(s, f4.as_str())
}

} // verus!
