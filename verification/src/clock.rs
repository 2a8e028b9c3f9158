//! Calendar dates and the machine's local time zone, through `chrono`.
use vstd::prelude::*;
use chrono::{Datelike, Days, Local, NaiveDate, TimeZone, Timelike};
use crate::policy::time_ok;

verus! {

/// The (year, month, day) that `chrono::NaiveDate::parse_from_str(s, "%Y-%m-%d")` reads
/// from `s`, or `None` where it fails.
pub uninterp spec fn parsed_ymd(s: Seq<char>) -> Option<(i32, u32, u32)>;

/// The date after (year, month, day) by `chrono::NaiveDate::succ_opt`, or `None` where the
/// triple is no date or the last one chrono can represent.
pub uninterp spec fn day_after(y: i32, m: u32, d: u32) -> Option<(i32, u32, u32)>;

/// Milliseconds in a day.
pub const DAY_MS: i64 = 86_400_000;

/// The number of days from 1970-01-01 to the date (y, m, d) of the proleptic Gregorian calendar.
pub open spec fn civil_day(y: int, m: int, d: int) -> int {
    let y2 = if m <= 2 { y - 1 } else { y };
    let era = y2 / 400;
    let yoe = y2 - era * 400;
    let mp = if m > 2 { m - 3 } else { m + 9 };
    let doy = (153 * mp + 2) / 5 + d - 1;
    let doe = yoe * 365 + yoe / 4 - yoe / 100 + doy;
    era * 146097 + doe - 719468
}

/// The Unix time in milliseconds at which the date (y, m, d) begins in UTC.
pub open spec fn utc_midnight(y: i32, m: u32, d: u32) -> int {
    civil_day(y as int, m as int, d as int) * DAY_MS
}

/// The decimal digit for `n % 10`.
pub open spec fn digit(n: int) -> char {
    ((n % 10) + 48) as char
}

/// `YYYY-MM-DD` with zero padding, as chrono writes a date of the years 0 to 9999.
pub open spec fn iso_date(y: int, m: int, d: int) -> Seq<char> {
    seq![digit(y / 1000), digit(y / 100), digit(y / 10), digit(y), '-', digit(m / 10), digit(m), '-',
        digit(d / 10), digit(d)]
}

/// `b` can be the local bounds of the day `d` in some time zone: its start lies within a day
/// of `d`'s UTC midnight, its end within a day of the next one.
pub open spec fn near_day(d: (i32, u32, u32), b: (i64, i64)) -> bool {
    let m = utc_midnight(d.0, d.1, d.2);
    &&& m - DAY_MS < b.0 < m + DAY_MS
    &&& m < b.1 < m + 2 * DAY_MS
}

/// Calls `chrono::NaiveDate::parse_from_str` with the pattern `%Y-%m-%d`; the contract says
/// that the result is the named one, and a date (so `ymd_text` writes it).
#[verifier::external_body]
pub(crate) fn parse_ymd(s: &str) -> (r: Option<(i32, u32, u32)>)
    ensures
        r == parsed_ymd(s@),
        r matches Some(x) ==> ymd_text(x.0, x.1, x.2) is Some,
{
    match NaiveDate::parse_from_str(s, "%Y-%m-%d") {
        Ok(d) => Some((d.year(), d.month(), d.day())),
        Err(_) => None,
    }
}

/// Calls `chrono::NaiveDate::succ_opt` on the date (year, month, day); the contract says
/// that the result is the named one and, as chrono documents, the next calendar date (a
/// date, so `ymd_text` writes it).
#[verifier::external_body]
pub(crate) fn next_day(y: i32, m: u32, d: u32) -> (r: Option<(i32, u32, u32)>)
    ensures
        r == day_after(y, m, d),
        r matches Some(x) ==> ymd_text(x.0, x.1, x.2) is Some,
        r matches Some(n) ==> civil_day(n.0 as int, n.1 as int, n.2 as int) == civil_day(y as int, m as int, d as int) + 1,
{
    match NaiveDate::from_ymd_opt(y, m, d) {
        Some(date) => match date.succ_opt() {
            Some(n) => Some((n.year(), n.month(), n.day())),
            None => None,
        },
        None => None,
    }
}

/// The Unix time in milliseconds of local midnight at the start of (year, month, day): calls
/// `chrono::Local.from_local_datetime(..).earliest()` on that date at 00:00:00. The result
/// depends on the machine's time zone, so the contract does not say which instant it is;
/// it says that the instant lies in the range of dates that chrono represents (years within
/// ±262 143, far inside `time_ok`), and within a day of the date's UTC midnight: chrono takes
/// the offset of the local time away from it, and a `FixedOffset` is less than a day.
#[verifier::external_body]
pub(crate) fn local_midnight(y: i32, m: u32, d: u32) -> (r: Option<i64>)
    ensures
        r matches Some(t) ==> time_ok(t),
        r matches Some(t) ==> utc_midnight(y, m, d) - DAY_MS < t < utc_midnight(y, m, d) + DAY_MS,
{
    let date = NaiveDate::from_ymd_opt(y, m, d)?;
    let start = date.and_hms_opt(0, 0, 0)?;
    match Local.from_local_datetime(&start).earliest() {
        Some(t) => Some(t.timestamp_millis()),
        None => None,
    }
}

/// Instants within this many milliseconds of 1970 (about 31 000 years) lie well inside the
/// dates that chrono represents.
pub const CLOCK_RANGE: i64 = 1_000_000_000_000_000;

/// The local clock can read the instant `t`.
pub open spec fn clock_readable(t: int) -> bool {
    -CLOCK_RANGE <= t <= CLOCK_RANGE
}

/// The local wall clock at Unix time `t` milliseconds, as (hour, minute, second, millisecond):
/// calls `chrono::Local.timestamp_millis_opt(t).single()`. The result depends on the machine's
/// time zone; the contract states the ranges that chrono's `Timelike` accessors document
/// (the millisecond exceeds 999 only within a leap second), and that an instant within
/// `CLOCK_RANGE` is read: chrono documents that `timestamp_millis_opt` gives `Single` for
/// every number of milliseconds in its range.
#[verifier::external_body]
pub(crate) fn local_clock(t: i64) -> (r: Option<(u32, u32, u32, u32)>)
    ensures
        r matches Some(c) ==> c.0 < 24 && c.1 < 60 && c.2 < 60 && c.3 < 2000,
        clock_readable(t as int) ==> r is Some,
{
    match Local.timestamp_millis_opt(t).single() {
        Some(dt) => Some((dt.hour(), dt.minute(), dt.second(), dt.timestamp_subsec_millis())),
        None => None,
    }
}

/// The date `n` days before (year, month, day) by `chrono::NaiveDate::checked_sub_days`, or
/// `None` where the triple is no date or the result is out of chrono's range.
pub uninterp spec fn shifted_back(y: i32, m: u32, d: u32, n: u64) -> Option<(i32, u32, u32)>;

/// The date `n` days after (year, month, day) by `chrono::NaiveDate::checked_add_days`, or
/// `None` where the triple is no date or the result is out of chrono's range.
pub uninterp spec fn shifted_forward(y: i32, m: u32, d: u32, n: u64) -> Option<(i32, u32, u32)>;

/// What `chrono::NaiveDate`'s `Display` writes for (year, month, day) (`YYYY-MM-DD` for the
/// years 0 to 9999), or `None` where the triple is no date.
pub uninterp spec fn ymd_text(y: i32, m: u32, d: u32) -> Option<Seq<char>>;

/// Calls `chrono::NaiveDate::checked_sub_days` with `Days::new(n)`; the contract says that
/// the result is the named one and, as chrono documents, the date `n` days earlier (a date,
/// so `ymd_text` writes it).
#[verifier::external_body]
pub(crate) fn days_before(y: i32, m: u32, d: u32, n: u64) -> (r: Option<(i32, u32, u32)>)
    ensures
        r == shifted_back(y, m, d, n),
        r matches Some(x) ==> ymd_text(x.0, x.1, x.2) is Some,
        r matches Some(x) ==> civil_day(x.0 as int, x.1 as int, x.2 as int) == civil_day(y as int, m as int, d as int) - n,
{
    match NaiveDate::from_ymd_opt(y, m, d) {
        Some(date) => match date.checked_sub_days(Days::new(n)) {
            Some(x) => Some((x.year(), x.month(), x.day())),
            None => None,
        },
        None => None,
    }
}

/// Calls `chrono::NaiveDate::checked_add_days` with `Days::new(n)`; the contract says that
/// the result is the named one and, as chrono documents, the date `n` days later (a date,
/// so `ymd_text` writes it).
#[verifier::external_body]
pub(crate) fn days_after(y: i32, m: u32, d: u32, n: u64) -> (r: Option<(i32, u32, u32)>)
    ensures
        r == shifted_forward(y, m, d, n),
        r matches Some(x) ==> ymd_text(x.0, x.1, x.2) is Some,
        r matches Some(x) ==> civil_day(x.0 as int, x.1 as int, x.2 as int) == civil_day(y as int, m as int, d as int) + n,
{
    match NaiveDate::from_ymd_opt(y, m, d) {
        Some(date) => match date.checked_add_days(Days::new(n)) {
            Some(x) => Some((x.year(), x.month(), x.day())),
            None => None,
        },
        None => None,
    }
}

/// Writes the date with `chrono::NaiveDate`'s `Display`; the contract says that the text is
/// the named one and, for the years 0 to 9999, the zero-padded `YYYY-MM-DD` that chrono
/// documents.
#[verifier::external_body]
pub(crate) fn date_text(y: i32, m: u32, d: u32) -> (r: Option<String>)
    ensures
        match r {
            Some(t) => ymd_text(y, m, d) == Some(t@),
            None => ymd_text(y, m, d) is None,
        },
        0 <= y <= 9999 ==> (r matches Some(t) ==> t@ == iso_date(y as int, m as int, d as int)),
{
    match NaiveDate::from_ymd_opt(y, m, d) {
        Some(date) => Some(date.to_string()),
        None => None,
    }
}

} // verus!
