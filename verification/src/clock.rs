//! Calendar dates, times of day and RFC 3339 timestamps, computed by the
//! `chrono` crate.

use chrono::{Datelike, Timelike};
use vstd::prelude::*;

use crate::number::decimal;

verus! {

/// Whether `year` is a leap year of the proleptic Gregorian calendar.
pub open spec fn is_leap_year(year: int) -> bool {
    year % 4 == 0 && (year % 100 != 0 || year % 400 == 0)
}

/// The number of days of `month` (1 to 12) in `year`.
pub open spec fn days_in_month(year: int, month: int) -> int {
    if month == 2 {
        if is_leap_year(year) {
            29
        } else {
            28
        }
    } else if month == 4 || month == 6 || month == 9 || month == 11 {
        30
    } else {
        31
    }
}

/// Whether `chrono::NaiveDate::from_ymd_opt(year, month, day)` gives a
/// date: the day exists and the year lies within chrono's range
/// (-262143 to 262142).
pub open spec fn valid_date(year: i32, month: u32, day: u32) -> bool {
    &&& -262143 <= year <= 262142
    &&& 1 <= month <= 12
    &&& 1 <= day <= days_in_month(year as int, month as int)
}

/// Whether `chrono::NaiveTime::from_hms_nano_opt(hour, minute, second, nano)`
/// gives a time of day (a nanosecond count of a second or more stands for a
/// leap second and needs second 59).
pub open spec fn valid_time(hour: u32, minute: u32, second: u32, nano: u32) -> bool {
    &&& hour < 24
    &&& minute < 60
    &&& second < 60
    &&& (nano < 1_000_000_000 || (second == 59 && nano < 2_000_000_000))
}

/// The time of day (hour, minute, second, nanosecond) that
/// `chrono::NaiveTime::parse_from_str(text, format)` reads, if it reads one.
pub uninterp spec fn chrono_time(text: Seq<char>, format: Seq<char>) -> Option<
    (u32, u32, u32, u32),
>;

/// The decimal digits of `n`, with zeros in front up to `width` digits.
pub open spec fn padded(n: nat, width: nat) -> Seq<char> {
    let d = decimal(n);
    if d.len() >= width {
        d
    } else {
        Seq::new((width - d.len()) as nat, |i: int| '0') + d
    }
}

/// A year as RFC 3339 text writes it: four digits for years 0 to 9999,
/// else a sign and at least four digits.
pub open spec fn year_text(year: int) -> Seq<char> {
    if 0 <= year <= 9999 {
        padded(year as nat, 4)
    } else if year < 0 {
        seq!['-'] + padded((-year) as nat, 4)
    } else {
        seq!['+'] + padded(year as nat, 4)
    }
}

/// The fraction of a second of less than a second: nothing for none, else a
/// point and 3, 6 or 9 digits, the fewest that show it exactly.
pub open spec fn fraction_text(nano: nat) -> Seq<char> {
    if nano == 0 {
        Seq::empty()
    } else if nano % 1_000_000 == 0 {
        seq!['.'] + padded(nano / 1_000_000, 3)
    } else if nano % 1_000 == 0 {
        seq!['.'] + padded(nano / 1_000, 6)
    } else {
        seq!['.'] + padded(nano, 9)
    }
}

/// The RFC 3339 text of a UTC date and time, as `DateTime::<Utc>::to_rfc3339`
/// writes it (`%Y-%m-%dT%H:%M:%S%.f+00:00`): a leap second (nanoseconds of a
/// second or more) is written as second 60.
pub open spec fn rfc3339_text(
    year: i32,
    month: u32,
    day: u32,
    hour: u32,
    minute: u32,
    second: u32,
    nano: u32,
) -> Seq<char> {
    let (sec, frac) = if nano >= 1_000_000_000 {
        (second + 1, nano - 1_000_000_000)
    } else {
        (second as int, nano as int)
    };
    year_text(year as int) + seq!['-'] + padded(month as nat, 2) + seq!['-'] + padded(day as nat, 2)
        + seq!['T'] + padded(hour as nat, 2) + seq![':'] + padded(minute as nat, 2) + seq![':']
        + padded(sec as nat, 2) + fraction_text(frac as nat) + "+00:00"@
}

/// Whether `text` is the RFC 3339 text of some valid UTC date and time.
pub open spec fn is_utc_stamp(text: Seq<char>) -> bool {
    exists|year: i32, month: u32, day: u32, hour: u32, minute: u32, second: u32, nano: u32|
        valid_date(year, month, day) && valid_time(hour, minute, second, nano) && text
            == #[trigger] rfc3339_text(year, month, day, hour, minute, second, nano)
}

/// `NaiveTime::parse_from_str(text, format)`, as its fields. Trusted: the
/// result is what chrono computes, named `chrono_time`; as chrono documents
/// for every `NaiveTime`, the fields form a valid time of day.
#[verifier::external_body]
pub(crate) fn parse_time(text: &str, format: &str) -> (res: Option<(u32, u32, u32, u32)>)
    ensures
        res == chrono_time(text@, format@),
        res matches Some(t) ==> valid_time(t.0, t.1, t.2, t.3),
{
    match chrono::NaiveTime::parse_from_str(text, format) {
        Ok(t) => Some((t.hour(), t.minute(), t.second(), t.nanosecond())),
        Err(_) => None,
    }
}

/// Whether `NaiveDate::from_ymd_opt(year, month, day)` gives a date.
/// Trusted: chrono documents `None` exactly for a day that does not exist
/// and for a year out of its range, which `valid_date` states.
#[verifier::external_body]
pub(crate) fn date_exists(year: i32, month: u32, day: u32) -> (res: bool)
    ensures
        res == valid_date(year, month, day),
{
    chrono::NaiveDate::from_ymd_opt(year, month, day).is_some()
}

/// The RFC 3339 text of a UTC date and time
/// (`DateTime::<Utc>::from_naive_utc_and_offset(..).to_rfc3339()`).
/// Trusted: chrono writes it as `%Y-%m-%dT%H:%M:%S%.f+00:00`, which
/// `rfc3339_text` states.
#[verifier::external_body]
pub(crate) fn rfc3339_utc(
    year: i32,
    month: u32,
    day: u32,
    hour: u32,
    minute: u32,
    second: u32,
    nano: u32,
) -> (res: String)
    requires
        valid_date(year, month, day),
        valid_time(hour, minute, second, nano),
    ensures
        res@ == rfc3339_text(year, month, day, hour, minute, second, nano),
{
    let date = chrono::NaiveDate::from_ymd_opt(year, month, day).unwrap();
    let time = chrono::NaiveTime::from_hms_nano_opt(hour, minute, second, nano).unwrap();
    let naive = date.and_time(time);
    chrono::DateTime::<chrono::Utc>::from_naive_utc_and_offset(naive, chrono::Utc).to_rfc3339()
}

/// Today's date in UTC (`Utc::now().date_naive()`), as year, month and day.
/// Trusted: it depends on the clock, so only that it is a valid date is
/// claimed.
#[verifier::external_body]
pub(crate) fn today_utc() -> (res: (i32, u32, u32))
    ensures
        valid_date(res.0, res.1, res.2),
{
    let today = chrono::Utc::now().date_naive();
    (today.year(), today.month(), today.day())
}

/// The current time as RFC 3339 text (`Utc::now().to_rfc3339()`). Trusted:
/// it depends on the clock, so only its form is claimed: the RFC 3339 text
/// of some valid UTC date and time.
#[verifier::external_body]
pub(crate) fn now_rfc3339() -> (res: String)
    ensures
        is_utc_stamp(res@),
{
    chrono::Utc::now().to_rfc3339()
}

} // verus!
