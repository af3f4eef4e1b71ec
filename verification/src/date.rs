//! Calendar support.
//!
//! A date is carried through the library as a day number: the count of days
//! since December 31 of the year preceding year 1 of the proleptic Gregorian
//! calendar, so day 1 is January 1 of year 1. Differences of day numbers are
//! elapsed days. What the calendar itself decides (the year a day falls in,
//! the day-of-year, the start of a week) is obtained from the `chrono` crate
//! through trusted wrappers.

use chrono::Datelike;
use vstd::prelude::*;

verus! {

/// Smallest day number the library accepts (January 1 of year 1).
pub const DAY_MIN: i64 = 1;

/// Largest day number the library accepts (December 31 of year 9999).
pub const DAY_MAX: i64 = 3_652_059;

/// A day number the calendar wrappers accept.
pub open spec fn wf_day(d: int) -> bool {
    DAY_MIN <= d <= DAY_MAX
}

/// Whether year `y` is a leap year of the proleptic Gregorian calendar.
pub open spec fn spec_is_leap_year(y: int) -> bool {
    y % 4 == 0 && (y % 100 != 0 || y % 400 == 0)
}

/// Gregorian leap-year rule.
pub fn is_leap_year(y: i32) -> (r: bool)
    ensures
        r == spec_is_leap_year(y as int),
{
    y % 4 == 0 && (y % 100 != 0 || y % 400 == 0)
}

/// Number of days in year `y`.
pub open spec fn spec_days_in_year(y: int) -> int {
    if spec_is_leap_year(y) {
        366
    } else {
        365
    }
}

/// Length of year `y` in days.
pub fn days_in_year(y: i32) -> (r: u32)
    ensures
        r == spec_days_in_year(y as int),
{
    if is_leap_year(y) {
        366
    } else {
        365
    }
}

/// The calendar year that day number `d` falls in.
pub uninterp spec fn year_of(d: int) -> int;

/// The zero-based day of its year that day number `d` is.
pub uninterp spec fn ordinal0_of(d: int) -> int;

/// Relies on chrono's `NaiveDate::from_num_days_from_ce_opt` (day 1 is
/// January 1 of year 1; in range for every day the library accepts) and
/// `Datelike::year`. Day numbers within the accepted range fall in years 1
/// through 9999.
#[verifier::external_body]
pub fn year_of_days(d: i64) -> (r: i32)
    requires
        wf_day(d as int),
    ensures
        r == year_of(d as int),
        1 <= r <= 9999,
{
    chrono::NaiveDate::from_num_days_from_ce_opt(d as i32).unwrap().year()
}

/// Relies on chrono's `NaiveDate::from_num_days_from_ce_opt` and
/// `Datelike::ordinal0`, whose value ranges from 0 to 365.
#[verifier::external_body]
pub fn ordinal0_of_days(d: i64) -> (r: u32)
    requires
        wf_day(d as int),
    ensures
        r == ordinal0_of(d as int),
        r <= 365,
{
    chrono::NaiveDate::from_num_days_from_ce_opt(d as i32).unwrap().ordinal0()
}

/// Relies on chrono's `NaiveDate::week` and `NaiveWeek::first_day`: the first
/// day of the Sunday-started week that `d` belongs to. Day numbers divisible
/// by 7 fall on a Sunday, so that day is `d` less its remainder modulo 7.
#[verifier::external_body]
pub fn week_sunday_start(d: i64) -> (r: i64)
    requires
        wf_day(d as int),
        d >= 7,
    ensures
        r == d - d % 7,
{
    let date = chrono::NaiveDate::from_num_days_from_ce_opt(d as i32).unwrap();
    let first = date.week(chrono::Weekday::Sun).first_day();
    first.num_days_from_ce() as i64
}

} // verus!
