//! Calendar arithmetic on plain day numbers.
//!
//! A `Date` is a count of days relative to an epoch (day 0 = 1970-01-01, a
//! Thursday); a time instant is a count of seconds relative to the same
//! epoch's midnight, in the local clock the caller works with.  Weekdays are
//! indexed 0 (Sunday) through 6 (Saturday).

use vstd::prelude::*;

verus! {

/// Seconds in one calendar day.
pub const SECS_PER_DAY: i64 = 86400;

/// Largest supported period length, in days.
pub const MAX_PERIOD_DAYS: i64 = 100_000;

/// Largest supported magnitude of a day number.
pub const DAY_LIMIT: i64 = 50_000_000;

/// Largest supported magnitude of a time instant, in seconds.
pub const TIME_LIMIT: i64 = 4_000_000_000_000;

/// A calendar date, as a day number relative to the epoch.
#[derive(Clone, Copy, Debug, PartialEq, Eq, Structural)]
pub struct Date {
    pub day: i64,
}

/// A day of the week.
#[derive(Clone, Copy, Debug, PartialEq, Eq, Structural)]
pub enum Weekday {
    Sun,
    Mon,
    Tue,
    Wed,
    Thu,
    Fri,
    Sat,
}

impl Date {
    /// The date lies within the supported day-number range.
    pub open spec fn wf(self) -> bool {
        -DAY_LIMIT <= self.day <= DAY_LIMIT
    }
}

impl Weekday {
    /// Days from Sunday: Sunday is 0, Saturday is 6.
    pub open spec fn spec_index_from_sunday(self) -> int {
        match self {
            Weekday::Sun => 0,
            Weekday::Mon => 1,
            Weekday::Tue => 2,
            Weekday::Wed => 3,
            Weekday::Thu => 4,
            Weekday::Fri => 5,
            Weekday::Sat => 6,
        }
    }

    /// Days from Sunday: Sunday is 0, Saturday is 6.
    pub fn index_from_sunday(self) -> (r: u8)
        ensures
            r == self.spec_index_from_sunday(),
    {
        match self {
            Weekday::Sun => 0,
            Weekday::Mon => 1,
            Weekday::Tue => 2,
            Weekday::Wed => 3,
            Weekday::Thu => 4,
            Weekday::Fri => 5,
            Weekday::Sat => 6,
        }
    }

    /// The next day of the week, cyclically.
    pub fn succ(self) -> (r: Weekday)
        ensures
            r.spec_index_from_sunday() == (self.spec_index_from_sunday() + 1) % 7,
    {
        match self {
            Weekday::Sun => Weekday::Mon,
            Weekday::Mon => Weekday::Tue,
            Weekday::Tue => Weekday::Wed,
            Weekday::Wed => Weekday::Thu,
            Weekday::Thu => Weekday::Fri,
            Weekday::Fri => Weekday::Sat,
            Weekday::Sat => Weekday::Sun,
        }
    }
}

/// Weekday index (0 = Sunday) of a day number; day 0 is a Thursday.
pub open spec fn weekday_index_of_day(day: int) -> int {
    (day + 4) % 7
}

impl Date {
    /// Weekday index (0 = Sunday) of this date.
    pub fn weekday_index(self) -> (r: u8)
        requires
            self.wf(),
        ensures
            r == weekday_index_of_day(self.day as int),
            0 <= r < 7,
    {
        let r = match (self.day + 4).checked_rem_euclid(7) {
            Some(v) => v,
            None => 0,
        };
        r as u8
    }
}

/// The day number holding a time instant: instants `[day * SECS_PER_DAY,
/// (day + 1) * SECS_PER_DAY)` belong to day `day`.
pub open spec fn spec_day_of_instant(secs: int) -> int {
    secs / (SECS_PER_DAY as int)
}

/// The day number holding a time instant.
pub fn day_of_instant(secs: i64) -> (r: i64)
    ensures
        r == spec_day_of_instant(secs as int),
{
    match secs.checked_div_euclid(SECS_PER_DAY) {
        Some(v) => v,
        None => 0,
    }
}

/// Midnight starting the given day number, as a time instant.
pub open spec fn spec_day_start(day: int) -> int {
    day * (SECS_PER_DAY as int)
}

/// Midnight starting the given day number, as a time instant.
pub fn day_start(day: i64) -> (r: i64)
    requires
        -DAY_LIMIT - 1 <= day <= DAY_LIMIT + 1,
    ensures
        r == spec_day_start(day as int),
{
    day * SECS_PER_DAY
}

/// A date falls inside the half-open period `[start, start + length)`.
pub open spec fn spec_date_in_period(date: int, period_start: int, period_length: int) -> bool {
    period_start <= date < period_start + period_length
}

/// Whether `date` falls inside the period of `period_length` days starting
/// at `period_start` (right-exclusive).
pub fn is_date_in_period(date: Date, period_start: Date, period_length: i64) -> (r: bool)
    requires
        period_start.wf(),
        0 <= period_length <= MAX_PERIOD_DAYS,
    ensures
        r == spec_date_in_period(date.day as int, period_start.day as int, period_length as int),
{
    date.day >= period_start.day && date.day < period_start.day + period_length
}

/// A year has 366 days exactly when it is divisible by 4 but not by 100,
/// or divisible by 400.
pub open spec fn spec_is_leap_year(y: int) -> bool {
    (y % 4 == 0 && y % 100 != 0) || y % 400 == 0
}

/// Days in the months before month `m` of a year (1 = January).
pub open spec fn spec_days_before_month(leap: bool, m: int) -> int {
    let extra: int = if leap && m > 2 { 1 } else { 0 };
    extra + if m == 1 { 0int }
    else if m == 2 { 31 }
    else if m == 3 { 59 }
    else if m == 4 { 90 }
    else if m == 5 { 120 }
    else if m == 6 { 151 }
    else if m == 7 { 181 }
    else if m == 8 { 212 }
    else if m == 9 { 243 }
    else if m == 10 { 273 }
    else if m == 11 { 304 }
    else { 334 }
}

/// Days in month `m` (1 = January) of a year.
pub open spec fn spec_days_in_month(leap: bool, m: int) -> int {
    if m == 2 { if leap { 29 } else { 28 } }
    else if m == 4 || m == 6 || m == 9 || m == 11 { 30 }
    else { 31 }
}

/// Leap years among the years `1 ..= y - 1` of the proleptic Gregorian
/// calendar.
pub open spec fn spec_leap_years_before(y: int) -> int {
    (y - 1) / 4 - (y - 1) / 100 + (y - 1) / 400
}

/// Day number of 1970-01-01 counted from 0001-01-01.
pub const EPOCH_FROM_YEAR_ONE: i64 = 719_162;

/// Day number of a calendar date of the proleptic Gregorian calendar.
pub open spec fn spec_day_number(y: int, m: int, d: int) -> int {
    365 * (y - 1) + spec_leap_years_before(y) - EPOCH_FROM_YEAR_ONE
        + spec_days_before_month(spec_is_leap_year(y), m) + (d - 1)
}

/// The triple names a real calendar date in the supported year range.
pub open spec fn spec_valid_ymd(y: int, m: int, d: int) -> bool {
    1 <= y <= 9999 && 1 <= m <= 12 && 1 <= d <= spec_days_in_month(spec_is_leap_year(y), m)
}

impl Date {
    /// Builds the date for a year, month (1 = January) and day of month of
    /// the proleptic Gregorian calendar; `None` when the triple names no
    /// date in the supported year range.
    pub fn from_ymd(y: i64, m: i64, d: i64) -> (r: Option<Date>)
        ensures
            spec_valid_ymd(y as int, m as int, d as int)
                <==> r == Some(Date { day: spec_day_number(y as int, m as int, d as int) as i64 }),
            !spec_valid_ymd(y as int, m as int, d as int) <==> r is None,
            r matches Some(date) ==> date.wf(),
    {
        if y < 1 || y > 9999 || m < 1 || m > 12 {
            return None;
        }
        let leap = is_leap_year(y);
        let dim = days_in_month(leap, m);
        if d < 1 || d > dim {
            return None;
        }
        let yy = (y - 1) as u64;
        let leaps = (yy / 4 - yy / 100 + yy / 400) as i64;
        let day = 365 * (y - 1) + leaps - EPOCH_FROM_YEAR_ONE + days_before_month(leap, m) + (d
            - 1);
        Some(Date { day })
    }
}

/// Whether year `y` is a leap year.
pub fn is_leap_year(y: i64) -> (r: bool)
    requires
        1 <= y <= 9999,
    ensures
        r == spec_is_leap_year(y as int),
{
    let y = y as u64;
    (y % 4 == 0 && y % 100 != 0) || y % 400 == 0
}

fn days_in_month(leap: bool, m: i64) -> (r: i64)
    requires
        1 <= m <= 12,
    ensures
        r == spec_days_in_month(leap, m as int),
{
    if m == 2 { if leap { 29 } else { 28 } }
    else if m == 4 || m == 6 || m == 9 || m == 11 { 30 }
    else { 31 }
}

fn days_before_month(leap: bool, m: i64) -> (r: i64)
    requires
        1 <= m <= 12,
    ensures
        r == spec_days_before_month(leap, m as int),
{
    let extra: i64 = if leap && m > 2 { 1 } else { 0 };
    extra + if m == 1 { 0 }
    else if m == 2 { 31 }
    else if m == 3 { 59 }
    else if m == 4 { 90 }
    else if m == 5 { 120 }
    else if m == 6 { 151 }
    else if m == 7 { 181 }
    else if m == 8 { 212 }
    else if m == 9 { 243 }
    else if m == 10 { 273 }
    else if m == 11 { 304 }
    else { 334 }
}

} // verus!
