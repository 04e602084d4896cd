//! Calendar dates and their day counts from the spreadsheet epoch.
//!
//! The calendar is the proleptic Gregorian one. The arithmetic on dates is
//! done by `chrono`; this module states what it relies on over
//! `CalendarDate::day_number` and proves that a day number names one date.

use chrono::{Datelike, NaiveDate, TimeDelta};
use vstd::prelude::*;

verus! {

/// The first year a `Date` can hold.
pub const MIN_YEAR: i32 = -262143;

/// The last year a `Date` can hold.
pub const MAX_YEAR: i32 = 262142;

/// Year, month and day of the epoch that spreadsheet serial dates count
/// from: 1899-12-30.
pub const EPOCH_YEAR: i32 = 1899;

pub const EPOCH_MONTH: u32 = 12;

pub const EPOCH_DAY: u32 = 30;

pub open spec fn is_leap_year(year: int) -> bool {
    year % 4 == 0 && (year % 100 != 0 || year % 400 == 0)
}

pub open spec fn days_in_year(year: int) -> int {
    if is_leap_year(year) {
        366
    } else {
        365
    }
}

pub open spec fn days_in_month(year: int, month: int) -> int {
    if month == 2 {
        if is_leap_year(year) {
            29
        } else {
            28
        }
    } else if month == 4 || month == 6 || month == 9 || month == 11 {
        30
    } else {
        31
    }
}

/// Days of `year` that lie before the first of `month`.
pub open spec fn days_before_month(year: int, month: int) -> int
    decreases month,
{
    if month <= 1 {
        0
    } else {
        days_before_month(year, month - 1) + days_in_month(year, month - 1)
    }
}

/// Days from 0001-01-01 up to, not including, the first of January of
/// `year`; negative before year 1.
pub open spec fn days_before_year(year: int) -> int {
    let y = year - 1;
    365 * y + y / 4 - y / 100 + y / 400
}

/// A year, a month and a day as mathematical integers: the model of `Date`.
pub struct CalendarDate {
    pub year: int,
    pub month: int,
    pub day: int,
}

impl CalendarDate {
    /// Whether the day exists in the calendar.
    pub open spec fn is_valid(self) -> bool {
        1 <= self.month <= 12 && 1 <= self.day <= days_in_month(self.year, self.month)
    }

    /// Whether the year is one that a `Date` can hold.
    pub open spec fn in_range(self) -> bool {
        MIN_YEAR <= self.year <= MAX_YEAR
    }

    /// The day's position in the calendar, 0001-01-01 being day 1.
    pub open spec fn day_number(self) -> int {
        days_before_year(self.year) + days_before_month(self.year, self.month) + self.day
    }

    /// Days from the epoch to this day; negative before it.
    pub open spec fn epoch_offset(self) -> int {
        self.day_number() - epoch().day_number()
    }

    /// Whether `self` comes before `other`.
    pub open spec fn before(self, other: CalendarDate) -> bool {
        self.year < other.year || (self.year == other.year && (self.month < other.month || (
        self.month == other.month && self.day < other.day)))
    }
}

/// The calendar date `year`-`month`-`day`.
pub open spec fn ymd(year: int, month: int, day: int) -> CalendarDate {
    CalendarDate { year, month, day }
}

/// The epoch as a calendar date.
pub open spec fn epoch() -> CalendarDate {
    ymd(EPOCH_YEAR as int, EPOCH_MONTH as int, EPOCH_DAY as int)
}

/// The calendar date that lies `offset` days from the epoch.
pub open spec fn date_at_offset(offset: int) -> CalendarDate {
    choose|d: CalendarDate| d.is_valid() && d.epoch_offset() == offset
}

/// Whether the day `offset` days from the epoch is one that a `Date` can
/// hold: not before the first day of `MIN_YEAR`, not after the last of
/// `MAX_YEAR`.
pub open spec fn offset_in_range(offset: int) -> bool {
    ymd(MIN_YEAR as int, 1, 1).epoch_offset() <= offset <= ymd(MAX_YEAR as int, 12, 31).epoch_offset()
}

/// One more year adds that year's days.
pub proof fn lemma_year_step(year: int)
    ensures
        days_before_year(year + 1) == days_before_year(year) + days_in_year(year),
{
}

/// Later years start later, by at least 365 days a year.
pub proof fn lemma_years_ordered(earlier: int, later: int)
    requires
        earlier <= later,
    ensures
        days_before_year(earlier) + 365 * (later - earlier) <= days_before_year(later),
    decreases later - earlier,
{
    if earlier < later {
        lemma_years_ordered(earlier, later - 1);
        lemma_year_step(later - 1);
    }
}

/// The months before each month of a year, written out.
pub proof fn lemma_days_before_month(year: int)
    ensures
        days_before_month(year, 1) == 0,
        days_before_month(year, 2) == 31,
        days_before_month(year, 3) == 31 + days_in_month(year, 2),
        days_before_month(year, 4) == 62 + days_in_month(year, 2),
        days_before_month(year, 5) == 92 + days_in_month(year, 2),
        days_before_month(year, 6) == 123 + days_in_month(year, 2),
        days_before_month(year, 7) == 153 + days_in_month(year, 2),
        days_before_month(year, 8) == 184 + days_in_month(year, 2),
        days_before_month(year, 9) == 215 + days_in_month(year, 2),
        days_before_month(year, 10) == 245 + days_in_month(year, 2),
        days_before_month(year, 11) == 276 + days_in_month(year, 2),
        days_before_month(year, 12) == 306 + days_in_month(year, 2),
        days_before_month(year, 13) == 337 + days_in_month(year, 2),
        days_before_month(year, 13) == days_in_year(year),
{
    reveal_with_fuel(days_before_month, 14);
}

/// Of two days that exist, the earlier has the smaller day number.
pub proof fn lemma_day_number_ordered(a: CalendarDate, b: CalendarDate)
    requires
        a.is_valid(),
        b.is_valid(),
        a.before(b),
    ensures
        a.day_number() < b.day_number(),
{
    lemma_days_before_month(a.year);
    lemma_days_before_month(b.year);
    if a.year < b.year {
        lemma_year_step(a.year);
        lemma_years_ordered(a.year + 1, b.year);
    }
}

/// A day number names one day: two days that exist and have the same day
/// number are the same day.
pub proof fn lemma_day_number_injective(a: CalendarDate, b: CalendarDate)
    requires
        a.is_valid(),
        b.is_valid(),
        a.day_number() == b.day_number(),
    ensures
        a == b,
{
    if a.before(b) {
        lemma_day_number_ordered(a, b);
    } else if b.before(a) {
        lemma_day_number_ordered(b, a);
    }
}

/// The day after `d`.
pub open spec fn next_day(d: CalendarDate) -> CalendarDate {
    if d.day < days_in_month(d.year, d.month) {
        ymd(d.year, d.month, d.day + 1)
    } else if d.month < 12 {
        ymd(d.year, d.month + 1, 1)
    } else {
        ymd(d.year + 1, 1, 1)
    }
}

/// The day before `d`.
pub open spec fn previous_day(d: CalendarDate) -> CalendarDate {
    if d.day > 1 {
        ymd(d.year, d.month, d.day - 1)
    } else if d.month > 1 {
        ymd(d.year, d.month - 1, days_in_month(d.year, d.month - 1))
    } else {
        ymd(d.year - 1, 12, 31)
    }
}

/// The days after and before a day exist and have the neighbouring day
/// numbers.
pub proof fn lemma_neighbours(d: CalendarDate)
    requires
        d.is_valid(),
    ensures
        next_day(d).is_valid(),
        next_day(d).day_number() == d.day_number() + 1,
        previous_day(d).is_valid(),
        previous_day(d).day_number() == d.day_number() - 1,
{
    lemma_days_before_month(d.year);
    lemma_days_before_month(d.year + 1);
    lemma_days_before_month(d.year - 1);
    lemma_year_step(d.year);
    lemma_year_step(d.year - 1);
}

/// Every day number is that of a day.
pub proof fn lemma_day_exists(number: int) -> (d: CalendarDate)
    ensures
        d.is_valid(),
        d.day_number() == number,
    decreases
            if number >= epoch().day_number() {
                number - epoch().day_number()
            } else {
                epoch().day_number() - number
            },
{
    lemma_days_before_month(EPOCH_YEAR as int);
    if number == epoch().day_number() {
        epoch()
    } else if number > epoch().day_number() {
        let before = lemma_day_exists(number - 1);
        lemma_neighbours(before);
        next_day(before)
    } else {
        let after = lemma_day_exists(number + 1);
        lemma_neighbours(after);
        previous_day(after)
    }
}

/// Going a number of days from the epoch arrives at a day that exists, and
/// that day lies that number of days from the epoch.
pub proof fn lemma_date_at_offset(offset: int)
    ensures
        date_at_offset(offset).is_valid(),
        date_at_offset(offset).epoch_offset() == offset,
{
    let d = lemma_day_exists(offset + epoch().day_number());
    assert(d.is_valid() && d.epoch_offset() == offset);
}

/// Counting the days from the epoch to a day and then going that many days
/// from the epoch arrives at the same day, and a day that a `Date` can hold
/// has an offset in range.
pub proof fn lemma_epoch_offset_round_trip(d: CalendarDate)
    requires
        d.is_valid(),
    ensures
        date_at_offset(d.epoch_offset()) == d,
        d.in_range() ==> offset_in_range(d.epoch_offset()),
{
    let back = date_at_offset(d.epoch_offset());
    assert(back.is_valid() && back.epoch_offset() == d.epoch_offset());
    lemma_day_number_injective(back, d);
    if d.in_range() {
        let first = ymd(MIN_YEAR as int, 1, 1);
        let last = ymd(MAX_YEAR as int, 12, 31);
        if first != d {
            assert(first.before(d));
            lemma_day_number_ordered(first, d);
        }
        if last != d {
            assert(d.before(last));
            lemma_day_number_ordered(d, last);
        }
    }
}

/// A day of the calendar, with its year between `MIN_YEAR` and `MAX_YEAR`.
#[derive(Clone, Copy, Debug, PartialEq, Eq, Structural)]
pub struct Date {
    year: i32,
    month: u32,
    day: u32,
}

impl View for Date {
    type V = CalendarDate;

    closed spec fn view(&self) -> CalendarDate {
        CalendarDate { year: self.year as int, month: self.month as int, day: self.day as int }
    }
}

impl Date {
    /// Every `Date` is a day that exists, in a year within range.
    #[verifier::type_invariant]
    pub open spec fn well_formed(self) -> bool {
        self@.is_valid() && self@.in_range()
    }

    /// The day `year`-`month`-`day`, if the calendar has it and the year is
    /// within range.
    pub fn from_ymd_opt(year: i32, month: u32, day: u32) -> (r: Option<Date>)
        ensures
            r is Some <==> (ymd(year as int, month as int, day as int).is_valid() && MIN_YEAR <= year
                <= MAX_YEAR),
            r matches Some(d) ==> d@ == ymd(year as int, month as int, day as int),
    {
        calendar_day(year, month, day)
    }

    pub fn year(&self) -> (r: i32)
        ensures
            r == self@.year,
    {
        self.year
    }

    pub fn month(&self) -> (r: u32)
        ensures
            r == self@.month,
            1 <= r <= 12,
    {
        proof {
            use_type_invariant(self);
        }
        self.month
    }

    pub fn day(&self) -> (r: u32)
        ensures
            r == self@.day,
            1 <= r <= 31,
    {
        proof {
            use_type_invariant(self);
        }
        self.day
    }
}

/// The epoch, 1899-12-30.
pub fn epoch_date() -> (r: Date)
    ensures
        r@ == epoch(),
{
    proof {
        lemma_days_before_month(EPOCH_YEAR as int);
    }
    Date { year: EPOCH_YEAR, month: EPOCH_MONTH, day: EPOCH_DAY }
}

/// The day `offset` days from the epoch, or `None` where that day is
/// outside what a `Date` can hold.
pub fn epoch_offset_to_date(offset: i64) -> (r: Option<Date>)
    ensures
        r is Some <==> offset_in_range(offset as int),
        r matches Some(d) ==> d@ == date_at_offset(offset as int),
{
    let r = plus_days(epoch_date(), offset);
    proof {
        if let Some(d) = r {
            lemma_epoch_offset_round_trip(d@);
        }
    }
    r
}

/// The days from the epoch to `date`; negative before the epoch.
pub fn date_to_epoch_offset(date: Date) -> (r: i64)
    ensures
        r == date@.epoch_offset(),
        offset_in_range(r as int),
{
    proof {
        use_type_invariant(date);
        lemma_epoch_offset_round_trip(date@);
    }
    days_between(date, epoch_date())
}

/// `NaiveDate::from_ymd_opt`, with the date it makes read back through
/// `year`, `month` and `day`.
///
/// Claimed of it: it returns a date exactly when the day exists in the
/// proleptic Gregorian calendar and the year lies between `MIN_YEAR` and
/// `MAX_YEAR`, and that date has the year, month and day it was given.
#[verifier::external_body]
fn calendar_day(year: i32, month: u32, day: u32) -> (r: Option<Date>)
    ensures
        r is Some <==> (ymd(year as int, month as int, day as int).is_valid() && MIN_YEAR <= year
                <= MAX_YEAR),
        r matches Some(d) ==> d@ == ymd(year as int, month as int, day as int),
{
    match NaiveDate::from_ymd_opt(year, month, day) {
        Some(d) => Some(Date { year: d.year(), month: d.month(), day: d.day() }),
        None => None,
    }
}

/// `NaiveDate::checked_add_signed` with a `TimeDelta` of whole days made by
/// `TimeDelta::try_days`.
///
/// Claimed of them: the result is the day whose day number is that of
/// `date` plus `days`, and it is `None` exactly when that day lies before
/// the first day of `MIN_YEAR` or after the last day of `MAX_YEAR`; a count
/// of days too large for a `TimeDelta` is far outside those.
#[verifier::external_body]
fn plus_days(date: Date, days: i64) -> (r: Option<Date>)
    ensures
        r is Some <==> offset_in_range(date@.epoch_offset() + days),
        r matches Some(d) ==> (d@.is_valid() && d@.in_range() && d@.day_number()
            == date@.day_number() + days),
{
    let start = NaiveDate::from_ymd_opt(date.year, date.month, date.day)?;
    let moved = start.checked_add_signed(TimeDelta::try_days(days)?)?;
    Some(Date { year: moved.year(), month: moved.month(), day: moved.day() })
}

/// `NaiveDate::signed_duration_since` followed by `TimeDelta::num_days`.
///
/// Claimed of them: the result is the day number of `date` minus that of
/// `base`.
#[verifier::external_body]
fn days_between(date: Date, base: Date) -> (r: i64)
    ensures
        r == date@.day_number() - base@.day_number(),
{
    let to = NaiveDate::from_ymd_opt(date.year, date.month, date.day).unwrap_or_default();
    let from = NaiveDate::from_ymd_opt(base.year, base.month, base.day).unwrap_or_default();
    to.signed_duration_since(from).num_days()
}

} // verus!
