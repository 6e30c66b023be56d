//! Calendar days of the proleptic Gregorian calendar.
//!
//! A `Date` holds its year, month and day as plain values and is always a day
//! that the calendar has. Calendar arithmetic is the work of `chrono`; what
//! each call answers is stated here over day numbers.

use chrono::{Datelike, NaiveDate, TimeDelta};
use vstd::prelude::*;

verus! {

/// The first year that can be represented.
pub const MIN_YEAR: i32 = -262143;

/// The last year that can be represented.
pub const MAX_YEAR: i32 = 262142;

/// A year, a month counted from 1 and a day of the month counted from 1.
pub struct CalendarDay {
    pub year: int,
    pub month: int,
    pub day: int,
}

/// Whether a year has a 29 February.
pub open spec fn leap(year: int) -> bool {
    (year % 4 == 0 && year % 100 != 0) || year % 400 == 0
}

/// How many days a month has.
pub open spec fn month_length(year: int, month: int) -> int {
    if month == 2 {
        if leap(year) {
            29
        } else {
            28
        }
    } else if month == 4 || month == 6 || month == 9 || month == 11 {
        30
    } else {
        31
    }
}

/// How many days of a year come before a month.
pub open spec fn days_before_month(year: int, month: int) -> int
    decreases month,
{
    if month <= 1 {
        0
    } else {
        days_before_month(year, month - 1) + month_length(year, month - 1)
    }
}

/// How many days lie between the start of year 1 and the start of a year.
pub open spec fn days_before_year(year: int) -> int {
    365 * (year - 1) + (year - 1) / 4 - (year - 1) / 100 + (year - 1) / 400
}

/// The number of a day, counted so that 1 January of year 1 is day 1.
pub open spec fn day_number(d: CalendarDay) -> int {
    days_before_year(d.year) + days_before_month(d.year, d.month) + d.day
}

/// Whether the calendar has this day, within the years that can be
/// represented.
pub open spec fn day_exists(d: CalendarDay) -> bool {
    &&& MIN_YEAR <= d.year <= MAX_YEAR
    &&& 1 <= d.month <= 12
    &&& 1 <= d.day <= month_length(d.year, d.month)
}

/// The day with this year, month and day of the month.
pub open spec fn calendar_day(year: i32, month: u32, day: u32) -> CalendarDay {
    CalendarDay { year: year as int, month: month as int, day: day as int }
}

/// Decimal digits, padded on the left with zeros to at least `width`.
pub open spec fn padded(n: nat, width: nat) -> Seq<char> {
    let digits = crate::text::decimal(n);
    if digits.len() >= width {
        digits
    } else {
        Seq::new((width - digits.len()) as nat, |i: int| '0') + digits
    }
}

/// A year as ISO 8601 writes it: four digits, and an explicit sign outside
/// the years 0 to 9999.
pub open spec fn year_text(year: int) -> Seq<char> {
    if 0 <= year <= 9999 {
        padded(year as nat, 4)
    } else if year > 9999 {
        seq!['+'] + padded(year as nat, 4)
    } else {
        seq!['-'] + padded((-year) as nat, 4)
    }
}

/// `YYYY-MM`.
pub open spec fn month_text(d: CalendarDay) -> Seq<char> {
    year_text(d.year) + seq!['-'] + padded(d.month as nat, 2)
}

/// `YYYY-MM-DD`.
pub open spec fn iso_text(d: CalendarDay) -> Seq<char> {
    month_text(d) + seq!['-'] + padded(d.day as nat, 2)
}

// ---- what is taken from chrono ----

/// Calls `NaiveDate::from_ymd_opt`, which yields a date exactly when the
/// calendar has the day and the year is within range.
#[verifier::external_body]
fn ymd_exists(year: i32, month: u32, day: u32) -> (r: bool)
    ensures
        r == day_exists(calendar_day(year, month, day)),
{
    NaiveDate::from_ymd_opt(year, month, day).is_some()
}

/// Calls `Datelike::num_days_from_ce`, the day count in which 1 January of
/// year 1 is day 1.
#[verifier::external_body]
fn ymd_number(year: i32, month: u32, day: u32) -> (r: i32)
    requires
        day_exists(calendar_day(year, month, day)),
    ensures
        r == day_number(calendar_day(year, month, day)),
{
    NaiveDate::from_ymd_opt(year, month, day).unwrap().num_days_from_ce()
}

/// Calls `Datelike::weekday`, here as the number of days since Monday. Day 1
/// of the day count was a Monday, and weekdays repeat every seven days.
#[verifier::external_body]
fn ymd_weekday(year: i32, month: u32, day: u32) -> (r: u32)
    requires
        day_exists(calendar_day(year, month, day)),
    ensures
        r == (day_number(calendar_day(year, month, day)) - 1) % 7,
{
    NaiveDate::from_ymd_opt(year, month, day).unwrap().weekday().num_days_from_monday()
}

/// Calls `NaiveDate::checked_add_signed` with one day: the next day, or
/// nothing after the last day that can be represented.
#[verifier::external_body]
fn ymd_next(year: i32, month: u32, day: u32) -> (r: Option<(i32, u32, u32)>)
    requires
        day_exists(calendar_day(year, month, day)),
    ensures
        match r {
            Some(n) => day_exists(calendar_day(n.0, n.1, n.2)) && day_number(
                calendar_day(n.0, n.1, n.2),
            ) == day_number(calendar_day(year, month, day)) + 1,
            None => year == MAX_YEAR && month == 12 && day == 31,
        },
{
    NaiveDate::from_ymd_opt(year, month, day).unwrap().checked_add_signed(TimeDelta::days(1)).map(
        |d| (d.year(), d.month(), d.day()),
    )
}

/// Calls `NaiveDate::pred_opt`: the day before, or nothing before the first
/// day that can be represented.
#[verifier::external_body]
fn ymd_previous(year: i32, month: u32, day: u32) -> (r: Option<(i32, u32, u32)>)
    requires
        day_exists(calendar_day(year, month, day)),
    ensures
        match r {
            Some(n) => day_exists(calendar_day(n.0, n.1, n.2)) && day_number(
                calendar_day(n.0, n.1, n.2),
            ) == day_number(calendar_day(year, month, day)) - 1,
            None => year == MIN_YEAR && month == 1 && day == 1,
        },
{
    NaiveDate::from_ymd_opt(year, month, day).unwrap().pred_opt().map(
        |d| (d.year(), d.month(), d.day()),
    )
}

/// Calls the `Display` of `NaiveDate`, the ISO 8601 form of a day.
#[verifier::external_body]
fn ymd_text(year: i32, month: u32, day: u32) -> (r: String)
    requires
        day_exists(calendar_day(year, month, day)),
    ensures
        r@ == iso_text(calendar_day(year, month, day)),
{
    NaiveDate::from_ymd_opt(year, month, day).unwrap().to_string()
}

/// Calls `NaiveDate::format` with the pattern for a year and a month.
#[verifier::external_body]
fn ymd_month_text(year: i32, month: u32, day: u32) -> (r: String)
    requires
        day_exists(calendar_day(year, month, day)),
    ensures
        r@ == month_text(calendar_day(year, month, day)),
{
    NaiveDate::from_ymd_opt(year, month, day).unwrap().format("%Y-%m").to_string()
}

// ---- dates ----

/// A day of the calendar.
#[derive(Clone, Copy, Debug, PartialEq, Eq, Structural, PartialOrd, Ord, Hash)]
pub struct Date {
    year: i32,
    month: u32,
    day: u32,
}

impl View for Date {
    type V = CalendarDay;

    closed spec fn view(&self) -> CalendarDay {
        calendar_day(self.year, self.month, self.day)
    }
}

impl Date {
    #[verifier::type_invariant]
    spec fn inv(self) -> bool {
        day_exists(calendar_day(self.year, self.month, self.day))
    }

    /// The number of this day.
    pub open spec fn number(self) -> int {
        day_number(self@)
    }

    /// The day with this year, month and day of the month, where the calendar
    /// has one.
    pub fn from_ymd_opt(year: i32, month: u32, day: u32) -> (r: Option<Date>)
        ensures
            r is Some <==> day_exists(calendar_day(year, month, day)),
            r matches Some(d) ==> d@ == calendar_day(year, month, day) && day_exists(d@),
    {
        if ymd_exists(year, month, day) {
            Some(Date { year, month, day })
        } else {
            None
        }
    }

    /// The year.
    pub fn year(&self) -> (r: i32)
        ensures
            r == self@.year,
            day_exists(self@),
    {
        proof {
            use_type_invariant(self);
        }
        self.year
    }

    /// The month, counted from 1.
    pub fn month(&self) -> (r: u32)
        ensures
            r == self@.month,
            day_exists(self@),
    {
        proof {
            use_type_invariant(self);
        }
        self.month
    }

    /// The day of the month, counted from 1.
    pub fn day(&self) -> (r: u32)
        ensures
            r == self@.day,
            day_exists(self@),
    {
        proof {
            use_type_invariant(self);
        }
        self.day
    }

    /// The number of this day, counted so that 1 January of year 1 is day 1.
    pub fn day_count(&self) -> (r: i32)
        ensures
            r == self.number(),
            day_exists(self@),
    {
        proof {
            use_type_invariant(self);
        }
        ymd_number(self.year, self.month, self.day)
    }

    /// The weekday, as the number of days since Monday.
    pub fn days_from_monday(&self) -> (r: u32)
        ensures
            r == (self.number() - 1) % 7,
            r < 7,
    {
        proof {
            use_type_invariant(self);
        }
        ymd_weekday(self.year, self.month, self.day)
    }

    /// Whether this day comes before another.
    pub fn is_before(&self, other: &Date) -> (r: bool)
        ensures
            r == (self.number() < other.number()),
            day_exists(self@),
            day_exists(other@),
    {
        proof {
            use_type_invariant(self);
            use_type_invariant(other);
            law_day_numbers_follow_the_calendar(self@, other@);
        }
        self.year < other.year || (self.year == other.year && (self.month < other.month || (
        self.month == other.month && self.day < other.day)))
    }

    /// Whether this is the same day as another.
    pub fn is_same(&self, other: &Date) -> (r: bool)
        ensures
            r == (self.number() == other.number()),
            r == (self@ == other@),
            r == (*self == *other),
    {
        proof {
            use_type_invariant(self);
            use_type_invariant(other);
            law_day_numbers_follow_the_calendar(self@, other@);
        }
        self.year == other.year && self.month == other.month && self.day == other.day
    }

    /// The day after, where it can be represented.
    pub fn next_day(&self) -> (r: Option<Date>)
        ensures
            r matches Some(d) ==> d.number() == self.number() + 1 && day_exists(d@),
            r is None <==> self@ == calendar_day(MAX_YEAR, 12, 31),
    {
        proof {
            use_type_invariant(self);
        }
        match ymd_next(self.year, self.month, self.day) {
            Some((year, month, day)) => {
                proof {
                    lemma_last_day(calendar_day(year, month, day));
                }
                Some(Date { year, month, day })
            },
            None => None,
        }
    }

    /// The day before, where it can be represented.
    pub fn previous_day(&self) -> (r: Option<Date>)
        ensures
            r matches Some(d) ==> d.number() == self.number() - 1 && day_exists(d@),
            r is None <==> self@ == calendar_day(MIN_YEAR, 1, 1),
    {
        proof {
            use_type_invariant(self);
        }
        match ymd_previous(self.year, self.month, self.day) {
            Some((year, month, day)) => {
                proof {
                    lemma_first_day(calendar_day(year, month, day));
                }
                Some(Date { year, month, day })
            },
            None => None,
        }
    }

    /// `YYYY-MM-DD`.
    pub fn to_iso(&self) -> (r: String)
        ensures
            r@ == iso_text(self@),
    {
        proof {
            use_type_invariant(self);
        }
        ymd_text(self.year, self.month, self.day)
    }

    /// `YYYY-MM`.
    pub fn to_month(&self) -> (r: String)
        ensures
            r@ == month_text(self@),
    {
        proof {
            use_type_invariant(self);
        }
        ymd_month_text(self.year, self.month, self.day)
    }
}

// ---- the day count and the calendar ----

/// A year is 365 days long, and a leap year 366.
proof fn lemma_year_length(year: int)
    ensures
        days_before_year(year + 1) == days_before_year(year) + days_before_month(year, 13),
        days_before_month(year, 13) == if leap(year) {
            366int
        } else {
            365int
        },
{
    let february = if leap(year) {
        29int
    } else {
        28int
    };
    assert(days_before_month(year, 1) == 0);
    assert(days_before_month(year, 2) == 31);
    assert(days_before_month(year, 3) == 31 + february);
    assert(days_before_month(year, 4) == 62 + february);
    assert(days_before_month(year, 5) == 92 + february);
    assert(days_before_month(year, 6) == 123 + february);
    assert(days_before_month(year, 7) == 153 + february);
    assert(days_before_month(year, 8) == 184 + february);
    assert(days_before_month(year, 9) == 215 + february);
    assert(days_before_month(year, 10) == 245 + february);
    assert(days_before_month(year, 11) == 276 + february);
    assert(days_before_month(year, 12) == 306 + february);
    assert(days_before_month(year, 13) == 337 + february);
    lemma_multiples(year, 4);
    lemma_multiples(year, 100);
    lemma_multiples(year, 400);
    assert(year % 400 == 0 ==> year % 100 == 0);
    assert(year % 100 == 0 ==> year % 4 == 0);
}

/// Going on by one passes a multiple exactly when it lands on one.
proof fn lemma_multiples(n: int, d: int)
    requires
        d == 4 || d == 100 || d == 400,
    ensures
        n / d == (n - 1) / d + if n % d == 0 {
            1int
        } else {
            0int
        },
{
    if d == 4 {
        assert(n / 4 == (n - 1) / 4 + if n % 4 == 0 {
            1int
        } else {
            0int
        });
    } else if d == 100 {
        assert(n / 100 == (n - 1) / 100 + if n % 100 == 0 {
            1int
        } else {
            0int
        });
    } else {
        assert(n / 400 == (n - 1) / 400 + if n % 400 == 0 {
            1int
        } else {
            0int
        });
    }
}

/// Months follow each other without overlap.
proof fn lemma_months_in_order(year: int, a: int, b: int)
    requires
        1 <= a < b <= 13,
    ensures
        days_before_month(year, a) + month_length(year, a) <= days_before_month(year, b),
    decreases b,
{
    if a < b - 1 {
        lemma_months_in_order(year, a, b - 1);
    }
}

/// Years follow each other without overlap.
proof fn lemma_years_in_order(a: int, b: int)
    requires
        a < b,
    ensures
        days_before_year(a) + days_before_month(a, 13) <= days_before_year(b),
    decreases b - a,
{
    lemma_year_length(b - 1);
    if a < b - 1 {
        lemma_years_in_order(a, b - 1);
    }
}

/// A day lies within its own year.
proof fn lemma_within_year(d: CalendarDay)
    requires
        day_exists(d),
    ensures
        days_before_year(d.year) < day_number(d) <= days_before_year(d.year) + days_before_month(
            d.year,
            13,
        ),
        0 <= days_before_month(d.year, d.month),
{
    lemma_months_in_order(d.year, d.month, 13);
    if d.month > 1 {
        lemma_months_in_order(d.year, 1, d.month);
    }
}

/// Whether one day comes before another: by year, then month, then day.
pub open spec fn earlier(a: CalendarDay, b: CalendarDay) -> bool {
    ||| a.year < b.year
    ||| a.year == b.year && a.month < b.month
    ||| a.year == b.year && a.month == b.month && a.day < b.day
}

/// An earlier day has a smaller number.
proof fn lemma_earlier_is_smaller(a: CalendarDay, b: CalendarDay)
    requires
        day_exists(a),
        day_exists(b),
        earlier(a, b),
    ensures
        day_number(a) < day_number(b),
{
    if a.year < b.year {
        lemma_within_year(a);
        lemma_within_year(b);
        lemma_years_in_order(a.year, b.year);
    } else if a.month < b.month {
        lemma_months_in_order(a.year, a.month, b.month);
    }
}

/// Day numbers order the days as the calendar does, and no two days share a
/// number.
pub proof fn law_day_numbers_follow_the_calendar(a: CalendarDay, b: CalendarDay)
    requires
        day_exists(a),
        day_exists(b),
    ensures
        earlier(a, b) <==> day_number(a) < day_number(b),
        a == b <==> day_number(a) == day_number(b),
{
    if earlier(a, b) {
        lemma_earlier_is_smaller(a, b);
    } else if earlier(b, a) {
        lemma_earlier_is_smaller(b, a);
    }
}

/// The day after the last of a month is the first of the next month.
pub proof fn lemma_months_follow_on(year: int, month: int)
    requires
        1 <= month <= 12,
    ensures
        day_number(
            if month == 12 {
                CalendarDay { year: year + 1, month: 1, day: 1 }
            } else {
                CalendarDay { year, month: month + 1, day: 1 }
            },
        ) == day_number(CalendarDay { year, month, day: month_length(year, month) }) + 1,
{
    lemma_year_length(year);
}

/// No day that can be represented comes after the last one.
proof fn lemma_last_day(d: CalendarDay)
    requires
        day_exists(d),
    ensures
        day_number(d) <= day_number(calendar_day(MAX_YEAR, 12, 31)),
{
    law_day_numbers_follow_the_calendar(calendar_day(MAX_YEAR, 12, 31), d);
}

/// No day that can be represented comes before the first one.
proof fn lemma_first_day(d: CalendarDay)
    requires
        day_exists(d),
    ensures
        day_number(calendar_day(MIN_YEAR, 1, 1)) <= day_number(d),
{
    law_day_numbers_follow_the_calendar(d, calendar_day(MIN_YEAR, 1, 1));
}

/// Every day number fits the range that the years span.
pub proof fn lemma_day_number_range(d: CalendarDay)
    requires
        day_exists(d),
    ensures
        -95_746_800 < day_number(d) < 95_746_800,
{
    lemma_last_day(d);
    lemma_first_day(d);
    reveal_with_fuel(days_before_month, 13);
}

} // verus!
