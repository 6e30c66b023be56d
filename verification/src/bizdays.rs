//! Business days, Monday to Friday. No holiday calendar - a deliberate
//! simplification stated in the UI parameters strip.

use crate::date::Date;
use vstd::prelude::*;

verus! {

/// Whether the day with this number falls on Monday to Friday.
pub open spec fn working(number: int) -> bool {
    (number - 1) % 7 < 5
}

/// How many business days lie after the day `from`, up to and including the
/// day `to`.
pub open spec fn working_days(from: int, to: int) -> nat
    decreases to - from,
{
    if to <= from {
        0
    } else if working(to) {
        working_days(from, to - 1) + 1
    } else {
        working_days(from, to - 1)
    }
}

/// Whether a day falls on Monday to Friday.
pub fn is_business_day(d: Date) -> (r: bool)
    ensures
        r == working(d.number()),
{
    d.days_from_monday() < 5
}

/// Business days in `(from, to]`. Zero when `to <= from`, so a cash flow
/// dated on or before the snapshot is never credited to a future day.
pub fn business_days_between(from: Date, to: Date) -> (r: u32)
    ensures
        r == working_days(from.number(), to.number()),
{
    let mut n: u32 = 0;
    let mut d: Date = from;
    let mut going: bool = d.is_before(&to);
    proof {
        crate::date::lemma_day_number_range(from@);
        crate::date::lemma_day_number_range(to@);
    }
    while going
        invariant
            going == (d.number() < to.number()),
            from.number() <= d.number(),
            from.number() < to.number() ==> d.number() <= to.number(),
            from.number() >= to.number() ==> d.number() == from.number(),
            to.number() - from.number() < 200_000_000,
            crate::date::day_exists(d@),
            crate::date::day_exists(to@),
            n <= d.number() - from.number(),
            n == working_days(from.number(), d.number()),
        decreases to.number() - d.number(),
    {
        match d.next_day() {
            Some(next) => {
                d = next;
            },
            None => {
                proof {
                    crate::date::law_day_numbers_follow_the_calendar(d@, to@);
                }
                return n;
            },
        }
        if is_business_day(d) {
            n = n + 1;
        }
        going = d.is_before(&to);
    }
    n
}

/// Counting up to a day and on from there is counting all the way.
pub proof fn law_business_days_add_up(a: int, b: int, c: int)
    requires
        a <= b <= c,
    ensures
        working_days(a, b) + working_days(b, c) == working_days(a, c),
    decreases c - b,
{
    if b < c {
        law_business_days_add_up(a, b, c - 1);
    }
}

/// Seven days in a row hold five business days, wherever they begin.
pub proof fn law_a_week_holds_five(from: int)
    ensures
        working_days(from, from + 7) == 5,
{
    assert(working_days(from, from) == 0);
    let k = (from % 7) as int;
    assert forall|i: int| 1 <= i <= 7 implies #[trigger] working(from + i) == ((k + i - 1) % 7 < 5) by {}
    assert(working_days(from, from + 1) == working_days(from, from) + if working(from + 1) { 1nat } else { 0 });
    assert(working_days(from, from + 2) == working_days(from, from + 1) + if working(from + 2) { 1nat } else { 0 });
    assert(working_days(from, from + 3) == working_days(from, from + 2) + if working(from + 3) { 1nat } else { 0 });
    assert(working_days(from, from + 4) == working_days(from, from + 3) + if working(from + 4) { 1nat } else { 0 });
    assert(working_days(from, from + 5) == working_days(from, from + 4) + if working(from + 5) { 1nat } else { 0 });
    assert(working_days(from, from + 6) == working_days(from, from + 5) + if working(from + 6) { 1nat } else { 0 });
    assert(working_days(from, from + 7) == working_days(from, from + 6) + if working(from + 7) { 1nat } else { 0 });
}

/// A later end never counts fewer business days, and a period never holds
/// more business days than days.
pub proof fn law_business_days_grow(from: int, a: int, b: int)
    requires
        a <= b,
    ensures
        working_days(from, a) <= working_days(from, b),
        from <= b ==> working_days(from, b) <= b - from,
    decreases b - a, b - from,
{
    if a < b {
        law_business_days_grow(from, a, b - 1);
    } else if from < b {
        law_business_days_grow(from, b - 1, b - 1);
    }
}

/// Saturday and Sunday are no business days, every other day is one: day 1 of
/// the day count was a Monday.
pub proof fn law_only_weekends_are_free(number: int)
    ensures
        number % 7 == 6 || number % 7 == 0 ==> !working(number),
        1 <= number % 7 <= 5 ==> working(number),
{
}

/// Counting one day further counts that day if it is a business day, and there
/// is nothing to count where the end does not lie after the start.
pub proof fn law_each_business_day_counts_once(from: int, to: int)
    ensures
        to <= from ==> working_days(from, to) == 0,
        from < to ==> working_days(from, to) == working_days(from, to - 1) + if 1 <= to % 7 <= 5 {
            1nat
        } else {
            0nat
        },
{
}

} // verus!
