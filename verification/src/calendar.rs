//! Calendar-period returns.

use crate::date::Date;
use crate::number::Number;
use crate::series::NavPoint;
use vstd::prelude::*;

verus! {

/// The return of one period: `to / from - 1`.
#[derive(Debug, Clone, Copy, PartialEq, Eq, Structural)]
pub struct PeriodReturn {
    pub year: i32,
    pub period: u32,
    pub from: Number,
    pub to: Number,
}

/// A calendar period.
#[derive(Debug, Clone, Copy, PartialEq, Eq, Structural)]
pub enum Period {
    Month,
    Quarter,
    Year,
}

impl Period {
    /// Which period of its year a day falls in: the month, the quarter counted
    /// from 1, or 0 for the year itself.
    pub open spec fn index_of(self, d: Date) -> int {
        match self {
            Period::Month => d@.month,
            Period::Quarter => (d@.month - 1) / 3 + 1,
            Period::Year => 0,
        }
    }

    fn index(&self, d: Date) -> (r: u32)
        ensures
            r == self.index_of(d),
    {
        match self {
            Period::Month => d.month(),
            Period::Quarter => (d.month() - 1) / 3 + 1,
            Period::Year => 0,
        }
    }
}

/// The last figure of a period.
#[derive(Debug, Clone, Copy, PartialEq, Eq, Structural)]
pub struct PeriodEnd {
    pub year: i32,
    pub period: u32,
    pub value: Number,
}

/// Whether a day falls in the period of an end.
pub open spec fn in_period(unit: Period, end: PeriodEnd, d: Date) -> bool {
    end.year == d@.year && end.period == unit.index_of(d)
}

/// The ends of the periods of a series, in its order: neighbouring points of
/// one period share an end, and the last of them sets it.
pub open spec fn ends(nav: Seq<NavPoint>, unit: Period) -> Seq<PeriodEnd>
    decreases nav.len(),
{
    if nav.len() == 0 {
        Seq::empty()
    } else {
        let p = nav.last();
        let earlier = ends(nav.drop_last(), unit);
        let end = PeriodEnd {
            year: p.date@.year as i32,
            period: unit.index_of(p.date) as u32,
            value: p.value,
        };
        if earlier.len() > 0 && in_period(unit, earlier.last(), p.date) {
            earlier.drop_last().push(end)
        } else {
            earlier.push(end)
        }
    }
}

/// The returns between period ends; the first is taken from the first point of
/// the series.
pub open spec fn between_ends(first: Number, all: Seq<PeriodEnd>) -> Seq<PeriodReturn> {
    Seq::new(
        all.len(),
        |i: int|
            PeriodReturn {
                year: all[i].year,
                period: all[i].period,
                from: if i == 0 {
                    first
                } else {
                    all[i - 1].value
                },
                to: all[i].value,
            },
    )
}

/// The returns of a series by calendar period.
pub open spec fn by_period(nav: Seq<NavPoint>, unit: Period) -> Seq<PeriodReturn> {
    if nav.len() == 0 {
        Seq::empty()
    } else {
        between_ends(nav[0].value, ends(nav, unit))
    }
}

/// Period-end returns: last NAV of a period over last NAV of the previous
/// period (first period: over the first point of the series).
fn period_returns(nav: &[NavPoint], unit: Period) -> (r: Vec<PeriodReturn>)
    ensures
        r@ == by_period(nav@, unit),
{
    let mut out: Vec<PeriodReturn> = Vec::new();
    if nav.len() == 0 {
        return out;
    }
    let mut found: Vec<PeriodEnd> = Vec::new();
    for i in 0..nav.len()
        invariant
            found@ == ends(nav@.take(i as int), unit),
    {
        let p = nav[i];
        let year: i32 = p.date.year();
        let period: u32 = unit.index(p.date);
        proof {
            assert(nav@.take(i + 1).drop_last() =~= nav@.take(i as int));
        }
        let size: usize = found.len();
        if size > 0 && found[size - 1].year == year && found[size - 1].period == period {
            found.pop();
        }
        found.push(PeriodEnd { year, period, value: p.value });
    }
    assert(nav@.take(nav@.len() as int) =~= nav@);
    let mut prev: Number = nav[0].value;
    for i in 0..found.len()
        invariant
            nav@.len() > 0,
            found@ == ends(nav@, unit),
            out@.len() == i,
            prev == if i == 0 {
                nav@[0].value
            } else {
                found@[i - 1].value
            },
            forall|k: int|
                0 <= k < i ==> (#[trigger] out@[k]) == between_ends(nav@[0].value, found@)[k],
    {
        let e = found[i];
        out.push(PeriodReturn { year: e.year, period: e.period, from: prev, to: e.value });
        prev = e.value;
    }
    assert(out@ =~= by_period(nav@, unit));
    out
}

/// Returns month by month.
pub fn monthly_returns(nav: &[NavPoint]) -> (r: Vec<PeriodReturn>)
    ensures
        r@ == by_period(nav@, Period::Month),
{
    period_returns(nav, Period::Month)
}

/// Returns quarter by quarter.
pub fn quarterly_returns(nav: &[NavPoint]) -> (r: Vec<PeriodReturn>)
    ensures
        r@ == by_period(nav@, Period::Quarter),
{
    period_returns(nav, Period::Quarter)
}

/// Annual totals; `period` is always 0.
pub fn annual_returns(nav: &[NavPoint]) -> (r: Vec<PeriodReturn>)
    ensures
        r@ == by_period(nav@, Period::Year),
        forall|i: int| 0 <= i < r@.len() ==> (#[trigger] r@[i]).period == 0,
{
    let r = period_returns(nav, Period::Year);
    proof {
        lemma_annual_periods(nav@);
    }
    r
}

proof fn lemma_annual_periods(nav: Seq<NavPoint>)
    ensures
        forall|i: int|
            0 <= i < ends(nav, Period::Year).len() ==> (#[trigger] ends(
                nav,
                Period::Year,
            )[i]).period == 0,
    decreases nav.len(),
{
    if nav.len() > 0 {
        lemma_annual_periods(nav.drop_last());
        let earlier = ends(nav.drop_last(), Period::Year);
        let all = ends(nav, Period::Year);
        assert forall|i: int| 0 <= i < all.len() implies (#[trigger] all[i]).period == 0 by {
            if i < all.len() - 1 {
                assert(all[i] == earlier[i]);
            }
        }
    }
}

/// The ends of a series: there is one at least, and the last is the last
/// figure.
proof fn lemma_last_end(nav: Seq<NavPoint>, unit: Period)
    requires
        nav.len() > 0,
    ensures
        ends(nav, unit).len() > 0,
        ends(nav, unit).last().value == nav.last().value,
        ends(nav, unit).len() <= nav.len(),
    decreases nav.len(),
{
    if nav.len() > 1 {
        lemma_last_end(nav.drop_last(), unit);
    } else {
        assert(ends(nav.drop_last(), unit).len() == 0);
    }
}

/// Period returns compound across the whole series, whatever the period: each
/// starts where the one before ended, the first at the first figure, and the
/// last ends at the last figure.
pub proof fn law_period_returns_span_the_series(nav: Seq<NavPoint>, unit: Period)
    requires
        nav.len() > 0,
    ensures
        by_period(nav, unit).len() > 0,
        by_period(nav, unit)[0].from == nav[0].value,
        by_period(nav, unit).last().to == nav.last().value,
        forall|i: int|
            0 < i < by_period(nav, unit).len() ==> (#[trigger] by_period(nav, unit)[i]).from
                == by_period(nav, unit)[i - 1].to,
{
    lemma_last_end(nav, unit);
}

/// No two neighbouring returns are of one period.
pub proof fn law_neighbouring_returns_differ_in_period(nav: Seq<NavPoint>, unit: Period, i: int)
    requires
        0 < i < by_period(nav, unit).len(),
        forall|k: int|
            0 <= k < nav.len() ==> crate::date::day_exists((#[trigger] nav[k]).date@),
    ensures
        by_period(nav, unit)[i - 1].year != by_period(nav, unit)[i].year || by_period(
            nav,
            unit,
        )[i - 1].period != by_period(nav, unit)[i].period,
{
    lemma_ends_differ(nav, unit);
}

proof fn lemma_ends_differ(nav: Seq<NavPoint>, unit: Period)
    requires
        forall|k: int|
            0 <= k < nav.len() ==> crate::date::day_exists((#[trigger] nav[k]).date@),
    ensures
        forall|i: int|
            0 < i < ends(nav, unit).len() ==> ends(nav, unit)[i - 1].year != (#[trigger] ends(
                nav,
                unit,
            )[i]).year || ends(nav, unit)[i - 1].period != ends(nav, unit)[i].period,
    decreases nav.len(),
{
    if nav.len() > 0 {
        let rest = nav.drop_last();
        assert forall|k: int| 0 <= k < rest.len() implies crate::date::day_exists(
            (#[trigger] rest[k]).date@,
        ) by {
            assert(nav[k] == rest[k]);
        }
        lemma_ends_differ(rest, unit);
        assert(crate::date::day_exists(nav[nav.len() - 1].date@));
        let earlier = ends(rest, unit);
        let all = ends(nav, unit);
        assert forall|i: int| 0 < i < all.len() implies all[i - 1].year != (#[trigger] all[i]).year
            || all[i - 1].period != all[i].period by {
            if i < all.len() - 1 {
                assert(all[i] == earlier[i] && all[i - 1] == earlier[i - 1]);
            } else if all.len() == earlier.len() {
                assert(all[i - 1] == earlier[i - 1]);
                assert(earlier[i].year == all[i].year && earlier[i].period == all[i].period);
            } else {
                assert(all[i - 1] == earlier.last());
            }
        }
    }
}

/// Periods are those of the calendar: a month is itself, the four quarters are
/// January to March, April to June, July to September and October to December,
/// and a year is one period.
pub proof fn law_periods_are_those_of_the_calendar(d: Date)
    requires
        1 <= d@.month <= 12,
    ensures
        Period::Month.index_of(d) == d@.month,
        1 <= Period::Quarter.index_of(d) <= 4,
        3 * (Period::Quarter.index_of(d) - 1) < d@.month <= 3 * Period::Quarter.index_of(d),
        Period::Year.index_of(d) == 0,
{
}

/// Two days of one year are of one quarter exactly when their months lie in the
/// same of January to March, April to June, July to September and October to
/// December.
pub proof fn law_a_quarter_is_three_months(a: Date, b: Date)
    requires
        1 <= a@.month <= 12,
        1 <= b@.month <= 12,
    ensures
        Period::Quarter.index_of(a) == Period::Quarter.index_of(b) <==> exists|q: int|
            1 <= q <= 4 && #[trigger] (3 * (q - 1)) < a@.month <= 3 * q && 3 * (q - 1) < b@.month <= 3
                * q,
{
    let q = Period::Quarter.index_of(a);
    assert(3 * (q - 1) < a@.month <= 3 * q);
    if Period::Quarter.index_of(a) == Period::Quarter.index_of(b) {
        assert(1 <= q <= 4 && 3 * (q - 1) < b@.month <= 3 * q);
    }
}

/// Whether a day falls in a period that is called by its year and number.
pub open spec fn falls_within(unit: Period, year: i32, period: u32, d: Date) -> bool {
    &&& year == d@.year
    &&& match unit {
        Period::Month => period == d@.month,
        Period::Quarter => 3 * (period - 1) < d@.month <= 3 * period,
        Period::Year => period == 0,
    }
}

/// Whether an end is the last point of its period among some: a point of the
/// period carries its figure, and none of the period follows.
pub open spec fn last_within(nav: Seq<NavPoint>, unit: Period, e: PeriodReturn) -> bool {
    exists|k: int|
        0 <= k < nav.len() && falls_within(unit, e.year, e.period, (#[trigger] nav[k]).date)
            && nav[k].value == e.to && forall|j: int|
            k < j < nav.len() ==> !falls_within(unit, e.year, e.period, (#[trigger] nav[j]).date)
}

/// Whether some return is of the period of a day.
pub open spec fn returned(all: Seq<PeriodReturn>, unit: Period, d: Date) -> bool {
    exists|i: int|
        0 <= i < all.len() && falls_within(
            unit,
            (#[trigger] all[i]).year,
            all[i].period,
            d,
        )
}

/// Of a series in date order the returns come in order of their periods, each
/// period once.
pub proof fn law_each_period_is_returned_once(nav: Seq<NavPoint>, unit: Period, i: int, j: int)
    requires
        forall|k: int| 0 <= k < nav.len() ==> crate::date::day_exists((#[trigger] nav[k]).date@),
        forall|a: int, b: int|
            0 <= a < b < nav.len() ==> (#[trigger] nav[a]).date.number() <= (
            #[trigger] nav[b]).date.number(),
        0 <= i < j < by_period(nav, unit).len(),
    ensures
        by_period(nav, unit)[i].year * 100 + by_period(nav, unit)[i].period < by_period(
            nav,
            unit,
        )[j].year * 100 + by_period(nav, unit)[j].period,
{
    lemma_ends_are_last(nav, unit);
    assert(place_of(ends(nav, unit)[i]) < place_of(ends(nav, unit)[j]));
}

/// Of a series in date order, every return ends with the last figure dated
/// within its period, and every point has a return of its period.
pub proof fn law_a_return_ends_with_the_last_figure_of_its_period(
    nav: Seq<NavPoint>,
    unit: Period,
    i: int,
)
    requires
        forall|k: int| 0 <= k < nav.len() ==> crate::date::day_exists((#[trigger] nav[k]).date@),
        forall|a: int, b: int|
            0 <= a < b < nav.len() ==> (#[trigger] nav[a]).date.number() <= (
            #[trigger] nav[b]).date.number(),
        0 <= i < nav.len(),
    ensures
        i < by_period(nav, unit).len() ==> last_within(nav, unit, by_period(nav, unit)[i]),
        returned(by_period(nav, unit), unit, nav[i].date),
{
    lemma_ends_are_last(nav, unit);
    lemma_last_end(nav, unit);
    let all = ends(nav, unit);
    let out = by_period(nav, unit);
    assert forall|j: int| 0 <= j < out.len() implies (#[trigger] out[j]).year == all[j].year
        && out[j].period == all[j].period && out[j].to == all[j].value by {}
    if i < out.len() {
        assert(last_of(nav, unit, all[i]));
        let k = choose|k: int|
            0 <= k < nav.len() && falls_within(
                unit,
                all[i].year,
                all[i].period,
                (#[trigger] nav[k]).date,
            ) && nav[k].value == all[i].value && forall|j: int|
                k < j < nav.len() ==> !falls_within(
                    unit,
                    all[i].year,
                    all[i].period,
                    (#[trigger] nav[j]).date,
                );
        assert(falls_within(unit, out[i].year, out[i].period, nav[k].date));
    }
    assert(has_end(all, unit, nav[i].date));
    let j = choose|j: int|
        0 <= j < all.len() && falls_within(
            unit,
            (#[trigger] all[j]).year,
            all[j].period,
            nav[i].date,
        );
    assert(falls_within(unit, out[j].year, out[j].period, nav[i].date));
}

/// Whether an end carries the figure of the last point of its period.
spec fn last_of(nav: Seq<NavPoint>, unit: Period, e: PeriodEnd) -> bool {
    exists|k: int|
        0 <= k < nav.len() && falls_within(unit, e.year, e.period, (#[trigger] nav[k]).date)
            && nav[k].value == e.value && forall|j: int|
            k < j < nav.len() ==> !falls_within(unit, e.year, e.period, (#[trigger] nav[j]).date)
}

/// Whether some end is of the period of a day.
spec fn has_end(all: Seq<PeriodEnd>, unit: Period, d: Date) -> bool {
    exists|i: int|
        0 <= i < all.len() && falls_within(unit, (#[trigger] all[i]).year, all[i].period, d)
}

/// Days of one period are of no other, and a later day is of no earlier period
/// than one before it.
proof fn lemma_one_period(unit: Period, x: Date, y: Date, year: i32, period: u32)
    requires
        crate::date::day_exists(x@),
        crate::date::day_exists(y@),
    ensures
        falls_within(unit, x@.year as i32, unit.index_of(x) as u32, x),
        falls_within(unit, year, period, x) ==> year == x@.year && period == unit.index_of(x),
{
}

/// Where a period stands in time.
spec fn place_of(e: PeriodEnd) -> int {
    e.year * 100 + e.period
}

/// A later day is of no earlier period.
proof fn lemma_periods_in_order(unit: Period, x: Date, y: Date)
    requires
        crate::date::day_exists(x@),
        crate::date::day_exists(y@),
        x.number() <= y.number(),
    ensures
        x@.year * 100 + unit.index_of(x) <= y@.year * 100 + unit.index_of(y),
{
    crate::date::law_day_numbers_follow_the_calendar(x@, y@);
    crate::date::law_day_numbers_follow_the_calendar(y@, x@);
}

/// What holds of the ends of a series in date order.
proof fn lemma_ends_are_last(nav: Seq<NavPoint>, unit: Period)
    requires
        forall|k: int| 0 <= k < nav.len() ==> crate::date::day_exists((#[trigger] nav[k]).date@),
        forall|a: int, b: int|
            0 <= a < b < nav.len() ==> (#[trigger] nav[a]).date.number() <= (
            #[trigger] nav[b]).date.number(),
    ensures
        forall|i: int| 0 <= i < ends(nav, unit).len() ==> last_of(nav, unit, #[trigger] ends(nav, unit)[i]),
        forall|k: int| 0 <= k < nav.len() ==> has_end(ends(nav, unit), unit, (#[trigger] nav[k]).date),
        nav.len() > 0 ==> ends(nav, unit).len() > 0 && ends(nav, unit).last().year
            == nav.last().date@.year && ends(nav, unit).last().period == unit.index_of(
            nav.last().date,
        ),
        forall|i: int, j: int|
            0 <= i < j < ends(nav, unit).len() ==> place_of(#[trigger] ends(nav, unit)[i])
                < place_of(#[trigger] ends(nav, unit)[j]),
    decreases nav.len(),
{
    if nav.len() > 0 {
        let rest = nav.drop_last();
        let n = nav.len() - 1;
        assert forall|k: int| 0 <= k < rest.len() implies crate::date::day_exists(
            (#[trigger] rest[k]).date@,
        ) by {
            assert(nav[k] == rest[k]);
        }
        assert forall|a: int, b: int| 0 <= a < b < rest.len() implies (
        #[trigger] rest[a]).date.number() <= (#[trigger] rest[b]).date.number() by {
            assert(nav[a] == rest[a] && nav[b] == rest[b]);
        }
        lemma_ends_are_last(rest, unit);
        let earlier = ends(rest, unit);
        let all = ends(nav, unit);
        let p = nav.last();
        assert(p == nav[n]);
        assert(crate::date::day_exists(p.date@));
        let m = all.len() - 1;
        lemma_one_period(unit, p.date, p.date, all[m].year, all[m].period);
        if rest.len() > 0 {
            assert(rest.last() == nav[n - 1]);
            lemma_periods_in_order(unit, nav[n - 1].date, p.date);
        }
        assert forall|i: int, j: int| 0 <= i < j < all.len() implies place_of(#[trigger] all[i])
            < place_of(#[trigger] all[j]) by {
            assert(all[i] == earlier[i]);
            if j < earlier.len() {
                assert(place_of(earlier[i]) < place_of(earlier[j]));
                if j < m {
                    assert(all[j] == earlier[j]);
                }
            } else {
                assert(i <= earlier.len() - 1);
                if i < earlier.len() - 1 {
                    assert(place_of(earlier[i]) < place_of(earlier[earlier.len() - 1]));
                }
            }
        }
        assert forall|i: int| 0 <= i < all.len() implies last_of(nav, unit, #[trigger] all[i]) by {
            if i == m {
                assert(falls_within(unit, all[m].year, all[m].period, nav[n].date));
            } else {
                assert(all[i] == earlier[i]);
                assert(last_of(rest, unit, earlier[i]));
                let e = earlier[i];
                let k = choose|k: int|
                    0 <= k < rest.len() && falls_within(
                        unit,
                        e.year,
                        e.period,
                        (#[trigger] rest[k]).date,
                    ) && rest[k].value == e.value && forall|j: int|
                        k < j < rest.len() ==> !falls_within(
                            unit,
                            e.year,
                            e.period,
                            (#[trigger] rest[j]).date,
                        );
                assert(nav[k] == rest[k]);
                lemma_one_period(unit, nav[k].date, p.date, e.year, e.period);
                lemma_one_period(unit, p.date, p.date, e.year, e.period);
                assert(place_of(all[i]) < place_of(all[m]));
                assert forall|j: int| k < j < nav.len() implies !falls_within(
                    unit,
                    e.year,
                    e.period,
                    (#[trigger] nav[j]).date,
                ) by {
                    if j < n {
                        assert(rest[j] == nav[j]);
                    }
                }
            }
        }
        assert forall|k: int| 0 <= k < nav.len() implies has_end(
            all,
            unit,
            (#[trigger] nav[k]).date,
        ) by {
            if k == n {
                assert(falls_within(unit, all[m].year, all[m].period, nav[n].date));
            } else {
                assert(nav[k] == rest[k]);
                assert(has_end(earlier, unit, rest[k].date));
                let i = choose|i: int|
                    0 <= i < earlier.len() && falls_within(
                        unit,
                        (#[trigger] earlier[i]).year,
                        earlier[i].period,
                        rest[k].date,
                    );
                if i < m {
                    assert(all[i] == earlier[i]);
                } else {
                    assert(all[i].year == earlier[i].year && all[i].period == earlier[i].period);
                }
            }
        }
    }
}

/// One more point sets the end of its period: it takes the place of the last end
/// where that is of the same year and period, and adds one where it is not.
pub proof fn law_one_more_point_sets_the_end_of_its_period(
    nav: Seq<NavPoint>,
    unit: Period,
    p: NavPoint,
)
    requires
        crate::date::day_exists(p.date@),
    ensures
        ({
            let was = ends(nav, unit);
            let now = ends(nav.push(p), unit);
            let same = was.len() > 0 && was.last().year == p.date@.year && was.last().period
                == unit.index_of(p.date);
            &&& now.last().year == p.date@.year && now.last().period == unit.index_of(p.date)
            &&& now.last().value == p.value
            &&& now.drop_last() == if same {
                was.drop_last()
            } else {
                was
            }
        }),
        by_period(nav.push(p), unit).len() == ends(nav.push(p), unit).len(),
        forall|i: int|
            0 <= i < ends(nav.push(p), unit).len() ==> (#[trigger] by_period(nav.push(p), unit)[i]).to
                == ends(nav.push(p), unit)[i].value && by_period(nav.push(p), unit)[i].year == ends(
                nav.push(p),
                unit,
            )[i].year && by_period(nav.push(p), unit)[i].period == ends(
                nav.push(p),
                unit,
            )[i].period,
{
    assert(nav.push(p).drop_last() =~= nav);
    let was = ends(nav, unit);
    let now = ends(nav.push(p), unit);
    if was.len() > 0 && in_period(unit, was.last(), p.date) {
        assert(now.drop_last() =~= was.drop_last());
    } else {
        assert(now.drop_last() =~= was);
    }
}

} // verus!
