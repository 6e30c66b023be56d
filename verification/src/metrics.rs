//! Performance to date, and the windows of rolling measures.

use crate::date::Date;
use crate::number::Number;
use crate::series::{Change, NavPoint};
use vstd::prelude::*;

verus! {

/// The last point of a series that is dated on or before a day.
pub open spec fn last_until(nav: Seq<NavPoint>, as_of: Date) -> Option<NavPoint>
    decreases nav.len(),
{
    if nav.len() == 0 {
        None
    } else if nav.last().date.number() <= as_of.number() {
        Some(nav.last())
    } else {
        last_until(nav.drop_last(), as_of)
    }
}

/// The last point of a series that is dated in a year before another.
pub open spec fn last_before_year(nav: Seq<NavPoint>, year: int) -> Option<NavPoint>
    decreases nav.len(),
{
    if nav.len() == 0 {
        None
    } else if nav.last().date@.year < year {
        Some(nav.last())
    } else {
        last_before_year(nav.drop_last(), year)
    }
}

/// What a year's performance is measured from: the last close of an earlier
/// year, or the first point of the series.
pub open spec fn year_base(nav: Seq<NavPoint>, as_of: Date) -> Number {
    match last_before_year(nav, as_of@.year) {
        Some(p) => p.value,
        None => nav[0].value,
    }
}

/// The move of the year to date: from the latest close of a prior year, or from
/// inception, to the latest point on or before the day. None before the series
/// begins, or where the base is zero or less.
pub fn ytd_performance(nav: &[NavPoint], as_of: Date) -> (r: Option<Change>)
    ensures
        r == (match last_until(nav@, as_of) {
            None => None,
            Some(last) => if year_base(nav@, as_of).at_most(Number { bits: 0 }) {
                None
            } else {
                Some(Change { date: last.date, from: year_base(nav@, as_of), to: last.value })
            },
        }),
{
    let last = match find_until(nav, as_of) {
        None => {
            return None;
        },
        Some(p) => p,
    };
    proof {
        lemma_some_means_points(nav@, as_of);
    }
    let base = match find_before_year(nav, as_of) {
        Some(p) => p.value,
        None => nav[0].value,
    };
    if base.is_at_most(&Number::zero()) {
        return None;
    }
    Some(Change { date: last.date, from: base, to: last.value })
}

proof fn lemma_some_means_points(nav: Seq<NavPoint>, as_of: Date)
    requires
        last_until(nav, as_of) is Some,
    ensures
        nav.len() > 0,
{
}

fn find_until(nav: &[NavPoint], as_of: Date) -> (r: Option<NavPoint>)
    ensures
        r == last_until(nav@, as_of),
{
    let mut i: usize = nav.len();
    assert(nav@.take(i as int) =~= nav@);
    while i > 0
        invariant
            i <= nav@.len(),
            last_until(nav@, as_of) == last_until(nav@.take(i as int), as_of),
        decreases i,
    {
        proof {
            assert(nav@.take(i as int).drop_last() =~= nav@.take(i - 1));
        }
        i = i - 1;
        if !as_of.is_before(&nav[i].date) {
            return Some(nav[i]);
        }
    }
    None
}

fn find_before_year(nav: &[NavPoint], as_of: Date) -> (r: Option<NavPoint>)
    ensures
        r == last_before_year(nav@, as_of@.year),
{
    let year: i32 = as_of.year();
    let mut i: usize = nav.len();
    assert(nav@.take(i as int) =~= nav@);
    while i > 0
        invariant
            i <= nav@.len(),
            year == as_of@.year,
            last_before_year(nav@, as_of@.year) == last_before_year(
                nav@.take(i as int),
                as_of@.year,
            ),
        decreases i,
    {
        proof {
            assert(nav@.take(i as int).drop_last() =~= nav@.take(i - 1));
        }
        i = i - 1;
        if nav[i].date.year() < year {
            return Some(nav[i]);
        }
    }
    None
}

/// A stretch of rows, from `start` up to but not including `end`.
#[derive(Debug, Clone, Copy, PartialEq, Eq, Structural)]
pub struct Span {
    pub start: usize,
    pub end: usize,
}

/// The windows of a rolling measure over so many returns. Each output is dated
/// at the last return of its window. A window of fewer than two returns, or of
/// more than there are, gives none.
pub fn rolling(count: usize, window: usize) -> (r: Vec<Span>)
    ensures
        window < 2 || count < window ==> r@.len() == 0,
        window >= 2 && count >= window ==> r@ == Seq::new(
            (count - window + 1) as nat,
            |i: int| Span { start: i as usize, end: (i + window) as usize },
        ),
{
    let mut out: Vec<Span> = Vec::new();
    if window < 2 || count < window {
        return out;
    }
    let mut start: usize = 0;
    while start < count - window
        invariant
            2 <= window <= count,
            start <= count - window,
            out@ =~= Seq::new(
                start as nat,
                |i: int| Span { start: i as usize, end: (i + window) as usize },
            ),
        decreases count - start,
    {
        out.push(Span { start, end: start + window });
        start = start + 1;
    }
    out.push(Span { start, end: start + window });
    out
}

/// In a series in date order, performance to date is measured to the latest
/// point not after the day, and from a point of an earlier year where there is
/// one.
pub proof fn law_performance_to_date_uses_the_latest_points(nav: Seq<NavPoint>, as_of: Date)
    requires
        forall|i: int, j: int|
            0 <= i < j < nav.len() ==> (#[trigger] nav[i]).date.number() <= (
            #[trigger] nav[j]).date.number(),
    ensures
        match last_until(nav, as_of) {
            None => forall|i: int|
                0 <= i < nav.len() ==> (#[trigger] nav[i]).date.number() > as_of.number(),
            Some(p) => nav.contains(p) && p.date.number() <= as_of.number() && forall|i: int|
                0 <= i < nav.len() && (#[trigger] nav[i]).date.number() <= as_of.number()
                    ==> nav[i].date.number() <= p.date.number(),
        },
        match last_before_year(nav, as_of@.year) {
            None => forall|i: int|
                0 <= i < nav.len() ==> (#[trigger] nav[i]).date@.year >= as_of@.year,
            Some(p) => nav.contains(p) && p.date@.year < as_of@.year,
        },
    decreases nav.len(),
{
    if nav.len() > 0 {
        let rest = nav.drop_last();
        assert forall|i: int, j: int| 0 <= i < j < rest.len() implies (
        #[trigger] rest[i]).date.number() <= (#[trigger] rest[j]).date.number() by {
            assert(nav[i].date.number() <= nav[j].date.number());
        }
        law_performance_to_date_uses_the_latest_points(rest, as_of);
        assert(nav[nav.len() - 1] == nav.last());
        assert forall|i: int| 0 <= i < rest.len() implies nav[i] == #[trigger] rest[i] by {}
        if let Some(p) = last_until(rest, as_of) {
            assert(nav[rest.index_of(p)] == p);
        }
        if let Some(p) = last_before_year(rest, as_of@.year) {
            assert(nav[rest.index_of(p)] == p);
        }
        assert forall|i: int| 0 <= i < nav.len() implies i == nav.len() - 1 || (
        #[trigger] nav[i]) == rest[i] by {}
    }
}

/// In a series in date order the year's performance is measured from the latest
/// figure of any earlier year, or from the first figure where there is none.
pub proof fn law_a_year_is_measured_from_the_last_close_before_it(nav: Seq<NavPoint>, as_of: Date)
    requires
        nav.len() > 0,
        forall|i: int, j: int|
            0 <= i < j < nav.len() ==> (#[trigger] nav[i]).date.number() <= (
            #[trigger] nav[j]).date.number(),
    ensures
        (forall|i: int| 0 <= i < nav.len() ==> (#[trigger] nav[i]).date@.year >= as_of@.year)
            ==> year_base(nav, as_of) == nav[0].value,
        (exists|i: int| 0 <= i < nav.len() && (#[trigger] nav[i]).date@.year < as_of@.year)
            ==> exists|k: int|
            0 <= k < nav.len() && (#[trigger] nav[k]).date@.year < as_of@.year && nav[k].value
                == year_base(nav, as_of) && forall|j: int|
                k < j < nav.len() ==> (#[trigger] nav[j]).date@.year >= as_of@.year,
{
    lemma_last_before_year(nav, as_of@.year);
}

proof fn lemma_last_before_year(nav: Seq<NavPoint>, year: int)
    ensures
        match last_before_year(nav, year) {
            None => forall|i: int| 0 <= i < nav.len() ==> (#[trigger] nav[i]).date@.year >= year,
            Some(p) => exists|k: int|
                0 <= k < nav.len() && #[trigger] nav[k] == p && p.date@.year < year && forall|j: int|
                    k < j < nav.len() ==> (#[trigger] nav[j]).date@.year >= year,
        },
    decreases nav.len(),
{
    if nav.len() > 0 {
        let rest = nav.drop_last();
        let n = nav.len() - 1;
        assert(nav.last() == nav[n]);
        lemma_last_before_year(rest, year);
        if nav.last().date@.year >= year {
            match last_before_year(rest, year) {
                None => {
                    assert forall|i: int| 0 <= i < nav.len() implies (
                    #[trigger] nav[i]).date@.year >= year by {
                        if i < n {
                            assert(rest[i] == nav[i]);
                        }
                    }
                },
                Some(p) => {
                    let k = choose|k: int|
                        0 <= k < rest.len() && #[trigger] rest[k] == p && p.date@.year < year
                            && forall|j: int|
                            k < j < rest.len() ==> (#[trigger] rest[j]).date@.year >= year;
                    assert(nav[k] == p);
                    assert forall|j: int| k < j < nav.len() implies (
                    #[trigger] nav[j]).date@.year >= year by {
                        if j < n {
                            assert(rest[j] == nav[j]);
                        }
                    }
                },
            }
        }
    }
}

/// Performance to date is measured to the last point of the series that is not
/// dated after the day.
pub proof fn law_performance_is_measured_to_the_last_point_until_the_day(
    nav: Seq<NavPoint>,
    as_of: Date,
)
    ensures
        match last_until(nav, as_of) {
            None => forall|i: int|
                0 <= i < nav.len() ==> (#[trigger] nav[i]).date.number() > as_of.number(),
            Some(p) => exists|k: int|
                0 <= k < nav.len() && #[trigger] nav[k] == p && p.date.number() <= as_of.number()
                    && forall|j: int|
                    k < j < nav.len() ==> (#[trigger] nav[j]).date.number() > as_of.number(),
        },
    decreases nav.len(),
{
    if nav.len() > 0 {
        let rest = nav.drop_last();
        let n = nav.len() - 1;
        assert(nav.last() == nav[n]);
        law_performance_is_measured_to_the_last_point_until_the_day(rest, as_of);
        if nav.last().date.number() > as_of.number() {
            match last_until(rest, as_of) {
                None => {
                    assert forall|i: int| 0 <= i < nav.len() implies (
                    #[trigger] nav[i]).date.number() > as_of.number() by {
                        if i < n {
                            assert(rest[i] == nav[i]);
                        }
                    }
                },
                Some(p) => {
                    let k = choose|k: int|
                        0 <= k < rest.len() && #[trigger] rest[k] == p && p.date.number()
                            <= as_of.number() && forall|j: int|
                            k < j < rest.len() ==> (#[trigger] rest[j]).date.number()
                                > as_of.number();
                    assert(nav[k] == p);
                    assert forall|j: int| k < j < nav.len() implies (
                    #[trigger] nav[j]).date.number() > as_of.number() by {
                        if j < n {
                            assert(rest[j] == nav[j]);
                        }
                    }
                },
            }
        }
    }
}

} // verus!
