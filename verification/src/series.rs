//! NAV series and the steps that daily returns are taken over.

use crate::date::Date;
use crate::number::Number;
use vstd::prelude::*;

verus! {

/// A dated figure.
#[derive(Debug, Clone, Copy, PartialEq, Eq, Structural)]
pub struct NavPoint {
    pub date: Date,
    pub value: Number,
}

/// A dated move from one figure to another. Its return is `to / from - 1`.
#[derive(Debug, Clone, Copy, PartialEq, Eq, Structural)]
pub struct Change {
    pub date: Date,
    pub from: Number,
    pub to: Number,
}

/// The moves between neighbours of a series, those from zero or less left out.
pub open spec fn daily(nav: Seq<NavPoint>) -> Seq<Change>
    decreases nav.len(),
{
    if nav.len() < 2 {
        Seq::empty()
    } else {
        let earlier = daily(nav.drop_last());
        let before = nav[nav.len() - 2];
        if before.value.positive() {
            earlier.push(
                Change { date: nav.last().date, from: before.value, to: nav.last().value },
            )
        } else {
            earlier
        }
    }
}

/// The steps of daily simple returns. A step is dated at the later
/// observation. Zero/negative previous NAV rows are skipped (cannot produce a
/// meaningful return).
pub fn daily_returns(nav: &[NavPoint]) -> (r: Vec<Change>)
    ensures
        r@ == daily(nav@),
{
    let mut out: Vec<Change> = Vec::new();
    if nav.len() == 0 {
        return out;
    }
    for i in 1..nav.len()
        invariant
            nav@.len() > 0,
            out@ == daily(nav@.take(i as int)),
    {
        proof {
            assert(nav@.take(i + 1).drop_last() =~= nav@.take(i as int));
        }
        if nav[i - 1].value.is_positive() {
            out.push(Change { date: nav[i].date, from: nav[i - 1].value, to: nav[i].value });
        }
    }
    assert(nav@.take(nav@.len() as int) =~= nav@);
    out
}

/// Every step starts from a figure above zero, and there are fewer steps than
/// points.
pub proof fn law_returns_are_taken_from_positive_figures(nav: Seq<NavPoint>)
    ensures
        forall|i: int| 0 <= i < daily(nav).len() ==> (#[trigger] daily(nav)[i]).from.positive(),
        nav.len() > 0 ==> daily(nav).len() < nav.len(),
    decreases nav.len(),
{
    if nav.len() >= 2 {
        law_returns_are_taken_from_positive_figures(nav.drop_last());
    }
}

/// A series above zero has a step for every point but the first, each from the
/// point before it.
pub proof fn law_a_positive_series_has_every_step(nav: Seq<NavPoint>)
    requires
        nav.len() > 0,
        forall|i: int| 0 <= i < nav.len() ==> (#[trigger] nav[i]).value.positive(),
    ensures
        daily(nav) == Seq::new(
            (nav.len() - 1) as nat,
            |i: int| Change { date: nav[i + 1].date, from: nav[i].value, to: nav[i + 1].value },
        ),
    decreases nav.len(),
{
    let all = Seq::new(
        (nav.len() - 1) as nat,
        |i: int| Change { date: nav[i + 1].date, from: nav[i].value, to: nav[i + 1].value },
    );
    if nav.len() >= 2 {
        law_a_positive_series_has_every_step(nav.drop_last());
    }
    assert(daily(nav) =~= all);
}

/// Whether a step leads from one point of a series to the next.
pub open spec fn steps_between(nav: Seq<NavPoint>, k: int, c: Change) -> bool {
    0 <= k < nav.len() - 1 && c.date == nav[k + 1].date && c.from == nav[k].value && c.to == nav[k
        + 1].value
}

/// Every step leads from a point above zero to the very next, dated at the
/// later of the two.
pub proof fn law_a_step_leads_to_the_next_point(nav: Seq<NavPoint>, i: int)
    requires
        0 <= i < daily(nav).len(),
    ensures
        exists|k: int| #[trigger]
            steps_between(nav, k, daily(nav)[i]) && nav[k].value.positive(),
    decreases nav.len(),
{
    if nav.len() >= 2 {
        let rest = nav.drop_last();
        let earlier = daily(rest);
        if i < earlier.len() {
            law_a_step_leads_to_the_next_point(rest, i);
            let k = choose|k: int| #[trigger]
                steps_between(rest, k, earlier[i]) && rest[k].value.positive();
            assert(steps_between(nav, k, daily(nav)[i]) && nav[k].value.positive());
        } else {
            assert(steps_between(nav, nav.len() - 2, daily(nav)[i]));
        }
    }
}

/// Every point above zero that another follows has its step.
pub proof fn law_every_point_above_zero_has_its_step(nav: Seq<NavPoint>, k: int)
    requires
        0 <= k < nav.len() - 1,
        nav[k].value.positive(),
    ensures
        daily(nav).contains(
            Change { date: nav[k + 1].date, from: nav[k].value, to: nav[k + 1].value },
        ),
    decreases nav.len(),
{
    let c = Change { date: nav[k + 1].date, from: nav[k].value, to: nav[k + 1].value };
    let rest = nav.drop_last();
    let earlier = daily(rest);
    let all = daily(nav);
    if k < nav.len() - 2 {
        law_every_point_above_zero_has_its_step(rest, k);
        let i = earlier.index_of(c);
        assert(all[i] == c);
    } else {
        assert(all[all.len() - 1] == c);
    }
}

/// One more point adds one step at most, from the point before it where that is
/// above zero.
pub proof fn law_one_more_point_adds_one_step(nav: Seq<NavPoint>, p: NavPoint)
    ensures
        nav.len() == 0 || !nav.last().value.positive() ==> daily(nav.push(p)) == daily(nav),
        nav.len() > 0 && nav.last().value.positive() ==> daily(nav.push(p)) == daily(nav).push(
            Change { date: p.date, from: nav.last().value, to: p.value },
        ),
{
    assert(nav.push(p).drop_last() =~= nav);
    if nav.len() == 0 {
        assert(daily(nav.push(p)) =~= daily(nav));
    }
}

} // verus!
