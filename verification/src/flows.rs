//! Observed subscription and redemption history.
//!
//! Windows count *loaded observations*, not calendar days: a day that was
//! never uploaded is simply absent, which is honest about what the history
//! actually contains. These numbers inform the configured shock; they never
//! set it.

use crate::date::Date;
use crate::metrics::Span;
use crate::number::{Number, SIGN_BIT};
use crate::order::stable_order;
use vstd::prelude::*;

verus! {

/// Below this, the statistics are reported as unavailable with the count
/// rather than computed from too little history.
pub const MIN_FLOW_OBSERVATIONS: usize = 20;

/// The windows that are looked at, in observations.
pub open spec fn windows() -> Seq<u32> {
    seq![1u32, 5u32, 20u32]
}

/// The windows that are looked at, in observations.
pub fn flow_windows() -> (r: Vec<u32>)
    ensures
        r@ == windows(),
{
    let r: Vec<u32> = vec![1, 5, 20];
    assert(r@ =~= windows());
    r
}

/// The flows of one day.
#[derive(Debug, Clone, Copy, PartialEq, Eq, Structural)]
pub struct FlowObs {
    pub date: Date,
    /// Subscriptions less redemptions, both as magnitudes.
    pub net_eur: Number,
    /// Fund net assets on that date.
    pub nav_eur: Number,
}

/// The worst outflow over one window.
#[derive(Debug, Clone, Copy, PartialEq, Eq, Structural)]
pub struct WorstOutflow {
    pub window: u32,
    /// Positive fraction of NAV. Zero when the window never saw a net outflow.
    pub pct_of_nav: Number,
}

/// What the history shows.
#[derive(Debug)]
pub struct FlowStats {
    pub n_observations: usize,
    pub from: Date,
    pub to: Date,
    pub worst: Vec<WorstOutflow>,
}

/// One window: the stretches of observations, in date order, that it is
/// measured over.
#[derive(Debug)]
pub struct FlowWindow {
    pub window: u32,
    pub spans: Vec<Span>,
}

/// The observations in date order, and the stretches to measure.
#[derive(Debug)]
pub struct FlowPlan {
    pub order: Vec<usize>,
    pub windows: Vec<FlowWindow>,
}

/// The days of some observations, by which they are ordered.
pub open spec fn date_keys(obs: Seq<FlowObs>) -> Seq<int> {
    obs.map_values(|o: FlowObs| o.date.number())
}

/// Whether a stretch can be measured against net assets.
pub open spec fn measurable(nav: Number) -> bool {
    nav.finite() && nav.positive()
}

/// The stretches of a window that start at one of the first `m` observations.
/// Each is measured against the net assets it opened with.
pub open spec fn spans_from(obs: Seq<FlowObs>, order: Seq<usize>, window: int, m: int) -> Seq<Span>
    decreases m,
{
    if m <= 0 {
        Seq::empty()
    } else {
        let earlier = spans_from(obs, order, window, m - 1);
        if measurable(obs[order[m - 1] as int].nav_eur) {
            earlier.push(Span { start: (m - 1) as usize, end: (m - 1 + window) as usize })
        } else {
            earlier
        }
    }
}

/// Whether a plan is the one of some observations.
pub open spec fn plans(plan: FlowPlan, obs: Seq<FlowObs>) -> bool {
    &&& crate::order::in_order(date_keys(obs), plan.order@)
    &&& plan.windows@.len() == windows().len()
    &&& forall|k: int|
        0 <= k < windows().len() ==> (#[trigger] plan.windows@[k]).window == windows()[k]
            && plan.windows@[k].spans@ == spans_from(
            obs,
            plan.order@,
            windows()[k] as int,
            obs.len() - windows()[k] + 1,
        )
}

/// The observations in date order, and for each window the stretches to
/// measure: all that open on positive net assets. None with too little
/// history.
pub fn flow_plan(obs: &[FlowObs]) -> (r: Option<FlowPlan>)
    ensures
        r is None <==> obs@.len() < MIN_FLOW_OBSERVATIONS,
        r matches Some(plan) ==> plans(plan, obs@),
{
    if obs.len() < MIN_FLOW_OBSERVATIONS {
        return None;
    }
    let mut keys: Vec<i64> = Vec::new();
    for i in 0..obs.len()
        invariant
            keys@.len() == i,
            forall|k: int| 0 <= k < i ==> (#[trigger] keys@[k]) == obs@[k].date.number(),
    {
        keys.push(obs[i].date.day_count() as i64);
    }
    assert(crate::order::as_ints(keys@) =~= date_keys(obs@));
    let order = stable_order(&keys);
    let sizes = flow_windows();
    let mut found: Vec<FlowWindow> = Vec::new();
    for k in 0..sizes.len()
        invariant
            obs@.len() >= MIN_FLOW_OBSERVATIONS,
            crate::order::in_order(date_keys(obs@), order@),
            sizes@ == windows(),
            found@.len() == k,
            forall|j: int|
                0 <= j < k ==> (#[trigger] found@[j]).window == windows()[j]
                    && found@[j].spans@ == spans_from(
                    obs@,
                    order@,
                    windows()[j] as int,
                    obs@.len() - windows()[j] + 1,
                ),
    {
        let window: u32 = sizes[k];
        let spans = spans_of(obs, &order, window as usize);
        found.push(FlowWindow { window, spans });
    }
    Some(FlowPlan { order, windows: found })
}

/// The stretches of one window.
fn spans_of(obs: &[FlowObs], order: &Vec<usize>, window: usize) -> (r: Vec<Span>)
    requires
        1 <= window <= obs@.len(),
        crate::order::in_order(date_keys(obs@), order@),
    ensures
        r@ == spans_from(obs@, order@, window as int, obs@.len() - window + 1),
{
    let mut spans: Vec<Span> = Vec::new();
    let mut start: usize = 0;
    while start <= obs.len() - window
        invariant
            1 <= window <= obs@.len(),
            crate::order::in_order(date_keys(obs@), order@),
            start <= obs@.len() - window + 1,
            spans@ == spans_from(obs@, order@, window as int, start as int),
        decreases obs@.len() - start,
    {
        let nav = obs[order[start]].nav_eur;
        if nav.is_finite() && nav.is_positive() {
            spans.push(Span { start, end: start + window });
        }
        start = start + 1;
    }
    spans
}

/// The lowest of zero and some ratios.
pub open spec fn lowest(ratios: Seq<Number>) -> Number
    decreases ratios.len(),
{
    if ratios.len() == 0 {
        Number { bits: 0 }
    } else {
        let earlier = lowest(ratios.drop_last());
        if ratios.last().below(earlier) {
            ratios.last()
        } else {
            earlier
        }
    }
}

/// The worst of some ratios as a positive fraction; positive zero where none
/// is below zero.
pub open spec fn outflow(ratios: Seq<Number>) -> Number {
    if lowest(ratios).negative() {
        lowest(ratios).turned()
    } else {
        Number { bits: 0 }
    }
}

/// The worst of some ratios as a positive fraction. A history that never sees
/// a net outflow yields positive zero, never negative zero.
pub fn worst_outflow(ratios: &[Number]) -> (r: Number)
    ensures
        r == outflow(ratios@),
{
    let mut worst = Number::zero();
    for i in 0..ratios.len()
        invariant
            worst == lowest(ratios@.take(i as int)),
    {
        proof {
            assert(ratios@.take(i + 1).drop_last() =~= ratios@.take(i as int));
        }
        if ratios[i].is_below(&worst) {
            worst = ratios[i];
        }
    }
    assert(ratios@.take(ratios@.len() as int) =~= ratios@);
    if worst.is_negative() {
        worst.negated()
    } else {
        Number::zero()
    }
}

/// Whether a day is that of some observation.
pub open spec fn observed(obs: Seq<FlowObs>, day: Date) -> bool {
    exists|i: int| 0 <= i < obs.len() && (#[trigger] obs[i]).date == day
}

/// Whether statistics are those of some observations and ratios: from the first
/// day to the last, and the worst of each window.
pub open spec fn shows(s: FlowStats, obs: Seq<FlowObs>, ratios: Seq<Vec<Number>>) -> bool {
    &&& s.n_observations == obs.len()
    &&& observed(obs, s.from)
    &&& observed(obs, s.to)
    &&& forall|i: int|
        0 <= i < obs.len() ==> s.from.number() <= (#[trigger] obs[i]).date.number()
            <= s.to.number()
    &&& s.worst@.len() == windows().len()
    &&& forall|k: int|
        0 <= k < windows().len() ==> (#[trigger] s.worst@[k]).window == windows()[k]
            && s.worst@[k].pct_of_nav == outflow(ratios[k]@)
}

/// What the history shows. `ratios` holds for each window the ratios of its
/// stretches: the net flow over the net assets at the start.
pub fn flow_stats(obs: &[FlowObs], ratios: &[Vec<Number>]) -> (r: Option<FlowStats>)
    requires
        ratios@.len() == windows().len(),
    ensures
        r is None <==> obs@.len() < MIN_FLOW_OBSERVATIONS,
        r matches Some(s) ==> shows(s, obs@, ratios@),
{
    if obs.len() < MIN_FLOW_OBSERVATIONS {
        return None;
    }
    let mut from: usize = 0;
    let mut to: usize = 0;
    for i in 1..obs.len()
        invariant
            obs@.len() >= MIN_FLOW_OBSERVATIONS,
            from < i,
            to < i,
            forall|k: int|
                0 <= k < i ==> obs@[from as int].date.number() <= (#[trigger] obs@[k]).date.number()
                    <= obs@[to as int].date.number(),
    {
        if obs[i].date.is_before(&obs[from].date) {
            from = i;
        }
        if obs[to].date.is_before(&obs[i].date) {
            to = i;
        }
    }
    let sizes = flow_windows();
    let mut worst: Vec<WorstOutflow> = Vec::new();
    for k in 0..sizes.len()
        invariant
            sizes@ == windows(),
            ratios@.len() == windows().len(),
            worst@.len() == k,
            forall|j: int|
                0 <= j < k ==> (#[trigger] worst@[j]).window == windows()[j]
                    && worst@[j].pct_of_nav == outflow(ratios@[j]@),
    {
        worst.push(
            WorstOutflow { window: sizes[k], pct_of_nav: worst_outflow(ratios[k].as_slice()) },
        );
    }
    assert(observed(obs@, obs@[from as int].date) && observed(obs@, obs@[to as int].date));
    Some(FlowStats { n_observations: obs.len(), from: obs[from].date, to: obs[to].date, worst })
}

/// A reported outflow carries no sign, is no less than any outflow seen, and is
/// one of them, or zero where there is none.
pub proof fn law_an_outflow_is_reported_without_sign(ratios: Seq<Number>)
    ensures
        outflow(ratios).bits < SIGN_BIT,
        !outflow(ratios).nan(),
        forall|i: int|
            0 <= i < ratios.len() && (#[trigger] ratios[i]).negative()
                ==> ratios[i].turned().at_most(outflow(ratios)),
        outflow(ratios) == (Number { bits: 0 }) || exists|i: int|
            0 <= i < ratios.len() && (#[trigger] ratios[i]).negative() && outflow(ratios)
                == ratios[i].turned(),
{
    lemma_lowest(ratios);
}

proof fn lemma_lowest(ratios: Seq<Number>)
    ensures
        lowest(ratios).at_most(Number { bits: 0 }),
        lowest(ratios).bits == 0 || exists|i: int|
            0 <= i < ratios.len() && #[trigger] ratios[i] == lowest(ratios),
        forall|i: int|
            0 <= i < ratios.len() && !(#[trigger] ratios[i]).nan() ==> lowest(ratios).at_most(
                ratios[i],
            ),
    decreases ratios.len(),
{
    if ratios.len() > 0 {
        let rest = ratios.drop_last();
        lemma_lowest(rest);
        if lowest(ratios).bits != 0 {
            if lowest(ratios) == ratios.last() {
                assert(ratios[ratios.len() - 1] == lowest(ratios));
            } else {
                let i = choose|i: int| 0 <= i < rest.len() && #[trigger] rest[i] == lowest(rest);
                assert(ratios[i] == lowest(ratios));
            }
        }
        assert forall|i: int| 0 <= i < ratios.len() && !(#[trigger] ratios[i]).nan() implies lowest(
            ratios,
        ).at_most(ratios[i]) by {
            if i < rest.len() {
                assert(lowest(rest).at_most(rest[i]));
            }
        }
    }
}

/// Every stretch that opens on positive net assets is measured, once and in
/// order, and no other.
pub proof fn law_every_measurable_stretch_is_measured(
    obs: Seq<FlowObs>,
    order: Seq<usize>,
    window: int,
    m: int,
)
    requires
        1 <= window,
        0 <= m,
        m + window <= usize::MAX + 1,
    ensures
        forall|start: int|
            0 <= start < m && measurable(obs[(#[trigger] order[start]) as int].nav_eur)
                ==> spans_from(obs, order, window, m).contains(
                Span { start: start as usize, end: (start + window) as usize },
            ),
        forall|i: int|
            0 <= i < spans_from(obs, order, window, m).len() ==> ({
                let span = #[trigger] spans_from(obs, order, window, m)[i];
                &&& span.start < m
                &&& span.end == span.start + window
                &&& measurable(obs[order[span.start as int] as int].nav_eur)
            }),
        forall|i: int, j: int|
            0 <= i < j < spans_from(obs, order, window, m).len() ==> (#[trigger] spans_from(
                obs,
                order,
                window,
                m,
            )[i]).start < (#[trigger] spans_from(obs, order, window, m)[j]).start,
    decreases m,
{
    if m > 0 {
        law_every_measurable_stretch_is_measured(obs, order, window, m - 1);
        let earlier = spans_from(obs, order, window, m - 1);
        let all = spans_from(obs, order, window, m);
        assert forall|start: int|
            0 <= start < m && measurable(
                obs[(#[trigger] order[start]) as int].nav_eur,
            ) implies all.contains(
            Span { start: start as usize, end: (start + window) as usize },
        ) by {
            let span = Span { start: start as usize, end: (start + window) as usize };
            if start < m - 1 {
                assert(earlier.contains(span));
                let i = earlier.index_of(span);
                assert(all[i] == span);
            } else {
                assert(all[all.len() - 1] == span);
            }
        }
    }
}

/// The observations of a plan, in its order.
pub open spec fn ordered(obs: Seq<FlowObs>, order: Seq<usize>) -> Seq<FlowObs> {
    Seq::new(order.len(), |k: int| obs[order[k] as int])
}

/// Whether observations are of different days.
pub open spec fn different_days(obs: Seq<FlowObs>) -> bool {
    forall|i: int, j: int|
        0 <= i < j < obs.len() ==> (#[trigger] obs[i]).date.number() != (
        #[trigger] obs[j]).date.number()
}

/// Whether each observation is earlier than those after it.
spec fn ascending_days(s: Seq<FlowObs>) -> bool {
    forall|i: int, j: int|
        0 <= i < j < s.len() ==> (#[trigger] s[i]).date.number() < (#[trigger] s[j]).date.number()
}

/// Observations of different days come in strictly ascending order, and they
/// are all there.
proof fn lemma_ordered(obs: Seq<FlowObs>, order: Seq<usize>)
    requires
        obs.len() <= usize::MAX,
        different_days(obs),
        crate::order::in_order(date_keys(obs), order),
    ensures
        ordered(obs, order).len() == obs.len(),
        ascending_days(ordered(obs, order)),
        forall|o: FlowObs| ordered(obs, order).contains(o) <==> #[trigger] obs.contains(o),
{
    let s = ordered(obs, order);
    let keys = date_keys(obs);
    assert forall|i: int, j: int| 0 <= i < j < s.len() implies (#[trigger] s[i]).date.number() < (
    #[trigger] s[j]).date.number() by {
        assert(crate::order::precedes(keys, order[i] as int, order[j] as int));
        let (x, y) = (order[i] as int, order[j] as int);
        assert(keys[x] == obs[x].date.number() && keys[y] == obs[y].date.number());
        if x < y {
            assert(obs[x].date.number() != obs[y].date.number());
        }
    }
    assert forall|o: FlowObs| s.contains(o) <==> #[trigger] obs.contains(o) by {
        if s.contains(o) {
            let k = s.index_of(o);
            assert(order[k] < keys.len());
            assert(obs[order[k] as int] == o);
        }
        if obs.contains(o) {
            let x = obs.index_of(o);
            assert(order.contains(x as usize));
            let k = order.index_of(x as usize);
            assert(s[k] == o);
        }
    }
}

/// Two ascending lists of the same observations agree from the front on.
proof fn lemma_ascending_alike(a: Seq<FlowObs>, b: Seq<FlowObs>, n: int)
    requires
        ascending_days(a),
        ascending_days(b),
        forall|o: FlowObs| a.contains(o) <==> #[trigger] b.contains(o),
        0 <= n <= a.len(),
    ensures
        n <= b.len(),
        forall|i: int| 0 <= i < n ==> #[trigger] a[i] == b[i],
    decreases n,
{
    if n > 0 {
        lemma_ascending_alike(a, b, n - 1);
        let x = a[n - 1];
        assert(a.contains(x));
        assert(b.contains(x));
        let k = b.index_of(x);
        assert(b[k] == x);
        if k < n - 1 {
            assert(a[k] == b[k]);
            assert(a[k].date.number() < a[n - 1].date.number());
        }
        if k > n - 1 {
            let y = b[n - 1];
            assert(y.date.number() < x.date.number());
            assert(b.contains(y));
            assert(a.contains(y));
            let m = a.index_of(y);
            assert(a[m] == y);
            if m < n - 1 {
                assert(a[m] == b[m]);
                assert(b[m].date.number() < b[n - 1].date.number());
            } else if m > n - 1 {
                assert(a[n - 1].date.number() < a[m].date.number());
            }
        }
    }
}

/// The stretches depend on the ordered observations alone.
proof fn lemma_same_spans(
    a: Seq<FlowObs>,
    x: Seq<usize>,
    b: Seq<FlowObs>,
    y: Seq<usize>,
    window: int,
    m: int,
)
    requires
        ordered(a, x) == ordered(b, y),
        m <= x.len(),
    ensures
        spans_from(a, x, window, m) == spans_from(b, y, window, m),
    decreases m,
{
    if m > 0 {
        lemma_same_spans(a, x, b, y, window, m - 1);
        assert(ordered(a, x).len() == x.len() && ordered(b, y).len() == y.len());
        assert(ordered(a, x)[m - 1] == a[x[m - 1] as int]);
        assert(ordered(b, y)[m - 1] == b[y[m - 1] as int]);
    }
}

/// The order in which observations of different days come does not matter: put
/// into date order they are the same, and so are the stretches to measure.
pub proof fn law_the_order_of_observations_does_not_matter(
    a: Seq<FlowObs>,
    b: Seq<FlowObs>,
    p: FlowPlan,
    q: FlowPlan,
)
    requires
        MIN_FLOW_OBSERVATIONS <= a.len() <= usize::MAX,
        a.to_multiset() == b.to_multiset(),
        different_days(a),
        plans(p, a),
        plans(q, b),
    ensures
        a.len() == b.len(),
        ordered(a, p.order@) == ordered(b, q.order@),
        forall|k: int|
            0 <= k < windows().len() ==> (#[trigger] p.windows@[k]).window == q.windows@[k].window
                && p.windows@[k].spans@ == q.windows@[k].spans@,
{
    lemma_same_observations(a, b);
    lemma_still_different_days(a, b);
    lemma_ordered(a, p.order@);
    lemma_ordered(b, q.order@);
    let (s, t) = (ordered(a, p.order@), ordered(b, q.order@));
    assert forall|o: FlowObs| s.contains(o) <==> #[trigger] t.contains(o) by {
        assert(a.contains(o) <==> b.contains(o));
    }
    lemma_ascending_alike(s, t, s.len() as int);
    assert(s =~= t);
    assert forall|k: int| 0 <= k < windows().len() implies (#[trigger] p.windows@[k]).window
        == q.windows@[k].window && p.windows@[k].spans@ == q.windows@[k].spans@ by {
        lemma_same_spans(
            a,
            p.order@,
            b,
            q.order@,
            windows()[k] as int,
            a.len() - windows()[k] + 1,
        );
        assert(q.windows@[k].window == windows()[k]);
    }
}

/// The same observations in any order: as many, and the same ones.
proof fn lemma_same_observations(a: Seq<FlowObs>, b: Seq<FlowObs>)
    requires
        a.to_multiset() == b.to_multiset(),
    ensures
        a.len() == b.len(),
        forall|o: FlowObs| a.contains(o) <==> #[trigger] b.contains(o),
{
    a.to_multiset_ensures();
    b.to_multiset_ensures();
    assert forall|o: FlowObs| a.contains(o) <==> #[trigger] b.contains(o) by {
        assert(a.contains(o) <==> a.to_multiset().count(o) > 0);
        assert(b.contains(o) <==> b.to_multiset().count(o) > 0);
    }
}

/// Observations of different days are so in any order.
proof fn lemma_still_different_days(a: Seq<FlowObs>, b: Seq<FlowObs>)
    requires
        a.to_multiset() == b.to_multiset(),
        different_days(a),
    ensures
        different_days(b),
{
    assert(a.no_duplicates()) by {
        assert forall|i: int, j: int| 0 <= i < a.len() && 0 <= j < a.len() && i != j implies a[i]
            != a[j] by {
            if i < j {
                assert(a[i].date.number() != a[j].date.number());
            } else {
                assert(a[j].date.number() != a[i].date.number());
            }
        }
    }
    a.lemma_multiset_has_no_duplicates();
    b.lemma_multiset_has_no_duplicates_conv();
    lemma_same_observations(a, b);
    assert forall|i: int, j: int| 0 <= i < j < b.len() implies (#[trigger] b[i]).date.number() != (
    #[trigger] b[j]).date.number() by {
        assert(b.contains(b[i]) && b.contains(b[j]));
        assert(a.contains(b[i]) && a.contains(b[j]));
        let (x, y) = (a.index_of(b[i]), a.index_of(b[j]));
        assert(a[x] == b[i] && a[y] == b[j]);
        assert(b[i] != b[j]);
        if x < y {
            assert(a[x].date.number() != a[y].date.number());
        } else {
            assert(a[y].date.number() != a[x].date.number());
        }
    }
}

/// Nor does it matter to what is reported: from the same ratios the statistics
/// are the same.
pub proof fn law_the_statistics_do_not_depend_on_the_order(
    a: Seq<FlowObs>,
    b: Seq<FlowObs>,
    ratios: Seq<Vec<Number>>,
    s: FlowStats,
    t: FlowStats,
)
    requires
        a.to_multiset() == b.to_multiset(),
        different_days(a),
        shows(s, a, ratios),
        shows(t, b, ratios),
    ensures
        s.n_observations == t.n_observations,
        s.from == t.from,
        s.to == t.to,
        s.worst@ == t.worst@,
{
    lemma_same_observations(a, b);
    lemma_same_day(a, b, s.from, t.from);
    lemma_same_day(a, b, s.to, t.to);
    assert(s.worst@ =~= t.worst@);
}

/// Two observed days with the same number are one day.
proof fn lemma_same_day(a: Seq<FlowObs>, b: Seq<FlowObs>, x: Date, y: Date)
    requires
        forall|o: FlowObs| a.contains(o) <==> #[trigger] b.contains(o),
        different_days(a),
        observed(a, x),
        observed(b, y),
    ensures
        x.number() == y.number() ==> x == y,
        exists|i: int| 0 <= i < a.len() && (#[trigger] a[i]).date == y,
        exists|i: int| 0 <= i < b.len() && (#[trigger] b[i]).date == x,
{
    let i = choose|i: int| 0 <= i < a.len() && (#[trigger] a[i]).date == x;
    let j = choose|j: int| 0 <= j < b.len() && (#[trigger] b[j]).date == y;
    assert(b.contains(b[j]));
    assert(a.contains(b[j]));
    let k = a.index_of(b[j]);
    assert(a[k].date == y);
    assert(a.contains(a[i]));
    assert(b.contains(a[i]));
    let m = b.index_of(a[i]);
    assert(b[m].date == x);
    if i < k {
        assert(a[i].date.number() != a[k].date.number());
    }
    if k < i {
        assert(a[k].date.number() != a[i].date.number());
    }
}

/// The windows are of one, five and twenty observations, and twenty is what it
/// takes to report anything.
pub proof fn law_windows_are_a_day_a_week_and_a_month()
    ensures
        windows().len() == 3,
        windows()[0] == 1,
        windows()[1] == 5,
        windows()[2] == 20,
        MIN_FLOW_OBSERVATIONS == 20,
{
}

/// A plan takes every observation once, in date order, and measures in each
/// window every stretch of neighbouring observations that opens on net assets
/// that are a figure above zero.
pub proof fn law_a_plan_measures_every_stretch(
    plan: FlowPlan,
    obs: Seq<FlowObs>,
    k: int,
    start: int,
)
    requires
        plans(plan, obs),
        20 <= obs.len() <= usize::MAX,
        0 <= k < 3,
    ensures
        plan.order@.len() == obs.len(),
        forall|i: int| 0 <= i < obs.len() ==> #[trigger] plan.order@.contains(i as usize),
        forall|i: int, j: int|
            0 <= i < j < obs.len() ==> obs[(#[trigger] plan.order@[i]) as int].date.number() <= obs[(
            #[trigger] plan.order@[j]) as int].date.number(),
        plan.windows@.len() == 3,
        plan.windows@[k].window == windows()[k],
        0 <= start && start + windows()[k] <= obs.len() && obs[plan.order@[start] as int].nav_eur.finite()
            && obs[plan.order@[start] as int].nav_eur.positive()
            ==> plan.windows@[k].spans@.contains(
            Span { start: start as usize, end: (start + windows()[k]) as usize },
        ),
        forall|i: int|
            0 <= i < plan.windows@[k].spans@.len() ==> ({
                let span = #[trigger] plan.windows@[k].spans@[i];
                &&& span.end == span.start + windows()[k]
                &&& span.end <= obs.len()
                &&& obs[plan.order@[span.start as int] as int].nav_eur.finite()
                &&& obs[plan.order@[span.start as int] as int].nav_eur.positive()
            }),
        forall|i: int, j: int|
            0 <= i < j < plan.windows@[k].spans@.len() ==> (
            #[trigger] plan.windows@[k].spans@[i]).start < (
            #[trigger] plan.windows@[k].spans@[j]).start,
{
    let keys = date_keys(obs);
    let w = windows()[k] as int;
    assert forall|i: int| 0 <= i < obs.len() implies #[trigger] plan.order@.contains(
        i as usize,
    ) by {
        assert(0 <= i < keys.len());
    }
    assert forall|i: int, j: int|
        0 <= i < j < obs.len() implies obs[(#[trigger] plan.order@[i]) as int].date.number() <= obs[(
    #[trigger] plan.order@[j]) as int].date.number() by {
        assert(plan.order@[i] < keys.len() && plan.order@[j] < keys.len());
        assert(crate::order::precedes(keys, plan.order@[i] as int, plan.order@[j] as int));
    }
    assert(plan.windows@[k].window == windows()[k]);
    law_every_measurable_stretch_is_measured(obs, plan.order@, w, obs.len() - w + 1);
    if 0 <= start && start + w <= obs.len() && obs[plan.order@[start] as int].nav_eur.finite()
        && obs[plan.order@[start] as int].nav_eur.positive() {
        assert(measurable(obs[plan.order@[start] as int].nav_eur));
    }
}

/// What is reported spans the history: it counts every observation, begins with
/// the earliest day and ends with the latest, and gives each window the worst of
/// its own ratios.
pub proof fn law_statistics_span_the_history(
    s: FlowStats,
    obs: Seq<FlowObs>,
    ratios: Seq<Vec<Number>>,
    k: int,
)
    requires
        shows(s, obs, ratios),
        0 <= k < 3,
    ensures
        s.n_observations == obs.len(),
        exists|i: int|
            0 <= i < obs.len() && (#[trigger] obs[i]).date == s.from && forall|j: int|
                0 <= j < obs.len() ==> s.from.number() <= (#[trigger] obs[j]).date.number(),
        exists|i: int|
            0 <= i < obs.len() && (#[trigger] obs[i]).date == s.to && forall|j: int|
                0 <= j < obs.len() ==> (#[trigger] obs[j]).date.number() <= s.to.number(),
        s.worst@.len() == 3,
        s.worst@[k].window == windows()[k],
        s.worst@[k].pct_of_nav == outflow(ratios[k]@),
{
    assert(observed(obs, s.from) && observed(obs, s.to));
    assert(s.worst@[k].window == windows()[k]);
}

} // verus!
