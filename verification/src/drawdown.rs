//! Drawdowns: how far a series lies below its peaks.

use crate::date::Date;
use crate::number::Number;
use crate::order::{pick_rows, stable_order};
use crate::series::{Change, NavPoint};
use vstd::prelude::*;

verus! {

/// The bits of negative infinity: the peak of no points.
pub const NO_PEAK: u64 = 0xFFF0_0000_0000_0000;

/// The higher of two figures; a figure that is no number gives way.
pub open spec fn higher(a: Number, b: Number) -> Number {
    if b.nan() {
        a
    } else if a.nan() || a.below(b) {
        b
    } else {
        a
    }
}

/// The higher of two figures.
fn higher_of(a: Number, b: Number) -> (r: Number)
    ensures
        r == higher(a, b),
{
    if b.is_nan() {
        a
    } else if a.is_nan() || a.is_below(&b) {
        b
    } else {
        a
    }
}

/// The highest of the first `n` figures.
pub open spec fn peak_until(nav: Seq<NavPoint>, n: int) -> Number
    decreases n,
{
    if n <= 0 {
        Number { bits: NO_PEAK }
    } else {
        higher(peak_until(nav, n - 1), nav[n - 1].value)
    }
}

/// Each point against the running peak: the drawdown is `to / from - 1`.
pub fn drawdown_series(nav: &[NavPoint]) -> (r: Vec<Change>)
    ensures
        r@ == Seq::new(
            nav@.len(),
            |i: int|
                Change { date: nav@[i].date, from: peak_until(nav@, i + 1), to: nav@[i].value },
        ),
{
    let mut out: Vec<Change> = Vec::new();
    let mut peak = Number { bits: NO_PEAK };
    for i in 0..nav.len()
        invariant
            peak == peak_until(nav@, i as int),
            out@ =~= Seq::new(
                i as nat,
                |k: int|
                    Change { date: nav@[k].date, from: peak_until(nav@, k + 1), to: nav@[k].value },
            ),
    {
        let p = nav[i];
        peak = higher_of(peak, p.value);
        out.push(Change { date: p.date, from: peak, to: p.value });
    }
    out
}

/// No point of a series stands above its running peak, and the peak never
/// comes down.
pub proof fn law_no_point_stands_above_its_peak(nav: Seq<NavPoint>, n: int)
    requires
        0 < n <= nav.len(),
        forall|i: int| 0 <= i < nav.len() ==> !(#[trigger] nav[i]).value.nan(),
    ensures
        nav[n - 1].value.at_most(peak_until(nav, n)),
        peak_until(nav, n - 1).at_most(peak_until(nav, n)),
    decreases n,
{
    assert(!nav[n - 1].value.nan());
    if n > 1 {
        law_no_point_stands_above_its_peak(nav, n - 1);
    }
}

/// A point, and the highest figure of its year so far.
#[derive(Debug, Clone, Copy, PartialEq, Eq, Structural)]
pub struct YearPoint {
    pub year: i32,
    pub peak: Number,
    pub value: Number,
}

/// Each point of a series against the peak of its own year so far: the running
/// peak starts anew with each year.
pub open spec fn year_points(nav: Seq<NavPoint>) -> Seq<YearPoint>
    decreases nav.len(),
{
    if nav.len() == 0 {
        Seq::empty()
    } else {
        let earlier = year_points(nav.drop_last());
        let p = nav.last();
        let peak = if earlier.len() > 0 && earlier.last().year == p.date@.year {
            higher(earlier.last().peak, p.value)
        } else {
            p.value
        };
        earlier.push(YearPoint { year: p.date@.year as i32, peak, value: p.value })
    }
}

/// Each point against the peak of its own year so far. Its drawdown is
/// `value / peak - 1`.
pub fn yearly_peaks(nav: &[NavPoint]) -> (r: Vec<YearPoint>)
    ensures
        r@ == year_points(nav@),
        r@.len() == nav@.len(),
{
    let mut out: Vec<YearPoint> = Vec::new();
    for i in 0..nav.len()
        invariant
            out@ == year_points(nav@.take(i as int)),
            out@.len() == i,
    {
        let p = nav[i];
        let year: i32 = p.date.year();
        proof {
            assert(nav@.take(i + 1).drop_last() =~= nav@.take(i as int));
        }
        let peak = if i > 0 && out[i - 1].year == year {
            higher_of(out[i - 1].peak, p.value)
        } else {
            p.value
        };
        out.push(YearPoint { year, peak, value: p.value });
    }
    assert(nav@.take(nav@.len() as int) =~= nav@);
    out
}

/// The deepest drawdown of a year.
#[derive(Debug, Clone, Copy, PartialEq, Eq, Structural)]
pub struct YearlyDrawdown {
    pub year: i32,
    pub max_drawdown: Number,
}

/// The deepest of the drawdowns of each year, in the order of the points; zero
/// where none is below it.
pub open spec fn deepest(points: Seq<YearPoint>, falls: Seq<Number>) -> Seq<YearlyDrawdown>
    decreases points.len(),
{
    if points.len() == 0 {
        Seq::empty()
    } else {
        let year = points.last().year;
        let earlier = deepest(points.drop_last(), falls.drop_last());
        let open = if earlier.len() > 0 && earlier.last().year == year {
            earlier
        } else {
            earlier.push(YearlyDrawdown { year, max_drawdown: Number { bits: 0 } })
        };
        if falls.last().below(open.last().max_drawdown) {
            open.drop_last().push(YearlyDrawdown { year, max_drawdown: falls.last() })
        } else {
            open
        }
    }
}

/// Deepest drawdown per calendar year; the running peak resets at each year
/// start. `falls` holds the drawdown of each point. Years in the order of the
/// points.
pub fn yearly_max_drawdowns(points: &[YearPoint], falls: &[Number]) -> (r: Vec<YearlyDrawdown>)
    requires
        falls@.len() == points@.len(),
    ensures
        r@ == deepest(points@, falls@),
{
    let mut out: Vec<YearlyDrawdown> = Vec::new();
    for i in 0..points.len()
        invariant
            falls@.len() == points@.len(),
            out@ == deepest(points@.take(i as int), falls@.take(i as int)),
    {
        let year: i32 = points[i].year;
        let fall = falls[i];
        proof {
            assert(points@.take(i + 1).drop_last() =~= points@.take(i as int));
            assert(falls@.take(i + 1).drop_last() =~= falls@.take(i as int));
        }
        if out.len() == 0 || out[out.len() - 1].year != year {
            out.push(YearlyDrawdown { year, max_drawdown: Number::zero() });
        }
        if fall.is_below(&out[out.len() - 1].max_drawdown) {
            out.pop();
            out.push(YearlyDrawdown { year, max_drawdown: fall });
        }
    }
    assert(points@.take(points@.len() as int) =~= points@);
    assert(falls@.take(falls@.len() as int) =~= falls@);
    out
}

/// No year is reported above zero.
pub proof fn law_no_year_is_reported_above_zero(points: Seq<YearPoint>, falls: Seq<Number>)
    requires
        falls.len() == points.len(),
    ensures
        forall|i: int|
            0 <= i < deepest(points, falls).len() ==> (#[trigger] deepest(
                points,
                falls,
            )[i]).max_drawdown.at_most(Number { bits: 0 }),
    decreases points.len(),
{
    if points.len() > 0 {
        law_no_year_is_reported_above_zero(points.drop_last(), falls.drop_last());
        let earlier = deepest(points.drop_last(), falls.drop_last());
        let all = deepest(points, falls);
        assert forall|i: int| 0 <= i < all.len() implies (#[trigger] all[i]).max_drawdown.at_most(
            Number { bits: 0 },
        ) by {
            if i < earlier.len() {
                assert(earlier[i].max_drawdown.at_most(Number { bits: 0 }));
            }
        }
    }
}

/// Whether a year is reported no milder than a fall.
pub open spec fn reported(years: Seq<YearlyDrawdown>, year: i32, fall: Number) -> bool {
    exists|j: int|
        0 <= j < years.len() && (#[trigger] years[j]).year == year && years[j].max_drawdown.at_most(
            fall,
        )
}

/// Whether a figure is that of a year: zero, or one of its falls.
pub open spec fn of_its_year(
    y: YearlyDrawdown,
    points: Seq<YearPoint>,
    falls: Seq<Number>,
) -> bool {
    y.max_drawdown.bits == 0 || exists|i: int|
        0 <= i < points.len() && (#[trigger] points[i]).year == y.year && falls[i]
            == y.max_drawdown
}

/// The last year reported is that of the last point, and what a point changes
/// is the figure of its own year alone, and never upwards.
proof fn lemma_last_year(points: Seq<YearPoint>, falls: Seq<Number>)
    requires
        falls.len() == points.len(),
        points.len() > 0,
    ensures
        ({
            let earlier = deepest(points.drop_last(), falls.drop_last());
            let all = deepest(points, falls);
            let n = all.len() - 1;
            &&& n >= 0
            &&& earlier.len() == n || earlier.len() == n + 1
            &&& all[n].year == points.last().year
            &&& forall|j: int| 0 <= j < n ==> all[j] == #[trigger] earlier[j]
            &&& earlier.len() == n + 1 ==> earlier[n].year == all[n].year
            &&& earlier.len() == n && n > 0 ==> earlier[n - 1].year != all[n].year
            &&& all[n].max_drawdown == falls.last() || all[n].max_drawdown == (if earlier.len() == n
                + 1 {
                earlier[n].max_drawdown
            } else {
                Number { bits: 0 }
            })
            &&& earlier.len() == n + 1 && !earlier[n].max_drawdown.nan()
                ==> all[n].max_drawdown.at_most(earlier[n].max_drawdown)
            &&& !falls.last().nan() && !all[n].max_drawdown.nan() ==> all[n].max_drawdown.at_most(
                falls.last(),
            )
        }),
{
}

/// No fall of a year lies below the figure reported for it.
pub proof fn law_no_fall_lies_below_the_reported_figure(
    points: Seq<YearPoint>,
    falls: Seq<Number>,
    i: int,
)
    requires
        falls.len() == points.len(),
        0 <= i < points.len(),
        !falls[i].nan(),
    ensures
        reported(deepest(points, falls), points[i].year, falls[i]),
    decreases points.len(),
{
    let (ps, fs) = (points.drop_last(), falls.drop_last());
    let earlier = deepest(ps, fs);
    let all = deepest(points, falls);
    lemma_last_year(points, falls);
    law_no_year_is_reported_above_zero(points, falls);
    law_no_year_is_reported_above_zero(ps, fs);
    if i < points.len() - 1 {
        law_no_fall_lies_below_the_reported_figure(ps, fs, i);
        let j = choose|j: int|
            0 <= j < earlier.len() && (#[trigger] earlier[j]).year == ps[i].year
                && earlier[j].max_drawdown.at_most(fs[i]);
        assert(all[j].year == points[i].year && all[j].max_drawdown.at_most(falls[i]));
    } else {
        let n = all.len() - 1;
        assert(all[n].max_drawdown.at_most(falls[i]));
    }
}

/// The figure reported for a year is zero or one of the falls of the year.
pub proof fn law_a_reported_figure_is_a_fall_of_its_year(
    points: Seq<YearPoint>,
    falls: Seq<Number>,
    j: int,
)
    requires
        falls.len() == points.len(),
        0 <= j < deepest(points, falls).len(),
    ensures
        of_its_year(deepest(points, falls)[j], points, falls),
    decreases points.len(),
{
    let (ps, fs) = (points.drop_last(), falls.drop_last());
    let earlier = deepest(ps, fs);
    let all = deepest(points, falls);
    let last = points.len() - 1;
    lemma_last_year(points, falls);
    if all[j].max_drawdown == falls.last() && all[j].year == points.last().year {
        assert(points[last].year == all[j].year && falls[last] == all[j].max_drawdown);
    } else if j < earlier.len() {
        law_a_reported_figure_is_a_fall_of_its_year(ps, fs, j);
        assert(all[j] == earlier[j]);
        if all[j].max_drawdown.bits != 0 {
            let i = choose|i: int|
                0 <= i < ps.len() && (#[trigger] ps[i]).year == earlier[j].year && fs[i]
                    == earlier[j].max_drawdown;
            assert(points[i] == ps[i] && falls[i] == fs[i]);
        }
    }
}

/// Of points whose years go up, each year is reported once, and the years go up
/// too.
pub proof fn law_each_year_is_reported_once(points: Seq<YearPoint>, falls: Seq<Number>)
    requires
        falls.len() == points.len(),
        forall|a: int, b: int|
            0 <= a < b < points.len() ==> (#[trigger] points[a]).year <= (#[trigger] points[b]).year,
    ensures
        forall|a: int, b: int|
            0 <= a < b < deepest(points, falls).len() ==> (#[trigger] deepest(points, falls)[a]).year
                < (#[trigger] deepest(points, falls)[b]).year,
    decreases points.len(),
{
    if points.len() > 0 {
        let (ps, fs) = (points.drop_last(), falls.drop_last());
        assert forall|a: int, b: int| 0 <= a < b < ps.len() implies (#[trigger] ps[a]).year <= (
        #[trigger] ps[b]).year by {
            assert(points[a].year <= points[b].year);
        }
        law_each_year_is_reported_once(ps, fs);
        lemma_last_year(points, falls);
        if ps.len() > 0 {
            lemma_last_year(ps, fs);
        }
        let earlier = deepest(ps, fs);
        let all = deepest(points, falls);
        if ps.len() > 0 {
            assert(points[ps.len() - 1].year <= points[points.len() - 1].year);
        }
        assert forall|a: int, b: int| 0 <= a < b < all.len() implies (#[trigger] all[a]).year < (
        #[trigger] all[b]).year by {
            assert(all[a] == earlier[a]);
            if b < earlier.len() {
                assert(all[b].year == earlier[b].year);
                assert(earlier[a].year < earlier[b].year);
            } else if a < earlier.len() - 1 {
                assert(earlier[a].year < earlier[earlier.len() - 1].year);
            }
        }
    }
}

/// A fall from a peak to a trough, and the recovery where there was one. Its
/// depth is `trough_value / peak_value - 1`.
#[derive(Debug, Clone, Copy, PartialEq, Eq, Structural)]
pub struct DrawdownEpisode {
    pub peak_date: Date,
    pub peak_value: Number,
    pub trough_date: Date,
    pub trough_value: Number,
    pub duration_days: i64,
    pub recovery_date: Option<Date>,
}

/// An episode by the positions of its points.
pub struct Dip {
    pub peak: int,
    pub trough: int,
    pub end: Option<int>,
}

/// What is known after some points: the episodes that are over, the peak, and
/// the lowest point since.
pub struct Watch {
    pub over: Seq<Dip>,
    pub peak: int,
    pub trough: Option<int>,
}

/// What is known after the first `n` points.
pub open spec fn watched(nav: Seq<NavPoint>, n: int) -> Watch
    decreases n,
{
    if n <= 1 {
        Watch { over: Seq::empty(), peak: 0, trough: None }
    } else {
        let w = watched(nav, n - 1);
        let v = nav[n - 1].value;
        if nav[w.peak].value.at_most(v) {
            Watch {
                over: match w.trough {
                    None => w.over,
                    Some(t) => w.over.push(Dip { peak: w.peak, trough: t, end: Some(n - 1) }),
                },
                peak: n - 1,
                trough: None,
            }
        } else if w.trough is None || v.below(nav[w.trough->0].value) {
            Watch { trough: Some(n - 1), ..w }
        } else {
            w
        }
    }
}

/// The episodes of a series. One opens when the series drops below its peak and
/// closes at the first figure that reaches the peak again, or with the series.
pub open spec fn dips(nav: Seq<NavPoint>) -> Seq<Dip> {
    let w = watched(nav, nav.len() as int);
    match w.trough {
        None => w.over,
        Some(t) => w.over.push(Dip { peak: w.peak, trough: t, end: None }),
    }
}

/// The episode that a dip stands for.
pub open spec fn episode_of(nav: Seq<NavPoint>, d: Dip) -> DrawdownEpisode {
    DrawdownEpisode {
        peak_date: nav[d.peak].date,
        peak_value: nav[d.peak].value,
        trough_date: nav[d.trough].date,
        trough_value: nav[d.trough].value,
        duration_days: (nav[d.trough].date.number() - nav[d.peak].date.number()) as i64,
        recovery_date: match d.end {
            None => None,
            Some(e) => Some(nav[e].date),
        },
    }
}

/// The episodes that dips stand for.
pub open spec fn episodes_of(nav: Seq<NavPoint>, all: Seq<Dip>) -> Seq<DrawdownEpisode> {
    all.map_values(|d: Dip| episode_of(nav, d))
}

fn make_episode(peak: &NavPoint, trough: &NavPoint, recovery: Option<Date>) -> (r: DrawdownEpisode)
    ensures
        r == (DrawdownEpisode {
            peak_date: peak.date,
            peak_value: peak.value,
            trough_date: trough.date,
            trough_value: trough.value,
            duration_days: (trough.date.number() - peak.date.number()) as i64,
            recovery_date: recovery,
        }),
{
    DrawdownEpisode {
        peak_date: peak.date,
        peak_value: peak.value,
        trough_date: trough.date,
        trough_value: trough.value,
        duration_days: trough.date.day_count() as i64 - peak.date.day_count() as i64,
        recovery_date: recovery,
    }
}

/// Distinct peak->trough episodes. An episode opens when NAV drops below the
/// running peak and closes at the first NAV >= that peak (recovery) or at
/// series end (recovery_date = None).
pub fn drawdown_episodes(nav: &[NavPoint]) -> (r: Vec<DrawdownEpisode>)
    ensures
        r@ == episodes_of(nav@, dips(nav@)),
{
    let mut out: Vec<DrawdownEpisode> = Vec::new();
    if nav.len() == 0 {
        assert(out@ =~= episodes_of(nav@, dips(nav@)));
        return out;
    }
    let mut peak: usize = 0;
    let mut trough: Option<usize> = None;
    assert(out@ =~= episodes_of(nav@, watched(nav@, 1).over));
    for i in 1..nav.len()
        invariant
            0 < i <= nav@.len(),
            peak < i,
            peak == watched(nav@, i as int).peak,
            match trough {
                None => watched(nav@, i as int).trough is None,
                Some(t) => t < i && watched(nav@, i as int).trough == Some(t as int),
            },
            out@ == episodes_of(nav@, watched(nav@, i as int).over),
    {
        let ghost w = watched(nav@, i as int);
        let p = nav[i];
        if nav[peak].value.is_at_most(&p.value) {
            if let Some(t) = trough {
                out.push(make_episode(&nav[peak], &nav[t], Some(p.date)));
                trough = None;
            }
            peak = i;
        } else {
            let lower: bool = match trough {
                None => true,
                Some(t) => p.value.is_below(&nav[t].value),
            };
            if lower {
                trough = Some(i);
            }
        }
        assert(out@ =~= episodes_of(nav@, watched(nav@, i + 1).over));
    }
    if let Some(t) = trough {
        out.push(make_episode(&nav[peak], &nav[t], None));
    }
    assert(out@ =~= episodes_of(nav@, dips(nav@)));
    out
}

/// Whether a dip is a fall below a peak that lasts until the peak is reached
/// again: every point in between lies below the peak, the trough is the first
/// of the lowest, and the end, where there is one, is the first point at or
/// above the peak.
pub open spec fn is_fall(nav: Seq<NavPoint>, d: Dip) -> bool {
    let stop = match d.end {
        None => nav.len() as int,
        Some(e) => e,
    };
    &&& 0 <= d.peak < d.trough < stop <= nav.len()
    &&& forall|k: int|
        d.peak < k < stop ==> (#[trigger] nav[k]).value.below(nav[d.peak].value)
            && nav[d.trough].value.at_most(nav[k].value)
    &&& forall|k: int| d.peak < k < d.trough ==> nav[d.trough].value.below((#[trigger] nav[k]).value)
    &&& d.end matches Some(e) ==> e < nav.len() && nav[d.peak].value.at_most(nav[e].value)
}

/// Whether what is known after the first `n` points holds of them.
spec fn sound(nav: Seq<NavPoint>, n: int) -> bool {
    let w = watched(nav, n);
    &&& 0 <= w.peak < n
    &&& forall|k: int| 0 <= k < n ==> (#[trigger] nav[k]).value.at_most(nav[w.peak].value)
    &&& forall|k: int| w.peak < k < n ==> (#[trigger] nav[k]).value.below(nav[w.peak].value)
    &&& match w.trough {
        None => w.peak == n - 1,
        Some(t) => {
            &&& w.peak < t < n
            &&& forall|k: int|
                w.peak < k < n ==> nav[t].value.at_most((#[trigger] nav[k]).value)
            &&& forall|k: int| w.peak < k < t ==> nav[t].value.below((#[trigger] nav[k]).value)
        },
    }
    &&& forall|i: int|
        0 <= i < w.over.len() ==> is_fall(nav, #[trigger] w.over[i]) && w.over[i].end is Some
            && w.over[i].end->0 <= w.peak
    &&& forall|i: int, j: int|
        0 <= i < j < w.over.len() ==> (#[trigger] w.over[i]).end->0 <= (#[trigger] w.over[j]).peak
    &&& forall|k: int| 0 <= k <= w.peak ==> #[trigger] accounted(nav, w.over, k)
}

/// Whether a point stands at the running peak, or lies inside a dip.
pub open spec fn accounted(nav: Seq<NavPoint>, all: Seq<Dip>, k: int) -> bool {
    ||| forall|j: int| 0 <= j < k ==> (#[trigger] nav[j]).value.at_most(nav[k].value)
    ||| exists|i: int| 0 <= i < all.len() && inside(#[trigger] all[i], k)
}

/// Whether a point lies inside a dip, after the peak and before the recovery.
pub open spec fn inside(d: Dip, k: int) -> bool {
    d.peak < k && (d.end matches Some(e) ==> k < e)
}

proof fn lemma_watched(nav: Seq<NavPoint>, n: int)
    requires
        0 < n <= nav.len(),
        forall|i: int| 0 <= i < nav.len() ==> !(#[trigger] nav[i]).value.nan(),
    ensures
        sound(nav, n),
    decreases n,
{
    if n == 1 {
        assert(!nav[0].value.nan());
        assert(accounted(nav, Seq::empty(), 0));
    } else {
        lemma_watched(nav, n - 1);
        let w = watched(nav, n - 1);
        let now = watched(nav, n);
        let v = nav[n - 1].value;
        assert(!v.nan());
        assert(!nav[w.peak].value.nan());
        if nav[w.peak].value.at_most(v) {
            assert forall|k: int| 0 <= k < n implies (#[trigger] nav[k]).value.at_most(v) by {
                if k < n - 1 {
                    assert(nav[k].value.at_most(nav[w.peak].value));
                }
            }
            if let Some(t) = w.trough {
                let d = Dip { peak: w.peak, trough: t, end: Some(n - 1) };
                assert(is_fall(nav, d));
                assert(now.over == w.over.push(d));
                assert forall|i: int| 0 <= i < now.over.len() implies is_fall(
                    nav,
                    #[trigger] now.over[i],
                ) && now.over[i].end is Some && now.over[i].end->0 <= now.peak by {
                    if i < w.over.len() {
                        assert(now.over[i] == w.over[i]);
                    }
                }
                assert forall|i: int, j: int| 0 <= i < j < now.over.len() implies (
                #[trigger] now.over[i]).end->0 <= (#[trigger] now.over[j]).peak by {
                    assert(now.over[i] == w.over[i]);
                    if j < w.over.len() {
                        assert(now.over[j] == w.over[j]);
                    }
                }
                assert forall|k: int| 0 <= k <= now.peak implies #[trigger] accounted(
                    nav,
                    now.over,
                    k,
                ) by {
                    if k <= w.peak {
                        assert(accounted(nav, w.over, k));
                        if exists|i: int| 0 <= i < w.over.len() && inside(#[trigger] w.over[i], k) {
                            let i = choose|i: int|
                                0 <= i < w.over.len() && inside(#[trigger] w.over[i], k);
                            assert(inside(now.over[i], k));
                        }
                    } else if k < n - 1 {
                        assert(inside(now.over[w.over.len() as int], k));
                    }
                }
            } else {
                assert forall|k: int| 0 <= k <= now.peak implies #[trigger] accounted(
                    nav,
                    now.over,
                    k,
                ) by {
                    if k <= w.peak {
                        assert(accounted(nav, w.over, k));
                    }
                }
            }
        } else {
            assert(v.below(nav[w.peak].value));
            if let Some(t) = w.trough {
                assert(!nav[t].value.nan());
            }
            assert forall|k: int| 0 <= k <= now.peak implies #[trigger] accounted(
                nav,
                now.over,
                k,
            ) by {
                assert(accounted(nav, w.over, k));
            }
        }
    }
}

/// The episodes of a series are exactly its falls below a peak: each is one,
/// they follow each other without overlap, and every point either stands at
/// the running peak or lies inside one of them.
pub proof fn law_episodes_are_the_falls_below_a_peak(nav: Seq<NavPoint>)
    requires
        forall|i: int| 0 <= i < nav.len() ==> !(#[trigger] nav[i]).value.nan(),
    ensures
        forall|i: int| 0 <= i < dips(nav).len() ==> is_fall(nav, #[trigger] dips(nav)[i]),
        forall|i: int, j: int|
            0 <= i < j < dips(nav).len() ==> (#[trigger] dips(nav)[i]).end is Some && dips(
                nav,
            )[i].end->0 <= (#[trigger] dips(nav)[j]).peak,
        forall|k: int| 0 <= k < nav.len() ==> #[trigger] accounted(nav, dips(nav), k),
{
    if nav.len() > 0 {
        let n = nav.len() as int;
        lemma_watched(nav, n);
        let w = watched(nav, n);
        let all = dips(nav);
        if let Some(t) = w.trough {
            let d = Dip { peak: w.peak, trough: t, end: None };
            assert(all == w.over.push(d));
            assert(is_fall(nav, d));
            assert forall|i: int| 0 <= i < all.len() implies is_fall(nav, #[trigger] all[i]) by {
                if i < w.over.len() {
                    assert(all[i] == w.over[i]);
                }
            }
            assert forall|i: int, j: int| 0 <= i < j < all.len() implies (
            #[trigger] all[i]).end is Some && all[i].end->0 <= (#[trigger] all[j]).peak by {
                assert(all[i] == w.over[i]);
                if j < w.over.len() {
                    assert(all[j] == w.over[j]);
                }
            }
            assert forall|k: int| 0 <= k < nav.len() implies #[trigger] accounted(nav, all, k) by {
                if k <= w.peak {
                    assert(accounted(nav, w.over, k));
                    if exists|i: int| 0 <= i < w.over.len() && inside(#[trigger] w.over[i], k) {
                        let i = choose|i: int|
                            0 <= i < w.over.len() && inside(#[trigger] w.over[i], k);
                        assert(inside(all[i], k));
                    }
                } else {
                    assert(inside(all[w.over.len() as int], k));
                }
            }
        }
    }
}

/// Whether an episode is short: a day long at least, and at most so many.
pub open spec fn short(e: DrawdownEpisode, max_calendar_days: i64) -> bool {
    1 <= e.duration_days <= max_calendar_days
}

/// The depths of some rows, by which they are ranked.
pub open spec fn depth_keys(depths: Seq<Number>, rows: Seq<usize>) -> Seq<int> {
    rows.map_values(|k: usize| depths[k as int].total_place())
}

/// Which episodes have a peak->trough duration of at least a day and at most
/// `max_calendar_days`, deepest first; equally deep ones keep their order. At
/// most `top_n` of them. `depths` holds the depth of each episode.
pub fn top_short_drawdowns(
    episodes: &[DrawdownEpisode],
    depths: &[Number],
    max_calendar_days: i64,
    top_n: usize,
) -> (r: Vec<usize>)
    requires
        depths@.len() == episodes@.len(),
    ensures
        exists|rows: Seq<usize>, order: Seq<usize>|
            #![trigger crate::order::in_order(depth_keys(depths@, rows), order)]
            crate::order::picks(
                rows,
                episodes@.map_values(|e: DrawdownEpisode| short(e, max_calendar_days)),
            ) && crate::order::in_order(depth_keys(depths@, rows), order) && r@ == Seq::new(
                if top_n < rows.len() {
                    top_n as nat
                } else {
                    rows.len()
                },
                |i: int| rows[order[i] as int],
            ),
{
    let mut wanted: Vec<bool> = Vec::new();
    for i in 0..episodes.len()
        invariant
            wanted@.len() == i,
            forall|k: int| 0 <= k < i ==> wanted@[k] == short(episodes@[k], max_calendar_days),
    {
        let days: i64 = episodes[i].duration_days;
        wanted.push(days <= max_calendar_days && days >= 1);
    }
    assert(wanted@ =~= episodes@.map_values(
        |e: DrawdownEpisode| short(e, max_calendar_days),
    ));
    let rows = pick_rows(&wanted);
    let mut keys: Vec<i64> = Vec::new();
    for i in 0..rows.len()
        invariant
            depths@.len() == wanted@.len(),
            crate::order::picks(rows@, wanted@),
            keys@.len() == i,
            forall|k: int|
                0 <= k < i ==> (#[trigger] keys@[k]) == depths@[rows@[k] as int].total_place(),
    {
        keys.push(depths[rows[i]].total_key());
    }
    assert(crate::order::as_ints(keys@) =~= depth_keys(depths@, rows@));
    let order = stable_order(&keys);
    let mut out: Vec<usize> = Vec::new();
    let size: usize = if top_n < rows.len() {
        top_n
    } else {
        rows.len()
    };
    for i in 0..size
        invariant
            size <= rows@.len(),
            rows@.len() == depth_keys(depths@, rows@).len(),
            crate::order::in_order(depth_keys(depths@, rows@), order@),
            out@.len() == i,
            forall|k: int| 0 <= k < i ==> (#[trigger] out@[k]) == rows@[order@[k] as int],
    {
        out.push(rows[order[i]]);
    }
    assert(out@ =~= Seq::new(size as nat, |i: int| rows@[order@[i] as int]));
    out
}

/// The running peak is the highest figure so far: none so far stands above it,
/// and it is one of them.
pub proof fn law_the_running_peak_is_the_highest_so_far(nav: Seq<NavPoint>, n: int)
    requires
        0 < n <= nav.len(),
        forall|i: int| 0 <= i < nav.len() ==> !(#[trigger] nav[i]).value.nan(),
    ensures
        forall|j: int| 0 <= j < n ==> (#[trigger] nav[j]).value.at_most(peak_until(nav, n)),
        nav[0].value.finite() ==> exists|j: int|
            0 <= j < n && (#[trigger] nav[j]).value == peak_until(nav, n),
    decreases n,
{
    assert(!nav[n - 1].value.nan());
    assert(!nav[0].value.nan());
    if n > 1 {
        law_the_running_peak_is_the_highest_so_far(nav, n - 1);
        let before = peak_until(nav, n - 1);
        assert(nav[0].value.at_most(before));
        if nav[0].value.finite() {
            let j = choose|j: int| 0 <= j < n - 1 && (#[trigger] nav[j]).value == before;
            assert(nav[j].value == before);
            if peak_until(nav, n) == nav[n - 1].value {
                assert(nav[n - 1].value == peak_until(nav, n));
            }
        }
    } else if nav[0].value.finite() {
        assert(peak_until(nav, 0).below(nav[0].value));
        assert(nav[0].value == peak_until(nav, 1));
    }
}

/// The points of a year against its peak: as many as there are points, and what
/// comes later changes none of them.
proof fn lemma_year_points(nav: Seq<NavPoint>)
    ensures
        year_points(nav).len() == nav.len(),
        nav.len() > 0 ==> year_points(nav).drop_last() == year_points(nav.drop_last()),
    decreases nav.len(),
{
    if nav.len() > 0 {
        lemma_year_points(nav.drop_last());
        assert(year_points(nav).drop_last() =~= year_points(nav.drop_last()));
    }
}

/// Of a series in date order without anything that is no number, each point
/// stands against the highest figure of its own calendar year up to then: no
/// figure of the year so far stands above the peak, and the peak is one of
/// them.
pub proof fn law_the_peak_is_the_highest_of_its_year_so_far(nav: Seq<NavPoint>, i: int)
    requires
        forall|k: int| 0 <= k < nav.len() ==> !(#[trigger] nav[k]).value.nan(),
        forall|k: int| 0 <= k < nav.len() ==> crate::date::day_exists((#[trigger] nav[k]).date@),
        forall|a: int, b: int|
            0 <= a < b < nav.len() ==> (#[trigger] nav[a]).date.number() <= (
            #[trigger] nav[b]).date.number(),
        0 <= i < nav.len(),
    ensures
        year_points(nav).len() == nav.len(),
        year_points(nav)[i].year == nav[i].date@.year,
        year_points(nav)[i].value == nav[i].value,
        forall|j: int|
            0 <= j <= i && (#[trigger] nav[j]).date@.year == nav[i].date@.year
                ==> nav[j].value.at_most(year_points(nav)[i].peak),
        exists|j: int|
            0 <= j <= i && (#[trigger] nav[j]).date@.year == nav[i].date@.year && nav[j].value
                == year_points(nav)[i].peak,
    decreases nav.len(),
{
    let rest = nav.drop_last();
    let n = nav.len() - 1;
    lemma_year_points(nav);
    lemma_year_points(rest);
    let all = year_points(nav);
    assert forall|k: int| 0 <= k < rest.len() implies rest[k] == #[trigger] nav[k] by {}
    assert forall|k: int| 0 <= k < rest.len() implies !(#[trigger] rest[k]).value.nan() by {
        assert(rest[k] == nav[k]);
    }
    assert forall|k: int| 0 <= k < rest.len() implies crate::date::day_exists(
        (#[trigger] rest[k]).date@,
    ) by {
        assert(rest[k] == nav[k]);
    }
    assert forall|a: int, b: int| 0 <= a < b < rest.len() implies (
    #[trigger] rest[a]).date.number() <= (#[trigger] rest[b]).date.number() by {
        assert(rest[a] == nav[a] && rest[b] == nav[b]);
    }
    assert(crate::date::day_exists(nav[n].date@) && !nav[n].value.nan());
    if i < n {
        law_the_peak_is_the_highest_of_its_year_so_far(rest, i);
        assert(all[i] == year_points(rest)[i]) by {
            assert(all.drop_last()[i] == all[i]);
        }
        let j = choose|j: int|
            0 <= j <= i && (#[trigger] rest[j]).date@.year == rest[i].date@.year && rest[j].value
                == year_points(rest)[i].peak;
        assert(nav[j] == rest[j]);
        assert forall|j: int|
            0 <= j <= i && (#[trigger] nav[j]).date@.year == nav[i].date@.year implies nav[j].value.at_most(
        all[i].peak) by {
            assert(rest[j] == nav[j]);
        }
    } else {
        let p = nav[n];
        if n == 0 {
            assert(all[0].peak == nav[0].value);
        } else {
            law_the_peak_is_the_highest_of_its_year_so_far(rest, n - 1);
            let before = year_points(rest)[n - 1];
            assert(rest[n - 1] == nav[n - 1]);
            if nav[n - 1].date@.year == p.date@.year {
                let j = choose|j: int|
                    0 <= j <= n - 1 && (#[trigger] rest[j]).date@.year == rest[n - 1].date@.year
                        && rest[j].value == before.peak;
                assert(nav[j] == rest[j]);
                assert(nav[n].value == p.value);
                assert(!nav[j].value.nan());
                assert forall|j: int|
                    0 <= j <= n && (#[trigger] nav[j]).date@.year
                        == p.date@.year implies nav[j].value.at_most(all[n].peak) by {
                    if j < n {
                        assert(rest[j] == nav[j]);
                        assert(rest[j].value.at_most(before.peak));
                    }
                }
            } else {
                assert(all[n].peak == nav[n].value);
                assert forall|j: int|
                    0 <= j <= n && (#[trigger] nav[j]).date@.year
                        == p.date@.year implies nav[j].value.at_most(all[n].peak) by {
                    if j < n {
                        assert(nav[j].date.number() <= nav[n].date.number());
                        if j < n - 1 {
                            assert(nav[j].date.number() <= nav[n - 1].date.number());
                        }
                        assert(nav[n - 1].date.number() <= nav[n].date.number());
                        crate::date::law_day_numbers_follow_the_calendar(
                            nav[n - 1].date@,
                            nav[j].date@,
                        );
                        crate::date::law_day_numbers_follow_the_calendar(
                            nav[n].date@,
                            nav[n - 1].date@,
                        );
                    }
                }
            }
        }
    }
}

/// Within a year the peak never comes down.
pub proof fn law_a_peak_never_comes_down_within_a_year(nav: Seq<NavPoint>, i: int, j: int)
    requires
        forall|k: int| 0 <= k < nav.len() ==> !(#[trigger] nav[k]).value.nan(),
        forall|k: int| 0 <= k < nav.len() ==> crate::date::day_exists((#[trigger] nav[k]).date@),
        forall|a: int, b: int|
            0 <= a < b < nav.len() ==> (#[trigger] nav[a]).date.number() <= (
            #[trigger] nav[b]).date.number(),
        0 <= i <= j < nav.len(),
        nav[i].date@.year == nav[j].date@.year,
    ensures
        year_points(nav)[i].peak.at_most(year_points(nav)[j].peak),
{
    law_the_peak_is_the_highest_of_its_year_so_far(nav, i);
    law_the_peak_is_the_highest_of_its_year_so_far(nav, j);
    let k = choose|k: int|
        0 <= k <= i && (#[trigger] nav[k]).date@.year == nav[i].date@.year && nav[k].value
            == year_points(nav)[i].peak;
    assert(nav[k].value.at_most(year_points(nav)[j].peak));
}

/// Whether an episode is what is told of a fall: from the day and figure of the
/// peak to those of the trough, as many days long as lie between the two, and
/// recovered on the day of its end where it has one.
pub open spec fn tells(e: DrawdownEpisode, nav: Seq<NavPoint>, d: Dip) -> bool {
    &&& e.peak_date == nav[d.peak].date && e.peak_value == nav[d.peak].value
    &&& e.trough_date == nav[d.trough].date && e.trough_value == nav[d.trough].value
    &&& e.duration_days == e.trough_date.number() - e.peak_date.number()
    &&& match d.end {
        None => e.recovery_date is None,
        Some(k) => e.recovery_date == Some(nav[k].date),
    }
}

/// An episode tells of a fall below a peak, and of nothing else.
pub proof fn law_an_episode_tells_of_a_fall(nav: Seq<NavPoint>, i: int)
    requires
        forall|k: int| 0 <= k < nav.len() ==> !(#[trigger] nav[k]).value.nan(),
        forall|k: int| 0 <= k < nav.len() ==> crate::date::day_exists((#[trigger] nav[k]).date@),
        0 <= i < episodes_of(nav, dips(nav)).len(),
    ensures
        episodes_of(nav, dips(nav)).len() == dips(nav).len(),
        exists|d: Dip| #[trigger]
            is_fall(nav, d) && tells(episodes_of(nav, dips(nav))[i], nav, d),
{
    law_episodes_are_the_falls_below_a_peak(nav);
    let d = dips(nav)[i];
    assert(is_fall(nav, d));
    crate::date::lemma_day_number_range(nav[d.peak].date@);
    crate::date::lemma_day_number_range(nav[d.trough].date@);
    assert(tells(episodes_of(nav, dips(nav))[i], nav, d));
}

/// A short episode lasts a day at least and no longer than is asked for.
pub proof fn law_a_short_episode_lasts_a_day_at_least(e: DrawdownEpisode, max_calendar_days: i64)
    ensures
        short(e, max_calendar_days) <==> e.duration_days > 0 && !(e.duration_days
            > max_calendar_days),
{
}

/// The deepest come first: along the ranking no depth lies below one before it.
pub proof fn law_the_deepest_come_first(
    depths: Seq<Number>,
    rows: Seq<usize>,
    order: Seq<usize>,
    i: int,
    j: int,
)
    requires
        crate::order::in_order(depth_keys(depths, rows), order),
        0 <= i < j < rows.len(),
    ensures
        order[i] < rows.len() && order[j] < rows.len(),
        !depths[rows[order[j] as int] as int].below(depths[rows[order[i] as int] as int]),
        depths[rows[order[i] as int] as int] == depths[rows[order[j] as int] as int] ==> order[i]
            < order[j],
{
    let keys = depth_keys(depths, rows);
    assert(order[i] < keys.len() && order[j] < keys.len());
    assert(crate::order::precedes(keys, order[i] as int, order[j] as int));
    crate::number::law_the_total_order_refines_comparison(
        depths[rows[order[j] as int] as int],
        depths[rows[order[i] as int] as int],
    );
}

/// Of two figures the higher counts; one that is no number gives way to the
/// other.
pub proof fn law_the_higher_of_two_figures(a: Number, b: Number)
    ensures
        b.nan() ==> higher(a, b) == a,
        a.nan() && !b.nan() ==> higher(a, b) == b,
        a.below(b) ==> higher(a, b) == b,
        b.at_most(a) ==> higher(a, b) == a,
{
}

/// Each point takes part in the running peak, one after the other; before the
/// first the peak is below everything.
pub proof fn law_each_point_takes_part_in_the_peak(nav: Seq<NavPoint>, n: int, x: Number)
    requires
        0 <= n < nav.len(),
    ensures
        peak_until(nav, n + 1) == higher(peak_until(nav, n), nav[n].value),
        x.finite() ==> peak_until(nav, 0).below(x),
{
}

/// One more point stands against its own year: against the peak so far where the
/// point before it is of the same year, and against itself where it is not.
pub proof fn law_the_peak_starts_anew_with_each_year(nav: Seq<NavPoint>, p: NavPoint)
    ensures
        year_points(nav.push(p)).len() == nav.len() + 1,
        year_points(nav.push(p)).drop_last() == year_points(nav),
        year_points(nav.push(p)).last().value == p.value,
        crate::date::day_exists(p.date@) ==> year_points(nav.push(p)).last().year == p.date@.year,
        nav.len() > 0 && crate::date::day_exists(nav.last().date@) && nav.last().date@.year
            == p.date@.year ==> year_points(nav.push(p)).last().peak == higher(
            year_points(nav).last().peak,
            p.value,
        ),
        nav.len() == 0 || (crate::date::day_exists(nav.last().date@) && nav.last().date@.year
            != p.date@.year) ==> year_points(nav.push(p)).last().peak == p.value,
{
    lemma_year_points(nav);
    lemma_year_points(nav.push(p));
    assert(nav.push(p).drop_last() =~= nav);
    if nav.len() > 0 {
        lemma_year_points(nav.drop_last());
        assert(year_points(nav).last().year == nav.last().date@.year as i32);
    }
}

/// What one more point changes of what is known: at or above the peak it is the
/// new peak and ends the fall that was under way; below it, it is the trough
/// where it is the first, or lower than the trough so far.
pub proof fn law_one_more_point_recovers_or_falls(nav: Seq<NavPoint>, n: int)
    requires
        1 < n <= nav.len(),
    ensures
        ({
            let (was, now) = (watched(nav, n - 1), watched(nav, n));
            let v = nav[n - 1].value;
            let back = nav[was.peak].value.at_most(v);
            let lower = was.trough is None || v.below(nav[was.trough->0].value);
            &&& back ==> now.peak == n - 1 && now.trough is None
            &&& back && was.trough is None ==> now.over == was.over
            &&& back && was.trough is Some ==> now.over == was.over.push(
                Dip { peak: was.peak, trough: was.trough->0, end: Some(n - 1) },
            )
            &&& !back ==> now.peak == was.peak && now.over == was.over
            &&& !back && lower ==> now.trough == Some(n - 1)
            &&& !back && !lower ==> now.trough == was.trough
        }),
        watched(nav, 1).peak == 0 && watched(nav, 1).trough is None && watched(nav, 1).over.len()
            == 0,
        watched(nav, nav.len() as int).trough is None ==> dips(nav) == watched(
            nav,
            nav.len() as int,
        ).over,
        watched(nav, nav.len() as int).trough matches Some(t) ==> dips(nav) == watched(
            nav,
            nav.len() as int,
        ).over.push(Dip { peak: watched(nav, nav.len() as int).peak, trough: t, end: None }),
{
}

/// One more point deepens its own year alone: it opens the year where the last
/// one reported is another, at zero, and its fall counts where it lies lower.
pub proof fn law_one_more_fall_deepens_its_year(
    points: Seq<YearPoint>,
    falls: Seq<Number>,
    p: YearPoint,
    fall: Number,
)
    requires
        falls.len() == points.len(),
    ensures
        ({
            let was = deepest(points, falls);
            let now = deepest(points.push(p), falls.push(fall));
            let open = was.len() > 0 && was.last().year == p.year;
            let so_far = if open {
                was.last().max_drawdown
            } else {
                Number { bits: 0 }
            };
            &&& now.len() == if open {
                was.len()
            } else {
                was.len() + 1
            }
            &&& now.drop_last() == if open {
                was.drop_last()
            } else {
                was
            }
            &&& now.last().year == p.year
            &&& now.last().max_drawdown == if fall.below(so_far) {
                fall
            } else {
                so_far
            }
        }),
{
    assert(points.push(p).drop_last() =~= points);
    assert(falls.push(fall).drop_last() =~= falls);
    let was = deepest(points, falls);
    let now = deepest(points.push(p), falls.push(fall));
    let open = was.len() > 0 && was.last().year == p.year;
    assert(now.drop_last() =~= if open {
        was.drop_last()
    } else {
        was
    });
}

} // verus!
