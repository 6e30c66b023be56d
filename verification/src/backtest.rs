//! Regulatory VaR back-test: exceptions, zones and verdicts.

use crate::date::Date;
use crate::metrics::Span;
use crate::number::Number;
use crate::var::VarMethod;
use vstd::prelude::*;

verus! {

/// One day: its realized return, and the VaR of each method from the window
/// before it.
#[derive(Debug, Clone, Copy, PartialEq, Eq, Structural)]
pub struct BacktestDay {
    /// Date of the realized return being compared.
    pub date: Date,
    pub ret: Number,
    pub var_hist: Option<Number>,
    pub var_gauss: Option<Number>,
    pub var_cf: Option<Number>,
}

/// One day, and which methods it was an exception to.
#[derive(Debug, Clone, Copy, PartialEq, Eq, Structural)]
pub struct BacktestPoint {
    /// Date of the realized return being compared.
    pub date: Date,
    pub ret: Number,
    pub var_hist: Option<Number>,
    pub var_gauss: Option<Number>,
    pub var_cf: Option<Number>,
    pub exc_hist: bool,
    pub exc_gauss: bool,
    pub exc_cf: bool,
}

/// How one method fared.
#[derive(Debug, Clone)]
pub struct MethodSummary {
    pub exceptions: u32,
    pub n: u32,
    /// "green" (<=4), "yellow" (5-9), "red" (>=10) over trailing min(250, n).
    pub zone: String,
    pub kupiec_lr: Option<Number>,
    pub kupiec_p: Option<Number>,
    pub reject: bool,
}

/// The stretches of returns that VaR is taken from: for each return with
/// `window` returns before it, those returns. The return itself stands at the
/// end of its stretch. Empty with insufficient history.
pub fn backtest_windows(count: usize, window: usize) -> (r: Vec<Span>)
    ensures
        window < 2 || count <= window ==> r@.len() == 0,
        window >= 2 && count > window ==> r@ == Seq::new(
            (count - window) as nat,
            |i: int| Span { start: i as usize, end: (i + window) as usize },
        ),
{
    let mut out: Vec<Span> = Vec::new();
    if window < 2 || count <= window {
        return out;
    }
    let mut start: usize = 0;
    while start < count - window
        invariant
            2 <= window < count,
            start <= count - window,
            out@ =~= Seq::new(
                start as nat,
                |i: int| Span { start: i as usize, end: (i + window) as usize },
            ),
        decreases count - start,
    {
        out.push(Span { start, end: start + window });
        start = start + 1;
    }
    out
}

/// Whether a return is an exception to a VaR: it fell below the loss that the
/// VaR allows. Without a VaR there is none.
pub open spec fn exception(ret: Number, var: Option<Number>) -> bool {
    var matches Some(v) && ret.below(v.turned())
}

fn is_exception(ret: Number, var: Option<Number>) -> (r: bool)
    ensures
        r == exception(ret, var),
{
    match var {
        None => false,
        Some(v) => ret.is_below(&v.negated()),
    }
}

/// The point of a day.
pub open spec fn point_of(d: BacktestDay) -> BacktestPoint {
    BacktestPoint {
        date: d.date,
        ret: d.ret,
        var_hist: d.var_hist,
        var_gauss: d.var_gauss,
        var_cf: d.var_cf,
        exc_hist: exception(d.ret, d.var_hist),
        exc_gauss: exception(d.ret, d.var_gauss),
        exc_cf: exception(d.ret, d.var_cf),
    }
}

/// The back-test, day by day.
pub fn backtest(days: &[BacktestDay]) -> (r: Vec<BacktestPoint>)
    ensures
        r@ == days@.map_values(|d: BacktestDay| point_of(d)),
{
    let mut out: Vec<BacktestPoint> = Vec::new();
    for i in 0..days.len()
        invariant
            out@.len() == i,
            forall|k: int| 0 <= k < i ==> (#[trigger] out@[k]) == point_of(days@[k]),
    {
        let d = days[i];
        out.push(
            BacktestPoint {
                date: d.date,
                ret: d.ret,
                var_hist: d.var_hist,
                var_gauss: d.var_gauss,
                var_cf: d.var_cf,
                exc_hist: is_exception(d.ret, d.var_hist),
                exc_gauss: is_exception(d.ret, d.var_gauss),
                exc_cf: is_exception(d.ret, d.var_cf),
            },
        );
    }
    assert(out@ =~= days@.map_values(|d: BacktestDay| point_of(d)));
    out
}

/// How many of the last points a summary looks at.
pub const TRAILING_POINTS: usize = 250;

/// The last points, as far as a summary looks.
pub open spec fn trailing(points: Seq<BacktestPoint>) -> Seq<BacktestPoint> {
    if points.len() > TRAILING_POINTS {
        points.skip(points.len() - TRAILING_POINTS)
    } else {
        points
    }
}

/// Whether a point is an exception to a method.
pub open spec fn excepted(p: BacktestPoint, method: VarMethod) -> bool {
    match method {
        VarMethod::Historical => p.exc_hist,
        VarMethod::Gaussian => p.exc_gauss,
        VarMethod::CornishFisher => p.exc_cf,
    }
}

/// How many points are exceptions to a method.
pub open spec fn exceptions_in(points: Seq<BacktestPoint>, method: VarMethod) -> int
    decreases points.len(),
{
    if points.len() == 0 {
        0
    } else {
        exceptions_in(points.drop_last(), method) + if excepted(points.last(), method) {
            1int
        } else {
            0int
        }
    }
}

/// How many points a summary looks at, and how many of them are exceptions.
#[derive(Debug, Clone, Copy, PartialEq, Eq, Structural)]
pub struct Tally {
    pub n: u32,
    pub exceptions: u32,
}

/// Counts the exceptions to a method over the trailing points.
pub fn tally(points: &[BacktestPoint], method: VarMethod) -> (r: Tally)
    ensures
        r.n == trailing(points@).len(),
        r.exceptions == exceptions_in(trailing(points@), method),
        r.exceptions <= r.n <= TRAILING_POINTS,
{
    let first: usize = if points.len() > TRAILING_POINTS {
        points.len() - TRAILING_POINTS
    } else {
        0
    };
    let ghost tail = trailing(points@);
    assert(tail =~= points@.skip(first as int));
    let mut n: u32 = 0;
    let mut exceptions: u32 = 0;
    let mut i: usize = first;
    while i < points.len()
        invariant
            first <= i <= points@.len(),
            points@.len() - first <= TRAILING_POINTS,
            tail == points@.skip(first as int),
            n == i - first,
            exceptions <= n,
            exceptions == exceptions_in(tail.take(n as int), method),
        decreases points@.len() - i,
    {
        let p = points[i];
        proof {
            assert(tail.take(n + 1).drop_last() =~= tail.take(n as int));
            assert(tail.take(n + 1).last() == points@[i as int]);
        }
        let hit: bool = match method {
            VarMethod::Historical => p.exc_hist,
            VarMethod::Gaussian => p.exc_gauss,
            VarMethod::CornishFisher => p.exc_cf,
        };
        if hit {
            exceptions = exceptions + 1;
        }
        n = n + 1;
        i = i + 1;
    }
    assert(tail.take(tail.len() as int) =~= tail);
    Tally { n, exceptions }
}

/// The zone of a number of exceptions.
pub open spec fn zone_of(exceptions: int) -> Seq<char> {
    if exceptions <= 4 {
        "green"@
    } else if exceptions <= 9 {
        "yellow"@
    } else {
        "red"@
    }
}

/// Whether the proportion-of-failures test is defined: there are points, no
/// more exceptions than points, and a probability inside (0, 1).
pub fn kupiec_is_defined(n: u32, exceptions: u32, p: Number) -> (r: bool)
    ensures
        r == !(n == 0 || exceptions > n || p.at_most(Number { bits: 0 }) || (Number {
            bits: crate::var::WHOLE,
        }).at_most(p)),
{
    let whole = Number { bits: crate::var::WHOLE };
    !(n == 0 || exceptions > n || p.is_at_most(&Number::zero()) || whole.is_at_most(&p))
}

/// The bits of the figure nearest to 0.05: a model is rejected below this
/// p-value.
pub const REJECTION_LEVEL: u64 = 0x3FA9_9999_9999_999A;

/// The summary of a method, from its tally and its likelihood ratio and
/// p-value where the test is defined.
pub fn summarize(t: Tally, kupiec: Option<(Number, Number)>) -> (r: MethodSummary)
    ensures
        r.n == t.n,
        r.exceptions == t.exceptions,
        r.zone@ == zone_of(t.exceptions as int),
        match kupiec {
            None => r.kupiec_lr is None && r.kupiec_p is None && !r.reject,
            Some((lr, p)) => r.kupiec_lr == Some(lr) && r.kupiec_p == Some(p) && r.reject
                == p.below(Number { bits: REJECTION_LEVEL }),
        },
{
    let zone = if t.exceptions <= 4 {
        "green"
    } else if t.exceptions <= 9 {
        "yellow"
    } else {
        "red"
    };
    let (kupiec_lr, kupiec_p, reject) = match kupiec {
        None => (None, None, false),
        Some((lr, p)) => (Some(lr), Some(p), p.is_below(&Number { bits: REJECTION_LEVEL })),
    };
    MethodSummary {
        exceptions: t.exceptions,
        n: t.n,
        zone: zone.to_string(),
        kupiec_lr,
        kupiec_p,
        reject,
    }
}

/// A deeper loss than an exception is an exception too.
pub proof fn law_a_deeper_loss_is_an_exception_too(
    ret: Number,
    deeper: Number,
    var: Option<Number>,
)
    requires
        exception(ret, var),
        deeper.at_most(ret),
    ensures
        exception(deeper, var),
{
}

/// Whether a return lies below the loss that a VaR allows, both taken by the
/// sizes that they stand for.
pub open spec fn lost_more_than(ret: Number, var: Option<Number>) -> bool {
    var matches Some(v) && ret.in_smallest_units() < -v.in_smallest_units()
}

/// For each of the three methods alike a day is an exception exactly when the
/// method has a VaR on it and the return lies below the loss that it allows. A
/// day repeats what it was judged by.
pub proof fn law_an_exception_is_a_loss_beyond_the_var(d: BacktestDay)
    requires
        d.ret.finite(),
        d.var_hist matches Some(v) ==> v.finite(),
        d.var_gauss matches Some(v) ==> v.finite(),
        d.var_cf matches Some(v) ==> v.finite(),
    ensures
        point_of(d).exc_hist <==> lost_more_than(d.ret, d.var_hist),
        point_of(d).exc_gauss <==> lost_more_than(d.ret, d.var_gauss),
        point_of(d).exc_cf <==> lost_more_than(d.ret, d.var_cf),
        point_of(d).date == d.date && point_of(d).ret == d.ret,
        point_of(d).var_hist == d.var_hist && point_of(d).var_gauss == d.var_gauss
            && point_of(d).var_cf == d.var_cf,
{
    lemma_exception_is_numeric(d.ret, d.var_hist);
    lemma_exception_is_numeric(d.ret, d.var_gauss);
    lemma_exception_is_numeric(d.ret, d.var_cf);
}

proof fn lemma_exception_is_numeric(ret: Number, var: Option<Number>)
    requires
        ret.finite(),
        var matches Some(v) ==> v.finite(),
    ensures
        exception(ret, var) <==> lost_more_than(ret, var),
{
    if let Some(v) = var {
        crate::number::law_signs_are_numeric(v);
        crate::number::law_comparison_is_numeric(ret, v.turned());
    }
}

/// Where any figure is no number nothing is an exception to its method, a gain
/// is none to a VaR that is not below zero, and equal VaRs give equal flags.
pub proof fn law_no_method_is_judged_differently(d: BacktestDay)
    ensures
        d.ret.nan() ==> !point_of(d).exc_hist && !point_of(d).exc_gauss && !point_of(d).exc_cf,
        (d.var_hist matches Some(v) ==> v.nan()) ==> !point_of(d).exc_hist,
        (d.var_gauss matches Some(v) ==> v.nan()) ==> !point_of(d).exc_gauss,
        (d.var_cf matches Some(v) ==> v.nan()) ==> !point_of(d).exc_cf,
        !d.ret.negative() ==> (d.var_hist matches Some(v) && !v.negative() ==> !point_of(
            d,
        ).exc_hist),
        !d.ret.negative() ==> (d.var_gauss matches Some(v) && !v.negative() ==> !point_of(
            d,
        ).exc_gauss),
        !d.ret.negative() ==> (d.var_cf matches Some(v) && !v.negative() ==> !point_of(d).exc_cf),
        d.var_hist == d.var_gauss ==> point_of(d).exc_hist == point_of(d).exc_gauss,
        d.var_hist == d.var_cf ==> point_of(d).exc_hist == point_of(d).exc_cf,
        d.var_gauss == d.var_cf ==> point_of(d).exc_gauss == point_of(d).exc_cf,
{
}

/// A summary looks at the last 250 points, or at all where there are fewer, and
/// counts those among them that carry the flag of its method.
pub proof fn law_a_summary_counts_the_last_points(points: Seq<BacktestPoint>)
    ensures
        trailing(points).len() == if points.len() < 250 {
            points.len() as int
        } else {
            250
        },
        forall|i: int|
            0 <= i < trailing(points).len() ==> #[trigger] trailing(points)[i] == points[points.len()
                - trailing(points).len() + i],
        exceptions_in(points, VarMethod::Historical) == points.filter(
            |p: BacktestPoint| p.exc_hist,
        ).len(),
        exceptions_in(points, VarMethod::Gaussian) == points.filter(
            |p: BacktestPoint| p.exc_gauss,
        ).len(),
        exceptions_in(points, VarMethod::CornishFisher) == points.filter(
            |p: BacktestPoint| p.exc_cf,
        ).len(),
    decreases points.len(),
{
    reveal(Seq::filter);
    if points.len() > 0 {
        law_a_summary_counts_the_last_points(points.drop_last());
    }
}

/// Up to four exceptions are green, up to nine yellow, and from ten on red.
pub proof fn law_zones_turn_at_five_and_ten(exceptions: int)
    ensures
        zone_of(exceptions) == "green"@ <==> exceptions < 5,
        zone_of(exceptions) == "yellow"@ <==> 5 <= exceptions < 10,
        zone_of(exceptions) == "red"@ <==> 10 <= exceptions,
{
    reveal_strlit("green");
    reveal_strlit("yellow");
    reveal_strlit("red");
    assert("green"@.len() == 5 && "yellow"@.len() == 6 && "red"@.len() == 3);
}

/// A model is rejected below one in twenty.
pub proof fn law_a_model_is_rejected_below_one_in_twenty()
    ensures
        crate::binary64::closest(Number { bits: REJECTION_LEVEL }, 1, 20),
{
    vstd::arithmetic::power2::lemma2_to64();
    vstd::arithmetic::power2::lemma2_to64_rest();
    crate::binary64::lemma_closest(Number { bits: REJECTION_LEVEL }, 1017, 0x1999999999999a, 57, 1, 20);
}

/// Of whatever figures, a day is an exception to a method exactly when its
/// return compares below the negative of the method's VaR.
pub proof fn law_an_exception_compares_below_the_negative_var(d: BacktestDay)
    ensures
        point_of(d).exc_hist <==> d.var_hist is Some && d.ret.below(d.var_hist->0.turned()),
        point_of(d).exc_gauss <==> d.var_gauss is Some && d.ret.below(d.var_gauss->0.turned()),
        point_of(d).exc_cf <==> d.var_cf is Some && d.ret.below(d.var_cf->0.turned()),
{
}

} // verus!
