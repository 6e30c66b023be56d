//! Bond coupon and redemption inflows, built from the schedule the
//! depositary sends daily rather than reconstructed.
//!
//! The frequency divides the coupon, so a wrong guess scales the inflow
//! directly: a semi-annual bond treated as annual pays double. There is no
//! safe default, and the sources below are tried in order.

use crate::bizdays::business_days_between;
use crate::date::{CalendarDay, Date, MAX_YEAR};
use crate::number::Number;
use crate::text::same_ignoring_case;
use vstd::prelude::*;

verus! {

/// A bond, as far as its inflows depend on it.
#[derive(Debug, Clone)]
pub struct CouponInput {
    pub code: String,
    /// Face amount. Bond prices are quoted per 100 of the nominal, so the
    /// coupon is a percentage of this quantity directly.
    pub quantity: Number,
    pub coupon_pct: Option<Number>,
    pub coupon_type: Option<String>,
    pub next_coupon: Option<Date>,
    pub maturity: Option<Date>,
    pub freq: Option<i32>,
    pub accrued_eur: Option<Number>,
    pub fx_rate: Number,
}

/// How the time between coupons, worked out from accrued interest, fits the
/// standard periods of 365, 182.5, 91.25 and 30.4167 days.
///
/// With `C` the annual coupon, `A` the accrued interest in the same currency,
/// and `g` the calendar days to the next coupon, the elapsed accrual is
/// `365 A / C` and the full period is `elapsed + g`.
#[derive(Debug, Clone, Copy, PartialEq, Eq, Structural)]
pub struct PeriodFit {
    pub period: Number,
    /// The relative distance of the period from one year.
    pub from_annual: Number,
    /// The relative distance from half a year.
    pub from_semi_annual: Number,
    /// The relative distance from a quarter.
    pub from_quarterly: Number,
    /// The relative distance from a month.
    pub from_monthly: Number,
}

/// The figures of a bond that the schedule depends on. They are looked at only
/// where the bond pays a coupon, and the fit only where it has accrued
/// interest and a next coupon.
#[derive(Debug, Clone, Copy, PartialEq, Eq, Structural)]
pub struct CouponFigures {
    /// A year's coupons in EUR.
    pub annual_eur: Number,
    pub fit: PeriodFit,
}

/// Where an inflow comes from.
#[derive(Debug, Clone, Copy, PartialEq, Eq, Structural)]
pub enum InflowKind {
    /// One of so many coupons a year.
    Coupon { freq: i32 },
    /// The face amount.
    Redemption,
}

/// One payment of one bond.
#[derive(Debug, Clone, Copy, PartialEq, Eq, Structural)]
pub struct Inflow {
    /// Which of the bonds pays.
    pub bond: usize,
    /// Business-day offset from the snapshot date.
    pub day: u32,
    pub kind: InflowKind,
}

/// A bond whose coupons could not be placed, and why.
#[derive(Debug, Clone)]
pub struct CouponGap {
    pub code: String,
    pub reason: &'static str,
}

/// What the bonds pay, and which could not be placed.
#[derive(Debug)]
pub struct CouponResult {
    pub inflows: Vec<Inflow>,
    pub gaps: Vec<CouponGap>,
}

/// The bits of the figure nearest to 0.15: how far a period may lie from a
/// standard one. Wide enough to absorb the day-count convention the file does
/// not disclose, narrow enough to reject a period matching nothing.
pub const PERIOD_TOLERANCE: u64 = 0x3FC3_3333_3333_3333;

/// Whether a relative distance is within tolerance.
pub open spec fn close_enough(distance: Number) -> bool {
    distance.at_most(Number { bits: PERIOD_TOLERANCE })
}

/// The distances to the standard periods, from the longest period down.
pub open spec fn distances(fit: PeriodFit) -> Seq<(i32, Number)> {
    seq![
        (1i32, fit.from_annual),
        (2i32, fit.from_semi_annual),
        (4i32, fit.from_quarterly),
        (12i32, fit.from_monthly),
    ]
}

/// Whether a frequency is that of the nearest standard period within
/// tolerance; of two equally near the longer period.
pub open spec fn nearest(fit: PeriodFit, k: int) -> bool {
    let all = distances(fit);
    &&& 0 <= k < all.len()
    &&& close_enough(all[k].1)
    &&& forall|j: int|
        0 <= j < all.len() && close_enough((#[trigger] all[j]).1) ==> all[k].1.total_place()
            < all[j].1.total_place() || (all[k].1.total_place() == all[j].1.total_place() && k <= j)
}

/// Whether accrued interest says anything of the frequency at all.
pub open spec fn telling(annual: Number, accrued: Number, days: int, fit: PeriodFit) -> bool {
    &&& annual.finite() && annual.positive()
    &&& accrued.finite() && !accrued.negative()
    &&& days >= 0
    &&& fit.period.finite() && fit.period.positive()
}

/// Whether a frequency is what accrued interest implies.
pub open spec fn implied(
    annual: Number,
    accrued: Number,
    days: int,
    fit: PeriodFit,
    freq: Option<i32>,
) -> bool {
    match freq {
        None => !telling(annual, accrued, days, fit) || forall|k: int|
            0 <= k < distances(fit).len() ==> !close_enough((#[trigger] distances(fit)[k]).1),
        Some(f) => telling(annual, accrued, days, fit) && exists|k: int| #[trigger]
            nearest(fit, k) && f == distances(fit)[k].0,
    }
}

/// Infer the coupon frequency from accrued interest: the nearest standard
/// period, accepted only within 15%.
pub fn infer_coupon_freq(
    annual_coupon: Number,
    accrued: Number,
    days_to_next_coupon: i64,
    fit: PeriodFit,
) -> (r: Option<i32>)
    ensures
        implied(annual_coupon, accrued, days_to_next_coupon as int, fit, r),
{
    if !annual_coupon.is_finite() || !annual_coupon.is_positive() {
        return None;
    }
    if !accrued.is_finite() || accrued.is_negative() {
        return None;
    }
    if days_to_next_coupon < 0 {
        return None;
    }
    if !fit.period.is_finite() || !fit.period.is_positive() {
        return None;
    }
    let tolerance = Number { bits: PERIOD_TOLERANCE };
    let all: [(i32, Number); 4] = [
        (1, fit.from_annual),
        (2, fit.from_semi_annual),
        (4, fit.from_quarterly),
        (12, fit.from_monthly),
    ];
    assert(all@ =~= distances(fit));
    let mut best: Option<usize> = None;
    for i in 0..4usize
        invariant
            all@ == distances(fit),
            tolerance.bits == PERIOD_TOLERANCE,
            match best {
                None => forall|k: int|
                    0 <= k < i ==> !close_enough((#[trigger] distances(fit)[k]).1),
                Some(b) => b < i && close_enough(distances(fit)[b as int].1) && forall|j: int|
                    0 <= j < i && close_enough((#[trigger] distances(fit)[j]).1)
                        ==> distances(fit)[b as int].1.total_place()
                        < distances(fit)[j].1.total_place() || (
                    distances(fit)[b as int].1.total_place() == distances(fit)[j].1.total_place()
                        && b <= j),
            },
    {
        let d = all[i].1;
        assert(distances(fit)[i as int].1 == d);
        if d.is_at_most(&tolerance) {
            match best {
                None => {
                    best = Some(i);
                },
                Some(b) => {
                    if d.total_key() < all[b].1.total_key() {
                        best = Some(i);
                    }
                },
            }
        }
    }
    match best {
        None => None,
        Some(b) => {
            assert(nearest(fit, b as int));
            Some(all[b].0)
        },
    }
}

/// A day moved on by whole months, the day of the month clamped to the length
/// of the month it lands in.
pub open spec fn moved(d: CalendarDay, months: int) -> CalendarDay {
    let total = d.year * 12 + (d.month - 1) + months;
    let year = total / 12;
    let month = total % 12 + 1;
    let last = crate::date::month_length(year, month);
    CalendarDay {
        year,
        month,
        day: if d.day < last {
            d.day
        } else {
            last
        },
    }
}

/// Add whole months, clamping the day to the target month's length.
fn add_months(d: Date, months: u32) -> (r: Option<Date>)
    requires
        months <= 100_000_000,
    ensures
        r is Some <==> crate::date::day_exists(moved(d@, months as int)),
        r matches Some(x) ==> x@ == moved(d@, months as int),
        r is Some ==> months <= 6_291_432,
{
    let total: u32 = d.month() - 1 + months;
    let year: i32 = d.year() + (total / 12) as i32;
    let month: u32 = total % 12 + 1;
    let last: u32 = if month == 2 {
        if (year % 4 == 0 && year % 100 != 0) || year % 400 == 0 {
            29
        } else {
            28
        }
    } else if month == 4 || month == 6 || month == 9 || month == 11 {
        30
    } else {
        31
    };
    assert(crate::date::leap(year as int) == ((year % 4 == 0 && year % 100 != 0) || year % 400
        == 0));
    let day: u32 = if d.day() < last {
        d.day()
    } else {
        last
    };
    assert(crate::date::calendar_day(year, month, day) == moved(d@, months as int));
    Date::from_ymd_opt(year, month, day)
}

/// When a bond pays: its first coupon, the months between coupons, the day it
/// matures, and the window that is looked at.
pub struct Terms {
    pub first: CalendarDay,
    pub step: int,
    pub maturity: Option<Date>,
    pub snapshot: int,
    pub horizon: int,
}

/// The business-day offset of the coupon that many months after the first.
pub open spec fn coupon_day(t: Terms, months: int) -> int {
    crate::bizdays::working_days(
        t.snapshot,
        crate::date::day_number(moved(t.first, months)),
    ) as int
}

/// Whether the coupon that many months after the first is paid within the
/// window: not in the past (it is in the position already), not past the
/// horizon, and not past maturity.
pub open spec fn pays(t: Terms, months: int) -> bool {
    &&& crate::date::day_exists(moved(t.first, months))
    &&& 0 < coupon_day(t, months) <= t.horizon
    &&& t.maturity matches Some(m) ==> crate::date::day_number(moved(t.first, months))
        <= m.number()
}

/// The offsets of the coupons from one on, up to the first that is not paid.
/// Each is worked out from the first coupon, never from the one before.
pub open spec fn coupon_days(t: Terms, months: int) -> Seq<int>
    decreases (MAX_YEAR + 1) * 12 + t.step - (t.first.year * 12 + (t.first.month - 1) + months),
    when t.step >= 1
{
    if pays(t, months) {
        seq![coupon_day(t, months)] + coupon_days(t, months + t.step)
    } else {
        Seq::empty()
    }
}

/// Whether a bond pays a coupon at all. A zero-coupon instrument is not a gap;
/// it simply pays nothing. A figure that is no number is a data-quality
/// signal, not a coupon, so it is treated the same as a zero coupon.
pub open spec fn bears_coupon(b: CouponInput) -> bool {
    &&& b.coupon_pct matches Some(pct) && pct.finite() && pct.positive()
    &&& b.coupon_type matches Some(t) && crate::text::same_but_for_case(t@, "FIX"@)
    &&& b.quantity.finite() && b.quantity.positive()
    &&& b.fx_rate.finite() && b.fx_rate.positive()
}

/// Whether a frequency is the one that a bond pays with: the one it states
/// where it states one, else the one that its accrued interest implies.
pub open spec fn resolved(
    b: CouponInput,
    figures: CouponFigures,
    snapshot: Date,
    freq: Option<i32>,
) -> bool {
    if b.freq is Some && b.freq->0 > 0 {
        freq == b.freq
    } else if b.accrued_eur is Some && b.next_coupon is Some {
        implied(
            figures.annual_eur,
            b.accrued_eur->0,
            b.next_coupon->0.number() - snapshot.number(),
            figures.fit,
            freq,
        )
    } else {
        freq is None
    }
}

/// The months between coupons.
pub open spec fn months_apart(freq: i32) -> int {
    if freq <= 12 {
        12int / (freq as int)
    } else {
        1
    }
}

/// The terms of a bond with a next coupon and a frequency.
pub open spec fn terms_of(b: CouponInput, freq: i32, snapshot: Date, horizon: u32) -> Terms {
    Terms {
        first: b.next_coupon->0@,
        step: months_apart(freq),
        maturity: b.maturity,
        snapshot: snapshot.number(),
        horizon: horizon as int,
    }
}

/// The coupons of a bond, as inflows.
pub open spec fn coupon_inflows(bond: usize, freq: i32, days: Seq<int>) -> Seq<Inflow> {
    days.map_values(
        |day: int| Inflow { bond, day: day as u32, kind: InflowKind::Coupon { freq } },
    )
}

/// Whether a bond's face amount is paid within the window.
pub open spec fn redeems(b: CouponInput, snapshot: Date, horizon: u32) -> bool {
    &&& b.maturity matches Some(m) && 0 < crate::bizdays::working_days(
        snapshot.number(),
        m.number(),
    ) <= horizon
    &&& b.quantity.positive()
    &&& b.fx_rate.finite() && b.fx_rate.positive()
}

/// The redemption of a bond, where there is one within the window.
pub open spec fn redemption(bond: usize, b: CouponInput, snapshot: Date, horizon: u32) -> Seq<
    Inflow,
> {
    if redeems(b, snapshot, horizon) {
        seq![
            Inflow {
                bond,
                day: crate::bizdays::working_days(
                    snapshot.number(),
                    b.maturity->0.number(),
                ) as u32,
                kind: InflowKind::Redemption,
            },
        ]
    } else {
        Seq::empty()
    }
}

/// The frequency that a bond pays with, where there is one. There is never
/// more than one (see `law_a_bond_has_one_frequency`).
pub open spec fn freq_of(b: CouponInput, figures: CouponFigures, snapshot: Date) -> Option<i32> {
    choose|freq: Option<i32>| #[trigger] resolved(b, figures, snapshot, freq)
}

/// The coupons that a bond adds.
pub open spec fn coupons_of(
    bond: usize,
    b: CouponInput,
    figures: CouponFigures,
    snapshot: Date,
    horizon: u32,
) -> Seq<Inflow> {
    if bears_coupon(b) && b.next_coupon is Some {
        match freq_of(b, figures, snapshot) {
            None => Seq::empty(),
            Some(f) => coupon_inflows(
                bond,
                f,
                coupon_days(terms_of(b, f, snapshot, horizon), 0),
            ),
        }
    } else {
        Seq::empty()
    }
}

/// Why a bond that bears a coupon could not be placed, if it could not.
pub open spec fn gap_of(b: CouponInput, figures: CouponFigures, snapshot: Date) -> Option<
    Seq<char>,
> {
    if !bears_coupon(b) {
        None
    } else if b.next_coupon is None {
        Some("no next coupon date"@)
    } else if freq_of(b, figures, snapshot) is None {
        Some("no resolvable frequency"@)
    } else {
        None
    }
}

/// What the bonds pay, in their order: each its coupons, then its face amount.
pub open spec fn all_inflows(
    inputs: Seq<CouponInput>,
    figures: Seq<CouponFigures>,
    snapshot: Date,
    horizon: u32,
) -> Seq<Inflow>
    decreases inputs.len(),
{
    if inputs.len() == 0 {
        Seq::empty()
    } else {
        let bond = (inputs.len() - 1) as usize;
        all_inflows(inputs.drop_last(), figures.drop_last(), snapshot, horizon) + coupons_of(
            bond,
            inputs.last(),
            figures.last(),
            snapshot,
            horizon,
        ) + redemption(bond, inputs.last(), snapshot, horizon)
    }
}

/// Which bonds could not be placed and why, in their order.
pub open spec fn all_gaps(
    inputs: Seq<CouponInput>,
    figures: Seq<CouponFigures>,
    snapshot: Date,
) -> Seq<(Seq<char>, Seq<char>)>
    decreases inputs.len(),
{
    if inputs.len() == 0 {
        Seq::empty()
    } else {
        let earlier = all_gaps(inputs.drop_last(), figures.drop_last(), snapshot);
        match gap_of(inputs.last(), figures.last(), snapshot) {
            None => earlier,
            Some(reason) => earlier.push((inputs.last().code@, reason)),
        }
    }
}

/// The gaps as texts.
pub open spec fn gap_texts(gaps: Seq<CouponGap>) -> Seq<(Seq<char>, Seq<char>)> {
    gaps.map_values(|g: CouponGap| (g.code@, g.reason@))
}

/// A bond has one frequency at most.
pub proof fn law_a_bond_has_one_frequency(
    b: CouponInput,
    figures: CouponFigures,
    snapshot: Date,
    x: Option<i32>,
    y: Option<i32>,
)
    requires
        resolved(b, figures, snapshot, x),
        resolved(b, figures, snapshot, y),
    ensures
        x == y,
{
    let all = distances(figures.fit);
    assert forall|i: int, j: int| #[trigger]
        nearest(figures.fit, i) && #[trigger] nearest(figures.fit, j) implies i == j by {
        assert(close_enough(all[i].1) && close_enough(all[j].1));
    }
    assert forall|k: int| #[trigger] nearest(figures.fit, k) implies close_enough(all[k].1) by {}
}

/// The frequency that a bond pays with.
fn resolve_freq(b: &CouponInput, figures: &CouponFigures, snapshot: Date, first: Date) -> (r: Option<
    i32,
>)
    requires
        b.next_coupon == Some(first),
    ensures
        resolved(*b, *figures, snapshot, r),
        r matches Some(f) ==> f > 0,
{
    if let Some(f) = b.freq {
        if f > 0 {
            return Some(f);
        }
    }
    match b.accrued_eur {
        None => None,
        Some(accrued) => {
            let days: i64 = first.day_count() as i64 - snapshot.day_count() as i64;
            infer_coupon_freq(figures.annual_eur, accrued, days, figures.fit)
        },
    }
}

/// Whether a bond pays a coupon at all.
fn pays_coupons(b: &CouponInput) -> (r: bool)
    ensures
        r == bears_coupon(*b),
{
    let rate: bool = match b.coupon_pct {
        Some(pct) => pct.is_finite() && pct.is_positive(),
        None => false,
    };
    let fixed: bool = match &b.coupon_type {
        Some(t) => same_ignoring_case(t.as_str(), "FIX"),
        None => false,
    };
    rate && fixed && b.quantity.is_finite() && b.quantity.is_positive() && b.fx_rate.is_finite()
        && b.fx_rate.is_positive()
}

/// Appends the coupons of one bond, and says what gap it leaves.
fn coupon_schedule(
    bond: usize,
    b: &CouponInput,
    figures: &CouponFigures,
    snapshot: Date,
    horizon: u32,
    out: &mut Vec<Inflow>,
) -> (gap: Option<&'static str>)
    ensures
        final(out)@ == old(out)@ + coupons_of(bond, *b, *figures, snapshot, horizon),
        match gap {
            None => gap_of(*b, *figures, snapshot) is None,
            Some(g) => gap_of(*b, *figures, snapshot) == Some(g@),
        },
{
    let ghost before = out@;
    assert(before + Seq::<Inflow>::empty() =~= before);
    if !pays_coupons(b) {
        return None;
    }
    let first = match b.next_coupon {
        None => {
            return Some("no next coupon date");
        },
        Some(d) => d,
    };
    let freq = resolve_freq(b, figures, snapshot, first);
    proof {
        law_a_bond_has_one_frequency(
            *b,
            *figures,
            snapshot,
            freq,
            freq_of(*b, *figures, snapshot),
        );
    }
    let f: i32 = match freq {
        None => {
            return Some("no resolvable frequency");
        },
        Some(f) => f,
    };
    let step: u32 = if f <= 12 {
        (12 / f) as u32
    } else {
        1
    };
    let ghost t = terms_of(*b, f, snapshot, horizon);
    proof {
        assert(1 <= step <= 12) by (nonlinear_arith)
            requires
                f > 0,
                step == (if f <= 12 {
                    12int / (f as int)
                } else {
                    1
                }),
        ;
    }
    let mut months: u32 = 0;
    loop
        invariant_except_break
            t == terms_of(*b, f, snapshot, horizon),
            t.first == first@,
            t.step == step,
            1 <= step <= 12,
            months <= 7_000_000,
            before + coupon_inflows(bond, f, coupon_days(t, 0)) == out@ + coupon_inflows(
                bond,
                f,
                coupon_days(t, months as int),
            ),
        ensures
            out@ == before + coupon_inflows(bond, f, coupon_days(t, 0)),
        decreases 7_000_000 - months,
    {
        let ghost rest = coupon_days(t, months as int);
        proof {
            if !pays(t, months as int) {
                assert(out@ + coupon_inflows(bond, f, rest) =~= out@);
            }
        }
        let date = match add_months(first, months) {
            None => {
                break;
            },
            Some(d) => d,
        };
        let day: u32 = business_days_between(snapshot, date);
        if day == 0 || day > horizon {
            break;
        }
        let past: bool = match b.maturity {
            None => false,
            Some(m) => m.is_before(&date),
        };
        if past {
            break;
        }
        let ghost paid = out@;
        out.push(Inflow { bond, day, kind: InflowKind::Coupon { freq: f } });
        proof {
            assert(pays(t, months as int));
            let later = coupon_days(t, months + step);
            assert(rest == seq![day as int] + later);
            assert(paid + coupon_inflows(bond, f, rest) =~= out@ + coupon_inflows(bond, f, later));
        }
        months = months + step;
    }
    None
}

/// What the bonds pay within the window: each its coupons, then its face
/// amount. `figures` holds one entry per bond.
pub fn bond_inflows(
    inputs: &[CouponInput],
    figures: &[CouponFigures],
    snapshot: Date,
    horizon_days: u32,
) -> (r: CouponResult)
    requires
        figures@.len() == inputs@.len(),
    ensures
        r.inflows@ == all_inflows(inputs@, figures@, snapshot, horizon_days),
        gap_texts(r.gaps@) == all_gaps(inputs@, figures@, snapshot),
{
    let mut inflows: Vec<Inflow> = Vec::new();
    let mut gaps: Vec<CouponGap> = Vec::new();
    assert(gap_texts(gaps@) =~= Seq::empty());
    for i in 0..inputs.len()
        invariant
            figures@.len() == inputs@.len(),
            inflows@ == all_inflows(
                inputs@.take(i as int),
                figures@.take(i as int),
                snapshot,
                horizon_days,
            ),
            gap_texts(gaps@) == all_gaps(inputs@.take(i as int), figures@.take(i as int), snapshot),
    {
        let b = &inputs[i];
        let ghost paid = inflows@;
        let ghost open = gap_texts(gaps@);
        let gap = coupon_schedule(i, b, &figures[i], snapshot, horizon_days, &mut inflows);
        if let Some(reason) = gap {
            gaps.push(CouponGap { code: b.code.clone(), reason });
            proof {
                assert(gap_texts(gaps@) =~= open.push((b.code@, reason@)));
            }
        }
        let ghost with_coupons = inflows@;
        if let Some(m) = b.maturity {
            let day: u32 = business_days_between(snapshot, m);
            if day > 0 && day <= horizon_days && b.quantity.is_positive() && b.fx_rate.is_finite()
                && b.fx_rate.is_positive() {
                inflows.push(Inflow { bond: i, day, kind: InflowKind::Redemption });
            }
        }
        proof {
            assert(inflows@ =~= with_coupons + redemption(i, *b, snapshot, horizon_days));
            assert(inputs@.take(i + 1).drop_last() =~= inputs@.take(i as int));
            assert(figures@.take(i + 1).drop_last() =~= figures@.take(i as int));
        }
    }
    assert(inputs@.take(inputs@.len() as int) =~= inputs@);
    assert(figures@.take(figures@.len() as int) =~= figures@);
    CouponResult { inflows, gaps }
}

/// Moving a day clamps it to the month it lands in and to no other: a coupon
/// due at a month's end recovers its day in the next month that has it.
pub proof fn law_a_clamped_coupon_recovers(first: CalendarDay, months: int)
    requires
        crate::date::day_exists(first),
    ensures
        ({
            let due = moved(first, months);
            &&& due.day <= first.day
            &&& first.day <= crate::date::month_length(due.year, due.month) ==> due.day == first.day
            &&& due.day < first.day ==> due.day == crate::date::month_length(due.year, due.month)
        }),
        moved(first, 0) == first,
{
}

/// Coupons fall after the snapshot and within the horizon, none before an
/// earlier one.
pub proof fn law_coupons_fall_within_the_horizon(t: Terms, months: int)
    requires
        t.step >= 1,
        crate::date::day_exists(t.first),
        months >= 0,
    ensures
        forall|i: int|
            0 <= i < coupon_days(t, months).len() ==> 0 < #[trigger] coupon_days(t, months)[i]
                <= t.horizon,
        forall|i: int|
            0 <= i < coupon_days(t, months).len() ==> coupon_day(t, months) <= #[trigger] coupon_days(
            t,
            months,
        )[i],
        forall|i: int, j: int|
            0 <= i < j < coupon_days(t, months).len() ==> #[trigger] coupon_days(t, months)[i]
                <= #[trigger] coupon_days(t, months)[j],
    decreases (MAX_YEAR + 1) * 12 + t.step - (t.first.year * 12 + (t.first.month - 1) + months),
{
    if pays(t, months) {
        let later = months + t.step;
        law_coupons_fall_within_the_horizon(t, later);
        let all = coupon_days(t, months);
        let rest = coupon_days(t, later);
        assert(all == seq![coupon_day(t, months)] + rest);
        assert forall|i: int| 0 < i < all.len() implies #[trigger] all[i] == rest[i - 1] by {}
        if rest.len() > 0 {
            assert(pays(t, later));
            crate::date::law_day_numbers_follow_the_calendar(
                moved(t.first, months),
                moved(t.first, later),
            );
            crate::bizdays::law_business_days_grow(
                t.snapshot,
                crate::date::day_number(moved(t.first, months)),
                crate::date::day_number(moved(t.first, later)),
            );
        }
    }
}

/// A frequency that accrued interest implies is one of the standard ones.
pub proof fn law_an_implied_frequency_is_standard(
    annual: Number,
    accrued: Number,
    days: int,
    fit: PeriodFit,
    freq: i32,
)
    requires
        implied(annual, accrued, days, fit, Some(freq)),
    ensures
        freq == 1 || freq == 2 || freq == 4 || freq == 12,
{
}

/// A day moved on lands that many calendar months later.
pub proof fn law_a_day_is_moved_by_calendar_months(first: CalendarDay, months: int)
    ensures
        ({
            let due = moved(first, months);
            &&& 1 <= due.month <= 12
            &&& due.year * 12 + due.month == first.year * 12 + first.month + months
        }),
{
}

/// Twelve months hold as many periods between coupons as there are coupons a
/// year, as far as whole months allow; more than twelve a year fall a month
/// apart.
pub proof fn law_a_year_holds_its_coupons(freq: i32)
    requires
        freq > 0,
    ensures
        months_apart(freq) >= 1,
        freq <= 12 ==> freq * months_apart(freq) <= 12 < freq * (months_apart(freq) + 1),
        freq > 12 ==> months_apart(freq) == 1,
{
    if freq <= 12 {
        let f = freq as int;
        let s = 12int / f;
        assert(s >= 1 && f * s <= 12 < f * (s + 1)) by (nonlinear_arith)
            requires
                1 <= f <= 12,
                s == 12int / f,
        ;
    }
}

/// A coupon before one that is paid is paid too, once the first falls after the
/// snapshot.
proof fn lemma_paid_before(t: Terms, a: int, b: int)
    requires
        crate::date::day_exists(t.first),
        crate::bizdays::working_days(t.snapshot, crate::date::day_number(t.first)) > 0,
        0 <= a <= b,
        pays(t, b),
    ensures
        pays(t, a),
{
    let (x, y) = (moved(t.first, a), moved(t.first, b));
    assert(moved(t.first, 0) == t.first);
    assert(crate::date::day_exists(x));
    crate::date::law_day_numbers_follow_the_calendar(t.first, x);
    crate::date::law_day_numbers_follow_the_calendar(x, t.first);
    crate::date::law_day_numbers_follow_the_calendar(y, x);
    crate::bizdays::law_business_days_grow(
        t.snapshot,
        crate::date::day_number(t.first),
        crate::date::day_number(x),
    );
    crate::bizdays::law_business_days_grow(
        t.snapshot,
        crate::date::day_number(x),
        crate::date::day_number(y),
    );
}

/// The coupons from one on are those that are paid, each a step after the one
/// before.
proof fn lemma_nth_coupon(t: Terms, months: int, n: int)
    requires
        t.step >= 1,
        crate::date::day_exists(t.first),
        crate::bizdays::working_days(t.snapshot, crate::date::day_number(t.first)) > 0,
        months >= 0,
        n >= 0,
    ensures
        n < coupon_days(t, months).len() <==> pays(t, months + n * t.step),
        n < coupon_days(t, months).len() ==> coupon_days(t, months)[n] == coupon_day(
            t,
            months + n * t.step,
        ),
    decreases n,
{
    let all = coupon_days(t, months);
    assert(n * t.step >= 0) by (nonlinear_arith)
        requires
            n >= 0,
            t.step >= 1,
    ;
    if n == 0 {
        assert(0 * t.step == 0) by (nonlinear_arith);
    } else {
        assert((months + t.step) + (n - 1) * t.step == months + n * t.step) by (nonlinear_arith);
        lemma_nth_coupon(t, months + t.step, n - 1);
        if pays(t, months) {
            assert(all == seq![coupon_day(t, months)] + coupon_days(t, months + t.step));
        } else if pays(t, months + n * t.step) {
            lemma_paid_before(t, months, months + n * t.step);
        }
    }
}

/// The coupons credited to a bond are exactly those due so many whole steps
/// after the first that fall within the horizon and not after maturity: one due
/// on the day of maturity is credited, one after it never. A bond whose first
/// coupon is not after the snapshot is credited none.
pub proof fn law_coupons_are_credited_up_to_and_on_maturity(t: Terms, n: int)
    requires
        t.step >= 1,
        crate::date::day_exists(t.first),
        n >= 0,
    ensures
        ({
            let due = moved(t.first, n * t.step);
            let number = crate::date::day_number(due);
            let day = crate::bizdays::working_days(t.snapshot, number);
            let starts = crate::bizdays::working_days(
                t.snapshot,
                crate::date::day_number(t.first),
            ) > 0;
            &&& n < coupon_days(t, 0).len() <==> starts && crate::date::day_exists(due) && day
                <= t.horizon && (t.maturity is None || number <= t.maturity->0.number())
            &&& n < coupon_days(t, 0).len() ==> coupon_days(t, 0)[n] == day
        }),
{
    assert(moved(t.first, 0) == t.first);
    if crate::bizdays::working_days(t.snapshot, crate::date::day_number(t.first)) > 0 {
        lemma_nth_coupon(t, 0, n);
        let due = moved(t.first, n * t.step);
        assert(n * t.step >= 0) by (nonlinear_arith)
            requires
                n >= 0,
                t.step >= 1,
        ;
        if crate::date::day_exists(due) {
            crate::date::law_day_numbers_follow_the_calendar(due, t.first);
            crate::bizdays::law_business_days_grow(
                t.snapshot,
                crate::date::day_number(t.first),
                crate::date::day_number(due),
            );
        }
    } else {
        assert(!pays(t, 0));
    }
}

/// A bond bears a coupon exactly when it is a fixed-rate one, whatever the case
/// it is written in, with a rate, a face amount and an exchange rate that are
/// all figures above zero.
pub proof fn law_what_bears_a_coupon(b: CouponInput)
    ensures
        bears_coupon(b) <==> b.coupon_pct is Some && b.coupon_pct->0.finite()
            && b.coupon_pct->0.positive() && b.coupon_type is Some && crate::text::same_but_for_case(
            b.coupon_type->0@,
            "FIX"@,
        ) && b.quantity.finite() && b.quantity.positive() && b.fx_rate.finite()
            && b.fx_rate.positive(),
{
}

/// The frequency that a bond states counts before what its accrued interest
/// implies; without either, or without a next coupon to measure from, there is
/// none.
pub proof fn law_a_stated_frequency_counts_first(
    b: CouponInput,
    figures: CouponFigures,
    snapshot: Date,
    freq: Option<i32>,
)
    requires
        resolved(b, figures, snapshot, freq),
    ensures
        b.freq is Some && b.freq->0 > 0 ==> freq == b.freq,
        (b.freq is None || b.freq->0 <= 0) && (b.accrued_eur is None || b.next_coupon is None)
            ==> freq is None,
        (b.freq is None || b.freq->0 <= 0) && b.accrued_eur is Some && b.next_coupon is Some
            ==> implied(
            figures.annual_eur,
            b.accrued_eur->0,
            b.next_coupon->0.number() - snapshot.number(),
            figures.fit,
            freq,
        ),
{
}

/// How far a period lies from that of a number of coupons a year.
pub open spec fn distance_from(fit: PeriodFit, freq: int) -> Option<Number> {
    if freq == 1 {
        Some(fit.from_annual)
    } else if freq == 2 {
        Some(fit.from_semi_annual)
    } else if freq == 4 {
        Some(fit.from_quarterly)
    } else if freq == 12 {
        Some(fit.from_monthly)
    } else {
        None
    }
}

/// Accrued interest implies a frequency only where every figure it is worked out
/// from makes sense, only one whose period lies within 15% of the one found, and
/// none while another lies nearer; it implies none only where no standard period
/// lies within 15%.
pub proof fn law_the_nearest_standard_period_is_implied(
    annual: Number,
    accrued: Number,
    days: int,
    fit: PeriodFit,
    freq: Option<i32>,
    tolerance: Number,
    other: int,
)
    requires
        implied(annual, accrued, days, fit, freq),
        tolerance.bits == PERIOD_TOLERANCE,
    ensures
        crate::binary64::closest(tolerance, 3, 20),
        freq is Some ==> annual.finite() && annual.positive() && accrued.finite()
            && !accrued.negative() && days >= 0 && fit.period.finite() && fit.period.positive(),
        freq matches Some(f) ==> distance_from(fit, f as int) is Some && distance_from(
            fit,
            f as int,
        )->0.at_most(tolerance),
        freq matches Some(f) ==> (distance_from(fit, other) matches Some(d) ==> !d.below(
            distance_from(fit, f as int)->0,
        )),
        freq is None && annual.finite() && annual.positive() && accrued.finite()
            && !accrued.negative() && days >= 0 && fit.period.finite() && fit.period.positive()
            ==> (distance_from(fit, other) matches Some(d) ==> !d.at_most(tolerance)),
{
    vstd::arithmetic::power2::lemma2_to64();
    vstd::arithmetic::power2::lemma2_to64_rest();
    crate::binary64::lemma_closest(tolerance, 1019, 0x13333333333333, 55, 3, 20);

    let all = distances(fit);
    assert(all[0] == (1i32, fit.from_annual) && all[1] == (2i32, fit.from_semi_annual));
    assert(all[2] == (4i32, fit.from_quarterly) && all[3] == (12i32, fit.from_monthly));
    if let Some(f) = freq {
        let k = choose|k: int| #[trigger] nearest(fit, k) && f == distances(fit)[k].0;
        assert(nearest(fit, k));
        assert(all[k].1 == distance_from(fit, f as int)->0);
        if let Some(d) = distance_from(fit, other) {
            let j: int = if other == 1 {
                0
            } else if other == 2 {
                1
            } else if other == 4 {
                2
            } else {
                3
            };
            assert(all[j].1 == d);
            if d.below(all[k].1) {
                assert(close_enough(all[j].1));
                crate::number::law_the_total_order_refines_comparison(d, all[k].1);
            }
        }
    }
}

/// Whether one of the first bonds pays an inflow: its face amount on the day it
/// matures, where that lies within the window and the amount is one that can be
/// counted; or a coupon on one of its coupon days.
pub open spec fn paid_by(
    b: CouponInput,
    figures: CouponFigures,
    snapshot: Date,
    horizon: u32,
    day: int,
    kind: InflowKind,
) -> bool {
    match kind {
        InflowKind::Redemption => b.maturity is Some && day == crate::bizdays::working_days(
            snapshot.number(),
            b.maturity->0.number(),
        ) && 0 < day <= horizon && b.quantity.positive() && b.fx_rate.finite()
            && b.fx_rate.positive(),
        InflowKind::Coupon { freq } => bears_coupon(b) && b.next_coupon is Some && resolved(
            b,
            figures,
            snapshot,
            Some(freq),
        ) && coupon_days(
            Terms {
                first: b.next_coupon->0@,
                step: months_apart(freq),
                maturity: b.maturity,
                snapshot: snapshot.number(),
                horizon: horizon as int,
            },
            0,
        ).contains(day),
    }
}

/// What the bonds pay is what each of them pays and nothing else. Redemption and
/// coupons are credited beside each other, even on one day.
pub proof fn law_inflows_are_what_the_bonds_pay(
    inputs: Seq<CouponInput>,
    figures: Seq<CouponFigures>,
    snapshot: Date,
    horizon: u32,
    x: Inflow,
)
    requires
        figures.len() == inputs.len() <= usize::MAX,
        forall|i: int|
            0 <= i < inputs.len() ==> ((#[trigger] inputs[i]).next_coupon matches Some(d)
                ==> crate::date::day_exists(d@)),
    ensures
        all_inflows(inputs, figures, snapshot, horizon).contains(x) <==> x.bond < inputs.len()
            && paid_by(
            inputs[x.bond as int],
            figures[x.bond as int],
            snapshot,
            horizon,
            x.day as int,
            x.kind,
        ),
    decreases inputs.len(),
{
    if inputs.len() > 0 {
        let (ins, figs) = (inputs.drop_last(), figures.drop_last());
        let n = inputs.len() - 1;
        assert forall|i: int| 0 <= i < ins.len() implies ((
        #[trigger] ins[i]).next_coupon matches Some(d) ==> crate::date::day_exists(d@)) by {
            assert(ins[i] == inputs[i]);
        }
        law_inflows_are_what_the_bonds_pay(ins, figs, snapshot, horizon, x);
        let b = inputs[n];
        assert(inputs.last() == b && figures.last() == figures[n]);
        let head = all_inflows(ins, figs, snapshot, horizon);
        let mid = coupons_of(n as usize, b, figures[n], snapshot, horizon);
        let tail = redemption(n as usize, b, snapshot, horizon);
        let all = all_inflows(inputs, figures, snapshot, horizon);
        assert(all == head + mid + tail);
        lemma_of_one_bond(n as usize, b, figures[n], snapshot, horizon, x);
        lemma_three_parts(head, mid, tail, x);
        if x.bond < n {
            assert(ins[x.bond as int] == inputs[x.bond as int]);
            assert(figs[x.bond as int] == figures[x.bond as int]);
        }
    }
}

proof fn lemma_three_parts(a: Seq<Inflow>, b: Seq<Inflow>, c: Seq<Inflow>, x: Inflow)
    ensures
        (a + b + c).contains(x) <==> a.contains(x) || b.contains(x) || c.contains(x),
{
    let all = a + b + c;
    if a.contains(x) {
        let i = a.index_of(x);
        assert(all[i] == x);
    }
    if b.contains(x) {
        let i = b.index_of(x);
        assert(all[a.len() + i] == x);
    }
    if c.contains(x) {
        let i = c.index_of(x);
        assert(all[a.len() + b.len() + i] == x);
    }
    if all.contains(x) {
        let i = all.index_of(x);
        if i < a.len() {
            assert(a[i] == x);
        } else if i < a.len() + b.len() {
            assert(b[i - a.len()] == x);
        } else {
            assert(c[i - a.len() - b.len()] == x);
        }
    }
}

/// What one bond adds.
proof fn lemma_of_one_bond(
    bond: usize,
    b: CouponInput,
    figures: CouponFigures,
    snapshot: Date,
    horizon: u32,
    x: Inflow,
)
    requires
        b.next_coupon matches Some(d) ==> crate::date::day_exists(d@),
    ensures
        coupons_of(bond, b, figures, snapshot, horizon).contains(x) || redemption(
            bond,
            b,
            snapshot,
            horizon,
        ).contains(x) <==> x.bond == bond && paid_by(
            b,
            figures,
            snapshot,
            horizon,
            x.day as int,
            x.kind,
        ),
{
    let mid = coupons_of(bond, b, figures, snapshot, horizon);
    let tail = redemption(bond, b, snapshot, horizon);
    if redeems(b, snapshot, horizon) {
        assert(tail[0].kind is Redemption);
        if tail.contains(x) {
            assert(tail[0] == x);
        }
        if x.bond == bond && x.kind is Redemption && paid_by(
            b,
            figures,
            snapshot,
            horizon,
            x.day as int,
            x.kind,
        ) {
            assert(tail[0] == x);
        }
    }
    match x.kind {
        InflowKind::Redemption => {
            assert(!mid.contains(x));
        },
        InflowKind::Coupon { freq } => {
            assert(!tail.contains(x));
            if resolved(b, figures, snapshot, Some(freq)) {
                law_a_bond_has_one_frequency(
                    b,
                    figures,
                    snapshot,
                    Some(freq),
                    freq_of(b, figures, snapshot),
                );
            }
            if bears_coupon(b) && b.next_coupon is Some {
                lemma_some_frequency(b, figures, snapshot);
                if let Some(f) = freq_of(b, figures, snapshot) {
                    let t = terms_of(b, f, snapshot, horizon);
                    let days = coupon_days(t, 0);
                    assert(mid == coupon_inflows(bond, f, days));
                    lemma_days_fit(t, horizon, f, b, figures, snapshot);
                    if mid.contains(x) {
                        let i = mid.index_of(x);
                        assert(mid[i] == x);
                        assert(days[i] == x.day);
                    }
                    if f == freq && x.bond == bond && days.contains(x.day as int) {
                        let i = days.index_of(x.day as int);
                        assert(mid[i] == x);
                    }
                }
            }
        },
    }
}

/// Coupon days fit what they are stored in.
proof fn lemma_days_fit(
    t: Terms,
    horizon: u32,
    f: i32,
    b: CouponInput,
    figures: CouponFigures,
    snapshot: Date,
)
    requires
        t == terms_of(b, f, snapshot, horizon),
        b.next_coupon matches Some(d) && crate::date::day_exists(d@),
        resolved(b, figures, snapshot, Some(f)),
    ensures
        forall|i: int|
            0 <= i < coupon_days(t, 0).len() ==> 0 < #[trigger] coupon_days(t, 0)[i] <= u32::MAX,
{
    assert(f > 0) by {
        if !(b.freq is Some && b.freq->0 > 0) {
            law_an_implied_frequency_is_standard(
                figures.annual_eur,
                b.accrued_eur->0,
                b.next_coupon->0.number() - snapshot.number(),
                figures.fit,
                f,
            );
        }
    }
    law_a_year_holds_its_coupons(f);
    law_coupons_fall_within_the_horizon(t, 0);
}

/// A bond with a next coupon resolves to some frequency or to none.
proof fn lemma_some_frequency(b: CouponInput, figures: CouponFigures, snapshot: Date)
    requires
        b.next_coupon is Some,
    ensures
        resolved(b, figures, snapshot, freq_of(b, figures, snapshot)),
{
    let all = distances(figures.fit);
    if b.freq is Some && b.freq->0 > 0 {
        assert(resolved(b, figures, snapshot, b.freq));
    } else if b.accrued_eur is Some {
        let days = b.next_coupon->0.number() - snapshot.number();
        if telling(figures.annual_eur, b.accrued_eur->0, days, figures.fit) && exists|k: int|
            0 <= k < all.len() && close_enough((#[trigger] all[k]).1) {
            let best = lemma_a_nearest(figures.fit, 4);
            assert(nearest(figures.fit, best));
            assert(resolved(b, figures, snapshot, Some(all[best].0)));
        } else {
            assert(resolved(b, figures, snapshot, None));
        }
    } else {
        assert(resolved(b, figures, snapshot, None));
    }
}

/// Where any of the first standard periods lies within tolerance, one of them
/// is the nearest.
proof fn lemma_a_nearest(fit: PeriodFit, n: int) -> (best: int)
    requires
        0 < n <= distances(fit).len(),
        exists|k: int| 0 <= k < n && close_enough((#[trigger] distances(fit)[k]).1),
    ensures
        0 <= best < n,
        close_enough(distances(fit)[best].1),
        forall|j: int|
            0 <= j < n && close_enough((#[trigger] distances(fit)[j]).1)
                ==> distances(fit)[best].1.total_place() < distances(fit)[j].1.total_place() || (
            distances(fit)[best].1.total_place() == distances(fit)[j].1.total_place() && best <= j),
    decreases n,
{
    let all = distances(fit);
    if exists|k: int| 0 <= k < n - 1 && close_enough((#[trigger] all[k]).1) {
        let before = lemma_a_nearest(fit, n - 1);
        if close_enough(all[n - 1].1) && all[n - 1].1.total_place() < all[before].1.total_place() {
            n - 1
        } else {
            before
        }
    } else {
        n - 1
    }
}

/// A bond leaves a gap exactly when it bears a coupon that cannot be placed, and
/// the gap says which of the two is missing.
pub proof fn law_a_gap_names_what_is_missing(
    b: CouponInput,
    figures: CouponFigures,
    snapshot: Date,
)
    ensures
        !bears_coupon(b) ==> gap_of(b, figures, snapshot) is None,
        bears_coupon(b) && b.next_coupon is None ==> gap_of(b, figures, snapshot) == Some(
            "no next coupon date"@,
        ),
        bears_coupon(b) && b.next_coupon is Some && resolved(b, figures, snapshot, None) ==> gap_of(
            b,
            figures,
            snapshot,
        ) == Some("no resolvable frequency"@),
        forall|f: i32|
            bears_coupon(b) && b.next_coupon is Some && #[trigger] resolved(
                b,
                figures,
                snapshot,
                Some(f),
            ) ==> gap_of(b, figures, snapshot) is None,
{
    if b.next_coupon is Some {
        lemma_some_frequency(b, figures, snapshot);
        let found = freq_of(b, figures, snapshot);
        if resolved(b, figures, snapshot, None) {
            law_a_bond_has_one_frequency(b, figures, snapshot, None, found);
        }
        assert forall|f: i32| #[trigger] resolved(
            b,
            figures,
            snapshot,
            Some(f),
        ) implies found == Some(f) by {
            law_a_bond_has_one_frequency(b, figures, snapshot, Some(f), found);
        }
    }
}

/// The gaps are those of the bonds that leave one, under the codes of the bonds.
pub proof fn law_gaps_are_those_of_the_bonds(
    inputs: Seq<CouponInput>,
    figures: Seq<CouponFigures>,
    snapshot: Date,
    gap: (Seq<char>, Seq<char>),
)
    requires
        figures.len() == inputs.len(),
    ensures
        all_gaps(inputs, figures, snapshot).contains(gap) <==> exists|i: int|
            0 <= i < inputs.len() && (#[trigger] inputs[i]).code@ == gap.0 && gap_of(
                inputs[i],
                figures[i],
                snapshot,
            ) == Some(gap.1),
    decreases inputs.len(),
{
    if inputs.len() > 0 {
        let (ins, figs) = (inputs.drop_last(), figures.drop_last());
        let n = inputs.len() - 1;
        law_gaps_are_those_of_the_bonds(ins, figs, snapshot, gap);
        let earlier = all_gaps(ins, figs, snapshot);
        let all = all_gaps(inputs, figures, snapshot);
        if earlier.contains(gap) {
            let i = choose|i: int|
                0 <= i < ins.len() && (#[trigger] ins[i]).code@ == gap.0 && gap_of(
                    ins[i],
                    figs[i],
                    snapshot,
                ) == Some(gap.1);
            assert(inputs[i] == ins[i] && figures[i] == figs[i]);
            let k = earlier.index_of(gap);
            assert(all[k] == gap);
        }
        if exists|i: int|
            0 <= i < inputs.len() && (#[trigger] inputs[i]).code@ == gap.0 && gap_of(
                inputs[i],
                figures[i],
                snapshot,
            ) == Some(gap.1) {
            let i = choose|i: int|
                0 <= i < inputs.len() && (#[trigger] inputs[i]).code@ == gap.0 && gap_of(
                    inputs[i],
                    figures[i],
                    snapshot,
                ) == Some(gap.1);
            if i < n {
                assert(ins[i] == inputs[i] && figs[i] == figures[i]);
            } else {
                assert(all[all.len() - 1] == gap);
            }
        }
        if all.contains(gap) && !earlier.contains(gap) {
            let k = all.index_of(gap);
            if k < earlier.len() {
                assert(earlier[k] == gap);
            }
            assert(inputs[n].code@ == gap.0);
        }
    }
}

/// Each payment is credited once: what one more bond adds is one inflow per
/// coupon day and one for its face amount where that is due, behind all that
/// the bonds before it pay.
pub proof fn law_each_payment_is_credited_once(
    inputs: Seq<CouponInput>,
    figures: Seq<CouponFigures>,
    snapshot: Date,
    horizon: u32,
    freq: Option<i32>,
)
    requires
        figures.len() == inputs.len(),
        inputs.len() > 0,
        resolved(inputs.last(), figures.last(), snapshot, freq),
    ensures
        ({
            let b = inputs.last();
            let before = all_inflows(inputs.drop_last(), figures.drop_last(), snapshot, horizon);
            let all = all_inflows(inputs, figures, snapshot, horizon);
            let coupons: int = if bears_coupon(b) && b.next_coupon is Some && freq is Some {
                coupon_days(
                    Terms {
                        first: b.next_coupon->0@,
                        step: months_apart(freq->0),
                        maturity: b.maturity,
                        snapshot: snapshot.number(),
                        horizon: horizon as int,
                    },
                    0,
                ).len() as int
            } else {
                0
            };
            let face: int = if b.maturity is Some && 0 < crate::bizdays::working_days(
                snapshot.number(),
                b.maturity->0.number(),
            ) <= horizon && b.quantity.positive() && b.fx_rate.finite() && b.fx_rate.positive() {
                1
            } else {
                0
            };
            &&& all.take(before.len() as int) == before
            &&& all.len() == before.len() + coupons + face
        }),
{
    let b = inputs.last();
    let before = all_inflows(inputs.drop_last(), figures.drop_last(), snapshot, horizon);
    let all = all_inflows(inputs, figures, snapshot, horizon);
    law_a_bond_has_one_frequency(
        b,
        figures.last(),
        snapshot,
        freq,
        freq_of(b, figures.last(), snapshot),
    );
    assert(all.take(before.len() as int) =~= before);
}

/// Of two standard periods that lie equally near the longer one is implied.
pub proof fn law_of_two_equally_near_the_longer_period_is_implied(
    annual: Number,
    accrued: Number,
    days: int,
    fit: PeriodFit,
    freq: i32,
    other: int,
)
    requires
        implied(annual, accrued, days, fit, Some(freq)),
        distance_from(fit, other) == distance_from(fit, freq as int),
        distance_from(fit, other) is Some,
    ensures
        freq <= other,
{
    let all = distances(fit);
    assert(all[0] == (1i32, fit.from_annual) && all[1] == (2i32, fit.from_semi_annual));
    assert(all[2] == (4i32, fit.from_quarterly) && all[3] == (12i32, fit.from_monthly));
    let k = choose|k: int| #[trigger] nearest(fit, k) && freq == distances(fit)[k].0;
    let j: int = if other == 1 {
        0
    } else if other == 2 {
        1
    } else if other == 4 {
        2
    } else {
        3
    };
    assert(all[j].1 == all[k].1);
    assert(close_enough(all[j].1));
}

/// Gaps come in the order of the bonds, one per bond at most, each by the code
/// of its bond and the reason.
pub proof fn law_gaps_come_in_the_order_of_the_bonds(
    inputs: Seq<CouponInput>,
    figures: Seq<CouponFigures>,
    snapshot: Date,
    b: CouponInput,
    f: CouponFigures,
)
    ensures
        all_gaps(Seq::empty(), Seq::empty(), snapshot).len() == 0,
        gap_of(b, f, snapshot) is None ==> all_gaps(inputs.push(b), figures.push(f), snapshot)
            == all_gaps(inputs, figures, snapshot),
        gap_of(b, f, snapshot) matches Some(reason) ==> all_gaps(
            inputs.push(b),
            figures.push(f),
            snapshot,
        ) == all_gaps(inputs, figures, snapshot).push((b.code@, reason)),
{
    assert(inputs.push(b).drop_last() =~= inputs);
    assert(figures.push(f).drop_last() =~= figures);
}

/// A gap carries the code of its bond and the reason.
pub proof fn law_what_a_gap_carries(gaps: Seq<CouponGap>, i: int)
    requires
        0 <= i < gaps.len(),
    ensures
        gap_texts(gaps).len() == gaps.len(),
        gap_texts(gaps)[i] == (gaps[i].code@, gaps[i].reason@),
{
}

/// A bond's coupons come first, in the order of their days, and its face amount
/// after them.
pub proof fn law_the_face_amount_comes_after_the_coupons(
    inputs: Seq<CouponInput>,
    figures: Seq<CouponFigures>,
    snapshot: Date,
    horizon: u32,
    freq: i32,
    i: int,
)
    requires
        figures.len() == inputs.len(),
        inputs.len() > 0,
        resolved(inputs.last(), figures.last(), snapshot, Some(freq)),
        bears_coupon(inputs.last()),
        inputs.last().next_coupon is Some,
    ensures
        ({
            let b = inputs.last();
            let before = all_inflows(inputs.drop_last(), figures.drop_last(), snapshot, horizon);
            let all = all_inflows(inputs, figures, snapshot, horizon);
            let bond = (inputs.len() - 1) as usize;
            let days = coupon_days(
                Terms {
                    first: b.next_coupon->0@,
                    step: months_apart(freq),
                    maturity: b.maturity,
                    snapshot: snapshot.number(),
                    horizon: horizon as int,
                },
                0,
            );
            &&& 0 <= i < days.len() ==> all[before.len() + i] == (Inflow {
                bond,
                day: days[i] as u32,
                kind: InflowKind::Coupon { freq },
            })
            &&& all.len() > before.len() + days.len() ==> all.last() == (Inflow {
                bond,
                day: crate::bizdays::working_days(
                    snapshot.number(),
                    b.maturity->0.number(),
                ) as u32,
                kind: InflowKind::Redemption,
            })
        }),
{
    let b = inputs.last();
    law_a_bond_has_one_frequency(
        b,
        figures.last(),
        snapshot,
        Some(freq),
        freq_of(b, figures.last(), snapshot),
    );
    let bond = (inputs.len() - 1) as usize;
    let before = all_inflows(inputs.drop_last(), figures.drop_last(), snapshot, horizon);
    let mid = coupons_of(bond, b, figures.last(), snapshot, horizon);
    let tail = redemption(bond, b, snapshot, horizon);
    let all = all_inflows(inputs, figures, snapshot, horizon);
    let days = coupon_days(terms_of(b, freq, snapshot, horizon), 0);
    assert(all == before + mid + tail);
    assert(mid == coupon_inflows(bond, freq, days));
    if 0 <= i < days.len() {
        assert(all[before.len() + i] == mid[i]);
    }
    if all.len() > before.len() + days.len() {
        assert(all.last() == tail[0]);
    }
}

} // verus!
