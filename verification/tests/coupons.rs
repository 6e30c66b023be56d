use borobudur::bizdays::business_days_between;
use borobudur::coupons::{
    bond_inflows, infer_coupon_freq, CouponFigures, CouponGap, CouponInput, InflowKind, PeriodFit,
};
use borobudur::date::Date;
use borobudur::number::Number;

fn num(x: f64) -> Number {
    Number { bits: x.to_bits() }
}

fn figure(n: Number) -> f64 {
    f64::from_bits(n.bits)
}

fn d(y: i32, m: u32, day: u32) -> Date {
    Date::from_ymd_opt(y, m, day).unwrap()
}

// Brazil 6.625% 15-03-35: 2,000,000 face, accrued 45,236.41 EUR, next coupon
// 2026-09-15, snapshot 2026-08-07, market value 1,764,365.78 EUR against
// 2,038,460 USD local.
const FX: f64 = 1_764_365.78 / 2_038_460.0;

fn brazil() -> CouponInput {
    CouponInput {
        code: "US105756CL22".into(),
        quantity: num(2_000_000.0),
        coupon_pct: Some(num(6.625)),
        coupon_type: Some("FIX".into()),
        next_coupon: Some(d(2026, 9, 15)),
        maturity: Some(d(2035, 3, 15)),
        freq: None,
        accrued_eur: Some(num(45_236.41)),
        fx_rate: num(FX),
    }
}

fn fit(annual: f64, accrued: f64, days: i64) -> PeriodFit {
    let period = 365.0 * accrued / annual + days as f64;
    let off = |p: f64| num(((period - p) / p).abs());
    PeriodFit {
        period: num(period),
        from_annual: off(365.0),
        from_semi_annual: off(182.5),
        from_quarterly: off(91.25),
        from_monthly: off(30.4167),
    }
}

fn infer(annual: f64, accrued: f64, days: i64) -> Option<i32> {
    infer_coupon_freq(num(annual), num(accrued), days, fit(annual, accrued, days))
}

struct Paid {
    day: u32,
    amount_eur: f64,
}

struct Result {
    inflows: Vec<Paid>,
    gaps: Vec<CouponGap>,
}

fn inflows(inputs: &[CouponInput], snapshot: Date, horizon: u32) -> Result {
    let annual = |b: &CouponInput| {
        figure(b.quantity) * b.coupon_pct.map_or(0.0, figure) / 100.0 * figure(b.fx_rate)
    };
    let figures: Vec<CouponFigures> = inputs
        .iter()
        .map(|b| {
            let days = b.next_coupon.map_or(0, |n| (n.day_count() - snapshot.day_count()) as i64);
            CouponFigures {
                annual_eur: num(annual(b)),
                fit: fit(annual(b), b.accrued_eur.map_or(0.0, figure), days),
            }
        })
        .collect();
    let r = bond_inflows(inputs, &figures, snapshot, horizon);
    let inflows = r
        .inflows
        .iter()
        .map(|i| {
            let b = &inputs[i.bond];
            Paid {
                day: i.day,
                amount_eur: match i.kind {
                    InflowKind::Coupon { freq } => annual(b) / freq as f64,
                    InflowKind::Redemption => figure(b.quantity) * figure(b.fx_rate),
                },
            }
        })
        .collect();
    Result { inflows, gaps: r.gaps }
}

#[test]
fn infers_semi_annual_from_accrued_interest() {
    let annual_eur = 2_000_000.0 * 6.625 / 100.0 * FX;
    assert_eq!(infer(annual_eur, 45_236.41, 39), Some(2));
}

#[test]
fn inference_survives_a_30_360_accrual() {
    // The day-count convention is not visible in the file. Recomputing the
    // same position on a 30/360 basis must not change the answer.
    let annual_eur = 2_000_000.0 * 6.625 / 100.0 * FX;
    let accrued_30_360 = annual_eur * (142.0 / 360.0);
    assert_eq!(infer(annual_eur, accrued_30_360, 39), Some(2));
}

#[test]
fn an_out_of_tolerance_accrual_infers_nothing() {
    // An accrual implying a 240-day period matches no standard frequency.
    let annual = 100_000.0;
    assert_eq!(infer(annual, annual * (200.0 / 365.0), 40), None);
    // Degenerate inputs never guess.
    assert_eq!(infer(0.0, 100.0, 40), None);
    assert_eq!(infer(100_000.0, -1.0, 40), None);
}

#[test]
fn credits_one_coupon_at_its_business_day_offset() {
    let r = inflows(&[brazil()], d(2026, 8, 7), 60);
    assert!(r.gaps.is_empty(), "{:?}", r.gaps);
    assert_eq!(r.inflows.len(), 1);
    assert_eq!(r.inflows[0].day, 27);
    // 2,000,000 x 6.625% / 2 = 66,250 USD, converted at the position rate.
    let expected = 2_000_000.0 * 6.625 / 100.0 / 2.0 * FX;
    assert!((r.inflows[0].amount_eur - expected).abs() < 1e-6);
}

#[test]
fn an_explicit_frequency_beats_the_inference() {
    let mut b = brazil();
    b.freq = Some(4);
    let r = inflows(&[b], d(2026, 8, 7), 60);
    let expected = 2_000_000.0 * 6.625 / 100.0 / 4.0 * FX;
    assert!((r.inflows[0].amount_eur - expected).abs() < 1e-6);
}

#[test]
fn an_unresolvable_frequency_credits_nothing_and_reports_why() {
    let mut b = brazil();
    b.accrued_eur = None;
    let r = inflows(&[b], d(2026, 8, 7), 60);
    assert!(r.inflows.is_empty());
    assert_eq!(r.gaps.len(), 1);
    assert_eq!(r.gaps[0].reason, "no resolvable frequency");
}

#[test]
fn a_missing_next_coupon_date_is_reported_not_reconstructed() {
    let mut b = brazil();
    b.next_coupon = None;
    let r = inflows(&[b], d(2026, 8, 7), 60);
    assert!(r.inflows.is_empty());
    assert_eq!(r.gaps[0].reason, "no next coupon date");
}

#[test]
fn zero_coupon_and_far_placeholder_maturity_contribute_nothing() {
    // Exchange-traded commodities: 0.00% coupon, placeholder maturity 2049-12-31.
    let etc = CouponInput {
        code: "GB00B00FHZ82".into(),
        quantity: num(1_000.0),
        coupon_pct: Some(num(0.0)),
        coupon_type: Some("FIX".into()),
        next_coupon: Some(d(2049, 12, 31)),
        maturity: Some(d(2049, 12, 31)),
        freq: None,
        accrued_eur: Some(num(0.0)),
        fx_rate: num(1.0),
    };
    let r = inflows(&[etc], d(2026, 8, 7), 60);
    assert!(r.inflows.is_empty());
    assert!(r.gaps.is_empty(), "a zero-coupon instrument is not a gap");
}

#[test]
fn a_maturity_inside_the_horizon_redeems_the_face() {
    let b = CouponInput {
        code: "XS0000000001".into(),
        quantity: num(500_000.0),
        coupon_pct: Some(num(0.0)),
        coupon_type: Some("FIX".into()),
        next_coupon: None,
        maturity: Some(d(2026, 8, 21)),
        freq: Some(1),
        accrued_eur: Some(num(0.0)),
        fx_rate: num(1.0),
    };
    let r = inflows(&[b], d(2026, 8, 7), 60);
    assert_eq!(r.inflows.len(), 1);
    assert_eq!(r.inflows[0].day, 10);
    assert!((r.inflows[0].amount_eur - 500_000.0).abs() < 1e-9);
}

#[test]
fn a_monthly_payer_fits_several_coupons_in_the_horizon() {
    let b = CouponInput {
        code: "XS0000000002".into(),
        quantity: num(1_200_000.0),
        coupon_pct: Some(num(12.0)),
        coupon_type: Some("FIX".into()),
        next_coupon: Some(d(2026, 8, 20)),
        maturity: Some(d(2030, 8, 20)),
        freq: Some(12),
        accrued_eur: Some(num(0.0)),
        fx_rate: num(1.0),
    };
    let r = inflows(&[b], d(2026, 8, 7), 60);
    // 2026-08-20, 2026-09-20 and 2026-10-20 all land inside 60 business days.
    assert_eq!(r.inflows.len(), 3);
    let each = 1_200_000.0 * 12.0 / 100.0 / 12.0;
    assert!(r.inflows.iter().all(|i| (i.amount_eur - each).abs() < 1e-9));
}

#[test]
fn a_quarterly_coupon_anchored_on_a_month_end_does_not_drift() {
    // Anchored Jan 31, quarterly: the walk must land on Apr 30 (a real
    // clamp, since April has 30 days) and then recover to Jul 31 (no
    // clamp on July) rather than dragging the April clamp forward to
    // land on Jul 30.
    let snapshot = d(2026, 1, 1);
    let third_coupon = d(2026, 7, 31);
    let horizon = business_days_between(snapshot, third_coupon);
    let b = CouponInput {
        code: "XS0000000003".into(),
        quantity: num(1_000_000.0),
        coupon_pct: Some(num(8.0)),
        coupon_type: Some("FIX".into()),
        next_coupon: Some(d(2026, 1, 31)),
        maturity: Some(d(2030, 1, 31)),
        freq: Some(4),
        accrued_eur: Some(num(0.0)),
        fx_rate: num(1.0),
    };
    let r = inflows(&[b], snapshot, horizon);
    assert_eq!(r.inflows.len(), 3);
    // The horizon was set to exactly the correct third coupon's offset,
    // so the third inflow must land there.
    assert_eq!(r.inflows[2].day, horizon);
    // A drifted walk would instead land one business day earlier, on
    // 2026-07-30.
    let wrong = business_days_between(snapshot, d(2026, 7, 30));
    assert_ne!(r.inflows[2].day, wrong);
}

#[test]
fn a_coupon_and_a_maturity_in_the_same_horizon_both_land() {
    // Interest and principal are not double counting: a coupon inside
    // the horizon and a maturity redemption inside the horizon are two
    // distinct inflows for the same bond.
    let snapshot = d(2026, 8, 7);
    let b = CouponInput {
        code: "XS0000000004".into(),
        quantity: num(1_000_000.0),
        coupon_pct: Some(num(6.0)),
        coupon_type: Some("FIX".into()),
        next_coupon: Some(d(2026, 8, 20)),
        maturity: Some(d(2026, 9, 15)),
        freq: Some(2),
        accrued_eur: Some(num(0.0)),
        fx_rate: num(1.0),
    };
    let r = inflows(&[b], snapshot, 60);
    assert_eq!(r.inflows.len(), 2);
    let coupon_day = business_days_between(snapshot, d(2026, 8, 20));
    let maturity_day = business_days_between(snapshot, d(2026, 9, 15));
    let coupon = r.inflows.iter().find(|i| i.day == coupon_day).expect("coupon inflow");
    let redemption = r.inflows.iter().find(|i| i.day == maturity_day).expect("redemption inflow");
    let expected_coupon = 1_000_000.0 * 6.0 / 100.0 / 2.0;
    assert!((coupon.amount_eur - expected_coupon).abs() < 1e-9);
    assert!((redemption.amount_eur - 1_000_000.0).abs() < 1e-9);
}

#[test]
fn only_standard_frequencies_are_inferred() {
    assert_eq!(infer(365.0, 10.0, 355), Some(1));
    assert_eq!(infer(365.0, 10.0, 172), Some(2));
    assert_eq!(infer(365.0, 10.0, 81), Some(4));
    assert_eq!(infer(365.0, 10.0, 20), Some(12));
    assert_eq!(infer(365.0, 10.0, -1), None);
    assert_eq!(infer(f64::NAN, 10.0, 20), None);
    assert_eq!(infer(365.0, f64::INFINITY, 20), None);
    assert_eq!(infer(365.0, 0.0, 0), None);
}

#[test]
fn only_fixed_coupons_with_sound_figures_are_placed() {
    let mut small = brazil();
    small.coupon_type = Some("fix".into());
    assert_eq!(inflows(&[small], d(2026, 8, 7), 60).inflows.len(), 1);
    let mut floating = brazil();
    floating.coupon_type = Some("FLT".into());
    let mut untyped = brazil();
    untyped.coupon_type = None;
    let mut unheld = brazil();
    unheld.quantity = num(f64::NAN);
    let mut unpriced = brazil();
    unpriced.fx_rate = num(0.0);
    let mut odd = brazil();
    odd.coupon_pct = Some(num(f64::NAN));
    for b in [floating, untyped, unheld, unpriced, odd] {
        let r = inflows(&[b], d(2026, 8, 7), 60);
        assert!(r.inflows.is_empty() && r.gaps.is_empty());
    }
}

#[test]
fn a_zero_frequency_falls_back_on_the_inference() {
    let mut b = brazil();
    b.freq = Some(0);
    let r = inflows(&[b], d(2026, 8, 7), 60);
    let expected = 2_000_000.0 * 6.625 / 100.0 / 2.0 * FX;
    assert!((r.inflows[0].amount_eur - expected).abs() < 1e-6);
}

#[test]
fn more_than_twelve_coupons_a_year_are_walked_monthly() {
    let mut b = brazil();
    b.freq = Some(24);
    b.next_coupon = Some(d(2026, 8, 31));
    let r = inflows(&[b], d(2026, 8, 7), 60);
    let days: Vec<u32> = r.inflows.iter().map(|i| i.day).collect();
    assert_eq!(
        days,
        vec![
            business_days_between(d(2026, 8, 7), d(2026, 8, 31)),
            business_days_between(d(2026, 8, 7), d(2026, 9, 30)),
            business_days_between(d(2026, 8, 7), d(2026, 10, 30)),
        ]
        .into_iter()
        .take(days.len())
        .collect::<Vec<u32>>()
    );
    assert!(days.len() >= 2);
}

#[test]
fn a_coupon_on_the_snapshot_day_ends_the_walk() {
    let mut b = brazil();
    b.next_coupon = Some(d(2026, 8, 7));
    b.freq = Some(12);
    assert!(inflows(&[b], d(2026, 8, 7), 60).inflows.is_empty());
}
