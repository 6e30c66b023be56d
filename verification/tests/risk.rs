use borobudur::backtest::{
    backtest, backtest_windows, kupiec_is_defined, summarize, tally, BacktestDay, BacktestPoint, MethodSummary,
};
use borobudur::date::Date;
use borobudur::liquidity::{band_of_days, bucket_name, bucket_rows, liquidity, LiqPosition, LiquidityReport};
use borobudur::metrics::rolling;
use borobudur::number::Number;
use borobudur::pnl::{after_buy, after_sale, is_buy, sale, side_of, walk_instrument, Basis, Trade};
use borobudur::rates::{days_to_maturity, in_bracket};
use borobudur::series::{daily_returns, NavPoint};
use borobudur::var::{ascending, var_is_defined, VarMethod};

fn num(x: f64) -> Number {
    Number { bits: x.to_bits() }
}

fn figure(n: Number) -> f64 {
    f64::from_bits(n.bits)
}

fn d(y: i32, m: u32, day: u32) -> Date {
    Date::from_ymd_opt(y, m, day).unwrap()
}

// ---- liquidity ----

fn lp(w: f64, b: &str) -> LiqPosition {
    LiqPosition { weight: num(w), bucket: b.into() }
}

fn report(rows: &[LiqPosition], shock: f64) -> LiquidityReport {
    let laid = bucket_rows(rows);
    let sum = |ids: &Vec<usize>| ids.iter().fold(0.0, |a, i| a + figure(rows[*i].weight));
    let sums = [sum(&laid.d1), sum(&laid.d2_7), sum(&laid.d8_30), sum(&laid.d30p)];
    let mut acc = 0.0;
    let running: Vec<Number> = sums
        .iter()
        .map(|s| {
            acc += s;
            num(acc)
        })
        .collect();
    let sums: Vec<Number> = sums.iter().map(|s| num(*s)).collect();
    liquidity(&sums, &running, num(sum(&laid.negative)), num(shock))
}

#[test]
fn buckets_cumulative_and_stress() {
    let rows = vec![
        lp(0.40, "d1"),
        lp(0.10, "d1"),
        lp(0.25, "d2_7"),
        lp(0.15, "d8_30"),
        lp(0.05, "d30p"),
        lp(0.02, "bogus"), // unknown -> d30p
        lp(-0.03, "d1"),   // negative -> memo only
    ];
    let r = report(&rows, 0.30);
    assert!((figure(r.buckets[0].weight) - 0.50).abs() < 1e-12);
    assert!((figure(r.buckets[1].weight) - 0.25).abs() < 1e-12);
    assert!((figure(r.buckets[2].weight) - 0.15).abs() < 1e-12);
    assert!((figure(r.buckets[3].weight) - 0.07).abs() < 1e-12);
    assert!((figure(r.cumulative[3].weight) - 0.97).abs() < 1e-12);
    assert!((figure(r.negative_memo) - (-0.03)).abs() < 1e-12);
    assert!(r.stress_ok); // 0.75 >= 0.30
    assert!(!report(&rows, 0.80).stress_ok); // 0.75 < 0.80
    let names: Vec<&str> = r.buckets.iter().map(|b| b.bucket.as_str()).collect();
    assert_eq!(names, vec!["d1", "d2_7", "d8_30", "d30p"]);
}

#[test]
fn empty_is_all_zero() {
    let r = report(&[], 0.30);
    assert!(r.buckets.iter().all(|b| figure(b.weight) == 0.0));
    assert!(!r.stress_ok);
    assert!(report(&[], 0.0).stress_ok);
}

#[test]
fn bands_are_closed_at_the_upper_edge() {
    let bands: Vec<usize> =
        [0.0, 1.0, 1.5, 7.0, 7.1, 30.0, 30.5, f64::NAN].iter().map(|x| band_of_days(num(*x))).collect();
    assert_eq!(bands, vec![0, 0, 1, 1, 2, 2, 3, 3]);
    assert_eq!(bucket_name(band_of_days(num(30.0))), "d8_30");
}

// ---- trades ----

#[test]
fn side_parsing_is_case_insensitive() {
    assert_eq!(is_buy("Achat"), Some(true));
    assert_eq!(is_buy("Vente"), Some(false));
    assert_eq!(is_buy("VENTE"), Some(false));
    assert_eq!(is_buy("  achat "), Some(true));
    assert_eq!(is_buy("Nonsense"), None);
}

#[test]
fn neither_case_nor_white_space_changes_a_side() {
    for s in ["vente", "VENTE", "vEnTe", "\tVente\n", " vente"] {
        assert_eq!(is_buy(s), Some(false));
    }
    assert_eq!(is_buy("ACHAT"), Some(true));
    assert_eq!(is_buy("ven te"), None);
    assert_eq!(is_buy("ACHATS"), None);
    // a letter beyond ASCII is no side, in either case
    assert_eq!(is_buy("\u{c9}ACHAT"), None);
}

#[test]
fn sides_in_small_letters() {
    assert_eq!(side_of("achat"), Some(true));
    assert_eq!(side_of("vente"), Some(false));
    assert_eq!(side_of("Achat"), None);
    assert_eq!(side_of(""), None);
}

fn trade(day: u32, buy: bool, qty: f64, px: f64) -> Trade {
    Trade {
        trade_date: d(2026, 6, day),
        isin: "X".into(),
        is_buy: buy,
        quantity: num(qty),
        net_price: num(px),
        net_amount: num(if buy { -qty * px } else { qty * px }),
        currency: "EUR".into(),
    }
}

struct Walk {
    basis_start: Basis,
    basis_end: Basis,
    realized_local: f64,
    buys: usize,
    sells: usize,
    oversold: bool,
}

fn walk(trades: &[Trade], t0: Date, t1: Date) -> Walk {
    let plan = walk_instrument(trades, t0, t1);
    let mut b = Basis::default();
    let mut basis_start = b;
    let (mut realized, mut oversold) = (0.0, false);
    for (i, t) in trades[..plan.used].iter().enumerate() {
        if i == plan.opening {
            basis_start = b;
        }
        let (held, cost) = (figure(b.qty), figure(b.avg_cost));
        let px = figure(t.net_price);
        if t.is_buy {
            let total = cost * held + figure(t.quantity) * px;
            let qty = held + figure(t.quantity);
            b = after_buy(num(qty), num(total / qty));
        } else {
            let s = sale(t.quantity, b.qty, num(held + 1e-9));
            oversold = oversold || s.oversold;
            if plan.sells.contains(&i) {
                realized += figure(s.taken) * (px - cost);
            }
            b = after_sale(num(held - figure(s.taken)), b.avg_cost);
        }
    }
    if plan.opening == plan.used {
        basis_start = b;
    }
    Walk {
        basis_start,
        basis_end: b,
        realized_local: realized,
        buys: plan.buys.len(),
        sells: plan.sells.len(),
        oversold,
    }
}

#[test]
fn weighted_average_matches_worked_example() {
    // buy 5000 @ 40.76, buy 3000 @ 44.20 -> avg 42.05,
    // sell 2000 @ 46.00 -> realized 7900, avg unchanged.
    let t = vec![
        trade(1, true, 5000.0, 40.76),
        trade(2, true, 3000.0, 44.20),
        trade(3, false, 2000.0, 46.00),
    ];
    let w = walk(&t, d(2026, 5, 31), d(2026, 6, 30));
    assert!((figure(w.basis_end.avg_cost) - 42.05).abs() < 1e-9);
    assert!((figure(w.basis_end.qty) - 6000.0).abs() < 1e-9);
    assert!((w.realized_local - 2000.0 * (46.00 - 42.05)).abs() < 1e-6);
}

#[test]
fn trades_on_or_before_t0_build_the_opening_basis_only() {
    let t = vec![trade(1, true, 1000.0, 10.0), trade(20, false, 400.0, 12.0)];
    let w = walk(&t, d(2026, 6, 10), d(2026, 6, 30));
    assert!((figure(w.basis_start.qty) - 1000.0).abs() < 1e-9);
    assert!((figure(w.basis_start.avg_cost) - 10.0).abs() < 1e-9);
    // Only the sell falls inside the window.
    assert!((w.realized_local - 400.0 * 2.0).abs() < 1e-9);
    assert_eq!(w.buys, 0);
    assert_eq!(w.sells, 1);
}

#[test]
fn a_trade_exactly_on_t0_is_in_the_opening_basis() {
    let t = vec![trade(10, true, 100.0, 5.0)];
    let w = walk(&t, d(2026, 6, 10), d(2026, 6, 30));
    assert!((figure(w.basis_start.qty) - 100.0).abs() < 1e-9);
    assert_eq!(w.buys, 0);
}

#[test]
fn overselling_is_flagged_and_does_not_go_negative() {
    let t = vec![trade(1, true, 100.0, 5.0), trade(2, false, 250.0, 6.0)];
    let w = walk(&t, d(2026, 5, 31), d(2026, 6, 30));
    assert!(w.oversold);
    assert!(figure(w.basis_end.qty) >= 0.0);
}

#[test]
fn the_walk_ends_with_the_first_trade_after_the_period() {
    let t = vec![trade(1, true, 1.0, 1.0), trade(20, true, 1.0, 1.0), trade(5, true, 1.0, 1.0)];
    let plan = walk_instrument(&t, d(2026, 5, 31), d(2026, 6, 10));
    assert_eq!((plan.used, plan.opening), (1, 0));
    assert_eq!(plan.buys, vec![0]);
    assert!(plan.sells.is_empty());
}

#[test]
fn a_sale_takes_what_is_held_at_most() {
    let cut = sale(num(250.0), num(100.0), num(100.0 + 1e-9));
    assert!(cut.oversold);
    assert_eq!(figure(cut.taken), 100.0);
    let whole = sale(num(100.0), num(100.0), num(100.0 + 1e-9));
    assert!(!whole.oversold);
    assert_eq!(figure(whole.taken), 100.0);
}

#[test]
fn a_closed_holding_carries_no_cost() {
    for left in [0.0, -0.0, -3.0, 1e-9, f64::NAN] {
        assert_eq!(after_sale(num(left), num(7.0)), Basis::default(), "{left}");
    }
    let open = after_sale(num(2e-9), num(7.0));
    assert_eq!((figure(open.qty), figure(open.avg_cost)), (2e-9, 7.0));
}

#[test]
fn a_vanishing_quantity_has_no_average_cost() {
    assert_eq!(figure(after_buy(num(0.0), num(f64::NAN)).avg_cost), 0.0);
    assert_eq!(figure(after_buy(num(f64::EPSILON), num(9.0)).avg_cost), 0.0);
    assert_eq!(figure(after_buy(num(-2.0), num(9.0)).avg_cost), 9.0);
    assert_eq!(figure(after_buy(num(2.0), num(9.0)).qty), 2.0);
}

// ---- value at risk and the back-test ----

fn historical_var(returns: &[f64], confidence: f64) -> Option<f64> {
    if !var_is_defined(returns.len(), num(confidence), num(1.0)) {
        return None;
    }
    let figures: Vec<Number> = returns.iter().map(|r| num(*r)).collect();
    let sorted: Vec<f64> = ascending(&figures).into_iter().map(figure).collect();
    let idx = (1.0 - confidence) * (sorted.len() - 1) as f64;
    let (lo, hi) = (idx.floor() as usize, idx.ceil() as usize);
    Some(-(sorted[lo] + (idx - lo as f64) * (sorted[hi] - sorted[lo])))
}

fn steps(nav: &[NavPoint]) -> Vec<(Date, f64)> {
    daily_returns(nav).iter().map(|c| (c.date, figure(c.to) / figure(c.from) - 1.0)).collect()
}

fn run(nav: &[NavPoint], window: usize, confidence: f64) -> (Vec<BacktestPoint>, MethodSummary) {
    let rets = steps(nav);
    let values: Vec<f64> = rets.iter().map(|r| r.1).collect();
    let days: Vec<BacktestDay> = backtest_windows(rets.len(), window)
        .iter()
        .map(|w| BacktestDay {
            date: rets[w.end].0,
            ret: num(rets[w.end].1),
            var_hist: historical_var(&values[w.start..w.end], confidence).map(num),
            var_gauss: None,
            var_cf: None,
        })
        .collect();
    let points = backtest(&days);
    let t = tally(&points, VarMethod::Historical);
    let defined = kupiec_is_defined(t.n, t.exceptions, num(1.0 - confidence));
    let summary = summarize(t, if defined { Some((num(1.0), num(0.3))) } else { None });
    (points, summary)
}

#[test]
fn counts_engineered_exceptions() {
    // 31 nav points -> 30 returns: +0.001 everywhere except two -5%
    // spikes at return indices 15 and 20; window = 10.
    let mut nav = Vec::new();
    let mut v = 100.0;
    let mut date = d(2025, 1, 1);
    nav.push(NavPoint { date, value: num(v) });
    for i in 0..30u32 {
        let r = if i == 15 || i == 20 { -0.05 } else { 0.001 };
        v *= 1.0 + r;
        date = date.next_day().unwrap();
        nav.push(NavPoint { date, value: num(v) });
    }
    let (points, historical) = run(&nav, 10, 0.99);
    assert_eq!(points.len(), 20); // 30 returns - window 10
    assert_eq!(historical.exceptions, 2);
    assert_eq!(historical.n, 20);
    assert_eq!(historical.zone, "green");
    let exc_dates: Vec<Date> = points.iter().filter(|p| p.exc_hist).map(|p| p.date).collect();
    assert_eq!(exc_dates.len(), 2);
    // insufficient history -> empty points, n = 0, no kupiec
    let (short, none) = run(&nav[..5], 10, 0.99);
    assert!(short.is_empty());
    assert_eq!(none.n, 0);
    assert!(none.kupiec_p.is_none());
}

#[test]
fn rolling_var_mechanics() {
    let mut nav = Vec::new();
    let mut v = 100.0;
    let mut date = d(2025, 1, 1);
    for i in 0..40u32 {
        v *= if i % 2 == 0 { 1.01 } else { 0.995 };
        nav.push(NavPoint { date, value: num(v) });
        date = date.next_day().unwrap();
    }
    let values: Vec<f64> = steps(&nav).iter().map(|r| r.1).collect();
    let out: Vec<f64> = rolling(values.len(), 20)
        .iter()
        .filter_map(|w| historical_var(&values[w.start..w.end], 0.99))
        .collect();
    assert_eq!(out.len(), nav.len() - 1 - 20 + 1); // returns n-1, windows
    assert!(out.iter().all(|x| x.is_finite()));
}

#[test]
fn figures_are_ordered_from_the_lowest_up() {
    let sorted: Vec<f64> =
        ascending(&[num(0.5), num(-2.0), num(0.0), num(-0.0), num(-0.5)]).into_iter().map(figure).collect();
    assert_eq!(sorted, vec![-2.0, -0.5, -0.0, 0.0, 0.5]);
    assert!(sorted[2].is_sign_negative() && !sorted[3].is_sign_negative());
    assert!(ascending(&[]).is_empty());
}

#[test]
fn var_needs_returns_a_confidence_and_a_horizon() {
    assert!(var_is_defined(2, num(0.99), num(1.0)));
    assert!(!var_is_defined(1, num(0.99), num(1.0)));
    assert!(!var_is_defined(2, num(0.5), num(1.0)));
    assert!(!var_is_defined(2, num(1.0), num(1.0)));
    assert!(!var_is_defined(2, num(0.99), num(0.5)));
}

fn day(ret: f64, var: Option<f64>) -> BacktestDay {
    BacktestDay { date: d(2025, 1, 1), ret: num(ret), var_hist: var.map(num), var_gauss: None, var_cf: var.map(num) }
}

#[test]
fn an_exception_falls_below_the_loss_allowed() {
    let p = backtest(&[day(-0.03, Some(0.02)), day(-0.02, Some(0.02)), day(-0.03, None)]);
    let flags: Vec<bool> = p.iter().map(|x| x.exc_hist).collect();
    assert_eq!(flags, vec![true, false, false]);
    assert!(p[0].exc_cf && !p[0].exc_gauss);
}

#[test]
fn only_the_last_points_are_tallied() {
    let mut days = vec![day(-0.03, Some(0.02)); 20];
    days.extend(vec![day(0.0, Some(0.02)); 245]);
    let points = backtest(&days);
    let t = tally(&points, VarMethod::Historical);
    assert_eq!((t.n, t.exceptions), (250, 5));
    assert_eq!(tally(&points, VarMethod::Gaussian).exceptions, 0);
    assert_eq!(summarize(t, None).zone, "yellow");
}

#[test]
fn zones_and_rejections() {
    let with = |x: usize| {
        let mut days = vec![day(-0.03, Some(0.02)); x];
        days.extend(vec![day(0.0, Some(0.02)); 20]);
        tally(&backtest(&days), VarMethod::CornishFisher)
    };
    assert_eq!(summarize(with(4), None).zone, "green");
    assert_eq!(summarize(with(5), None).zone, "yellow");
    assert_eq!(summarize(with(9), None).zone, "yellow");
    assert_eq!(summarize(with(10), None).zone, "red");
    let kept = summarize(with(1), Some((num(0.5), num(0.05))));
    assert!(!kept.reject);
    assert_eq!(kept.kupiec_lr.map(figure), Some(0.5));
    assert!(summarize(with(1), Some((num(5.0), num(0.0499)))).reject);
}

#[test]
fn the_failure_test_needs_points_and_a_probability() {
    assert!(kupiec_is_defined(250, 5, num(0.01)));
    assert!(!kupiec_is_defined(0, 0, num(0.01)));
    assert!(!kupiec_is_defined(10, 11, num(0.01)));
    assert!(!kupiec_is_defined(10, 1, num(0.0)));
    assert!(!kupiec_is_defined(10, 1, num(1.0)));
}

// ---- bonds ----

#[test]
fn rejects_invalid_inputs() {
    let (asof, mat) = (d(2026, 8, 1), d(2029, 8, 1));
    let days = |price: f64, coupon: f64, freq: u32, a: Date, m: Date| {
        days_to_maturity(num(price), num(coupon), freq, a, m)
    };
    assert!(days(100.0, 5.0, 4, asof, mat).is_none()); // bad freq
    assert!(days(0.0, 5.0, 1, asof, mat).is_none()); // bad price
    assert!(days(100.0, -1.0, 1, asof, mat).is_none()); // bad coupon
    assert!(days(100.0, 5.0, 1, mat, asof).is_none()); // matured
    let t = days(1e-3, 0.0, 1, asof, mat).unwrap() as f64 / 365.25;
    let price_at = |y: f64| num(100.0 / (1.0 + y).powf(t));
    assert!(!in_bracket(num(1e-3), price_at(-0.5), price_at(1.0))); // out of bracket
    assert!(in_bracket(num(90.0), price_at(-0.5), price_at(1.0)));
    assert_eq!(days(100.0, 5.0, 2, asof, mat), Some(1096));
}

#[test]
fn the_opening_is_the_walk_up_to_the_start() {
    let t = vec![
        trade(1, true, 100.0, 10.0),
        trade(5, false, 40.0, 12.0),
        trade(9, true, 60.0, 11.0),
        trade(20, false, 10.0, 13.0),
    ];
    let w = walk(&t, d(2026, 6, 5), d(2026, 6, 30));
    let before = walk(&t, d(2026, 6, 5), d(2026, 6, 5));
    assert_eq!(w.basis_start.qty, before.basis_end.qty);
    assert_eq!(w.basis_start.avg_cost, before.basis_end.avg_cost);
    assert_eq!(figure(w.basis_start.qty), 60.0);
    // where the period starts does not matter to where the walk ends
    let longer = walk(&t, d(2026, 5, 31), d(2026, 6, 30));
    assert_eq!(longer.basis_end.qty, w.basis_end.qty);
    assert_eq!(longer.basis_end.avg_cost, w.basis_end.avg_cost);
}

#[test]
fn trades_after_the_period_change_nothing() {
    let mut t = vec![trade(1, true, 100.0, 10.0), trade(5, false, 40.0, 12.0)];
    let a = walk(&t, d(2026, 5, 31), d(2026, 6, 10));
    t.push(trade(11, false, 500.0, 1.0));
    let b = walk(&t, d(2026, 5, 31), d(2026, 6, 10));
    assert_eq!((a.buys, a.sells, a.oversold), (b.buys, b.sells, b.oversold));
    assert_eq!(a.basis_end.qty, b.basis_end.qty);
    assert_eq!(a.realized_local, b.realized_local);
    assert!(!b.oversold);
}

#[test]
fn no_holding_falls_below_zero_on_the_way() {
    let t = vec![
        trade(1, true, 0.1, 10.0),
        trade(2, true, 0.2, 10.0),
        trade(3, false, 0.3, 11.0),
        trade(4, false, 5.0, 12.0),
        trade(5, true, 1e300, 1.0),
        trade(6, true, 5e-324, 1.0),
        trade(7, false, 1e301, 1.0),
    ];
    for last in 1..=7 {
        let w = walk(&t, d(2026, 6, 3), d(2026, 6, last));
        assert!(figure(w.basis_start.qty) >= 0.0);
        assert!(figure(w.basis_end.qty) >= 0.0);
    }
    // 0.1 + 0.2 is a little more than 0.3; what is left is as good as gone
    assert_eq!(figure(walk(&t, d(2026, 5, 31), d(2026, 6, 2)).basis_end.qty), 0.30000000000000004);
    assert_eq!(figure(walk(&t, d(2026, 5, 31), d(2026, 6, 3)).basis_end.qty), 0.0);
}
