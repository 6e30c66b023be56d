use borobudur::calendar::{annual_returns, monthly_returns, quarterly_returns, PeriodReturn};
use borobudur::date::Date;
use borobudur::drawdown::{
    drawdown_episodes, drawdown_series, top_short_drawdowns, yearly_max_drawdowns, yearly_peaks, DrawdownEpisode,
    YearlyDrawdown,
};
use borobudur::metrics::{rolling, ytd_performance, Span};
use borobudur::number::Number;
use borobudur::series::{daily_returns, Change, NavPoint};

fn num(x: f64) -> Number {
    Number { bits: x.to_bits() }
}

fn figure(n: Number) -> f64 {
    f64::from_bits(n.bits)
}

fn d(y: i32, m: u32, day: u32) -> Date {
    Date::from_ymd_opt(y, m, day).unwrap()
}

fn nav(points: &[(i32, u32, u32, f64)]) -> Vec<NavPoint> {
    points.iter().map(|&(y, m, dd, v)| NavPoint { date: d(y, m, dd), value: num(v) }).collect()
}

fn value(c: &Change) -> f64 {
    figure(c.to) / figure(c.from) - 1.0
}

fn period_value(p: &PeriodReturn) -> f64 {
    figure(p.to) / figure(p.from) - 1.0
}

// ---- daily returns ----

#[test]
fn daily_returns_basic() {
    let n = nav(&[(2025, 1, 6, 100.0), (2025, 1, 7, 102.0), (2025, 1, 8, 101.0)]);
    let r = daily_returns(&n);
    assert_eq!(r.len(), 2);
    assert_eq!(r[0].date, d(2025, 1, 7));
    assert!((value(&r[0]) - 0.02).abs() < 1e-12);
    assert!((value(&r[1]) - (101.0 / 102.0 - 1.0)).abs() < 1e-12);
}

#[test]
fn daily_returns_empty_and_single() {
    assert!(daily_returns(&[]).is_empty());
    assert!(daily_returns(&nav(&[(2025, 1, 6, 100.0)])).is_empty());
}

#[test]
fn a_return_from_zero_or_less_is_skipped() {
    let n = nav(&[
        (2025, 1, 6, 100.0),
        (2025, 1, 7, 0.0),
        (2025, 1, 8, -1.0),
        (2025, 1, 9, 50.0),
        (2025, 1, 10, 51.0),
    ]);
    let r = daily_returns(&n);
    let dates: Vec<Date> = r.iter().map(|c| c.date).collect();
    assert_eq!(dates, vec![d(2025, 1, 7), d(2025, 1, 10)]);
    assert!(r.iter().all(|c| figure(c.from) > 0.0));
}

// ---- calendar periods ----

fn fixture() -> Vec<NavPoint> {
    nav(&[(2025, 1, 31, 100.0), (2025, 2, 15, 103.0), (2025, 2, 28, 104.0), (2025, 3, 31, 102.0)])
}

#[test]
fn monthly_last_of_month_vs_prev() {
    let m = monthly_returns(&fixture());
    assert_eq!(m.len(), 3);
    assert_eq!((m[0].year, m[0].period), (2025, 1));
    assert!((period_value(&m[0]) - 0.0).abs() < 1e-12); // inception month: 100/100-1
    assert!((period_value(&m[1]) - 0.04).abs() < 1e-12); // 104/100-1 (mid-month 103 ignored)
    assert!((period_value(&m[2]) - (102.0 / 104.0 - 1.0)).abs() < 1e-12);
}

#[test]
fn quarterly_compounds_across_months() {
    let q = quarterly_returns(&fixture());
    assert_eq!(q.len(), 1);
    assert_eq!((q[0].year, q[0].period), (2025, 1));
    assert!((period_value(&q[0]) - 0.02).abs() < 1e-12); // 102/100-1
}

#[test]
fn annual_totals() {
    let n = nav(&[(2024, 12, 31, 100.0), (2025, 3, 31, 104.0), (2025, 6, 30, 106.0)]);
    let a = annual_returns(&n);
    assert_eq!(a.len(), 2);
    assert_eq!(a[0].year, 2024);
    assert!((period_value(&a[0]) - 0.0).abs() < 1e-12);
    assert_eq!(a[1].year, 2025);
    assert!((period_value(&a[1]) - 0.06).abs() < 1e-12); // 106/100-1
    assert!(a.iter().all(|p| p.period == 0));
}

#[test]
fn empty_series() {
    assert!(monthly_returns(&[]).is_empty());
    assert!(quarterly_returns(&[]).is_empty());
    assert!(annual_returns(&[]).is_empty());
}

#[test]
fn quarters_are_counted_from_one() {
    let n = nav(&[(2025, 3, 31, 1.0), (2025, 4, 1, 2.0), (2025, 9, 30, 3.0), (2025, 12, 31, 4.0)]);
    let periods: Vec<u32> = quarterly_returns(&n).iter().map(|p| p.period).collect();
    assert_eq!(periods, vec![1, 2, 3, 4]);
}

#[test]
fn period_returns_span_the_series() {
    let n = fixture();
    for r in [monthly_returns(&n), quarterly_returns(&n), annual_returns(&n)] {
        assert_eq!(r[0].from, n[0].value);
        assert_eq!(r[r.len() - 1].to, n[n.len() - 1].value);
        for i in 1..r.len() {
            assert_eq!(r[i].from, r[i - 1].to);
        }
    }
}

// ---- performance to date and windows ----

#[test]
fn ytd_uses_prior_year_close() {
    let n = nav(&[
        (2024, 12, 30, 100.0),
        (2024, 12, 31, 102.0),
        (2025, 1, 2, 105.0),
        (2025, 1, 3, 107.0),
    ]);
    let y = ytd_performance(&n, d(2025, 1, 3)).unwrap();
    assert!((value(&y) - (107.0 / 102.0 - 1.0)).abs() < 1e-12);
}

#[test]
fn ytd_falls_back_to_inception() {
    let n = nav(&[(2025, 3, 1, 100.0), (2025, 3, 5, 104.0)]);
    assert!((value(&ytd_performance(&n, d(2025, 3, 5)).unwrap()) - 0.04).abs() < 1e-12);
    assert_eq!(ytd_performance(&n, d(2025, 2, 1)), None); // as_of before series
}

#[test]
fn ytd_needs_a_base_above_zero() {
    let n = nav(&[(2024, 12, 31, 0.0), (2025, 1, 2, 105.0)]);
    assert_eq!(ytd_performance(&n, d(2025, 1, 3)), None);
    assert_eq!(ytd_performance(&[], d(2025, 1, 3)), None);
}

fn annualized_vol(returns: &[f64]) -> f64 {
    let m = returns.iter().sum::<f64>() / returns.len() as f64;
    let var = returns.iter().map(|x| (x - m).powi(2)).sum::<f64>() / (returns.len() - 1) as f64;
    var.sqrt() * 252f64.sqrt()
}

#[test]
fn rolling_windows_mechanics() {
    let n = nav(&[
        (2025, 1, 6, 100.0),
        (2025, 1, 7, 102.0),
        (2025, 1, 8, 101.0),
        (2025, 1, 9, 103.0),
        (2025, 1, 10, 104.0),
    ]);
    // 4 returns, window 2 -> 3 output points dated at each window's last return
    let steps = daily_returns(&n);
    let rets: Vec<f64> = steps.iter().map(value).collect();
    let out: Vec<(Date, f64)> = rolling(rets.len(), 2)
        .iter()
        .map(|w| (steps[w.end - 1].date, annualized_vol(&rets[w.start..w.end])))
        .collect();
    assert_eq!(out.len(), 3);
    assert_eq!(out[0].0, d(2025, 1, 8));
    assert_eq!(out[2].0, d(2025, 1, 10));
    // each value must equal annualized_vol of that trailing slice
    assert!((out[0].1 - annualized_vol(&rets[0..2])).abs() < 1e-12);
    assert!((out[2].1 - annualized_vol(&rets[2..4])).abs() < 1e-12);
    // window larger than returns -> empty
    assert!(rolling(rets.len(), 5).is_empty());
}

#[test]
fn a_window_of_one_gives_nothing() {
    assert!(rolling(10, 1).is_empty());
    assert!(rolling(10, 0).is_empty());
    assert_eq!(rolling(3, 3), vec![Span { start: 0, end: 3 }]);
    assert_eq!(rolling(4, 3), vec![Span { start: 0, end: 3 }, Span { start: 1, end: 4 }]);
}

// ---- drawdowns ----

// 100,110,99,105,120,108 on Jan 1..6
fn hills() -> Vec<NavPoint> {
    nav(&[
        (2025, 1, 1, 100.0),
        (2025, 1, 2, 110.0),
        (2025, 1, 3, 99.0),
        (2025, 1, 4, 105.0),
        (2025, 1, 5, 120.0),
        (2025, 1, 6, 108.0),
    ])
}

fn depth(e: &DrawdownEpisode) -> f64 {
    figure(e.trough_value) / figure(e.peak_value) - 1.0
}

fn top(points: &[NavPoint], max_days: i64, n: usize) -> Vec<DrawdownEpisode> {
    let all = drawdown_episodes(points);
    let depths: Vec<Number> = all.iter().map(|e| num(depth(e))).collect();
    top_short_drawdowns(&all, &depths, max_days, n).iter().map(|i| all[*i]).collect()
}

fn yearly(points: &[NavPoint]) -> Vec<YearlyDrawdown> {
    let years = yearly_peaks(points);
    let falls: Vec<Number> = years.iter().map(|p| num(figure(p.value) / figure(p.peak) - 1.0)).collect();
    yearly_max_drawdowns(&years, &falls)
}

#[test]
fn underwater_series() {
    let dd = drawdown_series(&hills());
    let vals: Vec<f64> = dd.iter().map(value).collect();
    let expect = [0.0, 0.0, -0.1, 105.0 / 110.0 - 1.0, 0.0, -0.1];
    for (v, e) in vals.iter().zip(expect) {
        assert!((v - e).abs() < 1e-12);
    }
    assert_eq!(dd[2].date, d(2025, 1, 3));
}

#[test]
fn episodes_detected() {
    let eps = drawdown_episodes(&hills());
    assert_eq!(eps.len(), 2);
    assert_eq!(eps[0].peak_date, d(2025, 1, 2));
    assert_eq!(eps[0].trough_date, d(2025, 1, 3));
    assert!((depth(&eps[0]) - (-0.1)).abs() < 1e-12);
    assert_eq!(eps[0].duration_days, 1);
    assert_eq!(eps[0].recovery_date, Some(d(2025, 1, 5)));
    assert_eq!(eps[1].peak_date, d(2025, 1, 5));
    assert_eq!(eps[1].recovery_date, None); // ongoing
}

#[test]
fn top_short_filters_and_ranks() {
    let eps = top(&hills(), 50, 5);
    assert_eq!(eps.len(), 2);
    // both -10%; deeper-or-equal first, stable by date
    assert!(depth(&eps[0]) <= depth(&eps[1]));
    // duration filter: max 0 days excludes both
    assert!(top(&hills(), 0, 5).is_empty());
}

#[test]
fn the_deepest_come_first_and_no_more_than_asked() {
    let n = nav(&[
        (2025, 1, 1, 100.0),
        (2025, 1, 2, 95.0),
        (2025, 1, 3, 100.0),
        (2025, 1, 4, 80.0),
        (2025, 1, 5, 100.0),
        (2025, 3, 5, 60.0),
        (2025, 3, 6, 100.0),
    ]);
    let eps = top(&n, 50, 5);
    let depths: Vec<f64> = eps.iter().map(depth).collect();
    assert_eq!(depths.len(), 2); // the third fell for 59 days
    assert!((depths[0] + 0.2).abs() < 1e-12 && (depths[1] + 0.05).abs() < 1e-12);
    assert_eq!(top(&n, 50, 1).len(), 1);
    assert_eq!(top(&n, 60, 1)[0].trough_date, d(2025, 3, 5));
}

#[test]
fn yearly_max_resets_peak_at_year_start() {
    let n = nav(&[
        (2024, 12, 30, 100.0),
        (2024, 12, 31, 90.0),
        (2025, 1, 2, 95.0),
        (2025, 1, 3, 85.0),
    ]);
    let y = yearly(&n);
    assert_eq!(y.len(), 2);
    assert_eq!(y[0].year, 2024);
    assert!((figure(y[0].max_drawdown) - (-0.10)).abs() < 1e-12);
    assert_eq!(y[1].year, 2025);
    // peak resets to 95 in 2025 -> 85/95-1, NOT 85/100-1
    assert!((figure(y[1].max_drawdown) - (85.0 / 95.0 - 1.0)).abs() < 1e-12);
}

#[test]
fn a_year_that_only_rises_reports_zero() {
    let y = yearly(&nav(&[(2024, 1, 1, 1.0), (2024, 1, 2, 2.0)]));
    assert_eq!(y.len(), 1);
    assert_eq!(figure(y[0].max_drawdown), 0.0);
    assert!(yearly(&[]).is_empty());
}

#[test]
fn a_trough_is_the_first_of_the_lowest() {
    let n = nav(&[
        (2025, 1, 1, 10.0),
        (2025, 1, 2, 7.0),
        (2025, 1, 3, 8.0),
        (2025, 1, 4, 7.0),
        (2025, 1, 5, 10.0),
    ]);
    let eps = drawdown_episodes(&n);
    assert_eq!(eps.len(), 1);
    assert_eq!(eps[0].trough_date, d(2025, 1, 2));
    // reaching the peak again, not passing it, is the recovery
    assert_eq!(eps[0].recovery_date, Some(d(2025, 1, 5)));
    assert!(drawdown_episodes(&[]).is_empty());
}

#[test]
fn no_fall_of_a_year_lies_below_the_one_reported() {
    let n = nav(&[
        (2024, 3, 1, 100.0),
        (2024, 3, 2, 80.0),
        (2024, 3, 3, 120.0),
        (2024, 3, 4, 60.0),
        (2025, 3, 1, 50.0),
        (2025, 3, 2, 45.0),
    ]);
    let y = yearly(&n);
    assert_eq!(y.iter().map(|r| r.year).collect::<Vec<i32>>(), vec![2024, 2025]);
    for p in yearly_peaks(&n) {
        let fall = figure(p.value) / figure(p.peak) - 1.0;
        let reported = y.iter().find(|r| r.year == p.year).unwrap();
        assert!(figure(reported.max_drawdown) <= fall);
    }
    assert_eq!(figure(y[0].max_drawdown), 60.0 / 120.0 - 1.0);
    assert_eq!(figure(y[1].max_drawdown), 45.0 / 50.0 - 1.0);
}
