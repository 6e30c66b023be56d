use borobudur::date::Date;
use borobudur::flows::{flow_plan, flow_stats, flow_windows, worst_outflow, FlowObs, FlowStats, MIN_FLOW_OBSERVATIONS};
use borobudur::number::Number;

fn num(x: f64) -> Number {
    Number { bits: x.to_bits() }
}

fn figure(n: Number) -> f64 {
    f64::from_bits(n.bits)
}

fn d(y: i32, m: u32, day: u32) -> Date {
    Date::from_ymd_opt(y, m, day).unwrap()
}

struct Obs {
    date: Date,
    net_eur: f64,
    nav_eur: f64,
}

/// `n` daily observations at a constant 100m NAV, all zero net flow.
fn series(n: usize) -> Vec<Obs> {
    let mut date = d(2026, 1, 5);
    let mut out = Vec::new();
    for _ in 0..n {
        out.push(Obs { date, net_eur: 0.0, nav_eur: 100_000_000.0 });
        date = date.next_day().unwrap();
    }
    out
}

fn stats(s: &[Obs]) -> Option<FlowStats> {
    let obs: Vec<FlowObs> = s
        .iter()
        .map(|o| FlowObs { date: o.date, net_eur: num(o.net_eur), nav_eur: num(o.nav_eur) })
        .collect();
    let ratios: Vec<Vec<Number>> = match flow_plan(&obs) {
        None => vec![Vec::new(), Vec::new(), Vec::new()],
        Some(plan) => plan
            .windows
            .iter()
            .map(|w| {
                w.spans
                    .iter()
                    .map(|x| {
                        let sum: f64 = plan.order[x.start..x.end].iter().map(|i| s[*i].net_eur).sum();
                        num(sum / s[plan.order[x.start]].nav_eur)
                    })
                    .collect()
            })
            .collect(),
    };
    flow_stats(&obs, &ratios)
}

fn worst(st: &FlowStats, window: u32) -> f64 {
    figure(st.worst.iter().find(|w| w.window == window).unwrap().pct_of_nav)
}

#[test]
fn too_little_history_is_unavailable_not_a_number() {
    assert!(stats(&series(19)).is_none());
    assert!(stats(&[]).is_none());
    assert!(stats(&series(20)).is_some());
    assert_eq!(MIN_FLOW_OBSERVATIONS, 20);
}

#[test]
fn the_worst_single_day_outflow_is_reported_as_a_positive_percentage() {
    let mut s = series(40);
    s[10].net_eur = -5_000_000.0;
    let st = stats(&s).unwrap();
    assert!((worst(&st, 1) - 0.05).abs() < 1e-12);
}

#[test]
fn a_run_of_outflows_shows_up_in_the_longer_window() {
    let mut s = series(40);
    for o in &mut s[10..15] {
        o.net_eur = -2_000_000.0;
    }
    let st = stats(&s).unwrap();
    assert!((worst(&st, 1) - 0.02).abs() < 1e-12);
    assert!((worst(&st, 5) - 0.10).abs() < 1e-12);
}

#[test]
fn subscriptions_never_produce_a_negative_worst_outflow() {
    let mut s = series(40);
    for o in s.iter_mut() {
        o.net_eur = 1_000_000.0;
    }
    let st = stats(&s).unwrap();
    assert!(st.worst.iter().all(|w| figure(w.pct_of_nav) == 0.0));
}

#[test]
fn the_range_and_count_describe_the_history_actually_loaded() {
    let s = series(25);
    let st = stats(&s).unwrap();
    assert_eq!(st.n_observations, 25);
    assert_eq!(st.from, d(2026, 1, 5));
    assert_eq!(st.to, d(2026, 1, 29));
}

#[test]
fn observations_are_ordered_by_date_regardless_of_input_order() {
    let mut s = series(30);
    s[3].net_eur = -9_000_000.0;
    s.reverse();
    let st = stats(&s).unwrap();
    assert_eq!(st.from, d(2026, 1, 5));
    assert!((worst(&st, 1) - 0.09).abs() < 1e-12);
}

#[test]
fn an_all_subscriptions_series_reports_worst_outflow_as_positive_zero_not_negative_zero() {
    let mut s = series(40);
    for o in s.iter_mut() {
        o.net_eur = 1_000_000.0;
    }
    let st = stats(&s).unwrap();
    for w in &st.worst {
        assert!(!figure(w.pct_of_nav).is_sign_negative(), "window {}: -0.0 leaked", w.window);
    }
}

#[test]
fn a_non_positive_nav_observation_is_skipped_not_divided_by() {
    let mut s = series(30);
    s[5].nav_eur = 0.0;
    s[5].net_eur = -1_000_000.0;
    let st = stats(&s).unwrap();
    assert!(st.worst.iter().all(|w| figure(w.pct_of_nav).is_finite()));
}

#[test]
fn windows_slide_over_every_observation() {
    let obs: Vec<FlowObs> = series(22)
        .iter()
        .map(|o| FlowObs { date: o.date, net_eur: num(0.0), nav_eur: num(o.nav_eur) })
        .collect();
    let plan = flow_plan(&obs).unwrap();
    assert_eq!(flow_windows(), vec![1, 5, 20]);
    let counts: Vec<usize> = plan.windows.iter().map(|w| w.spans.len()).collect();
    assert_eq!(counts, vec![22, 18, 3]);
    assert_eq!((plan.windows[2].spans[2].start, plan.windows[2].spans[2].end), (2, 22));
    assert_eq!(plan.order, (0..22).collect::<Vec<usize>>());
}

#[test]
fn the_worst_ratio_is_turned_positive() {
    assert_eq!(figure(worst_outflow(&[num(-0.1), num(-0.3), num(0.2)])), 0.3);
    assert_eq!(worst_outflow(&[]).bits, 0);
    assert_eq!(worst_outflow(&[num(-0.0)]).bits, 0);
    assert_eq!(worst_outflow(&[num(f64::NAN)]).bits, 0);
}

#[test]
fn the_order_of_the_observations_changes_nothing() {
    let mut s = series(30);
    s[3].net_eur = -9_000_000.0;
    s[4].net_eur = -2_000_000.0;
    s[11].nav_eur = -1.0;
    let straight = stats(&s).unwrap();
    s.swap(3, 20);
    s.swap(0, 29);
    s.swap(7, 11);
    let shuffled = stats(&s).unwrap();
    assert_eq!((straight.from, straight.to), (shuffled.from, shuffled.to));
    assert_eq!(straight.n_observations, shuffled.n_observations);
    let worst_of = |st: &FlowStats| -> Vec<(u32, u64)> { st.worst.iter().map(|w| (w.window, w.pct_of_nav.bits)).collect() };
    assert_eq!(worst_of(&straight), worst_of(&shuffled));
    assert_eq!(worst(&shuffled, 1), 0.09);
    assert_eq!(worst(&shuffled, 5), 0.11);
}

#[test]
fn a_stretch_that_opens_on_no_assets_is_left_out() {
    let obs: Vec<FlowObs> = series(22)
        .iter()
        .enumerate()
        .map(|(i, o)| FlowObs { date: o.date, net_eur: num(0.0), nav_eur: num(if i == 1 { 0.0 } else { o.nav_eur }) })
        .collect();
    let plan = flow_plan(&obs).unwrap();
    let spans: Vec<(usize, usize)> = plan.windows[2].spans.iter().map(|x| (x.start, x.end)).collect();
    assert_eq!(spans, vec![(0, 20), (2, 22)]);
}
