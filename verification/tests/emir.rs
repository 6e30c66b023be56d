use borobudur::date::Date;
use borobudur::emir::{
    counted, monitors, month_window, months_with_data, thresholds, verdict, ClassSums, EmirPosition,
    MonthSnapshot, MonthSums, ReconciliationTier, ThresholdClass, ThresholdReport, Verdict,
};
use borobudur::futures::Category;
use borobudur::number::Number;

fn num(x: f64) -> Number {
    Number { bits: x.to_bits() }
}

fn figure(n: Number) -> f64 {
    f64::from_bits(n.bits)
}

fn d(s: &str) -> Date {
    let parts: Vec<&str> = s.split('-').collect();
    Date::from_ymd_opt(parts[0].parse().unwrap(), parts[1].parse().unwrap(), parts[2].parse().unwrap()).unwrap()
}

fn pos(ticker: &str, cat: Category, notional: Option<f64>, otc: bool, unconfirmed: bool) -> EmirPosition {
    EmirPosition { ticker: ticker.into(), category: cat, notional_eur: notional.map(num), otc, unconfirmed }
}

fn sum_of(ps: &[EmirPosition], rows: &[usize]) -> f64 {
    rows.iter().fold(0.0, |a, i| a + figure(ps[*i].notional_eur.unwrap()).abs())
}

fn class_sums(months: &[MonthSnapshot], class: ThresholdClass) -> ClassSums {
    let mut sums = Vec::new();
    let (mut total, mut otc) = (0.0, 0.0);
    for m in months {
        let (mut t, mut o) = (0.0, 0.0);
        if let Some((_, ps)) = &m.snapshot {
            let c = counted(ps, class);
            t = sum_of(ps, &c.total);
            o = sum_of(ps, &c.otc);
        }
        total += t;
        otc += o;
        sums.push(MonthSums { total_eur: num(t), otc_eur: num(o) });
    }
    let n = months_with_data(months).max(1) as f64;
    ClassSums {
        months: sums,
        avg_total_eur: num(total / n),
        avg_otc_eur: num(otc / n),
        pct_of_threshold: num(otc / n / class.threshold_eur() as f64),
    }
}

fn report(months: &[MonthSnapshot]) -> ThresholdReport {
    let sums: Vec<ClassSums> = ThresholdClass::all().iter().map(|c| class_sums(months, *c)).collect();
    thresholds(months, &sums)
}

#[test]
fn window_is_twelve_months_oldest_first_within_month_capped_at_anchor() {
    let available = [
        d("2026-07-31"), // after the anchor: must never be chosen
        d("2026-07-24"),
        d("2026-07-10"),
        d("2026-06-26"),
        d("2026-04-30"),
        d("2025-08-29"),
        d("2025-07-31"), // before the window: must not leak into 2025-08
    ];
    let w = month_window(d("2026-07-24"), &available);
    assert_eq!(w.len(), 12);
    assert_eq!(w[0].0, d("2025-08-01"));
    assert_eq!(w[11].0, d("2026-07-01"));
    assert_eq!(w[0].1, Some(d("2025-08-29")));
    assert_eq!(w[1].1, None); // 2025-09: no snapshot IN that month
    assert_eq!(w[8].1, Some(d("2026-04-30")));
    assert_eq!(w[9].1, None); // 2026-05
    assert_eq!(w[10].1, Some(d("2026-06-26")));
    // Anchor month: capped at the anchor itself, so 2026-07-31 is skipped.
    assert_eq!(w[11].1, Some(d("2026-07-24")));
}

#[test]
fn window_handles_year_boundary() {
    let w = month_window(d("2026-01-15"), &[d("2026-01-15")]);
    assert_eq!(w[0].0, d("2025-02-01"));
    assert_eq!(w[11].0, d("2026-01-01"));
}

#[test]
fn category_mapping_and_threshold_amounts() {
    assert_eq!(ThresholdClass::of(Category::Equity), ThresholdClass::Equity);
    assert_eq!(ThresholdClass::of(Category::Credit), ThresholdClass::Credit);
    assert_eq!(ThresholdClass::of(Category::InterestRate), ThresholdClass::InterestRate);
    assert_eq!(ThresholdClass::of(Category::Fx), ThresholdClass::Fx);
    assert_eq!(ThresholdClass::of(Category::Commodity), ThresholdClass::CommodityOther);
    assert_eq!(ThresholdClass::of(Category::Other), ThresholdClass::CommodityOther);
    assert_eq!(ThresholdClass::Credit.threshold_eur() as f64, 1e9);
    assert_eq!(ThresholdClass::Equity.threshold_eur() as f64, 1e9);
    assert_eq!(ThresholdClass::InterestRate.threshold_eur() as f64, 3e9);
    assert_eq!(ThresholdClass::Fx.threshold_eur() as f64, 3e9);
    assert_eq!(ThresholdClass::CommodityOther.threshold_eur() as f64, 4e9);
}

#[test]
fn averages_divide_by_months_present_and_shorts_count_absolute() {
    // Two present months out of a 3-slot window; shorts enter the gross
    // sum in absolute value; only OTC-flagged notional feeds the OTC line.
    let months = [
        MonthSnapshot {
            month: d("2026-05-01"),
            snapshot: Some((
                d("2026-05-29"),
                vec![
                    pos("A Index", Category::Equity, Some(100.0), false, false),
                    pos("B Index", Category::Equity, Some(-40.0), true, false), // short, OTC
                ],
            )),
        },
        MonthSnapshot { month: d("2026-06-01"), snapshot: None },
        MonthSnapshot {
            month: d("2026-07-01"),
            snapshot: Some((
                d("2026-07-24"),
                vec![
                    pos("A Index", Category::Equity, Some(300.0), false, false),
                    pos("B Index", Category::Equity, Some(-60.0), true, false),
                ],
            )),
        },
    ];
    let r = report(&months);
    assert_eq!(r.months_present, 2);
    assert_eq!(r.months_total, 3);
    let eq = r.classes.iter().find(|c| c.class == ThresholdClass::Equity).unwrap();
    assert_eq!(eq.months[0].total_eur.map(figure), Some(140.0));
    assert_eq!(eq.months[0].otc_eur.map(figure), Some(40.0));
    assert_eq!(eq.months[1].total_eur, None);
    assert_eq!(eq.months[1].snapshot_date, None);
    assert!((figure(eq.avg_total_eur) - 250.0).abs() < 1e-9); // (140+360)/2
    assert!((figure(eq.avg_otc_eur) - 50.0).abs() < 1e-9); // (40+60)/2
    assert!(r.warnings.iter().any(|w| w.contains("2026-06") && w.contains("no snapshot")));
    // A class with no positions averages to zero, verdict OK.
    let fx = r.classes.iter().find(|c| c.class == ThresholdClass::Fx).unwrap();
    assert_eq!(figure(fx.avg_otc_eur), 0.0);
    assert_eq!(fx.verdict, Verdict::Okay);
}

#[test]
fn verdict_boundaries() {
    assert_eq!(verdict(num(0.799_999e9 / 1e9)), Verdict::Okay);
    assert_eq!(verdict(num(0.8e9 / 1e9)), Verdict::Watch);
    assert_eq!(verdict(num(0.999e9 / 1e9)), Verdict::Watch);
    assert_eq!(verdict(num(1.0e9 / 1e9)), Verdict::Breach);
    assert_eq!(verdict(num(2.5e9 / 3e9)), Verdict::Watch); // 83% of the 3bn tier
}

#[test]
fn warnings_name_the_contract_and_date() {
    let months = [MonthSnapshot {
        month: d("2026-07-01"),
        snapshot: Some((
            d("2026-07-24"),
            vec![
                pos("TYU6 Comdty", Category::InterestRate, None, false, false),
                pos("RXU6 Comdty", Category::InterestRate, Some(1000.0), false, true),
            ],
        )),
    }];
    let r = report(&months);
    assert!(r
        .warnings
        .iter()
        .any(|w| w.contains("TYU6 Comdty") && w.contains("2026-07-24") && w.contains("excluded")));
    assert!(r.warnings.iter().any(|w| w.contains("RXU6 Comdty") && w.contains("provisional")));
    // The missing notional is excluded, not zeroed: the sum still counts RX.
    let ir = r.classes.iter().find(|c| c.class == ThresholdClass::InterestRate).unwrap();
    assert_eq!(ir.months[0].total_eur.map(figure), Some(1000.0));
}

#[test]
fn monitor_tiers() {
    let mk = |n: usize| -> Vec<EmirPosition> {
        (0..n).map(|i| pos(&format!("C{i}"), Category::Fx, Some(1.0), true, false)).collect()
    };
    let m = monitors(&[]);
    assert_eq!(m.otc_open_contracts, 0);
    assert_eq!(m.reconciliation, ReconciliationTier::NotTriggered);
    assert!(!m.compression_required);
    assert_eq!(monitors(&mk(1)).reconciliation, ReconciliationTier::Quarterly);
    assert_eq!(monitors(&mk(50)).reconciliation, ReconciliationTier::Quarterly);
    assert_eq!(monitors(&mk(51)).reconciliation, ReconciliationTier::Weekly);
    assert_eq!(monitors(&mk(499)).reconciliation, ReconciliationTier::Weekly);
    let m = monitors(&mk(500));
    assert_eq!(m.reconciliation, ReconciliationTier::Daily);
    assert!(m.compression_required);
    // Non-OTC positions never count.
    let mut ps = mk(2);
    ps.push(pos("LISTED", Category::Fx, Some(1.0), false, false));
    assert_eq!(monitors(&ps).otc_open_contracts, 2);
}

#[test]
fn warnings_are_worded_in_full_and_in_order() {
    let months = [
        MonthSnapshot { month: d("2026-06-01"), snapshot: None },
        MonthSnapshot {
            month: d("2026-07-01"),
            snapshot: Some((
                d("2026-07-24"),
                vec![
                    pos("A", Category::Fx, None, false, true),
                    pos("B", Category::Fx, Some(1.0), false, false),
                    pos("C", Category::Fx, Some(1.0), false, true),
                ],
            )),
        },
    ];
    assert_eq!(
        report(&months).warnings,
        vec![
            "2026-06: no snapshot in this month; excluded from the average",
            "2026-07-24: A notional unavailable (missing spec, quantity, price or FX rate); excluded from the sums",
            "2026-07-24: C contract spec unconfirmed; its notional is provisional",
        ]
    );
}

#[test]
fn every_notional_counts_in_one_class() {
    let ps: Vec<EmirPosition> = Category::all()
        .iter()
        .map(|c| pos("X", *c, Some(1.0), *c == Category::Fx, false))
        .collect();
    let mut seen = vec![0; ps.len()];
    for class in ThresholdClass::all() {
        let c = counted(&ps, class);
        for i in &c.total {
            seen[*i] += 1;
        }
        for i in &c.otc {
            assert!(c.total.contains(i));
            assert_eq!(class, ThresholdClass::Fx);
        }
    }
    assert_eq!(seen, vec![1; 6]);
}

#[test]
fn labels_and_names() {
    let labels: Vec<&str> = ThresholdClass::all().iter().map(|c| c.label()).collect();
    assert_eq!(
        labels,
        vec![
            "Credit derivatives",
            "Equity derivatives",
            "Interest-rate derivatives",
            "FX derivatives",
            "Commodity and other derivatives",
        ]
    );
    assert_eq!(Verdict::Okay.as_str(), "ok");
    assert_eq!(Verdict::Watch.as_str(), "watch");
    assert_eq!(Verdict::Breach.as_str(), "breach");
    assert_eq!(verdict(num(f64::NAN)), Verdict::Okay);
}

#[test]
fn the_latest_day_of_a_month_stands_for_it_in_any_order() {
    let w = month_window(d("2024-03-15"), &[d("2024-02-01"), d("2024-02-29"), d("2024-02-14"), d("2024-03-16")]);
    assert_eq!(w[10].0, d("2024-02-01"));
    assert_eq!(w[10].1, Some(d("2024-02-29")));
    assert_eq!(w[11].1, None);
}
