use borobudur::futures::{
    accept_point_value, computable, contract_root, exposure, has_dv01, Category, Exposure, FuturePosition,
    Notional, PriceConvention,
};
use borobudur::number::Number;

fn num(x: f64) -> Number {
    Number { bits: x.to_bits() }
}

fn figure(n: Number) -> f64 {
    f64::from_bits(n.bits)
}

struct Totals {
    long_pct: f64,
    short_pct: f64,
    gross_pct: f64,
}

struct Report {
    plan: Exposure,
    categories: Vec<(Category, Totals)>,
    total: Totals,
}

fn notional(p: &FuturePosition, aum: f64) -> Notional {
    let can = computable(p, num(aum));
    let mut n = Notional { ccy: num(0.0), eur: num(0.0), pct: num(0.0) };
    if can.ccy {
        n.ccy = num(figure(p.qty.unwrap()) * figure(p.point_value.unwrap()) * figure(p.price.unwrap()));
    }
    if can.eur {
        n.eur = num(figure(n.ccy) * figure(p.fx_rate.unwrap()));
    }
    if can.pct {
        n.pct = num(figure(n.eur) / aum);
    }
    n
}

fn report(positions: &[FuturePosition], aum: f64) -> Report {
    let notionals: Vec<Notional> = positions.iter().map(|p| notional(p, aum)).collect();
    let plan = exposure(positions, num(aum), &notionals);
    let pct = |i: &usize| figure(plan.rows[*i].pct_nav.unwrap());
    let categories: Vec<(Category, Totals)> = plan
        .categories
        .iter()
        .map(|c| {
            let long_pct = c.long.iter().fold(0.0, |a, i| a + pct(i));
            let short_pct = c.short.iter().fold(0.0, |a, i| a - pct(i));
            (c.category, Totals { long_pct, short_pct, gross_pct: long_pct + short_pct })
        })
        .collect();
    let long_pct: f64 = categories.iter().map(|c| c.1.long_pct).sum();
    let short_pct: f64 = categories.iter().map(|c| c.1.short_pct).sum();
    Report { plan, categories, total: Totals { long_pct, short_pct, gross_pct: long_pct + short_pct } }
}

fn category(rep: &Report, c: Category) -> &Totals {
    &rep.categories.iter().find(|x| x.0 == c).unwrap().1
}

fn fut(ticker: &str, cat: Category, qty: f64, price: f64, pv: Option<f64>, fx: Option<f64>) -> FuturePosition {
    FuturePosition {
        ticker: ticker.into(),
        name: ticker.into(),
        currency: "EUR".into(),
        category: cat,
        qty: Some(num(qty)),
        price: Some(num(price)),
        point_value: pv.map(num),
        fx_rate: fx.map(num),
        unconfirmed: false,
    }
}

fn implied_point_value(price: f64, avg_cost: f64, qty: f64, valuation_ccy: f64) -> Option<f64> {
    let scale = price.abs().max(1.0);
    accept_point_value(
        num((price - avg_cost).abs()),
        num(1e-6 * scale),
        num(qty),
        num(valuation_ccy / ((price - avg_cost) * qty)),
    )
    .map(figure)
}

#[test]
fn parses_convention_names() {
    assert_eq!(PriceConvention::parse("decimal"), Some(PriceConvention::Decimal));
    assert_eq!(PriceConvention::parse("th32"), Some(PriceConvention::Th32));
    assert_eq!(PriceConvention::parse("32nds"), None);
    assert_eq!(PriceConvention::Th32.as_str(), "th32");
}

#[test]
fn derives_contract_root() {
    assert_eq!(contract_root("RXU6 Comdty").as_deref(), Some("RX"));
    assert_eq!(contract_root("OATU6 Comdty").as_deref(), Some("OAT"));
    assert_eq!(contract_root("KOAU6 Comdty").as_deref(), Some("KOA"));
    assert_eq!(contract_root("TYU6 Comdty").as_deref(), Some("TY"));
    assert_eq!(contract_root("CFQ6 Index").as_deref(), Some("CF"));
    assert_eq!(contract_root("NQU6 Index").as_deref(), Some("NQ"));
    assert_eq!(contract_root("RYU6 Curncy").as_deref(), Some("RY"));
    assert_eq!(contract_root(""), None);
    assert_eq!(contract_root("AB"), None); // nothing left after the suffix
}

#[test]
fn roots_are_ascii_and_blind_to_white_space() {
    assert_eq!(contract_root("   RXU6\tComdty").as_deref(), Some("RX"));
    assert_eq!(contract_root("RXZ7 Comdty"), contract_root("RXU6 Comdty"));
    assert_eq!(contract_root("\u{c9}XU6 Comdty"), None);
    assert_eq!(contract_root("   "), None);
    assert_eq!(contract_root("ABC").as_deref(), Some("A"));
}

#[test]
fn recovers_exchange_point_values() {
    // (price, avg_cost, qty, valuation_ccy, expected) - the eight real contracts,
    // with the TY line already decoded out of 32nds.
    let cases = [
        (8388.0, 8336.23333333, -12.0, -6212.0, 10.0),
        (6301.0, 6287.0, -9.0, -1260.0, 10.0),
        (108.328125, 109.453125, -6.0, 6750.0, 1000.0),
        (185.93, 184.13, -7.0, -1575000.0, 125000.0),
        (124.46, 125.83, -8.0, 10960.0, 1000.0),
        (117.12, 118.918, -15.0, 26970.0, 1000.0),
        (28282.25, 28982.5, -1.0, 14005.0, 20.0),
        (119.82, 121.16625, 8.0, -10770.0, 1000.0),
    ];
    for (price, pam, qty, val, want) in cases {
        let got = implied_point_value(price, pam, qty, val).unwrap();
        assert!((got - want).abs() < 1e-6, "price {price}: got {got}, want {want}");
    }
}

#[test]
fn point_value_undeterminable_cases() {
    // marked at average cost -> denominator vanishes
    assert_eq!(implied_point_value(124.46, 124.46, -8.0, 0.0), None);
    // zero quantity
    assert_eq!(implied_point_value(124.46, 125.83, 0.0, 0.0), None);
    // a negative implied value is nonsense, not a spec
    assert_eq!(implied_point_value(124.46, 125.83, -8.0, -10960.0), None);
}

#[test]
fn a_point_value_must_be_positive_and_finite() {
    assert_eq!(accept_point_value(num(1.0), num(0.1), num(1.0), num(5.0)), Some(num(5.0)));
    assert_eq!(accept_point_value(num(1.0), num(0.1), num(-0.0), num(5.0)), None);
    assert_eq!(accept_point_value(num(1.0), num(0.1), num(1.0), num(f64::INFINITY)), None);
    assert_eq!(accept_point_value(num(1.0), num(0.1), num(1.0), num(f64::NAN)), None);
    assert_eq!(accept_point_value(num(1.0), num(0.1), num(1.0), num(0.0)), None);
}

#[test]
fn notional_is_qty_times_point_value_times_price() {
    let rows = [fut("RXU6 Comdty", Category::InterestRate, -8.0, 124.46, Some(1000.0), Some(1.0))];
    let rep = report(&rows, 28_332_753.49);
    let r = &rep.plan.rows[0];
    assert!((figure(r.notional_ccy.unwrap()) - -995_680.0).abs() < 1e-6);
    assert!((figure(r.notional_eur.unwrap()) - -995_680.0).abs() < 1e-6);
    assert!((figure(r.pct_nav.unwrap()) - -0.035142).abs() < 1e-6);
    assert!(!r.spec_missing);
}

#[test]
fn categories_report_long_and_short_in_absolute_value() {
    let aum = 1000.0;
    let rows = [
        fut("A Index", Category::Equity, -1.0, 100.0, Some(1.0), Some(1.0)), // -100 -> short 10%
        fut("B Comdty", Category::InterestRate, 2.0, 100.0, Some(1.0), Some(1.0)), // +200 -> long 20%
        fut("C Comdty", Category::InterestRate, -1.0, 50.0, Some(1.0), Some(1.0)), // -50 -> short 5%
    ];
    let rep = report(&rows, aum);
    let ir = category(&rep, Category::InterestRate);
    assert!((ir.long_pct - 0.20).abs() < 1e-12);
    assert!((ir.short_pct - 0.05).abs() < 1e-12, "shorts are reported positive");
    assert!((ir.gross_pct - 0.25).abs() < 1e-12);

    let eq = category(&rep, Category::Equity);
    assert!((eq.long_pct - 0.0).abs() < 1e-12);
    assert!((eq.short_pct - 0.10).abs() < 1e-12);

    // all six categories are always present, empty ones included
    assert_eq!(rep.categories.len(), 6);
    assert!((rep.total.long_pct - 0.20).abs() < 1e-12);
    assert!((rep.total.short_pct - 0.15).abs() < 1e-12);
    assert!((rep.total.gross_pct - 0.35).abs() < 1e-12);
}

#[test]
fn missing_spec_or_fx_excludes_from_totals_but_keeps_the_row() {
    let rows = [
        fut("A Comdty", Category::InterestRate, -8.0, 124.46, None, Some(1.0)), // no point value
        fut("B Comdty", Category::InterestRate, -8.0, 124.46, Some(1000.0), None), // no fx rate
    ];
    let rep = report(&rows, 1000.0);
    assert_eq!(rep.plan.rows.len(), 2, "rows are always listed");
    assert!(rep.plan.rows[0].spec_missing);
    assert_eq!(rep.plan.rows[0].notional_ccy, None);
    assert_eq!(rep.plan.rows[1].notional_eur, None, "no fx rate -> no EUR notional");
    assert!(rep.plan.rows[1].notional_ccy.is_some(), "ccy notional still computable");
    assert_eq!(rep.plan.excluded.len(), 2);
    assert!((rep.total.gross_pct - 0.0).abs() < 1e-12, "neither reaches the totals");
}

#[test]
fn missing_price_or_quantity_is_excluded_not_zeroed() {
    let mut no_price = fut("A Comdty", Category::InterestRate, -8.0, 0.0, Some(1000.0), Some(1.0));
    no_price.price = None;
    let mut no_qty = fut("B Comdty", Category::InterestRate, 0.0, 124.46, Some(1000.0), Some(1.0));
    no_qty.qty = None;
    let rep = report(&[no_price, no_qty], 1000.0);

    assert_eq!(rep.plan.rows.len(), 2, "rows are always listed");
    for r in &rep.plan.rows {
        assert_eq!(r.notional_ccy, None, "{}", r.ticker);
        assert_eq!(r.pct_nav, None, "{}", r.ticker);
        assert!(r.inputs_missing, "{}", r.ticker);
        assert!(!r.spec_missing, "the spec is fine - the workbook row is not: {}", r.ticker);
    }
    assert_eq!(rep.plan.excluded.len(), 2, "both must surface in `excluded`");
    assert!((rep.total.gross_pct - 0.0).abs() < 1e-12);
}

#[test]
fn genuinely_zero_position_reports_zero_rather_than_missing() {
    let rows = [
        fut("A Comdty", Category::InterestRate, 0.0, 124.46, Some(1000.0), Some(1.0)),
        fut("B Comdty", Category::InterestRate, -8.0, 0.0, Some(1000.0), Some(1.0)),
    ];
    let rep = report(&rows, 1000.0);
    for r in &rep.plan.rows {
        assert_eq!(r.pct_nav.map(figure), Some(0.0), "a real zero is Some(0.0): {}", r.ticker);
        assert!(!r.inputs_missing, "{}", r.ticker);
    }
    assert!(rep.plan.excluded.is_empty(), "a computable zero is not an exclusion");
}

#[test]
fn zero_aum_excludes_everything_without_dividing_by_zero() {
    let rows = [fut("A Index", Category::Equity, -1.0, 100.0, Some(1.0), Some(1.0))];
    let rep = report(&rows, 0.0);
    assert_eq!(rep.plan.rows[0].pct_nav, None);
    assert_eq!(rep.plan.excluded.len(), 1);
    assert!((rep.total.gross_pct - 0.0).abs() < 1e-12);
}

#[test]
fn dv01_rejects_degenerate_inputs() {
    assert!(has_dv01(num(0.782145), num(1000.0)));
    assert!(!has_dv01(num(0.0), num(1000.0)));
    assert!(!has_dv01(num(0.782145), num(0.0)));
    assert!(!has_dv01(num(-1.0), num(1000.0)));
}

#[test]
fn category_names_read_back() {
    let names: Vec<&str> = Category::all().iter().map(|c| c.as_str()).collect();
    assert_eq!(names, vec!["equity", "interest_rate", "fx", "credit", "commodity", "other"]);
    for c in Category::all() {
        assert_eq!(Category::parse(c.as_str()), Some(c));
    }
    assert_eq!(Category::parse("bond"), None);
}

#[test]
fn an_unconfirmed_spec_marks_its_row() {
    let mut p = fut("A Index", Category::Equity, 1.0, 100.0, Some(1.0), Some(1.0));
    p.unconfirmed = true;
    let rep = report(&[p], 1000.0);
    assert!(rep.plan.rows[0].unconfirmed);
    assert_eq!(rep.plan.categories[0].long, vec![0]);
    assert!(rep.plan.categories[0].short.is_empty());
}

#[test]
fn a_root_survives_a_roll() {
    for symbol in ["RXU6 Comdty", "RXZ6 Comdty", "RXH7 Comdty", "RXM7"] {
        assert_eq!(contract_root(symbol).as_deref(), Some("RX"));
    }
}
