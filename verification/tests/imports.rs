use borobudur::auth::{Action, Domain, Grant, GrantSet};
use borobudur::date::Date;
use borobudur::futures::{Category, PriceConvention};
use borobudur::number::Number;
use borobudur::pnl::{after_buy, after_sale, sale, Basis};
use borobudur::repo::imports::{
    bond_name, derivation_due, derived_warning, import_plan, tna_warning, BatchShape, ImportOutcome,
    OperationRow, PositionRow,
};
use borobudur::repo::pam::{journal_trades, pam_checks, pam_warning, PamFigures, PamTexts};
use borobudur::repo::positions::{dividend_candidates, dividend_events, DividendEvent, Receivable};
use borobudur::repo::reference::{visible, FuturesContract};
use borobudur::repo::seeding::{
    other_convention, point_value_warning, seed_futures_contracts, PointCheck, SeedStep,
};

fn num(x: f64) -> Number {
    Number { bits: x.to_bits() }
}

fn figure(n: Number) -> f64 {
    f64::from_bits(n.bits)
}

fn d(y: i32, m: u32, day: u32) -> Date {
    Date::from_ymd_opt(y, m, day).unwrap()
}

fn position(isin: &str, quantity: f64, avg_cost: f64) -> PositionRow {
    PositionRow {
        asset_type: "Action".to_string(),
        isin: isin.to_string(),
        name: None,
        currency: None,
        quantity: Some(num(quantity)),
        avg_cost: Some(num(avg_cost)),
        price: None,
        valuation_ccy: None,
        accrued_interest: None,
        fx_rate: None,
        valuation_eur: None,
        weight: None,
        ticker: None,
    }
}

fn op(isin: &str, side: &str, trade_date: Date, quantity: f64, net_price: f64) -> OperationRow {
    OperationRow {
        trade_date,
        side: side.to_string(),
        ticker: None,
        isin: Some(isin.to_string()),
        name: None,
        currency: Some("EUR".to_string()),
        quantity: Some(num(quantity)),
        price: Some(num(net_price)),
        gross_amount: None,
        fees: None,
        net_price: Some(num(net_price)),
        net_amount: Some(num(-quantity * net_price)),
    }
}

// ---- the cost cross-check ----

fn pam_warnings(nav_date: Date, positions: &[PositionRow], operations: &[OperationRow]) -> Vec<String> {
    let mut out = Vec::new();
    for c in pam_checks(nav_date, positions, operations) {
        let p = &positions[c.position];
        let (mut b, mut oversold) = (Basis::default(), false);
        for t in &c.trades[..c.plan.used] {
            let held = figure(b.qty);
            if t.is_buy {
                let qty = held + figure(t.quantity);
                let total = figure(b.avg_cost) * held + figure(t.quantity) * figure(t.net_price);
                b = after_buy(num(qty), num(total / qty));
            } else {
                let s = sale(t.quantity, b.qty, num(held + 1e-9));
                oversold = oversold || s.oversold;
                b = after_sale(num(held - figure(s.taken)), b.avg_cost);
            }
        }
        let (held, cost) = (figure(b.qty), figure(b.avg_cost));
        let (pam, qty) = (figure(p.avg_cost.unwrap()), figure(p.quantity.unwrap()));
        let figures = PamFigures {
            oversold,
            unit_gap: num((held - qty).abs()),
            unit_tolerance: num(1e-6 * qty.abs().max(1.0)),
            cost_gap: num((cost - pam).abs()),
        };
        let texts = PamTexts {
            walked: format!("{held:.4}"),
            held: format!("{qty:.4}"),
            pam: format!("{pam:.6}"),
            computed: format!("{cost:.6}"),
        };
        out.extend(pam_warning(&p.isin, figures, &texts));
    }
    out
}

const NAV_DATE: (i32, u32, u32) = (2026, 1, 31);

fn nav_date() -> Date {
    d(NAV_DATE.0, NAV_DATE.1, NAV_DATE.2)
}

fn no_trades() -> Vec<String> {
    pam_warnings(
        nav_date(),
        &[position("T1_NO_TRADES", 50.0, 10.0)],
        // An operation for a *different* ISIN, so T1_NO_TRADES has none of its own.
        &[op("SOME_OTHER_ISIN", "achat", d(2026, 1, 5), 10.0, 5.0)],
    )
}

fn flat() -> Vec<String> {
    pam_warnings(
        nav_date(),
        &[position("T2_FLAT", 50.0, 10.0)],
        &[
            op("T2_FLAT", "achat", d(2026, 1, 5), 100.0, 9.0),
            op("T2_FLAT", "vente", d(2026, 1, 10), 100.0, 11.0),
        ],
    )
}

fn oversold() -> Vec<String> {
    pam_warnings(
        nav_date(),
        &[position("T3_OVERSOLD", 50.0, 10.0)],
        &[
            op("T3_OVERSOLD", "achat", d(2026, 1, 5), 50.0, 9.0),
            op("T3_OVERSOLD", "vente", d(2026, 1, 10), 100.0, 11.0),
        ],
    )
}

fn with_and_without_a_later_trade() -> (Vec<String>, Vec<String>) {
    let positions = [position("T4_AFTER_NAV", 100.0, 10.0)];
    let before = op("T4_AFTER_NAV", "achat", d(2026, 1, 5), 100.0, 10.0);
    // Dated after nav_date (2026-01-31): must not enter the walk.
    let after = op("T4_AFTER_NAV", "achat", d(2026, 2, 15), 50.0, 20.0);
    (
        pam_warnings(nav_date(), &positions, &[before.clone(), after]),
        pam_warnings(nav_date(), &positions, &[before]),
    )
}

#[test]
fn repo_zero_operations_rows_warns_incomplete_history() {
    let warnings = no_trades();
    assert!(
        warnings.iter().any(|w| w.starts_with("T1_NO_TRADES") && w.contains("incomplete trade history")),
        "got: {warnings:?}"
    );
}

#[test]
fn imports_zero_operations_rows_warns_incomplete_history() {
    assert_eq!(
        no_trades(),
        vec![
            "T1_NO_TRADES: incomplete trade history - OPERATIONS gives 0.0000 units, workbook holds 50.0000; cost basis not compared"
        ]
    );
    let warnings = no_trades();
    assert!(warnings.iter().any(|w| w.starts_with("T1_NO_TRADES") && w.contains("incomplete trade history")));
}

#[test]
fn repo_flat_round_trip_warns_incomplete_history() {
    let warnings = flat();
    assert!(
        warnings.iter().any(|w| w.starts_with("T2_FLAT") && w.contains("incomplete trade history")),
        "got: {warnings:?}"
    );
}

#[test]
fn imports_flat_round_trip_warns_incomplete_history() {
    let warnings = flat();
    assert!(
        warnings.iter().any(|w| w.starts_with("T2_FLAT") && w.contains("incomplete trade history")),
        "got: {warnings:?}"
    );
    assert_eq!(warnings.len(), 1);
}

#[test]
fn repo_oversold_warns_only_oversold() {
    let warnings = oversold();
    assert!(
        warnings.iter().any(|w| w.starts_with("T3_OVERSOLD") && w.contains("sells exceed recorded buys")),
        "got: {warnings:?}"
    );
    assert!(
        !warnings.iter().any(|w| w.starts_with("T3_OVERSOLD") && w.contains("incomplete trade history")),
        "got: {warnings:?}"
    );
}

#[test]
fn imports_oversold_warns_only_oversold() {
    let warnings = oversold();
    assert!(warnings.iter().any(|w| w.starts_with("T3_OVERSOLD") && w.contains("sells exceed recorded buys")));
    assert!(!warnings.iter().any(|w| w.starts_with("T3_OVERSOLD") && w.contains("incomplete trade history")));
    assert_eq!(warnings, vec!["T3_OVERSOLD: sells exceed recorded buys; cost basis incomplete"]);
}

#[test]
fn repo_trade_after_nav_date_excluded_from_walk() {
    let (warnings_with, warnings_without) = with_and_without_a_later_trade();
    assert!(!warnings_with.iter().any(|w| w.starts_with("T4_AFTER_NAV")), "got: {warnings_with:?}");
    assert_eq!(warnings_with, warnings_without);
}

#[test]
fn imports_trade_after_nav_date_excluded_from_walk() {
    let (warnings_with, warnings_without) = with_and_without_a_later_trade();
    assert!(!warnings_with.iter().any(|w| w.starts_with("T4_AFTER_NAV")), "got: {warnings_with:?}");
    assert_eq!(
        warnings_with, warnings_without,
        "including a trade dated after nav_date must not change the warning outcome"
    );
}

#[test]
fn later_rows_of_a_journal_change_no_check() {
    let positions = [position("A", 10.0, 1.0), position("B", 20.0, 2.0)];
    let early = [
        op("B", "achat", d(2026, 1, 9), 20.0, 2.0),
        op("A", "achat", d(2026, 1, 31), 10.0, 1.0),
    ];
    let mut all = vec![op("A", "vente", d(2026, 2, 1), 4.0, 1.5)];
    all.extend(early.clone());
    all.push(op("B", "achat", d(2027, 1, 1), 5.0, 9.0));
    let these = pam_checks(nav_date(), &positions, &early);
    let those = pam_checks(nav_date(), &positions, &all);
    assert_eq!(these.len(), 2);
    assert_eq!(those.len(), 2);
    for (x, y) in these.iter().zip(those.iter()) {
        assert_eq!((x.position, x.plan.used, x.plan.opening), (y.position, y.plan.used, y.plan.opening));
        assert_eq!((&x.plan.buys, &x.plan.sells), (&y.plan.buys, &y.plan.sells));
        for i in 0..x.plan.used {
            assert_eq!(x.trades[i].trade_date, y.trades[i].trade_date);
            assert_eq!(x.trades[i].quantity, y.trades[i].quantity);
            assert_eq!(x.trades[i].net_price, y.trades[i].net_price);
        }
    }
    assert_eq!(those[0].trades.len(), 2);
    assert_eq!(those[0].plan.used, 1);
}

#[test]
fn a_drifting_cost_is_reported() {
    let warnings = pam_warnings(
        nav_date(),
        &[position("X", 100.0, 10.5)],
        &[op("X", " ACHAT ", d(2026, 1, 5), -100.0, 10.0)],
    );
    assert_eq!(warnings, vec!["X: PAM drift - workbook 10.500000, computed 10.000000"]);
}

#[test]
fn only_holdings_with_a_cost_are_compared() {
    let mut future = position("F", 50.0, 10.0);
    future.asset_type = "Future".to_string();
    let mut unpriced = position("U", 50.0, 10.0);
    unpriced.avg_cost = None;
    let empty = position("E", 0.0, 10.0);
    assert!(pam_checks(nav_date(), &[future, unpriced, empty], &[]).is_empty());
}

#[test]
fn journal_trades_are_put_in_date_order() {
    let mut nameless = op("A", "achat", d(2026, 1, 1), 1.0, 1.0);
    nameless.isin = None;
    let ops = [
        op("A", "achat", d(2026, 1, 9), 1.0, 1.0),
        op("B", "gift", d(2026, 1, 1), 1.0, 1.0),
        nameless,
        op("C", "vente", d(2026, 1, 3), -2.0, 1.0),
        op("D", "Achat", d(2026, 1, 9), 3.0, 1.0),
    ];
    let trades = journal_trades(&ops);
    let isins: Vec<&str> = trades.iter().map(|t| t.isin.as_str()).collect();
    assert_eq!(isins, vec!["C", "A", "D"]);
    assert_eq!(figure(trades[0].quantity), 2.0);
    assert!(!trades[0].is_buy && trades[1].is_buy);
    assert_eq!(trades[0].currency, "EUR");
}

// ---- what an import replaces ----

fn shape() -> BatchShape {
    BatchShape {
        primary_date: d(2026, 8, 7),
        snapshot_dates: vec![d(2026, 8, 7), d(2026, 8, 6)],
        snapshot_sizes: vec![3, 4],
        nav_dates: vec![d(2026, 8, 6), d(2026, 8, 5)],
        dividends: Some(2),
        operations: None,
    }
}

#[test]
fn a_journal_replaces_what_is_not_newer() {
    let plan = import_plan(&shape(), Some(d(2026, 8, 7)));
    assert!(plan.has_div_ops && plan.replace_div_ops);
    assert_eq!((plan.nav_rows, plan.positions, plan.dividends, plan.operations), (2, 7, 2, 0));
    assert_eq!(plan.check_dates, vec![d(2026, 8, 5), d(2026, 8, 6), d(2026, 8, 7)]);
    let first = import_plan(&shape(), None);
    assert!(first.replace_div_ops);
}

#[test]
fn an_older_journal_replaces_nothing() {
    let plan = import_plan(&shape(), Some(d(2026, 8, 8)));
    assert!(plan.has_div_ops && !plan.replace_div_ops);
    assert_eq!((plan.dividends, plan.operations), (0, 0));
    let out = ImportOutcome::fresh(11, &plan, vec!["w".to_string()]);
    assert_eq!((out.import_id, out.duplicate, out.div_ops_replaced), (11, false, false));
    assert_eq!((out.nav_rows, out.positions, out.dividends, out.operations), (2, 7, 0, 0));
    assert_eq!(out.warnings, vec!["w"]);
}

#[test]
fn a_batch_without_a_journal_replaces_nothing() {
    let mut b = shape();
    b.dividends = None;
    let plan = import_plan(&b, None);
    assert!(!plan.has_div_ops && !plan.replace_div_ops);
}

#[test]
fn a_duplicate_ingests_nothing() {
    let out = ImportOutcome::duplicate(5, vec![]);
    assert!(out.duplicate && !out.div_ops_replaced);
    assert_eq!((out.import_id, out.nav_rows, out.positions, out.dividends, out.operations), (5, 0, 0, 0, 0));
}

#[test]
fn dividends_are_derived_anew_when_they_may_have_changed() {
    let mut b = shape();
    assert!(!derivation_due(&b, false));
    assert!(derivation_due(&b, true));
    b.dividends = None;
    assert!(derivation_due(&b, false));
    b.snapshot_dates = vec![];
    assert!(!derivation_due(&b, true)); // no journal, no snapshot
    b.operations = Some(0);
    assert!(derivation_due(&b, true));
}

#[test]
fn import_warnings_are_worded() {
    assert_eq!(derived_warning(0), None);
    assert_eq!(
        derived_warning(12).as_deref(),
        Some("12 dividend event(s) derived from receivable deltas")
    );
    assert_eq!(
        tna_warning(d(2026, 8, 7), "10.00", "20.00", "-50.00"),
        "TNA cross-check 2026-08-07: positions sum to 10.00 EUR but the NAV file says 20.00 EUR (-50.00%)"
    );
}

#[test]
fn bond_statics_are_read_from_named_bonds() {
    let mut p = position("B", 1.0, 1.0);
    assert_eq!(bond_name(&p), None);
    p.asset_type = "Obligation".to_string();
    assert_eq!(bond_name(&p), None);
    p.name = Some("OAT 2.5% 2030".to_string());
    assert_eq!(bond_name(&p).map(|n| n.as_str()), Some("OAT 2.5% 2030"));
}

// ---- contract specs ----

fn future(ticker: Option<&str>) -> PositionRow {
    let mut p = position("ISIN1", -8.0, 125.83);
    p.asset_type = "Future".to_string();
    p.ticker = ticker.map(|t| t.to_string());
    p.price = Some(num(124.46));
    p.valuation_ccy = Some(num(10960.0));
    p
}

fn contract(root: &str, convention: &str) -> FuturesContract {
    FuturesContract {
        contract_root: root.to_string(),
        label: root.to_string(),
        category: "other".to_string(),
        point_value: Some(num(1000.0)),
        currency: "EUR".to_string(),
        curve: None,
        price_convention: convention.to_string(),
        confirmed: true,
        otc: false,
    }
}

fn warned(step: &SeedStep) -> &str {
    match step {
        SeedStep::Warned { warning } => warning,
        other => panic!("{other:?}"),
    }
}

#[test]
fn unidentified_futures_are_warned_of() {
    let mut incomplete = future(Some("RXU6 Comdty"));
    incomplete.valuation_ccy = None;
    let steps = seed_futures_contracts(
        &[position("X", 1.0, 1.0), future(None), future(Some("AB")), incomplete],
        &[],
    );
    assert!(matches!(steps[0], SeedStep::Passed));
    assert_eq!(warned(&steps[1]), "ISIN1: futures row has no ticker; contract not identified");
    assert_eq!(warned(&steps[2]), "AB: cannot derive a contract root");
    assert_eq!(warned(&steps[3]), "RXU6 Comdty: incomplete row; point value not verified");
}

#[test]
fn unknown_contracts_are_seeded_and_known_ones_checked() {
    let mut named = future(Some("NQU6 Index"));
    named.name = Some("Nasdaq".to_string());
    named.currency = Some("USD".to_string());
    let known = [contract("RX", "decimal"), contract("TY", "th32")];
    let steps = seed_futures_contracts(
        &[named, future(Some("TYU6 Comdty")), future(Some("RYU6 Curncy")), future(Some("GCZ6 Comdty"))],
        &known,
    );
    match &steps[0] {
        SeedStep::New { root, label, category, currency, convention, confirmed, warning } => {
            assert_eq!((*convention, *confirmed), (PriceConvention::Decimal, false));
            assert_eq!((root.as_str(), label.as_str(), currency.as_str()), ("NQ", "Nasdaq", "USD"));
            assert_eq!(*category, Category::Equity);
            assert_eq!(warning, "NQ: new contract seeded from NQU6 Index; confirm its spec on the Data page");
        }
        other => panic!("{other:?}"),
    }
    assert!(matches!(&steps[1], SeedStep::Known { root, spec: 1 } if root == "TY"));
    assert!(matches!(&steps[2], SeedStep::New { category: Category::Fx, label, currency, .. }
        if label == "RY" && currency == "EUR"));
    assert!(matches!(&steps[3], SeedStep::New { category: Category::Other, .. }));
}

#[test]
fn a_seeded_contract_is_not_seeded_again() {
    let p = [future(Some("GCZ6 Comdty"))];
    assert!(matches!(seed_futures_contracts(&p, &[])[0], SeedStep::New { .. }));
    assert!(matches!(seed_futures_contracts(&p, &[contract("GC", "decimal")])[0], SeedStep::Known { spec: 0, .. }));
}

#[test]
fn seeding_again_adds_nothing() {
    let p = [future(Some("GCZ6 Comdty")), future(Some("RYU6 Curncy")), future(Some("GCH7 Comdty"))];
    let mut known = vec![contract("RX", "th32")];
    for step in seed_futures_contracts(&p, &known.clone()) {
        if let SeedStep::New { root, label, category, currency, convention, confirmed, .. } = step {
            if known.iter().any(|c| c.contract_root == root) {
                continue;
            }
            let mut c = contract(&root, convention.as_str());
            c.label = label;
            c.currency = currency;
            c.category = category.as_str().to_string();
            c.confirmed = confirmed;
            known.push(c);
        }
    }
    let roots: Vec<&str> = known.iter().map(|c| c.contract_root.as_str()).collect();
    assert_eq!(roots, vec!["RX", "GC", "RY"]);
    assert!(known[0].confirmed && !known[1].confirmed && !known[2].confirmed);
    assert_eq!(known[0].price_convention, "th32");
    for step in seed_futures_contracts(&p, &known) {
        assert!(matches!(step, SeedStep::Known { .. }));
    }
}

#[test]
fn conventions_of_stored_specs() {
    assert_eq!(contract("TY", "th32").convention(), PriceConvention::Th32);
    assert_eq!(contract("RX", "decimal").convention(), PriceConvention::Decimal);
    assert_eq!(contract("RX", "who knows").convention(), PriceConvention::Decimal);
    assert_eq!(other_convention(PriceConvention::Th32), PriceConvention::Decimal);
    assert_eq!(other_convention(PriceConvention::Decimal), PriceConvention::Th32);
}

#[test]
fn point_value_mismatches_are_told_apart() {
    let root = "TY".to_string();
    let check = |gap: Option<f64>, other: Option<f64>| PointCheck {
        gap: gap.map(num),
        other_gap: other.map(num),
        tolerance: num(5.0),
    };
    let say = |c: PointCheck| point_value_warning(&root, PriceConvention::Decimal, c, "1000", "812.4");
    assert_eq!(say(check(None, None)), None);
    assert_eq!(say(check(Some(5.0), None)), None);
    assert_eq!(
        say(check(Some(9.0), Some(1.0))).as_deref(),
        Some("TY: point value implies convention th32, stored decimal")
    );
    assert_eq!(
        say(check(Some(9.0), Some(8.0))).as_deref(),
        Some("TY: point value mismatch - stored 1000, implied 812.4")
    );
    assert_eq!(
        say(check(Some(f64::NAN), None)).as_deref(),
        Some("TY: point value mismatch - stored 1000, implied 812.4")
    );
}

// ---- derived dividends ----

fn receivable(day: u32, isin: &str, name: Option<&str>, currency: Option<&str>, local: Option<f64>) -> Receivable {
    Receivable {
        date: d(2026, 8, day),
        isin: isin.to_string(),
        name: name.map(|n| n.to_string()),
        currency: currency.map(|c| c.to_string()),
        local: local.map(num),
    }
}

fn derive(rows: &[Receivable], dates: &[Date], explicit: &[Date]) -> Vec<DividendEvent> {
    let candidates = dividend_candidates(rows, dates, explicit);
    let sum = |ids: &Vec<usize>| ids.iter().fold(0.0, |a, i| a + figure(rows[*i].local.unwrap()));
    let deltas: Vec<Number> = candidates.iter().map(|c| num(sum(&c.current) - sum(&c.previous))).collect();
    dividend_events(&candidates, &deltas)
}

#[test]
fn growth_and_appearance_make_dividends() {
    let dates = [d(2026, 8, 3), d(2026, 8, 4), d(2026, 8, 5)];
    let rows = [
        receivable(3, "AAA", Some("Alpha"), Some("USD"), Some(100.0)), // baseline
        receivable(4, "AAA", Some("Alpha"), Some("USD"), Some(60.0)),
        receivable(4, "AAA", None, Some("USD"), Some(90.0)), // the code appears twice
        receivable(5, "AAA", Some("Alpha"), Some("USD"), Some(150.004)), // rounding
        receivable(5, "BBB", None, None, Some(7.0)),
        receivable(5, "CCC", None, None, None), // no value
    ];
    let events = derive(&rows, &dates, &[]);
    assert_eq!(events.len(), 2);
    assert_eq!(events[0].date, d(2026, 8, 4));
    assert_eq!((events[0].issuer.as_str(), events[0].currency.as_str()), ("Alpha", "USD"));
    assert!((figure(events[0].amount) - 50.0).abs() < 1e-9);
    assert_eq!((events[1].issuer.as_str(), events[1].currency.as_str()), ("BBB", "EUR"));
    assert!((figure(events[1].amount) - 7.0).abs() < 1e-9);
}

#[test]
fn explicit_days_are_skipped() {
    let dates = [d(2026, 8, 3), d(2026, 8, 4)];
    let rows = [receivable(4, "AAA", None, None, Some(5.0))];
    assert_eq!(derive(&rows, &dates, &[]).len(), 1);
    assert!(derive(&rows, &dates, &[d(2026, 8, 4)]).is_empty());
    assert!(derive(&rows, &[d(2026, 8, 4)], &[]).is_empty()); // baseline only
    assert!(derive(&rows, &[], &[]).is_empty());
}

#[test]
fn series_come_by_instrument_and_then_by_currency() {
    let dates = [d(2026, 8, 3), d(2026, 8, 4)];
    let rows = [
        receivable(4, "B", None, Some("EUR"), Some(1.0)),
        receivable(4, "A", None, Some("USD"), Some(1.0)),
        receivable(4, "A", None, Some("EUR"), Some(1.0)),
    ];
    let order: Vec<(String, String)> =
        derive(&rows, &dates, &[]).into_iter().map(|e| (e.issuer, e.currency)).collect();
    let want: Vec<(String, String)> = [("A", "EUR"), ("A", "USD"), ("B", "EUR")]
        .iter()
        .map(|(i, c)| (i.to_string(), c.to_string()))
        .collect();
    assert_eq!(order, want);
}

#[test]
fn the_derivation_depends_on_the_rows_alone() {
    let dates = [d(2026, 8, 3), d(2026, 8, 4)];
    let rows = [
        receivable(4, "B", None, Some("EUR"), Some(1.0)),
        receivable(3, "A", Some("Alpha"), None, Some(1.0)),
        receivable(4, "A", Some("Alpha"), None, Some(4.0)),
    ];
    let said = |events: Vec<DividendEvent>| -> Vec<(String, u64)> {
        events.into_iter().map(|e| (e.issuer, e.amount.bits)).collect()
    };
    let once = said(derive(&rows, &dates, &[]));
    assert_eq!(once, said(derive(&rows, &dates, &[])));
    assert_eq!(once, vec![("Alpha".to_string(), 3.0f64.to_bits()), ("B".to_string(), 1.0f64.to_bits())]);
}

// ---- visibility ----

#[test]
fn portfolios_are_filtered_by_what_is_visible() {
    let some = GrantSet::from_grants(vec![
        Grant { domain: Domain::Nav, action: Action::View, portfolio: Some(2) },
        Grant { domain: Domain::Nav, action: Action::View, portfolio: Some(9) },
    ]);
    assert_eq!(visible(&[1, 2, 3, 9], &some.visible_portfolios()), vec![1, 3]);
    assert_eq!(visible(&[1, 2], &GrantSet::all_access().visible_portfolios()), vec![0, 1]);
}
