use borobudur::concentration::{
    concentration_checks, default_issuer_group, effective_issuer_group, group_members, issuer_group_of,
    issuer_group_override_is_inert, over_five, rank_groups, severity, status_for, Check, CheckStatus,
    ConPosition, GroupSum, Limit, Scope, FUND_ASSET_TYPE,
};
use borobudur::number::Number;

fn num(x: f64) -> Number {
    Number { bits: x.to_bits() }
}

fn figure(n: Number) -> f64 {
    f64::from_bits(n.bits)
}

fn pos(t: &str, g: &str, w: f64) -> ConPosition {
    ConPosition { asset_type: t.into(), group: g.into(), weight: num(w) }
}

fn group_sums(positions: &[ConPosition], scope: Scope) -> Vec<GroupSum> {
    let sums: Vec<GroupSum> = group_members(positions, scope)
        .iter()
        .map(|g| GroupSum {
            group: g.name.clone(),
            weight: num(g.members.iter().fold(0.0, |a, i| a + figure(positions[*i].weight))),
        })
        .collect();
    rank_groups(&sums)
}

fn concentration(positions: &[ConPosition]) -> Vec<Check> {
    let securities = group_sums(positions, Scope::Securities);
    let over: f64 = over_five(&securities).iter().map(|i| figure(securities[*i].weight)).sum();
    concentration_checks(
        &securities,
        num(over),
        &group_sums(positions, Scope::Funds),
        &group_sums(positions, Scope::Deposits),
    )
}

#[test]
fn default_groups() {
    assert_eq!(default_issuer_group("Action", "  Kering  SA "), "KERING SA");
    assert_eq!(default_issuer_group("Cash Acc", "Depositary Bk- CBLU"), "CBLU");
    assert_eq!(default_issuer_group("Margin Acc", "Managed acc - CABK"), "CABK");
    assert_eq!(default_issuer_group("Cash Acc", "NO SEPARATOR"), "NO SEPARATOR");
}

#[test]
fn five_checks_toy_portfolio() {
    let positions = vec![
        pos("Action", "ALPHA", 0.09), // watch on issuer_10 (>= 0.08)
        pos("Action", "BETA", 0.11),  // breach on issuer_10
        pos("Action", "GAMMA", 0.04),
        pos("Dividendes", "GAMMA", 0.02), // folds into GAMMA -> 0.06
        pos("Future", "IGNORED", 0.50),   // excluded from all checks
        pos("Fonds", "F1", 0.19),         // watch on fund_20
        pos("Fonds", "F2", 0.05),         // ok
        pos("Cash Acc", "CBLU", 0.05),
        pos("Margin Acc", "CBLU", -0.01),  // nets to 0.04
        pos("Cash Acc", "NEGBANK", -0.02), // floored to 0, dropped from rows
    ];
    let checks = concentration(&positions);
    assert_eq!(checks.len(), 5);

    let issuer = &checks[0];
    assert_eq!(issuer.check, "issuer_10");
    assert_eq!(issuer.status, CheckStatus::Breach);
    assert_eq!(issuer.rows[0].group, "BETA"); // sorted desc
    assert_eq!(issuer.rows[0].status, CheckStatus::Breach);
    assert_eq!(issuer.rows[1].group, "ALPHA");
    assert_eq!(issuer.rows[1].status, CheckStatus::Watch);
    let gamma = issuer.rows.iter().find(|r| r.group == "GAMMA").unwrap();
    assert!((figure(gamma.weight) - 0.06).abs() < 1e-12);
    assert!(!issuer.rows.iter().any(|r| r.group == "IGNORED"));

    let forty = &checks[1];
    assert!((figure(forty.rows[0].weight) - 0.26).abs() < 1e-12); // 0.09 + 0.11 + 0.06
    assert_eq!(forty.status, CheckStatus::Okay);

    let group = &checks[2];
    assert_eq!(group.check, "group_20");
    assert_eq!(group.status, CheckStatus::Okay); // 0.11 < 0.16 watch threshold

    let fund = &checks[3];
    assert_eq!(fund.rows[0].group, "F1");
    assert_eq!(fund.rows[0].status, CheckStatus::Watch);
    assert_eq!(fund.rows.len(), 2);

    let dep = &checks[4];
    assert_eq!(dep.rows.len(), 1); // NEGBANK floored to 0 and dropped
    assert_eq!(dep.rows[0].group, "CBLU");
    assert!((figure(dep.rows[0].weight) - 0.04).abs() < 1e-12);
    assert_eq!(dep.status, CheckStatus::Okay);
}

#[test]
fn an_issuer_group_override_is_applied_everywhere_except_on_a_fund() {
    assert_eq!(effective_issuer_group("Action", "Acme Sa", Some("ACME GROUP")), "ACME GROUP");
    assert_eq!(effective_issuer_group("Action", "Acme  Sa", None), "ACME SA");
    // A per-target-fund limit is per target fund: the override is inert,
    // and the caller is told so rather than shown its own value back.
    assert_eq!(
        effective_issuer_group("Fonds", "Target Fund X A", Some("TARGET FUND X")),
        "TARGET FUND X A"
    );
    assert!(issuer_group_override_is_inert("Fonds"));
    assert!(!issuer_group_override_is_inert("Action"));
    // The cash-account rule still applies underneath.
    assert_eq!(effective_issuer_group("Cash Acc", "Depositary Bk- CBLU", None), "CBLU");
}

#[test]
fn empty_input_yields_five_ok_checks() {
    let checks = concentration(&[]);
    assert_eq!(checks.len(), 5);
    assert!(checks.iter().all(|c| c.status == CheckStatus::Okay));
}

#[test]
fn names_outside_ascii_are_capitalized_too() {
    assert_eq!(default_issuer_group("Action", "soci\u{e9}t\u{e9}\u{a0}x"), "SOCI\u{c9}T\u{c9} X");
    assert_eq!(default_issuer_group("Action", "stra\u{df}e"), "STRASSE");
    assert_eq!(default_issuer_group("Action", ""), "");
}

#[test]
fn the_bank_code_follows_the_last_dash() {
    assert_eq!(issuer_group_of("Cash Acc", "A- B- C".to_string()), "C");
    assert_eq!(issuer_group_of("Cash Acc", "A- ".to_string()), "A- ");
    assert_eq!(issuer_group_of("Cash Acc", "A-B".to_string()), "A-B");
    assert_eq!(issuer_group_of("Action", "A- B".to_string()), "A- B");
    assert_eq!(issuer_group_of("Margin Acc", "- X".to_string()), "X");
    assert_eq!(issuer_group_of("Cash Acc", "".to_string()), "");
}

#[test]
fn verdicts_turn_at_the_limits() {
    assert_eq!(status_for(num(0.10), Limit::TenPercent), CheckStatus::Watch);
    assert_eq!(status_for(num(0.1000001), Limit::TenPercent), CheckStatus::Breach);
    assert_eq!(status_for(num(0.8 * 0.10), Limit::TenPercent), CheckStatus::Watch);
    assert_eq!(status_for(num(0.0799), Limit::TenPercent), CheckStatus::Okay);
    assert_eq!(status_for(num(0.8 * 0.20), Limit::TwentyPercent), CheckStatus::Watch);
    assert_eq!(status_for(num(0.41), Limit::FortyPercent), CheckStatus::Breach);
    assert_eq!(status_for(num(f64::NAN), Limit::FortyPercent), CheckStatus::Okay);
    assert_eq!(figure(Limit::TenPercent.limit()), 0.10);
    assert_eq!(figure(Limit::TwentyPercent.limit()), 0.20);
    assert_eq!(figure(Limit::FortyPercent.limit()), 0.40);
    assert_eq!(figure(Limit::TenPercent.watch()), 0.8 * 0.10);
    assert_eq!(figure(Limit::TwentyPercent.watch()), 0.8 * 0.20);
    assert_eq!(figure(Limit::FortyPercent.watch()), 0.8 * 0.40);
    assert!(severity(CheckStatus::Okay) < severity(CheckStatus::Watch));
    assert!(severity(CheckStatus::Watch) < severity(CheckStatus::Breach));
}

#[test]
fn checks_are_labelled() {
    let checks = concentration(&[]);
    let labels: Vec<(&str, &str, f64)> =
        checks.iter().map(|c| (c.check.as_str(), c.scope_label.as_str(), figure(c.limit))).collect();
    assert_eq!(
        labels,
        vec![
            ("issuer_10", "Issuer <= 10% NAV (equities + bonds)", 0.10),
            ("forty", "Sum of issuers > 5% <= 40% NAV", 0.40),
            ("group_20", "Connected group <= 20% NAV", 0.20),
            ("fund_20", "Target fund <= 20% NAV", 0.20),
            ("deposit_20", "Deposits per bank <= 20% NAV", 0.20),
        ]
    );
    assert_eq!(checks[1].rows[0].group, "Sum of issuer exposures > 5%");
    assert_eq!(FUND_ASSET_TYPE, "Fonds");
}

#[test]
fn equal_groups_keep_the_order_of_their_names() {
    let positions = vec![pos("Action", "B", 0.03), pos("Obligation", "A", 0.03), pos("Action", "C", 0.07)];
    let ranked = group_sums(&positions, Scope::Securities);
    let names: Vec<&str> = ranked.iter().map(|g| g.group.as_str()).collect();
    assert_eq!(names, vec!["C", "A", "B"]);
    assert_eq!(over_five(&ranked), vec![0]);
}

#[test]
fn each_position_counts_in_one_group_of_one_scope() {
    let positions = vec![
        pos("Action", "X", 0.1),
        pos("Fonds", "X", 0.1),
        pos("Cash Acc", "X", 0.1),
        pos("Action", "Y", 0.1),
        pos("Action", "X", 0.1),
    ];
    let mut seen = vec![0; positions.len()];
    for scope in [Scope::Securities, Scope::Funds, Scope::Deposits] {
        for g in group_members(&positions, scope) {
            for m in g.members {
                seen[m] += 1;
            }
        }
    }
    assert_eq!(seen, vec![1; 5]);
}

#[test]
fn spacing_and_case_do_not_change_the_group() {
    assert_eq!(default_issuer_group("Action", "\tkering \n sa"), "KERING SA");
    assert_eq!(default_issuer_group("Action", "KERING SA"), "KERING SA");
    assert_eq!(default_issuer_group("Cash Acc", " depositary  bk-  cblu "), "CBLU");
}

#[test]
fn the_group_of_a_group_is_itself() {
    for (asset_type, name) in [
        ("Action", "  Kering  SA "),
        ("Cash Acc", "a- b- Depositary Bk- cb lu"),
        ("Margin Acc", "Ends on- "),
        ("Fonds", "x- y"),
        ("Cash Acc", " "),
    ] {
        let g = default_issuer_group(asset_type, name);
        assert_eq!(default_issuer_group(asset_type, &g), g);
    }
    assert_eq!(default_issuer_group("Cash Acc", "a- b- Depositary Bk- cb lu"), "CB LU");
    assert_eq!(default_issuer_group("Margin Acc", "Ends on- "), "ENDS ON-");
}

#[test]
fn letters_beyond_ascii_are_put_into_capitals_too() {
    assert_eq!(default_issuer_group("Action", "soci\u{e9}t\u{e9}"), "SOCI\u{c9}T\u{c9}");
}
