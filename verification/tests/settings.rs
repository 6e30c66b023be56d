use borobudur::number::Number;
use borobudur::settings::{
    days_from_legacy_buckets, default_adv_max_age_days, default_flow_lookback_days,
    default_liquidity_default_days, default_liquidity_horizon_days, default_settlement_deadline_days, find_row, get_settings,
    put_settings, AssetDays, LegacyEntry, LiquidityDays, SettingRow, SettingValue, Written,
};

fn num(x: f64) -> Number {
    Number { bits: x.to_bits() }
}

fn figure(n: Number) -> f64 {
    f64::from_bits(n.bits)
}

fn row(key: &str, figure: Option<f64>, whole: Option<u64>) -> SettingRow {
    SettingRow { key: key.to_string(), value: SettingValue { figure: figure.map(num), whole } }
}

fn table(days: &LiquidityDays) -> Vec<(String, u32)> {
    match days {
        LiquidityDays::Table(t) => t.iter().map(|e: &AssetDays| (e.asset_type.clone(), e.days)).collect(),
        LiquidityDays::Stored(_) => panic!("stored"),
    }
}

fn legacy(asset_type: &str, bucket: Option<&str>) -> LegacyEntry {
    LegacyEntry { asset_type: asset_type.to_string(), bucket: bucket.map(|b| b.to_string()) }
}

#[test]
fn missing_settings_have_defaults() {
    let s = get_settings(&[], &[]);
    assert_eq!(figure(s.risk_free_rate), 0.02);
    assert_eq!(figure(s.var_confidence), 0.99);
    assert_eq!(s.var_horizon_days, 20);
    assert_eq!(s.var_window_days, 252);
    assert_eq!(figure(s.var_limit), 0.20);
    assert_eq!(s.short_dd_max_days, 50);
    assert_eq!(figure(s.redemption_shock), 0.30);
    assert_eq!(figure(s.participation_rate), 0.25);
    assert_eq!(figure(s.adv_stress_factor), 0.30);
    assert_eq!(s.liquidity_horizon_days, 60);
    assert_eq!(s.settlement_deadline_days, 3);
    assert_eq!(s.adv_max_age_days, 7);
    assert_eq!(s.flow_lookback_days, 250);
    assert_eq!(table(&s.liquidity_default_days).len(), 7);
    assert_eq!(
        (
            default_liquidity_horizon_days(),
            default_settlement_deadline_days(),
            default_adv_max_age_days(),
            default_flow_lookback_days()
        ),
        (60, 3, 7, 250)
    );
}

#[test]
fn the_default_days_of_each_asset_type() {
    let days: Vec<(String, u32)> =
        default_liquidity_default_days().into_iter().map(|e| (e.asset_type, e.days)).collect();
    let want: Vec<(String, u32)> = [
        ("Action", 1),
        ("Fonds", 7),
        ("Obligation", 30),
        ("Future", 1),
        ("Dividendes", 1),
        ("Frais provisionn\u{e9}s", 1),
        ("Provisions ordres", 1),
    ]
    .iter()
    .map(|(a, n)| (a.to_string(), *n))
    .collect();
    assert_eq!(days, want);
}

#[test]
fn stored_settings_count_before_defaults() {
    let rows = [
        row("risk_free_rate", Some(0.035), None),
        row("var_window_days", Some(500.0), Some(500)),
        row("var_window_days", Some(1.0), Some(1)), // the first row counts
        row("adv_max_age_days", None, None),        // not a number
        row("short_dd_max_days", Some(4294967297.0), Some(4294967297)),
    ];
    let s = get_settings(&rows, &[]);
    assert_eq!(figure(s.risk_free_rate), 0.035);
    assert_eq!(s.var_window_days, 500);
    assert_eq!(s.adv_max_age_days, 7);
    assert_eq!(s.short_dd_max_days, 1);
}

#[test]
fn older_buckets_are_mapped_forward() {
    let entries = [
        legacy("Action", Some("d1")),
        legacy("Fonds", Some("d2_7")),
        legacy("Obligation", Some("d8_30")),
        legacy("Other", Some("d30p")),
        legacy("Cash Acc", Some("d1")),
        legacy("Margin Acc", Some("d1")),
        legacy("Odd", Some("never")),
        legacy("Blank", None),
    ];
    let want: Vec<(String, u32)> = [("Action", 1), ("Fonds", 7), ("Obligation", 30), ("Other", 60)]
        .iter()
        .map(|(a, n)| (a.to_string(), *n))
        .collect();
    let s = get_settings(&[row("liquidity_defaults", None, None)], &entries);
    assert_eq!(table(&s.liquidity_default_days), want);
    assert_eq!(days_from_legacy_buckets(&entries).len(), 4);
}

#[test]
fn a_stored_table_of_days_is_taken_over() {
    let rows = [row("liquidity_defaults", None, None), row("liquidity_default_days", None, None)];
    let s = get_settings(&rows, &[legacy("Action", Some("d1"))]);
    assert!(matches!(s.liquidity_default_days, LiquidityDays::Stored(1)));
}

#[test]
fn stored_settings_are_read_back() {
    let rows = [
        row("risk_free_rate", Some(0.01), None),
        row("var_limit", Some(0.15), None),
        row("flow_lookback_days", None, Some(99)),
    ];
    let s = get_settings(&rows, &[]);
    let pairs = put_settings(&s);
    assert_eq!(pairs.len(), 14);
    let again: Vec<SettingRow> = pairs
        .iter()
        .map(|p| SettingRow {
            key: p.key.to_string(),
            value: match p.value {
                Written::Figure(n) => SettingValue { figure: Some(n), whole: None },
                Written::Count(c) => SettingValue { figure: Some(num(c as f64)), whole: Some(c as u64) },
                Written::LiquidityDays => SettingValue { figure: None, whole: None },
            },
        })
        .collect();
    let back = get_settings(&again, &[]);
    assert_eq!(back.risk_free_rate, s.risk_free_rate);
    assert_eq!(back.var_limit, s.var_limit);
    assert_eq!(back.var_confidence, s.var_confidence);
    assert_eq!(back.flow_lookback_days, 99);
    assert_eq!(back.var_window_days, s.var_window_days);
    assert!(matches!(back.liquidity_default_days, LiquidityDays::Stored(6)));
    assert_eq!(pairs[6].key, "liquidity_default_days");
}

#[test]
fn the_first_row_under_a_key_is_found() {
    let rows = [row("a", None, None), row("b", None, None), row("b", Some(1.0), None)];
    assert_eq!(find_row(&rows, "b"), Some(1));
    assert_eq!(find_row(&rows, "c"), None);
}

#[test]
fn stored_settings_are_read_back_in_any_order_beside_other_rows() {
    let s = get_settings(&[row("var_limit", Some(0.15), None), row("var_window_days", None, Some(123))], &[]);
    let mut again: Vec<SettingRow> = put_settings(&s)
        .iter()
        .map(|p| SettingRow {
            key: p.key.to_string(),
            value: match p.value {
                Written::Figure(n) => SettingValue { figure: Some(n), whole: None },
                Written::Count(c) => SettingValue { figure: Some(num(c as f64)), whole: Some(c as u64) },
                Written::LiquidityDays => SettingValue { figure: None, whole: None },
            },
        })
        .collect();
    again.reverse();
    again.insert(0, row("liquidity_defaults", None, None));
    let back = get_settings(&again, &[legacy("Action", Some("1w"))]);
    assert_eq!(figure(back.var_limit), 0.15);
    assert_eq!(back.var_window_days, 123);
    assert_eq!(back.redemption_shock, s.redemption_shock);
    assert_eq!(back.short_dd_max_days, s.short_dd_max_days);
    assert!(matches!(back.liquidity_default_days, LiquidityDays::Stored(8)));
    assert_eq!(again[8].key, "liquidity_default_days");
}
