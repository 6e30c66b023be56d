//! Per-portfolio settings: which stored value counts, and what stands in for
//! one that is missing.

use crate::number::Number;
use crate::text::same_text;
use vstd::prelude::*;

verus! {

/// What is read of a stored value: the figure it holds, where it holds one, and
/// the whole number, where it holds one that is not negative.
#[derive(Debug, Clone, Copy, PartialEq, Eq, Structural)]
pub struct SettingValue {
    pub figure: Option<Number>,
    pub whole: Option<u64>,
}

/// A stored setting.
#[derive(Debug, Clone)]
pub struct SettingRow {
    pub key: String,
    pub value: SettingValue,
}

/// An entry of the older table of liquidity defaults: an asset type and the
/// name of its bucket, where it is a name at all.
#[derive(Debug, Clone)]
pub struct LegacyEntry {
    pub asset_type: String,
    pub bucket: Option<String>,
}

/// The days to liquidate an asset type.
#[derive(Debug, Clone)]
pub struct AssetDays {
    pub asset_type: String,
    pub days: u32,
}

/// Where the days to liquidate come from.
#[derive(Debug, Clone)]
pub enum LiquidityDays {
    /// The stored table, taken over as it stands: which row it is.
    Stored(usize),
    /// A table of our own.
    Table(Vec<AssetDays>),
}

/// The settings of a portfolio.
#[derive(Debug, Clone)]
pub struct AppSettings {
    pub risk_free_rate: Number,
    pub var_confidence: Number,
    pub var_horizon_days: u32,
    pub var_window_days: u32,
    pub var_limit: Number,
    pub short_dd_max_days: u32,
    pub liquidity_default_days: LiquidityDays,
    pub redemption_shock: Number,
    pub participation_rate: Number,
    pub adv_stress_factor: Number,
    pub liquidity_horizon_days: u32,
    pub settlement_deadline_days: u32,
    pub adv_max_age_days: u32,
    pub flow_lookback_days: u32,
}

/// The bits of the figures that stand in for missing settings: the ones nearest
/// to 0.02, 0.99, 0.2, 0.3, 0.25 and 0.3.
pub const DEFAULT_RISK_FREE_RATE: u64 = 0x3F94_7AE1_47AE_147B;

pub const DEFAULT_VAR_CONFIDENCE: u64 = 0x3FEF_AE14_7AE1_47AE;

pub const DEFAULT_VAR_LIMIT: u64 = 0x3FC9_9999_9999_999A;

pub const DEFAULT_REDEMPTION_SHOCK: u64 = 0x3FD3_3333_3333_3333;

pub const DEFAULT_PARTICIPATION_RATE: u64 = 0x3FD0_0000_0000_0000;

pub const DEFAULT_ADV_STRESS_FACTOR: u64 = 0x3FD3_3333_3333_3333;

/// The liquidity horizon where none is set.
pub fn default_liquidity_horizon_days() -> (r: u32)
    ensures
        r == 60,
{
    60
}

/// The settlement deadline where none is set.
pub fn default_settlement_deadline_days() -> (r: u32)
    ensures
        r == 3,
{
    3
}

/// How old an average daily volume may be where nothing is set.
pub fn default_adv_max_age_days() -> (r: u32)
    ensures
        r == 7,
{
    7
}

/// How far back flows are looked at where nothing is set.
pub fn default_flow_lookback_days() -> (r: u32)
    ensures
        r == 250,
{
    250
}

/// A table as texts and numbers.
pub open spec fn entries(table: Seq<AssetDays>) -> Seq<(Seq<char>, int)> {
    table.map_values(|e: AssetDays| (e.asset_type@, e.days as int))
}

/// The days to liquidate where no table is stored.
pub open spec fn default_entries() -> Seq<(Seq<char>, int)> {
    seq![
        ("Action"@, 1int),
        ("Fonds"@, 7int),
        ("Obligation"@, 30int),
        ("Future"@, 1int),
        ("Dividendes"@, 1int),
        ("Frais provisionn\u{e9}s"@, 1int),
        ("Provisions ordres"@, 1int),
    ]
}

fn entry(asset_type: &str, days: u32) -> (r: AssetDays)
    ensures
        r.asset_type@ == asset_type@,
        r.days == days,
{
    AssetDays { asset_type: asset_type.to_string(), days }
}

/// The days to liquidate where no table is stored.
pub fn default_liquidity_default_days() -> (r: Vec<AssetDays>)
    ensures
        entries(r@) == default_entries(),
{
    let mut r: Vec<AssetDays> = Vec::new();
    r.push(entry("Action", 1));
    r.push(entry("Fonds", 7));
    r.push(entry("Obligation", 30));
    r.push(entry("Future", 1));
    r.push(entry("Dividendes", 1));
    r.push(entry("Frais provisionn\u{e9}s", 1));
    r.push(entry("Provisions ordres", 1));
    assert(entries(r@) =~= default_entries());
    r
}

/// The upper edge of a bucket, in days.
pub open spec fn bucket_edge(bucket: Seq<char>) -> Option<int> {
    if bucket == "d1"@ {
        Some(1)
    } else if bucket == "d2_7"@ {
        Some(7)
    } else if bucket == "d8_30"@ {
        Some(30)
    } else if bucket == "d30p"@ {
        Some(60)
    } else {
        None
    }
}

/// The days that an older entry stands for, if any. Cash and margin accounts
/// are liquid by rule, not by table entry, so they are dropped.
pub open spec fn carried_over(e: LegacyEntry) -> Option<int> {
    match e.bucket {
        None => None,
        Some(b) => if e.asset_type@ == "Cash Acc"@ || e.asset_type@ == "Margin Acc"@ {
            None
        } else {
            bucket_edge(b@)
        },
    }
}

/// The table that an older one stands for, in its order.
pub open spec fn all_carried_over(legacy: Seq<LegacyEntry>) -> Seq<(Seq<char>, int)>
    decreases legacy.len(),
{
    if legacy.len() == 0 {
        Seq::empty()
    } else {
        let earlier = all_carried_over(legacy.drop_last());
        match carried_over(legacy.last()) {
            None => earlier,
            Some(days) => earlier.push((legacy.last().asset_type@, days)),
        }
    }
}

/// An older database stores a map of asset type to bucket name. Map it forward
/// at each band's upper edge rather than silently reverting a portfolio to
/// defaults.
pub fn days_from_legacy_buckets(legacy: &[LegacyEntry]) -> (r: Vec<AssetDays>)
    ensures
        entries(r@) == all_carried_over(legacy@),
{
    let mut out: Vec<AssetDays> = Vec::new();
    assert(entries(out@) =~= Seq::empty());
    for i in 0..legacy.len()
        invariant
            entries(out@) == all_carried_over(legacy@.take(i as int)),
    {
        let e = &legacy[i];
        let ghost before = out@;
        proof {
            assert(legacy@.take(i + 1).drop_last() =~= legacy@.take(i as int));
        }
        let edge: Option<u32> = match &e.bucket {
            None => None,
            Some(b) => edge_of(b.as_str()),
        };
        let cash: bool = same_text(e.asset_type.as_str(), "Cash Acc") || same_text(
            e.asset_type.as_str(),
            "Margin Acc",
        );
        if let Some(days) = edge {
            if !cash {
                out.push(AssetDays { asset_type: e.asset_type.clone(), days });
                proof {
                    assert(entries(out@) =~= entries(before).push((e.asset_type@, days as int)));
                }
            }
        }
    }
    assert(legacy@.take(legacy@.len() as int) =~= legacy@);
    out
}

/// The upper edge of a bucket, in days.
fn edge_of(bucket: &str) -> (r: Option<u32>)
    ensures
        match r {
            None => bucket_edge(bucket@) is None,
            Some(days) => bucket_edge(bucket@) == Some(days as int),
        },
{
    if same_text(bucket, "d1") {
        Some(1)
    } else if same_text(bucket, "d2_7") {
        Some(7)
    } else if same_text(bucket, "d8_30") {
        Some(30)
    } else if same_text(bucket, "d30p") {
        Some(60)
    } else {
        None
    }
}

/// The first row under a key.
pub open spec fn row_of(rows: Seq<SettingRow>, key: Seq<char>) -> Option<int>
    decreases rows.len(),
{
    if rows.len() == 0 {
        None
    } else {
        match row_of(rows.drop_last(), key) {
            Some(i) => Some(i),
            None => if rows.last().key@ == key {
                Some(rows.len() - 1)
            } else {
                None
            },
        }
    }
}

/// The figure under a key, or the one that stands in for it.
pub open spec fn figure_at(rows: Seq<SettingRow>, key: Seq<char>, default: u64) -> Number {
    match row_of(rows, key) {
        Some(i) => match rows[i].value.figure {
            Some(n) => n,
            None => Number { bits: default },
        },
        None => Number { bits: default },
    }
}

/// The count under a key, or the one that stands in for it. Of a number that
/// is too large the low half counts.
pub open spec fn count_at(rows: Seq<SettingRow>, key: Seq<char>, default: int) -> int {
    match row_of(rows, key) {
        Some(i) => match rows[i].value.whole {
            Some(n) => n as int % 0x1_0000_0000,
            None => default,
        },
        None => default,
    }
}

/// The first row under a key.
pub fn find_row(rows: &[SettingRow], key: &str) -> (r: Option<usize>)
    ensures
        match r {
            None => row_of(rows@, key@) is None,
            Some(i) => i < rows@.len() && row_of(rows@, key@) == Some(i as int),
        },
{
    for i in 0..rows.len()
        invariant
            row_of(rows@.take(i as int), key@) is None,
    {
        proof {
            assert(rows@.take(i + 1).drop_last() =~= rows@.take(i as int));
        }
        if same_text(rows[i].key.as_str(), key) {
            proof {
                lemma_row_stays(rows@, key@, i + 1);
            }
            return Some(i);
        }
    }
    assert(rows@.take(rows@.len() as int) =~= rows@);
    None
}

/// A row found among the first rows is found among all.
proof fn lemma_row_stays(rows: Seq<SettingRow>, key: Seq<char>, n: int)
    requires
        0 <= n <= rows.len(),
        row_of(rows.take(n), key) is Some,
    ensures
        row_of(rows, key) == row_of(rows.take(n), key),
    decreases rows.len() - n,
{
    if n < rows.len() {
        assert(rows.take(n + 1).drop_last() =~= rows.take(n));
        lemma_row_stays(rows, key, n + 1);
    } else {
        assert(rows.take(n) =~= rows);
    }
}

fn read_figure(rows: &[SettingRow], key: &str, default: u64) -> (r: Number)
    ensures
        r == figure_at(rows@, key@, default),
{
    let fallback = Number { bits: default };
    match find_row(rows, key) {
        None => fallback,
        Some(i) => match rows[i].value.figure {
            Some(n) => n,
            None => fallback,
        },
    }
}

fn read_count(rows: &[SettingRow], key: &str, default: u32) -> (r: u32)
    ensures
        r == count_at(rows@, key@, default as int),
{
    match find_row(rows, key) {
        None => default,
        Some(i) => match rows[i].value.whole {
            Some(n) => {
                assert(n as u32 == n % 0x1_0000_0000u64) by (bit_vector);
                #[verifier::truncate]
                (n as u32)
            },
            None => default,
        },
    }
}

/// Where the days to liquidate come from: the stored table, else the older one
/// mapped forward, else the default.
pub open spec fn liquidity_from(
    days: LiquidityDays,
    rows: Seq<SettingRow>,
    legacy: Seq<LegacyEntry>,
) -> bool {
    match row_of(rows, "liquidity_default_days"@) {
        Some(i) => days matches LiquidityDays::Stored(row) && row == i,
        None => days matches LiquidityDays::Table(table) && entries(table@) == (if row_of(
            rows,
            "liquidity_defaults"@,
        ) is Some {
            all_carried_over(legacy)
        } else {
            default_entries()
        }),
    }
}

/// Whether settings are what some rows say.
pub open spec fn reads(s: AppSettings, rows: Seq<SettingRow>, legacy: Seq<LegacyEntry>) -> bool {
    &&& s.risk_free_rate == figure_at(rows, "risk_free_rate"@, DEFAULT_RISK_FREE_RATE)
    &&& s.var_confidence == figure_at(rows, "var_confidence"@, DEFAULT_VAR_CONFIDENCE)
    &&& s.var_horizon_days == count_at(rows, "var_horizon_days"@, 20)
    &&& s.var_window_days == count_at(rows, "var_window_days"@, 252)
    &&& s.var_limit == figure_at(rows, "var_limit"@, DEFAULT_VAR_LIMIT)
    &&& s.short_dd_max_days == count_at(rows, "short_dd_max_days"@, 50)
    &&& liquidity_from(s.liquidity_default_days, rows, legacy)
    &&& s.redemption_shock == figure_at(rows, "redemption_shock"@, DEFAULT_REDEMPTION_SHOCK)
    &&& s.participation_rate == figure_at(rows, "participation_rate"@, DEFAULT_PARTICIPATION_RATE)
    &&& s.adv_stress_factor == figure_at(rows, "adv_stress_factor"@, DEFAULT_ADV_STRESS_FACTOR)
    &&& s.liquidity_horizon_days == count_at(rows, "liquidity_horizon_days"@, 60)
    &&& s.settlement_deadline_days == count_at(rows, "settlement_deadline_days"@, 3)
    &&& s.adv_max_age_days == count_at(rows, "adv_max_age_days"@, 7)
    &&& s.flow_lookback_days == count_at(rows, "flow_lookback_days"@, 250)
}

/// Reads the settings of a portfolio: the first stored value under each key,
/// or what stands in for it. `legacy` holds the entries of the older table of
/// liquidity defaults, where one is stored.
pub fn get_settings(rows: &[SettingRow], legacy: &[LegacyEntry]) -> (r: AppSettings)
    ensures
        reads(r, rows@, legacy@),
{
    let liquidity_default_days = match find_row(rows, "liquidity_default_days") {
        Some(i) => LiquidityDays::Stored(i),
        None => LiquidityDays::Table(
            if find_row(rows, "liquidity_defaults").is_some() {
                days_from_legacy_buckets(legacy)
            } else {
                default_liquidity_default_days()
            },
        ),
    };
    AppSettings {
        risk_free_rate: read_figure(rows, "risk_free_rate", DEFAULT_RISK_FREE_RATE),
        var_confidence: read_figure(rows, "var_confidence", DEFAULT_VAR_CONFIDENCE),
        var_horizon_days: read_count(rows, "var_horizon_days", 20),
        var_window_days: read_count(rows, "var_window_days", 252),
        var_limit: read_figure(rows, "var_limit", DEFAULT_VAR_LIMIT),
        short_dd_max_days: read_count(rows, "short_dd_max_days", 50),
        liquidity_default_days,
        redemption_shock: read_figure(rows, "redemption_shock", DEFAULT_REDEMPTION_SHOCK),
        participation_rate: read_figure(rows, "participation_rate", DEFAULT_PARTICIPATION_RATE),
        adv_stress_factor: read_figure(rows, "adv_stress_factor", DEFAULT_ADV_STRESS_FACTOR),
        liquidity_horizon_days: read_count(rows, "liquidity_horizon_days", default_liquidity_horizon_days()),
        settlement_deadline_days: read_count(rows, "settlement_deadline_days", default_settlement_deadline_days()),
        adv_max_age_days: read_count(rows, "adv_max_age_days", default_adv_max_age_days()),
        flow_lookback_days: read_count(rows, "flow_lookback_days", default_flow_lookback_days()),
    }
}

/// What is stored under a key.
#[derive(Debug, Clone, Copy, PartialEq, Eq, Structural)]
pub enum Written {
    Figure(Number),
    Count(u32),
    /// The table of days to liquidate, as it stands.
    LiquidityDays,
}

/// A value and the key it is stored under.
#[derive(Debug, Clone, Copy)]
pub struct Pair {
    pub key: &'static str,
    pub value: Written,
}

/// The keys that settings are stored under, in order.
pub open spec fn keys() -> Seq<Seq<char>> {
    seq![
        "risk_free_rate"@,
        "var_confidence"@,
        "var_horizon_days"@,
        "var_window_days"@,
        "var_limit"@,
        "short_dd_max_days"@,
        "liquidity_default_days"@,
        "redemption_shock"@,
        "participation_rate"@,
        "adv_stress_factor"@,
        "liquidity_horizon_days"@,
        "settlement_deadline_days"@,
        "adv_max_age_days"@,
        "flow_lookback_days"@,
    ]
}

/// What settings are stored as, in the order of the keys.
pub open spec fn values(s: AppSettings) -> Seq<Written> {
    seq![
        Written::Figure(s.risk_free_rate),
        Written::Figure(s.var_confidence),
        Written::Count(s.var_horizon_days),
        Written::Count(s.var_window_days),
        Written::Figure(s.var_limit),
        Written::Count(s.short_dd_max_days),
        Written::LiquidityDays,
        Written::Figure(s.redemption_shock),
        Written::Figure(s.participation_rate),
        Written::Figure(s.adv_stress_factor),
        Written::Count(s.liquidity_horizon_days),
        Written::Count(s.settlement_deadline_days),
        Written::Count(s.adv_max_age_days),
        Written::Count(s.flow_lookback_days),
    ]
}

fn pair(key: &'static str, value: Written) -> (r: Pair)
    ensures
        r.key@ == key@,
        r.value == value,
{
    Pair { key, value }
}

/// What the settings of a portfolio are stored as.
pub fn put_settings(s: &AppSettings) -> (r: Vec<Pair>)
    ensures
        r@.map_values(|p: Pair| p.key@) == keys(),
        r@.map_values(|p: Pair| p.value) == values(*s),
{
    let mut r: Vec<Pair> = Vec::new();
    r.push(pair("risk_free_rate", Written::Figure(s.risk_free_rate)));
    r.push(pair("var_confidence", Written::Figure(s.var_confidence)));
    r.push(pair("var_horizon_days", Written::Count(s.var_horizon_days)));
    r.push(pair("var_window_days", Written::Count(s.var_window_days)));
    r.push(pair("var_limit", Written::Figure(s.var_limit)));
    r.push(pair("short_dd_max_days", Written::Count(s.short_dd_max_days)));
    r.push(pair("liquidity_default_days", Written::LiquidityDays));
    r.push(pair("redemption_shock", Written::Figure(s.redemption_shock)));
    r.push(pair("participation_rate", Written::Figure(s.participation_rate)));
    r.push(pair("adv_stress_factor", Written::Figure(s.adv_stress_factor)));
    r.push(pair("liquidity_horizon_days", Written::Count(s.liquidity_horizon_days)));
    r.push(pair("settlement_deadline_days", Written::Count(s.settlement_deadline_days)));
    r.push(pair("adv_max_age_days", Written::Count(s.adv_max_age_days)));
    r.push(pair("flow_lookback_days", Written::Count(s.flow_lookback_days)));
    assert(r@.map_values(|p: Pair| p.key@) =~= keys());
    assert(r@.map_values(|p: Pair| p.value) =~= values(*s));
    r
}

/// No two settings share a key.
pub proof fn law_setting_keys_are_distinct()
    ensures
        forall|i: int, j: int| 0 <= i < j < keys().len() ==> #[trigger] keys()[i] != #[trigger] keys()[j],
        forall|i: int| 0 <= i < keys().len() ==> #[trigger] keys()[i] != "liquidity_defaults"@,
{
    reveal_strlit("risk_free_rate");
    reveal_strlit("var_confidence");
    reveal_strlit("var_horizon_days");
    reveal_strlit("var_window_days");
    reveal_strlit("var_limit");
    reveal_strlit("short_dd_max_days");
    reveal_strlit("liquidity_default_days");
    reveal_strlit("redemption_shock");
    reveal_strlit("participation_rate");
    reveal_strlit("adv_stress_factor");
    reveal_strlit("liquidity_horizon_days");
    reveal_strlit("settlement_deadline_days");
    reveal_strlit("adv_max_age_days");
    reveal_strlit("flow_lookback_days");
    reveal_strlit("liquidity_defaults");
    let k = keys();
    assert(k[0].len() == 14 && k[1].len() == 14 && k[2].len() == 16 && k[3].len() == 15 && k[4].len() == 9 && k[5].len() == 17 && k[6].len() == 22 && k[7].len() == 16 && k[8].len() == 18 && k[9].len() == 17 && k[10].len() == 22 && k[11].len() == 24 && k[12].len() == 16 && k[13].len() == 18);
    assert(k[0][0] == 'r' && k[1][0] == 'v' && k[2][0] == 'v' && k[3][0] == 'v' && k[4][0] == 'v' && k[5][0] == 's' && k[6][0] == 'l' && k[7][0] == 'r' && k[8][0] == 'p' && k[9][0] == 'a' && k[10][0] == 'l' && k[11][0] == 's' && k[12][0] == 'a' && k[13][0] == 'f');
    assert(k[6][10] == 'd' && k[10][10] == 'h');
    assert("liquidity_defaults"@.len() == 18 && "liquidity_defaults"@[0] == 'l');
    assert forall|i: int, j: int| 0 <= i < j < k.len() implies #[trigger] k[i] != #[trigger] k[j] by {
        if k[i] == k[j] {
            assert(k[i].len() == k[j].len());
            assert(k[i][0] == k[j][0]);
            assert(k[i].len() == 22 ==> k[i][10] == k[j][10]);
        }
    }
}

/// What a stored value is read back as: a figure as itself, where it is one
/// that can be stored at all, and a count as itself.
pub open spec fn kept(w: Written, v: SettingValue) -> bool {
    match w {
        Written::Figure(n) => n.finite() ==> v.figure == Some(n),
        Written::Count(c) => v.whole == Some(c as u64),
        Written::LiquidityDays => true,
    }
}

/// Whether some row keeps a value under a key.
pub open spec fn stores(rows: Seq<SettingRow>, key: Seq<char>, w: Written) -> bool {
    exists|j: int| 0 <= j < rows.len() && (#[trigger] rows[j]).key@ == key && kept(w, rows[j].value)
}

/// Settings that were stored are read back as they were: every figure that is
/// finite, every count, and the table of days as the stored row. It holds in
/// whatever order the rows come, and whatever is stored under other keys.
pub proof fn law_stored_settings_are_read_back(
    s: AppSettings,
    rows: Seq<SettingRow>,
    legacy: Seq<LegacyEntry>,
    read: AppSettings,
)
    requires
        forall|i: int, j: int|
            0 <= i < j < rows.len() ==> (#[trigger] rows[i]).key@ != (#[trigger] rows[j]).key@,
        forall|i: int|
            0 <= i < keys().len() ==> stores(rows, #[trigger] keys()[i], values(s)[i]),
        reads(read, rows, legacy),
    ensures
        s.risk_free_rate.finite() ==> read.risk_free_rate == s.risk_free_rate,
        s.var_confidence.finite() ==> read.var_confidence == s.var_confidence,
        read.var_horizon_days == s.var_horizon_days,
        read.var_window_days == s.var_window_days,
        s.var_limit.finite() ==> read.var_limit == s.var_limit,
        read.short_dd_max_days == s.short_dd_max_days,
        read.liquidity_default_days matches LiquidityDays::Stored(row) && row < rows.len()
            && rows[row as int].key@ == "liquidity_default_days"@,
        s.redemption_shock.finite() ==> read.redemption_shock == s.redemption_shock,
        s.participation_rate.finite() ==> read.participation_rate == s.participation_rate,
        s.adv_stress_factor.finite() ==> read.adv_stress_factor == s.adv_stress_factor,
        read.liquidity_horizon_days == s.liquidity_horizon_days,
        read.settlement_deadline_days == s.settlement_deadline_days,
        read.adv_max_age_days == s.adv_max_age_days,
        read.flow_lookback_days == s.flow_lookback_days,
{
    let k = keys();
    let v = values(s);
    assert forall|i: int| 0 <= i < k.len() implies found(rows, #[trigger] k[i], v[i]) by {
        assert(stores(rows, k[i], v[i]));
        let j = choose|j: int|
            0 <= j < rows.len() && (#[trigger] rows[j]).key@ == k[i] && kept(v[i], rows[j].value);
        lemma_row_under(rows, j);
    }
    assert(found(rows, k[0], v[0]) && found(rows, k[1], v[1]) && found(rows, k[2], v[2]));
    assert(found(rows, k[3], v[3]) && found(rows, k[4], v[4]) && found(rows, k[5], v[5]));
    assert(found(rows, k[6], v[6]) && found(rows, k[7], v[7]) && found(rows, k[8], v[8]));
    assert(found(rows, k[9], v[9]) && found(rows, k[10], v[10]) && found(rows, k[11], v[11]));
    assert(found(rows, k[12], v[12]) && found(rows, k[13], v[13]));
}

/// Whether the row read under a key keeps a value.
spec fn found(rows: Seq<SettingRow>, key: Seq<char>, w: Written) -> bool {
    row_of(rows, key) matches Some(j) && 0 <= j < rows.len() && rows[j].key@ == key && kept(
        w,
        rows[j].value,
    )
}

/// Among rows under different keys, each is the first under its own.
proof fn lemma_row_under(rows: Seq<SettingRow>, i: int)
    requires
        forall|a: int, b: int|
            0 <= a < b < rows.len() ==> (#[trigger] rows[a]).key@ != (#[trigger] rows[b]).key@,
        0 <= i < rows.len(),
    ensures
        row_of(rows, rows[i].key@) == Some(i),
{
    let key = rows[i].key@;
    assert forall|j: int| 0 <= j < i implies (#[trigger] rows.take(i)[j]).key@ != key by {
        assert(rows[j].key@ != rows[i].key@);
    }
    lemma_no_row(rows.take(i), key);
    assert(rows.take(i + 1).drop_last() =~= rows.take(i));
    assert(rows.take(i + 1).last() == rows[i]);
    lemma_row_stays(rows, key, i + 1);
}

proof fn lemma_no_row(rows: Seq<SettingRow>, key: Seq<char>)
    requires
        forall|j: int| 0 <= j < rows.len() ==> (#[trigger] rows[j]).key@ != key,
    ensures
        row_of(rows, key) is None,
    decreases rows.len(),
{
    if rows.len() > 0 {
        lemma_no_row(rows.drop_last(), key);
    }
}

/// What stands in for missing figures: 2%, 99%, 20%, 30%, a quarter and 30%.
pub proof fn law_what_stands_in_for_missing_figures()
    ensures
        crate::binary64::closest(Number { bits: DEFAULT_RISK_FREE_RATE }, 2, 100),
        crate::binary64::closest(Number { bits: DEFAULT_VAR_CONFIDENCE }, 99, 100),
        crate::binary64::closest(Number { bits: DEFAULT_VAR_LIMIT }, 20, 100),
        crate::binary64::closest(Number { bits: DEFAULT_REDEMPTION_SHOCK }, 30, 100),
        crate::binary64::exactly(Number { bits: DEFAULT_PARTICIPATION_RATE }, 1, 4),
        crate::binary64::closest(Number { bits: DEFAULT_ADV_STRESS_FACTOR }, 30, 100),
{
    vstd::arithmetic::power2::lemma2_to64();
    vstd::arithmetic::power2::lemma2_to64_rest();
    crate::binary64::lemma_closest(Number { bits: DEFAULT_RISK_FREE_RATE }, 1016, 0x147ae147ae147b, 58, 2, 100);
    crate::binary64::lemma_closest(Number { bits: DEFAULT_VAR_CONFIDENCE }, 1021, 0x1fae147ae147ae, 53, 99, 100);
    crate::binary64::lemma_closest(Number { bits: DEFAULT_VAR_LIMIT }, 1019, 0x1999999999999a, 55, 20, 100);
    crate::binary64::lemma_closest(Number { bits: DEFAULT_REDEMPTION_SHOCK }, 1020, 0x13333333333333, 54, 30, 100);
    crate::binary64::lemma_exactly(Number { bits: DEFAULT_PARTICIPATION_RATE }, 1020, 0x10000000000000, 54, 1, 4);
    crate::binary64::lemma_closest(Number { bits: DEFAULT_ADV_STRESS_FACTOR }, 1020, 0x13333333333333, 54, 30, 100);
}

/// The row that is read under a key is the first one stored under it.
pub proof fn law_the_first_row_under_a_key_is_read(rows: Seq<SettingRow>, key: Seq<char>)
    ensures
        match row_of(rows, key) {
            None => forall|k: int| 0 <= k < rows.len() ==> (#[trigger] rows[k]).key@ != key,
            Some(i) => 0 <= i < rows.len() && rows[i].key@ == key && forall|k: int|
                0 <= k < i ==> (#[trigger] rows[k]).key@ != key,
        },
    decreases rows.len(),
{
    if rows.len() > 0 {
        let rest = rows.drop_last();
        law_the_first_row_under_a_key_is_read(rest, key);
        assert(rows.last() == rows[rows.len() - 1]);
        assert forall|k: int| 0 <= k < rest.len() implies rest[k] == #[trigger] rows[k] by {}
    }
}

/// Where nothing is stored every setting is what stands in for it: a 20-day VaR
/// at 99% over 252 days, limited to 20%, falls of up to 50 days, and so on.
pub proof fn law_what_is_read_of_an_empty_store(s: AppSettings, legacy: Seq<LegacyEntry>)
    requires
        reads(s, Seq::empty(), legacy),
    ensures
        s.risk_free_rate.bits == DEFAULT_RISK_FREE_RATE,
        s.var_confidence.bits == DEFAULT_VAR_CONFIDENCE,
        s.var_horizon_days == 20,
        s.var_window_days == 252,
        s.var_limit.bits == DEFAULT_VAR_LIMIT,
        s.short_dd_max_days == 50,
        s.redemption_shock.bits == DEFAULT_REDEMPTION_SHOCK,
        s.participation_rate.bits == DEFAULT_PARTICIPATION_RATE,
        s.adv_stress_factor.bits == DEFAULT_ADV_STRESS_FACTOR,
        s.liquidity_horizon_days == 60,
        s.settlement_deadline_days == 3,
        s.adv_max_age_days == 7,
        s.flow_lookback_days == 250,
        s.liquidity_default_days matches LiquidityDays::Table(t) && entries(t@)
            == default_entries(),
{
}

/// A figure is read from its own row where that holds one and is what stands in
/// for it elsewhere; a count likewise, of which the low 32 bits count.
pub proof fn law_what_is_read_under_a_key(
    rows: Seq<SettingRow>,
    key: Seq<char>,
    figure: u64,
    count: int,
    i: int,
)
    requires
        0 <= i < rows.len(),
        rows[i].key@ == key,
        forall|k: int| 0 <= k < i ==> (#[trigger] rows[k]).key@ != key,
    ensures
        rows[i].value.figure matches Some(n) ==> figure_at(rows, key, figure) == n,
        rows[i].value.figure is None ==> figure_at(rows, key, figure).bits == figure,
        rows[i].value.whole matches Some(n) ==> count_at(rows, key, count) == n % 0x1_0000_0000,
        rows[i].value.whole is None ==> count_at(rows, key, count) == count,
{
    law_the_first_row_under_a_key_is_read(rows, key);
    let j = row_of(rows, key);
    if j is None {
        assert(rows[i].key@ != key);
    } else if j->0 < i {
        assert(rows[j->0].key@ != key);
    }
}

/// Nothing is read of a key that is not stored.
pub proof fn law_what_is_read_of_a_missing_key(
    rows: Seq<SettingRow>,
    key: Seq<char>,
    figure: u64,
    count: int,
)
    requires
        forall|k: int| 0 <= k < rows.len() ==> (#[trigger] rows[k]).key@ != key,
    ensures
        figure_at(rows, key, figure).bits == figure,
        count_at(rows, key, count) == count,
{
    law_the_first_row_under_a_key_is_read(rows, key);
}

/// An older bucket is read as its upper edge in days, and the open one as sixty;
/// cash and margin accounts, and names that are no bucket, are dropped.
pub proof fn law_older_buckets_are_read_at_their_upper_edge(e: LegacyEntry)
    ensures
        ({
            let account = e.asset_type@ == "Cash Acc"@ || e.asset_type@ == "Margin Acc"@;
            &&& account || e.bucket is None ==> carried_over(e) is None
            &&& !account && e.bucket is Some && e.bucket->0@ == "d1"@ ==> carried_over(e) == Some(
                1int,
            )
            &&& !account && e.bucket is Some && e.bucket->0@ == "d2_7"@ ==> carried_over(e)
                == Some(7int)
            &&& !account && e.bucket is Some && e.bucket->0@ == "d8_30"@ ==> carried_over(e)
                == Some(30int)
            &&& !account && e.bucket is Some && e.bucket->0@ == "d30p"@ ==> carried_over(e)
                == Some(60int)
            &&& carried_over(e) is Some ==> e.bucket->0@ == "d1"@ || e.bucket->0@ == "d2_7"@
                || e.bucket->0@ == "d8_30"@ || e.bucket->0@ == "d30p"@
        }),
{
    reveal_strlit("d1");
    reveal_strlit("d2_7");
    reveal_strlit("d8_30");
    reveal_strlit("d30p");
    assert("d1"@.len() == 2 && "d2_7"@.len() == 4 && "d8_30"@.len() == 5 && "d30p"@.len() == 4);
    assert("d2_7"@[1] == '2' && "d30p"@[1] == '3');
}

/// Older entries are carried over one after the other.
pub proof fn law_older_entries_are_carried_over_in_turn(legacy: Seq<LegacyEntry>, e: LegacyEntry)
    ensures
        carried_over(e) matches Some(days) ==> all_carried_over(legacy.push(e)) == all_carried_over(
            legacy,
        ).push((e.asset_type@, days)),
        carried_over(e) is None ==> all_carried_over(legacy.push(e)) == all_carried_over(legacy),
        all_carried_over(Seq::empty()).len() == 0,
{
    assert(legacy.push(e).drop_last() =~= legacy);
}

/// The days to liquidate that stand in where no table is stored.
pub proof fn law_the_days_that_stand_in()
    ensures
        default_entries().len() == 7,
        default_entries()[0] == ("Action"@, 1int),
        default_entries()[1] == ("Fonds"@, 7int),
        default_entries()[2] == ("Obligation"@, 30int),
        default_entries()[3] == ("Future"@, 1int),
        default_entries()[4] == ("Dividendes"@, 1int),
        default_entries()[5] == ("Frais provisionn\u{e9}s"@, 1int),
        default_entries()[6] == ("Provisions ordres"@, 1int),
{
}

/// Where the days to liquidate come from: a stored table before the older one,
/// and the older one before what stands in.
pub proof fn law_where_the_days_come_from(
    s: AppSettings,
    rows: Seq<SettingRow>,
    legacy: Seq<LegacyEntry>,
)
    requires
        reads(s, rows, legacy),
    ensures
        ({
            let stored = exists|k: int|
                0 <= k < rows.len() && (#[trigger] rows[k]).key@ == "liquidity_default_days"@;
            let older = exists|k: int|
                0 <= k < rows.len() && (#[trigger] rows[k]).key@ == "liquidity_defaults"@;
            &&& stored <==> s.liquidity_default_days is Stored
            &&& s.liquidity_default_days matches LiquidityDays::Stored(i) ==> i < rows.len()
                && rows[i as int].key@ == "liquidity_default_days"@
            &&& s.liquidity_default_days matches LiquidityDays::Table(t) ==> entries(t@) == (
            if older {
                all_carried_over(legacy)
            } else {
                default_entries()
            })
        }),
{
    law_the_first_row_under_a_key_is_read(rows, "liquidity_default_days"@);
    law_the_first_row_under_a_key_is_read(rows, "liquidity_defaults"@);
}

/// Each setting is read under its own name.
pub proof fn law_each_setting_is_read_under_its_own_name(
    s: AppSettings,
    rows: Seq<SettingRow>,
    legacy: Seq<LegacyEntry>,
)
    requires
        reads(s, rows, legacy),
    ensures
        s.risk_free_rate == figure_at(rows, "risk_free_rate"@, DEFAULT_RISK_FREE_RATE),
        s.var_confidence == figure_at(rows, "var_confidence"@, DEFAULT_VAR_CONFIDENCE),
        s.var_limit == figure_at(rows, "var_limit"@, DEFAULT_VAR_LIMIT),
        s.redemption_shock == figure_at(rows, "redemption_shock"@, DEFAULT_REDEMPTION_SHOCK),
        s.participation_rate == figure_at(rows, "participation_rate"@, DEFAULT_PARTICIPATION_RATE),
        s.adv_stress_factor == figure_at(rows, "adv_stress_factor"@, DEFAULT_ADV_STRESS_FACTOR),
        s.var_horizon_days == count_at(rows, "var_horizon_days"@, 20),
        s.var_window_days == count_at(rows, "var_window_days"@, 252),
        s.short_dd_max_days == count_at(rows, "short_dd_max_days"@, 50),
        s.liquidity_horizon_days == count_at(rows, "liquidity_horizon_days"@, 60),
        s.settlement_deadline_days == count_at(rows, "settlement_deadline_days"@, 3),
        s.adv_max_age_days == count_at(rows, "adv_max_age_days"@, 7),
        s.flow_lookback_days == count_at(rows, "flow_lookback_days"@, 250),
{
}

/// Each setting is stored under its own name, and once.
pub proof fn law_each_setting_is_stored_under_its_own_name(s: AppSettings)
    ensures
        keys().len() == 14 && values(s).len() == 14,
        keys()[0] == "risk_free_rate"@ && values(s)[0] == Written::Figure(s.risk_free_rate),
        keys()[1] == "var_confidence"@ && values(s)[1] == Written::Figure(s.var_confidence),
        keys()[2] == "var_horizon_days"@ && values(s)[2] == Written::Count(s.var_horizon_days),
        keys()[3] == "var_window_days"@ && values(s)[3] == Written::Count(s.var_window_days),
        keys()[4] == "var_limit"@ && values(s)[4] == Written::Figure(s.var_limit),
        keys()[5] == "short_dd_max_days"@ && values(s)[5] == Written::Count(s.short_dd_max_days),
        keys()[6] == "liquidity_default_days"@ && values(s)[6] == Written::LiquidityDays,
        keys()[7] == "redemption_shock"@ && values(s)[7] == Written::Figure(s.redemption_shock),
        keys()[8] == "participation_rate"@ && values(s)[8] == Written::Figure(s.participation_rate),
        keys()[9] == "adv_stress_factor"@ && values(s)[9] == Written::Figure(s.adv_stress_factor),
        keys()[10] == "liquidity_horizon_days"@ && values(s)[10] == Written::Count(s.liquidity_horizon_days),
        keys()[11] == "settlement_deadline_days"@ && values(s)[11] == Written::Count(s.settlement_deadline_days),
        keys()[12] == "adv_max_age_days"@ && values(s)[12] == Written::Count(s.adv_max_age_days),
        keys()[13] == "flow_lookback_days"@ && values(s)[13] == Written::Count(s.flow_lookback_days),
{
}

} // verus!
