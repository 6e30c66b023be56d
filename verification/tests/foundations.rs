use borobudur::date::{Date, MAX_YEAR, MIN_YEAR};
use borobudur::number::Number;
use borobudur::order::{group_rows, pick_rows, stable_order};

fn num(x: f64) -> Number {
    Number { bits: x.to_bits() }
}

const FIGURES: [f64; 13] = [
    f64::NEG_INFINITY,
    -1.5e300,
    -2.0,
    -1.0,
    -5e-324,
    -0.0,
    0.0,
    5e-324,
    0.1,
    1.0,
    2.5,
    1.5e300,
    f64::INFINITY,
];

#[test]
fn figures_compare_as_floats_do() {
    for a in FIGURES {
        for b in FIGURES {
            assert_eq!(num(a).is_below(&num(b)), a < b, "{a} < {b}");
            assert_eq!(num(a).is_at_most(&num(b)), a <= b, "{a} <= {b}");
            assert_eq!(num(a).total_key() < num(b).total_key(), a.total_cmp(&b).is_lt(), "{a} total {b}");
        }
        assert_eq!(num(a).is_finite(), a.is_finite());
        assert_eq!(num(a).is_positive(), a > 0.0);
        assert_eq!(num(a).is_negative(), a < 0.0);
        assert_eq!(num(a).negated(), num(-a));
        assert_eq!(num(a).abs(), num(a.abs()));
        assert!(!num(a).is_nan());
    }
}

#[test]
fn nothing_compares_with_what_is_no_number() {
    let nan = num(f64::NAN);
    assert!(nan.is_nan() && !nan.is_finite());
    for a in FIGURES {
        assert!(!nan.is_below(&num(a)) && !num(a).is_below(&nan));
        assert!(!nan.is_at_most(&num(a)) && !num(a).is_at_most(&nan));
    }
    assert!(!nan.is_positive() && !nan.is_negative());
    assert_eq!(Number::zero(), num(0.0));
}

#[test]
fn days_that_the_calendar_lacks_are_refused() {
    assert!(Date::from_ymd_opt(2024, 2, 29).is_some());
    assert!(Date::from_ymd_opt(2023, 2, 29).is_none());
    assert!(Date::from_ymd_opt(1900, 2, 29).is_none());
    assert!(Date::from_ymd_opt(2000, 2, 29).is_some());
    assert!(Date::from_ymd_opt(2024, 4, 31).is_none());
    assert!(Date::from_ymd_opt(2024, 13, 1).is_none());
    assert!(Date::from_ymd_opt(2024, 0, 1).is_none());
    assert!(Date::from_ymd_opt(2024, 1, 0).is_none());
    assert!(Date::from_ymd_opt(MAX_YEAR, 12, 31).is_some());
    assert!(Date::from_ymd_opt(MAX_YEAR + 1, 1, 1).is_none());
    assert!(Date::from_ymd_opt(MIN_YEAR, 1, 1).is_some());
    assert!(Date::from_ymd_opt(MIN_YEAR - 1, 12, 31).is_none());
}

#[test]
fn days_follow_each_other_by_number() {
    let d = Date::from_ymd_opt(2024, 2, 28).unwrap();
    let next = d.next_day().unwrap();
    assert_eq!((next.year(), next.month(), next.day()), (2024, 2, 29));
    assert_eq!(next.next_day().unwrap(), Date::from_ymd_opt(2024, 3, 1).unwrap());
    assert_eq!(next.day_count(), d.day_count() + 1);
    assert_eq!(next.previous_day(), Some(d));
    assert_eq!(Date::from_ymd_opt(1, 1, 1).unwrap().day_count(), 1);
    assert_eq!(Date::from_ymd_opt(1970, 1, 1).unwrap().day_count(), 719_163);
    assert_eq!(Date::from_ymd_opt(1970, 1, 1).unwrap().days_from_monday(), 3);
    assert!(d.is_before(&next) && !next.is_before(&d) && !d.is_before(&d));
    assert!(d.is_same(&next.previous_day().unwrap()) && !d.is_same(&next));
    assert_eq!(Date::from_ymd_opt(MAX_YEAR, 12, 31).unwrap().next_day(), None);
    assert_eq!(Date::from_ymd_opt(MIN_YEAR, 1, 1).unwrap().previous_day(), None);
}

#[test]
fn days_are_written_as_iso() {
    let text = |y: i32, m: u32, d: u32| Date::from_ymd_opt(y, m, d).unwrap().to_iso();
    assert_eq!(text(2026, 8, 7), "2026-08-07");
    assert_eq!(text(5, 1, 2), "0005-01-02");
    assert_eq!(text(-1, 12, 31), "-0001-12-31");
    assert_eq!(text(12345, 10, 10), "+12345-10-10");
    assert_eq!(Date::from_ymd_opt(2026, 8, 7).unwrap().to_month(), "2026-08");
    assert_eq!(Date::from_ymd_opt(12345, 1, 7).unwrap().to_month(), "+12345-01");
    assert_eq!(Date::from_ymd_opt(-45, 1, 7).unwrap().to_month(), "-0045-01");
}

#[test]
fn equal_keys_keep_their_order() {
    assert_eq!(stable_order(&vec![3, 1, 2, 1, 3]), vec![1, 3, 2, 0, 4]);
    assert_eq!(stable_order(&vec![i64::MAX, i64::MIN]), vec![1, 0]);
    assert!(stable_order(&vec![]).is_empty());
}

#[test]
fn wanted_rows_are_picked_in_order() {
    assert_eq!(pick_rows(&vec![true, false, true]), vec![0, 2]);
    assert!(pick_rows(&vec![false]).is_empty());
}

#[test]
fn rows_are_grouped_by_name() {
    let names: Vec<String> = ["b", "a", "b", "\u{e9}", "ab", "a"].iter().map(|s| s.to_string()).collect();
    let groups = group_rows(&names, &vec![true, true, true, true, true, false]);
    let got: Vec<(&str, Vec<usize>)> = groups.iter().map(|g| (g.name.as_str(), g.members.clone())).collect();
    assert_eq!(got, vec![("a", vec![1]), ("ab", vec![4]), ("b", vec![0, 2]), ("\u{e9}", vec![3])]);
}
