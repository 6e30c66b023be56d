use borobudur::bizdays::{business_days_between, is_business_day};
use borobudur::date::Date;

fn d(y: i32, m: u32, day: u32) -> Date {
    Date::from_ymd_opt(y, m, day).unwrap()
}

#[test]
fn weekends_are_not_business_days() {
    assert!(is_business_day(d(2026, 8, 7))); // Friday
    assert!(!is_business_day(d(2026, 8, 8))); // Saturday
    assert!(!is_business_day(d(2026, 8, 9))); // Sunday
    assert!(is_business_day(d(2026, 8, 10))); // Monday
}

#[test]
fn offset_skips_the_weekend() {
    // From Friday, the next business day is Monday: offset 1, not 3.
    assert_eq!(business_days_between(d(2026, 8, 7), d(2026, 8, 10)), 1);
    assert_eq!(business_days_between(d(2026, 8, 7), d(2026, 8, 14)), 5);
}

#[test]
fn same_day_and_past_dates_are_zero() {
    assert_eq!(business_days_between(d(2026, 8, 7), d(2026, 8, 7)), 0);
    assert_eq!(business_days_between(d(2026, 8, 7), d(2026, 8, 1)), 0);
}

#[test]
fn the_real_bond_coupon_offset() {
    // Brazil 6.625% 2035 pays 2026-09-15; the sample snapshot is
    // 2026-08-07. Inside the default 60-business-day horizon.
    assert_eq!(business_days_between(d(2026, 8, 7), d(2026, 9, 15)), 27);
}

#[test]
fn a_week_holds_five_business_days_wherever_it_begins() {
    for day in 1..=14 {
        assert_eq!(business_days_between(d(2026, 3, day), d(2026, 3, day + 7)), 5);
    }
}

#[test]
fn counting_in_two_stretches_adds_up() {
    let (a, b, c) = (d(2025, 12, 24), d(2026, 1, 3), d(2026, 2, 28));
    assert_eq!(
        business_days_between(a, b) + business_days_between(b, c),
        business_days_between(a, c)
    );
}
