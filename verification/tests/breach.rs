use borobudur::breach::{episode_key, transitions, Finding, LiveEpisode, Transition};
use borobudur::number::Number;

fn num(x: f64) -> Number {
    Number { bits: x.to_bits() }
}

fn figure(n: &Number) -> f64 {
    f64::from_bits(n.bits)
}

fn finding(check: &str, subject: &str, value: f64) -> Finding {
    Finding { check_key: check.into(), subject: subject.into(), value: Some(num(value)) }
}

fn live(id: i64, check: &str, subject: &str, peak: f64) -> LiveEpisode {
    LiveEpisode { id, check_key: check.into(), subject: subject.into(), peak_value: Some(num(peak)) }
}

#[test]
fn a_first_breach_opens_an_episode() {
    let t = transitions(&[], &[finding("issuer_10", "ACME", 0.106)]);
    assert_eq!(t.len(), 1);
    assert!(matches!(&t[0], Transition::Open { check_key, subject, value }
        if check_key == "issuer_10" && subject == "ACME" && *value == Some(num(0.106))));
}

#[test]
fn a_persisting_breach_does_not_open_a_second_episode() {
    let t = transitions(&[live(1, "issuer_10", "ACME", 0.106)], &[finding("issuer_10", "ACME", 0.104)]);
    assert!(t.is_empty(), "still breaching, no worse: nothing to record, got {t:?}");
}

#[test]
fn a_worsening_breach_raises_the_peak() {
    let t = transitions(&[live(1, "issuer_10", "ACME", 0.106)], &[finding("issuer_10", "ACME", 0.121)]);
    assert_eq!(t.len(), 1);
    assert!(matches!(&t[0], Transition::RaisePeak { id: 1, value } if (figure(value) - 0.121).abs() < 1e-12));
}

#[test]
fn a_subject_that_stops_breaching_closes_its_episode() {
    let t = transitions(&[live(1, "issuer_10", "ACME", 0.106)], &[]);
    assert_eq!(t.len(), 1);
    assert!(matches!(&t[0], Transition::Close { id: 1 }));
}

#[test]
fn episodes_are_keyed_by_check_and_subject_together() {
    // Same issuer breaching a different check is a different episode.
    let t = transitions(
        &[live(1, "issuer_10", "ACME", 0.106)],
        &[finding("issuer_10", "ACME", 0.106), finding("group_20", "ACME", 0.21)],
    );
    assert_eq!(t.len(), 1);
    assert!(matches!(&t[0], Transition::Open { check_key, .. } if check_key == "group_20"));
}

#[test]
fn a_finding_with_no_value_still_opens_an_episode() {
    // The liquidity scenarios have no scalar; the episode is real anyway.
    let t = transitions(
        &[],
        &[Finding { check_key: "liq_top5".into(), subject: "Top 5 holders".into(), value: None }],
    );
    assert_eq!(t.len(), 1);
    assert!(matches!(&t[0], Transition::Open { value: None, .. }));
}

#[test]
fn a_first_measured_value_raises_a_peak_that_was_never_set() {
    // An episode can be opened with no value (e.g., liquidity scenarios),
    // then a measurement arrives; it should set the peak.
    let t = transitions(
        &[LiveEpisode { id: 1, check_key: "liq_top5".into(), subject: "Top 5 holders".into(), peak_value: None }],
        &[Finding { check_key: "liq_top5".into(), subject: "Top 5 holders".into(), value: Some(num(0.35)) }],
    );
    assert_eq!(t.len(), 1);
    assert!(matches!(&t[0], Transition::RaisePeak { id: 1, value } if (figure(value) - 0.35).abs() < 1e-12));
}

#[test]
fn a_valueless_finding_never_disturbs_an_existing_peak() {
    // The liquidity scenarios always report None; they should never update
    // an episode's peak, even if it was previously set.
    let t = transitions(
        &[LiveEpisode {
            id: 1,
            check_key: "liq_top5".into(),
            subject: "Top 5 holders".into(),
            peak_value: Some(num(0.35)),
        }],
        &[Finding { check_key: "liq_top5".into(), subject: "Top 5 holders".into(), value: None }],
    );
    assert!(t.is_empty(), "valueless finding should not produce any transitions, got {t:?}");
}

#[test]
fn opens_and_peaks_come_in_order_and_closes_last() {
    let t = transitions(
        &[live(1, "a", "x", 0.1), live(2, "b", "y", 0.1), live(3, "c", "z", 0.1)],
        &[finding("n", "new", 0.5), finding("b", "y", 0.2)],
    );
    assert_eq!(
        t,
        vec![
            Transition::Open { check_key: "n".into(), subject: "new".into(), value: Some(num(0.5)) },
            Transition::RaisePeak { id: 2, value: num(0.2) },
            Transition::Close { id: 1 },
            Transition::Close { id: 3 },
        ]
    );
}

#[test]
fn a_repeated_run_records_nothing_more() {
    let findings = [finding("n", "new", 0.5), finding("b", "y", 0.2)];
    let after = [live(2, "b", "y", 0.2), live(9, "n", "new", 0.5)];
    assert!(transitions(&after, &findings).is_empty());
}

#[test]
fn of_two_episodes_under_one_key_the_later_counts() {
    let t = transitions(&[live(1, "a", "x", 0.9), live(2, "a", "x", 0.1)], &[finding("a", "x", 0.5)]);
    assert_eq!(t, vec![Transition::RaisePeak { id: 2, value: num(0.5) }]);
}

#[test]
fn a_value_that_is_no_number_is_no_news() {
    let t = transitions(&[live(1, "a", "x", 0.9)], &[finding("a", "x", f64::NAN)]);
    assert!(t.is_empty());
}

#[test]
fn an_episode_is_kept_under_its_check_and_subject() {
    let key = episode_key(&"issuer_10".to_string(), &"ACME".to_string());
    assert_eq!(key, "issuer_10\u{1f}ACME");
}
