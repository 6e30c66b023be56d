use borobudur::auth::marker;
use borobudur::auth::AuthCtx;
use borobudur::breach::Transition;
use borobudur::date::Date;
use borobudur::number::Number;
use borobudur::repo::breaches::{
    ensure_token_portfolio, register_lock_key, results_by_run, skipped_note, transitions_skipped_after,
    BreachEvent, Progress, RegisterAction, Reply, Stage, TRANSITIONS_SKIPPED_NOTE,
};
use borobudur::scoped::Scoped;

fn num(x: f64) -> Number {
    Number { bits: x.to_bits() }
}

fn d(y: i32, m: u32, day: u32) -> Date {
    Date::from_ymd_opt(y, m, day).unwrap()
}

/// A stored episode: its id, its portfolio and whether it is closed.
struct Stored {
    id: i64,
    portfolio: i64,
    closed: bool,
}

/// Applies transitions against a small store and returns the events recorded.
fn apply(store: &mut Vec<Stored>, portfolio: i64, ts: &[Transition]) -> Result<Vec<(i64, String)>, String> {
    let mut events = Vec::new();
    let mut p = Progress::start();
    loop {
        let reply = match p.action(ts) {
            RegisterAction::Insert { .. } => {
                let id = 100 + store.len() as i64;
                store.push(Stored { id, portfolio, closed: false });
                Reply::Inserted(id)
            }
            RegisterAction::Raise { id, .. } => {
                Reply::Hit(store.iter().any(|s| s.id == id && s.portfolio == portfolio))
            }
            RegisterAction::Close { id } => {
                let open = store.iter_mut().find(|s| s.id == id && s.portfolio == portfolio && !s.closed);
                match open {
                    Some(s) => {
                        s.closed = true;
                        Reply::Hit(true)
                    }
                    None => Reply::Hit(false),
                }
            }
            RegisterAction::LookUp { id } => {
                Reply::Hit(store.iter().any(|s| s.id == id && s.portfolio == portfolio))
            }
            RegisterAction::Record { breach, event } => {
                events.push((breach, event.name().to_string()));
                Reply::Recorded
            }
            RegisterAction::Done => return Ok(events),
        };
        p = p.advance(ts, reply, portfolio)?;
    }
}

#[test]
fn every_write_leaves_its_event() {
    let mut store =
        vec![Stored { id: 1, portfolio: 7, closed: false }, Stored { id: 2, portfolio: 7, closed: false }];
    let ts = vec![
        Transition::Open { check_key: "issuer_10".into(), subject: "ACME".into(), value: Some(num(0.11)) },
        Transition::RaisePeak { id: 1, value: num(0.2) },
        Transition::Close { id: 2 },
    ];
    let events = apply(&mut store, 7, &ts).unwrap();
    assert_eq!(
        events,
        vec![(102, "opened".to_string()), (1, "note".to_string()), (2, "cleared".to_string())]
    );
    assert!(store[1].closed);
}

#[test]
fn closing_twice_records_once() {
    let mut store = vec![Stored { id: 1, portfolio: 7, closed: false }];
    let ts = vec![Transition::Close { id: 1 }, Transition::Close { id: 1 }];
    assert_eq!(apply(&mut store, 7, &ts).unwrap(), vec![(1, "cleared".to_string())]);
    assert_eq!(apply(&mut store, 7, &ts).unwrap(), vec![]);
}

#[test]
fn another_portfolios_episode_ends_the_run() {
    let mut store = vec![Stored { id: 1, portfolio: 8, closed: false }];
    let raise = vec![Transition::RaisePeak { id: 1, value: num(0.2) }];
    assert_eq!(
        apply(&mut store, 7, &raise).unwrap_err(),
        "transition names breach 1, which is not in portfolio 7"
    );
    let close = vec![Transition::Close { id: 1 }];
    assert_eq!(
        apply(&mut store, 7, &close).unwrap_err(),
        "transition names breach 1, which is not in portfolio 7"
    );
    assert!(!store[0].closed);
}

#[test]
fn an_opened_event_carries_the_value() {
    let ts =
        vec![Transition::Open { check_key: "c".into(), subject: "s".into(), value: None }];
    let p = Progress { at: 0, stage: Stage::Recording { breach: 5 } };
    match p.action(&ts) {
        RegisterAction::Record { breach, event } => {
            assert_eq!(breach, 5);
            assert_eq!(event, BreachEvent::Opened { value: None });
        }
        other => panic!("{other:?}"),
    }
    assert_eq!(p.advance(&ts, Reply::Recorded, 1), Ok(Progress { at: 1, stage: Stage::Writing }));
    assert!(matches!(Progress { at: 1, stage: Stage::Writing }.action(&ts), RegisterAction::Done));
}

#[test]
fn a_back_dated_run_leaves_the_register_alone() {
    let latest = d(2026, 8, 7);
    assert_eq!(transitions_skipped_after(Some(latest), d(2026, 8, 6)), Some(latest));
    assert_eq!(transitions_skipped_after(Some(latest), latest), None);
    assert_eq!(transitions_skipped_after(Some(latest), d(2026, 8, 8)), None);
    assert_eq!(transitions_skipped_after(None, d(2026, 8, 6)), None);
    assert_eq!(
        skipped_note(d(2026, 8, 6), latest),
        "this run is back-dated (2026-08-06 is before 2026-08-07, the newest run already recorded for \
         this portfolio), so its results were recorded but no breach episode was opened, \
         raised or closed"
    );
    assert_eq!(TRANSITIONS_SKIPPED_NOTE, "transitions");
}

#[test]
fn lock_keys_tell_portfolios_apart() {
    assert_eq!(register_lock_key(0), 0x0B12_0000_0000);
    assert_eq!(register_lock_key(5), 0x0B12_0000_0005);
    assert_eq!(register_lock_key(0xFFFF_FFFF), 0x0B12_FFFF_FFFF);
    assert_eq!(register_lock_key(0x1_0000_0005), register_lock_key(5));
    assert_eq!(register_lock_key(-1), 0x0B12_FFFF_FFFF);
}

#[test]
fn results_go_back_onto_their_runs() {
    let rows = results_by_run(&[9, 4, 6], &[4, 4, 6, 9, 1]);
    assert_eq!(rows, vec![vec![3], vec![0, 1], vec![2]]);
    assert_eq!(results_by_run(&[5, 5], &[5]), vec![vec![0], vec![]]);
    assert!(results_by_run(&[], &[1]).is_empty());
}

#[test]
fn a_stray_portfolio_id_is_refused() {
    let ctx = AuthCtx::desktop();
    let token = Scoped::new(&ctx).authorize::<marker::Reference, marker::View>(3).unwrap();
    assert_eq!(ensure_token_portfolio("latest_position_date", 3, &token), Ok(()));
    assert_eq!(
        ensure_token_portfolio("latest_position_date", 4, &token),
        Err("latest_position_date: pid 4 does not match the token's portfolio 3".to_string())
    );
}
