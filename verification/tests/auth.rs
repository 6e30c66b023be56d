use borobudur::admin::{grants_of_rows, GrantRow, GrantRowError, LockState, UNUSABLE_PASSWORD_HASH};
use borobudur::auth::marker;
use borobudur::auth::{Action, AuthCtx, Denied, DeniedKind, Domain, Grant, GrantSet, PortfolioScope, Role};
use borobudur::scoped::Scoped;
use std::collections::BTreeSet;

fn grant(domain: Domain, action: Action, portfolio: Option<i64>) -> Grant {
    Grant { domain, action, portfolio }
}

fn principal(grants: Vec<Grant>) -> AuthCtx {
    AuthCtx {
        principal_id: 7,
        display_name: "someone".to_string(),
        is_administrator: false,
        grants: GrantSet::from_grants(grants),
    }
}

#[test]
fn domain_names_read_back() {
    let names: Vec<&str> = Domain::all().iter().map(|d| d.as_str()).collect();
    assert_eq!(names, vec!["positions", "nav", "transactions", "shareholders", "market_data", "reference"]);
    for d in Domain::all() {
        assert_eq!(Domain::from_str(d.as_str()), Some(d));
    }
    assert_eq!(Domain::from_str("Positions"), None);
    assert_eq!(Domain::from_str(""), None);
    assert_eq!(Domain::Nav.label(), "NAV history");
    assert_eq!(Domain::Shareholders.label(), "shareholder register");
    assert_eq!(Domain::MarketData.label(), "market data");
    assert_eq!(Domain::Reference.label(), "reference data");
    assert_eq!(Domain::Positions.label(), "positions");
    assert_eq!(Domain::Transactions.label(), "transactions");
}

#[test]
fn action_names_read_back() {
    let names: Vec<&str> = Action::all().iter().map(|a| a.as_str()).collect();
    assert_eq!(names, vec!["view", "export", "import", "configure"]);
    for a in Action::all() {
        assert_eq!(Action::from_str(a.as_str()), Some(a));
    }
    assert_eq!(Action::from_str("delete"), None);
}

#[test]
fn role_names_read_back() {
    for r in Role::all() {
        assert_eq!(Role::from_str(r.as_str()), Some(r));
    }
    assert_eq!(Role::from_str("owner"), None);
    assert_eq!(Role::HeadOfRisk.as_str(), "head_of_risk");
    assert_eq!(Role::RiskAnalyst.label(), "Risk Analyst");
    assert_eq!(Role::HeadOfRisk.label(), "Head of Risk");
    assert_eq!(Role::Operations.label(), "Operations");
    assert_eq!(Role::Auditor.label(), "Auditor");
}

#[test]
fn any_grant_brings_view_and_nothing_else() {
    let g = GrantSet::from_grants(vec![grant(Domain::Nav, Action::Import, Some(3))]);
    assert!(g.allows(Domain::Nav, Action::Import, Some(3)));
    assert!(g.allows(Domain::Nav, Action::View, Some(3)));
    assert!(!g.allows(Domain::Nav, Action::Export, Some(3)));
    assert!(!g.allows(Domain::Nav, Action::View, Some(4)));
    assert!(!g.allows(Domain::Nav, Action::View, None));
    assert!(!g.allows(Domain::Positions, Action::View, Some(3)));
    assert_eq!(g.iter().len(), 2);
}

#[test]
fn a_wildcard_reaches_every_portfolio_and_the_instance() {
    let g = GrantSet::from_grants(vec![grant(Domain::MarketData, Action::View, None)]);
    assert!(g.allows(Domain::MarketData, Action::View, Some(1)));
    assert!(g.allows(Domain::MarketData, Action::View, None));
    assert!(g.any_domain_on(99));
    assert_eq!(g.visible_portfolios(), PortfolioScope::All);
    assert!(g.visible_portfolios().contains(5));
}

#[test]
fn visible_portfolios_are_those_of_the_rows() {
    let g = GrantSet::from_grants(vec![
        grant(Domain::Nav, Action::View, Some(3)),
        grant(Domain::Positions, Action::Export, Some(1)),
        grant(Domain::Nav, Action::View, Some(3)),
    ]);
    let mut ids = BTreeSet::new();
    ids.insert(1i64);
    ids.insert(3i64);
    assert_eq!(g.visible_portfolios(), PortfolioScope::Only(ids));
    assert!(g.any_domain_on(1) && !g.any_domain_on(2));
    assert!(!g.visible_portfolios().contains(2));
    // The same row twice is one permission.
    assert_eq!(g.iter().len(), 3);
    let copy = g.clone();
    assert!(copy.allows(Domain::Positions, Action::View, Some(1)));
}

#[test]
fn no_rows_permit_nothing() {
    let g = GrantSet::from_grants(vec![]);
    assert!(!g.allows(Domain::Nav, Action::View, Some(1)));
    assert_eq!(g.visible_portfolios(), PortfolioScope::Only(BTreeSet::new()));
}

#[test]
fn resolving_a_resolved_set_changes_nothing() {
    let g = GrantSet::from_grants(vec![grant(Domain::Nav, Action::Export, Some(2))]);
    let again = GrantSet::from_grants(g.iter().clone());
    assert_eq!(again.iter().len(), g.iter().len());
    for x in g.iter() {
        assert!(again.iter().contains(x));
    }
}

#[test]
fn the_desktop_principal_holds_every_grant() {
    let ctx = AuthCtx::desktop();
    assert_eq!(ctx.principal_id, 0);
    assert_eq!(ctx.display_name, "desktop");
    assert!(ctx.is_administrator);
    for d in Domain::all() {
        for a in Action::all() {
            assert!(ctx.grants.allows(d, a, None));
            assert!(ctx.grants.allows(d, a, Some(12)));
        }
    }
    assert_eq!(GrantSet::all_access().iter().len(), 24);
}

#[test]
fn roles_expand_to_their_rows() {
    assert_eq!(Role::RiskAnalyst.expand(Some(1)).len(), 10);
    assert_eq!(Role::HeadOfRisk.expand(Some(1)).len(), 13);
    assert_eq!(
        Role::Operations.expand(None),
        vec![
            grant(Domain::Positions, Action::Import, None),
            grant(Domain::Nav, Action::Import, None),
            grant(Domain::Transactions, Action::Import, None),
            grant(Domain::MarketData, Action::Import, None),
            grant(Domain::Reference, Action::View, None),
        ]
    );
    let auditor = Role::Auditor.expand(Some(4));
    assert_eq!(auditor.len(), 6);
    assert!(auditor.iter().all(|g| g.action == Action::View && g.portfolio == Some(4)));
    let analyst = Role::RiskAnalyst.expand(Some(1));
    assert_eq!(analyst[0], grant(Domain::Positions, Action::View, Some(1)));
    assert_eq!(analyst[1], grant(Domain::Positions, Action::Export, Some(1)));
    assert!(!analyst.iter().any(|g| g.domain == Domain::Shareholders));
    assert_eq!(
        Role::HeadOfRisk.expand(None)[12],
        grant(Domain::Reference, Action::Configure, None)
    );
}

#[test]
fn the_head_of_risk_is_permitted_what_an_analyst_is() {
    let head = GrantSet::from_grants(Role::HeadOfRisk.expand(Some(5)));
    let analyst = GrantSet::from_grants(Role::RiskAnalyst.expand(Some(5)));
    let auditor = GrantSet::from_grants(Role::Auditor.expand(Some(5)));
    for d in Domain::all() {
        for a in Action::all() {
            for p in [None, Some(5), Some(6)] {
                if analyst.allows(d, a, p) || auditor.allows(d, a, p) {
                    assert!(head.allows(d, a, p));
                }
            }
        }
    }
}

#[test]
fn a_token_is_issued_for_what_was_asked() {
    let ctx = principal(vec![grant(Domain::Positions, Action::Export, Some(2))]);
    let s = Scoped::new(&ctx);
    assert_eq!(s.ctx().principal_id, 7);
    let token = s.authorize::<marker::Positions, marker::Export>(2).unwrap();
    assert_eq!(token.portfolio_id(), 2);
    assert!(s.authorize::<marker::Positions, marker::View>(2).is_ok());
    assert!(s.may::<marker::Positions, marker::View>(2));
    assert!(!s.may::<marker::Nav, marker::View>(2));
    assert!(!s.may_global::<marker::Positions, marker::View>());
    assert!(s.allows(Domain::Positions, Action::View, Some(2)));
}

#[test]
fn a_refusal_tells_visible_portfolios_from_hidden_ones() {
    let ctx = principal(vec![grant(Domain::Positions, Action::View, Some(2))]);
    let s = Scoped::new(&ctx);
    let seen = s.authorize::<marker::Nav, marker::View>(2).unwrap_err();
    assert_eq!(
        seen,
        Denied { domain: Domain::Nav, action: Action::View, portfolio: Some(2), kind: DeniedKind::NotGranted }
    );
    let hidden = s.denial(Domain::Nav, Action::Configure, 3).unwrap();
    assert_eq!(hidden.kind, DeniedKind::OutOfScope);
    assert_eq!(hidden.action, Action::Configure);
    let global = s.authorize_global::<marker::Reference, marker::Configure>().unwrap_err();
    assert_eq!(global.portfolio, None);
    assert_eq!(global.kind, DeniedKind::NotGranted);
    assert_eq!(s.denial(Domain::Positions, Action::View, 2), None);
    let desktop = AuthCtx::desktop();
    assert!(Scoped::new(&desktop).authorize_global::<marker::Reference, marker::Configure>().is_ok());
}

#[test]
fn a_refusal_is_put_in_words() {
    let d = Denied {
        domain: Domain::Shareholders,
        action: Action::Export,
        portfolio: Some(-12),
        kind: DeniedKind::NotGranted,
    };
    assert_eq!(d.reason(), "not permitted: shareholder register");
    assert_eq!(d.to_text(), "not permitted: shareholder register (Export on Some(-12))");
    let global = Denied { portfolio: None, action: Action::Configure, ..d };
    assert_eq!(global.to_text(), "not permitted: shareholder register (Configure on None)");
}

#[test]
fn stored_grants_are_read_back() {
    let g = grant(Domain::MarketData, Action::Import, Some(9));
    let row = GrantRow::of(g);
    assert_eq!((row.domain.as_str(), row.action.as_str()), ("market_data", "import"));
    assert_eq!(row.parse().unwrap(), g);
    let rows = vec![row, GrantRow::of(grant(Domain::Nav, Action::View, None))];
    assert_eq!(grants_of_rows(&rows).unwrap(), vec![g, grant(Domain::Nav, Action::View, None)]);
}

#[test]
fn a_stored_grant_that_names_nothing_is_loud() {
    let bad_domain = GrantRow { domain: "ledger".into(), action: "fly".into(), portfolio: None };
    match bad_domain.parse() {
        Err(GrantRowError::UnknownDomain(d)) => assert_eq!(d, "ledger"),
        other => panic!("{other:?}"),
    }
    assert_eq!(bad_domain.parse().unwrap_err().message(), "unknown domain in grants: ledger");
    let bad_action = GrantRow { domain: "nav".into(), action: "fly".into(), portfolio: None };
    assert_eq!(bad_action.parse().unwrap_err().message(), "unknown action in grants: fly");
    let rows = vec![GrantRow::of(grant(Domain::Nav, Action::View, None)), bad_action, bad_domain];
    assert_eq!(grants_of_rows(&rows).unwrap_err().message(), "unknown action in grants: fly");
}

#[test]
fn lock_states_follow_the_attempts() {
    assert_eq!(LockState::from_attempts(None), LockState { locked: false, failures: 0, retry_after_secs: 0 });
    assert_eq!(
        LockState::from_attempts(Some((5, 30))),
        LockState { locked: true, failures: 5, retry_after_secs: 30 }
    );
    assert_eq!(
        LockState::from_attempts(Some((2, 0))),
        LockState { locked: false, failures: 2, retry_after_secs: 0 }
    );
    assert_eq!(UNUSABLE_PASSWORD_HASH, "!unusable!");
}

#[test]
fn a_default_set_of_grants_is_empty() {
    let g = GrantSet::default();
    assert!(g.iter().is_empty());
    assert_eq!(g.visible_portfolios(), PortfolioScope::Only(BTreeSet::new()));
}

#[test]
fn the_desktop_grants_are_wildcards_alone() {
    let ctx = AuthCtx::desktop();
    assert_eq!(ctx.grants.iter().len(), 24);
    assert!(ctx.grants.iter().iter().all(|g| g.portfolio.is_none()));
}
