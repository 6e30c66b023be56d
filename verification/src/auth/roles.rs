//! Roles are templates, not indirection. `expand` produces concrete grant rows
//! that are stored against the user; nothing at request time knows a role
//! existed. The cost is that editing a role does not retroactively change
//! people already holding it - the administration screen re-applies instead.

use super::model::{Action, Domain, Grant};
use crate::text::same_text;
use vstd::prelude::*;

verus! {

/// A named set of grants.
#[derive(Clone, Copy, Debug, PartialEq, Eq, Structural)]
pub enum Role {
    RiskAnalyst,
    HeadOfRisk,
    Operations,
    Auditor,
}

/// One row for each of some actions on each of some domains, domain by domain.
pub open spec fn rows(domains: Seq<Domain>, actions: Seq<Action>, scope: Option<i64>) -> Seq<Grant>
    decreases domains.len(),
{
    if domains.len() == 0 {
        Seq::empty()
    } else {
        rows(domains.drop_last(), actions, scope) + Seq::new(
            actions.len(),
            |i: int| Grant { domain: domains.last(), action: actions[i], portfolio: scope },
        )
    }
}

impl Role {
    /// Every role, in order.
    pub open spec fn every() -> Seq<Role> {
        seq![Role::RiskAnalyst, Role::HeadOfRisk, Role::Operations, Role::Auditor]
    }

    /// The name a role is stored under.
    pub open spec fn name(self) -> Seq<char> {
        match self {
            Role::RiskAnalyst => "risk_analyst"@,
            Role::HeadOfRisk => "head_of_risk"@,
            Role::Operations => "operations"@,
            Role::Auditor => "auditor"@,
        }
    }

    /// The grants a role stands for.
    pub open spec fn template(self, scope: Option<i64>) -> Seq<Grant> {
        match self {
            Role::RiskAnalyst => rows(
                seq![
                    Domain::Positions,
                    Domain::Nav,
                    Domain::Transactions,
                    Domain::MarketData,
                    Domain::Reference,
                ],
                seq![Action::View, Action::Export],
                scope,
            ),
            Role::HeadOfRisk => rows(Domain::every(), seq![Action::View, Action::Export], scope).push(
                (Grant { domain: Domain::Reference, action: Action::Configure, portfolio: scope }),
            ),
            Role::Operations => rows(
                seq![Domain::Positions, Domain::Nav, Domain::Transactions, Domain::MarketData],
                seq![Action::Import],
                scope,
            ).push((Grant { domain: Domain::Reference, action: Action::View, portfolio: scope })),
            Role::Auditor => rows(Domain::every(), seq![Action::View], scope),
        }
    }

    /// Every role, in order.
    pub fn all() -> (r: Vec<Role>)
        ensures
            r@ == Role::every(),
    {
        let r = vec![Role::RiskAnalyst, Role::HeadOfRisk, Role::Operations, Role::Auditor];
        assert(r@ =~= Role::every());
        r
    }

    /// The name a role is stored under.
    pub fn as_str(&self) -> (r: &'static str)
        ensures
            r@ == self.name(),
    {
        match self {
            Role::RiskAnalyst => "risk_analyst",
            Role::HeadOfRisk => "head_of_risk",
            Role::Operations => "operations",
            Role::Auditor => "auditor",
        }
    }

    /// The role stored under a name.
    pub fn from_str(s: &str) -> (r: Option<Role>)
        ensures
            forall|x: Role| r == Some(x) <==> s@ == #[trigger] x.name(),
    {
        proof {
            law_role_names_are_distinct();
        }
        let all = Role::all();
        for i in 0..all.len()
            invariant
                all@ == Role::every(),
                forall|j: int| 0 <= j < i ==> s@ != (#[trigger] all@[j]).name(),
                forall|a: Role, b: Role| #[trigger] a.name() == #[trigger] b.name() ==> a == b,
        {
            if same_text(all[i].as_str(), s) {
                return Some(all[i]);
            }
        }
        proof {
            assert forall|x: Role| s@ != #[trigger] x.name() by {
                assert(all@[0] is RiskAnalyst && all@[1] is HeadOfRisk && all@[2] is Operations
                    && all@[3] is Auditor);
            }
        }
        None
    }

    /// The human phrasing of a role.
    pub fn label(&self) -> (r: &'static str)
        ensures
            r@ == (match *self {
                Role::RiskAnalyst => "Risk Analyst"@,
                Role::HeadOfRisk => "Head of Risk"@,
                Role::Operations => "Operations"@,
                Role::Auditor => "Auditor"@,
            }),
    {
        match self {
            Role::RiskAnalyst => "Risk Analyst",
            Role::HeadOfRisk => "Head of Risk",
            Role::Operations => "Operations",
            Role::Auditor => "Auditor",
        }
    }

    /// The concrete grant rows of the role on a scope.
    pub fn expand(&self, scope: Option<i64>) -> (r: Vec<Grant>)
        ensures
            r@ == self.template(scope),
    {
        match self {
            Role::RiskAnalyst => {
                let domains = vec![
                    Domain::Positions,
                    Domain::Nav,
                    Domain::Transactions,
                    Domain::MarketData,
                    Domain::Reference,
                ];
                let actions = vec![Action::View, Action::Export];
                proof {
                    assert(domains@ =~= seq![
                        Domain::Positions,
                        Domain::Nav,
                        Domain::Transactions,
                        Domain::MarketData,
                        Domain::Reference,
                    ]);
                    assert(actions@ =~= seq![Action::View, Action::Export]);
                }
                rows_of(&domains, &actions, scope)
            },
            Role::HeadOfRisk => {
                let actions = vec![Action::View, Action::Export];
                assert(actions@ =~= seq![Action::View, Action::Export]);
                let mut g = rows_of(&Domain::all(), &actions, scope);
                g.push(
                    Grant { domain: Domain::Reference, action: Action::Configure, portfolio: scope },
                );
                g
            },
            Role::Operations => {
                let domains = vec![
                    Domain::Positions,
                    Domain::Nav,
                    Domain::Transactions,
                    Domain::MarketData,
                ];
                let actions = vec![Action::Import];
                proof {
                    assert(domains@ =~= seq![
                        Domain::Positions,
                        Domain::Nav,
                        Domain::Transactions,
                        Domain::MarketData,
                    ]);
                    assert(actions@ =~= seq![Action::Import]);
                }
                let mut g = rows_of(&domains, &actions, scope);
                g.push(Grant { domain: Domain::Reference, action: Action::View, portfolio: scope });
                g
            },
            Role::Auditor => {
                let actions = vec![Action::View];
                assert(actions@ =~= seq![Action::View]);
                rows_of(&Domain::all(), &actions, scope)
            },
        }
    }
}

/// One row for each of some actions on each of some domains, domain by domain.
fn rows_of(domains: &Vec<Domain>, actions: &Vec<Action>, scope: Option<i64>) -> (r: Vec<Grant>)
    ensures
        r@ == rows(domains@, actions@, scope),
{
    let mut r: Vec<Grant> = Vec::new();
    for i in 0..domains.len()
        invariant
            r@ == rows(domains@.take(i as int), actions@, scope),
    {
        let ghost before = r@;
        for j in 0..actions.len()
            invariant
                i < domains@.len(),
                r@ == before + Seq::new(
                    j as nat,
                    |k: int| Grant {
                        domain: domains@[i as int],
                        action: actions@[k],
                        portfolio: scope,
                    },
                ),
        {
            r.push(Grant { domain: domains[i], action: actions[j], portfolio: scope });
        }
        proof {
            let next = domains@.take(i + 1);
            assert(next.drop_last() =~= domains@.take(i as int));
            assert(r@ =~= rows(next, actions@, scope));
        }
    }
    proof {
        assert(domains@.take(domains@.len() as int) =~= domains@);
    }
    r
}

/// No two roles share a name.
pub proof fn law_role_names_are_distinct()
    ensures
        forall|a: Role, b: Role| #[trigger] a.name() == #[trigger] b.name() ==> a == b,
{
    reveal_strlit("risk_analyst");
    reveal_strlit("head_of_risk");
    reveal_strlit("operations");
    reveal_strlit("auditor");
    assert forall|a: Role, b: Role| #[trigger] a.name() == #[trigger] b.name() implies a == b by {
        assert(a.name()[0] == b.name()[0]);
    }
}

/// What some rows hold: each of the actions on each of the domains, on the
/// scope, and nothing else.
proof fn lemma_rows_hold(domains: Seq<Domain>, actions: Seq<Action>, scope: Option<i64>, g: Grant)
    ensures
        rows(domains, actions, scope).contains(g) <==> (domains.contains(g.domain)
            && actions.contains(g.action) && g.portfolio == scope),
    decreases domains.len(),
{
    if domains.len() > 0 {
        lemma_rows_hold(domains.drop_last(), actions, scope, g);
        let all = rows(domains, actions, scope);
        let head = rows(domains.drop_last(), actions, scope);
        let tail = Seq::new(
            actions.len(),
            |i: int| Grant { domain: domains.last(), action: actions[i], portfolio: scope },
        );
        assert(all == head + tail);
        if all.contains(g) {
            let k = all.index_of(g);
            if k < head.len() {
                assert(head[k] == g);
                assert(head.contains(g));
                let m = domains.drop_last().index_of(g.domain);
                assert(domains[m] == g.domain);
            } else {
                assert(tail[k - head.len()] == g);
                assert(domains[domains.len() - 1] == g.domain);
                assert(actions[k - head.len()] == g.action);
            }
        }
        if domains.contains(g.domain) && actions.contains(g.action) && g.portfolio == scope {
            if g.domain == domains.last() {
                let a = actions.index_of(g.action);
                assert(all[head.len() + a] == g);
            } else {
                let m = domains.index_of(g.domain);
                assert(domains.drop_last()[m] == g.domain);
                let k = head.index_of(g);
                assert(all[k] == g);
            }
        }
    }
}

/// What a role is made of, row by row: analysts see and export everything but
/// the shareholder register, the head of risk sees and exports everything and
/// configures reference data, operations import the four daily feeds and see
/// reference data, auditors see everything. Every row is on the scope asked
/// for.
pub proof fn law_what_a_role_holds(role: Role, scope: Option<i64>, g: Grant)
    ensures
        role.template(scope).contains(g) <==> g.portfolio == scope && (match role {
            Role::RiskAnalyst => g.domain != Domain::Shareholders && (g.action is View || g.action
                is Export),
            Role::HeadOfRisk => g.action is View || g.action is Export || (g.domain
                == Domain::Reference && g.action is Configure),
            Role::Operations => (g.action is Import && g.domain != Domain::Shareholders && g.domain
                != Domain::Reference) || (g.action is View && g.domain == Domain::Reference),
            Role::Auditor => g.action is View,
        }),
{
    let five = seq![
        Domain::Positions,
        Domain::Nav,
        Domain::Transactions,
        Domain::MarketData,
        Domain::Reference,
    ];
    let four = seq![Domain::Positions, Domain::Nav, Domain::Transactions, Domain::MarketData];
    let both = seq![Action::View, Action::Export];
    let import = seq![Action::Import];
    let view = seq![Action::View];
    assert(five[0] is Positions && five[1] is Nav && five[2] is Transactions && five[3]
        is MarketData && five[4] is Reference);
    assert(four[0] is Positions && four[1] is Nav && four[2] is Transactions && four[3]
        is MarketData);
    let six = Domain::every();
    assert(six[0] is Positions && six[1] is Nav && six[2] is Transactions && six[3] is Shareholders
        && six[4] is MarketData && six[5] is Reference);
    assert(both[0] is View && both[1] is Export && import[0] is Import && view[0] is View);
    lemma_rows_hold(five, both, scope, g);
    lemma_rows_hold(six, both, scope, g);
    lemma_rows_hold(four, import, scope, g);
    lemma_rows_hold(six, view, scope, g);
    if role is HeadOfRisk {
        lemma_push(
            rows(six, both, scope),
            (Grant { domain: Domain::Reference, action: Action::Configure, portfolio: scope }),
            g,
        );
    }
    if role is Operations {
        lemma_push(
            rows(four, import, scope),
            (Grant { domain: Domain::Reference, action: Action::View, portfolio: scope }),
            g,
        );
    }
}

proof fn lemma_push(s: Seq<Grant>, last: Grant, g: Grant)
    ensures
        s.push(last).contains(g) <==> s.contains(g) || g == last,
{
    let t = s.push(last);
    if s.contains(g) {
        assert(t[s.index_of(g)] == g);
    }
    assert(t[s.len() as int] == last);
}

/// The head of risk is permitted whatever an analyst or an auditor is, on the
/// same scope.
pub proof fn law_head_of_risk_sees_what_others_see(
    scope: Option<i64>,
    domain: Domain,
    action: Action,
    portfolio: Option<i64>,
)
    ensures
        super::model::permits(
            super::model::resolved(Role::RiskAnalyst.template(scope)),
            domain,
            action,
            portfolio,
        ) ==> super::model::permits(
            super::model::resolved(Role::HeadOfRisk.template(scope)),
            domain,
            action,
            portfolio,
        ),
        super::model::permits(
            super::model::resolved(Role::Auditor.template(scope)),
            domain,
            action,
            portfolio,
        ) ==> super::model::permits(
            super::model::resolved(Role::HeadOfRisk.template(scope)),
            domain,
            action,
            portfolio,
        ),
{
    let head = Role::HeadOfRisk.template(scope);
    assert forall|rows: Seq<Grant>, g: Grant|
        #![trigger super::model::resolved(rows).contains(g)]
        (rows == Role::RiskAnalyst.template(scope) || rows == Role::Auditor.template(scope))
            && super::model::resolved(rows).contains(g) implies super::model::resolved(
        head,
    ).contains(g) by {
        let i = choose|i: int|
            0 <= i < rows.len() && super::model::brings(#[trigger] rows[i], g);
        let held = rows[i];
        assert(rows.contains(held));
        law_what_a_role_holds(Role::RiskAnalyst, scope, held);
        law_what_a_role_holds(Role::Auditor, scope, held);
        law_what_a_role_holds(Role::HeadOfRisk, scope, held);
        let k = head.index_of(held);
        assert(super::model::brings(head[k], g));
    }
}

/// What roles are stored as, and that the list of them is complete.
pub proof fn law_what_roles_are_called()
    ensures
        Role::RiskAnalyst.name() == "risk_analyst"@,
        Role::HeadOfRisk.name() == "head_of_risk"@,
        Role::Operations.name() == "operations"@,
        Role::Auditor.name() == "auditor"@,
        Role::every().len() == 4,
        Role::every()[0] is RiskAnalyst && Role::every()[1] is HeadOfRisk
            && Role::every()[2] is Operations && Role::every()[3] is Auditor,
{
}

} // verus!
