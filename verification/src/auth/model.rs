//! The grant model. Pure - no database, no I/O.

use crate::text::same_text;
use std::collections::BTreeSet;
use vstd::prelude::*;

verus! {

/// A kind of data that access is granted to.
#[derive(Clone, Copy, Debug, PartialEq, Eq, Structural, Hash, PartialOrd, Ord)]
pub enum Domain {
    Positions,
    Nav,
    Transactions,
    Shareholders,
    MarketData,
    Reference,
}

impl Domain {
    /// The name a domain is stored under.
    pub open spec fn name(self) -> Seq<char> {
        match self {
            Domain::Positions => "positions"@,
            Domain::Nav => "nav"@,
            Domain::Transactions => "transactions"@,
            Domain::Shareholders => "shareholders"@,
            Domain::MarketData => "market_data"@,
            Domain::Reference => "reference"@,
        }
    }

    /// The human phrasing of a domain.
    pub open spec fn phrase(self) -> Seq<char> {
        match self {
            Domain::Positions => "positions"@,
            Domain::Nav => "NAV history"@,
            Domain::Transactions => "transactions"@,
            Domain::Shareholders => "shareholder register"@,
            Domain::MarketData => "market data"@,
            Domain::Reference => "reference data"@,
        }
    }

    /// Every domain, in order.
    pub open spec fn every() -> Seq<Domain> {
        seq![
            Domain::Positions,
            Domain::Nav,
            Domain::Transactions,
            Domain::Shareholders,
            Domain::MarketData,
            Domain::Reference,
        ]
    }

    /// Every domain, in order.
    pub fn all() -> (r: Vec<Domain>)
        ensures
            r@ == Domain::every(),
    {
        let r = vec![
            Domain::Positions,
            Domain::Nav,
            Domain::Transactions,
            Domain::Shareholders,
            Domain::MarketData,
            Domain::Reference,
        ];
        assert(r@ =~= Domain::every());
        r
    }

    /// The name a domain is stored under.
    pub fn as_str(&self) -> (r: &'static str)
        ensures
            r@ == self.name(),
    {
        match self {
            Domain::Positions => "positions",
            Domain::Nav => "nav",
            Domain::Transactions => "transactions",
            Domain::Shareholders => "shareholders",
            Domain::MarketData => "market_data",
            Domain::Reference => "reference",
        }
    }

    /// The domain stored under a name.
    pub fn from_str(s: &str) -> (r: Option<Domain>)
        ensures
            forall|d: Domain| r == Some(d) <==> s@ == #[trigger] d.name(),
    {
        proof {
            law_domain_names_are_distinct();
        }
        let all = Domain::all();
        for i in 0..all.len()
            invariant
                all@ == Domain::every(),
                forall|j: int| 0 <= j < i ==> s@ != (#[trigger] all@[j]).name(),
                forall|a: Domain, b: Domain| #[trigger] a.name() == #[trigger] b.name() ==> a == b,
        {
            if same_text(all[i].as_str(), s) {
                return Some(all[i]);
            }
        }
        proof {
            assert forall|d: Domain| s@ != #[trigger] d.name() by {
                let k = Domain::every().index_of(d);
                assert(Domain::every().contains(d)) by {
                    lemma_every_domain_is_listed(d);
                }
                assert(all@[k] == d);
            }
        }
        None
    }

    /// Human phrasing used in denial reasons: "not permitted: {label}".
    pub fn label(&self) -> (r: &'static str)
        ensures
            r@ == self.phrase(),
    {
        match self {
            Domain::Positions => "positions",
            Domain::Nav => "NAV history",
            Domain::Transactions => "transactions",
            Domain::Shareholders => "shareholder register",
            Domain::MarketData => "market data",
            Domain::Reference => "reference data",
        }
    }
}

/// The list of domains leaves none out.
proof fn lemma_every_domain_is_listed(d: Domain)
    ensures
        Domain::every().contains(d),
{
    let e = Domain::every();
    assert(e[0] is Positions && e[1] is Nav && e[2] is Transactions && e[3] is Shareholders && e[4]
        is MarketData && e[5] is Reference);
}

/// No two domains share a name.
pub proof fn law_domain_names_are_distinct()
    ensures
        forall|a: Domain, b: Domain| #[trigger] a.name() == #[trigger] b.name() ==> a == b,
{
    reveal_strlit("positions");
    reveal_strlit("nav");
    reveal_strlit("transactions");
    reveal_strlit("shareholders");
    reveal_strlit("market_data");
    reveal_strlit("reference");
    assert forall|a: Domain, b: Domain| #[trigger] a.name() == #[trigger] b.name() implies a
        == b by {
        assert(a.name().len() == b.name().len());
        assert(a.name()[0] == b.name()[0]);
    }
}

/// Something a principal may be granted to do.
#[derive(Clone, Copy, Debug, PartialEq, Eq, Structural, Hash, PartialOrd, Ord)]
pub enum Action {
    View,
    Export,
    Import,
    Configure,
}

impl Action {
    /// The name an action is stored under.
    pub open spec fn name(self) -> Seq<char> {
        match self {
            Action::View => "view"@,
            Action::Export => "export"@,
            Action::Import => "import"@,
            Action::Configure => "configure"@,
        }
    }

    /// Every action, in order.
    pub open spec fn every() -> Seq<Action> {
        seq![Action::View, Action::Export, Action::Import, Action::Configure]
    }

    /// Every action, in order.
    pub fn all() -> (r: Vec<Action>)
        ensures
            r@ == Action::every(),
    {
        let r = vec![Action::View, Action::Export, Action::Import, Action::Configure];
        assert(r@ =~= Action::every());
        r
    }

    /// The name an action is stored under.
    pub fn as_str(&self) -> (r: &'static str)
        ensures
            r@ == self.name(),
    {
        match self {
            Action::View => "view",
            Action::Export => "export",
            Action::Import => "import",
            Action::Configure => "configure",
        }
    }

    /// The action stored under a name.
    pub fn from_str(s: &str) -> (r: Option<Action>)
        ensures
            forall|a: Action| r == Some(a) <==> s@ == #[trigger] a.name(),
    {
        proof {
            law_action_names_are_distinct();
        }
        let all = Action::all();
        for i in 0..all.len()
            invariant
                all@ == Action::every(),
                forall|j: int| 0 <= j < i ==> s@ != (#[trigger] all@[j]).name(),
                forall|a: Action, b: Action| #[trigger] a.name() == #[trigger] b.name() ==> a == b,
        {
            if same_text(all[i].as_str(), s) {
                return Some(all[i]);
            }
        }
        proof {
            assert forall|a: Action| s@ != #[trigger] a.name() by {
                let e = Action::every();
                assert(all@[0] is View && all@[1] is Export && all@[2] is Import && all@[3] is Configure);
            }
        }
        None
    }
}

/// No two actions share a name.
pub proof fn law_action_names_are_distinct()
    ensures
        forall|a: Action, b: Action| #[trigger] a.name() == #[trigger] b.name() ==> a == b,
{
    reveal_strlit("view");
    reveal_strlit("export");
    reveal_strlit("import");
    reveal_strlit("configure");
    assert forall|a: Action, b: Action| #[trigger] a.name() == #[trigger] b.name() implies a
        == b by {
        assert(a.name().len() == b.name().len());
        assert(a.name()[0] == b.name()[0]);
    }
}

/// One stored permission row. `portfolio: None` means every portfolio, and is
/// also the only thing that reaches instance-wide resources.
#[derive(Clone, Copy, Debug, PartialEq, Eq, Structural, Hash)]
pub struct Grant {
    pub domain: Domain,
    pub action: Action,
    pub portfolio: Option<i64>,
}

/// What a principal may see.
#[derive(Clone, Debug, PartialEq, Eq)]
pub enum PortfolioScope {
    All,
    Only(BTreeSet<i64>),
}

impl PortfolioScope {
    /// Whether a portfolio falls within the scope.
    pub open spec fn reaches(self, id: i64) -> bool {
        match self {
            PortfolioScope::All => true,
            PortfolioScope::Only(ids) => ids@.contains(id),
        }
    }

    /// Whether a portfolio falls within the scope.
    pub fn contains(&self, id: i64) -> (r: bool)
        ensures
            r == self.reaches(id),
    {
        broadcast use vstd::std_specs::btree::group_btree_axioms;

        match self {
            PortfolioScope::All => true,
            PortfolioScope::Only(ids) => ids.contains(&id),
        }
    }
}

/// Whether holding the row `held` is holding `g`: it is that row itself, or
/// the view that every row brings with it.
pub open spec fn brings(held: Grant, g: Grant) -> bool {
    ||| held == g
    ||| g == Grant { action: Action::View, ..held }
}

/// The permissions that some stored rows come to.
pub open spec fn resolved(rows: Seq<Grant>) -> Set<Grant> {
    Set::new(|g: Grant| exists|i: int| 0 <= i < rows.len() && brings(#[trigger] rows[i], g))
}

/// Whether some permissions allow an action. An instance-wide resource is
/// answered only by a wildcard; a portfolio by a wildcard or by its own row.
pub open spec fn permits(
    held: Set<Grant>,
    domain: Domain,
    action: Action,
    portfolio: Option<i64>,
) -> bool {
    ||| held.contains(Grant { domain, action, portfolio: None })
    ||| portfolio is Some && held.contains(Grant { domain, action, portfolio })
}

/// Whether some permissions reach a portfolio under any domain at all.
pub open spec fn touches(held: Set<Grant>, portfolio_id: i64) -> bool {
    exists|g: Grant| #[trigger]
        held.contains(g) && (g.portfolio is None || g.portfolio == Some(portfolio_id))
}

/// A principal's resolved permissions. The `view` implication is expanded
/// once, so that `allows` is a lookup and cannot drift between call sites.
#[derive(Debug)]
pub struct GrantSet {
    entries: Vec<Grant>,
    wildcard_any: bool,
}

impl Clone for GrantSet {
    fn clone(&self) -> (r: Self)
        ensures
            r@ == self@,
    {
        proof {
            use_type_invariant(self);
        }
        let entries = self.entries.clone();
        assert(entries@ =~= self.entries@);
        GrantSet { entries, wildcard_any: self.wildcard_any }
    }
}

impl Default for GrantSet {
    /// No permissions at all.
    fn default() -> (r: Self)
        ensures
            r@ == Set::<Grant>::empty(),
    {
        let r = GrantSet { entries: Vec::new(), wildcard_any: false };
        assert(r@ =~= Set::<Grant>::empty());
        r
    }
}

impl View for GrantSet {
    type V = Set<Grant>;

    closed spec fn view(&self) -> Set<Grant> {
        self.entries@.to_set()
    }
}

impl GrantSet {
    #[verifier::type_invariant]
    spec fn inv(self) -> bool {
        &&& self.entries@.no_duplicates()
        &&& self.wildcard_any == exists|i: int|
            0 <= i < self.entries@.len() && (#[trigger] self.entries@[i]).portfolio is None
    }

    /// The permissions that some stored rows give.
    pub fn from_grants(grants: Vec<Grant>) -> (r: GrantSet)
        ensures
            r@ == resolved(grants@),
    {
        let mut entries: Vec<Grant> = Vec::new();
        let mut wildcard_any: bool = false;
        for i in 0..grants.len()
            invariant
                entries@.no_duplicates(),
                wildcard_any == exists|j: int|
                    0 <= j < entries@.len() && (#[trigger] entries@[j]).portfolio is None,
                forall|g: Grant| #[trigger]
                    entries@.contains(g) <==> exists|j: int|
                        0 <= j < i && brings(#[trigger] grants@[j], g),
        {
            let g = grants[i];
            let ghost before = entries@;
            insert_once(&mut entries, g);
            let ghost between = entries@;
            if g.action != Action::View {
                insert_once(&mut entries, Grant { action: Action::View, ..g });
            }
            proof {
                assert forall|h: Grant| #[trigger]
                    entries@.contains(h) <==> exists|j: int|
                        0 <= j < i + 1 && brings(#[trigger] grants@[j], h) by {
                    assert(entries@.contains(h) <==> before.contains(h) || brings(g, h));
                    if before.contains(h) {
                        let j = choose|j: int| 0 <= j < i && brings(#[trigger] grants@[j], h);
                        assert(brings(grants@[j], h));
                    }
                    if brings(g, h) {
                        assert(brings(grants@[i as int], h));
                    }
                }
                if wildcard_any {
                    let j = choose|j: int|
                        0 <= j < before.len() && (#[trigger] before[j]).portfolio is None;
                    assert(before.contains(before[j]));
                    assert(entries@.contains(before[j]));
                }
                if g.portfolio is None {
                    assert(entries@.contains(g));
                }
                if exists|j: int|
                    0 <= j < entries@.len() && (#[trigger] entries@[j]).portfolio is None {
                    let j = choose|j: int|
                        0 <= j < entries@.len() && (#[trigger] entries@[j]).portfolio is None;
                    assert(entries@.contains(entries@[j]));
                    if before.contains(entries@[j]) {
                        let k = choose|k: int| 0 <= k < before.len() && before[k] == entries@[j];
                        assert(before[k].portfolio is None);
                    }
                }
            }
            if g.portfolio.is_none() {
                wildcard_any = true;
            }
        }
        assert(entries@.to_set() =~= resolved(grants@));
        GrantSet { entries, wildcard_any }
    }

    /// `portfolio: None` asks about an instance-wide resource and is answered
    /// only by a wildcard grant. `Some(id)` is answered by either a wildcard
    /// grant or an explicit row for that id.
    pub fn allows(&self, domain: Domain, action: Action, portfolio: Option<i64>) -> (r: bool)
        ensures
            r == permits(self@, domain, action, portfolio),
    {
        if holds(&self.entries, Grant { domain, action, portfolio: None }) {
            return true;
        }
        match portfolio {
            None => false,
            Some(id) => holds(&self.entries, Grant { domain, action, portfolio: Some(id) }),
        }
    }

    /// Is this portfolio visible under *any* domain? Used to choose between a
    /// 404 (the portfolio is not this principal's to know about) and a 403.
    pub fn any_domain_on(&self, portfolio_id: i64) -> (r: bool)
        ensures
            r == touches(self@, portfolio_id),
    {
        proof {
            use_type_invariant(self);
        }
        if self.wildcard_any {
            proof {
                let i = choose|i: int|
                    0 <= i < self.entries@.len() && (#[trigger] self.entries@[i]).portfolio is None;
                assert(self@.contains(self.entries@[i]));
            }
            return true;
        }
        for i in 0..self.entries.len()
            invariant
                !self.wildcard_any,
                forall|j: int|
                    0 <= j < i ==> (#[trigger] self.entries@[j]).portfolio != Some(portfolio_id),
        {
            if self.entries[i].portfolio == Some(portfolio_id) {
                assert(self@.contains(self.entries@[i as int]));
                return true;
            }
        }
        false
    }

    /// The portfolios this principal may know about.
    pub fn visible_portfolios(&self) -> (r: PortfolioScope)
        ensures
            r is All <==> exists|g: Grant| #[trigger] self@.contains(g) && g.portfolio is None,
            forall|id: i64| #[trigger] r.reaches(id) <==> touches(self@, id),
    {
        broadcast use vstd::std_specs::btree::group_btree_axioms;

        proof {
            use_type_invariant(self);
        }
        if self.wildcard_any {
            proof {
                let i = choose|i: int|
                    0 <= i < self.entries@.len() && (#[trigger] self.entries@[i]).portfolio is None;
                assert(self@.contains(self.entries@[i]));
            }
            return PortfolioScope::All;
        }
        let mut ids: BTreeSet<i64> = BTreeSet::new();
        for i in 0..self.entries.len()
            invariant
                forall|id: i64| #[trigger]
                    ids@.contains(id) <==> exists|j: int|
                        0 <= j < i && (#[trigger] self.entries@[j]).portfolio == Some(id),
        {
            if let Some(id) = self.entries[i].portfolio {
                ids.insert(id);
            }
        }
        proof {
            assert forall|id: i64| #[trigger] ids@.contains(id) <==> touches(self@, id) by {
                if ids@.contains(id) {
                    let j = choose|j: int|
                        0 <= j < self.entries@.len() && (#[trigger] self.entries@[j]).portfolio
                            == Some(id);
                    assert(self@.contains(self.entries@[j]));
                }
                if touches(self@, id) {
                    let g = choose|g: Grant| #[trigger]
                        self@.contains(g) && (g.portfolio is None || g.portfolio == Some(id));
                    let j = choose|j: int| 0 <= j < self.entries@.len() && self.entries@[j] == g;
                    assert(self.entries@[j].portfolio == Some(id));
                }
            }
        }
        PortfolioScope::Only(ids)
    }

    /// Every permission there is, on everything.
    pub fn all_access() -> (r: GrantSet)
        ensures
            forall|d: Domain, a: Action, p: Option<i64>| #[trigger] permits(r@, d, a, p),
            forall|g: Grant| #[trigger] r@.contains(g) <==> g.portfolio is None,
    {
        let mut grants: Vec<Grant> = Vec::new();
        let domains = Domain::all();
        let actions = Action::all();
        for i in 0..domains.len()
            invariant
                domains@ == Domain::every(),
                actions@ == Action::every(),
                grants@.len() == i * 4,
                forall|k: int| 0 <= k < grants@.len() ==> (#[trigger] grants@[k]).portfolio is None,
                forall|d: int, a: int|
                    0 <= d < i && 0 <= a < 4 ==> #[trigger] grants@.contains(
                        Grant { domain: domains@[d], action: actions@[a], portfolio: None },
                    ),
        {
            for j in 0..actions.len()
                invariant
                    i < domains@.len(),
                    domains@ == Domain::every(),
                    actions@ == Action::every(),
                    grants@.len() == i * 4 + j,
                    forall|k: int|
                        0 <= k < grants@.len() ==> (#[trigger] grants@[k]).portfolio is None,
                    forall|d: int, a: int|
                        (0 <= d < i && 0 <= a < 4) || (d == i && 0 <= a < j)
                            ==> #[trigger] grants@.contains(
                            Grant { domain: domains@[d], action: actions@[a], portfolio: None },
                        ),
            {
                let ghost before = grants@;
                grants.push(Grant { domain: domains[i], action: actions[j], portfolio: None });
                proof {
                    assert forall|d: int, a: int|
                        (0 <= d < i && 0 <= a < 4) || (d == i && 0 <= a < j
                            + 1) implies #[trigger] grants@.contains(
                        Grant { domain: domains@[d], action: actions@[a], portfolio: None },
                    ) by {
                        let g = Grant {
                            domain: domains@[d],
                            action: actions@[a],
                            portfolio: None,
                        };
                        if d == i && a == j {
                            assert(grants@[before.len() as int] == g);
                        } else {
                            assert(before.contains(g));
                            let k = choose|k: int| 0 <= k < before.len() && before[k] == g;
                            assert(grants@[k] == g);
                        }
                    }
                }
            }
        }
        let r = GrantSet::from_grants(grants);
        proof {
            assert forall|g: Grant| g.portfolio is None implies #[trigger] r@.contains(g) by {
                lemma_every_domain_is_listed(g.domain);
                let d = choose|d: int|
                    0 <= d < Domain::every().len() && Domain::every()[d] == g.domain;
                let e = Action::every();
                assert(e[0] is View && e[1] is Export && e[2] is Import && e[3] is Configure);
                let a: int = match g.action {
                    Action::View => 0,
                    Action::Export => 1,
                    Action::Import => 2,
                    Action::Configure => 3,
                };
                assert(domains@[d] == g.domain && actions@[a] == g.action);
                assert(grants@.contains(
                    Grant { domain: domains@[d], action: actions@[a], portfolio: None },
                ));
                let k = choose|k: int| 0 <= k < grants@.len() && grants@[k] == g;
                assert(brings(grants@[k], g));
            }
            assert forall|d: Domain, a: Action, p: Option<i64>| #[trigger] permits(r@, d, a, p) by {
                assert(r@.contains(Grant { domain: d, action: a, portfolio: None }));
            }
        }
        r
    }

    /// The permissions, each once, in no particular order.
    pub fn iter(&self) -> (r: &Vec<Grant>)
        ensures
            r@.no_duplicates(),
            r@.to_set() == self@,
    {
        proof {
            use_type_invariant(self);
        }
        &self.entries
    }
}

/// Whether a grant is among some.
fn holds(entries: &Vec<Grant>, g: Grant) -> (r: bool)
    ensures
        r == entries@.contains(g),
{
    for i in 0..entries.len()
        invariant
            forall|j: int| 0 <= j < i ==> entries@[j] != g,
    {
        if entries[i] == g {
            return true;
        }
    }
    false
}

/// Adds a grant unless it is there already.
fn insert_once(entries: &mut Vec<Grant>, g: Grant)
    requires
        old(entries)@.no_duplicates(),
    ensures
        final(entries)@.no_duplicates(),
        forall|h: Grant| #[trigger]
            final(entries)@.contains(h) <==> old(entries)@.contains(h) || h == g,
{
    if !holds(entries, g) {
        let ghost before = entries@;
        entries.push(g);
        proof {
            assert(entries@[before.len() as int] == g);
            assert forall|h: Grant| #[trigger]
                entries@.contains(h) <==> before.contains(h) || h == g by {
                if before.contains(h) {
                    let k = choose|k: int| 0 <= k < before.len() && before[k] == h;
                    assert(entries@[k] == h);
                }
            }
        }
    }
}

/// Everything a request knows about who is making it. Constructed once per
/// request; the only key that opens `Scoped`.
#[derive(Clone, Debug)]
pub struct AuthCtx {
    pub principal_id: i64,
    pub display_name: String,
    pub is_administrator: bool,
    pub grants: GrantSet,
}

impl AuthCtx {
    /// The desktop principal. Not a bypass - a configured identity that
    /// happens to hold every grant, travelling the same code path as everyone
    /// else.
    pub fn desktop() -> (r: AuthCtx)
        ensures
            r.principal_id == 0,
            r.display_name@ == "desktop"@,
            r.is_administrator,
            forall|d: Domain, a: Action, p: Option<i64>| #[trigger] permits(r.grants@, d, a, p),
            forall|g: Grant| #[trigger] r.grants@.contains(g) <==> g.portfolio is None,
    {
        AuthCtx {
            principal_id: 0,
            display_name: "desktop".to_string(),
            is_administrator: true,
            grants: GrantSet::all_access(),
        }
    }
}

/// Holding a grant is holding the view it brings: whatever stored rows permit,
/// they permit seeing too.
pub proof fn law_what_is_permitted_may_be_seen(
    rows: Seq<Grant>,
    domain: Domain,
    action: Action,
    portfolio: Option<i64>,
)
    requires
        permits(resolved(rows), domain, action, portfolio),
    ensures
        permits(resolved(rows), domain, Action::View, portfolio),
{
    assert forall|p: Option<i64>|
        resolved(rows).contains(
            (Grant { domain, action, portfolio: p }),
        ) implies #[trigger] resolved(rows).contains(
        (Grant { domain, action: Action::View, portfolio: p }),
    ) by {
        let g = Grant { domain, action, portfolio: p };
        let i = choose|i: int| 0 <= i < rows.len() && brings(#[trigger] rows[i], g);
        assert(brings(rows[i], (Grant { domain, action: Action::View, portfolio: p })));
    }
}

/// Nothing but seeing is brought: any other permission stands in a stored row,
/// for every portfolio or for the one asked about.
pub proof fn law_only_seeing_is_implied(
    rows: Seq<Grant>,
    domain: Domain,
    action: Action,
    portfolio: Option<i64>,
)
    requires
        permits(resolved(rows), domain, action, portfolio),
        action != Action::View,
    ensures
        rows.contains((Grant { domain, action, portfolio: None })) || rows.contains(
            (Grant { domain, action, portfolio }),
        ),
{
}

/// A permission on everything is one on each portfolio; asking instance-wide
/// is the stronger question.
pub proof fn law_a_wildcard_reaches_every_portfolio(
    held: Set<Grant>,
    domain: Domain,
    action: Action,
    portfolio: Option<i64>,
)
    requires
        permits(held, domain, action, None),
    ensures
        permits(held, domain, action, portfolio),
{
}

/// Rows that each name a portfolio never reach an instance-wide resource, nor
/// a portfolio that none of them names.
pub proof fn law_scoped_rows_stay_in_scope(
    rows: Seq<Grant>,
    domain: Domain,
    action: Action,
    portfolio: Option<i64>,
)
    requires
        forall|i: int| 0 <= i < rows.len() ==> (#[trigger] rows[i]).portfolio is Some,
        permits(resolved(rows), domain, action, portfolio),
    ensures
        portfolio is Some,
        exists|i: int| 0 <= i < rows.len() && (#[trigger] rows[i]).portfolio == portfolio,
{
}

/// Whatever is permitted on a portfolio makes that portfolio visible.
pub proof fn law_permitted_portfolios_are_visible(
    held: Set<Grant>,
    domain: Domain,
    action: Action,
    id: i64,
)
    requires
        permits(held, domain, action, Some(id)),
    ensures
        touches(held, id),
{
    assert(held.contains((Grant { domain, action, portfolio: None })) || held.contains(
        (Grant { domain, action, portfolio: Some(id) }),
    ));
}

/// Adding rows takes nothing away.
pub proof fn law_more_rows_permit_no_less(
    fewer: Seq<Grant>,
    more: Seq<Grant>,
    domain: Domain,
    action: Action,
    portfolio: Option<i64>,
)
    requires
        forall|g: Grant| #[trigger] fewer.contains(g) ==> more.contains(g),
        permits(resolved(fewer), domain, action, portfolio),
    ensures
        permits(resolved(more), domain, action, portfolio),
{
    assert forall|g: Grant| #[trigger] resolved(fewer).contains(g) implies resolved(more).contains(
        g,
    ) by {
        let i = choose|i: int| 0 <= i < fewer.len() && brings(#[trigger] fewer[i], g);
        assert(fewer.contains(fewer[i]));
        let k = more.index_of(fewer[i]);
        assert(brings(more[k], g));
    }
}

/// Storing a resolved set and resolving it again changes nothing.
pub proof fn law_resolving_twice_changes_nothing(rows: Seq<Grant>, again: Seq<Grant>)
    requires
        again.to_set() == resolved(rows),
    ensures
        resolved(again) == resolved(rows),
{
    assert forall|g: Grant| resolved(again).contains(g) <==> resolved(rows).contains(g) by {
        if resolved(again).contains(g) {
            let i = choose|i: int| 0 <= i < again.len() && brings(#[trigger] again[i], g);
            assert(again.to_set().contains(again[i]));
            let k = choose|k: int| 0 <= k < rows.len() && brings(#[trigger] rows[k], again[i]);
            assert(brings(rows[k], g));
        }
        if resolved(rows).contains(g) {
            assert(again.to_set().contains(g));
            let i = again.index_of(g);
            assert(brings(again[i], g));
        }
    }
    assert(resolved(again) =~= resolved(rows));
}

/// What stored rows permit, and all that they permit: an action on a domain is
/// permitted exactly when a row of the domain names the action, or any action
/// where it is only to be seen, and reaches what is asked about - a row without
/// a portfolio everything, any other its own portfolio alone.
pub proof fn law_what_stored_rows_permit(
    rows: Seq<Grant>,
    domain: Domain,
    action: Action,
    portfolio: Option<i64>,
)
    ensures
        permits(resolved(rows), domain, action, portfolio) <==> exists|i: int|
            0 <= i < rows.len() && (#[trigger] rows[i]).domain == domain && (rows[i].action == action
                || action is View) && (rows[i].portfolio is None || (portfolio is Some
                && rows[i].portfolio == portfolio)),
{
    let held = resolved(rows);
    if permits(held, domain, action, portfolio) {
        let g = if held.contains(Grant { domain, action, portfolio: None }) {
            Grant { domain, action, portfolio: None }
        } else {
            Grant { domain, action, portfolio }
        };
        let i = choose|i: int| 0 <= i < rows.len() && brings(#[trigger] rows[i], g);
        assert(rows[i].domain == domain);
    }
    if exists|i: int|
        0 <= i < rows.len() && (#[trigger] rows[i]).domain == domain && (rows[i].action == action
            || action is View) && (rows[i].portfolio is None || (portfolio is Some
            && rows[i].portfolio == portfolio)) {
        let i = choose|i: int|
            0 <= i < rows.len() && (#[trigger] rows[i]).domain == domain && (rows[i].action == action
                || action is View) && (rows[i].portfolio is None || (portfolio is Some
                && rows[i].portfolio == portfolio));
        let g = Grant { domain, action, portfolio: rows[i].portfolio };
        assert(brings(rows[i], g));
        assert(held.contains(g));
    }
}

/// A portfolio is known to whoever holds a row for it or one for everything,
/// whatever the row is about, and to nobody else.
pub proof fn law_who_knows_of_a_portfolio(rows: Seq<Grant>, portfolio_id: i64)
    ensures
        touches(resolved(rows), portfolio_id) <==> exists|i: int|
            0 <= i < rows.len() && ((#[trigger] rows[i]).portfolio is None || rows[i].portfolio
                == Some(portfolio_id)),
{
    let held = resolved(rows);
    if touches(held, portfolio_id) {
        let g = choose|g: Grant| #[trigger]
            held.contains(g) && (g.portfolio is None || g.portfolio == Some(portfolio_id));
        let i = choose|i: int| 0 <= i < rows.len() && brings(#[trigger] rows[i], g);
        assert(rows[i].portfolio == g.portfolio);
    }
    if exists|i: int|
        0 <= i < rows.len() && ((#[trigger] rows[i]).portfolio is None || rows[i].portfolio == Some(
            portfolio_id,
        )) {
        let i = choose|i: int|
            0 <= i < rows.len() && ((#[trigger] rows[i]).portfolio is None || rows[i].portfolio
                == Some(portfolio_id));
        assert(brings(rows[i], rows[i]));
        assert(held.contains(rows[i]));
    }
}

/// What domains and actions are stored as and called, and that the lists of them
/// are complete.
pub proof fn law_what_domains_and_actions_are_called()
    ensures
        Domain::Positions.name() == "positions"@ && Domain::Positions.phrase() == "positions"@,
        Domain::Nav.name() == "nav"@ && Domain::Nav.phrase() == "NAV history"@,
        Domain::Transactions.name() == "transactions"@ && Domain::Transactions.phrase()
            == "transactions"@,
        Domain::Shareholders.name() == "shareholders"@ && Domain::Shareholders.phrase()
            == "shareholder register"@,
        Domain::MarketData.name() == "market_data"@ && Domain::MarketData.phrase()
            == "market data"@,
        Domain::Reference.name() == "reference"@ && Domain::Reference.phrase() == "reference data"@,
        Action::View.name() == "view"@ && Action::Export.name() == "export"@,
        Action::Import.name() == "import"@ && Action::Configure.name() == "configure"@,
        Domain::every().len() == 6 && Action::every().len() == 4,
        forall|d: Domain| #[trigger] Domain::every().contains(d),
        forall|a: Action| #[trigger] Action::every().contains(a),
{
    assert forall|d: Domain| #[trigger] Domain::every().contains(d) by {
        lemma_every_domain_is_listed(d);
    }
    assert forall|a: Action| #[trigger] Action::every().contains(a) by {
        let all = Action::every();
        match a {
            Action::View => assert(all[0] == a),
            Action::Export => assert(all[1] == a),
            Action::Import => assert(all[2] == a),
            Action::Configure => assert(all[3] == a),
        }
    }
}

/// A scope reaches the portfolios that it names, or all.
pub proof fn law_what_a_scope_reaches(ids: BTreeSet<i64>, id: i64)
    ensures
        PortfolioScope::All.reaches(id),
        PortfolioScope::Only(ids).reaches(id) <==> ids@.contains(id),
{
}

} // verus!
