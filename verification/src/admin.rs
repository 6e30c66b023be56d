//! The privileged path: what identity resolution and grant administration read
//! out of stored rows. Everything else goes through `Scoped` and needs an
//! `AuthCtx`; this cannot, since a principal's grants are what *builds* it.

use crate::auth::model::{Action, Domain, Grant};
use vstd::prelude::*;
use vstd::string::*;

verus! {

/// Never a real password hash: it does not parse as one, so verification
/// against it always fails, for any password, until a real one replaces it. A
/// freshly created account is stamped with this and starts out unable to log
/// in at all - there is no default password to forget to change.
///
/// It also marks an account as not yet enrolled wherever that matters.
pub const UNUSABLE_PASSWORD_HASH: &'static str = "!unusable!";

/// A stored account.
#[derive(Clone, Debug)]
pub struct UserRow {
    pub id: i64,
    pub email: String,
    pub display_name: String,
    pub password_hash: String,
    pub is_administrator: bool,
    pub disabled: bool,
}

/// Whether an account may try to log in, and when next.
#[derive(Clone, Copy, Debug, PartialEq, Eq, Structural)]
pub struct LockState {
    pub locked: bool,
    pub failures: i32,
    pub retry_after_secs: i64,
}

impl LockState {
    /// The state that a row of login attempts stands for: its failures and the
    /// seconds until it may be tried again. An account without a row has never
    /// failed.
    pub fn from_attempts(attempts: Option<(i32, i64)>) -> (r: LockState)
        ensures
            match attempts {
                None => !r.locked && r.failures == 0 && r.retry_after_secs == 0,
                Some((failures, retry)) => r.locked == (retry > 0) && r.failures == failures
                    && r.retry_after_secs == retry,
            },
    {
        match attempts {
            None => LockState { locked: false, failures: 0, retry_after_secs: 0 },
            Some((failures, retry)) => LockState {
                locked: retry > 0,
                failures,
                retry_after_secs: retry,
            },
        }
    }
}

/// A grant as it is stored.
#[derive(Clone, Debug)]
pub struct GrantRow {
    pub domain: String,
    pub action: String,
    pub portfolio: Option<i64>,
}

/// A stored grant that names what there is not. It means that the store and
/// the model have diverged; that is a bug, not user input, so it is loud.
#[derive(Clone, Debug)]
pub enum GrantRowError {
    UnknownDomain(String),
    UnknownAction(String),
}

impl GrantRowError {
    /// The error in words.
    pub open spec fn said(self) -> Seq<char> {
        match self {
            GrantRowError::UnknownDomain(d) => "unknown domain in grants: "@ + d@,
            GrantRowError::UnknownAction(a) => "unknown action in grants: "@ + a@,
        }
    }

    /// The error in words.
    pub fn message(&self) -> (r: String)
        ensures
            r@ == self.said(),
    {
        match self {
            GrantRowError::UnknownDomain(d) => {
                let mut r = "unknown domain in grants: ".to_string();
                r.append(d.as_str());
                r
            },
            GrantRowError::UnknownAction(a) => {
                let mut r = "unknown action in grants: ".to_string();
                r.append(a.as_str());
                r
            },
        }
    }
}

/// Whether a stored row is how a grant is written down.
pub open spec fn writes(row: GrantRow, g: Grant) -> bool {
    &&& row.domain@ == g.domain.name()
    &&& row.action@ == g.action.name()
    &&& row.portfolio == g.portfolio
}

/// Whether a stored row names a domain.
pub open spec fn names_a_domain(row: GrantRow) -> bool {
    exists|d: Domain| row.domain@ == #[trigger] d.name()
}

/// Whether a stored row names an action.
pub open spec fn names_an_action(row: GrantRow) -> bool {
    exists|a: Action| row.action@ == #[trigger] a.name()
}

impl GrantRow {
    /// How a grant is written down.
    pub fn of(g: Grant) -> (r: GrantRow)
        ensures
            writes(r, g),
    {
        GrantRow {
            domain: g.domain.as_str().to_string(),
            action: g.action.as_str().to_string(),
            portfolio: g.portfolio,
        }
    }

    /// The grant that a row stands for. The domain is looked at first.
    pub fn parse(&self) -> (r: Result<Grant, GrantRowError>)
        ensures
            match r {
                Ok(g) => writes(*self, g),
                Err(GrantRowError::UnknownDomain(d)) => !names_a_domain(*self) && d@
                    == self.domain@,
                Err(GrantRowError::UnknownAction(a)) => names_a_domain(*self) && !names_an_action(
                    *self,
                ) && a@ == self.action@,
            },
    {
        match Domain::from_str(self.domain.as_str()) {
            None => {
                proof {
                    assert forall|d: Domain| self.domain@ != #[trigger] d.name() by {
                        assert(None::<Domain> != Some(d));
                    }
                }
                Err(GrantRowError::UnknownDomain(self.domain.clone()))
            },
            Some(domain) => match Action::from_str(self.action.as_str()) {
                None => {
                    proof {
                        assert(self.domain@ == domain.name());
                        assert forall|a: Action| self.action@ != #[trigger] a.name() by {
                            assert(None::<Action> != Some(a));
                        }
                    }
                    Err(GrantRowError::UnknownAction(self.action.clone()))
                },
                Some(action) => Ok(Grant { domain, action, portfolio: self.portfolio }),
            },
        }
    }
}

/// The grants that some rows stand for, or the error of the first row that
/// stands for none.
pub fn grants_of_rows(rows: &Vec<GrantRow>) -> (r: Result<Vec<Grant>, GrantRowError>)
    ensures
        match r {
            Ok(grants) => grants@.len() == rows@.len() && forall|i: int|
                0 <= i < rows@.len() ==> writes(#[trigger] rows@[i], grants@[i]),
            Err(e) => exists|k: int|
                #![trigger rows@[k]]
                0 <= k < rows@.len() && (forall|i: int|
                    0 <= i < k ==> names_a_domain(#[trigger] rows@[i]) && names_an_action(rows@[i]))
                    && (match e {
                    GrantRowError::UnknownDomain(d) => !names_a_domain(rows@[k]) && d@
                        == rows@[k].domain@,
                    GrantRowError::UnknownAction(a) => names_a_domain(rows@[k])
                        && !names_an_action(rows@[k]) && a@ == rows@[k].action@,
                }),
        },
{
    let mut out: Vec<Grant> = Vec::new();
    for i in 0..rows.len()
        invariant
            out@.len() == i,
            forall|j: int| 0 <= j < i ==> writes(#[trigger] rows@[j], out@[j]),
    {
        match rows[i].parse() {
            Ok(g) => {
                out.push(g);
            },
            Err(e) => {
                proof {
                    assert forall|j: int| 0 <= j < i implies names_a_domain(#[trigger] rows@[j])
                        && names_an_action(rows@[j]) by {
                        assert(rows@[j].domain@ == out@[j].domain.name());
                        assert(rows@[j].action@ == out@[j].action.name());
                    }
                }
                return Err(e);
            },
        }
    }
    Ok(out)
}

/// What is written down for a grant is read back as that grant, and as no
/// other.
pub proof fn law_a_stored_grant_is_read_back(row: GrantRow, written: Grant, read: Grant)
    requires
        writes(row, written),
        writes(row, read),
    ensures
        read == written,
{
    crate::auth::model::law_domain_names_are_distinct();
    crate::auth::model::law_action_names_are_distinct();
}

/// What a grant is written down as, and how an unknown one is complained of.
pub proof fn law_how_a_grant_is_written_down(row: GrantRow, g: Grant, text: String)
    ensures
        writes(row, g) <==> row.domain@ == g.domain.name() && row.action@ == g.action.name()
            && row.portfolio == g.portfolio,
        GrantRowError::UnknownDomain(text).said() == "unknown domain in grants: "@ + text@,
        GrantRowError::UnknownAction(text).said() == "unknown action in grants: "@ + text@,
        names_a_domain(row) <==> row.domain@ == "positions"@ || row.domain@ == "nav"@
            || row.domain@ == "transactions"@ || row.domain@ == "shareholders"@ || row.domain@
            == "market_data"@ || row.domain@ == "reference"@,
        names_an_action(row) <==> row.action@ == "view"@ || row.action@ == "export"@ || row.action@
            == "import"@ || row.action@ == "configure"@,
{
    assert(Domain::Positions.name() == "positions"@ && Domain::Nav.name() == "nav"@);
    assert(Domain::Transactions.name() == "transactions"@);
    assert(Domain::Shareholders.name() == "shareholders"@);
    assert(Domain::MarketData.name() == "market_data"@ && Domain::Reference.name()
        == "reference"@);
    assert(Action::View.name() == "view"@ && Action::Export.name() == "export"@);
    assert(Action::Import.name() == "import"@ && Action::Configure.name() == "configure"@);
}

/// The hash of an account that is not enrolled is none that a password could
/// have: those begin with a dollar sign.
pub proof fn law_the_unusable_hash_is_no_hash()
    ensures
        UNUSABLE_PASSWORD_HASH@.len() > 0,
        UNUSABLE_PASSWORD_HASH@[0] == '!',
        !UNUSABLE_PASSWORD_HASH@.contains('$'),
{
    reveal_strlit("!unusable!");
}

} // verus!
