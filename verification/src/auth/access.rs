//! The capability token. `Access<D, A>` cannot be constructed outside
//! `Scoped::authorize`, so a method that demands one is a method whose
//! permission check provably ran. The marker types make the domain and action
//! part of the type, so a NAV authorization cannot be handed to a positions
//! query.

use super::model::{Action, Domain};
use crate::text::signed_decimal_of;
use std::marker::PhantomData;
use vstd::prelude::*;
use vstd::string::*;

verus! {

/// A type that stands for a domain.
pub trait DomainMarker {
    const DOMAIN: Domain;
}

/// A type that stands for an action.
pub trait ActionMarker {
    const ACTION: Action;
}

/// Proof that `(D, A)` was authorized for this portfolio.
#[derive(Debug)]
pub struct Access<D: DomainMarker, A: ActionMarker> {
    portfolio_id: i64,
    _d: PhantomData<D>,
    _a: PhantomData<A>,
}

impl<D: DomainMarker, A: ActionMarker> Access<D, A> {
    /// The portfolio the token was issued for.
    pub closed spec fn portfolio(self) -> i64 {
        self.portfolio_id
    }

    pub(crate) fn new(portfolio_id: i64) -> (r: Self)
        ensures
            r.portfolio() == portfolio_id,
    {
        Access { portfolio_id, _d: PhantomData, _a: PhantomData }
    }

    /// The portfolio the token was issued for.
    pub fn portfolio_id(&self) -> (r: i64)
        ensures
            r == self.portfolio(),
    {
        self.portfolio_id
    }
}

/// Proof that `(D, A)` was authorized instance-wide.
#[derive(Debug)]
pub struct GlobalAccess<D: DomainMarker, A: ActionMarker> {
    _d: PhantomData<D>,
    _a: PhantomData<A>,
}

impl<D: DomainMarker, A: ActionMarker> GlobalAccess<D, A> {
    pub(crate) fn new() -> Self {
        GlobalAccess { _d: PhantomData, _a: PhantomData }
    }
}

/// Why a request was turned away.
#[derive(Debug, Clone, Copy, PartialEq, Eq, Structural)]
pub enum DeniedKind {
    /// The principal holds no grant of any domain on this portfolio, so the
    /// portfolio is not theirs to know about - the caller renders 404.
    OutOfScope,
    /// The portfolio is visible, this domain or action is not - 403.
    NotGranted,
}

/// A request turned away. It is no error of the standard kind, so that no
/// blanket conversion can turn a denial into an internal failure.
#[derive(Debug, Clone, Copy, PartialEq, Eq, Structural)]
pub struct Denied {
    pub domain: Domain,
    pub action: Action,
    pub portfolio: Option<i64>,
    pub kind: DeniedKind,
}

/// How an action is written in a denial.
pub open spec fn action_word(a: Action) -> Seq<char> {
    match a {
        Action::View => "View"@,
        Action::Export => "Export"@,
        Action::Import => "Import"@,
        Action::Configure => "Configure"@,
    }
}

/// How the portfolio of a denial is written.
pub open spec fn portfolio_word(p: Option<i64>) -> Seq<char> {
    match p {
        None => "None"@,
        Some(id) => "Some("@ + crate::text::signed_decimal(id as int) + ")"@,
    }
}

impl Denied {
    /// The reason in words.
    pub open spec fn said(self) -> Seq<char> {
        "not permitted: "@ + self.domain.phrase()
    }

    /// The reason together with what was asked.
    pub open spec fn said_in_full(self) -> Seq<char> {
        self.said() + " ("@ + action_word(self.action) + " on "@ + portfolio_word(self.portfolio)
            + ")"@
    }

    /// The phrasing that travels in an `unavailable` component. It must stay
    /// distinguishable from a missing-data reason such as
    /// "no shareholder register".
    pub fn reason(&self) -> (r: String)
        ensures
            r@ == self.said(),
    {
        let mut r = "not permitted: ".to_string();
        r.append(self.domain.label());
        r
    }

    /// The denial as text, for logs.
    pub fn to_text(&self) -> (r: String)
        ensures
            r@ == self.said_in_full(),
    {
        let mut r = self.reason();
        r.append(" (");
        r.append(match self.action {
            Action::View => "View",
            Action::Export => "Export",
            Action::Import => "Import",
            Action::Configure => "Configure",
        });
        r.append(" on ");
        match self.portfolio {
            None => {
                r.append("None");
            },
            Some(id) => {
                r.append("Some(");
                r.append(signed_decimal_of(id).as_str());
                r.append(")");
            },
        }
        r.append(")");
        assert(r@ =~= self.said_in_full());
        r
    }
}

/// How a denial reads.
pub proof fn law_how_a_denial_reads(d: Denied)
    ensures
        d.said() == "not permitted: "@ + d.domain.phrase(),
        d.portfolio is None ==> d.said_in_full() == d.said() + " ("@ + action_word(d.action)
            + " on "@ + "None"@ + ")"@,
        d.portfolio matches Some(id) ==> d.said_in_full() == d.said() + " ("@ + action_word(
            d.action,
        ) + " on "@ + ("Some("@ + crate::text::signed_decimal(id as int) + ")"@) + ")"@,
        action_word(Action::View) == "View"@ && action_word(Action::Export) == "Export"@,
        action_word(Action::Import) == "Import"@ && action_word(Action::Configure) == "Configure"@,
{
}

} // verus!
