//! The only route from a principal to a query.

use crate::auth::access::{Access, ActionMarker, Denied, DeniedKind, DomainMarker, GlobalAccess};
use crate::auth::model::{Action, AuthCtx, Domain, Grant};
use vstd::prelude::*;

verus! {

/// How a request on one portfolio is answered: not at all when it is
/// permitted, else with a refusal that tells a portfolio the principal may
/// know of from one that they may not.
pub open spec fn refusal(
    held: Set<Grant>,
    domain: Domain,
    action: Action,
    portfolio_id: i64,
) -> Option<Denied> {
    if crate::auth::model::permits(held, domain, action, Some(portfolio_id)) {
        None
    } else {
        Some(
            Denied {
                domain,
                action,
                portfolio: Some(portfolio_id),
                kind: if crate::auth::model::touches(held, portfolio_id) {
                    DeniedKind::NotGranted
                } else {
                    DeniedKind::OutOfScope
                },
            },
        )
    }
}

/// How a request on an instance-wide resource is answered.
pub open spec fn global_refusal(held: Set<Grant>, domain: Domain, action: Action) -> Option<
    Denied,
> {
    if crate::auth::model::permits(held, domain, action, None) {
        None
    } else {
        Some(Denied { domain, action, portfolio: None, kind: DeniedKind::NotGranted })
    }
}

/// A principal's view of the data. A context is required, not optional: there
/// is no unscoped constructor.
pub struct Scoped<'a> {
    ctx: &'a AuthCtx,
}

impl<'a> Scoped<'a> {
    /// Whom the view belongs to.
    pub closed spec fn principal(self) -> AuthCtx {
        *self.ctx
    }

    /// What the principal holds.
    pub open spec fn held(self) -> Set<Grant> {
        self.principal().grants@
    }

    /// The view of one principal.
    pub fn new(ctx: &'a AuthCtx) -> (r: Scoped<'a>)
        ensures
            r.principal() == *ctx,
    {
        Scoped { ctx }
    }

    /// Whom the view belongs to.
    pub fn ctx(&self) -> (r: &AuthCtx)
        ensures
            *r == self.principal(),
    {
        self.ctx
    }

    /// The single runtime chokepoint. Every portfolio-scoped query passes
    /// through here.
    pub fn authorize<D: DomainMarker, A: ActionMarker>(&self, portfolio_id: i64) -> (r: Result<
        Access<D, A>,
        Denied,
    >)
        ensures
            match refusal(self.held(), D::DOMAIN, A::ACTION, portfolio_id) {
                None => r is Ok && r->Ok_0.portfolio() == portfolio_id,
                Some(denied) => r == Err::<Access<D, A>, Denied>(denied),
            },
    {
        match self.denial(D::DOMAIN, A::ACTION, portfolio_id) {
            None => Ok(Access::new(portfolio_id)),
            Some(d) => Err(d),
        }
    }

    /// The chokepoint of instance-wide resources.
    pub fn authorize_global<D: DomainMarker, A: ActionMarker>(&self) -> (r: Result<
        GlobalAccess<D, A>,
        Denied,
    >)
        ensures
            match global_refusal(self.held(), D::DOMAIN, A::ACTION) {
                None => r is Ok,
                Some(denied) => r == Err::<GlobalAccess<D, A>, Denied>(denied),
            },
    {
        match self.global_denial(D::DOMAIN, A::ACTION) {
            None => Ok(GlobalAccess::new()),
            Some(d) => Err(d),
        }
    }

    /// Ask without taking a token - used where a denial degrades a component to
    /// `unavailable` rather than failing the request.
    pub fn may<D: DomainMarker, A: ActionMarker>(&self, portfolio_id: i64) -> (r: bool)
        ensures
            r == crate::auth::model::permits(
                self.held(),
                D::DOMAIN,
                A::ACTION,
                Some(portfolio_id),
            ),
    {
        self.denial(D::DOMAIN, A::ACTION, portfolio_id).is_none()
    }

    /// Ask about an instance-wide resource without taking a token.
    pub fn may_global<D: DomainMarker, A: ActionMarker>(&self) -> (r: bool)
        ensures
            r == crate::auth::model::permits(self.held(), D::DOMAIN, A::ACTION, None),
    {
        self.global_denial(D::DOMAIN, A::ACTION).is_none()
    }

    /// Whether the principal's grants allow an action.
    pub fn allows(&self, domain: Domain, action: Action, portfolio: Option<i64>) -> (r: bool)
        ensures
            r == crate::auth::model::permits(self.held(), domain, action, portfolio),
    {
        self.ctx.grants.allows(domain, action, portfolio)
    }

    /// The refusal of a request on one portfolio, if there is one.
    pub fn denial(&self, domain: Domain, action: Action, portfolio_id: i64) -> (r: Option<Denied>)
        ensures
            r == refusal(self.held(), domain, action, portfolio_id),
    {
        if self.ctx.grants.allows(domain, action, Some(portfolio_id)) {
            return None;
        }
        let kind = if self.ctx.grants.any_domain_on(portfolio_id) {
            DeniedKind::NotGranted
        } else {
            DeniedKind::OutOfScope
        };
        Some(Denied { domain, action, portfolio: Some(portfolio_id), kind })
    }

    /// The refusal of a request on an instance-wide resource, if there is one.
    pub fn global_denial(&self, domain: Domain, action: Action) -> (r: Option<Denied>)
        ensures
            r == global_refusal(self.held(), domain, action),
    {
        if self.ctx.grants.allows(domain, action, None) {
            return None;
        }
        Some(Denied { domain, action, portfolio: None, kind: DeniedKind::NotGranted })
    }
}

/// A refusal repeats what was asked, and never gives a hidden portfolio away:
/// it speaks of a missing grant exactly when some grant reaches the portfolio.
pub proof fn law_a_refusal_hides_what_is_out_of_scope(
    held: Set<Grant>,
    domain: Domain,
    action: Action,
    portfolio_id: i64,
)
    ensures
        match refusal(held, domain, action, portfolio_id) {
            None => crate::auth::model::touches(held, portfolio_id),
            Some(d) => d.domain == domain && d.action == action && d.portfolio == Some(portfolio_id)
                && (d.kind is NotGranted <==> crate::auth::model::touches(held, portfolio_id)),
        },
{
    if crate::auth::model::permits(held, domain, action, Some(portfolio_id)) {
        crate::auth::model::law_permitted_portfolios_are_visible(held, domain, action, portfolio_id);
    }
}

/// A principal refused on one portfolio would be refused instance-wide.
pub proof fn law_a_portfolio_is_the_weaker_question(
    held: Set<Grant>,
    domain: Domain,
    action: Action,
    portfolio_id: i64,
)
    requires
        refusal(held, domain, action, portfolio_id) is Some,
    ensures
        global_refusal(held, domain, action) is Some,
{
}

/// A request on a portfolio is refused exactly when no stored row permits it: as
/// out of scope where no row at all reaches the portfolio, and as not granted
/// where one does. On everything it is refused unless a row for everything
/// permits it.
pub proof fn law_what_is_refused_and_how(
    rows: Seq<Grant>,
    domain: Domain,
    action: Action,
    portfolio_id: i64,
)
    ensures
        ({
            let held = crate::auth::model::resolved(rows);
            let known = exists|i: int|
                0 <= i < rows.len() && ((#[trigger] rows[i]).portfolio is None || rows[i].portfolio
                    == Some(portfolio_id));
            let given = exists|i: int|
                0 <= i < rows.len() && (#[trigger] rows[i]).domain == domain && (rows[i].action
                    == action || action is View) && (rows[i].portfolio is None || rows[i].portfolio
                    == Some(portfolio_id));
            let given_on_all = exists|i: int|
                0 <= i < rows.len() && (#[trigger] rows[i]).domain == domain && (rows[i].action
                    == action || action is View) && rows[i].portfolio is None;
            let refused = refusal(held, domain, action, portfolio_id);
            let refused_on_all = global_refusal(held, domain, action);
            &&& refused is None <==> given
            &&& refused matches Some(d) ==> d.domain == domain && d.action == action && d.portfolio
                == Some(portfolio_id) && (d.kind is OutOfScope <==> !known)
            &&& refused_on_all is None <==> given_on_all
            &&& refused_on_all matches Some(d) ==> d.domain == domain && d.action == action
                && d.portfolio is None && d.kind is NotGranted
        }),
{
    crate::auth::model::law_what_stored_rows_permit(rows, domain, action, Some(portfolio_id));
    crate::auth::model::law_what_stored_rows_permit(rows, domain, action, None);
    crate::auth::model::law_who_knows_of_a_portfolio(rows, portfolio_id);
}

} // verus!
