//! Reference data: contract specs, portfolio codes, and which portfolios a
//! principal gets to see.

use crate::auth::model::PortfolioScope;
use crate::futures::PriceConvention;
use crate::number::Number;
use crate::order::pick_rows;
use vstd::prelude::*;

verus! {

/// The stored spec of a futures contract.
#[derive(Debug, Clone)]
pub struct FuturesContract {
    pub contract_root: String,
    pub label: String,
    pub category: String,
    pub point_value: Option<Number>,
    pub currency: String,
    pub curve: Option<String>,
    pub price_convention: String,
    pub confirmed: bool,
    pub otc: bool,
}

impl FuturesContract {
    /// Whether a convention is the one that the spec names; a name that is none
    /// counts as decimal.
    pub open spec fn quotes_in(self, c: PriceConvention) -> bool {
        ||| self.price_convention@ == c.name()
        ||| c is Decimal && forall|x: PriceConvention| self.price_convention@ != #[trigger] x.name()
    }

    /// The convention that the spec names, or decimal.
    pub fn convention(&self) -> (r: PriceConvention)
        ensures
            self.quotes_in(r),
    {
        match PriceConvention::parse(self.price_convention.as_str()) {
            Some(c) => c,
            None => {
                proof {
                    assert forall|x: PriceConvention| self.price_convention@
                        != #[trigger] x.name() by {
                        assert(None::<PriceConvention> != Some(x));
                    }
                }
                PriceConvention::Decimal
            },
        }
    }
}

/// An external identifier of a portfolio, for upload auto-routing.
#[derive(Debug, Clone)]
pub struct PortfolioCode {
    pub portfolio_id: i64,
    pub source: String,
    pub code: String,
}

/// Which of some portfolios fall within a scope. It filters rather than
/// authorizes - it answers "what may I see", so a denial is not an error.
pub fn visible(ids: &[i64], scope: &PortfolioScope) -> (r: Vec<usize>)
    ensures
        crate::order::picks(r@, ids@.map_values(|id: i64| scope.reaches(id))),
{
    let mut wanted: Vec<bool> = Vec::new();
    for i in 0..ids.len()
        invariant
            wanted@.len() == i,
            forall|k: int| 0 <= k < i ==> wanted@[k] == scope.reaches(ids@[k]),
    {
        wanted.push(scope.contains(ids[i]));
    }
    assert(wanted@ =~= ids@.map_values(|id: i64| scope.reaches(id)));
    pick_rows(&wanted)
}

/// A spec quotes in thirty-seconds exactly when it says so; any other name is
/// read as decimal.
pub proof fn law_only_thirty_seconds_need_to_be_named(c: FuturesContract)
    ensures
        c.quotes_in(PriceConvention::Th32) <==> c.price_convention@ == "th32"@,
        c.quotes_in(PriceConvention::Decimal) <==> c.price_convention@ != "th32"@,
{
    reveal_strlit("th32");
    reveal_strlit("decimal");
    assert(PriceConvention::Th32.name() == "th32"@ && PriceConvention::Decimal.name()
        == "decimal"@);
    assert("th32"@.len() != "decimal"@.len());
}

} // verus!
