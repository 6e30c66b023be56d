//! Bond yields: when a bond can be priced at all.

use crate::date::Date;
use crate::number::Number;
use vstd::prelude::*;

verus! {

/// Whether a bond has a yield to look for: one or two coupons a year, a price
/// above zero, a coupon not below zero, and a maturity after the day.
pub open spec fn priceable(
    clean_price: Number,
    coupon_pct: Number,
    freq: u32,
    asof: Date,
    maturity: Date,
) -> bool {
    &&& freq == 1 || freq == 2
    &&& !clean_price.at_most(Number { bits: 0 })
    &&& !coupon_pct.negative()
    &&& maturity.number() > asof.number()
}

/// The days to maturity of a bond that has a yield to look for; none where the
/// frequency is not 1 or 2, the price is zero or less, the coupon is below
/// zero, or the bond has matured.
pub fn days_to_maturity(
    clean_price: Number,
    coupon_pct: Number,
    freq: u32,
    asof: Date,
    maturity: Date,
) -> (r: Option<i64>)
    ensures
        r == if priceable(clean_price, coupon_pct, freq, asof, maturity) {
            Some((maturity.number() - asof.number()) as i64)
        } else {
            None
        },
{
    if !(freq == 1 || freq == 2) || clean_price.is_at_most(&Number::zero())
        || coupon_pct.is_negative() {
        return None;
    }
    let days: i64 = maturity.day_count() as i64 - asof.day_count() as i64;
    if days <= 0 {
        return None;
    }
    Some(days)
}

/// Whether a price lies within the range that the yields looked at span: no
/// higher than at the lowest yield, no lower than at the highest.
pub fn in_bracket(clean_price: Number, at_lowest: Number, at_highest: Number) -> (r: bool)
    ensures
        r == !(at_lowest.below(clean_price) || clean_price.below(at_highest)),
{
    !(at_lowest.is_below(&clean_price) || clean_price.is_below(&at_highest))
}

/// A bond has a yield to look for only with one or two coupons a year, a price
/// that is not at or below zero, a coupon that is not below zero, and a maturity
/// that is still to come.
pub proof fn law_what_has_a_yield(
    clean_price: Number,
    coupon_pct: Number,
    freq: u32,
    asof: Date,
    maturity: Date,
)
    ensures
        priceable(clean_price, coupon_pct, freq, asof, maturity) <==> (freq == 1 || freq == 2)
            && !(clean_price.negative() || (clean_price.finite() && clean_price.in_smallest_units()
            == 0)) && !coupon_pct.negative() && asof.number() < maturity.number(),
{
    if clean_price.finite() {
        crate::number::law_signs_are_numeric(clean_price);
    }
    crate::number::law_what_the_bits_say(clean_price);
}

} // verus!
