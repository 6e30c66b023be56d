//! Value at risk: the methods, when a figure is owed, and the order that the
//! historical method reads its quantile from.

use crate::number::Number;
use crate::order::stable_order;
use vstd::prelude::*;

verus! {

/// How value at risk is estimated.
#[derive(Debug, Clone, Copy, PartialEq, Eq, Structural)]
pub enum VarMethod {
    Historical,
    Gaussian,
    CornishFisher,
}

/// The bits of 0.5 and 1.
pub const HALF: u64 = 0x3FE0_0000_0000_0000;

pub const WHOLE: u64 = 0x3FF0_0000_0000_0000;

/// Whether VaR and ES can be taken at all: at least two returns, a confidence
/// in (0.5, 1), a horizon of at least a day.
pub fn var_is_defined(returns: usize, confidence: Number, horizon_days: Number) -> (r: bool)
    ensures
        r == !(returns < 2 || confidence.at_most(Number { bits: HALF }) || (Number {
            bits: WHOLE,
        }).at_most(confidence) || horizon_days.below(Number { bits: WHOLE })),
{
    let half = Number { bits: HALF };
    let whole = Number { bits: WHOLE };
    !(returns < 2 || confidence.is_at_most(&half) || whole.is_at_most(&confidence)
        || horizon_days.is_below(&whole))
}

/// The positions of some figures in their total order.
pub open spec fn places(figures: Seq<Number>) -> Seq<int> {
    figures.map_values(|x: Number| x.total_place())
}

/// The figures in ascending order.
pub fn ascending(figures: &[Number]) -> (r: Vec<Number>)
    ensures
        exists|order: Seq<usize>|
            #![trigger crate::order::in_order(places(figures@), order)]
            crate::order::in_order(places(figures@), order) && r@ == Seq::new(
                figures@.len(),
                |i: int| figures@[order[i] as int],
            ),
        r@.len() == figures@.len(),
        forall|i: int, j: int|
            0 <= i < j < r@.len() ==> (#[trigger] r@[i]).total_place() <= (
            #[trigger] r@[j]).total_place(),
{
    let mut keys: Vec<i64> = Vec::new();
    for i in 0..figures.len()
        invariant
            keys@.len() == i,
            forall|k: int| 0 <= k < i ==> (#[trigger] keys@[k]) == figures@[k].total_place(),
    {
        keys.push(figures[i].total_key());
    }
    assert(crate::order::as_ints(keys@) =~= places(figures@));
    let order = stable_order(&keys);
    let mut out: Vec<Number> = Vec::new();
    for i in 0..order.len()
        invariant
            crate::order::in_order(places(figures@), order@),
            out@.len() == i,
            forall|k: int| 0 <= k < i ==> (#[trigger] out@[k]) == figures@[order@[k] as int],
    {
        out.push(figures[order[i]]);
    }
    assert(out@ =~= Seq::new(figures@.len(), |i: int| figures@[order@[i] as int]));
    assert forall|i: int, j: int| 0 <= i < j < out@.len() implies (#[trigger] out@[i]).total_place()
        <= (#[trigger] out@[j]).total_place() by {
        assert(crate::order::precedes(places(figures@), order@[i] as int, order@[j] as int));
    }
    out
}

/// The figures in ascending order are the same figures: as many, none lower
/// than one before it.
pub proof fn law_ascending_figures_go_up(figures: Seq<Number>, order: Seq<usize>, i: int, j: int)
    requires
        crate::order::in_order(places(figures), order),
        0 <= i < j < figures.len(),
    ensures
        order.len() == figures.len(),
        order[i] < figures.len() && order[j] < figures.len(),
        !figures[order[j] as int].below(figures[order[i] as int]),
{
    let keys = places(figures);
    assert(order[i] < keys.len() && order[j] < keys.len());
    assert(crate::order::precedes(keys, order[i] as int, order[j] as int));
    crate::number::law_the_total_order_refines_comparison(
        figures[order[j] as int],
        figures[order[i] as int],
    );
}

/// A confidence lies between a half and one.
pub proof fn law_what_the_bounds_of_a_confidence_are()
    ensures
        crate::binary64::exactly(Number { bits: HALF }, 1, 2),
        crate::binary64::exactly(Number { bits: WHOLE }, 1, 1),
{
    vstd::arithmetic::power2::lemma2_to64();
    vstd::arithmetic::power2::lemma2_to64_rest();
    crate::binary64::lemma_exactly(Number { bits: HALF }, 1021, 0x10000000000000, 53, 1, 2);
    crate::binary64::lemma_exactly(Number { bits: WHOLE }, 1022, 0x10000000000000, 52, 1, 1);
}

} // verus!
