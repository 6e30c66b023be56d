//! Period P&L attribution: which trades a period counts, and how.

use crate::date::Date;
use crate::number::Number;
use crate::order::pick_rows;
use crate::text::{chars_of, same_text, string_of, to_lowercase, trim_chars};
use vstd::prelude::*;

verus! {

/// A trade as the engine needs it. `net_price` includes fees, matching the
/// administrator's average-cost convention; `net_amount` is signed, negative
/// for a buy.
#[derive(Debug, Clone)]
pub struct Trade {
    pub trade_date: Date,
    pub isin: String,
    pub is_buy: bool,
    pub quantity: Number,
    pub net_price: Number,
    pub net_amount: Number,
    pub currency: String,
}

/// What a side in small letters stands for.
pub open spec fn side(lowered: Seq<char>) -> Option<bool> {
    if lowered == "achat"@ {
        Some(true)
    } else if lowered == "vente"@ {
        Some(false)
    } else {
        None
    }
}

/// What a side in small letters stands for.
pub fn side_of(lowered: &str) -> (r: Option<bool>)
    ensures
        r == side(lowered@),
{
    if same_text(lowered, "achat") {
        Some(true)
    } else if same_text(lowered, "vente") {
        proof {
            reveal_strlit("achat");
            reveal_strlit("vente");
            assert("achat"@[0] != "vente"@[0]);
        }
        Some(false)
    } else {
        None
    }
}

/// What a side of ASCII characters stands for: white space around it and the
/// case of its letters do not count.
pub open spec fn plain_side(text: Seq<char>) -> Option<bool> {
    if crate::text::same_but_for_case(crate::text::trimmed(text), "achat"@) {
        Some(true)
    } else if crate::text::same_but_for_case(crate::text::trimmed(text), "vente"@) {
        Some(false)
    } else {
        None
    }
}

/// A text is a side up to case exactly when it is one in small letters.
proof fn lemma_sides_up_to_case(s: Seq<char>)
    ensures
        side(crate::text::smalls(s)) == (if crate::text::same_but_for_case(s, "achat"@) {
            Some(true)
        } else if crate::text::same_but_for_case(s, "vente"@) {
            Some(false)
        } else {
            None
        }),
{
    reveal_strlit("achat");
    reveal_strlit("vente");
    crate::text::lemma_small_up_to_case(s, "achat"@);
    crate::text::lemma_small_up_to_case(s, "vente"@);
}

/// `Achat` -> buy, `Vente` -> sell, case- and whitespace-insensitive.
/// `None` for anything else, which the caller reports rather than guesses.
pub fn is_buy(side: &str) -> (r: Option<bool>)
    ensures
        r == self::side(crate::text::lowercase(crate::text::trimmed(side@))),
        crate::text::ascii(side@) ==> r == plain_side(side@),
{
    proof {
        if crate::text::ascii(side@) {
            crate::text::lemma_ascii_trimmed(side@);
            lemma_sides_up_to_case(crate::text::trimmed(side@));
        }
    }
    let trimmed = string_of(&trim_chars(&chars_of(side)));
    side_of(to_lowercase(trimmed.as_str()).as_str())
}

/// Two sides of ASCII characters that are the same up to case stand for the
/// same, whatever the white space around them.
pub proof fn law_neither_case_nor_white_space_changes_a_side(a: Seq<char>, b: Seq<char>)
    requires
        crate::text::same_but_for_case(crate::text::trimmed(a), crate::text::trimmed(b))
            || crate::text::same_but_for_case(a, b),
    ensures
        plain_side(a) == plain_side(b),
{
    if crate::text::same_but_for_case(a, b) {
        crate::text::lemma_trimmed_up_to_case(a, b);
    }
    let (x, y) = (crate::text::trimmed(a), crate::text::trimmed(b));
    crate::text::lemma_up_to_case_carries_over(x, y, "achat"@);
    crate::text::lemma_up_to_case_carries_over(x, y, "vente"@);
}

/// Which trades a period counts: the first `used` are walked, those before
/// `opening` build the opening basis, and the flows of the period are the buys
/// and sells among the rest.
#[derive(Debug)]
pub struct WalkPlan {
    pub used: usize,
    pub opening: usize,
    pub buys: Vec<usize>,
    pub sells: Vec<usize>,
}

/// Whether a trade is a flow of the period.
pub open spec fn flow(t: Trade, i: int, used: int, t0: Date, buy: bool) -> bool {
    i < used && t.trade_date.number() > t0.number() && t.is_buy == buy
}

/// Which trades are flows of the period.
pub open spec fn flows(trades: Seq<Trade>, used: int, t0: Date, buy: bool) -> Seq<bool> {
    Seq::new(trades.len(), |i: int| flow(trades[i], i, used, t0, buy))
}

/// Whether a plan is the one of a period: the walk takes the trades before the
/// first one after `t1`, and the opening basis those before the first one
/// after `t0`.
pub open spec fn planned(p: WalkPlan, trades: Seq<Trade>, t0: Date, t1: Date) -> bool {
    &&& p.used <= trades.len()
    &&& forall|i: int|
        0 <= i < p.used ==> (#[trigger] trades[i]).trade_date.number() <= t1.number()
    &&& p.used < trades.len() ==> trades[p.used as int].trade_date.number() > t1.number()
    &&& p.opening <= p.used
    &&& forall|i: int|
        0 <= i < p.opening ==> (#[trigger] trades[i]).trade_date.number() <= t0.number()
    &&& p.opening < p.used ==> trades[p.opening as int].trade_date.number() > t0.number()
    &&& crate::order::picks(p.buys@, flows(trades, p.used as int, t0, true))
    &&& crate::order::picks(p.sells@, flows(trades, p.used as int, t0, false))
}

/// Lays out the roll of weighted-average cost over `trades` (which are to be
/// sorted by date). Trades on or before `t0` build the opening basis; trades in
/// `(t0, t1]` accumulate realized P&L and flows. The walk ends with the first
/// trade after `t1`.
pub fn walk_instrument(trades: &[Trade], t0: Date, t1: Date) -> (r: WalkPlan)
    ensures
        planned(r, trades@, t0, t1),
{
    let mut used: usize = 0;
    while used < trades.len() && !t1.is_before(&trades[used].trade_date)
        invariant
            used <= trades@.len(),
            forall|i: int|
                0 <= i < used ==> (#[trigger] trades@[i]).trade_date.number() <= t1.number(),
        decreases trades@.len() - used,
    {
        used = used + 1;
    }
    let mut opening: usize = 0;
    while opening < used && !t0.is_before(&trades[opening].trade_date)
        invariant
            opening <= used <= trades@.len(),
            forall|i: int|
                0 <= i < opening ==> (#[trigger] trades@[i]).trade_date.number() <= t0.number(),
        decreases used - opening,
    {
        opening = opening + 1;
    }
    let mut buys: Vec<bool> = Vec::new();
    let mut sells: Vec<bool> = Vec::new();
    for i in 0..trades.len()
        invariant
            buys@.len() == i,
            sells@.len() == i,
            forall|k: int|
                0 <= k < i ==> buys@[k] == flow(trades@[k], k, used as int, t0, true),
            forall|k: int|
                0 <= k < i ==> sells@[k] == flow(trades@[k], k, used as int, t0, false),
    {
        let inside: bool = i < used && t0.is_before(&trades[i].trade_date);
        buys.push(inside && trades[i].is_buy);
        sells.push(inside && !trades[i].is_buy);
    }
    assert(buys@ =~= flows(trades@, used as int, t0, true));
    assert(sells@ =~= flows(trades@, used as int, t0, false));
    WalkPlan { used, opening, buys: pick_rows(&buys), sells: pick_rows(&sells) }
}

/// What is held of an instrument, and what a unit of it cost on average.
#[derive(Debug, Clone, Copy, PartialEq, Eq, Structural)]
pub struct Basis {
    pub qty: Number,
    pub avg_cost: Number,
}

/// Nothing held.
pub open spec fn flat() -> Basis {
    Basis { qty: Number { bits: 0 }, avg_cost: Number { bits: 0 } }
}

impl Default for Basis {
    /// Nothing held.
    fn default() -> (r: Basis)
        ensures
            r == flat(),
    {
        Basis { qty: Number::zero(), avg_cost: Number::zero() }
    }
}

/// The bits of 2 to the power of -52: a quantity no larger has no average cost.
pub const SMALLEST_QUANTITY: u64 = 0x3CB0_0000_0000_0000;

/// The bits of the figure nearest to 1e-9: a quantity left over no larger is
/// none.
pub const QUANTITY_TOLERANCE: u64 = 0x3E11_2E0B_E826_D695;

/// The basis after a buy.
pub open spec fn bought(qty: Number, average: Number) -> Basis {
    Basis {
        qty,
        avg_cost: if (Number { bits: SMALLEST_QUANTITY }).below(qty.size()) {
            average
        } else {
            Number { bits: 0 }
        },
    }
}

/// The basis after a buy that brings the holding to `qty`; `average` is the
/// total cost over that quantity, which counts only where there is a quantity
/// to speak of.
pub fn after_buy(qty: Number, average: Number) -> (r: Basis)
    ensures
        r == bought(qty, average),
{
    let smallest = Number { bits: SMALLEST_QUANTITY };
    if smallest.is_below(&qty.abs()) {
        Basis { qty, avg_cost: average }
    } else {
        Basis { qty, avg_cost: Number::zero() }
    }
}

/// What a sale takes out of a holding.
#[derive(Debug, Clone, Copy, PartialEq, Eq, Structural)]
pub struct Sale {
    pub taken: Number,
    /// The sale exceeded the holding: the history is incomplete.
    pub oversold: bool,
}

/// What a sale takes out of a holding.
pub open spec fn taken_by(quantity: Number, held: Number, ceiling: Number) -> Sale {
    if ceiling.below(quantity) {
        Sale { taken: held, oversold: true }
    } else {
        Sale { taken: quantity, oversold: false }
    }
}

/// What a sale takes: its quantity, or all that is held where it exceeds the
/// `ceiling`, which is the quantity held with the tolerance on top.
pub fn sale(quantity: Number, held: Number, ceiling: Number) -> (r: Sale)
    ensures
        r == taken_by(quantity, held, ceiling),
{
    if ceiling.is_below(&quantity) {
        Sale { taken: held, oversold: true }
    } else {
        Sale { taken: quantity, oversold: false }
    }
}

/// The basis after a sale.
pub open spec fn sold_down(remaining: Number, avg_cost: Number) -> Basis {
    if (Number { bits: QUANTITY_TOLERANCE }).below(remaining) {
        Basis { qty: remaining, avg_cost }
    } else {
        flat()
    }
}

/// The basis after a sale that leaves `remaining`: the average cost stays, and
/// a holding that is as good as gone is closed.
pub fn after_sale(remaining: Number, avg_cost: Number) -> (r: Basis)
    ensures
        r == sold_down(remaining, avg_cost),
{
    let tolerance = Number { bits: QUANTITY_TOLERANCE };
    if tolerance.is_below(&remaining) {
        Basis { qty: remaining, avg_cost }
    } else {
        Basis { qty: Number::zero(), avg_cost: Number::zero() }
    }
}

/// A sale takes no more than the ceiling, and exceeds the holding exactly when
/// it is cut down to it.
pub proof fn law_a_sale_takes_no_more_than_is_held(
    quantity: Number,
    held: Number,
    ceiling: Number,
)
    requires
        !quantity.nan(),
        held.at_most(ceiling),
    ensures
        taken_by(quantity, held, ceiling).taken.at_most(ceiling),
        taken_by(quantity, held, ceiling).oversold <==> ceiling.below(quantity),
        taken_by(quantity, held, ceiling).oversold ==> taken_by(quantity, held, ceiling).taken
            == held,
{
}

/// No sale leaves less than nothing, and what is closed carries no cost into
/// the next buy.
pub proof fn law_a_closed_holding_carries_no_cost(remaining: Number, avg_cost: Number)
    ensures
        !sold_down(remaining, avg_cost).qty.nan(),
        !sold_down(remaining, avg_cost).qty.negative(),
        !sold_down(remaining, avg_cost).qty.positive() ==> sold_down(remaining, avg_cost)
            == flat(),
{
}

/// Of trades in date order the walk takes exactly those up to the end of the
/// period, and exactly those after its start are flows.
pub proof fn law_sorted_trades_are_split_at_the_period(
    p: WalkPlan,
    trades: Seq<Trade>,
    t0: Date,
    t1: Date,
    i: int,
)
    requires
        forall|a: int, b: int|
            0 <= a < b < trades.len() ==> (#[trigger] trades[a]).trade_date.number() <= (
            #[trigger] trades[b]).trade_date.number(),
        planned(p, trades, t0, t1),
        0 <= i < trades.len() <= usize::MAX,
    ensures
        i < p.used <==> trades[i].trade_date.number() <= t1.number(),
        i < p.used ==> (i >= p.opening <==> trades[i].trade_date.number() > t0.number()),
        p.buys@.contains(i as usize) || p.sells@.contains(i as usize) <==> p.opening <= i < p.used,
{
    if p.used < trades.len() && i > p.used {
        assert(trades[p.used as int].trade_date.number() <= trades[i].trade_date.number());
    }
    if p.opening < p.used && i > p.opening {
        assert(trades[p.opening as int].trade_date.number() <= trades[i].trade_date.number());
    }
    let bought = flows(trades, p.used as int, t0, true);
    let sold = flows(trades, p.used as int, t0, false);
    if p.opening <= i < p.used {
        assert(bought[i] || sold[i]);
    }
    if p.buys@.contains(i as usize) {
        let k = p.buys@.index_of(i as usize);
        assert(bought[p.buys@[k] as int]);
    }
    if p.sells@.contains(i as usize) {
        let k = p.sells@.index_of(i as usize);
        assert(sold[p.sells@[k] as int]);
    }
}

/// What the tolerance allows a sale to take of a holding.
pub open spec fn ceiling_of(held: Number) -> Number {
    crate::binary64::sum(held, Number { bits: QUANTITY_TOLERANCE })
}

/// The basis after one trade: a buy blends its cost in, a sale leaves the
/// average cost as it is.
pub open spec fn stepped(b: Basis, t: Trade) -> Basis {
    if t.is_buy {
        let qty = crate::binary64::sum(b.qty, t.quantity);
        let total = crate::binary64::sum(
            crate::binary64::product(b.avg_cost, b.qty),
            crate::binary64::product(t.quantity, t.net_price),
        );
        bought(qty, crate::binary64::quotient(total, qty))
    } else {
        let taken = taken_by(t.quantity, b.qty, ceiling_of(b.qty)).taken;
        sold_down(crate::binary64::difference(b.qty, taken), b.avg_cost)
    }
}

/// The basis after the first `n` trades.
pub open spec fn rolled(trades: Seq<Trade>, n: int) -> Basis
    decreases n,
{
    if n <= 0 {
        flat()
    } else {
        stepped(rolled(trades, n - 1), trades[n - 1])
    }
}

/// What the sales after `t0` among the first `n` trades realize over their
/// average cost.
pub open spec fn realized(trades: Seq<Trade>, n: int, t0: Date) -> Number
    decreases n,
{
    if n <= 0 {
        Number { bits: 0 }
    } else {
        let so_far = realized(trades, n - 1, t0);
        let (b, t) = (rolled(trades, n - 1), trades[n - 1]);
        if !t.is_buy && t.trade_date.number() > t0.number() {
            let taken = taken_by(t.quantity, b.qty, ceiling_of(b.qty)).taken;
            let gain = crate::binary64::difference(t.net_price, b.avg_cost);
            crate::binary64::sum(so_far, crate::binary64::product(taken, gain))
        } else {
            so_far
        }
    }
}

/// Whether a sale among the first `n` trades exceeds what is held.
pub open spec fn oversells(trades: Seq<Trade>, n: int) -> bool
    decreases n,
{
    if n <= 0 {
        false
    } else {
        let (b, t) = (rolled(trades, n - 1), trades[n - 1]);
        oversells(trades, n - 1) || (!t.is_buy && taken_by(
            t.quantity,
            b.qty,
            ceiling_of(b.qty),
        ).oversold)
    }
}

/// What a walk comes to depends on the trades it takes alone.
proof fn lemma_rolled_alike(a: Seq<Trade>, b: Seq<Trade>, n: int, t0: Date)
    requires
        forall|i: int| 0 <= i < n ==> #[trigger] a[i] == b[i],
    ensures
        rolled(a, n) == rolled(b, n),
        realized(a, n, t0) == realized(b, n, t0),
        oversells(a, n) == oversells(b, n),
    decreases n,
{
    if n > 0 {
        lemma_rolled_alike(a, b, n - 1, t0);
        assert(a[n - 1] == b[n - 1]);
    }
}

/// Whether a figure is zero or more.
pub open spec fn not_below_zero(n: Number) -> bool {
    !n.nan() && !n.negative()
}

/// No walk over quantities that are not below zero leaves a holding that is:
/// neither at its end nor anywhere on the way, the opening basis included.
pub proof fn law_no_holding_falls_below_zero(trades: Seq<Trade>, n: int)
    requires
        n <= trades.len(),
        forall|i: int| 0 <= i < trades.len() ==> not_below_zero((#[trigger] trades[i]).quantity),
    ensures
        not_below_zero(rolled(trades, n).qty),
    decreases n,
{
    if n > 0 {
        law_no_holding_falls_below_zero(trades, n - 1);
        let b = rolled(trades, n - 1);
        let t = trades[n - 1];
        if t.is_buy {
            crate::binary64::law_a_sum_does_not_fall_below_zero(b.qty, t.quantity);
        }
    }
}

/// The trades up to a day, in their order.
pub open spec fn up_to(trades: Seq<Trade>, day: int) -> Seq<Trade>
    decreases trades.len(),
{
    if trades.len() == 0 {
        Seq::empty()
    } else if trades.last().trade_date.number() <= day {
        up_to(trades.drop_last(), day).push(trades.last())
    } else {
        up_to(trades.drop_last(), day)
    }
}

/// Of trades in date order, those up to a day are the first ones.
pub proof fn lemma_up_to_is_a_start(trades: Seq<Trade>, day: int, n: int)
    requires
        0 <= n <= trades.len(),
        forall|i: int| 0 <= i < n ==> (#[trigger] trades[i]).trade_date.number() <= day,
        forall|i: int| n <= i < trades.len() ==> (#[trigger] trades[i]).trade_date.number() > day,
    ensures
        up_to(trades, day) == trades.take(n),
    decreases trades.len(),
{
    if trades.len() > 0 {
        let rest = trades.drop_last();
        let last = trades.len() - 1;
        assert(trades[last] == trades.last());
        if n < trades.len() {
            lemma_up_to_is_a_start(rest, day, n);
            assert(rest.take(n) =~= trades.take(n));
        } else {
            lemma_up_to_is_a_start(rest, day, n - 1);
            assert(rest.take(n - 1).push(trades.last()) =~= trades.take(n));
        }
    } else {
        assert(trades.take(0) =~= Seq::<Trade>::empty());
    }
}

/// Of trades in date order, what is walked is all up to the end of the period.
pub proof fn lemma_walked_is_up_to_the_end(p: WalkPlan, trades: Seq<Trade>, t0: Date, t1: Date)
    requires
        forall|a: int, b: int|
            0 <= a < b < trades.len() ==> (#[trigger] trades[a]).trade_date.number() <= (
            #[trigger] trades[b]).trade_date.number(),
        planned(p, trades, t0, t1),
    ensures
        up_to(trades, t1.number()) == trades.take(p.used as int),
{
    let used = p.used as int;
    assert forall|i: int| used <= i < trades.len() implies (
    #[trigger] trades[i]).trade_date.number() > t1.number() by {
        if i > used {
            assert(trades[used].trade_date.number() <= trades[i].trade_date.number());
        }
    }
    lemma_up_to_is_a_start(trades, t1.number(), used);
}

/// A walk of trades in date order sees nothing after the period: left without
/// the trades after its end, they are walked alike, to the same bases and the
/// same realized gain, and what is walked is exactly what is left.
pub proof fn law_trades_after_the_period_change_nothing(
    trades: Seq<Trade>,
    t0: Date,
    t1: Date,
    p: WalkPlan,
    q: WalkPlan,
)
    requires
        forall|a: int, b: int|
            0 <= a < b < trades.len() ==> (#[trigger] trades[a]).trade_date.number() <= (
            #[trigger] trades[b]).trade_date.number(),
        planned(p, trades, t0, t1),
        planned(q, up_to(trades, t1.number()), t0, t1),
    ensures
        up_to(trades, t1.number()) == trades.take(p.used as int),
        q.used == p.used,
        q.opening == p.opening,
        q.buys@ == p.buys@,
        q.sells@ == p.sells@,
        rolled(up_to(trades, t1.number()), q.used as int) == rolled(trades, p.used as int),
        rolled(up_to(trades, t1.number()), q.opening as int) == rolled(trades, p.opening as int),
        realized(up_to(trades, t1.number()), q.used as int, t0) == realized(
            trades,
            p.used as int,
            t0,
        ),
        oversells(up_to(trades, t1.number()), q.used as int) == oversells(trades, p.used as int),
{
    let used = p.used as int;
    lemma_walked_is_up_to_the_end(p, trades, t0, t1);
    let early = trades.take(used);
    assert(forall|i: int| 0 <= i < used ==> early[i] == #[trigger] trades[i]);
    if q.used < used {
        assert(early[q.used as int] == trades[q.used as int]);
    }
    lemma_rolled_alike(early, trades, used, t0);
    lemma_same_plan(p, q, trades, early, t0, t0, t1);
    lemma_rolled_alike(early, trades, p.opening as int, t0);
}

/// Whether two trades fall on the same day and the same side.
pub open spec fn falls_alike(a: Trade, b: Trade) -> bool {
    a.trade_date.number() == b.trade_date.number() && a.is_buy == b.is_buy
}

/// Two walks over trades that fall alike are laid out alike.
pub proof fn lemma_same_plan(
    p: WalkPlan,
    q: WalkPlan,
    a: Seq<Trade>,
    b: Seq<Trade>,
    start: Date,
    also: Date,
    t1: Date,
)
    requires
        start.number() == also.number(),
        planned(p, a, start, t1),
        planned(q, b, also, t1),
        p.used == q.used,
        forall|i: int| 0 <= i < p.used ==> falls_alike(#[trigger] a[i], b[i]),
    ensures
        p.opening == q.opening,
        p.buys@ == q.buys@,
        p.sells@ == q.sells@,
{
    if p.opening < q.opening {
        assert(falls_alike(a[p.opening as int], b[p.opening as int]));
    }
    if q.opening < p.opening {
        assert(falls_alike(a[q.opening as int], b[q.opening as int]));
    }
    lemma_same_flows(p.buys@, q.buys@, a, b, p.used as int, start, also, true);
    lemma_same_flows(p.sells@, q.sells@, a, b, p.used as int, start, also, false);
}

/// The flows of a period are those of its walk, whatever comes after it.
proof fn lemma_same_flows(
    x: Seq<usize>,
    y: Seq<usize>,
    a: Seq<Trade>,
    b: Seq<Trade>,
    used: int,
    start: Date,
    also: Date,
    buy: bool,
)
    requires
        start.number() == also.number(),
        0 <= used <= a.len(),
        used <= b.len(),
        forall|i: int| 0 <= i < used ==> falls_alike(#[trigger] a[i], b[i]),
        crate::order::picks(x, flows(a, used, start, buy)),
        crate::order::picks(y, flows(b, used, also, buy)),
    ensures
        x == y,
{
    let these = flows(a, used, start, buy);
    let those = flows(b, used, also, buy);
    assert forall|i: int| 0 <= i < y.len() implies (#[trigger] y[i]) < these.len()
        && these[y[i] as int] by {
        assert(those[y[i] as int]);
        assert(falls_alike(a[y[i] as int], b[y[i] as int]));
    }
    assert forall|k: int| 0 <= k < these.len() && #[trigger] these[k] implies y.contains(
        k as usize,
    ) by {
        assert(falls_alike(a[k], b[k]));
        assert(those[k]);
    }
    crate::order::law_rows_are_picked_in_one_way(x, y, these);
}

/// What is walked, and the basis it ends with, do not depend on where the period
/// starts; and the opening basis is the one that a walk up to the start of the
/// period ends with.
pub proof fn law_the_opening_is_the_walk_up_to_the_start(
    trades: Seq<Trade>,
    t0: Date,
    other: Date,
    t1: Date,
    p: WalkPlan,
    q: WalkPlan,
    r: WalkPlan,
)
    requires
        t0.number() <= t1.number(),
        planned(p, trades, t0, t1),
        planned(q, trades, other, t1),
        planned(r, trades, t0, t0),
    ensures
        p.used == q.used,
        p.opening == r.used,
        rolled(trades, p.used as int) == rolled(trades, q.used as int),
        rolled(trades, p.opening as int) == rolled(trades, r.used as int),
{
    if p.used < q.used {
        assert(trades[p.used as int].trade_date.number() <= t1.number());
    }
    if q.used < p.used {
        assert(trades[q.used as int].trade_date.number() <= t1.number());
    }
    if p.opening < r.used {
        assert(trades[p.opening as int].trade_date.number() <= t0.number());
    }
    if r.used < p.opening {
        assert(trades[r.used as int].trade_date.number() <= t0.number());
    }
}

/// A walk takes the trades up to the end of its period and its flows are those
/// after the start, buys and sells apart: of trades in date order each counts
/// exactly where its day says.
pub proof fn law_flows_are_the_trades_of_the_period(
    p: WalkPlan,
    trades: Seq<Trade>,
    t0: Date,
    t1: Date,
    i: usize,
)
    requires
        forall|a: int, b: int|
            0 <= a < b < trades.len() ==> (#[trigger] trades[a]).trade_date.number() <= (
            #[trigger] trades[b]).trade_date.number(),
        planned(p, trades, t0, t1),
        i < trades.len() <= usize::MAX,
    ensures
        p.opening <= p.used <= trades.len(),
        i < p.used <==> trades[i as int].trade_date.number() <= t1.number(),
        p.buys@.contains(i) <==> t0.number() < trades[i as int].trade_date.number() <= t1.number()
            && trades[i as int].is_buy,
        p.sells@.contains(i) <==> t0.number() < trades[i as int].trade_date.number()
            <= t1.number() && !trades[i as int].is_buy,
        p.buys@.no_duplicates() && p.sells@.no_duplicates(),
        t0.number() <= t1.number() ==> (i < p.opening <==> trades[i as int].trade_date.number()
            <= t0.number()),
{
    law_sorted_trades_are_split_at_the_period(p, trades, t0, t1, i as int);
    crate::order::law_wanted_rows_are_picked(p.buys@, flows(trades, p.used as int, t0, true), i);
    crate::order::law_wanted_rows_are_picked(p.sells@, flows(trades, p.used as int, t0, false), i);
}

/// After a buy the average cost is the total over the quantity, unless there is
/// no quantity to speak of.
pub proof fn law_a_buy_averages_the_cost(qty: Number, average: Number, smallest: Number)
    requires
        smallest.bits == SMALLEST_QUANTITY,
    ensures
        crate::binary64::exactly(smallest, 1, 0x10_0000_0000_0000),
        bought(qty, average).qty == qty,
        smallest.below(qty.size()) ==> bought(qty, average).avg_cost == average,
        !smallest.below(qty.size()) ==> bought(qty, average).avg_cost.bits == 0,
{
    vstd::arithmetic::power2::lemma2_to64();
    vstd::arithmetic::power2::lemma2_to64_rest();
    vstd::arithmetic::power2::lemma_pow2_adds(64, 40);
    let digits: int = 0x10_0000_0000_0000;
    assert(vstd::arithmetic::power2::pow2(104) == digits * digits);
    crate::binary64::lemma_exactly(smallest, 970, digits, 104, 1, digits);
}

/// After a sale the average cost stays as it was while more than a billionth is
/// left; with no more than that left nothing is held, at no cost.
pub proof fn law_a_sale_leaves_the_average_cost_alone(
    remaining: Number,
    avg_cost: Number,
    billionth: Number,
)
    requires
        billionth.bits == QUANTITY_TOLERANCE,
    ensures
        crate::binary64::closest(billionth, 1, 1_000_000_000),
        billionth.below(remaining) ==> sold_down(remaining, avg_cost).qty == remaining
            && sold_down(remaining, avg_cost).avg_cost == avg_cost,
        !billionth.below(remaining) ==> sold_down(remaining, avg_cost).qty.bits == 0 && sold_down(
            remaining,
            avg_cost,
        ).avg_cost.bits == 0,
{
    vstd::arithmetic::power2::lemma2_to64();
    vstd::arithmetic::power2::lemma2_to64_rest();
    vstd::arithmetic::power2::lemma_pow2_adds(64, 18);
    crate::binary64::lemma_closest(billionth, 992, 0x112e0be826d695, 82, 1, 1000000000);
}

/// A sale takes what it says, or all that is held where it says more than the
/// ceiling; only then is it oversold.
pub proof fn law_what_a_sale_takes(quantity: Number, held: Number, ceiling: Number)
    ensures
        taken_by(quantity, held, ceiling).oversold <==> ceiling.below(quantity),
        taken_by(quantity, held, ceiling).oversold ==> taken_by(quantity, held, ceiling).taken
            == held,
        !taken_by(quantity, held, ceiling).oversold ==> taken_by(quantity, held, ceiling).taken
            == quantity,
{
}

/// Only these two words are sides.
pub proof fn law_two_words_are_sides(lowered: Seq<char>)
    ensures
        side(lowered) == Some(true) <==> lowered == "achat"@,
        side(lowered) == Some(false) <==> lowered == "vente"@,
{
    reveal_strlit("achat");
    reveal_strlit("vente");
    assert("achat"@[0] != "vente"@[0]);
}

/// Whatever the order of the trades, a walk stops before the first one after the
/// end of its period and its opening before the first after the start; its flows
/// are the trades it takes that fall after the start.
pub proof fn law_a_walk_stops_at_the_first_later_trade(
    p: WalkPlan,
    trades: Seq<Trade>,
    t0: Date,
    t1: Date,
    i: usize,
)
    requires
        planned(p, trades, t0, t1),
        i < trades.len() <= usize::MAX,
    ensures
        p.opening <= p.used <= trades.len(),
        i < p.used ==> trades[i as int].trade_date.number() <= t1.number(),
        i == p.used ==> trades[i as int].trade_date.number() > t1.number(),
        i < p.opening ==> trades[i as int].trade_date.number() <= t0.number(),
        i == p.opening && i < p.used ==> trades[i as int].trade_date.number() > t0.number(),
        p.buys@.contains(i) <==> i < p.used && trades[i as int].trade_date.number() > t0.number()
            && trades[i as int].is_buy,
        p.sells@.contains(i) <==> i < p.used && trades[i as int].trade_date.number() > t0.number()
            && !trades[i as int].is_buy,
{
    crate::order::law_wanted_rows_are_picked(p.buys@, flows(trades, p.used as int, t0, true), i);
    crate::order::law_wanted_rows_are_picked(p.sells@, flows(trades, p.used as int, t0, false), i);
}

} // verus!
