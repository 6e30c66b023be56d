//! The cross-check of the weighted-average cost against the administrator's
//! average-price (PAM) column, for every cash position of a snapshot.
//!
//! Two distinct problems are reported, and they are kept separate because
//! they have different causes: the walked quantity disagreeing with the
//! snapshot means the journal does not hold this instrument's complete
//! history, so no cost-basis comparison is meaningful (an "incomplete trade
//! history" warning); only once the quantity agrees is the cost basis itself
//! compared against PAM (a "PAM drift" warning). Non-fatal: it warns, it never
//! blocks the weekly import.

use super::imports::{OperationRow, PositionRow};
use crate::date::{Date, MIN_YEAR};
use crate::number::Number;
use crate::order::{pick_rows, stable_order};
use crate::pnl::{is_buy, walk_instrument, Trade, WalkPlan};
use crate::text::same_text;
use vstd::prelude::*;
use vstd::string::*;

verus! {

/// What the side of an operation stands for.
pub open spec fn side_said(o: OperationRow) -> Option<bool> {
    crate::pnl::side(crate::text::lowercase(crate::text::trimmed(o.side@)))
}

/// Whether an operation is a trade: it has an instrument, a quantity, a price
/// and a side.
pub open spec fn is_trade(o: OperationRow) -> bool {
    o.isin is Some && o.quantity is Some && o.net_price is Some && side_said(o) is Some
}

/// Whether a trade is the one of an operation. A quantity counts without its
/// sign; a missing amount is zero and a missing currency is empty.
pub open spec fn trade_of(t: Trade, o: OperationRow) -> bool {
    &&& is_trade(o)
    &&& t.trade_date == o.trade_date
    &&& t.isin == o.isin->0
    &&& Some(t.is_buy) == side_said(o)
    &&& t.quantity == o.quantity->0.size()
    &&& t.net_price == o.net_price->0
    &&& t.net_amount == if o.net_amount is Some {
        o.net_amount->0
    } else {
        Number { bits: 0 }
    }
    &&& t.currency@ == if o.currency is Some {
        o.currency->0@
    } else {
        Seq::empty()
    }
}

/// The days of some operations, by which their trades are ordered.
pub open spec fn trade_days(operations: Seq<OperationRow>, rows: Seq<usize>) -> Seq<int> {
    rows.map_values(|k: usize| operations[k as int].trade_date.number())
}

/// Whether trades are those of a journal, in date order; trades of one day keep
/// the order of the journal.
pub open spec fn journal(trades: Seq<Trade>, operations: Seq<OperationRow>) -> bool {
    exists|rows: Seq<usize>, order: Seq<usize>|
        #![trigger crate::order::in_order(trade_days(operations, rows), order)]
        crate::order::picks(rows, operations.map_values(|o: OperationRow| is_trade(o)))
            && crate::order::in_order(trade_days(operations, rows), order) && trades.len()
            == rows.len() && forall|k: int|
            0 <= k < trades.len() ==> trade_of(
                #[trigger] trades[k],
                operations[rows[order[k] as int] as int],
            )
}

/// The trade of an operation, where it is one.
fn make_trade(o: &OperationRow) -> (r: Option<Trade>)
    ensures
        r is Some <==> is_trade(*o),
        r matches Some(t) ==> trade_of(t, *o),
{
    let isin = match &o.isin {
        None => {
            return None;
        },
        Some(s) => s,
    };
    let quantity = match o.quantity {
        None => {
            return None;
        },
        Some(q) => q,
    };
    let net_price = match o.net_price {
        None => {
            return None;
        },
        Some(p) => p,
    };
    let buy: bool = match is_buy(o.side.as_str()) {
        None => {
            return None;
        },
        Some(b) => b,
    };
    Some(
        Trade {
            trade_date: o.trade_date,
            isin: isin.clone(),
            is_buy: buy,
            quantity: quantity.abs(),
            net_price,
            net_amount: match o.net_amount {
                Some(a) => a,
                None => Number::zero(),
            },
            currency: match &o.currency {
                Some(c) => c.clone(),
                None => String::new(),
            },
        },
    )
}

/// The trades of a journal, in date order.
pub fn journal_trades(operations: &[OperationRow]) -> (r: Vec<Trade>)
    ensures
        journal(r@, operations@),
{
    let mut wanted: Vec<bool> = Vec::new();
    for i in 0..operations.len()
        invariant
            wanted@.len() == i,
            forall|k: int| 0 <= k < i ==> wanted@[k] == is_trade(operations@[k]),
    {
        wanted.push(make_trade(&operations[i]).is_some());
    }
    assert(wanted@ =~= operations@.map_values(|o: OperationRow| is_trade(o)));
    let rows = pick_rows(&wanted);
    let mut keys: Vec<i64> = Vec::new();
    for i in 0..rows.len()
        invariant
            wanted@.len() == operations@.len(),
            crate::order::picks(rows@, wanted@),
            keys@.len() == i,
            forall|k: int|
                0 <= k < i ==> (#[trigger] keys@[k])
                    == operations@[rows@[k] as int].trade_date.number(),
    {
        keys.push(operations[rows[i]].trade_date.day_count() as i64);
    }
    assert(crate::order::as_ints(keys@) =~= trade_days(operations@, rows@));
    let order = stable_order(&keys);
    let mut out: Vec<Trade> = Vec::new();
    for i in 0..order.len()
        invariant
            wanted@ == operations@.map_values(|o: OperationRow| is_trade(o)),
            crate::order::picks(rows@, wanted@),
            trade_days(operations@, rows@).len() == rows@.len(),
            crate::order::in_order(trade_days(operations@, rows@), order@),
            out@.len() == i,
            forall|k: int|
                0 <= k < i ==> trade_of(
                    #[trigger] out@[k],
                    operations@[rows@[order@[k] as int] as int],
                ),
    {
        let row: usize = rows[order[i]];
        assert(wanted@[row as int]);
        if let Some(t) = make_trade(&operations[row]) {
            out.push(t);
        }
    }
    out
}

/// The trades of one instrument, in their order.
pub open spec fn own(trades: Seq<Trade>, isin: Seq<char>) -> Seq<Trade>
    decreases trades.len(),
{
    if trades.len() == 0 {
        Seq::empty()
    } else if trades.last().isin@ == isin {
        own(trades.drop_last(), isin).push(trades.last())
    } else {
        own(trades.drop_last(), isin)
    }
}

/// The trades of one instrument, in their order.
fn own_trades(trades: &Vec<Trade>, isin: &String) -> (r: Vec<Trade>)
    ensures
        r@ == own(trades@, isin@),
{
    let mut out: Vec<Trade> = Vec::new();
    for i in 0..trades.len()
        invariant
            out@ == own(trades@.take(i as int), isin@),
    {
        proof {
            assert(trades@.take(i + 1).drop_last() =~= trades@.take(i as int));
        }
        let t = &trades[i];
        if same_text(t.isin.as_str(), isin.as_str()) {
            let copy = Trade {
                trade_date: t.trade_date,
                isin: t.isin.clone(),
                is_buy: t.is_buy,
                quantity: t.quantity,
                net_price: t.net_price,
                net_amount: t.net_amount,
                currency: t.currency.clone(),
            };
            assert(copy == *t);
            out.push(copy);
        }
    }
    assert(trades@.take(trades@.len() as int) =~= trades@);
    out
}

/// The bits of the figure nearest to 1e-9: a holding below it is none.
pub const NO_HOLDING: u64 = 0x3E11_2E0B_E826_D695;

/// Whether a position has a cost to compare: futures have no cost basis, cash
/// rows carry no average price, and an empty holding has nothing to compare.
pub open spec fn comparable(p: PositionRow) -> bool {
    &&& p.asset_type@ == "Action"@ || p.asset_type@ == "Fonds"@ || p.asset_type@ == "Obligation"@
    &&& p.avg_cost is Some
    &&& p.quantity matches Some(q) && !q.size().below(Number { bits: NO_HOLDING })
}

/// Whether a position has a cost to compare.
fn is_comparable(p: &PositionRow) -> (r: bool)
    ensures
        r == comparable(*p),
{
    let kind = p.asset_type.as_str();
    if !(same_text(kind, "Action") || same_text(kind, "Fonds") || same_text(kind, "Obligation")) {
        return false;
    }
    match (p.avg_cost, p.quantity) {
        (Some(_), Some(q)) => !q.abs().is_below(&Number { bits: NO_HOLDING }),
        _ => false,
    }
}

/// One position to compare: its trades, and how they are walked.
#[derive(Debug)]
pub struct PamCheck {
    pub position: usize,
    pub trades: Vec<Trade>,
    pub plan: WalkPlan,
}

/// The first day there is: trades after it are all there are.
pub open spec fn beginning(d: Date) -> bool {
    d@ == crate::date::calendar_day(MIN_YEAR, 1, 1)
}

/// Whether a check is the one of a position: its own trades, walked up to the
/// day of the snapshot. A trade after that day must not feed the comparison.
pub open spec fn check_of(
    c: PamCheck,
    positions: Seq<PositionRow>,
    trades: Seq<Trade>,
    nav_date: Date,
) -> bool {
    &&& c.trades@ == own(trades, positions[c.position as int].isin@)
    &&& exists|start: Date| #[trigger]
        beginning(start) && crate::pnl::planned(c.plan, c.trades@, start, nav_date)
}

/// The rows that checks are of.
pub open spec fn checked_rows(checks: Seq<PamCheck>) -> Seq<usize> {
    checks.map_values(|c: PamCheck| c.position)
}

/// Whether checks are those of a snapshot against a journal: one for each
/// position that has a cost to compare, in order.
pub open spec fn checks_of(
    checks: Seq<PamCheck>,
    nav_date: Date,
    positions: Seq<PositionRow>,
    operations: Seq<OperationRow>,
) -> bool {
    &&& crate::order::picks(
        checked_rows(checks),
        positions.map_values(|p: PositionRow| comparable(p)),
    )
    &&& exists|trades: Seq<Trade>| #[trigger]
        journal(trades, operations) && forall|i: int|
            0 <= i < checks.len() ==> check_of(#[trigger] checks[i], positions, trades, nav_date)
}

/// Lays out the cross-check of a snapshot: one check for each position that
/// has a cost to compare, in order.
pub fn pam_checks(
    nav_date: Date,
    positions: &[PositionRow],
    operations: &[OperationRow],
) -> (r: Vec<PamCheck>)
    ensures
        checks_of(r@, nav_date, positions@, operations@),
{
    let trades = journal_trades(operations);
    let start = match Date::from_ymd_opt(MIN_YEAR, 1, 1) {
        Some(d) => d,
        None => nav_date,
    };
    assert(beginning(start));
    let mut wanted: Vec<bool> = Vec::new();
    for i in 0..positions.len()
        invariant
            wanted@.len() == i,
            forall|k: int| 0 <= k < i ==> wanted@[k] == comparable(positions@[k]),
    {
        wanted.push(is_comparable(&positions[i]));
    }
    assert(wanted@ =~= positions@.map_values(|p: PositionRow| comparable(p)));
    let rows = pick_rows(&wanted);
    let mut out: Vec<PamCheck> = Vec::new();
    for i in 0..rows.len()
        invariant
            beginning(start),
            wanted@.len() == positions@.len(),
            crate::order::picks(rows@, wanted@),
            out@.len() == i,
            forall|k: int|
                0 <= k < i ==> (#[trigger] out@[k]).position == rows@[k] && check_of(
                    out@[k],
                    positions@,
                    trades@,
                    nav_date,
                ),
    {
        let position: usize = rows[i];
        let mine = own_trades(&trades, &positions[position].isin);
        let plan = walk_instrument(mine.as_slice(), start, nav_date);
        out.push(PamCheck { position, trades: mine, plan });
    }
    assert(checked_rows(out@) =~= rows@);
    out
}

/// The bits of the figure nearest to 0.01: costs that lie further apart drift.
pub const COST_TOLERANCE: u64 = 0x3F84_7AE1_47AE_147B;

/// What the walk of a position came to, against what the snapshot says.
#[derive(Debug, Clone, Copy, PartialEq, Eq, Structural)]
pub struct PamFigures {
    /// A sell exceeded the running quantity.
    pub oversold: bool,
    /// The distance between the walked quantity and the held one.
    pub unit_gap: Number,
    /// How far they may lie apart: a millionth of the holding, of one unit at
    /// least.
    pub unit_tolerance: Number,
    /// The distance between the walked cost and the average price.
    pub cost_gap: Number,
}

/// The figures of a warning, written out: the quantities with four decimals,
/// the costs with six.
#[derive(Debug)]
pub struct PamTexts {
    pub walked: String,
    pub held: String,
    pub pam: String,
    pub computed: String,
}

/// What is said of a position, if anything. Selling more than was bought is
/// itself evidence of a broken history; it is not also measured against the
/// holding. Only where the quantities agree are the costs compared.
pub open spec fn pam_said(isin: Seq<char>, f: PamFigures, t: PamTexts) -> Option<Seq<char>> {
    if f.oversold {
        Some(isin + ": sells exceed recorded buys; cost basis incomplete"@)
    } else if f.unit_tolerance.below(f.unit_gap) {
        Some(
            isin + ": incomplete trade history - OPERATIONS gives "@ + t.walked@
                + " units, workbook holds "@ + t.held@ + "; cost basis not compared"@,
        )
    } else if (Number { bits: COST_TOLERANCE }).below(f.cost_gap) {
        Some(isin + ": PAM drift - workbook "@ + t.pam@ + ", computed "@ + t.computed@)
    } else {
        None
    }
}

/// What is said of a position, if anything.
pub fn pam_warning(isin: &String, f: PamFigures, t: &PamTexts) -> (r: Option<String>)
    ensures
        match r {
            None => pam_said(isin@, f, *t) is None,
            Some(w) => pam_said(isin@, f, *t) == Some(w@),
        },
{
    let mut w = isin.clone();
    let tolerance = Number { bits: COST_TOLERANCE };
    if f.oversold {
        w.append(": sells exceed recorded buys; cost basis incomplete");
        Some(w)
    } else if f.unit_tolerance.is_below(&f.unit_gap) {
        w.append(": incomplete trade history - OPERATIONS gives ");
        w.append(t.walked.as_str());
        w.append(" units, workbook holds ");
        w.append(t.held.as_str());
        w.append("; cost basis not compared");
        Some(w)
    } else if tolerance.is_below(&f.cost_gap) {
        w.append(": PAM drift - workbook ");
        w.append(t.pam.as_str());
        w.append(", computed ");
        w.append(t.computed.as_str());
        Some(w)
    } else {
        None
    }
}

/// A trade after the day of the snapshot is not walked: of trades in date
/// order, the plan takes exactly those up to that day.
pub proof fn law_later_trades_are_not_walked(
    c: PamCheck,
    positions: Seq<PositionRow>,
    trades: Seq<Trade>,
    nav_date: Date,
    i: int,
)
    requires
        check_of(c, positions, trades, nav_date),
        forall|a: int, b: int|
            0 <= a < b < c.trades@.len() ==> (#[trigger] c.trades@[a]).trade_date.number() <= (
            #[trigger] c.trades@[b]).trade_date.number(),
        0 <= i < c.trades@.len() <= usize::MAX,
    ensures
        i < c.plan.used <==> c.trades@[i].trade_date.number() <= nav_date.number(),
{
    let start = choose|start: Date| #[trigger]
        beginning(start) && crate::pnl::planned(c.plan, c.trades@, start, nav_date);
    crate::pnl::law_sorted_trades_are_split_at_the_period(c.plan, c.trades@, start, nav_date, i);
}

/// The trades of a journal come in date order, and so do those of one
/// instrument among them.
pub proof fn law_journal_trades_are_in_date_order(
    trades: Seq<Trade>,
    operations: Seq<OperationRow>,
    isin: Seq<char>,
)
    requires
        journal(trades, operations),
    ensures
        forall|a: int, b: int|
            0 <= a < b < trades.len() ==> (#[trigger] trades[a]).trade_date.number() <= (
            #[trigger] trades[b]).trade_date.number(),
        forall|a: int, b: int|
            0 <= a < b < own(trades, isin).len() ==> (#[trigger] own(
                trades,
                isin,
            )[a]).trade_date.number() <= (#[trigger] own(trades, isin)[b]).trade_date.number(),
{
    let (rows, order) = choose|rows: Seq<usize>, order: Seq<usize>|
        #![trigger crate::order::in_order(trade_days(operations, rows), order)]
        crate::order::picks(rows, operations.map_values(|o: OperationRow| is_trade(o)))
            && crate::order::in_order(trade_days(operations, rows), order) && trades.len()
            == rows.len() && forall|k: int|
            0 <= k < trades.len() ==> trade_of(
                #[trigger] trades[k],
                operations[rows[order[k] as int] as int],
            );
    let days = trade_days(operations, rows);
    assert forall|a: int, b: int| 0 <= a < b < trades.len() implies (
    #[trigger] trades[a]).trade_date.number() <= (#[trigger] trades[b]).trade_date.number() by {
        assert(crate::order::precedes(days, order[a] as int, order[b] as int));
        assert(trade_of(trades[a], operations[rows[order[a] as int] as int]));
        assert(trade_of(trades[b], operations[rows[order[b] as int] as int]));
        assert(days[order[a] as int] == trades[a].trade_date.number());
        assert(days[order[b] as int] == trades[b].trade_date.number());
    }
    lemma_own_in_order(trades, isin);
}

proof fn lemma_own_in_order(trades: Seq<Trade>, isin: Seq<char>)
    requires
        forall|a: int, b: int|
            0 <= a < b < trades.len() ==> (#[trigger] trades[a]).trade_date.number() <= (
            #[trigger] trades[b]).trade_date.number(),
    ensures
        forall|a: int, b: int|
            0 <= a < b < own(trades, isin).len() ==> (#[trigger] own(
                trades,
                isin,
            )[a]).trade_date.number() <= (#[trigger] own(trades, isin)[b]).trade_date.number(),
        forall|a: int|
            0 <= a < own(trades, isin).len() ==> trades.contains(#[trigger] own(trades, isin)[a]),
    decreases trades.len(),
{
    if trades.len() > 0 {
        let rest = trades.drop_last();
        assert forall|a: int, b: int| 0 <= a < b < rest.len() implies (
        #[trigger] rest[a]).trade_date.number() <= (#[trigger] rest[b]).trade_date.number() by {
            assert(trades[a].trade_date.number() <= trades[b].trade_date.number());
        }
        lemma_own_in_order(rest, isin);
        let earlier = own(rest, isin);
        let all = own(trades, isin);
        assert forall|a: int| 0 <= a < earlier.len() implies trades.contains(
            #[trigger] earlier[a],
        ) && earlier[a].trade_date.number() <= trades.last().trade_date.number() by {
            assert(rest.contains(earlier[a]));
            let k = rest.index_of(earlier[a]);
            assert(trades[k] == earlier[a]);
            assert(trades[k].trade_date.number() <= trades[trades.len() - 1].trade_date.number());
        }
        assert(trades[trades.len() - 1] == trades.last());
        assert forall|a: int| 0 <= a < all.len() implies trades.contains(#[trigger] all[a]) by {
            if a < earlier.len() {
                assert(all[a] == earlier[a]);
            }
        }
        assert forall|a: int, b: int| 0 <= a < b < all.len() implies (
        #[trigger] all[a]).trade_date.number() <= (#[trigger] all[b]).trade_date.number() by {
            assert(all[a] == earlier[a]);
            if b < earlier.len() {
                assert(all[b] == earlier[b]);
            }
        }
    }
}

// ---- rows after the day of the snapshot ----

/// The operations up to a day, in their order.
pub open spec fn earlier(operations: Seq<OperationRow>, day: int) -> Seq<OperationRow>
    decreases operations.len(),
{
    if operations.len() == 0 {
        Seq::empty()
    } else if operations.last().trade_date.number() <= day {
        earlier(operations.drop_last(), day).push(operations.last())
    } else {
        earlier(operations.drop_last(), day)
    }
}

/// The operations of one instrument, in their order.
spec fn owned(operations: Seq<OperationRow>, isin: Seq<char>) -> Seq<OperationRow>
    decreases operations.len(),
{
    if operations.len() == 0 {
        Seq::empty()
    } else if operations.last().isin->0@ == isin {
        owned(operations.drop_last(), isin).push(operations.last())
    } else {
        owned(operations.drop_last(), isin)
    }
}

/// Operations in date order with one more put behind those of its day.
spec fn put(sorted: Seq<OperationRow>, o: OperationRow) -> Seq<OperationRow>
    decreases sorted.len(),
{
    if sorted.len() == 0 {
        seq![o]
    } else if sorted.last().trade_date.number() <= o.trade_date.number() {
        sorted.push(o)
    } else {
        put(sorted.drop_last(), o).push(sorted.last())
    }
}

/// The operations that are trades, in date order.
spec fn arranged(operations: Seq<OperationRow>) -> Seq<OperationRow>
    decreases operations.len(),
{
    if operations.len() == 0 {
        Seq::empty()
    } else if is_trade(operations.last()) {
        put(arranged(operations.drop_last()), operations.last())
    } else {
        arranged(operations.drop_last())
    }
}

/// Whether no operation lies after a day.
spec fn within(operations: Seq<OperationRow>, day: int) -> bool {
    forall|i: int| 0 <= i < operations.len() ==> (#[trigger] operations[i]).trade_date.number() <= day
}

/// Whether operations are in date order.
spec fn dated(operations: Seq<OperationRow>) -> bool
    decreases operations.len(),
{
    operations.len() == 0 || (dated(operations.drop_last()) && within(
        operations,
        operations.last().trade_date.number(),
    ))
}

/// Operations fall within a day when all but the last do and the last does.
proof fn lemma_within_grows(s: Seq<OperationRow>, o: OperationRow, day: int)
    requires
        within(s, day),
        o.trade_date.number() <= day,
    ensures
        within(s.push(o), day),
{
    assert forall|i: int| 0 <= i < s.push(o).len() implies (
    #[trigger] s.push(o)[i]).trade_date.number() <= day by {
        if i < s.len() {
            assert(s.push(o)[i] == s[i]);
        }
    }
}

proof fn lemma_within_start(s: Seq<OperationRow>, day: int)
    requires
        within(s, day),
        s.len() > 0,
    ensures
        within(s.drop_last(), day),
{
    assert forall|i: int| 0 <= i < s.drop_last().len() implies (
    #[trigger] s.drop_last()[i]).trade_date.number() <= day by {
        assert(s.drop_last()[i] == s[i]);
    }
}

/// Putting an operation among others keeps them within a day, and in order.
proof fn lemma_put_keeps(s: Seq<OperationRow>, o: OperationRow, day: int)
    requires
        dated(s),
    ensures
        dated(put(s, o)),
        within(s, day) && o.trade_date.number() <= day ==> within(put(s, o), day),
    decreases s.len(),
{
    if s.len() == 0 {
        assert(seq![o].drop_last() =~= Seq::<OperationRow>::empty());
        assert(dated(Seq::<OperationRow>::empty()));
    } else if s.last().trade_date.number() <= o.trade_date.number() {
        let d = o.trade_date.number();
        assert(s.push(o).drop_last() =~= s);
        assert(within(s, s.last().trade_date.number()));
        assert forall|i: int| 0 <= i < s.len() implies (#[trigger] s[i]).trade_date.number()
            <= d by {}
        lemma_within_grows(s, o, d);
        if within(s, day) && d <= day {
            lemma_within_grows(s, o, day);
        }
    } else {
        let head = s.drop_last();
        let d = s.last().trade_date.number();
        lemma_within_start(s, d);
        lemma_put_keeps(head, o, d);
        lemma_within_grows(put(head, o), s.last(), d);
        assert(put(s, o).drop_last() =~= put(head, o));
        if within(s, day) && o.trade_date.number() <= day {
            lemma_within_start(s, day);
            lemma_put_keeps(head, o, day);
            assert(s[s.len() - 1].trade_date.number() <= day);
            lemma_within_grows(put(head, o), s.last(), day);
        }
    }
}

proof fn lemma_arranged_is_dated(operations: Seq<OperationRow>)
    ensures
        dated(arranged(operations)),
    decreases operations.len(),
{
    if operations.len() > 0 {
        lemma_arranged_is_dated(operations.drop_last());
        if is_trade(operations.last()) {
            lemma_put_keeps(arranged(operations.drop_last()), operations.last(), 0);
        }
    }
}

/// Leaving later operations out keeps the others within a day.
proof fn lemma_earlier_within(s: Seq<OperationRow>, day: int, d: int)
    requires
        within(s, d),
    ensures
        within(earlier(s, day), d),
        within(earlier(s, day), day),
    decreases s.len(),
{
    if s.len() > 0 {
        lemma_within_start(s, d);
        lemma_earlier_within(s.drop_last(), day, d);
        assert(s[s.len() - 1].trade_date.number() <= d);
        if s.last().trade_date.number() <= day {
            lemma_within_grows(earlier(s.drop_last(), day), s.last(), d);
            lemma_within_grows(earlier(s.drop_last(), day), s.last(), day);
        }
    }
}

/// An operation that is not after any of some others is put behind them all.
proof fn lemma_put_behind(s: Seq<OperationRow>, o: OperationRow)
    requires
        within(s, o.trade_date.number()),
    ensures
        put(s, o) == s.push(o),
{
    if s.len() == 0 {
        assert(seq![o] =~= s.push(o));
    } else {
        assert(s[s.len() - 1].trade_date.number() <= o.trade_date.number());
    }
}

/// Leaving later operations out before or after another is put among them
/// comes to the same.
proof fn lemma_earlier_of_put(s: Seq<OperationRow>, o: OperationRow, day: int)
    requires
        dated(s),
    ensures
        earlier(put(s, o), day) == if o.trade_date.number() <= day {
            put(earlier(s, day), o)
        } else {
            earlier(s, day)
        },
    decreases s.len(),
{
    let d = o.trade_date.number();
    if s.len() == 0 {
        assert(seq![o].drop_last() =~= s);
        assert(earlier(s, day) =~= s);
        assert(s.push(o) =~= seq![o]);
    } else if s.last().trade_date.number() <= d {
        assert(s.push(o).drop_last() =~= s);
        if d <= day {
            assert(within(s, s.last().trade_date.number()));
            assert forall|i: int| 0 <= i < s.len() implies (#[trigger] s[i]).trade_date.number()
                <= d by {}
            lemma_earlier_within(s, day, d);
            lemma_put_behind(earlier(s, day), o);
        }
    } else {
        let head = s.drop_last();
        lemma_earlier_of_put(head, o, day);
        assert(put(s, o).drop_last() =~= put(head, o));
        assert(put(s, o).last() == s.last());
        if s.last().trade_date.number() <= day {
            let kept = earlier(head, day).push(s.last());
            assert(kept.drop_last() =~= earlier(head, day));
            assert(put(kept, o) == put(earlier(head, day), o).push(s.last()));
        }
    }
}

/// Leaving later operations out before or after they are arranged comes to the
/// same.
proof fn lemma_earlier_of_arranged(operations: Seq<OperationRow>, day: int)
    ensures
        earlier(arranged(operations), day) == arranged(earlier(operations, day)),
    decreases operations.len(),
{
    if operations.len() > 0 {
        let head = operations.drop_last();
        let o = operations.last();
        lemma_earlier_of_arranged(head, day);
        if is_trade(o) {
            lemma_arranged_is_dated(head);
            lemma_earlier_of_put(arranged(head), o, day);
        }
        if o.trade_date.number() <= day {
            assert(earlier(head, day).push(o).drop_last() =~= earlier(head, day));
        }
    }
}

/// Leaving out later operations and those of other instruments comes to the
/// same in either order.
proof fn lemma_earlier_of_owned(s: Seq<OperationRow>, isin: Seq<char>, day: int)
    ensures
        earlier(owned(s, isin), day) == owned(earlier(s, day), isin),
    decreases s.len(),
{
    if s.len() > 0 {
        let head = s.drop_last();
        lemma_earlier_of_owned(head, isin, day);
        let o = s.last();
        assert(owned(head, isin).push(o).drop_last() =~= owned(head, isin));
        assert(earlier(head, day).push(o).drop_last() =~= earlier(head, day));
    }
}

/// Whether trades are those of some operations, one for one.
spec fn trades_of(trades: Seq<Trade>, operations: Seq<OperationRow>) -> bool {
    &&& trades.len() == operations.len()
    &&& forall|k: int|
        0 <= k < trades.len() ==> trade_of(#[trigger] trades[k], operations[k])
}

proof fn lemma_trades_of_start(trades: Seq<Trade>, operations: Seq<OperationRow>)
    requires
        trades_of(trades, operations),
        trades.len() > 0,
    ensures
        trades_of(trades.drop_last(), operations.drop_last()),
        trade_of(trades.last(), operations.last()),
{
    assert(trade_of(trades[trades.len() - 1], operations[trades.len() - 1]));
    assert forall|k: int| 0 <= k < trades.drop_last().len() implies trade_of(
        #[trigger] trades.drop_last()[k],
        operations.drop_last()[k],
    ) by {
        assert(trade_of(trades[k], operations[k]));
    }
}

proof fn lemma_trades_of_grow(
    trades: Seq<Trade>,
    operations: Seq<OperationRow>,
    t: Trade,
    o: OperationRow,
)
    requires
        trades_of(trades, operations),
        trade_of(t, o),
    ensures
        trades_of(trades.push(t), operations.push(o)),
{
    assert forall|k: int| 0 <= k < trades.push(t).len() implies trade_of(
        #[trigger] trades.push(t)[k],
        operations.push(o)[k],
    ) by {
        if k < trades.len() {
            assert(trade_of(trades[k], operations[k]));
        }
    }
}

proof fn lemma_own_of_owned(trades: Seq<Trade>, operations: Seq<OperationRow>, isin: Seq<char>)
    requires
        trades_of(trades, operations),
    ensures
        trades_of(own(trades, isin), owned(operations, isin)),
    decreases trades.len(),
{
    if trades.len() > 0 {
        lemma_trades_of_start(trades, operations);
        lemma_own_of_owned(trades.drop_last(), operations.drop_last(), isin);
        if trades.last().isin@ == isin {
            lemma_trades_of_grow(
                own(trades.drop_last(), isin),
                owned(operations.drop_last(), isin),
                trades.last(),
                operations.last(),
            );
        }
    }
}

proof fn lemma_up_to_of_earlier(trades: Seq<Trade>, operations: Seq<OperationRow>, day: int)
    requires
        trades_of(trades, operations),
    ensures
        trades_of(crate::pnl::up_to(trades, day), earlier(operations, day)),
    decreases trades.len(),
{
    if trades.len() > 0 {
        lemma_trades_of_start(trades, operations);
        lemma_up_to_of_earlier(trades.drop_last(), operations.drop_last(), day);
        if trades.last().trade_date.number() <= day {
            lemma_trades_of_grow(
                crate::pnl::up_to(trades.drop_last(), day),
                earlier(operations.drop_last(), day),
                trades.last(),
                operations.last(),
            );
        }
    }
}

/// An operation behind those that are not after it and before those that are.
proof fn lemma_put_at(s: Seq<OperationRow>, o: OperationRow, p: int)
    requires
        0 <= p <= s.len(),
        forall|j: int|
            0 <= j < p ==> (#[trigger] s[j]).trade_date.number() <= o.trade_date.number(),
        forall|j: int|
            p <= j < s.len() ==> (#[trigger] s[j]).trade_date.number() > o.trade_date.number(),
    ensures
        put(s, o) == s.insert(p, o),
    decreases s.len(),
{
    if s.len() == 0 {
        assert(seq![o] =~= s.insert(0, o));
    } else if p == s.len() {
        assert(s[s.len() - 1].trade_date.number() <= o.trade_date.number());
        assert(s.push(o) =~= s.insert(p, o));
    } else {
        assert(s[s.len() - 1].trade_date.number() > o.trade_date.number());
        let head = s.drop_last();
        assert forall|j: int| 0 <= j < p implies (#[trigger] head[j]).trade_date.number()
            <= o.trade_date.number() by {
            assert(head[j] == s[j]);
        }
        assert forall|j: int| p <= j < head.len() implies (#[trigger] head[j]).trade_date.number()
            > o.trade_date.number() by {
            assert(head[j] == s[j]);
        }
        lemma_put_at(head, o, p);
        assert(head.insert(p, o).push(s.last()) =~= s.insert(p, o));
    }
}

/// The operations that a journal's rows and their order stand for.
spec fn in_turn(
    operations: Seq<OperationRow>,
    rows: Seq<usize>,
    order: Seq<usize>,
) -> Seq<OperationRow> {
    Seq::new(order.len(), |k: int| operations[rows[order[k] as int] as int])
}

/// Which operations are trades.
spec fn are_trades(operations: Seq<OperationRow>) -> Seq<bool> {
    operations.map_values(|o: OperationRow| is_trade(o))
}

/// The rows of a journal without its last operation.
proof fn lemma_rows_without_last(operations: Seq<OperationRow>, rows: Seq<usize>)
    requires
        0 < operations.len() <= usize::MAX,
        crate::order::picks(rows, are_trades(operations)),
    ensures
        is_trade(operations.last()) ==> rows.len() > 0 && rows.last() == operations.len() - 1
            && crate::order::picks(rows.drop_last(), are_trades(operations.drop_last())),
        !is_trade(operations.last()) ==> crate::order::picks(
            rows,
            are_trades(operations.drop_last()),
        ),
{
    let all = are_trades(operations);
    let fewer = are_trades(operations.drop_last());
    let last = operations.len() - 1;
    assert(forall|k: int| 0 <= k < last ==> #[trigger] fewer[k] == all[k]);
    if is_trade(operations.last()) {
        assert(all[last]);
        assert(rows.contains(last as usize));
        let m = rows.index_of(last as usize);
        assert(rows[m] == last);
        if m < rows.len() - 1 {
            assert(rows[m] < rows[rows.len() - 1]);
        }
        let rest = rows.drop_last();
        assert forall|i: int| 0 <= i < rest.len() implies (#[trigger] rest[i]) < fewer.len()
            && fewer[rest[i] as int] by {
            assert(rows[i] < rows[rows.len() - 1]);
            assert(all[rows[i] as int]);
        }
        assert forall|k: int| 0 <= k < fewer.len() && #[trigger] fewer[k] implies rest.contains(
            k as usize,
        ) by {
            assert(all[k]);
            let n = rows.index_of(k as usize);
            assert(rest[n] == k as usize);
        }
    } else {
        assert forall|i: int| 0 <= i < rows.len() implies (#[trigger] rows[i]) < fewer.len()
            && fewer[rows[i] as int] by {
            assert(all[rows[i] as int]);
            assert(!all[last]);
        }
        assert forall|k: int| 0 <= k < fewer.len() && #[trigger] fewer[k] implies rows.contains(
            k as usize,
        ) by {
            assert(all[k]);
        }
    }
}

/// A journal is its trades arranged by day.
proof fn lemma_in_turn_is_arranged(
    operations: Seq<OperationRow>,
    rows: Seq<usize>,
    order: Seq<usize>,
)
    requires
        operations.len() <= usize::MAX,
        crate::order::picks(rows, are_trades(operations)),
        crate::order::in_order(trade_days(operations, rows), order),
    ensures
        in_turn(operations, rows, order) == arranged(operations),
    decreases operations.len(),
{
    if operations.len() == 0 {
        if rows.len() > 0 {
            assert(rows[0] < are_trades(operations).len());
        }
        assert(in_turn(operations, rows, order) =~= arranged(operations));
    } else {
        lemma_rows_without_last(operations, rows);
        let head = operations.drop_last();
        let o = operations.last();
        let days = trade_days(operations, rows);
        if is_trade(o) {
            let rest = rows.drop_last();
            lemma_no_more_rows(rows, operations.len() as int);
            let p = crate::order::lemma_order_without_last(days, order);
            let fewer = order.remove(p);
            assert forall|i: int| 0 <= i < rest.len() implies (#[trigger] rest[i]) < head.len() by {
                assert(are_trades(head)[rest[i] as int]);
            }
            assert(trade_days(head, rest) =~= days.drop_last());
            lemma_in_turn_is_arranged(head, rest, fewer);
            let before = in_turn(head, rest, fewer);
            let now = in_turn(operations, rows, order);
            assert forall|k: int| 0 <= k < fewer.len() implies #[trigger] before[k]
                == operations[rows[fewer[k] as int] as int] && before[k].trade_date.number()
                == days[fewer[k] as int] by {
                assert(fewer[k] < rest.len());
                assert(rest[fewer[k] as int] < head.len());
            }
            assert(now =~= before.insert(p, o)) by {
                assert forall|k: int| 0 <= k < now.len() implies #[trigger] now[k]
                    == before.insert(p, o)[k] by {
                    if k < p {
                        assert(fewer[k] == order[k]);
                        assert(before[k] == operations[rows[fewer[k] as int] as int]);
                    } else if k > p {
                        assert(fewer[k - 1] == order[k]);
                        assert(before[k - 1] == operations[rows[fewer[k - 1] as int] as int]);
                    }
                }
            }
            assert(days.last() == o.trade_date.number());
            assert forall|j: int| 0 <= j < p implies (#[trigger] before[j]).trade_date.number()
                <= o.trade_date.number() by {
                assert(fewer[j] == order[j]);
            }
            assert forall|j: int| p <= j < before.len() implies (
            #[trigger] before[j]).trade_date.number() > o.trade_date.number() by {
                assert(fewer[j] == order[j + 1]);
            }
            lemma_put_at(before, o, p);
        } else {
            assert forall|i: int| 0 <= i < rows.len() implies (#[trigger] rows[i]) < head.len() by {
                assert(are_trades(head)[rows[i] as int]);
            }
            assert(trade_days(head, rows) =~= days);
            lemma_in_turn_is_arranged(head, rows, order);
            assert(in_turn(operations, rows, order) =~= in_turn(head, rows, order)) by {
                assert forall|k: int| 0 <= k < order.len() implies #[trigger] in_turn(
                    operations,
                    rows,
                    order,
                )[k] == in_turn(head, rows, order)[k] by {
                    assert(order[k] < rows.len());
                    assert(rows[order[k] as int] < head.len());
                }
            }
        }
    }
}

/// Ascending rows below a bound are no more than the bound.
proof fn lemma_no_more_rows(rows: Seq<usize>, bound: int)
    requires
        forall|i: int, j: int|
            0 <= i < j < rows.len() ==> (#[trigger] rows[i]) < (#[trigger] rows[j]),
        forall|i: int| 0 <= i < rows.len() ==> (#[trigger] rows[i]) < bound,
        bound >= 0,
    ensures
        rows.len() <= bound,
    decreases bound,
{
    if rows.len() > 0 {
        let rest = rows.drop_last();
        let last = rows.last() as int;
        assert(rows[rows.len() - 1] == last);
        assert forall|i: int| 0 <= i < rest.len() implies (#[trigger] rest[i]) < last by {
            assert(rows[i] < rows[rows.len() - 1]);
        }
        assert forall|i: int, j: int| 0 <= i < j < rest.len() implies (#[trigger] rest[i]) < (
        #[trigger] rest[j]) by {
            assert(rows[i] < rows[j]);
        }
        lemma_no_more_rows(rest, last);
    }
}

/// The trades of a journal are its operations arranged by day.
proof fn lemma_journal_is_arranged(trades: Seq<Trade>, operations: Seq<OperationRow>)
    requires
        operations.len() <= usize::MAX,
        journal(trades, operations),
    ensures
        trades_of(trades, arranged(operations)),
{
    let (rows, order) = choose|rows: Seq<usize>, order: Seq<usize>|
        #![trigger crate::order::in_order(trade_days(operations, rows), order)]
        crate::order::picks(rows, operations.map_values(|o: OperationRow| is_trade(o)))
            && crate::order::in_order(trade_days(operations, rows), order) && trades.len()
            == rows.len() && forall|k: int|
            0 <= k < trades.len() ==> trade_of(
                #[trigger] trades[k],
                operations[rows[order[k] as int] as int],
            );
    assert(operations.map_values(|o: OperationRow| is_trade(o)) =~= are_trades(operations));
    lemma_in_turn_is_arranged(operations, rows, order);
    let turn = in_turn(operations, rows, order);
    assert forall|k: int| 0 <= k < trades.len() implies trade_of(#[trigger] trades[k], turn[k]) by {
        assert(turn[k] == operations[rows[order[k] as int] as int]);
    }
}

/// Whether two trades say the same.
pub open spec fn same_trade(a: Trade, b: Trade) -> bool {
    &&& a.trade_date == b.trade_date
    &&& a.isin@ == b.isin@
    &&& a.is_buy == b.is_buy
    &&& a.quantity == b.quantity
    &&& a.net_price == b.net_price
    &&& a.net_amount == b.net_amount
    &&& a.currency@ == b.currency@
}

/// Whether two checks come to the same: the same position, walked in the same
/// way over trades that say the same.
pub open spec fn same_check(a: PamCheck, b: PamCheck) -> bool {
    &&& a.position == b.position
    &&& a.plan.used == b.plan.used
    &&& a.plan.opening == b.plan.opening
    &&& a.plan.buys@ == b.plan.buys@
    &&& a.plan.sells@ == b.plan.sells@
    &&& forall|k: int| 0 <= k < a.plan.used ==> same_trade(#[trigger] a.trades@[k], b.trades@[k])
}

/// What a check walks are the operations of its instrument up to the day of the
/// snapshot, arranged by day.
proof fn lemma_walked_operations(
    c: PamCheck,
    positions: Seq<PositionRow>,
    trades: Seq<Trade>,
    operations: Seq<OperationRow>,
    nav_date: Date,
)
    requires
        operations.len() <= usize::MAX,
        journal(trades, operations),
        check_of(c, positions, trades, nav_date),
    ensures
        trades_of(
            c.trades@.take(c.plan.used as int),
            owned(
                arranged(earlier(operations, nav_date.number())),
                positions[c.position as int].isin@,
            ),
        ),
        c.plan.used <= c.trades@.len(),
{
    let isin = positions[c.position as int].isin@;
    let day = nav_date.number();
    let start = choose|start: Date| #[trigger]
        beginning(start) && crate::pnl::planned(c.plan, c.trades@, start, nav_date);
    law_journal_trades_are_in_date_order(trades, operations, isin);
    crate::pnl::lemma_walked_is_up_to_the_end(c.plan, c.trades@, start, nav_date);
    lemma_journal_is_arranged(trades, operations);
    lemma_own_of_owned(trades, arranged(operations), isin);
    lemma_up_to_of_earlier(c.trades@, owned(arranged(operations), isin), day);
    lemma_earlier_of_owned(arranged(operations), isin, day);
    lemma_earlier_of_arranged(operations, day);
}

/// Trades of the same operations say the same.
proof fn lemma_same_trades(a: Seq<Trade>, b: Seq<Trade>, operations: Seq<OperationRow>, k: int)
    requires
        trades_of(a, operations),
        trades_of(b, operations),
        0 <= k < a.len(),
    ensures
        same_trade(a[k], b[k]),
{
    assert(trade_of(a[k], operations[k]));
    assert(trade_of(b[k], operations[k]));
}

proof fn lemma_same_check(
    a: PamCheck,
    b: PamCheck,
    positions: Seq<PositionRow>,
    x: Seq<Trade>,
    y: Seq<Trade>,
    these: Seq<OperationRow>,
    those: Seq<OperationRow>,
    nav_date: Date,
)
    requires
        these.len() <= usize::MAX,
        those.len() <= usize::MAX,
        earlier(these, nav_date.number()) == earlier(those, nav_date.number()),
        journal(x, these),
        journal(y, those),
        a.position == b.position,
        check_of(a, positions, x, nav_date),
        check_of(b, positions, y, nav_date),
    ensures
        same_check(a, b),
{
    lemma_walked_operations(a, positions, x, these, nav_date);
    lemma_walked_operations(b, positions, y, those, nav_date);
    let walked = owned(
        arranged(earlier(these, nav_date.number())),
        positions[a.position as int].isin@,
    );
    let used = a.plan.used as int;
    let (s, t) = (a.trades@.take(used), b.trades@.take(b.plan.used as int));
    assert(s.len() == t.len());
    assert forall|k: int| 0 <= k < used implies same_trade(
        #[trigger] a.trades@[k],
        b.trades@[k],
    ) by {
        lemma_same_trades(s, t, walked, k);
        assert(s[k] == a.trades@[k] && t[k] == b.trades@[k]);
    }
    let start = choose|start: Date| #[trigger]
        beginning(start) && crate::pnl::planned(a.plan, a.trades@, start, nav_date);
    let also = choose|start: Date| #[trigger]
        beginning(start) && crate::pnl::planned(b.plan, b.trades@, start, nav_date);
    crate::pnl::lemma_same_plan(a.plan, b.plan, a.trades@, b.trades@, start, also, nav_date);
}

/// Rows after the day of the snapshot change nothing: two journals that are the
/// same up to that day give the same checks.
pub proof fn law_rows_after_the_snapshot_change_no_check(
    a: Seq<PamCheck>,
    b: Seq<PamCheck>,
    nav_date: Date,
    positions: Seq<PositionRow>,
    these: Seq<OperationRow>,
    those: Seq<OperationRow>,
)
    requires
        these.len() <= usize::MAX,
        those.len() <= usize::MAX,
        earlier(these, nav_date.number()) == earlier(those, nav_date.number()),
        checks_of(a, nav_date, positions, these),
        checks_of(b, nav_date, positions, those),
    ensures
        a.len() == b.len(),
        forall|i: int| 0 <= i < a.len() ==> same_check(#[trigger] a[i], b[i]),
{
    crate::order::law_rows_are_picked_in_one_way(
        checked_rows(a),
        checked_rows(b),
        positions.map_values(|p: PositionRow| comparable(p)),
    );
    assert(checked_rows(a).len() == a.len() && checked_rows(b).len() == b.len());
    let x = choose|trades: Seq<Trade>| #[trigger]
        journal(trades, these) && forall|i: int|
            0 <= i < a.len() ==> check_of(#[trigger] a[i], positions, trades, nav_date);
    let y = choose|trades: Seq<Trade>| #[trigger]
        journal(trades, those) && forall|i: int|
            0 <= i < b.len() ==> check_of(#[trigger] b[i], positions, trades, nav_date);
    assert forall|i: int| 0 <= i < a.len() implies same_check(#[trigger] a[i], b[i]) by {
        assert(checked_rows(a)[i] == a[i].position && checked_rows(b)[i] == b[i].position);
        assert(check_of(b[i], positions, y, nav_date));
        lemma_same_check(a[i], b[i], positions, x, y, these, those, nav_date);
    }
}

/// A journal without its rows after a day is the same up to that day, so
/// leaving them out changes no check.
pub proof fn law_leaving_later_rows_out_keeps_the_journal_up_to_the_day(
    operations: Seq<OperationRow>,
    day: int,
)
    ensures
        earlier(earlier(operations, day), day) == earlier(operations, day),
    decreases operations.len(),
{
    if operations.len() > 0 {
        let head = operations.drop_last();
        law_leaving_later_rows_out_keeps_the_journal_up_to_the_day(head, day);
        assert(earlier(head, day).push(operations.last()).drop_last() =~= earlier(head, day));
    }
}

/// A cost is compared only where the quantities agree: a drift is reported of a
/// position that was not oversold and whose walked quantity is within tolerance
/// of the held one. Nothing is reported of one whose cost agrees too.
pub proof fn law_a_drift_is_reported_only_where_quantities_agree(
    isin: Seq<char>,
    f: PamFigures,
    t: PamTexts,
)
    ensures
        f.oversold || f.unit_tolerance.below(f.unit_gap) ==> pam_said(isin, f, t) is Some
            && pam_said(isin, PamFigures { cost_gap: Number { bits: 0 }, ..f }, t) == pam_said(
            isin,
            f,
            t,
        ),
        !f.oversold && !f.unit_tolerance.below(f.unit_gap) ==> (pam_said(isin, f, t) is Some <==> (
        Number { bits: COST_TOLERANCE }).below(f.cost_gap)),
{
}

/// Each position has one check at most, in the order of the positions, and only
/// shares, funds and bonds that are held at a cost have one.
pub proof fn law_checks_follow_the_positions(
    checks: Seq<PamCheck>,
    nav_date: Date,
    positions: Seq<PositionRow>,
    operations: Seq<OperationRow>,
)
    requires
        checks_of(checks, nav_date, positions, operations),
    ensures
        forall|i: int, j: int|
            0 <= i < j < checks.len() ==> (#[trigger] checks[i]).position < (
            #[trigger] checks[j]).position,
        forall|i: int|
            0 <= i < checks.len() ==> (#[trigger] checks[i]).position < positions.len()
                && comparable(positions[checks[i].position as int]),
{
    let rows = checked_rows(checks);
    let wanted = positions.map_values(|p: PositionRow| comparable(p));
    assert forall|i: int, j: int| 0 <= i < j < checks.len() implies (
    #[trigger] checks[i]).position < (#[trigger] checks[j]).position by {
        assert(rows[i] < rows[j]);
    }
    assert forall|i: int| 0 <= i < checks.len() implies (#[trigger] checks[i]).position
        < positions.len() && comparable(positions[checks[i].position as int]) by {
        assert(rows[i] < wanted.len() && wanted[rows[i] as int]);
    }
}

/// A position is compared exactly when it is a share, a fund or a bond with an
/// average cost and a holding of a billionth at least.
pub proof fn law_what_is_compared(p: PositionRow, billionth: Number)
    requires
        billionth.bits == NO_HOLDING,
    ensures
        crate::binary64::closest(billionth, 1, 1_000_000_000),
        comparable(p) <==> (p.asset_type@ == "Action"@ || p.asset_type@ == "Fonds"@ || p.asset_type@
            == "Obligation"@) && p.avg_cost is Some && p.quantity is Some
            && !p.quantity->0.size().below(billionth),
{
    vstd::arithmetic::power2::lemma2_to64();
    vstd::arithmetic::power2::lemma2_to64_rest();
    vstd::arithmetic::power2::lemma_pow2_adds(64, 18);
    crate::binary64::lemma_closest(billionth, 992, 0x112e0be826d695, 82, 1, 1000000000);
}

/// What is said of a position: that it was oversold before anything else, then
/// that its history is incomplete, and only where the quantities agree that its
/// cost drifts, by more than a cent.
pub proof fn law_what_is_said_of_a_position(
    isin: Seq<char>,
    f: PamFigures,
    t: PamTexts,
    cent: Number,
)
    requires
        cent.bits == COST_TOLERANCE,
    ensures
        crate::binary64::closest(cent, 1, 100),
        f.oversold ==> pam_said(isin, f, t) == Some(
            isin + ": sells exceed recorded buys; cost basis incomplete"@,
        ),
        !f.oversold && f.unit_tolerance.below(f.unit_gap) ==> pam_said(isin, f, t) == Some(
            isin + ": incomplete trade history - OPERATIONS gives "@ + t.walked@
                + " units, workbook holds "@ + t.held@ + "; cost basis not compared"@,
        ),
        !f.oversold && !f.unit_tolerance.below(f.unit_gap) && cent.below(f.cost_gap) ==> pam_said(
            isin,
            f,
            t,
        ) == Some(isin + ": PAM drift - workbook "@ + t.pam@ + ", computed "@ + t.computed@),
        !f.oversold && !f.unit_tolerance.below(f.unit_gap) && !cent.below(f.cost_gap) ==> pam_said(
            isin,
            f,
            t,
        ) is None,
{
    vstd::arithmetic::power2::lemma2_to64();
    vstd::arithmetic::power2::lemma2_to64_rest();
    crate::binary64::lemma_closest(cent, 1015, 0x147ae147ae147b, 59, 1, 100);
}

/// An operation is a trade exactly when it has an instrument, a quantity, a price
/// and a side, and its trade says what it says: the quantity without its sign.
pub proof fn law_what_a_trade_says(t: Trade, o: OperationRow)
    requires
        trade_of(t, o),
    ensures
        o.isin is Some && o.quantity is Some && o.net_price is Some,
        t.trade_date == o.trade_date,
        t.isin@ == o.isin->0@,
        t.net_price == o.net_price->0,
        t.quantity == o.quantity->0 || t.quantity == o.quantity->0.turned(),
        t.quantity.bits < crate::number::SIGN_BIT,
        o.net_amount is Some ==> t.net_amount == o.net_amount->0,
        o.net_amount is None ==> t.net_amount.bits == 0,
        o.currency matches Some(c) ==> t.currency@ == c@,
        o.currency is None ==> t.currency@.len() == 0,
        Some(t.is_buy) == crate::pnl::side(
            crate::text::lowercase(crate::text::trimmed(o.side@)),
        ),
{
    crate::number::law_what_the_bits_say(o.quantity->0);
}

/// What is no trade lacks an instrument, a quantity, a price or a side.
pub proof fn law_what_is_no_trade(o: OperationRow)
    ensures
        is_trade(o) <==> o.isin is Some && o.quantity is Some && o.net_price is Some
            && crate::pnl::side(crate::text::lowercase(crate::text::trimmed(o.side@))) is Some,
{
}

/// A journal holds one trade per operation that is one, in date order, and those
/// of one day in the order of the operations.
pub proof fn law_a_journal_holds_every_trade_once(
    trades: Seq<Trade>,
    operations: Seq<OperationRow>,
)
    requires
        journal(trades, operations),
        operations.len() <= usize::MAX,
    ensures
        exists|at: Seq<int>|
            at.len() == trades.len() && (forall|k: int|
                0 <= k < at.len() ==> 0 <= #[trigger] at[k] < operations.len() && trade_of(
                    trades[k],
                    operations[at[k]],
                )) && (forall|i: int, j: int|
                0 <= i < j < at.len() ==> operations[#[trigger] at[i]].trade_date.number()
                    < operations[#[trigger] at[j]].trade_date.number() || (
                operations[at[i]].trade_date.number() == operations[at[j]].trade_date.number()
                    && at[i] < at[j])) && (forall|o: int|
                0 <= o < operations.len() && is_trade(#[trigger] operations[o]) ==> at.contains(o)),
{
    let (rows, order) = choose|rows: Seq<usize>, order: Seq<usize>|
        #![trigger crate::order::in_order(trade_days(operations, rows), order)]
        crate::order::picks(rows, operations.map_values(|o: OperationRow| is_trade(o)))
            && crate::order::in_order(trade_days(operations, rows), order) && trades.len()
            == rows.len() && forall|k: int|
            0 <= k < trades.len() ==> trade_of(
                #[trigger] trades[k],
                operations[rows[order[k] as int] as int],
            );
    let keys = trade_days(operations, rows);
    let wanted = operations.map_values(|o: OperationRow| is_trade(o));
    let at = Seq::new(trades.len(), |k: int| rows[order[k] as int] as int);
    lemma_no_more_rows(rows, operations.len() as int);
    assert forall|k: int| 0 <= k < at.len() implies 0 <= #[trigger] at[k] < operations.len()
        && trade_of(trades[k], operations[at[k]]) by {
        assert(order[k] < keys.len());
        assert(rows[order[k] as int] < wanted.len());
        assert(trade_of(trades[k], operations[rows[order[k] as int] as int]));
    }
    assert forall|i: int, j: int|
        0 <= i < j < at.len() implies operations[#[trigger] at[i]].trade_date.number()
        < operations[#[trigger] at[j]].trade_date.number() || (
    operations[at[i]].trade_date.number() == operations[at[j]].trade_date.number() && at[i]
        < at[j]) by {
        assert(order[i] < keys.len() && order[j] < keys.len());
        assert(crate::order::precedes(keys, order[i] as int, order[j] as int));
    }
    assert forall|o: int|
        0 <= o < operations.len() && is_trade(#[trigger] operations[o]) implies at.contains(o) by {
        assert(wanted[o]);
        assert(rows.contains(o as usize));
        let r = rows.index_of(o as usize);
        assert(order.contains(r as usize));
        let k = order.index_of(r as usize);
        assert(at[k] == o);
    }
}

/// The trades of an instrument are those that carry its code, in their order.
pub proof fn law_own_trades_carry_the_code(trades: Seq<Trade>, isin: Seq<char>)
    ensures
        own(trades, isin) == trades.filter(|t: Trade| t.isin@ == isin),
    decreases trades.len(),
{
    reveal(Seq::filter);
    if trades.len() > 0 {
        law_own_trades_carry_the_code(trades.drop_last(), isin);
    }
}

/// A check walks the trades of its own position, and of these exactly those up
/// to the day of the snapshot.
pub proof fn law_a_check_walks_its_own_trades(
    checks: Seq<PamCheck>,
    nav_date: Date,
    positions: Seq<PositionRow>,
    operations: Seq<OperationRow>,
    i: int,
    k: int,
)
    requires
        checks_of(checks, nav_date, positions, operations),
        0 <= i < checks.len(),
        0 <= k < checks[i].trades@.len() <= usize::MAX,
    ensures
        checks[i].trades@[k].isin@ == positions[checks[i].position as int].isin@,
        k < checks[i].plan.used <==> checks[i].trades@[k].trade_date.number() <= nav_date.number(),
{
    let trades = choose|trades: Seq<Trade>| #[trigger]
        journal(trades, operations) && forall|i: int|
            0 <= i < checks.len() ==> check_of(#[trigger] checks[i], positions, trades, nav_date);
    let c = checks[i];
    let isin = positions[c.position as int].isin@;
    assert(check_of(c, positions, trades, nav_date));
    law_journal_trades_are_in_date_order(trades, operations, isin);
    law_later_trades_are_not_walked(c, positions, trades, nav_date, k);
    lemma_own_is_own(trades, isin, k);
}

proof fn lemma_own_is_own(trades: Seq<Trade>, isin: Seq<char>, k: int)
    requires
        0 <= k < own(trades, isin).len(),
    ensures
        own(trades, isin)[k].isin@ == isin,
    decreases trades.len(),
{
    if trades.len() > 0 && k < own(trades.drop_last(), isin).len() {
        lemma_own_is_own(trades.drop_last(), isin, k);
    }
}

/// Every position that has a cost to compare is checked.
pub proof fn law_every_comparable_position_is_checked(
    checks: Seq<PamCheck>,
    nav_date: Date,
    positions: Seq<PositionRow>,
    operations: Seq<OperationRow>,
    p: usize,
)
    requires
        checks_of(checks, nav_date, positions, operations),
        p < positions.len() <= usize::MAX,
    ensures
        comparable(positions[p as int]) <==> exists|i: int|
            0 <= i < checks.len() && (#[trigger] checks[i]).position == p,
{
    let rows = checked_rows(checks);
    let wanted = positions.map_values(|p: PositionRow| comparable(p));
    crate::order::law_wanted_rows_are_picked(rows, wanted, p);
    if rows.contains(p) {
        let i = rows.index_of(p);
        assert(checks[i].position == p);
    }
    if exists|i: int| 0 <= i < checks.len() && (#[trigger] checks[i]).position == p {
        let i = choose|i: int| 0 <= i < checks.len() && (#[trigger] checks[i]).position == p;
        assert(rows[i] == p);
    }
}

} // verus!
