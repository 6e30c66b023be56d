//! What an import decides: what it replaces, which contract specs it seeds,
//! and what it warns of. A warning never blocks the weekly import.

use crate::date::Date;
use crate::number::Number;
use crate::text::{decimal_of, same_text};
use vstd::prelude::*;
use vstd::string::*;

verus! {

/// One row of a position file.
#[derive(Debug, Clone)]
pub struct PositionRow {
    pub asset_type: String,
    pub isin: String,
    pub name: Option<String>,
    pub currency: Option<String>,
    pub quantity: Option<Number>,
    pub avg_cost: Option<Number>,
    pub price: Option<Number>,
    pub valuation_ccy: Option<Number>,
    pub accrued_interest: Option<Number>,
    pub fx_rate: Option<Number>,
    pub valuation_eur: Option<Number>,
    pub weight: Option<Number>,
    pub ticker: Option<String>,
}

/// One row of a trade journal.
#[derive(Debug, Clone)]
pub struct OperationRow {
    pub trade_date: Date,
    pub side: String,
    pub ticker: Option<String>,
    pub isin: Option<String>,
    pub name: Option<String>,
    pub currency: Option<String>,
    pub quantity: Option<Number>,
    pub price: Option<Number>,
    pub gross_amount: Option<Number>,
    pub fees: Option<Number>,
    pub net_price: Option<Number>,
    pub net_amount: Option<Number>,
}

/// What the decisions of an import depend on: the dates and the sizes of what a
/// batch brings.
#[derive(Debug)]
pub struct BatchShape {
    pub primary_date: Date,
    /// The date of each snapshot.
    pub snapshot_dates: Vec<Date>,
    /// The number of positions of each snapshot.
    pub snapshot_sizes: Vec<usize>,
    /// The date of each NAV point.
    pub nav_dates: Vec<Date>,
    /// The number of dividends, where the batch carries a dividend journal.
    pub dividends: Option<usize>,
    /// The number of operations, where the batch carries a trade journal.
    pub operations: Option<usize>,
}

/// What an import does with a batch.
#[derive(Debug)]
pub struct ImportPlan {
    /// Whether the batch carries a journal at all.
    pub has_div_ops: bool,
    /// Whether its journals replace the stored ones.
    pub replace_div_ops: bool,
    pub nav_rows: usize,
    pub positions: usize,
    /// The dividends that are stored: none where nothing is replaced.
    pub dividends: usize,
    /// The operations that are stored: none where nothing is replaced.
    pub operations: usize,
    /// The dates to cross-check, ascending, each once.
    pub check_dates: Vec<Date>,
}

/// What an import did.
#[derive(Debug)]
pub struct ImportOutcome {
    pub import_id: i64,
    pub duplicate: bool,
    pub nav_rows: usize,
    pub positions: usize,
    pub dividends: usize,
    pub operations: usize,
    pub div_ops_replaced: bool,
    /// Non-fatal futures spec problems. A new or mis-specified contract must
    /// never block the weekly NAV import.
    pub warnings: Vec<String>,
}

/// The sum of some sizes.
pub open spec fn total(sizes: Seq<usize>) -> int
    decreases sizes.len(),
{
    if sizes.len() == 0 {
        0
    } else {
        total(sizes.drop_last()) + sizes.last()
    }
}

/// Whether a batch carries a journal.
pub open spec fn carries_journal(b: BatchShape) -> bool {
    b.dividends is Some || b.operations is Some
}

/// Whether a batch replaces the stored journals: it carries one, and no newer
/// journal is stored. Only imports that carried a journal count - the daily
/// files that carry none must never hold a weekly one back.
pub open spec fn replaces(b: BatchShape, latest_journal: Option<Date>) -> bool {
    carries_journal(b) && (latest_journal matches Some(d) ==> d.number() <= b.primary_date.number())
}

/// Whether a date is one that a batch brings a snapshot or a NAV point for.
pub open spec fn brought(b: BatchShape, d: Date) -> bool {
    b.snapshot_dates@.contains(d) || b.nav_dates@.contains(d)
}

/// Inserts a date into ascending dates, unless it is there.
fn insert_date(dates: &mut Vec<Date>, d: Date)
    requires
        forall|i: int, j: int|
            0 <= i < j < old(dates)@.len() ==> (#[trigger] old(dates)@[i]).number() < (
            #[trigger] old(dates)@[j]).number(),
    ensures
        forall|i: int, j: int|
            0 <= i < j < final(dates)@.len() ==> (#[trigger] final(dates)@[i]).number() < (
            #[trigger] final(dates)@[j]).number(),
        forall|x: Date| #[trigger]
            final(dates)@.contains(x) <==> old(dates)@.contains(x) || x == d,
{
    let ghost before = dates@;
    let mut at: usize = 0;
    while at < dates.len() && dates[at].is_before(&d)
        invariant
            dates@ == before,
            at <= before.len(),
            forall|j: int| 0 <= j < at ==> (#[trigger] before[j]).number() < d.number(),
        decreases before.len() - at,
    {
        at = at + 1;
    }
    if at < dates.len() && dates[at].is_same(&d) {
        assert(before[at as int] == d);
        return;
    }
    dates.insert(at, d);
    proof {
        let after = before.insert(at as int, d);
        assert(dates@ == after);
        assert forall|j: int| at <= j < before.len() implies d.number() < (
        #[trigger] before[j]).number() by {
            assert(before[at as int].number() <= before[j].number());
        }
        assert forall|i: int, j: int| 0 <= i < j < after.len() implies (
        #[trigger] after[i]).number() < (#[trigger] after[j]).number() by {
            let i0 = if i < at {
                i
            } else {
                i - 1
            };
            let j0 = if j < at {
                j
            } else {
                j - 1
            };
            if i != at {
                assert(after[i] == before[i0]);
            }
            if j != at {
                assert(after[j] == before[j0]);
            }
            if i != at && j != at {
                assert(before[i0].number() < before[j0].number());
            }
        }
        assert forall|x: Date| #[trigger] after.contains(x) <==> before.contains(x) || x == d by {
            if before.contains(x) {
                let k = before.index_of(x);
                if k < at {
                    assert(after[k] == x);
                } else {
                    assert(after[k + 1] == x);
                }
            }
            assert(after[at as int] == d);
            if after.contains(x) && x != d {
                let k = after.index_of(x);
                if k < at {
                    assert(before[k] == x);
                } else {
                    assert(before[k - 1] == x);
                }
            }
        }
    }
}

/// Decides what an import does with a batch that is not a duplicate.
/// `latest_journal` is the newest date of an import that carried a journal.
pub fn import_plan(b: &BatchShape, latest_journal: Option<Date>) -> (r: ImportPlan)
    requires
        total(b.snapshot_sizes@) <= usize::MAX,
    ensures
        r.has_div_ops == carries_journal(*b),
        r.replace_div_ops == replaces(*b, latest_journal),
        r.nav_rows == b.nav_dates@.len(),
        r.positions == total(b.snapshot_sizes@),
        r.dividends == if replaces(*b, latest_journal) && b.dividends is Some {
            b.dividends->0
        } else {
            0
        },
        r.operations == if replaces(*b, latest_journal) && b.operations is Some {
            b.operations->0
        } else {
            0
        },
        forall|d: Date| #[trigger] r.check_dates@.contains(d) <==> brought(*b, d),
        forall|i: int, j: int|
            0 <= i < j < r.check_dates@.len() ==> (#[trigger] r.check_dates@[i]).number() < (
            #[trigger] r.check_dates@[j]).number(),
{
    let has_div_ops: bool = b.dividends.is_some() || b.operations.is_some();
    let newest: bool = match latest_journal {
        None => true,
        Some(d) => !b.primary_date.is_before(&d),
    };
    let replace_div_ops: bool = has_div_ops && newest;
    let mut positions: usize = 0;
    for i in 0..b.snapshot_sizes.len()
        invariant
            total(b.snapshot_sizes@) <= usize::MAX,
            positions == total(b.snapshot_sizes@.take(i as int)),
    {
        proof {
            let next = b.snapshot_sizes@.take(i + 1);
            assert(next.drop_last() =~= b.snapshot_sizes@.take(i as int));
            lemma_total_grows(b.snapshot_sizes@, i + 1);
        }
        positions = positions + b.snapshot_sizes[i];
    }
    assert(b.snapshot_sizes@.take(b.snapshot_sizes@.len() as int) =~= b.snapshot_sizes@);
    let mut check_dates: Vec<Date> = Vec::new();
    for i in 0..b.snapshot_dates.len()
        invariant
            forall|p: int, q: int|
                0 <= p < q < check_dates@.len() ==> (#[trigger] check_dates@[p]).number() < (
                #[trigger] check_dates@[q]).number(),
            forall|d: Date| #[trigger]
                check_dates@.contains(d) <==> b.snapshot_dates@.take(i as int).contains(d),
    {
        let d = b.snapshot_dates[i];
        insert_date(&mut check_dates, d);
        proof {
            lemma_one_more(b.snapshot_dates@, i as int);
        }
    }
    assert(b.snapshot_dates@.take(b.snapshot_dates@.len() as int) =~= b.snapshot_dates@);
    let ghost snapshots = check_dates@;
    assert forall|d: Date| !b.nav_dates@.take(0).contains(d) by {}
    for i in 0..b.nav_dates.len()
        invariant
            forall|d: Date| #[trigger] snapshots.contains(d) <==> b.snapshot_dates@.contains(d),
            forall|p: int, q: int|
                0 <= p < q < check_dates@.len() ==> (#[trigger] check_dates@[p]).number() < (
                #[trigger] check_dates@[q]).number(),
            forall|d: Date| #[trigger]
                check_dates@.contains(d) <==> snapshots.contains(d) || b.nav_dates@.take(
                    i as int,
                ).contains(d),
    {
        let d = b.nav_dates[i];
        insert_date(&mut check_dates, d);
        proof {
            lemma_one_more(b.nav_dates@, i as int);
        }
    }
    assert(b.nav_dates@.take(b.nav_dates@.len() as int) =~= b.nav_dates@);
    ImportPlan {
        has_div_ops,
        replace_div_ops,
        nav_rows: b.nav_dates.len(),
        positions,
        dividends: match b.dividends {
            Some(n) => if replace_div_ops {
                n
            } else {
                0
            },
            None => 0,
        },
        operations: match b.operations {
            Some(n) => if replace_div_ops {
                n
            } else {
                0
            },
            None => 0,
        },
        check_dates,
    }
}

proof fn lemma_total_grows(sizes: Seq<usize>, n: int)
    requires
        0 <= n <= sizes.len(),
    ensures
        0 <= total(sizes.take(n)) <= total(sizes),
    decreases sizes.len() - n, n,
{
    if n < sizes.len() {
        lemma_total_grows(sizes, n + 1);
        assert(sizes.take(n + 1).drop_last() =~= sizes.take(n));
        lemma_total_is_natural(sizes.take(n));
    } else {
        assert(sizes.take(n) =~= sizes);
        lemma_total_is_natural(sizes);
    }
}

proof fn lemma_total_is_natural(sizes: Seq<usize>)
    ensures
        total(sizes) >= 0,
    decreases sizes.len(),
{
    if sizes.len() > 0 {
        lemma_total_is_natural(sizes.drop_last());
    }
}

proof fn lemma_one_more(dates: Seq<Date>, i: int)
    requires
        0 <= i < dates.len(),
    ensures
        forall|d: Date| #[trigger]
            dates.take(i + 1).contains(d) <==> dates.take(i).contains(d) || d == dates[i],
{
    let part = dates.take(i);
    let next = dates.take(i + 1);
    assert forall|d: Date| #[trigger] next.contains(d) <==> part.contains(d) || d == dates[i] by {
        if part.contains(d) {
            assert(next[part.index_of(d)] == d);
        }
        assert(next[i] == dates[i]);
        if next.contains(d) && d != dates[i] {
            let k = next.index_of(d);
            assert(part[k] == d);
        }
    }
}

impl ImportOutcome {
    /// A file that was imported before: nothing is ingested again.
    pub fn duplicate(import_id: i64, warnings: Vec<String>) -> (r: ImportOutcome)
        ensures
            r.import_id == import_id,
            r.duplicate,
            r.nav_rows == 0,
            r.positions == 0,
            r.dividends == 0,
            r.operations == 0,
            !r.div_ops_replaced,
            r.warnings == warnings,
    {
        ImportOutcome {
            import_id,
            duplicate: true,
            nav_rows: 0,
            positions: 0,
            dividends: 0,
            operations: 0,
            div_ops_replaced: false,
            warnings,
        }
    }

    /// A file that was imported as planned.
    pub fn fresh(import_id: i64, plan: &ImportPlan, warnings: Vec<String>) -> (r: ImportOutcome)
        ensures
            r.import_id == import_id,
            !r.duplicate,
            r.nav_rows == plan.nav_rows,
            r.positions == plan.positions,
            r.dividends == plan.dividends,
            r.operations == plan.operations,
            r.div_ops_replaced == plan.replace_div_ops,
            r.warnings == warnings,
    {
        ImportOutcome {
            import_id,
            duplicate: false,
            nav_rows: plan.nav_rows,
            positions: plan.positions,
            dividends: plan.dividends,
            operations: plan.operations,
            div_ops_replaced: plan.replace_div_ops,
            warnings,
        }
    }
}

/// Whether dividends are to be derived anew after an import: its snapshots
/// may hold new receivables (it carries snapshots and no dividend journal of
/// its own), or it carried a journal and the portfolio holds derived rows,
/// which the journal may have made obsolete.
pub fn derivation_due(b: &BatchShape, has_derived_rows: bool) -> (r: bool)
    ensures
        r == ((b.dividends is None && b.snapshot_dates@.len() > 0) || (carries_journal(*b)
            && has_derived_rows)),
{
    let has_div_ops: bool = b.dividends.is_some() || b.operations.is_some();
    (b.dividends.is_none() && b.snapshot_dates.len() > 0) || (has_div_ops && has_derived_rows)
}

/// What is said of derived dividends, where there are any.
pub fn derived_warning(count: usize) -> (r: Option<String>)
    ensures
        match r {
            None => count == 0,
            Some(w) => count > 0 && w@ == crate::text::decimal(count as nat)
                + " dividend event(s) derived from receivable deltas"@,
        },
{
    if count == 0 {
        return None;
    }
    let mut w = decimal_of(count as u64);
    w.append(" dividend event(s) derived from receivable deltas");
    Some(w)
}

/// What is said of a day on which the positions and the NAV file disagree. The
/// figures come written out: two decimals, and the gap in percent with its
/// sign.
pub fn tna_warning(date: Date, total: &str, aum: &str, gap_pct: &str) -> (r: String)
    ensures
        r@ == "TNA cross-check "@ + crate::date::iso_text(date@) + ": positions sum to "@ + total@
            + " EUR but the NAV file says "@ + aum@ + " EUR ("@ + gap_pct@ + "%)"@,
{
    let mut w = "TNA cross-check ".to_string();
    w.append(date.to_iso().as_str());
    w.append(": positions sum to ");
    w.append(total);
    w.append(" EUR but the NAV file says ");
    w.append(aum);
    w.append(" EUR (");
    w.append(gap_pct);
    w.append("%)");
    w
}

/// The name that a bond's statics are read from: that of a bond which has one.
pub fn bond_name(p: &PositionRow) -> (r: Option<&String>)
    ensures
        r == if p.asset_type@ == "Obligation"@ && p.name is Some {
            Some(&p.name->0)
        } else {
            None
        },
{
    if !same_text(p.asset_type.as_str(), "Obligation") {
        return None;
    }
    match &p.name {
        None => None,
        Some(n) => Some(n),
    }
}

/// A journal that is older than one already stored replaces nothing, and what
/// replaces nothing stores no dividend and no operation.
pub proof fn law_an_older_journal_replaces_nothing(b: BatchShape, latest: Date)
    requires
        b.primary_date.number() < latest.number(),
    ensures
        !replaces(b, Some(latest)),
{
}

/// A batch replaces the stored journals exactly when it carries one and none
/// with a later date is stored; one of the same day replaces it.
pub proof fn law_what_replaces_the_stored_journals(b: BatchShape, latest: Option<Date>)
    ensures
        carries_journal(b) <==> !(b.dividends is None && b.operations is None),
        replaces(b, latest) <==> (b.dividends is Some || b.operations is Some) && (latest is None
            || latest->0.number() <= b.primary_date.number()),
{
}

/// A batch brings as many positions as its snapshots hold together.
pub proof fn law_sizes_add_up(sizes: Seq<usize>, size: usize)
    ensures
        total(sizes.push(size)) == total(sizes) + size,
        total(Seq::empty()) == 0,
{
    assert(sizes.push(size).drop_last() =~= sizes);
}

/// The days that are cross-checked are those of the snapshots and of the NAV
/// points.
pub proof fn law_what_days_a_batch_brings(b: BatchShape, d: Date)
    ensures
        brought(b, d) <==> (exists|i: int|
            0 <= i < b.snapshot_dates@.len() && #[trigger] b.snapshot_dates@[i] == d) || (exists|
            i: int,
        |
            0 <= i < b.nav_dates@.len() && #[trigger] b.nav_dates@[i] == d),
{
    if b.snapshot_dates@.contains(d) {
        let i = b.snapshot_dates@.index_of(d);
        assert(b.snapshot_dates@[i] == d);
    }
    if b.nav_dates@.contains(d) {
        let i = b.nav_dates@.index_of(d);
        assert(b.nav_dates@[i] == d);
    }
}

} // verus!
