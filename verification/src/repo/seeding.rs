//! Seeding contract specs from the futures of an import, and checking the
//! stored ones against what the positions imply.
//!
//! An unknown root is seeded, a known one is only ever read: seeding again
//! over the same positions can never overwrite a value the user has edited.
//! That is what makes it safe on a duplicate import as well as on a fresh one.

use super::imports::PositionRow;
use super::reference::FuturesContract;
use crate::futures::{contract_root, Category, PriceConvention};
use crate::number::Number;
use crate::text::{same_text, string_of, words_of};
use vstd::prelude::*;
use vstd::string::*;

verus! {

/// What is done about one position.
#[allow(inconsistent_fields)]
#[derive(Debug)]
pub enum SeedStep {
    /// It is no future.
    Passed,
    /// It cannot be identified, or not be verified.
    Warned { warning: String },
    /// Its contract is unknown: an unconfirmed spec is seeded for it.
    New {
        root: String,
        label: String,
        category: Category,
        currency: String,
        convention: PriceConvention,
        confirmed: bool,
        warning: String,
    },
    /// Its contract is known: the stored spec is checked against it.
    Known { root: String, spec: usize },
}

/// Where the spec of a root stands among the known ones. Should several be
/// stored, the last one counts.
pub open spec fn spec_of(known: Seq<FuturesContract>, root: Seq<char>) -> Option<int>
    decreases known.len(),
{
    if known.len() == 0 {
        None
    } else if known.last().contract_root@ == root {
        Some(known.len() - 1)
    } else {
        spec_of(known.drop_last(), root)
    }
}

/// What a ticker's last word states unambiguously of the category. "Comdty"
/// covers bond and commodity futures alike, so it is never guessed - the user
/// confirms it.
pub open spec fn category_of(ticker: Seq<char>) -> Category {
    let parts = crate::text::words(ticker);
    if parts.len() > 0 && parts.last() == "Index"@ {
        Category::Equity
    } else if parts.len() > 0 && parts.last() == "Curncy"@ {
        Category::Fx
    } else {
        Category::Other
    }
}

/// Whether a position has all that a point value is implied by.
pub open spec fn complete(p: PositionRow) -> bool {
    p.price is Some && p.avg_cost is Some && p.quantity is Some && p.valuation_ccy is Some
}

/// Whether a step is what is done about a position.
pub open spec fn step_of(step: SeedStep, p: PositionRow, known: Seq<FuturesContract>) -> bool {
    if p.asset_type@ != "Future"@ {
        step is Passed
    } else if p.ticker is None {
        step matches SeedStep::Warned { warning } && warning@ == p.isin@
            + ": futures row has no ticker; contract not identified"@
    } else {
        let ticker = p.ticker->0@;
        match crate::futures::root_of(ticker) {
            None => step matches SeedStep::Warned { warning } && warning@ == ticker
                + ": cannot derive a contract root"@,
            Some(found) => if !complete(p) {
                step matches SeedStep::Warned { warning } && warning@ == ticker
                    + ": incomplete row; point value not verified"@
            } else {
                match spec_of(known, found) {
                    None => step matches SeedStep::New {
                        root,
                        label,
                        category,
                        currency,
                        convention,
                        confirmed,
                        warning,
                    } && root@ == found && label@ == (if p.name is Some {
                        p.name->0@
                    } else {
                        found
                    }) && category == category_of(ticker) && currency@ == (if p.currency is Some {
                        p.currency->0@
                    } else {
                        "EUR"@
                    }) && convention is Decimal && !confirmed && warning@ == found + ": new contract seeded from "@ + ticker
                        + "; confirm its spec on the Data page"@,
                    Some(i) => step matches SeedStep::Known { root, spec } && root@ == found
                        && spec == i,
                }
            },
        }
    }
}

/// What a ticker's last word states of the category.
fn guess_category(ticker: &str) -> (r: Category)
    ensures
        r == category_of(ticker@),
{
    let parts = words_of(ticker);
    let size: usize = parts.len();
    assert(crate::text::texts(parts@).len() == size);
    if size == 0 {
        return Category::Other;
    }
    assert(crate::text::texts(parts@).last() == parts@[size - 1]@);
    let last = string_of(&parts[size - 1]);
    if same_text(last.as_str(), "Index") {
        Category::Equity
    } else if same_text(last.as_str(), "Curncy") {
        Category::Fx
    } else {
        Category::Other
    }
}

/// Where the spec of a root stands among the known ones.
fn find_spec(known: &[FuturesContract], root: &String) -> (r: Option<usize>)
    ensures
        match r {
            None => spec_of(known@, root@) is None,
            Some(i) => i < known@.len() && spec_of(known@, root@) == Some(i as int),
        },
{
    let mut i: usize = known.len();
    assert(known@.take(i as int) =~= known@);
    while i > 0
        invariant
            i <= known@.len(),
            spec_of(known@, root@) == spec_of(known@.take(i as int), root@),
        decreases i,
    {
        proof {
            assert(known@.take(i as int).drop_last() =~= known@.take(i - 1));
        }
        i = i - 1;
        if same_text(known[i].contract_root.as_str(), root.as_str()) {
            return Some(i);
        }
    }
    None
}

/// What is done about one position.
fn seed_step(p: &PositionRow, known: &[FuturesContract]) -> (r: SeedStep)
    ensures
        step_of(r, *p, known@),
{
    if !same_text(p.asset_type.as_str(), "Future") {
        return SeedStep::Passed;
    }
    let ticker = match &p.ticker {
        None => {
            let mut warning = p.isin.clone();
            warning.append(": futures row has no ticker; contract not identified");
            return SeedStep::Warned { warning };
        },
        Some(t) => t,
    };
    let root = match contract_root(ticker.as_str()) {
        None => {
            let mut warning = ticker.clone();
            warning.append(": cannot derive a contract root");
            return SeedStep::Warned { warning };
        },
        Some(root) => root,
    };
    if p.price.is_none() || p.avg_cost.is_none() || p.quantity.is_none()
        || p.valuation_ccy.is_none() {
        let mut warning = ticker.clone();
        warning.append(": incomplete row; point value not verified");
        return SeedStep::Warned { warning };
    }
    match find_spec(known, &root) {
        Some(spec) => SeedStep::Known { root, spec },
        None => {
            let mut warning = root.clone();
            warning.append(": new contract seeded from ");
            warning.append(ticker.as_str());
            warning.append("; confirm its spec on the Data page");
            SeedStep::New {
                label: match &p.name {
                    Some(n) => n.clone(),
                    None => root.clone(),
                },
                root,
                category: guess_category(ticker.as_str()),
                currency: match &p.currency {
                    Some(c) => c.clone(),
                    None => "EUR".to_string(),
                },
                convention: PriceConvention::Decimal,
                confirmed: false,
                warning,
            }
        },
    }
}

/// What is done about each position, in order: a contract spec for every
/// futures root that is not known yet, and a check of the stored spec for one
/// that is.
pub fn seed_futures_contracts(positions: &[PositionRow], known: &[FuturesContract]) -> (r: Vec<
    SeedStep,
>)
    ensures
        steps_of(r@, positions@, known@),
{
    let mut out: Vec<SeedStep> = Vec::new();
    for i in 0..positions.len()
        invariant
            out@.len() == i,
            forall|k: int| 0 <= k < i ==> step_of(#[trigger] out@[k], positions@[k], known@),
    {
        out.push(seed_step(&positions[i], known));
    }
    out
}

/// How the point value that a position implies compares with the stored one.
#[derive(Debug, Clone, Copy, PartialEq, Eq, Structural)]
pub struct PointCheck {
    /// How far the two lie apart, where the position implies one at all; a
    /// position marked at cost implies none.
    pub gap: Option<Number>,
    /// How far they lie apart with prices read in the opposite convention.
    pub other_gap: Option<Number>,
    /// How far they may lie apart: half a percent of the stored value.
    pub tolerance: Number,
}

/// The opposite convention.
pub open spec fn opposite(c: PriceConvention) -> PriceConvention {
    match c {
        PriceConvention::Decimal => PriceConvention::Th32,
        PriceConvention::Th32 => PriceConvention::Decimal,
    }
}

/// The opposite convention.
pub fn other_convention(c: PriceConvention) -> (r: PriceConvention)
    ensures
        r == opposite(c),
{
    match c {
        PriceConvention::Decimal => PriceConvention::Th32,
        PriceConvention::Th32 => PriceConvention::Decimal,
    }
}

/// What is said of a stored point value, if anything. Where the opposite
/// convention reconciles the two, it says so.
pub open spec fn point_said(
    root: Seq<char>,
    conv: PriceConvention,
    c: PointCheck,
    stored: Seq<char>,
    implied: Seq<char>,
) -> Option<Seq<char>> {
    match c.gap {
        None => None,
        Some(gap) => if gap.at_most(c.tolerance) {
            None
        } else if c.other_gap matches Some(o) && o.at_most(c.tolerance) {
            Some(
                root + ": point value implies convention "@ + opposite(conv).name() + ", stored "@
                    + conv.name(),
            )
        } else {
            Some(
                root + ": point value mismatch - stored "@ + stored + ", implied "@ + implied,
            )
        },
    }
}

/// What is said of a stored point value, if anything. `stored` and `implied`
/// are the two values written out.
pub fn point_value_warning(
    root: &String,
    conv: PriceConvention,
    c: PointCheck,
    stored: &str,
    implied: &str,
) -> (r: Option<String>)
    ensures
        match r {
            None => point_said(root@, conv, c, stored@, implied@) is None,
            Some(w) => point_said(root@, conv, c, stored@, implied@) == Some(w@),
        },
{
    let gap = match c.gap {
        None => {
            return None;
        },
        Some(g) => g,
    };
    if gap.is_at_most(&c.tolerance) {
        return None;
    }
    let reconciles: bool = match c.other_gap {
        None => false,
        Some(o) => o.is_at_most(&c.tolerance),
    };
    let mut w = root.clone();
    if reconciles {
        w.append(": point value implies convention ");
        w.append(other_convention(conv).as_str());
        w.append(", stored ");
        w.append(conv.as_str());
    } else {
        w.append(": point value mismatch - stored ");
        w.append(stored);
        w.append(", implied ");
        w.append(implied);
    }
    Some(w)
}

/// Whether the steps are what is done about some positions, one for one.
pub open spec fn steps_of(
    steps: Seq<SeedStep>,
    positions: Seq<PositionRow>,
    known: Seq<FuturesContract>,
) -> bool {
    &&& steps.len() == positions.len()
    &&& forall|i: int|
        0 <= i < positions.len() ==> step_of(#[trigger] steps[i], positions[i], known)
}

/// Whether a stored spec is the one that a step seeds. Its point value is the
/// one that the position implies, where it implies any.
pub open spec fn seeded_by(c: FuturesContract, step: SeedStep) -> bool {
    step matches SeedStep::New { root, label, category, currency, convention, confirmed, .. }
        && c.contract_root@ == root@ && c.label@ == label@ && c.category@ == category.name()
        && c.currency@ == currency@ && c.price_convention@ == convention.name() && c.confirmed
        == confirmed
}

/// Whether carrying out one step turns the stored specs into others: a new
/// root is added unless it was meanwhile, and nothing else is ever written.
pub open spec fn carries_out(
    before: Seq<FuturesContract>,
    step: SeedStep,
    after: Seq<FuturesContract>,
) -> bool {
    if step matches SeedStep::New { root, .. } && spec_of(before, root@) is None {
        &&& after.len() == before.len() + 1
        &&& after.drop_last() == before
        &&& seeded_by(after.last(), step)
    } else {
        after == before
    }
}

/// Whether tables are what is stored before, between and after some steps.
pub open spec fn history(tables: Seq<Seq<FuturesContract>>, steps: Seq<SeedStep>) -> bool {
    &&& tables.len() == steps.len() + 1
    &&& forall|i: int|
        0 <= i < steps.len() ==> carries_out(tables[i], #[trigger] steps[i], tables[i + 1])
}

/// A root that was stored stays stored, and its root is found in the table that
/// a spec was added to.
proof fn lemma_spec_stays(before: Seq<FuturesContract>, step: SeedStep, after: Seq<FuturesContract>)
    requires
        carries_out(before, step, after),
    ensures
        forall|root: Seq<char>| #[trigger]
            spec_of(before, root) is Some ==> spec_of(after, root) is Some,
        step matches SeedStep::New { root, .. } ==> spec_of(after, root@) is Some,
{
}

/// What holds after the first `n` steps.
proof fn lemma_after_steps(
    tables: Seq<Seq<FuturesContract>>,
    steps: Seq<SeedStep>,
    positions: Seq<PositionRow>,
    n: int,
)
    requires
        history(tables, steps),
        steps_of(steps, positions, tables[0]),
        0 <= n <= steps.len(),
    ensures
        tables[0].len() <= tables[n].len(),
        tables[n].take(tables[0].len() as int) == tables[0],
        forall|k: int|
            tables[0].len() <= k < tables[n].len() ==> from_a_step(#[trigger] tables[n][k], steps),
        forall|root: Seq<char>| #[trigger]
            spec_of(tables[0], root) is Some ==> spec_of(tables[n], root) is Some,
        forall|i: int|
            0 <= i < n && #[trigger] steps[i] is New ==> spec_of(tables[n], steps[i]->New_root@) is Some,
    decreases n,
{
    if n == 0 {
        assert(tables[0].take(tables[0].len() as int) =~= tables[0]);
    } else {
        lemma_after_steps(tables, steps, positions, n - 1);
        let step = steps[n - 1];
        let before = tables[n - 1];
        let after = tables[n];
        assert(carries_out(tables[n - 1], steps[n - 1], tables[n - 1 + 1]));
        lemma_spec_stays(before, step, after);
        let size = tables[0].len() as int;
        if after != before {
            assert(after.take(size) =~= after.drop_last().take(size));
        }
        assert forall|k: int| size <= k < after.len() implies from_a_step(
            #[trigger] after[k],
            steps,
        ) by {
            if k < before.len() {
                assert(after[k] == before[k]);
            } else {
                assert(seeded_by(after[k], steps[n - 1]));
            }
        }
        assert forall|i: int| 0 <= i < n && #[trigger] steps[i] is New implies spec_of(
            after,
            steps[i]->New_root@,
        ) is Some by {
            if i < n - 1 {
                assert(spec_of(before, steps[i]->New_root@) is Some);
            }
        }
    }
}

/// Whether a spec is one that some step seeds.
pub open spec fn from_a_step(c: FuturesContract, steps: Seq<SeedStep>) -> bool {
    exists|i: int| 0 <= i < steps.len() && seeded_by(c, #[trigger] steps[i])
}

/// Whether a spec is one that is seeded for a future whose ticker gives its
/// root: unconfirmed, quoted in decimals, and of the category that the ticker's
/// last word states.
pub open spec fn seeded_for(c: FuturesContract, positions: Seq<PositionRow>) -> bool {
    exists|i: int|
        0 <= i < positions.len() && (#[trigger] positions[i]).ticker is Some
            && crate::futures::root_of(positions[i].ticker->0@) == Some(c.contract_root@)
            && c.category@ == category_of(positions[i].ticker->0@).name() && c.price_convention@
            == PriceConvention::Decimal.name() && !c.confirmed
}

/// Seeding leaves every stored spec as it is, and whatever it adds is
/// unconfirmed, quoted in decimals, and of the category that its ticker states.
pub proof fn law_seeding_only_adds_unconfirmed_specs(
    tables: Seq<Seq<FuturesContract>>,
    steps: Seq<SeedStep>,
    positions: Seq<PositionRow>,
)
    requires
        steps_of(steps, positions, tables[0]),
        history(tables, steps),
    ensures
        tables[0].len() <= tables.last().len(),
        tables.last().take(tables[0].len() as int) == tables[0],
        forall|k: int|
            tables[0].len() <= k < tables.last().len() ==> seeded_for(
                #[trigger] tables.last()[k],
                positions,
            ),
{
    lemma_after_steps(tables, steps, positions, steps.len() as int);
    assert forall|k: int| tables[0].len() <= k < tables.last().len() implies seeded_for(
        #[trigger] tables.last()[k],
        positions,
    ) by {
        let c = tables.last()[k];
        assert(from_a_step(c, steps));
        let i = choose|i: int| 0 <= i < steps.len() && seeded_by(c, #[trigger] steps[i]);
        assert(step_of(steps[i], positions[i], tables[0]));
        assert(positions[i].ticker is Some);
    }
}

/// Seeding again over the same positions changes nothing: no position is new
/// any more, so a spec that the user has edited since is never written over.
/// `listed` is what is stored after the first time, in any order.
pub proof fn law_seeding_again_changes_nothing(
    tables: Seq<Seq<FuturesContract>>,
    steps: Seq<SeedStep>,
    positions: Seq<PositionRow>,
    listed: Seq<FuturesContract>,
    again: Seq<SeedStep>,
    later: Seq<Seq<FuturesContract>>,
)
    requires
        steps_of(steps, positions, tables[0]),
        history(tables, steps),
        forall|root: Seq<char>|
            #![trigger spec_of(listed, root)]
            spec_of(tables.last(), root) is Some ==> spec_of(listed, root) is Some,
        steps_of(again, positions, listed),
        history(later, again),
    ensures
        forall|i: int| 0 <= i < again.len() ==> !(#[trigger] again[i] is New),
        later.last() == later[0],
{
    lemma_after_steps(tables, steps, positions, steps.len() as int);
    assert forall|i: int| 0 <= i < again.len() implies !(#[trigger] again[i] is New) by {
        assert(step_of(again[i], positions[i], listed));
        assert(step_of(steps[i], positions[i], tables[0]));
        if again[i] is New {
            let root = again[i]->New_root@;
            assert(spec_of(listed, root) is None);
            if steps[i] is New {
                assert(spec_of(tables.last(), steps[i]->New_root@) is Some);
            } else {
                assert(spec_of(tables[0], root) is Some);
            }
        }
    }
    lemma_nothing_written(later, again, again.len() as int);
}

/// Steps that seed nothing leave what is stored as it is.
proof fn lemma_nothing_written(
    tables: Seq<Seq<FuturesContract>>,
    steps: Seq<SeedStep>,
    n: int,
)
    requires
        history(tables, steps),
        forall|i: int| 0 <= i < steps.len() ==> !(#[trigger] steps[i] is New),
        0 <= n <= steps.len(),
    ensures
        tables[n] == tables[0],
    decreases n,
{
    if n > 0 {
        lemma_nothing_written(tables, steps, n - 1);
        assert(carries_out(tables[n - 1], steps[n - 1], tables[n - 1 + 1]));
    }
}

/// The spec of a root is the last one stored under it.
pub proof fn law_the_last_stored_spec_counts(known: Seq<FuturesContract>, root: Seq<char>)
    ensures
        match spec_of(known, root) {
            None => forall|k: int|
                0 <= k < known.len() ==> (#[trigger] known[k]).contract_root@ != root,
            Some(i) => 0 <= i < known.len() && known[i].contract_root@ == root && forall|k: int|
                i < k < known.len() ==> (#[trigger] known[k]).contract_root@ != root,
        },
    decreases known.len(),
{
    if known.len() > 0 {
        let rest = known.drop_last();
        law_the_last_stored_spec_counts(rest, root);
        assert(known.last() == known[known.len() - 1]);
        assert forall|k: int| 0 <= k < rest.len() implies rest[k] == #[trigger] known[k] by {}
    }
}

/// Only an index and a currency state their category; anything else is left for
/// the user to confirm.
pub proof fn law_what_a_ticker_states_of_its_category(ticker: Seq<char>)
    ensures
        ({
            let parts = crate::text::words(ticker);
            &&& category_of(ticker) is Equity <==> parts.len() > 0 && parts[parts.len() - 1]
                == "Index"@
            &&& category_of(ticker) is Fx <==> parts.len() > 0 && parts[parts.len() - 1]
                == "Curncy"@
            &&& !(category_of(ticker) is Equity) && !(category_of(ticker) is Fx) ==> category_of(
                ticker,
            ) is Other
        }),
{
    reveal_strlit("Index");
    reveal_strlit("Curncy");
    assert("Index"@.len() != "Curncy"@.len());
}

/// What is done about a position: nothing unless it is a future; a new spec
/// exactly where a complete row gives a root that nothing is stored under; a
/// check against the stored spec of that very root where something is; and a
/// warning everywhere else.
pub proof fn law_what_is_done_about_a_position(
    step: SeedStep,
    p: PositionRow,
    known: Seq<FuturesContract>,
)
    requires
        step_of(step, p, known),
    ensures
        ({
            let identified = p.asset_type@ == "Future"@ && p.ticker is Some
                && crate::futures::root_of(p.ticker->0@) is Some;
            let root = crate::futures::root_of(p.ticker->0@)->0;
            let full = p.price is Some && p.avg_cost is Some && p.quantity is Some
                && p.valuation_ccy is Some;
            let stored = exists|k: int|
                0 <= k < known.len() && (#[trigger] known[k]).contract_root@ == root;
            &&& step is Passed <==> p.asset_type@ != "Future"@
            &&& step is New <==> identified && full && !stored
            &&& step is Known <==> identified && full && stored
            &&& step matches SeedStep::Known { root: found, spec } ==> found@ == root && spec
                < known.len() && known[spec as int].contract_root@ == root
            &&& step matches SeedStep::New {
                root: found,
                label,
                category,
                currency,
                convention,
                confirmed,
                warning,
            } ==> {
                &&& found@ == root
                &&& label@ == (match p.name {
                    Some(n) => n@,
                    None => root,
                })
                &&& category == category_of(p.ticker->0@)
                &&& currency@ == (match p.currency {
                    Some(c) => c@,
                    None => "EUR"@,
                })
                &&& convention is Decimal
                &&& !confirmed
                &&& warning@ == root + ": new contract seeded from "@ + p.ticker->0@
                    + "; confirm its spec on the Data page"@
            }
            &&& step matches SeedStep::Warned { warning } ==> warning@ == (if p.ticker is None {
                p.isin@ + ": futures row has no ticker; contract not identified"@
            } else if !identified {
                p.ticker->0@ + ": cannot derive a contract root"@
            } else {
                p.ticker->0@ + ": incomplete row; point value not verified"@
            })
        }),
{
    if p.ticker is Some && crate::futures::root_of(p.ticker->0@) is Some {
        law_the_last_stored_spec_counts(known, crate::futures::root_of(p.ticker->0@)->0);
    }
}

/// A stored point value is objected to exactly where the position implies one
/// that lies further off than it may; the objection is to the convention where
/// the opposite one reconciles the two, and to the value where it does not.
pub proof fn law_when_a_point_value_is_objected_to(
    root: Seq<char>,
    conv: PriceConvention,
    c: PointCheck,
    stored: Seq<char>,
    implied: Seq<char>,
)
    ensures
        ({
            let said = point_said(root, conv, c, stored, implied);
            let off = c.gap is Some && !c.gap->0.at_most(c.tolerance);
            let reconciled = c.other_gap is Some && c.other_gap->0.at_most(c.tolerance);
            &&& said is Some <==> off
            &&& off && reconciled ==> said == Some(
                root + ": point value implies convention "@ + (if conv is Decimal {
                    "th32"@
                } else {
                    "decimal"@
                }) + ", stored "@ + (if conv is Decimal {
                    "decimal"@
                } else {
                    "th32"@
                }),
            )
            &&& off && !reconciled ==> said == Some(
                root + ": point value mismatch - stored "@ + stored + ", implied "@ + implied,
            )
        }),
        opposite(conv) != conv,
{
}

} // verus!
