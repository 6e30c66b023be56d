//! Futures exposure: contract identification, which notionals can be computed,
//! and how they are counted.
//!
//! A NAV recap reports a future's valuation as variation margin, not market
//! value, so exposure has to be rebuilt from quantity, price and the
//! contract's point value.

use crate::number::Number;
use crate::order::pick_rows;
use crate::text::{part_of, same_text, string_of, words_of};
use vstd::prelude::*;

verus! {

/// How a contract's price is quoted.
#[derive(Debug, Clone, Copy, PartialEq, Eq, Structural)]
pub enum PriceConvention {
    /// The quoted number is the price.
    Decimal,
    /// Thirty-seconds: `108.105` means `108-10.5`, i.e. 108 + 10.5/32.
    Th32,
}

impl PriceConvention {
    /// The name a convention is stored under.
    pub open spec fn name(self) -> Seq<char> {
        match self {
            PriceConvention::Decimal => "decimal"@,
            PriceConvention::Th32 => "th32"@,
        }
    }

    /// The convention stored under a name.
    pub fn parse(s: &str) -> (r: Option<Self>)
        ensures
            forall|c: PriceConvention| r == Some(c) <==> s@ == #[trigger] c.name(),
    {
        proof {
            reveal_strlit("decimal");
            reveal_strlit("th32");
            assert("decimal"@.len() != "th32"@.len());
        }
        if same_text(s, "decimal") {
            Some(PriceConvention::Decimal)
        } else if same_text(s, "th32") {
            Some(PriceConvention::Th32)
        } else {
            None
        }
    }

    /// The name a convention is stored under.
    pub fn as_str(&self) -> (r: &'static str)
        ensures
            r@ == self.name(),
    {
        match self {
            PriceConvention::Decimal => "decimal",
            PriceConvention::Th32 => "th32",
        }
    }
}

/// The root of a contract: the first word of its ticker less two characters,
/// where the word is ASCII and anything is left.
pub open spec fn root_of(ticker: Seq<char>) -> Option<Seq<char>> {
    let parts = crate::text::words(ticker);
    if parts.len() == 0 {
        None
    } else if parts[0].len() < 3 || exists|i: int|
        0 <= i < parts[0].len() && #[trigger] parts[0][i] > '\u{7f}' {
        None
    } else {
        Some(parts[0].take(parts[0].len() - 2))
    }
}

/// Contract root from a Bloomberg ticker: the symbol before the space, minus
/// its trailing month letter and year digit. `"RXU6 Comdty"` -> `"RX"`.
/// Stable across quarterly rolls, unlike the contracts' ISINs.
pub fn contract_root(ticker: &str) -> (r: Option<String>)
    ensures
        match r {
            None => root_of(ticker@) is None,
            Some(root) => root_of(ticker@) == Some(root@),
        },
{
    let parts = words_of(ticker);
    if parts.len() == 0 {
        assert(crate::text::texts(parts@).len() == 0);
        return None;
    }
    let sym = &parts[0];
    assert(crate::text::texts(parts@)[0] == sym@);
    let size: usize = sym.len();
    for i in 0..size
        invariant
            size == sym@.len(),
            crate::text::words(ticker@).len() > 0,
            crate::text::words(ticker@)[0] == sym@,
            forall|j: int| 0 <= j < i ==> sym@[j] <= '\u{7f}',
    {
        if sym[i] > '\u{7f}' {
            return None;
        }
    }
    if size < 3 {
        return None;
    }
    let root = part_of(sym, 0, size - 2);
    assert(sym@.subrange(0, size - 2) =~= sym@.take(size - 2));
    Some(string_of(&root))
}

/// Derivative category for the exposure disclosure. The six standard
/// regulatory categories; only three have holdings today.
#[derive(Debug, Clone, Copy, PartialEq, Eq, Structural)]
pub enum Category {
    Equity,
    InterestRate,
    Fx,
    Credit,
    Commodity,
    Other,
}

impl Category {
    /// Every category, in the order of the disclosure.
    pub open spec fn every() -> Seq<Category> {
        seq![
            Category::Equity,
            Category::InterestRate,
            Category::Fx,
            Category::Credit,
            Category::Commodity,
            Category::Other,
        ]
    }

    /// The name a category is stored under.
    pub open spec fn name(self) -> Seq<char> {
        match self {
            Category::Equity => "equity"@,
            Category::InterestRate => "interest_rate"@,
            Category::Fx => "fx"@,
            Category::Credit => "credit"@,
            Category::Commodity => "commodity"@,
            Category::Other => "other"@,
        }
    }

    /// Every category, in the order of the disclosure.
    pub fn all() -> (r: Vec<Category>)
        ensures
            r@ == Category::every(),
    {
        let r = vec![
            Category::Equity,
            Category::InterestRate,
            Category::Fx,
            Category::Credit,
            Category::Commodity,
            Category::Other,
        ];
        assert(r@ =~= Category::every());
        r
    }

    /// The category stored under a name.
    pub fn parse(s: &str) -> (r: Option<Self>)
        ensures
            forall|c: Category| r == Some(c) <==> s@ == #[trigger] c.name(),
    {
        proof {
            law_category_names_are_distinct();
        }
        let all = Category::all();
        for i in 0..all.len()
            invariant
                all@ == Category::every(),
                forall|j: int| 0 <= j < i ==> s@ != (#[trigger] all@[j]).name(),
                forall|a: Category, b: Category| #[trigger]
                    a.name() == #[trigger] b.name() ==> a == b,
        {
            if same_text(all[i].as_str(), s) {
                return Some(all[i]);
            }
        }
        proof {
            assert forall|c: Category| s@ != #[trigger] c.name() by {
                lemma_every_category_is_listed(c);
                let k = Category::every().index_of(c);
                assert(all@[k] == c);
            }
        }
        None
    }

    /// The name a category is stored under.
    pub fn as_str(&self) -> (r: &'static str)
        ensures
            r@ == self.name(),
    {
        match self {
            Category::Equity => "equity",
            Category::InterestRate => "interest_rate",
            Category::Fx => "fx",
            Category::Credit => "credit",
            Category::Commodity => "commodity",
            Category::Other => "other",
        }
    }
}

/// No two categories share a name.
pub proof fn law_category_names_are_distinct()
    ensures
        forall|a: Category, b: Category| #[trigger] a.name() == #[trigger] b.name() ==> a == b,
{
    reveal_strlit("equity");
    reveal_strlit("interest_rate");
    reveal_strlit("fx");
    reveal_strlit("credit");
    reveal_strlit("commodity");
    reveal_strlit("other");
    assert forall|a: Category, b: Category| #[trigger] a.name() == #[trigger] b.name() implies a
        == b by {
        assert(a.name().len() == b.name().len());
        assert(a.name()[0] == b.name()[0]);
    }
}

/// The list of categories leaves none out.
pub proof fn lemma_every_category_is_listed(c: Category)
    ensures
        Category::every().contains(c),
{
    let e = Category::every();
    assert(e[0] is Equity && e[1] is InterestRate && e[2] is Fx && e[3] is Credit && e[4]
        is Commodity && e[5] is Other);
}

/// One futures position, with its price already decoded and its spec resolved.
///
/// `qty` and `price` are optional because the source workbook tolerates an
/// empty cell without raising a row error, and a missing input must never be
/// absorbed into a zero: a zero quantity or a zero price is a real, computable
/// position, whereas an absent one is not.
#[derive(Debug, Clone)]
pub struct FuturePosition {
    pub ticker: String,
    pub name: String,
    pub currency: String,
    pub category: Category,
    pub qty: Option<Number>,
    pub price: Option<Number>,
    pub point_value: Option<Number>,
    pub fx_rate: Option<Number>,
    /// The contract spec exists but the user has not yet verified it, so every
    /// figure derived from it is provisional.
    pub unconfirmed: bool,
}

/// One line of the exposure disclosure.
#[derive(Debug, Clone)]
pub struct ExposureRow {
    pub ticker: String,
    pub name: String,
    pub currency: String,
    pub category: Category,
    pub qty: Option<Number>,
    pub price: Option<Number>,
    pub point_value: Option<Number>,
    pub notional_ccy: Option<Number>,
    pub notional_eur: Option<Number>,
    pub pct_nav: Option<Number>,
    pub spec_missing: bool,
    /// True when the row's own quantity or price was absent from the workbook,
    /// as opposed to its contract spec being absent (`spec_missing`).
    pub inputs_missing: bool,
    /// True when the contract spec behind this row is still unconfirmed, so the
    /// notional is provisional. Marks the number itself, not just the page.
    pub unconfirmed: bool,
}

/// Which figures of a position can be computed from what is known of it.
#[derive(Debug, Clone, Copy, PartialEq, Eq, Structural)]
pub struct Computable {
    /// The notional in contract currency.
    pub ccy: bool,
    /// The notional in EUR.
    pub eur: bool,
    /// The share of net assets.
    pub pct: bool,
}

/// The figures of a position, as far as they can be computed; what cannot be
/// is not looked at.
#[derive(Debug, Clone, Copy, PartialEq, Eq, Structural)]
pub struct Notional {
    /// `qty * point_value * price`.
    pub ccy: Number,
    /// That at the position's FX rate.
    pub eur: Number,
    /// That over net assets.
    pub pct: Number,
}

/// Whether the notional in contract currency can be computed.
pub open spec fn has_ccy(p: FuturePosition) -> bool {
    p.point_value is Some && p.qty is Some && p.price is Some
}

/// Whether the notional in EUR can be computed.
pub open spec fn has_eur(p: FuturePosition) -> bool {
    has_ccy(p) && p.fx_rate is Some
}

/// Whether the share of net assets can be computed.
pub open spec fn has_pct(p: FuturePosition, aum: Number) -> bool {
    has_eur(p) && aum.positive()
}

/// Which figures of a position can be computed.
pub fn computable(p: &FuturePosition, aum: Number) -> (r: Computable)
    ensures
        r.ccy == has_ccy(*p),
        r.eur == has_eur(*p),
        r.pct == has_pct(*p, aum),
{
    let ccy: bool = p.point_value.is_some() && p.qty.is_some() && p.price.is_some();
    let eur: bool = ccy && p.fx_rate.is_some();
    Computable { ccy, eur, pct: eur && aum.is_positive() }
}

/// Whether a line is the one of a position, given its figures: a figure is
/// shown exactly where it can be computed.
pub open spec fn line_of(row: ExposureRow, p: FuturePosition, aum: Number, n: Notional) -> bool {
    &&& row.ticker@ == p.ticker@
    &&& row.name@ == p.name@
    &&& row.currency@ == p.currency@
    &&& row.category == p.category
    &&& row.qty == p.qty
    &&& row.price == p.price
    &&& row.point_value == p.point_value
    &&& row.notional_ccy == if has_ccy(p) {
        Some(n.ccy)
    } else {
        None
    }
    &&& row.notional_eur == if has_eur(p) {
        Some(n.eur)
    } else {
        None
    }
    &&& row.pct_nav == if has_pct(p, aum) {
        Some(n.pct)
    } else {
        None
    }
    &&& row.spec_missing == p.point_value is None
    &&& row.inputs_missing == (p.qty is None || p.price is None)
    &&& row.unconfirmed == p.unconfirmed
}

/// Which lines a category counts on one side: the longs with a share above
/// zero, the shorts with one below.
#[derive(Debug)]
pub struct CategoryLines {
    pub category: Category,
    pub long: Vec<usize>,
    pub short: Vec<usize>,
}

/// Whether a line is a long of a category.
pub open spec fn is_long(row: ExposureRow, category: Category) -> bool {
    row.category == category && (row.pct_nav matches Some(p) && p.positive())
}

/// Whether a line is a short of a category.
pub open spec fn is_short(row: ExposureRow, category: Category) -> bool {
    row.category == category && (row.pct_nav matches Some(p) && p.negative())
}

/// The tickers of the positions that have no share of net assets, in order.
pub open spec fn left_out(positions: Seq<FuturePosition>, aum: Number) -> Seq<Seq<char>>
    decreases positions.len(),
{
    if positions.len() == 0 {
        Seq::empty()
    } else if has_pct(positions.last(), aum) {
        left_out(positions.drop_last(), aum)
    } else {
        left_out(positions.drop_last(), aum).push(positions.last().ticker@)
    }
}

/// The exposure disclosure before it is summed.
#[derive(Debug)]
pub struct Exposure {
    pub rows: Vec<ExposureRow>,
    /// One entry per category, in the order of the disclosure, empty ones
    /// included.
    pub categories: Vec<CategoryLines>,
    /// Tickers left out of the totals for want of a spec, an FX rate or an AUM.
    pub excluded: Vec<String>,
}

/// Notional exposure by reference to the underlying: the lines, which of them
/// each category counts long and short, and what is left out. Long and short
/// are kept apart, without netting.
pub fn exposure(positions: &[FuturePosition], aum: Number, notionals: &[Notional]) -> (r: Exposure)
    requires
        notionals@.len() == positions@.len(),
    ensures
        r.rows@.len() == positions@.len(),
        forall|i: int|
            0 <= i < positions@.len() ==> line_of(
                #[trigger] r.rows@[i],
                positions@[i],
                aum,
                notionals@[i],
            ),
        r.categories@.len() == Category::every().len(),
        forall|c: int|
            0 <= c < r.categories@.len() ==> (#[trigger] r.categories@[c]).category
                == Category::every()[c] && crate::order::picks(
                r.categories@[c].long@,
                r.rows@.map_values(|x: ExposureRow| is_long(x, Category::every()[c])),
            ) && crate::order::picks(
                r.categories@[c].short@,
                r.rows@.map_values(|x: ExposureRow| is_short(x, Category::every()[c])),
            ),
        crate::text::said(r.excluded@) == left_out(positions@, aum),
{
    let mut rows: Vec<ExposureRow> = Vec::new();
    let mut excluded: Vec<String> = Vec::new();
    for i in 0..positions.len()
        invariant
            notionals@.len() == positions@.len(),
            rows@.len() == i,
            forall|j: int|
                0 <= j < i ==> line_of(#[trigger] rows@[j], positions@[j], aum, notionals@[j]),
            crate::text::said(excluded@) == left_out(positions@.take(i as int), aum),
    {
        let p = &positions[i];
        let can = computable(p, aum);
        let n = notionals[i];
        proof {
            assert(positions@.take(i + 1).drop_last() =~= positions@.take(i as int));
        }
        if !can.pct {
            excluded.push(p.ticker.clone());
            proof {
                assert(crate::text::said(excluded@) =~= left_out(positions@.take(i + 1), aum));
            }
        }
        rows.push(
            ExposureRow {
                ticker: p.ticker.clone(),
                name: p.name.clone(),
                currency: p.currency.clone(),
                category: p.category,
                qty: p.qty,
                price: p.price,
                point_value: p.point_value,
                notional_ccy: if can.ccy {
                    Some(n.ccy)
                } else {
                    None
                },
                notional_eur: if can.eur {
                    Some(n.eur)
                } else {
                    None
                },
                pct_nav: if can.pct {
                    Some(n.pct)
                } else {
                    None
                },
                spec_missing: p.point_value.is_none(),
                inputs_missing: p.qty.is_none() || p.price.is_none(),
                unconfirmed: p.unconfirmed,
            },
        );
    }
    assert(positions@.take(positions@.len() as int) =~= positions@);
    let all = Category::all();
    let mut categories: Vec<CategoryLines> = Vec::new();
    for c in 0..all.len()
        invariant
            all@ == Category::every(),
            categories@.len() == c,
            forall|k: int|
                0 <= k < c ==> (#[trigger] categories@[k]).category == Category::every()[k]
                    && crate::order::picks(
                    categories@[k].long@,
                    rows@.map_values(|x: ExposureRow| is_long(x, Category::every()[k])),
                ) && crate::order::picks(
                    categories@[k].short@,
                    rows@.map_values(|x: ExposureRow| is_short(x, Category::every()[k])),
                ),
    {
        let category = all[c];
        let (long, short) = sides_of(&rows, category);
        categories.push(CategoryLines { category, long, short });
    }
    Exposure { rows, categories, excluded }
}

/// The lines of a category, long and short.
fn sides_of(rows: &Vec<ExposureRow>, category: Category) -> (r: (Vec<usize>, Vec<usize>))
    ensures
        crate::order::picks(r.0@, rows@.map_values(|x: ExposureRow| is_long(x, category))),
        crate::order::picks(r.1@, rows@.map_values(|x: ExposureRow| is_short(x, category))),
{
    let mut long: Vec<bool> = Vec::new();
    let mut short: Vec<bool> = Vec::new();
    for i in 0..rows.len()
        invariant
            long@.len() == i,
            short@.len() == i,
            forall|j: int| 0 <= j < i ==> (#[trigger] long@[j]) == is_long(rows@[j], category),
            forall|j: int| 0 <= j < i ==> (#[trigger] short@[j]) == is_short(rows@[j], category),
    {
        let mine: bool = rows[i].category == category;
        match rows[i].pct_nav {
            Some(p) => {
                long.push(mine && p.is_positive());
                short.push(mine && p.is_negative());
            },
            None => {
                long.push(false);
                short.push(false);
            },
        }
    }
    assert(long@ =~= rows@.map_values(|x: ExposureRow| is_long(x, category)));
    assert(short@ =~= rows@.map_values(|x: ExposureRow| is_short(x, category)));
    (pick_rows(&long), pick_rows(&short))
}

/// Whether the point value that a valuation implies can be used. It cannot
/// when the position is marked at its average cost (the gap between price and
/// cost is within tolerance), when the quantity is zero, or when the result is
/// not a positive finite number.
pub fn accept_point_value(
    gap: Number,
    tolerance: Number,
    qty: Number,
    implied: Number,
) -> (r: Option<Number>)
    ensures
        r == if gap.below(tolerance) || (!qty.nan() && qty.place() == 0) || !implied.finite()
            || !implied.positive() {
            None
        } else {
            Some(implied)
        },
{
    if gap.is_below(&tolerance) {
        return None;
    }
    let zero = Number::zero();
    if qty.is_at_most(&zero) && zero.is_at_most(&qty) {
        return None;
    }
    if implied.is_finite() && implied.is_positive() {
        Some(implied)
    } else {
        None
    }
}

/// Whether a bond future has a DV01: its conversion factor and point value are
/// not at or below zero.
pub fn has_dv01(conversion_factor: Number, point_value: Number) -> (r: bool)
    ensures
        r == !(conversion_factor.at_most(Number { bits: 0 }) || point_value.at_most(
            Number { bits: 0 },
        )),
{
    let zero = Number::zero();
    !(conversion_factor.is_at_most(&zero) || point_value.is_at_most(&zero))
}

/// A line counts on at most one side and in one category.
pub proof fn law_a_line_counts_once(row: ExposureRow, a: Category, b: Category)
    ensures
        is_long(row, a) && is_long(row, b) ==> a == b,
        is_short(row, a) && is_short(row, b) ==> a == b,
        !(is_long(row, a) && is_short(row, b)),
{
}

/// A position shows a share of net assets only where nothing is missing: a
/// share of zero means a flat position, never a missing input.
pub proof fn law_a_shown_share_is_no_gap(
    row: ExposureRow,
    p: FuturePosition,
    aum: Number,
    n: Notional,
)
    requires
        line_of(row, p, aum, n),
        row.pct_nav is Some,
    ensures
        !row.spec_missing,
        !row.inputs_missing,
        row.notional_ccy is Some,
        row.notional_eur is Some,
{
}

/// The root of a contract survives every roll: whatever month and year follow
/// it in the ticker's symbol, the root is what is read back.
pub proof fn law_a_root_survives_a_roll(
    root: Seq<char>,
    month: char,
    year: char,
    rest: Seq<char>,
)
    requires
        root.len() > 0,
        forall|i: int|
            0 <= i < root.len() ==> (#[trigger] root[i]) <= '\u{7f}' && !crate::text::white_space(
                root[i],
            ),
        month <= '\u{7f}' && !crate::text::white_space(month),
        year <= '\u{7f}' && !crate::text::white_space(year),
        rest.len() > 0 ==> crate::text::white_space(rest[0]),
    ensures
        root_of(root.push(month).push(year) + rest) == Some(root),
{
    let symbol = root.push(month).push(year);
    crate::text::lemma_first_word(symbol, rest);
    assert(symbol.take(symbol.len() - 2) =~= root);
}

/// What conventions and categories are stored as.
pub proof fn law_names_that_are_stored()
    ensures
        PriceConvention::Decimal.name() == "decimal"@,
        PriceConvention::Th32.name() == "th32"@,
        Category::Equity.name() == "equity"@,
        Category::InterestRate.name() == "interest_rate"@,
        Category::Fx.name() == "fx"@,
        Category::Credit.name() == "credit"@,
        Category::Commodity.name() == "commodity"@,
        Category::Other.name() == "other"@,
        Category::every().len() == 6,
        Category::every()[0] is Equity && Category::every()[1] is InterestRate
            && Category::every()[2] is Fx && Category::every()[3] is Credit
            && Category::every()[4] is Commodity && Category::every()[5] is Other,
{
}

/// A ticker has a root exactly when its first word is of ASCII characters and
/// has three of them at least; the root is that word without its last two.
pub proof fn law_a_root_is_the_first_word_without_month_and_year(ticker: Seq<char>)
    ensures
        ({
            let parts = crate::text::words(ticker);
            &&& root_of(ticker) is Some <==> parts.len() > 0 && parts[0].len() >= 3
                && crate::text::ascii(parts[0])
            &&& root_of(ticker) is Some ==> root_of(ticker)->0.len() + 2 == parts[0].len()
                && root_of(ticker)->0.is_prefix_of(parts[0])
        }),
{
}

/// A notional is computed exactly where everything it is made of is there: point
/// value, quantity and price; for EUR also the FX rate; for the share of net
/// assets also net assets above zero.
pub proof fn law_what_can_be_computed(p: FuturePosition, aum: Number)
    ensures
        has_ccy(p) <==> p.point_value is Some && p.qty is Some && p.price is Some,
        has_eur(p) <==> p.point_value is Some && p.qty is Some && p.price is Some && p.fx_rate is Some,
        has_pct(p, aum) <==> p.point_value is Some && p.qty is Some && p.price is Some
            && p.fx_rate is Some && aum.positive(),
{
}

/// A line says what its position says, shows each figure exactly where it can be
/// computed, and marks what is missing.
pub proof fn law_what_a_line_shows(
    row: ExposureRow,
    p: FuturePosition,
    aum: Number,
    n: Notional,
)
    requires
        line_of(row, p, aum, n),
    ensures
        row.ticker@ == p.ticker@ && row.name@ == p.name@ && row.currency@ == p.currency@,
        row.category == p.category && row.qty == p.qty && row.price == p.price && row.point_value
            == p.point_value,
        row.notional_ccy is Some <==> p.point_value is Some && p.qty is Some && p.price is Some,
        row.notional_ccy is Some ==> row.notional_ccy == Some(n.ccy),
        row.notional_eur is Some <==> row.notional_ccy is Some && p.fx_rate is Some,
        row.notional_eur is Some ==> row.notional_eur == Some(n.eur),
        row.pct_nav is Some <==> row.notional_eur is Some && aum.positive(),
        row.pct_nav is Some ==> row.pct_nav == Some(n.pct),
        row.spec_missing <==> p.point_value is None,
        row.inputs_missing <==> p.qty is None || p.price is None,
        row.unconfirmed == p.unconfirmed,
{
}

/// A line is long in its own category with a share above zero, and short with
/// one below; one without a share, or with a share of zero, is neither.
pub proof fn law_what_is_long_and_what_is_short(row: ExposureRow, category: Category)
    ensures
        is_long(row, category) <==> row.category == category && row.pct_nav is Some
            && row.pct_nav->0.positive(),
        is_short(row, category) <==> row.category == category && row.pct_nav is Some
            && row.pct_nav->0.negative(),
{
}

/// What is left out are the positions without a share of net assets, by their
/// tickers and in their order.
pub proof fn law_what_is_left_out(positions: Seq<FuturePosition>, aum: Number)
    ensures
        left_out(positions, aum) == positions.filter(
            |p: FuturePosition|
                p.point_value is None || p.qty is None || p.price is None || p.fx_rate is None
                    || !aum.positive(),
        ).map_values(|p: FuturePosition| p.ticker@),
    decreases positions.len(),
{
    reveal(Seq::filter);
    let gone = |p: FuturePosition|
        p.point_value is None || p.qty is None || p.price is None || p.fx_rate is None
            || !aum.positive();
    let name = |p: FuturePosition| p.ticker@;
    if positions.len() > 0 {
        law_what_is_left_out(positions.drop_last(), aum);
        assert(left_out(positions, aum) =~= positions.filter(gone).map_values(name));
    } else {
        assert(left_out(positions, aum) =~= positions.filter(gone).map_values(name));
    }
}

} // verus!
