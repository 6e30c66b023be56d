//! Dividends derived from receivables.
//!
//! The derived set is a pure function of the snapshots - delete and rebuild -
//! so that files loaded late converge in any order. Change detection runs on
//! the local-currency value: FX moves on a foreign receivable emit nothing.
//! The first snapshot is baseline only (its receivables existed before
//! monitoring started). Dates carrying an explicit dividend are skipped
//! entirely.

use crate::date::Date;
use crate::number::Number;
use crate::order::{is_text_before, pick_rows};
use crate::text::same_text;
use vstd::prelude::*;

verus! {

/// One receivable of a snapshot.
#[derive(Debug, Clone)]
pub struct Receivable {
    pub date: Date,
    pub isin: String,
    pub name: Option<String>,
    pub currency: Option<String>,
    /// The value in local currency.
    pub local: Option<Number>,
}

/// What receivables are followed by: the instrument and the currency.
#[derive(Debug, Clone)]
pub struct SeriesKey {
    pub isin: String,
    pub currency: String,
}

/// The currency of a receivable; none stated means EUR.
pub open spec fn currency_of(r: Receivable) -> Seq<char> {
    match r.currency {
        Some(c) => c@,
        None => "EUR"@,
    }
}

/// Whether a receivable belongs to a series. One without a value belongs to
/// none.
pub open spec fn belongs(r: Receivable, k: SeriesKey) -> bool {
    r.local is Some && r.isin@ == k.isin@ && currency_of(r) == k.currency@
}

/// Whether one series comes before another: by instrument, then by currency.
pub open spec fn key_before(a: SeriesKey, b: SeriesKey) -> bool {
    ||| crate::order::text_before(a.isin@, b.isin@)
    ||| a.isin@ == b.isin@ && crate::order::text_before(a.currency@, b.currency@)
}

/// Whether some series has a receivable.
pub open spec fn held(rows: Seq<Receivable>, n: int, k: SeriesKey) -> bool {
    exists|i: int| 0 <= i < n && belongs(#[trigger] rows[i], k)
}

/// Whether keys are the series of the first `n` receivables: in order and each
/// once, each with a receivable, and every receivable with a value in one.
pub open spec fn series(keys: Seq<SeriesKey>, rows: Seq<Receivable>, n: int) -> bool {
    &&& keys_in_order(keys)
    &&& each_held(keys, rows, n)
    &&& forall|i: int|
        0 <= i < n && (#[trigger] rows[i]).local is Some ==> has_series(keys, rows[i])
}

/// Whether every series has a receivable.
#[verifier::opaque]
pub open spec fn each_held(keys: Seq<SeriesKey>, rows: Seq<Receivable>, n: int) -> bool {
    forall|i: int| 0 <= i < keys.len() ==> held(rows, n, #[trigger] keys[i])
}

/// Whether a receivable belongs to one of some series.
pub open spec fn has_series(keys: Seq<SeriesKey>, r: Receivable) -> bool {
    exists|k: int| 0 <= k < keys.len() && belongs(r, #[trigger] keys[k])
}

/// The currency of a receivable.
fn stated_currency(r: &Receivable) -> (c: String)
    ensures
        c@ == currency_of(*r),
{
    match &r.currency {
        Some(c) => c.clone(),
        None => "EUR".to_string(),
    }
}

fn is_key_before(a: &SeriesKey, b: &SeriesKey) -> (r: bool)
    ensures
        r == key_before(*a, *b),
{
    if is_text_before(a.isin.as_str(), b.isin.as_str()) {
        return true;
    }
    same_text(a.isin.as_str(), b.isin.as_str()) && is_text_before(
        a.currency.as_str(),
        b.currency.as_str(),
    )
}

fn same_key(a: &SeriesKey, b: &SeriesKey) -> (r: bool)
    ensures
        r == (a.isin@ == b.isin@ && a.currency@ == b.currency@),
{
    same_text(a.isin.as_str(), b.isin.as_str()) && same_text(
        a.currency.as_str(),
        b.currency.as_str(),
    )
}

proof fn lemma_keys_are_ordered(a: SeriesKey, b: SeriesKey)
    ensures
        (a.isin@ == b.isin@ && a.currency@ == b.currency@) || key_before(a, b) || key_before(b, a),
        !(key_before(a, b) && key_before(b, a)),
        key_before(a, b) ==> !(a.isin@ == b.isin@ && a.currency@ == b.currency@),
{
    crate::order::lemma_texts_are_ordered(a.isin@, b.isin@);
    crate::order::lemma_texts_are_ordered(b.isin@, a.isin@);
    crate::order::lemma_texts_are_ordered(a.currency@, b.currency@);
    crate::order::lemma_texts_are_ordered(b.currency@, a.currency@);
}

proof fn lemma_key_order_carries_over(a: SeriesKey, b: SeriesKey, c: SeriesKey)
    requires
        key_before(a, b),
        key_before(b, c),
    ensures
        key_before(a, c),
{
    if crate::order::text_before(a.isin@, b.isin@) && crate::order::text_before(b.isin@, c.isin@) {
        crate::order::lemma_text_order_carries_over(a.isin@, b.isin@, c.isin@);
    }
    if crate::order::text_before(a.currency@, b.currency@) && crate::order::text_before(
        b.currency@,
        c.currency@,
    ) {
        crate::order::lemma_text_order_carries_over(a.currency@, b.currency@, c.currency@);
    }
}

/// The series of some receivables.
fn series_of(rows: &[Receivable]) -> (r: Vec<SeriesKey>)
    ensures
        series(r@, rows@, rows@.len() as int),
{
    let mut keys: Vec<SeriesKey> = Vec::new();
    proof {
        reveal(each_held);
    }
    for i in 0..rows.len()
        invariant
            series(keys@, rows@, i as int),
    {
        let ghost before = keys@;
        if rows[i].local.is_some() {
            let key = SeriesKey {
                isin: rows[i].isin.clone(),
                currency: stated_currency(&rows[i]),
            };
            assert(belongs(rows@[i as int], key));
            let mut at: usize = 0;
            while at < keys.len() && is_key_before(&keys[at], &key)
                invariant
                    keys@ == before,
                    at <= before.len(),
                    forall|j: int| 0 <= j < at ==> key_before(#[trigger] before[j], key),
                decreases before.len() - at,
            {
                at = at + 1;
            }
            if at < keys.len() && same_key(&keys[at], &key) {
                proof {
                    assert(belongs(rows@[i as int], before[at as int]));
                    lemma_series_grow(before, rows@, i as int);
                }
            } else {
                keys.insert(at, key);
                proof {
                    assert(keys@ =~= before.insert(at as int, key));
                    lemma_new_series(before, key, rows@, i as int, at as int);
                }
            }
        } else {
            proof {
                lemma_series_grow(before, rows@, i as int);
            }
        }
    }
    keys
}

proof fn lemma_series_grow(keys: Seq<SeriesKey>, rows: Seq<Receivable>, n: int)
    requires
        series(keys, rows, n),
        rows[n].local is Some ==> has_series(keys, rows[n]),
    ensures
        series(keys, rows, n + 1),
{
    reveal(each_held);
    assert forall|i: int| 0 <= i < keys.len() implies held(rows, n + 1, #[trigger] keys[i]) by {
        let j = choose|j: int| 0 <= j < n && belongs(#[trigger] rows[j], keys[i]);
        assert(belongs(rows[j], keys[i]));
    }
}

/// Whether series come in order and each once.
pub open spec fn keys_in_order(keys: Seq<SeriesKey>) -> bool {
    forall|i: int, j: int|
        0 <= i < j < keys.len() ==> key_before(#[trigger] keys[i], #[trigger] keys[j])
}

/// A key put between those before it and those after it stays in order.
proof fn lemma_keys_stay_in_order(before: Seq<SeriesKey>, key: SeriesKey, at: int)
    requires
        keys_in_order(before),
        0 <= at <= before.len(),
        forall|j: int| 0 <= j < at ==> key_before(#[trigger] before[j], key),
        forall|j: int| at <= j < before.len() ==> key_before(key, #[trigger] before[j]),
    ensures
        keys_in_order(before.insert(at, key)),
{
    let after = before.insert(at, key);
    assert forall|i: int, j: int| 0 <= i < j < after.len() implies key_before(
        #[trigger] after[i],
        #[trigger] after[j],
    ) by {
        if i < at && j < at {
            assert(after[i] == before[i] && after[j] == before[j]);
        } else if i < at && j == at {
            assert(after[i] == before[i] && after[j] == key);
        } else if i < at {
            assert(after[i] == before[i] && after[j] == before[j - 1]);
        } else if i == at {
            assert(after[i] == key && after[j] == before[j - 1]);
        } else {
            assert(after[i] == before[i - 1] && after[j] == before[j - 1]);
        }
    }
}

/// The keys from a place on come after a key that comes before the first of
/// them.
proof fn lemma_keys_after(before: Seq<SeriesKey>, key: SeriesKey, at: int)
    requires
        keys_in_order(before),
        0 <= at <= before.len(),
        at < before.len() ==> key_before(key, before[at]),
    ensures
        forall|j: int| at <= j < before.len() ==> key_before(key, #[trigger] before[j]),
{
    assert forall|j: int| at <= j < before.len() implies key_before(key, #[trigger] before[j]) by {
        if j > at {
            assert(key_before(before[at], before[j]));
            lemma_key_order_carries_over(key, before[at], before[j]);
        }
    }
}

/// A receivable whose series is not among the keys yet adds it.
proof fn lemma_new_series(
    before: Seq<SeriesKey>,
    key: SeriesKey,
    rows: Seq<Receivable>,
    n: int,
    at: int,
)
    requires
        series(before, rows, n),
        n >= 0,
        0 <= at <= before.len(),
        belongs(rows[n], key),
        forall|j: int| 0 <= j < at ==> key_before(#[trigger] before[j], key),
        at < before.len() ==> !key_before(before[at], key) && !(before[at].isin@ == key.isin@
            && before[at].currency@ == key.currency@),
    ensures
        series(before.insert(at, key), rows, n + 1),
{
    reveal(each_held);
    let after = before.insert(at, key);
    assert(keys_in_order(before));
    if at < before.len() {
        lemma_keys_are_ordered(before[at], key);
    }
    lemma_keys_after(before, key, at);
    lemma_keys_stay_in_order(before, key, at);
    assert forall|i: int| 0 <= i < after.len() implies held(rows, n + 1, #[trigger] after[i]) by {
        if i == at {
            lemma_holds(rows, n + 1, key, n);
        } else {
            let i0 = if i < at {
                i
            } else {
                i - 1
            };
            assert(after[i] == before[i0]);
            let j = choose|j: int| 0 <= j < n && belongs(#[trigger] rows[j], before[i0]);
            lemma_holds(rows, n + 1, after[i], j);
        }
    }
    assert forall|i: int| 0 <= i < n + 1 && (#[trigger] rows[i]).local is Some implies has_series(
        after,
        rows[i],
    ) by {
        if i == n {
            assert(after[at] == key);
        } else {
            assert(has_series(before, rows[i]));
            lemma_series_kept(before, key, at, rows[i]);
        }
    }
}

proof fn lemma_holds(rows: Seq<Receivable>, n: int, key: SeriesKey, j: int)
    requires
        0 <= j < n,
        belongs(rows[j], key),
    ensures
        held(rows, n, key),
{
}

proof fn lemma_series_kept(before: Seq<SeriesKey>, key: SeriesKey, at: int, r: Receivable)
    requires
        0 <= at <= before.len(),
        has_series(before, r),
    ensures
        has_series(before.insert(at, key), r),
{
    let after = before.insert(at, key);
    let k = choose|k: int| 0 <= k < before.len() && belongs(r, #[trigger] before[k]);
    if k < at {
        assert(after[k] == before[k]);
    } else {
        assert(after[k + 1] == before[k]);
    }
}

/// A receivable that may have grown between two snapshots: which rows make up
/// its value at the later one, and which at the earlier one.
#[derive(Debug)]
pub struct Candidate {
    pub date: Date,
    pub issuer: String,
    pub currency: String,
    pub current: Vec<usize>,
    pub previous: Vec<usize>,
}

/// Which receivables of a series a snapshot holds.
pub open spec fn on_day(rows: Seq<Receivable>, k: SeriesKey, d: Date) -> Seq<bool> {
    rows.map_values(|r: Receivable| belongs(r, k) && r.date.number() == d.number())
}

/// Whether a snapshot holds any receivable of a series.
pub open spec fn any_on_day(rows: Seq<Receivable>, k: SeriesKey, d: Date) -> bool {
    exists|i: int| 0 <= i < rows.len() && #[trigger] on_day(rows, k, d)[i]
}

/// Whether a day carries an explicit dividend.
pub open spec fn is_explicit(explicit: Seq<Date>, d: Date) -> bool {
    exists|i: int| 0 <= i < explicit.len() && (#[trigger] explicit[i]).number() == d.number()
}

/// Whether a candidate is the one of a series between two snapshots. It is
/// named after the first of its rows, or after the instrument.
pub open spec fn grows_between(
    c: Candidate,
    rows: Seq<Receivable>,
    k: SeriesKey,
    before: Date,
    after: Date,
) -> bool {
    &&& c.date == after
    &&& c.currency@ == k.currency@
    &&& crate::order::picks(c.current@, on_day(rows, k, after))
    &&& crate::order::picks(c.previous@, on_day(rows, k, before))
    &&& c.current@.len() > 0
    &&& c.issuer@ == match rows[c.current@[0] as int].name {
        Some(n) => n@,
        None => k.isin@,
    }
}

/// Whether a step between snapshots is looked at for a series: the later one
/// holds a receivable of it (one that is gone was paid) and carries no
/// explicit dividend.
pub open spec fn looked_at(
    rows: Seq<Receivable>,
    dates: Seq<Date>,
    explicit: Seq<Date>,
    k: SeriesKey,
    step: int,
) -> bool {
    any_on_day(rows, k, dates[step + 1]) && !is_explicit(explicit, dates[step + 1])
}

/// A series and a step between snapshots.
pub struct Place {
    pub series: int,
    pub step: int,
}

/// The steps of one series that are looked at, among the first `n`.
pub open spec fn places_of(
    rows: Seq<Receivable>,
    dates: Seq<Date>,
    explicit: Seq<Date>,
    keys: Seq<SeriesKey>,
    series: int,
    n: int,
) -> Seq<Place>
    decreases n,
{
    if n <= 0 {
        Seq::empty()
    } else {
        let earlier = places_of(rows, dates, explicit, keys, series, n - 1);
        if looked_at(rows, dates, explicit, keys[series], n - 1) {
            earlier.push(Place { series, step: n - 1 })
        } else {
            earlier
        }
    }
}

/// The steps that are looked at, for the first `m` series in order, each from
/// the earliest snapshot on.
pub open spec fn places(
    rows: Seq<Receivable>,
    dates: Seq<Date>,
    explicit: Seq<Date>,
    keys: Seq<SeriesKey>,
    m: int,
) -> Seq<Place>
    decreases m,
{
    if m <= 0 {
        Seq::empty()
    } else {
        places(rows, dates, explicit, keys, m - 1) + places_of(
            rows,
            dates,
            explicit,
            keys,
            m - 1,
            dates.len() - 1,
        )
    }
}

/// Whether candidates are those of some places, one for one.
pub open spec fn candidates_at(
    cs: Seq<Candidate>,
    at: Seq<Place>,
    rows: Seq<Receivable>,
    dates: Seq<Date>,
    keys: Seq<SeriesKey>,
) -> bool {
    &&& cs.len() == at.len()
    &&& forall|i: int|
        0 <= i < cs.len() ==> grows_between(
            #[trigger] cs[i],
            rows,
            keys[at[i].series],
            dates[at[i].step],
            dates[at[i].step + 1],
        )
}

/// Whether candidates are those of some receivables: series by series, and
/// within a series from the earliest snapshot on.
pub open spec fn laid_out(
    cs: Seq<Candidate>,
    rows: Seq<Receivable>,
    dates: Seq<Date>,
    explicit: Seq<Date>,
) -> bool {
    exists|keys: Seq<SeriesKey>| #[trigger]
        series(keys, rows, rows.len() as int) && candidates_at(
            cs,
            places(rows, dates, explicit, keys, keys.len() as int),
            rows,
            dates,
            keys,
        )
}

/// Which receivables of a series a snapshot holds.
fn rows_on_day(rows: &[Receivable], k: &SeriesKey, d: Date) -> (r: Vec<usize>)
    ensures
        crate::order::picks(r@, on_day(rows@, *k, d)),
        r@.len() > 0 <==> any_on_day(rows@, *k, d),
{
    let mut wanted: Vec<bool> = Vec::new();
    for i in 0..rows.len()
        invariant
            wanted@.len() == i,
            forall|j: int| 0 <= j < i ==> wanted@[j] == on_day(rows@, *k, d)[j],
    {
        let r = &rows[i];
        let currency = stated_currency(r);
        let mine: bool = r.local.is_some() && same_text(r.isin.as_str(), k.isin.as_str())
            && same_text(currency.as_str(), k.currency.as_str());
        wanted.push(mine && r.date.is_same(&d));
    }
    assert(wanted@ =~= on_day(rows@, *k, d));
    let r = pick_rows(&wanted);
    proof {
        if r@.len() > 0 {
            assert(on_day(rows@, *k, d)[r@[0] as int]);
        }
        if any_on_day(rows@, *k, d) {
            let i = choose|i: int| 0 <= i < rows@.len() && #[trigger] on_day(rows@, *k, d)[i];
            assert(r@.contains(i as usize));
        }
    }
    r
}

/// Whether a day carries an explicit dividend.
fn has_explicit(explicit: &[Date], d: Date) -> (r: bool)
    ensures
        r == is_explicit(explicit@, d),
{
    for i in 0..explicit.len()
        invariant
            forall|j: int| 0 <= j < i ==> (#[trigger] explicit@[j]).number() != d.number(),
    {
        if explicit[i].is_same(&d) {
            return true;
        }
    }
    false
}

/// Lays out the derivation of dividends from receivables: growth or appearance
/// between consecutive snapshots, series by series. `dates` are the days of all
/// snapshots in order, `explicit` those that carry an explicit dividend.
pub fn dividend_candidates(rows: &[Receivable], dates: &[Date], explicit: &[Date]) -> (r: Vec<
    Candidate,
>)
    ensures
        laid_out(r@, rows@, dates@, explicit@),
{
    let keys = series_of(rows);
    let mut out: Vec<Candidate> = Vec::new();
    for k in 0..keys.len()
        invariant
            candidates_at(
                out@,
                places(rows@, dates@, explicit@, keys@, k as int),
                rows@,
                dates@,
                keys@,
            ),
    {
        let ghost done = places(rows@, dates@, explicit@, keys@, k as int);
        let count: usize = dates.len();
        let mut step: usize = 0;
        proof {
            assert(done + places_of(rows@, dates@, explicit@, keys@, k as int, 0) =~= done);
        }
        while count > 0 && step < count - 1
            invariant
                k < keys@.len(),
                count == dates@.len(),
                count == 0 ==> step == 0,
                count > 0 ==> step <= count - 1,
                candidates_at(
                    out@,
                    done + places_of(rows@, dates@, explicit@, keys@, k as int, step as int),
                    rows@,
                    dates@,
                    keys@,
                ),
            decreases count - step,
        {
            let ghost so_far = places_of(rows@, dates@, explicit@, keys@, k as int, step as int);
            let ghost before = out@;
            let after = dates[step + 1];
            let current = rows_on_day(rows, &keys[k], after);
            if current.len() > 0 && !has_explicit(explicit, after) {
                let previous = rows_on_day(rows, &keys[k], dates[step]);
                assert(on_day(rows@, keys@[k as int], after)[current@[0] as int]);
                let issuer = match &rows[current[0]].name {
                    Some(n) => n.clone(),
                    None => keys[k].isin.clone(),
                };
                out.push(
                    Candidate {
                        date: after,
                        issuer,
                        currency: keys[k].currency.clone(),
                        current,
                        previous,
                    },
                );
                proof {
                    let place = Place { series: k as int, step: step as int };
                    assert(looked_at(rows@, dates@, explicit@, keys@[k as int], step as int));
                    assert(done + so_far.push(place) =~= (done + so_far).push(place));
                    assert forall|i: int| 0 <= i < out@.len() implies grows_between(
                        #[trigger] out@[i],
                        rows@,
                        keys@[(done + so_far).push(place)[i].series],
                        dates@[(done + so_far).push(place)[i].step],
                        dates@[(done + so_far).push(place)[i].step + 1],
                    ) by {
                        if i < before.len() {
                            assert(out@[i] == before[i]);
                        }
                    }
                }
            }
            step = step + 1;
        }
        proof {
            if count == 0 {
                assert(places_of(rows@, dates@, explicit@, keys@, k as int, dates@.len() - 1)
                    =~= places_of(rows@, dates@, explicit@, keys@, k as int, 0));
            }
        }
    }
    out
}

/// A dividend derived from a receivable that grew.
#[derive(Debug)]
pub struct DividendEvent {
    pub date: Date,
    pub issuer: String,
    pub amount: Number,
    pub currency: String,
}

/// The bits of the figure nearest to 0.005: growth up to it is rounding.
pub const GROWTH_TOLERANCE: u64 = 0x3F74_7AE1_47AE_147B;

/// Whether a receivable grew.
pub open spec fn grew(delta: Number) -> bool {
    (Number { bits: GROWTH_TOLERANCE }).below(delta)
}

/// Which receivables grew.
pub open spec fn growing(deltas: Seq<Number>) -> Seq<bool> {
    deltas.map_values(|d: Number| grew(d))
}

/// Whether an event is the one of a candidate that grew.
pub open spec fn event_of(e: DividendEvent, c: Candidate, delta: Number) -> bool {
    e.date == c.date && e.issuer@ == c.issuer@ && e.currency@ == c.currency@ && e.amount == delta
}

/// The events among candidates: those that grew, in order. `deltas` holds for
/// each candidate the sum of its current rows less that of its previous ones.
pub fn dividend_events(candidates: &[Candidate], deltas: &[Number]) -> (r: Vec<DividendEvent>)
    requires
        deltas@.len() == candidates@.len(),
    ensures
        exists|rows: Seq<usize>|
            #![trigger crate::order::picks(rows, growing(deltas@))]
            crate::order::picks(rows, growing(deltas@)) && r@.len()
                == rows.len() && forall|i: int|
                0 <= i < r@.len() ==> event_of(
                    #[trigger] r@[i],
                    candidates@[rows[i] as int],
                    deltas@[rows[i] as int],
                ),
{
    let tolerance = Number { bits: GROWTH_TOLERANCE };
    let mut wanted: Vec<bool> = Vec::new();
    for i in 0..deltas.len()
        invariant
            tolerance.bits == GROWTH_TOLERANCE,
            wanted@.len() == i,
            forall|k: int| 0 <= k < i ==> wanted@[k] == grew(deltas@[k]),
    {
        wanted.push(tolerance.is_below(&deltas[i]));
    }
    assert(wanted@ =~= growing(deltas@));
    let rows = pick_rows(&wanted);
    let mut out: Vec<DividendEvent> = Vec::new();
    for i in 0..rows.len()
        invariant
            deltas@.len() == candidates@.len(),
            wanted@.len() == deltas@.len(),
            crate::order::picks(rows@, wanted@),
            out@.len() == i,
            forall|k: int|
                0 <= k < i ==> event_of(
                    #[trigger] out@[k],
                    candidates@[rows@[k] as int],
                    deltas@[rows@[k] as int],
                ),
    {
        let row: usize = rows[i];
        let c = &candidates[row];
        out.push(
            DividendEvent {
                date: c.date,
                issuer: c.issuer.clone(),
                amount: deltas[row],
                currency: c.currency.clone(),
            },
        );
    }
    out
}

/// No dividend is derived for a day that carries an explicit one, nor for the
/// first snapshot.
pub proof fn law_explicit_days_and_the_first_are_left_alone(
    rows: Seq<Receivable>,
    dates: Seq<Date>,
    explicit: Seq<Date>,
    keys: Seq<SeriesKey>,
    m: int,
    i: int,
)
    requires
        0 <= i < places(rows, dates, explicit, keys, m).len(),
    ensures
        ({
            let p = places(rows, dates, explicit, keys, m)[i];
            &&& 0 <= p.series < m
            &&& 0 <= p.step < dates.len() - 1
            &&& !is_explicit(explicit, dates[p.step + 1])
            &&& any_on_day(rows, keys[p.series], dates[p.step + 1])
        }),
    decreases m,
{
    let head = places(rows, dates, explicit, keys, m - 1);
    if i < head.len() {
        law_explicit_days_and_the_first_are_left_alone(rows, dates, explicit, keys, m - 1, i);
    } else {
        lemma_places_of(rows, dates, explicit, keys, m - 1, dates.len() - 1, i - head.len());
    }
}

proof fn lemma_places_of(
    rows: Seq<Receivable>,
    dates: Seq<Date>,
    explicit: Seq<Date>,
    keys: Seq<SeriesKey>,
    series: int,
    n: int,
    i: int,
)
    requires
        0 <= i < places_of(rows, dates, explicit, keys, series, n).len(),
    ensures
        ({
            let p = places_of(rows, dates, explicit, keys, series, n)[i];
            &&& p.series == series
            &&& 0 <= p.step < n
            &&& looked_at(rows, dates, explicit, keys[series], p.step)
        }),
    decreases n,
{
    let earlier = places_of(rows, dates, explicit, keys, series, n - 1);
    if i < earlier.len() {
        lemma_places_of(rows, dates, explicit, keys, series, n - 1, i);
    }
}

/// Whether two keys stand for the same series.
pub open spec fn alike(a: SeriesKey, b: SeriesKey) -> bool {
    a.isin@ == b.isin@ && a.currency@ == b.currency@
}

/// Whether a list of series holds one like a key.
pub open spec fn listed(keys: Seq<SeriesKey>, key: SeriesKey) -> bool {
    exists|k: int| 0 <= k < keys.len() && alike(key, #[trigger] keys[k])
}

/// A series that has a receivable is listed wherever every receivable has its
/// series.
proof fn lemma_held_is_listed(keys: Seq<SeriesKey>, rows: Seq<Receivable>, key: SeriesKey)
    requires
        held(rows, rows.len() as int, key),
        forall|i: int|
            0 <= i < rows.len() && (#[trigger] rows[i]).local is Some ==> has_series(keys, rows[i]),
    ensures
        listed(keys, key),
{
    let j = choose|j: int| 0 <= j < rows.len() && belongs(#[trigger] rows[j], key);
    assert(has_series(keys, rows[j]));
    let k = choose|k: int| 0 <= k < keys.len() && belongs(rows[j], #[trigger] keys[k]);
    assert(alike(key, keys[k]));
}

/// Whether every one of some series is listed.
#[verifier::opaque]
spec fn each_listed(keys: Seq<SeriesKey>, list: Seq<SeriesKey>) -> bool {
    forall|i: int| 0 <= i < keys.len() ==> listed(list, #[trigger] keys[i])
}

/// Where a series is listed.
proof fn lemma_found(keys: Seq<SeriesKey>, list: Seq<SeriesKey>, i: int) -> (k: int)
    requires
        each_listed(keys, list),
        0 <= i < keys.len(),
    ensures
        0 <= k < list.len(),
        alike(keys[i], list[k]),
{
    reveal(each_listed);
    assert(listed(list, keys[i]));
    choose|k: int| 0 <= k < list.len() && alike(keys[i], #[trigger] list[k])
}

/// Two lists in order that hold the same series agree from the front on.
proof fn lemma_series_agree(a: Seq<SeriesKey>, b: Seq<SeriesKey>, n: int)
    requires
        keys_in_order(a),
        keys_in_order(b),
        each_listed(a, b),
        each_listed(b, a),
        0 <= n <= a.len(),
    ensures
        n <= b.len(),
        forall|i: int| 0 <= i < n ==> alike(#[trigger] a[i], b[i]),
    decreases n,
{
    if n > 0 {
        lemma_series_agree(a, b, n - 1);
        let k = lemma_found(a, b, n - 1);
        if k < n - 1 {
            assert(alike(a[k], b[k]));
            assert(key_before(a[k], a[n - 1]));
            lemma_keys_are_ordered(a[k], a[n - 1]);
        }
        if k > n - 1 {
            let m = lemma_found(b, a, n - 1);
            assert(key_before(b[n - 1], b[k]));
            if m < n - 1 {
                assert(alike(a[m], b[m]));
                assert(key_before(b[m], b[n - 1]));
                lemma_keys_are_ordered(b[m], b[n - 1]);
            } else {
                if m > n - 1 {
                    assert(key_before(a[n - 1], a[m]));
                }
                lemma_keys_are_ordered(a[n - 1], b[n - 1]);
            }
        }
    }
}

/// Series that all have a receivable are listed wherever every receivable has
/// its series.
proof fn lemma_each_listed(keys: Seq<SeriesKey>, list: Seq<SeriesKey>, rows: Seq<Receivable>)
    requires
        each_held(keys, rows, rows.len() as int),
        forall|i: int|
            0 <= i < rows.len() && (#[trigger] rows[i]).local is Some ==> has_series(list, rows[i]),
    ensures
        each_listed(keys, list),
{
    reveal(each_held);
    reveal(each_listed);
    assert forall|i: int| 0 <= i < keys.len() implies listed(list, #[trigger] keys[i]) by {
        lemma_held_is_listed(list, rows, keys[i]);
    }
}

/// Receivables have one list of series.
proof fn lemma_same_series(a: Seq<SeriesKey>, b: Seq<SeriesKey>, rows: Seq<Receivable>)
    requires
        series(a, rows, rows.len() as int),
        series(b, rows, rows.len() as int),
    ensures
        a.len() == b.len(),
        forall|i: int| 0 <= i < a.len() ==> alike(#[trigger] a[i], b[i]),
{
    lemma_each_listed(a, b, rows);
    lemma_each_listed(b, a, rows);
    lemma_series_agree(a, b, a.len() as int);
    lemma_series_agree(b, a, b.len() as int);
}

/// The steps looked at depend on what the keys stand for alone.
proof fn lemma_same_places_of(
    rows: Seq<Receivable>,
    dates: Seq<Date>,
    explicit: Seq<Date>,
    a: Seq<SeriesKey>,
    b: Seq<SeriesKey>,
    series: int,
    n: int,
)
    requires
        alike(a[series], b[series]),
    ensures
        places_of(rows, dates, explicit, a, series, n) == places_of(
            rows,
            dates,
            explicit,
            b,
            series,
            n,
        ),
    decreases n,
{
    if n > 0 {
        lemma_same_places_of(rows, dates, explicit, a, b, series, n - 1);
        lemma_same_rows(rows, a[series], b[series], dates[n]);
    }
}

proof fn lemma_same_rows(rows: Seq<Receivable>, a: SeriesKey, b: SeriesKey, d: Date)
    requires
        alike(a, b),
    ensures
        on_day(rows, a, d) == on_day(rows, b, d),
{
    assert(on_day(rows, a, d) =~= on_day(rows, b, d));
}

proof fn lemma_same_places(
    rows: Seq<Receivable>,
    dates: Seq<Date>,
    explicit: Seq<Date>,
    a: Seq<SeriesKey>,
    b: Seq<SeriesKey>,
    m: int,
)
    requires
        forall|i: int| 0 <= i < m ==> alike(#[trigger] a[i], b[i]),
    ensures
        places(rows, dates, explicit, a, m) == places(rows, dates, explicit, b, m),
    decreases m,
{
    if m > 0 {
        lemma_same_places(rows, dates, explicit, a, b, m - 1);
        assert(alike(a[m - 1], b[m - 1]));
        lemma_same_places_of(rows, dates, explicit, a, b, m - 1, dates.len() - 1);
    }
}

/// Whether two candidates say the same.
pub open spec fn same_candidate(a: Candidate, b: Candidate) -> bool {
    &&& a.date == b.date
    &&& a.issuer@ == b.issuer@
    &&& a.currency@ == b.currency@
    &&& a.current@ == b.current@
    &&& a.previous@ == b.previous@
}

/// What grows between two snapshots of a series is one candidate.
proof fn lemma_same_candidate(
    a: Candidate,
    b: Candidate,
    rows: Seq<Receivable>,
    k: SeriesKey,
    l: SeriesKey,
    before: Date,
    after: Date,
)
    requires
        alike(k, l),
        grows_between(a, rows, k, before, after),
        grows_between(b, rows, l, before, after),
    ensures
        same_candidate(a, b),
{
    lemma_same_rows(rows, k, l, before);
    lemma_same_rows(rows, k, l, after);
    crate::order::law_rows_are_picked_in_one_way(a.current@, b.current@, on_day(rows, k, after));
    crate::order::law_rows_are_picked_in_one_way(
        a.previous@,
        b.previous@,
        on_day(rows, k, before),
    );
}

proof fn lemma_same_candidates(
    a: Seq<Candidate>,
    b: Seq<Candidate>,
    rows: Seq<Receivable>,
    dates: Seq<Date>,
    explicit: Seq<Date>,
    x: Seq<SeriesKey>,
    y: Seq<SeriesKey>,
)
    requires
        x.len() == y.len(),
        forall|i: int| 0 <= i < x.len() ==> alike(#[trigger] x[i], y[i]),
        candidates_at(a, places(rows, dates, explicit, x, x.len() as int), rows, dates, x),
        candidates_at(b, places(rows, dates, explicit, y, y.len() as int), rows, dates, y),
    ensures
        a.len() == b.len(),
        forall|i: int| 0 <= i < a.len() ==> same_candidate(#[trigger] a[i], b[i]),
{
    lemma_same_places(rows, dates, explicit, x, y, x.len() as int);
    let at = places(rows, dates, explicit, x, x.len() as int);
    assert forall|i: int| 0 <= i < a.len() implies same_candidate(#[trigger] a[i], b[i]) by {
        law_explicit_days_and_the_first_are_left_alone(
            rows,
            dates,
            explicit,
            x,
            x.len() as int,
            i,
        );
        let p = at[i];
        assert(alike(x[p.series], y[p.series]));
        lemma_same_candidate(
            a[i],
            b[i],
            rows,
            x[p.series],
            y[p.series],
            dates[p.step],
            dates[p.step + 1],
        );
    }
}

/// The derivation is a function of the receivables: there is one way to lay it
/// out.
pub proof fn law_there_is_one_derivation(
    a: Seq<Candidate>,
    b: Seq<Candidate>,
    rows: Seq<Receivable>,
    dates: Seq<Date>,
    explicit: Seq<Date>,
)
    requires
        laid_out(a, rows, dates, explicit),
        laid_out(b, rows, dates, explicit),
    ensures
        a.len() == b.len(),
        forall|i: int| 0 <= i < a.len() ==> same_candidate(#[trigger] a[i], b[i]),
{
    let x = choose|keys: Seq<SeriesKey>| #[trigger]
        series(keys, rows, rows.len() as int) && candidates_at(
            a,
            places(rows, dates, explicit, keys, keys.len() as int),
            rows,
            dates,
            keys,
        );
    let y = choose|keys: Seq<SeriesKey>| #[trigger]
        series(keys, rows, rows.len() as int) && candidates_at(
            b,
            places(rows, dates, explicit, keys, keys.len() as int),
            rows,
            dates,
            keys,
        );
    lemma_same_series(x, y, rows);
    lemma_same_candidates(a, b, rows, dates, explicit, x, y);
}

/// A receivable belongs to the series of its instrument and currency, EUR where
/// it states none, as long as it has a value.
pub proof fn law_what_belongs_to_a_series(r: Receivable, k: SeriesKey)
    ensures
        belongs(r, k) <==> r.local is Some && r.isin@ == k.isin@ && (match r.currency {
            Some(c) => k.currency@ == c@,
            None => k.currency@ == "EUR"@,
        }),
{
}

/// A step between two neighbouring snapshots is looked at for a series exactly
/// when the later one holds a receivable of the series and carries no explicit
/// dividend; every such step, and each once.
pub proof fn law_every_step_with_a_receivable_is_looked_at(
    rows: Seq<Receivable>,
    dates: Seq<Date>,
    explicit: Seq<Date>,
    keys: Seq<SeriesKey>,
    m: int,
    p: Place,
)
    requires
        0 <= m <= keys.len(),
    ensures
        places(rows, dates, explicit, keys, m).contains(p) <==> 0 <= p.series < m && 0 <= p.step
            < dates.len() - 1 && (exists|i: int|
            0 <= i < rows.len() && belongs(#[trigger] rows[i], keys[p.series])
                && rows[i].date.number() == dates[p.step + 1].number()) && (forall|j: int|
            0 <= j < explicit.len() ==> (#[trigger] explicit[j]).number() != dates[p.step
                + 1].number()),
    decreases m,
{
    if m > 0 {
        law_every_step_with_a_receivable_is_looked_at(rows, dates, explicit, keys, m - 1, p);
        let head = places(rows, dates, explicit, keys, m - 1);
        let tail = places_of(rows, dates, explicit, keys, m - 1, dates.len() - 1);
        let all = places(rows, dates, explicit, keys, m);
        assert(all == head + tail);
        lemma_steps_of_a_series(rows, dates, explicit, keys, m - 1, dates.len() - 1, p);
        if head.contains(p) {
            let i = head.index_of(p);
            assert(all[i] == p);
        }
        if tail.contains(p) {
            let i = tail.index_of(p);
            assert(all[head.len() + i] == p);
        }
        if all.contains(p) {
            let i = all.index_of(p);
            if i < head.len() {
                assert(head[i] == p);
            } else {
                assert(tail[i - head.len()] == p);
            }
        }
    }
}

proof fn lemma_steps_of_a_series(
    rows: Seq<Receivable>,
    dates: Seq<Date>,
    explicit: Seq<Date>,
    keys: Seq<SeriesKey>,
    series: int,
    n: int,
    p: Place,
)
    ensures
        places_of(rows, dates, explicit, keys, series, n).contains(p) <==> p.series == series && 0
            <= p.step < n && (exists|i: int|
            0 <= i < rows.len() && belongs(#[trigger] rows[i], keys[series])
                && rows[i].date.number() == dates[p.step + 1].number()) && (forall|j: int|
            0 <= j < explicit.len() ==> (#[trigger] explicit[j]).number() != dates[p.step
                + 1].number()),
    decreases n,
{
    if n > 0 {
        lemma_steps_of_a_series(rows, dates, explicit, keys, series, n - 1, p);
        let earlier = places_of(rows, dates, explicit, keys, series, n - 1);
        let all = places_of(rows, dates, explicit, keys, series, n);
        let last = Place { series, step: n - 1 };
        lemma_looked_at(rows, dates, explicit, keys[series], n - 1);
        if earlier.contains(p) {
            let i = earlier.index_of(p);
            assert(all[i] == p);
        }
        if looked_at(rows, dates, explicit, keys[series], n - 1) {
            assert(all[all.len() - 1] == last);
        }
        if all.contains(p) && !earlier.contains(p) {
            let i = all.index_of(p);
            if i < earlier.len() {
                assert(earlier[i] == p);
            }
        }
    }
}

proof fn lemma_looked_at(
    rows: Seq<Receivable>,
    dates: Seq<Date>,
    explicit: Seq<Date>,
    k: SeriesKey,
    step: int,
)
    ensures
        looked_at(rows, dates, explicit, k, step) <==> (exists|i: int|
            0 <= i < rows.len() && belongs(#[trigger] rows[i], k) && rows[i].date.number() == dates[step
                + 1].number()) && (forall|j: int|
            0 <= j < explicit.len() ==> (#[trigger] explicit[j]).number() != dates[step
                + 1].number()),
{
    let d = dates[step + 1];
    let on = on_day(rows, k, d);
    if any_on_day(rows, k, d) {
        let i = choose|i: int| 0 <= i < rows.len() && #[trigger] on[i];
        assert(belongs(rows[i], k));
    }
    if exists|i: int|
        0 <= i < rows.len() && belongs(#[trigger] rows[i], k) && rows[i].date.number()
            == d.number() {
        let i = choose|i: int|
            0 <= i < rows.len() && belongs(#[trigger] rows[i], k) && rows[i].date.number()
                == d.number();
        assert(on[i]);
    }
}

/// The places come series by series and from the earliest step on, none twice.
pub proof fn law_places_come_in_order(
    rows: Seq<Receivable>,
    dates: Seq<Date>,
    explicit: Seq<Date>,
    keys: Seq<SeriesKey>,
    m: int,
    i: int,
    j: int,
)
    requires
        0 <= i < j < places(rows, dates, explicit, keys, m).len(),
    ensures
        ({
            let (a, b) = (
                places(rows, dates, explicit, keys, m)[i],
                places(rows, dates, explicit, keys, m)[j],
            );
            a.series < b.series || (a.series == b.series && a.step < b.step)
        }),
    decreases m,
{
    let head = places(rows, dates, explicit, keys, m - 1);
    let n = dates.len() - 1;
    if j < head.len() {
        law_places_come_in_order(rows, dates, explicit, keys, m - 1, i, j);
    } else {
        lemma_places_of(rows, dates, explicit, keys, m - 1, n, j - head.len());
        if i < head.len() {
            law_explicit_days_and_the_first_are_left_alone(rows, dates, explicit, keys, m - 1, i);
        } else {
            lemma_steps_ascend(
                rows,
                dates,
                explicit,
                keys,
                m - 1,
                n,
                i - head.len(),
                j - head.len(),
            );
        }
    }
}

proof fn lemma_steps_ascend(
    rows: Seq<Receivable>,
    dates: Seq<Date>,
    explicit: Seq<Date>,
    keys: Seq<SeriesKey>,
    series: int,
    n: int,
    i: int,
    j: int,
)
    requires
        0 <= i < j < places_of(rows, dates, explicit, keys, series, n).len(),
    ensures
        ({
            let all = places_of(rows, dates, explicit, keys, series, n);
            all[i].series == all[j].series && all[i].step < all[j].step
        }),
    decreases n,
{
    let earlier = places_of(rows, dates, explicit, keys, series, n - 1);
    if j < earlier.len() {
        lemma_steps_ascend(rows, dates, explicit, keys, series, n - 1, i, j);
    } else {
        lemma_places_of(rows, dates, explicit, keys, series, n - 1, i);
    }
}

/// A candidate weighs the receivables of its series at a snapshot against those
/// at the snapshot right before it: each row of the series on either day, once,
/// and no other. It is dated at the later one and named after its first row.
pub proof fn law_a_candidate_weighs_two_snapshots(
    c: Candidate,
    rows: Seq<Receivable>,
    k: SeriesKey,
    before: Date,
    after: Date,
    row: usize,
)
    requires
        grows_between(c, rows, k, before, after),
        rows.len() <= usize::MAX,
    ensures
        c.date == after,
        c.currency@ == k.currency@,
        c.current@.contains(row) <==> row < rows.len() && belongs(rows[row as int], k)
            && rows[row as int].date.number() == after.number(),
        c.previous@.contains(row) <==> row < rows.len() && belongs(rows[row as int], k)
            && rows[row as int].date.number() == before.number(),
        c.current@.no_duplicates() && c.previous@.no_duplicates(),
        c.current@.len() > 0,
        rows[c.current@[0] as int].name matches Some(n) ==> c.issuer@ == n@,
        rows[c.current@[0] as int].name is None ==> c.issuer@ == k.isin@,
        c.current@.contains(row) ==> c.current@[0] <= row,
{
    crate::order::law_wanted_rows_are_picked(c.current@, on_day(rows, k, after), row);
    crate::order::law_wanted_rows_are_picked(c.previous@, on_day(rows, k, before), row);
    if c.current@.contains(row) {
        let i = c.current@.index_of(row);
        assert(c.current@[i] == row);
    }
}

/// Growth counts from half a cent on: only beyond 0.005 is a receivable taken to
/// have grown.
pub proof fn law_growth_within_rounding_is_none(delta: Number, tolerance: Number)
    requires
        tolerance.bits == GROWTH_TOLERANCE,
    ensures
        crate::binary64::closest(tolerance, 1, 200),
        grew(delta) <==> tolerance.below(delta),
{
    vstd::arithmetic::power2::lemma2_to64();
    vstd::arithmetic::power2::lemma2_to64_rest();
    crate::binary64::lemma_closest(tolerance, 1014, 0x147ae147ae147b, 60, 1, 200);
}

/// An event tells of a candidate that grew, with the growth as its amount.
pub proof fn law_an_event_tells_of_a_growth(
    e: DividendEvent,
    c: Candidate,
    delta: Number,
    deltas: Seq<Number>,
    i: int,
)
    requires
        event_of(e, c, delta),
        0 <= i < deltas.len(),
    ensures
        e.date == c.date && e.issuer@ == c.issuer@ && e.currency@ == c.currency@ && e.amount
            == delta,
        growing(deltas).len() == deltas.len(),
        growing(deltas)[i] <==> (Number { bits: GROWTH_TOLERANCE }).below(deltas[i]),
{
}

/// Series come by instrument and within an instrument by currency.
pub proof fn law_series_come_by_instrument_and_currency(a: SeriesKey, b: SeriesKey)
    ensures
        a.isin@ == b.isin@ ==> (key_before(a, b) <==> crate::order::text_before(
            a.currency@,
            b.currency@,
        )),
        a.isin@ != b.isin@ ==> (key_before(a, b) <==> crate::order::text_before(a.isin@, b.isin@)),
{
    crate::order::lemma_texts_are_ordered(a.isin@, b.isin@);
}

/// Every candidate steps from one snapshot to the very next, and no explicit
/// dividend falls on the later one.
pub proof fn law_a_candidate_steps_to_the_next_snapshot(
    cs: Seq<Candidate>,
    rows: Seq<Receivable>,
    dates: Seq<Date>,
    explicit: Seq<Date>,
    i: int,
)
    requires
        laid_out(cs, rows, dates, explicit),
        0 <= i < cs.len(),
    ensures
        exists|k: SeriesKey, s: int|
            0 <= s < dates.len() - 1 && #[trigger] grows_between(
                cs[i],
                rows,
                k,
                dates[s],
                dates[s + 1],
            ),
        forall|j: int|
            0 <= j < explicit.len() ==> (#[trigger] explicit[j]).number() != cs[i].date.number(),
{
    let keys = choose|keys: Seq<SeriesKey>| #[trigger]
        series(keys, rows, rows.len() as int) && candidates_at(
            cs,
            places(rows, dates, explicit, keys, keys.len() as int),
            rows,
            dates,
            keys,
        );
    let at = places(rows, dates, explicit, keys, keys.len() as int);
    law_explicit_days_and_the_first_are_left_alone(
        rows,
        dates,
        explicit,
        keys,
        keys.len() as int,
        i,
    );
    let s = at[i].step;
    assert(grows_between(cs[i], rows, keys[at[i].series], dates[s], dates[s + 1]));
    assert forall|j: int|
        0 <= j < explicit.len() implies (#[trigger] explicit[j]).number() != cs[i].date.number() by {
        if explicit[j].number() == dates[s + 1].number() {
            assert(is_explicit(explicit, dates[s + 1]));
        }
    }
}

/// Every receivable with a value is weighed at each snapshot after the first
/// that holds it, unless an explicit dividend falls on that day: some candidate
/// of that very step counts it.
pub proof fn law_every_receivable_is_weighed(
    cs: Seq<Candidate>,
    rows: Seq<Receivable>,
    dates: Seq<Date>,
    explicit: Seq<Date>,
    row: usize,
    s: int,
)
    requires
        laid_out(cs, rows, dates, explicit),
        row < rows.len() <= usize::MAX,
        rows[row as int].local is Some,
        0 <= s < dates.len() - 1,
        rows[row as int].date.number() == dates[s + 1].number(),
        forall|j: int|
            0 <= j < explicit.len() ==> (#[trigger] explicit[j]).number() != dates[s
                + 1].number(),
    ensures
        exists|i: int|
            0 <= i < cs.len() && (#[trigger] cs[i]).date == dates[s + 1]
                && cs[i].current@.contains(row) && exists|k: SeriesKey| #[trigger]
                grows_between(cs[i], rows, k, dates[s], dates[s + 1]),
{
    let keys = choose|keys: Seq<SeriesKey>| #[trigger]
        series(keys, rows, rows.len() as int) && candidates_at(
            cs,
            places(rows, dates, explicit, keys, keys.len() as int),
            rows,
            dates,
            keys,
        );
    let at = places(rows, dates, explicit, keys, keys.len() as int);
    assert(has_series(keys, rows[row as int]));
    let x = choose|x: int| 0 <= x < keys.len() && belongs(rows[row as int], #[trigger] keys[x]);
    let p = Place { series: x, step: s };
    law_every_step_with_a_receivable_is_looked_at(
        rows,
        dates,
        explicit,
        keys,
        keys.len() as int,
        p,
    );
    assert(belongs(rows[row as int], keys[p.series]));
    assert(at.contains(p));
    let i = at.index_of(p);
    assert(at[i] == p);
    assert(grows_between(cs[i], rows, keys[x], dates[s], dates[s + 1]));
    law_a_candidate_weighs_two_snapshots(cs[i], rows, keys[x], dates[s], dates[s + 1], row);
}

/// No step of a series is weighed twice: two candidates differ in their day, or
/// else in the rows they count.
pub proof fn law_no_receivable_is_weighed_twice(
    cs: Seq<Candidate>,
    rows: Seq<Receivable>,
    dates: Seq<Date>,
    explicit: Seq<Date>,
    i: int,
    j: int,
    row: usize,
)
    requires
        laid_out(cs, rows, dates, explicit),
        0 <= i < j < cs.len(),
        rows.len() <= usize::MAX,
        forall|a: int, b: int|
            0 <= a < b < dates.len() ==> (#[trigger] dates[a]).number() < (
            #[trigger] dates[b]).number(),
    ensures
        !(cs[i].current@.contains(row) && cs[j].current@.contains(row)),
{
    let keys = choose|keys: Seq<SeriesKey>| #[trigger]
        series(keys, rows, rows.len() as int) && candidates_at(
            cs,
            places(rows, dates, explicit, keys, keys.len() as int),
            rows,
            dates,
            keys,
        );
    let m = keys.len() as int;
    let at = places(rows, dates, explicit, keys, m);
    law_places_come_in_order(rows, dates, explicit, keys, m, i, j);
    law_explicit_days_and_the_first_are_left_alone(rows, dates, explicit, keys, m, i);
    law_explicit_days_and_the_first_are_left_alone(rows, dates, explicit, keys, m, j);
    let (p, q) = (at[i], at[j]);
    assert(grows_between(cs[i], rows, keys[p.series], dates[p.step], dates[p.step + 1]));
    assert(grows_between(cs[j], rows, keys[q.series], dates[q.step], dates[q.step + 1]));
    law_a_candidate_weighs_two_snapshots(
        cs[i],
        rows,
        keys[p.series],
        dates[p.step],
        dates[p.step + 1],
        row,
    );
    law_a_candidate_weighs_two_snapshots(
        cs[j],
        rows,
        keys[q.series],
        dates[q.step],
        dates[q.step + 1],
        row,
    );
    if cs[i].current@.contains(row) && cs[j].current@.contains(row) {
        if p.series < q.series {
            assert(key_before(keys[p.series], keys[q.series]));
            lemma_keys_are_ordered(keys[p.series], keys[q.series]);
        } else {
            assert(dates[p.step + 1].number() < dates[q.step + 1].number());
        }
    }
}

} // verus!
