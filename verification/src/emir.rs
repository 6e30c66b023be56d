//! EMIR clearing-threshold monitoring.
//!
//! Average month-end position over the last 12 months per asset class,
//! compared to the clearing thresholds of Delegated Regulation (EU)
//! No 149/2013 as amended. Only OTC positions count toward a threshold -
//! a contract on an EU regulated market or an equivalent third-country
//! market is not OTC - but the total line is reported alongside so the
//! disclosure works under either reading. Gross notional, no netting.

use crate::date::{CalendarDay, Date, MAX_YEAR, MIN_YEAR};
use crate::futures::Category;
use crate::number::Number;
use crate::order::pick_rows;
use vstd::prelude::*;
use vstd::string::*;

verus! {

/// A class of derivatives that has a clearing threshold of its own.
#[derive(Debug, Clone, Copy, PartialEq, Eq, Structural)]
pub enum ThresholdClass {
    Credit,
    Equity,
    InterestRate,
    Fx,
    CommodityOther,
}

impl ThresholdClass {
    /// Every class, in the order of the report.
    pub open spec fn every() -> Seq<ThresholdClass> {
        seq![
            ThresholdClass::Credit,
            ThresholdClass::Equity,
            ThresholdClass::InterestRate,
            ThresholdClass::Fx,
            ThresholdClass::CommodityOther,
        ]
    }

    /// The class of a category. The regulation's fifth class is "commodity and
    /// other".
    pub open spec fn class_of(cat: Category) -> ThresholdClass {
        match cat {
            Category::Credit => ThresholdClass::Credit,
            Category::Equity => ThresholdClass::Equity,
            Category::InterestRate => ThresholdClass::InterestRate,
            Category::Fx => ThresholdClass::Fx,
            Category::Commodity => ThresholdClass::CommodityOther,
            Category::Other => ThresholdClass::CommodityOther,
        }
    }

    /// The threshold in EUR.
    pub open spec fn threshold(self) -> int {
        match self {
            ThresholdClass::Credit => 1_000_000_000,
            ThresholdClass::Equity => 1_000_000_000,
            ThresholdClass::InterestRate => 3_000_000_000,
            ThresholdClass::Fx => 3_000_000_000,
            ThresholdClass::CommodityOther => 4_000_000_000,
        }
    }

    /// The human phrasing of a class.
    pub open spec fn phrase(self) -> Seq<char> {
        match self {
            ThresholdClass::Credit => "Credit derivatives"@,
            ThresholdClass::Equity => "Equity derivatives"@,
            ThresholdClass::InterestRate => "Interest-rate derivatives"@,
            ThresholdClass::Fx => "FX derivatives"@,
            ThresholdClass::CommodityOther => "Commodity and other derivatives"@,
        }
    }

    /// Every class, in the order of the report.
    pub fn all() -> (r: Vec<ThresholdClass>)
        ensures
            r@ == ThresholdClass::every(),
    {
        let r = vec![
            ThresholdClass::Credit,
            ThresholdClass::Equity,
            ThresholdClass::InterestRate,
            ThresholdClass::Fx,
            ThresholdClass::CommodityOther,
        ];
        assert(r@ =~= ThresholdClass::every());
        r
    }

    /// The class of a category.
    pub fn of(cat: Category) -> (r: Self)
        ensures
            r == ThresholdClass::class_of(cat),
    {
        match cat {
            Category::Credit => ThresholdClass::Credit,
            Category::Equity => ThresholdClass::Equity,
            Category::InterestRate => ThresholdClass::InterestRate,
            Category::Fx => ThresholdClass::Fx,
            Category::Commodity | Category::Other => ThresholdClass::CommodityOther,
        }
    }

    /// EUR notional thresholds per RTS 149/2013 art. 11 as amended, in whole
    /// EUR.
    pub fn threshold_eur(&self) -> (r: u64)
        ensures
            r == self.threshold(),
    {
        match self {
            ThresholdClass::Credit | ThresholdClass::Equity => 1_000_000_000,
            ThresholdClass::InterestRate | ThresholdClass::Fx => 3_000_000_000,
            ThresholdClass::CommodityOther => 4_000_000_000,
        }
    }

    /// The human phrasing of a class.
    pub fn label(&self) -> (r: &'static str)
        ensures
            r@ == self.phrase(),
    {
        match self {
            ThresholdClass::Credit => "Credit derivatives",
            ThresholdClass::Equity => "Equity derivatives",
            ThresholdClass::InterestRate => "Interest-rate derivatives",
            ThresholdClass::Fx => "FX derivatives",
            ThresholdClass::CommodityOther => "Commodity and other derivatives",
        }
    }
}

/// How a class stands against its threshold.
#[derive(Debug, Clone, Copy, PartialEq, Eq, Structural)]
pub enum Verdict {
    Okay,
    Watch,
    Breach,
}

impl Verdict {
    /// The name a verdict is shown under.
    pub fn as_str(&self) -> (r: &'static str)
        ensures
            r@ == (match *self {
                Verdict::Okay => "ok"@,
                Verdict::Watch => "watch"@,
                Verdict::Breach => "breach"@,
            }),
    {
        match self {
            Verdict::Okay => "ok",
            Verdict::Watch => "watch",
            Verdict::Breach => "breach",
        }
    }
}

/// The bits of 1.
pub const WHOLE_THRESHOLD: u64 = 0x3FF0_0000_0000_0000;

/// The bits of the figure nearest to 0.8: watched once the OTC average reaches
/// this fraction of the threshold.
pub const WATCH_FRACTION: u64 = 0x3FE9_9999_9999_999A;

/// The verdict on an OTC average, given as a fraction of its threshold.
pub open spec fn verdict_of(fraction: Number) -> Verdict {
    if (Number { bits: WHOLE_THRESHOLD }).at_most(fraction) {
        Verdict::Breach
    } else if (Number { bits: WATCH_FRACTION }).at_most(fraction) {
        Verdict::Watch
    } else {
        Verdict::Okay
    }
}

/// The verdict on an OTC average, given as a fraction of its threshold.
pub fn verdict(fraction: Number) -> (r: Verdict)
    ensures
        r == verdict_of(fraction),
{
    let whole = Number { bits: WHOLE_THRESHOLD };
    let watched = Number { bits: WATCH_FRACTION };
    if whole.is_at_most(&fraction) {
        Verdict::Breach
    } else if watched.is_at_most(&fraction) {
        Verdict::Watch
    } else {
        Verdict::Okay
    }
}

/// The first day of the month that lies some months before that of a day.
pub open spec fn months_before(d: CalendarDay, back: int) -> CalendarDay {
    let months = d.year * 12 + (d.month - 1) - back;
    CalendarDay { year: months / 12, month: months % 12 + 1, day: 1 }
}

/// The first day of a day's month.
fn month_start(d: Date) -> (r: Date)
    ensures
        r@ == months_before(d@, 0),
        crate::date::day_exists(d@),
{
    let year: i32 = d.year();
    let month: u32 = d.month();
    match Date::from_ymd_opt(year, month, 1) {
        Some(s) => s,
        None => d,
    }
}

/// The first day of the month before.
fn prev_month_start(s: Date) -> (r: Date)
    requires
        s@.day == 1,
        s@.year > MIN_YEAR || s@.month > 1,
    ensures
        r@ == months_before(s@, 1),
{
    let year: i32 = s.year();
    let month: u32 = s.month();
    let before = if month == 1 {
        Date::from_ymd_opt(year - 1, 12, 1)
    } else {
        Date::from_ymd_opt(year, month - 1, 1)
    };
    match before {
        Some(p) => p,
        None => s,
    }
}

/// Last day of the month that starts at `start` (a first-of-month).
fn month_end(start: Date) -> (r: Date)
    requires
        start@.day == 1,
        start@.year < MAX_YEAR || start@.month < 12,
    ensures
        r@ == (CalendarDay {
            year: start@.year,
            month: start@.month,
            day: crate::date::month_length(start@.year, start@.month),
        }),
        crate::date::day_exists(start@),
{
    let year: i32 = start.year();
    let month: u32 = start.month();
    let next = if month == 12 {
        Date::from_ymd_opt(year + 1, 1, 1)
    } else {
        Date::from_ymd_opt(year, month + 1, 1)
    };
    let ghost last = CalendarDay {
        year: start@.year,
        month: start@.month,
        day: crate::date::month_length(start@.year, start@.month),
    };
    match next {
        Some(n) => {
            proof {
                crate::date::lemma_months_follow_on(start@.year, start@.month);
                crate::date::law_day_numbers_follow_the_calendar(
                    n@,
                    crate::date::calendar_day(MIN_YEAR, 1, 1),
                );
            }
            match n.previous_day() {
                Some(d) => {
                    proof {
                        crate::date::law_day_numbers_follow_the_calendar(d@, last);
                    }
                    d
                },
                None => {
                    proof {
                        crate::date::law_day_numbers_follow_the_calendar(
                            last,
                            crate::date::calendar_day(MIN_YEAR, 1, 1),
                        );
                    }
                    n
                },
            }
        },
        None => start,
    }
}

/// Whether a day may stand for a month: it lies inside the month and not after
/// the anchor.
pub open spec fn stands_for(d: Date, month: CalendarDay, anchor: Date) -> bool {
    d@.year == month.year && d@.month == month.month && d.number() <= anchor.number()
}

/// Whether a choice is the latest of the available days that may stand for a
/// month, if there is any.
pub open spec fn latest_for(
    choice: Option<Date>,
    available: Seq<Date>,
    month: CalendarDay,
    anchor: Date,
) -> bool {
    match choice {
        None => forall|i: int|
            0 <= i < available.len() ==> !stands_for(#[trigger] available[i], month, anchor),
        Some(d) => available.contains(d) && stands_for(d, month, anchor) && forall|i: int|
            0 <= i < available.len() && stands_for(#[trigger] available[i], month, anchor)
                ==> available[i].number() <= d.number(),
    }
}

/// The latest available day that may stand for a month.
fn choose_day(m: Date, anchor: Date, available: &[Date]) -> (r: Option<Date>)
    requires
        m@.day == 1,
        m@.year < MAX_YEAR || m@.month < 12,
    ensures
        latest_for(r, available@, m@, anchor),
{
    let end = month_end(m);
    let cutoff = if anchor.is_before(&end) {
        anchor
    } else {
        end
    };
    let mut chosen: Option<Date> = None;
    for i in 0..available.len()
        invariant
            m@.day == 1,
            crate::date::day_exists(m@),
            end@ == (CalendarDay {
                year: m@.year,
                month: m@.month,
                day: crate::date::month_length(m@.year, m@.month),
            }),
            crate::date::day_exists(end@),
            cutoff.number() == if anchor.number() < end.number() {
                anchor.number()
            } else {
                end.number()
            },
            latest_for(chosen, available@.take(i as int), m@, anchor),
    {
        let d = available[i];
        let inside: bool = !d.is_before(&m) && !cutoff.is_before(&d);
        proof {
            crate::date::law_day_numbers_follow_the_calendar(d@, m@);
            crate::date::law_day_numbers_follow_the_calendar(d@, end@);
            assert(inside == stands_for(d, m@, anchor));
        }
        let ghost before = chosen;
        if inside {
            match chosen {
                None => {
                    chosen = Some(d);
                },
                Some(c) => {
                    if c.is_before(&d) {
                        chosen = Some(d);
                    }
                },
            }
        }
        proof {
            let now = available@.take(i + 1);
            let part = available@.take(i as int);
            assert forall|j: int| 0 <= j < part.len() implies now[j] == part[j] by {}
            assert(now[i as int] == d);
            if let Some(c) = before {
                assert(now[part.index_of(c)] == c);
            }
            assert forall|j: int| 0 <= j < now.len() && stands_for(#[trigger] now[j], m@, anchor)
                implies chosen is Some && now[j].number() <= chosen->0.number() by {
                if j < i {
                    assert(stands_for(part[j], m@, anchor));
                }
            }
        }
    }
    assert(available@.take(available@.len() as int) =~= available@);
    chosen
}

/// The 12 calendar months ending with `anchor`'s month, oldest first, each
/// paired with the snapshot date to use: the latest available date that
/// falls INSIDE the month and at or before `min(month end, anchor)`. A date
/// from an earlier month never stands in for a missing month - that would
/// double-count one position as two month-ends. Deterministic from data:
/// no wall clock.
pub fn month_window(anchor: Date, available: &[Date]) -> (r: Vec<(Date, Option<Date>)>)
    requires
        anchor@.year > MIN_YEAR,
        anchor@.year < MAX_YEAR || anchor@.month < 12,
    ensures
        r@.len() == 12,
        forall|k: int|
            0 <= k < 12 ==> (#[trigger] r@[k]).0@ == months_before(anchor@, 11 - k) && latest_for(
                r@[k].1,
                available@,
                r@[k].0@,
                anchor,
            ),
{
    let mut starts: Vec<Date> = Vec::new();
    let mut s = month_start(anchor);
    for i in 0..12usize
        invariant
            anchor@.year > MIN_YEAR,
            crate::date::day_exists(anchor@),
            starts@.len() == i,
            s@ == months_before(anchor@, i as int),
            forall|k: int| 0 <= k < i ==> (#[trigger] starts@[k])@ == months_before(anchor@, k),
    {
        starts.push(s);
        s = prev_month_start(s);
    }
    let mut out: Vec<(Date, Option<Date>)> = Vec::new();
    for i in 0..12usize
        invariant
            anchor@.year < MAX_YEAR || anchor@.month < 12,
            crate::date::day_exists(anchor@),
            starts@.len() == 12,
            forall|k: int| 0 <= k < 12 ==> (#[trigger] starts@[k])@ == months_before(anchor@, k),
            out@.len() == i,
            forall|k: int|
                0 <= k < i ==> (#[trigger] out@[k]).0@ == months_before(anchor@, 11 - k)
                    && latest_for(out@[k].1, available@, out@[k].0@, anchor),
    {
        let m = starts[11 - i];
        out.push((m, choose_day(m, anchor, available)));
    }
    out
}

/// One derivative position at one month-end, with its EUR notional already
/// computed by the exposure path. `notional_eur` is `None` when the spec, an
/// input or the FX rate was missing - excluded from the sums and warned
/// about, never silently zeroed.
#[derive(Debug, Clone)]
pub struct EmirPosition {
    pub ticker: String,
    pub category: Category,
    pub notional_eur: Option<Number>,
    pub otc: bool,
    pub unconfirmed: bool,
}

/// The positions that stand for a month.
#[derive(Debug, Clone)]
pub struct MonthSnapshot {
    /// First day of the calendar month.
    pub month: Date,
    /// `None` when no snapshot falls inside the month.
    pub snapshot: Option<(Date, Vec<EmirPosition>)>,
}

/// One month of a class.
#[derive(Debug, Clone, Copy, PartialEq, Eq, Structural)]
pub struct MonthCell {
    pub month: Date,
    pub snapshot_date: Option<Date>,
    pub total_eur: Option<Number>,
    pub otc_eur: Option<Number>,
}

/// One class of the report.
#[derive(Debug, Clone)]
pub struct ClassReport {
    pub class: ThresholdClass,
    pub label: String,
    pub threshold_eur: u64,
    pub months: Vec<MonthCell>,
    pub avg_total_eur: Number,
    pub avg_otc_eur: Number,
    pub pct_of_threshold: Number,
    pub verdict: Verdict,
}

/// The clearing-threshold report.
#[derive(Debug, Clone)]
pub struct ThresholdReport {
    pub classes: Vec<ClassReport>,
    pub months_present: usize,
    pub months_total: usize,
    pub warnings: Vec<String>,
}

/// Which positions of a snapshot a class sums over: for its total line, and
/// for its OTC line.
#[derive(Debug)]
pub struct Counted {
    pub total: Vec<usize>,
    pub otc: Vec<usize>,
}

/// Whether a position counts towards the total line of a class.
pub open spec fn counts(p: EmirPosition, class: ThresholdClass) -> bool {
    ThresholdClass::class_of(p.category) == class && p.notional_eur is Some
}

/// Whether a position counts towards the OTC line of a class.
pub open spec fn counts_otc(p: EmirPosition, class: ThresholdClass) -> bool {
    counts(p, class) && p.otc
}

/// Which positions of a snapshot a class sums over. Each enters with its
/// absolute notional: shorts count like longs and are never netted.
pub fn counted(positions: &[EmirPosition], class: ThresholdClass) -> (r: Counted)
    ensures
        crate::order::picks(
            r.total@,
            positions@.map_values(|p: EmirPosition| counts(p, class)),
        ),
        crate::order::picks(
            r.otc@,
            positions@.map_values(|p: EmirPosition| counts_otc(p, class)),
        ),
{
    let mut total: Vec<bool> = Vec::new();
    let mut otc: Vec<bool> = Vec::new();
    for i in 0..positions.len()
        invariant
            total@.len() == i,
            otc@.len() == i,
            forall|j: int| 0 <= j < i ==> (#[trigger] total@[j]) == counts(positions@[j], class),
            forall|j: int| 0 <= j < i ==> (#[trigger] otc@[j]) == counts_otc(positions@[j], class),
    {
        let p = &positions[i];
        let mine: bool = ThresholdClass::of(p.category) == class && p.notional_eur.is_some();
        total.push(mine);
        otc.push(mine && p.otc);
    }
    assert(total@ =~= positions@.map_values(|p: EmirPosition| counts(p, class)));
    assert(otc@ =~= positions@.map_values(|p: EmirPosition| counts_otc(p, class)));
    Counted { total: pick_rows(&total), otc: pick_rows(&otc) }
}

/// What a position gives cause to warn of.
pub open spec fn position_warning(date: CalendarDay, p: EmirPosition) -> Seq<Seq<char>> {
    if p.notional_eur is None {
        seq![
            crate::date::iso_text(date) + ": "@ + p.ticker@
                + " notional unavailable (missing spec, quantity, price or FX rate); excluded from the sums"@,
        ]
    } else if p.unconfirmed {
        seq![
            crate::date::iso_text(date) + ": "@ + p.ticker@
                + " contract spec unconfirmed; its notional is provisional"@,
        ]
    } else {
        Seq::empty()
    }
}

/// What some positions give cause to warn of, in their order.
pub open spec fn position_warnings(date: CalendarDay, ps: Seq<EmirPosition>) -> Seq<Seq<char>>
    decreases ps.len(),
{
    if ps.len() == 0 {
        Seq::empty()
    } else {
        position_warnings(date, ps.drop_last()) + position_warning(date, ps.last())
    }
}

/// What a month gives cause to warn of.
pub open spec fn month_warnings(m: MonthSnapshot) -> Seq<Seq<char>> {
    match m.snapshot {
        None => seq![
            crate::date::month_text(m.month@)
                + ": no snapshot in this month; excluded from the average"@,
        ],
        Some((date, ps)) => position_warnings(date@, ps@),
    }
}

/// What the months give cause to warn of, in their order.
pub open spec fn all_warnings(months: Seq<MonthSnapshot>) -> Seq<Seq<char>>
    decreases months.len(),
{
    if months.len() == 0 {
        Seq::empty()
    } else {
        all_warnings(months.drop_last()) + month_warnings(months.last())
    }
}

/// How many of the months have a snapshot.
pub open spec fn present(months: Seq<MonthSnapshot>) -> int
    decreases months.len(),
{
    if months.len() == 0 {
        0
    } else if months.last().snapshot is Some {
        present(months.drop_last()) + 1
    } else {
        present(months.drop_last())
    }
}

/// How many of the months have a snapshot: what the sums are divided by, where
/// it is not zero.
pub fn months_with_data(months: &[MonthSnapshot]) -> (r: usize)
    ensures
        r == present(months@),
        r <= months@.len(),
{
    let mut n: usize = 0;
    for i in 0..months.len()
        invariant
            n == present(months@.take(i as int)),
            n <= i,
    {
        proof {
            assert(months@.take(i + 1).drop_last() =~= months@.take(i as int));
        }
        if months[i].snapshot.is_some() {
            n = n + 1;
        }
    }
    assert(months@.take(months@.len() as int) =~= months@);
    n
}

/// Appends what a position gives cause to warn of.
fn warn_of_position(date: &Date, p: &EmirPosition, out: &mut Vec<String>)
    ensures
        crate::text::said(final(out)@) == crate::text::said(old(out)@) + position_warning(
            date@,
            *p,
        ),
{
    if p.notional_eur.is_none() || p.unconfirmed {
        let mut w = date.to_iso();
        w.append(": ");
        w.append(p.ticker.as_str());
        if p.notional_eur.is_none() {
            w.append(
                " notional unavailable (missing spec, quantity, price or FX rate); excluded from the sums",
            );
        } else {
            w.append(" contract spec unconfirmed; its notional is provisional");
        }
        out.push(w);
    }
    assert(crate::text::said(out@) =~= crate::text::said(old(out)@) + position_warning(date@, *p));
}

/// What the months give cause to warn of, in their order.
fn warnings_of(months: &[MonthSnapshot]) -> (r: Vec<String>)
    ensures
        crate::text::said(r@) == all_warnings(months@),
{
    let mut out: Vec<String> = Vec::new();
    assert(crate::text::said(out@) =~= Seq::empty());
    for i in 0..months.len()
        invariant
            crate::text::said(out@) == all_warnings(months@.take(i as int)),
    {
        let m = &months[i];
        let ghost before = crate::text::said(out@);
        match &m.snapshot {
            None => {
                let mut w = m.month.to_month();
                w.append(": no snapshot in this month; excluded from the average");
                out.push(w);
                proof {
                    assert(crate::text::said(out@) =~= before + month_warnings(*m));
                }
            },
            Some((date, ps)) => {
                let size: usize = ps.len();
                assert(crate::text::said(out@) =~= before + position_warnings(date@, ps@.take(0)));
                for j in 0..size
                    invariant
                        size == ps@.len(),
                        crate::text::said(out@) == before + position_warnings(
                            date@,
                            ps@.take(j as int),
                        ),
                {
                    warn_of_position(date, &ps[j], &mut out);
                    proof {
                        let next = ps@.take(j + 1);
                        assert(next.drop_last() =~= ps@.take(j as int));
                        assert(crate::text::said(out@) =~= before + position_warnings(date@, next));
                    }
                }
                assert(ps@.take(ps@.len() as int) =~= ps@);
            },
        }
        proof {
            let next = months@.take(i + 1);
            assert(next.drop_last() =~= months@.take(i as int));
            assert(next.last() == *m);
        }
    }
    assert(months@.take(months@.len() as int) =~= months@);
    out
}

/// The sums of one class over one month.
#[derive(Debug, Clone, Copy, PartialEq, Eq, Structural)]
pub struct MonthSums {
    pub total_eur: Number,
    pub otc_eur: Number,
}

/// What was summed for one class: over each month that has a snapshot, and on
/// average.
#[derive(Debug, Clone)]
pub struct ClassSums {
    /// One entry per month; that of a month without a snapshot is not looked
    /// at.
    pub months: Vec<MonthSums>,
    pub avg_total_eur: Number,
    pub avg_otc_eur: Number,
    /// The OTC average over the threshold.
    pub pct_of_threshold: Number,
}

/// The cell of a month, given its sums.
pub open spec fn cell_of(m: MonthSnapshot, sums: MonthSums) -> MonthCell {
    match m.snapshot {
        None => MonthCell { month: m.month, snapshot_date: None, total_eur: None, otc_eur: None },
        Some((date, ps)) => MonthCell {
            month: m.month,
            snapshot_date: Some(date),
            total_eur: Some(sums.total_eur),
            otc_eur: Some(sums.otc_eur),
        },
    }
}

/// Whether a class report is the one of a class, given its sums.
pub open spec fn reports(
    r: ClassReport,
    class: ThresholdClass,
    months: Seq<MonthSnapshot>,
    sums: ClassSums,
) -> bool {
    &&& r.class == class
    &&& r.label@ == class.phrase()
    &&& r.threshold_eur == class.threshold()
    &&& r.months@ == Seq::new(months.len(), |i: int| cell_of(months[i], sums.months@[i]))
    &&& r.avg_total_eur == sums.avg_total_eur
    &&& r.avg_otc_eur == sums.avg_otc_eur
    &&& r.pct_of_threshold == sums.pct_of_threshold
    &&& r.verdict == verdict_of(sums.pct_of_threshold)
}

/// The report on gross notional per threshold class per month, averaged over
/// the months present. `sums` holds one entry per class, in order: for each
/// month the absolute notionals of the positions that `counted` picks.
pub fn thresholds(months: &[MonthSnapshot], sums: &[ClassSums]) -> (r: ThresholdReport)
    requires
        sums@.len() == ThresholdClass::every().len(),
        forall|c: int| 0 <= c < sums@.len() ==> (#[trigger] sums@[c]).months@.len() == months@.len(),
    ensures
        r.months_total == months@.len(),
        r.months_present == present(months@),
        crate::text::said(r.warnings@) == all_warnings(months@),
        r.classes@.len() == ThresholdClass::every().len(),
        forall|c: int|
            0 <= c < r.classes@.len() ==> reports(
                #[trigger] r.classes@[c],
                ThresholdClass::every()[c],
                months@,
                sums@[c],
            ),
{
    let all = ThresholdClass::all();
    let mut classes: Vec<ClassReport> = Vec::new();
    for c in 0..all.len()
        invariant
            all@ == ThresholdClass::every(),
            sums@.len() == all@.len(),
            forall|k: int|
                0 <= k < sums@.len() ==> (#[trigger] sums@[k]).months@.len() == months@.len(),
            classes@.len() == c,
            forall|k: int|
                0 <= k < c ==> reports(
                    #[trigger] classes@[k],
                    ThresholdClass::every()[k],
                    months@,
                    sums@[k],
                ),
    {
        classes.push(class_report(all[c], months, &sums[c]));
    }
    ThresholdReport {
        classes,
        months_present: months_with_data(months),
        months_total: months.len(),
        warnings: warnings_of(months),
    }
}

/// The report on one class.
fn class_report(class: ThresholdClass, months: &[MonthSnapshot], sums: &ClassSums) -> (r:
    ClassReport)
    requires
        sums.months@.len() == months@.len(),
    ensures
        reports(r, class, months@, *sums),
{
    let mut cells: Vec<MonthCell> = Vec::new();
    for i in 0..months.len()
        invariant
            sums.months@.len() == months@.len(),
            cells@.len() == i,
            forall|k: int|
                0 <= k < i ==> (#[trigger] cells@[k]) == cell_of(months@[k], sums.months@[k]),
    {
        let m = &months[i];
        cells.push(
            match &m.snapshot {
                None => MonthCell {
                    month: m.month,
                    snapshot_date: None,
                    total_eur: None,
                    otc_eur: None,
                },
                Some((date, ps)) => MonthCell {
                    month: m.month,
                    snapshot_date: Some(*date),
                    total_eur: Some(sums.months[i].total_eur),
                    otc_eur: Some(sums.months[i].otc_eur),
                },
            },
        );
    }
    assert(cells@ =~= Seq::new(months@.len(), |i: int| cell_of(months@[i], sums.months@[i])));
    ClassReport {
        class,
        label: class.label().to_string(),
        threshold_eur: class.threshold_eur(),
        months: cells,
        avg_total_eur: sums.avg_total_eur,
        avg_otc_eur: sums.avg_otc_eur,
        pct_of_threshold: sums.pct_of_threshold,
        verdict: verdict(sums.pct_of_threshold),
    }
}

/// How often a portfolio must be reconciled.
#[derive(Debug, Clone, Copy, PartialEq, Eq, Structural)]
pub enum ReconciliationTier {
    NotTriggered,
    Quarterly,
    Weekly,
    Daily,
}

/// What the number of open OTC contracts asks for.
#[derive(Debug, Clone, Copy, PartialEq, Eq, Structural)]
pub struct Monitors {
    pub otc_open_contracts: usize,
    pub reconciliation: ReconciliationTier,
    /// Semiannual portfolio-compression analysis required (>= 500 OTC
    /// contracts outstanding with one counterparty, RTS 149/2013 art. 14).
    pub compression_required: bool,
}

/// How many positions are OTC.
pub open spec fn otc_count(positions: Seq<EmirPosition>) -> int
    decreases positions.len(),
{
    if positions.len() == 0 {
        0
    } else if positions.last().otc {
        otc_count(positions.drop_last()) + 1
    } else {
        otc_count(positions.drop_last())
    }
}

/// The tier of a number of contracts.
pub open spec fn tier_of(contracts: int) -> ReconciliationTier {
    if contracts == 0 {
        ReconciliationTier::NotTriggered
    } else if contracts <= 50 {
        ReconciliationTier::Quarterly
    } else if contracts <= 499 {
        ReconciliationTier::Weekly
    } else {
        ReconciliationTier::Daily
    }
}

/// Reconciliation tiers for a financial counterparty (RTS 149/2013 art. 13):
/// daily from 500 contracts, weekly 51-499, quarterly 50 or fewer. There is no
/// counterparty data, so the count assumes a single counterparty - the
/// strictest possible tier assignment.
pub fn monitors(anchor_positions: &[EmirPosition]) -> (r: Monitors)
    ensures
        r.otc_open_contracts == otc_count(anchor_positions@),
        r.reconciliation == tier_of(otc_count(anchor_positions@)),
        r.compression_required == (otc_count(anchor_positions@) >= 500),
{
    let mut n: usize = 0;
    for i in 0..anchor_positions.len()
        invariant
            n == otc_count(anchor_positions@.take(i as int)),
            n <= i,
    {
        proof {
            assert(anchor_positions@.take(i + 1).drop_last() =~= anchor_positions@.take(i as int));
        }
        if anchor_positions[i].otc {
            n = n + 1;
        }
    }
    assert(anchor_positions@.take(anchor_positions@.len() as int) =~= anchor_positions@);
    let reconciliation = if n == 0 {
        ReconciliationTier::NotTriggered
    } else if n <= 50 {
        ReconciliationTier::Quarterly
    } else if n <= 499 {
        ReconciliationTier::Weekly
    } else {
        ReconciliationTier::Daily
    };
    Monitors { otc_open_contracts: n, reconciliation, compression_required: n >= 500 }
}

/// Every position with a notional counts towards one class, and no other
/// position towards any; what counts as OTC counts towards the total.
pub proof fn law_each_notional_counts_in_one_class(p: EmirPosition)
    ensures
        p.notional_eur is Some <==> exists|c: ThresholdClass| #[trigger] counts(p, c),
        forall|a: ThresholdClass, b: ThresholdClass| #[trigger]
            counts(p, a) && #[trigger] counts(p, b) ==> a == b,
        forall|c: ThresholdClass| #[trigger] counts_otc(p, c) ==> counts(p, c),
{
    if p.notional_eur is Some {
        assert(counts(p, ThresholdClass::class_of(p.category)));
    }
}

/// No day stands for two months of a window, and none after the anchor stands
/// for any.
pub proof fn law_a_day_stands_for_one_month(d: Date, anchor: Date, i: int, j: int)
    requires
        0 <= i < 12,
        0 <= j < 12,
        stands_for(d, months_before(anchor@, 11 - i), anchor),
        stands_for(d, months_before(anchor@, 11 - j), anchor),
    ensures
        i == j,
        d.number() <= anchor.number(),
{
}

/// A larger share of the threshold is never judged more mildly. A share above
/// one that breaches is a breach, and one above a watched one is watched or
/// worse.
pub proof fn law_a_larger_share_is_judged_no_milder(smaller: Number, larger: Number)
    requires
        smaller.at_most(larger),
    ensures
        verdict_of(smaller) is Breach ==> verdict_of(larger) is Breach,
        verdict_of(smaller) is Watch ==> !(verdict_of(larger) is Okay),
{
}

/// Compression is analysed exactly where reconciliation is daily.
pub proof fn law_compression_goes_with_daily_reconciliation(contracts: int)
    requires
        contracts >= 0,
    ensures
        tier_of(contracts) is Daily <==> contracts >= 500,
{
}

/// The clearing thresholds: a billion for credit and equity derivatives, three
/// for interest-rate and FX ones, four for commodity and other ones. Every class
/// is reported once, in this order.
pub proof fn law_the_clearing_thresholds()
    ensures
        ThresholdClass::Credit.threshold() == 1_000_000_000,
        ThresholdClass::Equity.threshold() == 1_000_000_000,
        ThresholdClass::InterestRate.threshold() == 3_000_000_000,
        ThresholdClass::Fx.threshold() == 3_000_000_000,
        ThresholdClass::CommodityOther.threshold() == 4_000_000_000,
        ThresholdClass::every().len() == 5,
        ThresholdClass::every()[0] is Credit,
        ThresholdClass::every()[1] is Equity,
        ThresholdClass::every()[2] is InterestRate,
        ThresholdClass::every()[3] is Fx,
        ThresholdClass::every()[4] is CommodityOther,
{
}

/// A class takes the categories that it is named after; commodities and
/// whatever is left share one.
pub proof fn law_classes_take_the_categories_they_are_named_after(cat: Category)
    ensures
        ThresholdClass::class_of(cat) is Credit <==> cat is Credit,
        ThresholdClass::class_of(cat) is Equity <==> cat is Equity,
        ThresholdClass::class_of(cat) is InterestRate <==> cat is InterestRate,
        ThresholdClass::class_of(cat) is Fx <==> cat is Fx,
        ThresholdClass::class_of(cat) is CommodityOther <==> cat is Commodity || cat is Other,
{
}

/// A class breaches once its OTC average reaches the threshold, and is watched
/// from four fifths of it on.
pub proof fn law_a_class_breaches_from_its_threshold_on(
    fraction: Number,
    whole: Number,
    four_fifths: Number,
)
    requires
        whole.bits == WHOLE_THRESHOLD,
        four_fifths.bits == WATCH_FRACTION,
    ensures
        crate::binary64::exactly(whole, 1, 1),
        crate::binary64::closest(four_fifths, 4, 5),
        verdict_of(fraction) is Breach <==> whole.at_most(fraction),
        verdict_of(fraction) is Watch <==> four_fifths.at_most(fraction) && fraction.below(whole),
        verdict_of(fraction) is Okay <==> fraction.nan() || fraction.below(four_fifths),
{
    vstd::arithmetic::power2::lemma2_to64();
    vstd::arithmetic::power2::lemma2_to64_rest();
    crate::binary64::lemma_exactly(whole, 1022, 0x10000000000000, 52, 1, 1);
    crate::binary64::lemma_closest(four_fifths, 1021, 0x1999999999999a, 53, 4, 5);
}

/// A month so many months back is that many calendar months earlier, by its
/// first day.
pub proof fn law_months_go_back_one_by_one(d: CalendarDay, back: int)
    ensures
        ({
            let m = months_before(d, back);
            &&& m.day == 1
            &&& 1 <= m.month <= 12
            &&& m.year * 12 + m.month + back == d.year * 12 + d.month
        }),
{
}

/// The day that stands for a month is the latest available one inside the month
/// that does not lie after the anchor; where there is none the month stays
/// empty.
pub proof fn law_a_month_is_stood_for_by_its_latest_day(
    choice: Option<Date>,
    available: Seq<Date>,
    month: CalendarDay,
    anchor: Date,
    i: int,
)
    requires
        latest_for(choice, available, month, anchor),
        0 <= i < available.len(),
    ensures
        choice matches Some(d) ==> available.contains(d) && d@.year == month.year && d@.month
            == month.month && d.number() <= anchor.number(),
        available[i]@.year == month.year && available[i]@.month == month.month
            && available[i].number() <= anchor.number() ==> choice is Some && available[i].number()
            <= choice->0.number(),
{
    assert(stands_for(available[i], month, anchor) <==> available[i]@.year == month.year
        && available[i]@.month == month.month && available[i].number() <= anchor.number());
}

/// A position counts towards the class of its category where it has a notional,
/// long or short alike, and towards the OTC line of that class where it is OTC.
pub proof fn law_what_counts_towards_a_class(p: EmirPosition, class: ThresholdClass)
    ensures
        counts(p, class) <==> p.notional_eur is Some && (match class {
            ThresholdClass::Credit => p.category is Credit,
            ThresholdClass::Equity => p.category is Equity,
            ThresholdClass::InterestRate => p.category is InterestRate,
            ThresholdClass::Fx => p.category is Fx,
            ThresholdClass::CommodityOther => p.category is Commodity || p.category is Other,
        }),
        counts_otc(p, class) <==> counts(p, class) && p.otc,
{
}

/// The months that are averaged over are those with a snapshot, and open
/// contracts are the positions that are OTC.
pub proof fn law_what_is_averaged_and_counted(
    months: Seq<MonthSnapshot>,
    positions: Seq<EmirPosition>,
)
    ensures
        present(months) == months.filter(|m: MonthSnapshot| m.snapshot is Some).len(),
        otc_count(positions) == positions.filter(|p: EmirPosition| p.otc).len(),
    decreases months.len(), positions.len(),
{
    reveal(Seq::filter);
    if months.len() > 0 {
        law_what_is_averaged_and_counted(months.drop_last(), positions);
    } else if positions.len() > 0 {
        law_what_is_averaged_and_counted(months, positions.drop_last());
    }
}

/// Without an open contract nothing is reconciled; up to fifty it is done every
/// quarter, up to 499 every week, and from 500 on every day.
pub proof fn law_reconciliation_goes_by_the_number_of_contracts(contracts: int)
    requires
        contracts >= 0,
    ensures
        tier_of(contracts) is NotTriggered <==> contracts == 0,
        tier_of(contracts) is Quarterly <==> 0 < contracts < 51,
        tier_of(contracts) is Weekly <==> 51 <= contracts < 500,
        tier_of(contracts) is Daily <==> 500 <= contracts,
{
}

/// A position is warned of once at most: because it has no notional, or else
/// because its spec is unconfirmed.
pub proof fn law_what_a_position_is_warned_of_for(date: CalendarDay, p: EmirPosition)
    ensures
        position_warning(date, p).len() == if p.notional_eur is None || p.unconfirmed {
            1nat
        } else {
            0nat
        },
        p.notional_eur is None ==> position_warning(date, p)[0] == crate::date::iso_text(date)
            + ": "@ + p.ticker@
            + " notional unavailable (missing spec, quantity, price or FX rate); excluded from the sums"@,
        p.notional_eur is Some && p.unconfirmed ==> position_warning(date, p)[0]
            == crate::date::iso_text(date) + ": "@ + p.ticker@
            + " contract spec unconfirmed; its notional is provisional"@,
{
}

/// The warnings of some positions are those of each, one after the other.
pub proof fn law_every_position_is_warned_of_in_turn(
    date: CalendarDay,
    ps: Seq<EmirPosition>,
    p: EmirPosition,
)
    ensures
        position_warnings(date, ps.push(p)) == position_warnings(date, ps) + position_warning(
            date,
            p,
        ),
        position_warnings(date, Seq::empty()).len() == 0,
{
    assert(ps.push(p).drop_last() =~= ps);
}

/// A month without a snapshot is warned of by its name, one with a snapshot for
/// its positions; and the months follow one another.
pub proof fn law_every_month_is_warned_of_in_turn(months: Seq<MonthSnapshot>, m: MonthSnapshot)
    ensures
        m.snapshot is None ==> all_warnings(months.push(m)) == all_warnings(months).push(
            crate::date::month_text(m.month@)
                + ": no snapshot in this month; excluded from the average"@,
        ),
        m.snapshot matches Some(s) ==> all_warnings(months.push(m)) == all_warnings(months)
            + position_warnings(s.0@, s.1@),
        all_warnings(Seq::empty()).len() == 0,
{
    assert(months.push(m).drop_last() =~= months);
    if m.snapshot is None {
        let w = crate::date::month_text(m.month@)
            + ": no snapshot in this month; excluded from the average"@;
        assert(all_warnings(months) + seq![w] =~= all_warnings(months).push(w));
    }
}

/// A class is reported under its own name and threshold, with the figures of
/// every month that has a snapshot and none for a month without, and judged by
/// its share of the threshold.
pub proof fn law_what_is_reported_of_a_class(
    r: ClassReport,
    class: ThresholdClass,
    months: Seq<MonthSnapshot>,
    sums: ClassSums,
    i: int,
)
    requires
        reports(r, class, months, sums),
        0 <= i < months.len(),
    ensures
        r.class == class,
        r.threshold_eur == class.threshold(),
        r.label@ == (match class {
            ThresholdClass::Credit => "Credit derivatives"@,
            ThresholdClass::Equity => "Equity derivatives"@,
            ThresholdClass::InterestRate => "Interest-rate derivatives"@,
            ThresholdClass::Fx => "FX derivatives"@,
            ThresholdClass::CommodityOther => "Commodity and other derivatives"@,
        }),
        r.months@.len() == months.len(),
        r.months@[i].month == months[i].month,
        months[i].snapshot is None ==> r.months@[i].snapshot_date is None
            && r.months@[i].total_eur is None && r.months@[i].otc_eur is None,
        months[i].snapshot matches Some(s) ==> r.months@[i].snapshot_date == Some(s.0)
            && r.months@[i].total_eur == Some(sums.months@[i].total_eur) && r.months@[i].otc_eur
            == Some(sums.months@[i].otc_eur),
        r.avg_total_eur == sums.avg_total_eur,
        r.avg_otc_eur == sums.avg_otc_eur,
        r.pct_of_threshold == sums.pct_of_threshold,
        r.verdict == verdict_of(sums.pct_of_threshold),
{
}

} // verus!
