//! Liquidity buckets and the redemption stress.

use crate::number::Number;
use crate::order::pick_rows;
use crate::text::same_text;
use vstd::prelude::*;

verus! {

/// The buckets, from the most liquid down.
pub open spec fn bucket_names() -> Seq<Seq<char>> {
    seq!["d1"@, "d2_7"@, "d8_30"@, "d30p"@]
}

/// The name of a bucket.
pub fn bucket_name(index: usize) -> (r: &'static str)
    requires
        index < 4,
    ensures
        r@ == bucket_names()[index as int],
{
    if index == 0 {
        "d1"
    } else if index == 1 {
        "d2_7"
    } else if index == 2 {
        "d8_30"
    } else {
        "d30p"
    }
}

/// The bits of 1, 7 and 30 days.
pub const ONE_DAY: u64 = 0x3FF0_0000_0000_0000;

pub const SEVEN_DAYS: u64 = 0x401C_0000_0000_0000;

pub const THIRTY_DAYS: u64 = 0x403E_0000_0000_0000;

/// Which bucket a number of days falls in. Bands are closed at the upper edge:
/// 1 day is `d1`, 7 days is `d2_7`, 30 days is `d8_30`.
pub open spec fn band(days: Number) -> int {
    if days.at_most(Number { bits: ONE_DAY }) {
        0
    } else if days.at_most(Number { bits: SEVEN_DAYS }) {
        1
    } else if days.at_most(Number { bits: THIRTY_DAYS }) {
        2
    } else {
        3
    }
}

/// Which bucket a number of days falls in.
pub fn band_of_days(days: Number) -> (r: usize)
    ensures
        r == band(days),
        r < 4,
{
    if days.is_at_most(&Number { bits: ONE_DAY }) {
        0
    } else if days.is_at_most(&Number { bits: SEVEN_DAYS }) {
        1
    } else if days.is_at_most(&Number { bits: THIRTY_DAYS }) {
        2
    } else {
        3
    }
}

/// A position's weight and the bucket it was put in.
#[derive(Debug, Clone)]
pub struct LiqPosition {
    pub weight: Number,
    pub bucket: String,
}

/// The weight of a bucket.
#[derive(Debug, Clone)]
pub struct BucketWeight {
    pub bucket: String,
    pub weight: Number,
}

/// The liquidity of a portfolio.
#[derive(Debug, Clone)]
pub struct LiquidityReport {
    pub buckets: Vec<BucketWeight>,
    pub cumulative: Vec<BucketWeight>,
    /// Sum of negative weights (payables, negative cash) - reported, not netted.
    pub negative_memo: Number,
    /// True when assets liquidatable in <= 7 days (d1 + d2_7) cover the shock.
    pub stress_ok: bool,
}

/// The bucket of a name. Unknown names count as the least liquid.
pub open spec fn bucket_of(name: Seq<char>) -> int {
    if name == "d1"@ {
        0
    } else if name == "d2_7"@ {
        1
    } else if name == "d8_30"@ {
        2
    } else {
        3
    }
}

/// Whether a row counts in a bucket; negative weights count in none.
pub open spec fn falls_in(p: LiqPosition, bucket: int) -> bool {
    !p.weight.negative() && bucket_of(p.bucket@) == bucket
}

/// Which rows each bucket sums over, and which go to the memo.
#[derive(Debug)]
pub struct BucketRows {
    pub d1: Vec<usize>,
    pub d2_7: Vec<usize>,
    pub d8_30: Vec<usize>,
    pub d30p: Vec<usize>,
    pub negative: Vec<usize>,
}

/// Which rows each bucket sums over. Long weights only; unknown bucket names
/// count as d30p (conservative).
pub fn bucket_rows(rows: &[LiqPosition]) -> (r: BucketRows)
    ensures
        crate::order::picks(r.d1@, rows@.map_values(|p: LiqPosition| falls_in(p, 0))),
        crate::order::picks(r.d2_7@, rows@.map_values(|p: LiqPosition| falls_in(p, 1))),
        crate::order::picks(r.d8_30@, rows@.map_values(|p: LiqPosition| falls_in(p, 2))),
        crate::order::picks(r.d30p@, rows@.map_values(|p: LiqPosition| falls_in(p, 3))),
        crate::order::picks(r.negative@, rows@.map_values(|p: LiqPosition| p.weight.negative())),
{
    let mut negative: Vec<bool> = Vec::new();
    for i in 0..rows.len()
        invariant
            negative@.len() == i,
            forall|k: int| 0 <= k < i ==> negative@[k] == rows@[k].weight.negative(),
    {
        negative.push(rows[i].weight.is_negative());
    }
    assert(negative@ =~= rows@.map_values(|p: LiqPosition| p.weight.negative()));
    BucketRows {
        d1: rows_in(rows, 0),
        d2_7: rows_in(rows, 1),
        d8_30: rows_in(rows, 2),
        d30p: rows_in(rows, 3),
        negative: pick_rows(&negative),
    }
}

/// The bucket of a name.
fn bucket_index(name: &str) -> (r: usize)
    ensures
        r == bucket_of(name@),
{
    if same_text(name, "d1") {
        0
    } else if same_text(name, "d2_7") {
        1
    } else if same_text(name, "d8_30") {
        2
    } else {
        3
    }
}

/// Which rows a bucket sums over.
fn rows_in(rows: &[LiqPosition], bucket: usize) -> (r: Vec<usize>)
    ensures
        crate::order::picks(
            r@,
            rows@.map_values(|p: LiqPosition| falls_in(p, bucket as int)),
        ),
{
    let mut wanted: Vec<bool> = Vec::new();
    for i in 0..rows.len()
        invariant
            wanted@.len() == i,
            forall|k: int| 0 <= k < i ==> wanted@[k] == falls_in(rows@[k], bucket as int),
    {
        wanted.push(
            !rows[i].weight.is_negative() && bucket_index(rows[i].bucket.as_str()) == bucket,
        );
    }
    assert(wanted@ =~= rows@.map_values(|p: LiqPosition| falls_in(p, bucket as int)));
    pick_rows(&wanted)
}

/// Whether entries carry some figures under the bucket names.
pub open spec fn carries(entries: Seq<BucketWeight>, figures: Seq<Number>) -> bool {
    &&& entries.len() == 4
    &&& forall|i: int|
        0 <= i < 4 ==> (#[trigger] entries[i]).bucket@ == bucket_names()[i] && entries[i].weight
            == figures[i]
}

fn entries_of(figures: &[Number]) -> (r: Vec<BucketWeight>)
    requires
        figures@.len() == 4,
    ensures
        carries(r@, figures@),
{
    let mut out: Vec<BucketWeight> = Vec::new();
    for i in 0..4usize
        invariant
            figures@.len() == 4,
            out@.len() == i,
            forall|k: int|
                0 <= k < i ==> (#[trigger] out@[k]).bucket@ == bucket_names()[k] && out@[k].weight
                    == figures@[k],
    {
        out.push(BucketWeight { bucket: bucket_name(i).to_string(), weight: figures[i] });
    }
    out
}

/// The liquidity report on the sums that `bucket_rows` lays out: `sums` per
/// bucket, `running` those added up from the most liquid down.
pub fn liquidity(sums: &[Number], running: &[Number], negative_memo: Number, shock: Number) -> (r:
    LiquidityReport)
    requires
        sums@.len() == 4,
        running@.len() == 4,
    ensures
        carries(r.buckets@, sums@),
        carries(r.cumulative@, running@),
        r.negative_memo == negative_memo,
        r.stress_ok == shock.at_most(running@[1]),
{
    LiquidityReport {
        buckets: entries_of(sums),
        cumulative: entries_of(running),
        negative_memo,
        stress_ok: shock.is_at_most(&running[1]),
    }
}

/// Every row counts in one place: in one bucket, or in the memo.
pub proof fn law_each_row_counts_in_one_place(p: LiqPosition)
    ensures
        p.weight.negative() ==> forall|b: int| !#[trigger] falls_in(p, b),
        !p.weight.negative() ==> falls_in(p, bucket_of(p.bucket@)) && 0 <= bucket_of(p.bucket@) < 4,
        forall|a: int, b: int| #[trigger] falls_in(p, a) && #[trigger] falls_in(p, b) ==> a == b,
{
}

/// More days never mean a more liquid bucket.
pub proof fn law_more_days_are_no_more_liquid(fewer: Number, more: Number)
    requires
        fewer.at_most(more),
    ensures
        band(fewer) <= band(more),
{
}

/// The bands end with a day, a week and thirty days, each closed at its upper
/// edge; what is no number of days is the least liquid.
pub proof fn law_bands_are_closed_at_the_upper_edge(
    days: Number,
    one: Number,
    seven: Number,
    thirty: Number,
)
    requires
        one.bits == ONE_DAY && seven.bits == SEVEN_DAYS && thirty.bits == THIRTY_DAYS,
    ensures
        crate::binary64::exactly(one, 1, 1),
        crate::binary64::exactly(seven, 7, 1),
        crate::binary64::exactly(thirty, 30, 1),
        band(days) == 0 <==> days.at_most(one),
        band(days) == 1 <==> one.below(days) && days.at_most(seven),
        band(days) == 2 <==> seven.below(days) && days.at_most(thirty),
        band(days) == 3 <==> thirty.below(days) || days.nan(),
{
    vstd::arithmetic::power2::lemma2_to64();
    vstd::arithmetic::power2::lemma2_to64_rest();
    crate::binary64::lemma_exactly(one, 1022, 0x10000000000000, 52, 1, 1);
    crate::binary64::lemma_exactly(seven, 1024, 0x1c000000000000, 50, 7, 1);
    crate::binary64::lemma_exactly(thirty, 1026, 0x1e000000000000, 48, 30, 1);
}

/// The buckets go by their names, from the most liquid down, and a name that is
/// none of them counts as the least liquid.
pub proof fn law_buckets_go_by_their_names(name: Seq<char>)
    ensures
        bucket_names().len() == 4,
        bucket_names()[0] == "d1"@,
        bucket_names()[1] == "d2_7"@,
        bucket_names()[2] == "d8_30"@,
        bucket_names()[3] == "d30p"@,
        bucket_of(name) == 0 <==> name == "d1"@,
        bucket_of(name) == 1 <==> name == "d2_7"@,
        bucket_of(name) == 2 <==> name == "d8_30"@,
        bucket_of(name) == 3 <==> name != "d1"@ && name != "d2_7"@ && name != "d8_30"@,
{
    reveal_strlit("d1");
    reveal_strlit("d2_7");
    reveal_strlit("d8_30");
    assert("d1"@.len() == 2 && "d2_7"@.len() == 4 && "d8_30"@.len() == 5);
}

/// A row counts in the bucket it names unless its weight is below zero.
pub proof fn law_a_row_counts_where_it_says(p: LiqPosition, bucket: int)
    ensures
        falls_in(p, bucket) <==> !p.weight.negative() && bucket == bucket_of(p.bucket@),
{
}

/// Reported figures stand under the names of their buckets, in order.
pub proof fn law_entries_stand_under_their_buckets(entries: Seq<BucketWeight>, figures: Seq<Number>)
    requires
        carries(entries, figures),
    ensures
        entries.len() == 4,
        entries[0].bucket@ == "d1"@ && entries[0].weight == figures[0],
        entries[1].bucket@ == "d2_7"@ && entries[1].weight == figures[1],
        entries[2].bucket@ == "d8_30"@ && entries[2].weight == figures[2],
        entries[3].bucket@ == "d30p"@ && entries[3].weight == figures[3],
{
    assert(entries[0].bucket@ == bucket_names()[0]);
    assert(entries[1].bucket@ == bucket_names()[1]);
    assert(entries[2].bucket@ == bucket_names()[2]);
    assert(entries[3].bucket@ == bucket_names()[3]);
}

} // verus!
