//! Issuer groups and the five concentration checks.

use crate::number::Number;
use crate::order::{group_rows, pick_rows, stable_order, Group};
use crate::text::{chars_of, part_of, same_text, squeezed, string_of, to_uppercase, trim_chars};
use vstd::prelude::*;

verus! {

/// A position as the concentration checks see it.
#[derive(Debug, Clone)]
pub struct ConPosition {
    pub asset_type: String,
    /// Effective issuer group (override already applied by the caller).
    pub group: String,
    pub weight: Number,
}

/// The verdict of a check.
#[derive(Debug, Clone, Copy, PartialEq, Eq, Structural)]
pub enum CheckStatus {
    Okay,
    Watch,
    Breach,
}

/// The verdict on one group.
#[derive(Debug, Clone)]
pub struct CheckRow {
    pub group: String,
    pub weight: Number,
    pub status: CheckStatus,
}

/// One check: its limit, its rows and the verdict over all of them.
#[derive(Debug, Clone)]
pub struct Check {
    pub check: String,
    pub scope_label: String,
    pub limit: Number,
    pub rows: Vec<CheckRow>,
    pub status: CheckStatus,
}

/// The asset type `fund_20` is written against: a per-target-fund limit, so a
/// holding of this type is never regrouped under someone's `issuer_group`
/// override. Two share classes of the same fund are two 20% buckets, and
/// merging them would silently move a fund from two `ok` verdicts to one
/// breach.
pub const FUND_ASSET_TYPE: &'static str = "Fonds";

/// What follows the last `"- "` of a text.
pub open spec fn after_last_dash(s: Seq<char>) -> Option<Seq<char>>
    decreases s.len(),
{
    if s.len() < 2 {
        None
    } else if s[s.len() - 2] == '-' && s[s.len() - 1] == ' ' {
        Some(Seq::empty())
    } else {
        match after_last_dash(s.drop_last()) {
            None => None,
            Some(rest) => Some(rest.push(s.last())),
        }
    }
}

/// Whether an asset type is a cash or margin account.
pub open spec fn deposit(asset_type: Seq<char>) -> bool {
    asset_type == "Cash Acc"@ || asset_type == "Margin Acc"@
}

/// Whether an asset type is a transferable security, or a dividend receivable
/// on one.
pub open spec fn security(asset_type: Seq<char>) -> bool {
    asset_type == "Action"@ || asset_type == "Obligation"@ || asset_type == "Dividendes"@
}

/// The group of a normalized name: for cash and margin accounts the bank code
/// after the last `"- "` where there is one, else the name itself.
pub open spec fn group_of_normalized(asset_type: Seq<char>, n: Seq<char>) -> Seq<char> {
    if deposit(asset_type) {
        match after_last_dash(n) {
            None => n,
            Some(rest) => if crate::text::trimmed(rest).len() == 0 {
                n
            } else {
                crate::text::trimmed(rest)
            },
        }
    } else {
        n
    }
}

/// A name with single spaces and in capitals.
pub open spec fn normalized(name: Seq<char>) -> Seq<char> {
    crate::text::uppercase(crate::text::spaced(crate::text::words(name)))
}

/// The group of a name of ASCII characters.
pub open spec fn plain_group(asset_type: Seq<char>, name: Seq<char>) -> Seq<char> {
    group_of_normalized(
        asset_type,
        crate::text::capitals(crate::text::spaced(crate::text::words(name))),
    )
}

/// The issuer group: the override where there is one and it counts, else the
/// group of the name.
pub open spec fn effective_group(
    asset_type: Seq<char>,
    name: Seq<char>,
    override_: Option<Seq<char>>,
) -> Seq<char> {
    match override_ {
        Some(g) => if asset_type == "Fonds"@ {
            group_of_normalized(asset_type, normalized(name))
        } else {
            g
        },
        None => group_of_normalized(asset_type, normalized(name)),
    }
}

/// Whether an asset type is a cash or margin account.
fn is_deposit(asset_type: &str) -> (r: bool)
    ensures
        r == deposit(asset_type@),
{
    same_text(asset_type, "Cash Acc") || same_text(asset_type, "Margin Acc")
}

/// Whether an asset type is a transferable security or a receivable on one.
fn is_security(asset_type: &str) -> (r: bool)
    ensures
        r == security(asset_type@),
{
    same_text(asset_type, "Action") || same_text(asset_type, "Obligation") || same_text(
        asset_type,
        "Dividendes",
    )
}

/// The place just behind the last `"- "` of a text.
fn find_last_dash(chars: &Vec<char>) -> (r: Option<usize>)
    ensures
        match r {
            None => after_last_dash(chars@) is None,
            Some(at) => at <= chars@.len() && after_last_dash(chars@) == Some(
                chars@.skip(at as int),
            ),
        },
{
    let mut at: usize = chars.len();
    proof {
        assert(chars@.take(at as int) =~= chars@);
    }
    while at >= 2
        invariant
            at <= chars@.len(),
            match after_last_dash(chars@.take(at as int)) {
                None => after_last_dash(chars@) is None,
                Some(rest) => after_last_dash(chars@) == Some(
                    rest + chars@.subrange(at as int, chars@.len() as int),
                ),
            },
        decreases at,
    {
        let ghost part = chars@.take(at as int);
        if chars[at - 2] == '-' && chars[at - 1] == ' ' {
            proof {
                assert(Seq::<char>::empty() + chars@.subrange(at as int, chars@.len() as int)
                    =~= chars@.skip(at as int));
            }
            return Some(at);
        }
        proof {
            assert(part.drop_last() =~= chars@.take(at - 1));
            if let Some(rest) = after_last_dash(chars@.take(at - 1)) {
                assert(rest.push(part.last()) + chars@.subrange(at as int, chars@.len() as int)
                    =~= rest + chars@.subrange(at - 1, chars@.len() as int));
            }
        }
        at = at - 1;
    }
    None
}

/// The group of a name that was normalized already.
pub fn issuer_group_of(asset_type: &str, normalized: String) -> (r: String)
    ensures
        r@ == group_of_normalized(asset_type@, normalized@),
{
    if !is_deposit(asset_type) {
        return normalized;
    }
    let chars = chars_of(normalized.as_str());
    match find_last_dash(&chars) {
        None => normalized,
        Some(at) => {
            let code = trim_chars(&part_of(&chars, at, chars.len()));
            assert(chars@.subrange(at as int, chars@.len() as int) =~= chars@.skip(at as int));
            if code.len() == 0 {
                normalized
            } else {
                string_of(&code)
            }
        },
    }
}

/// Default issuer group: normalized name; for cash/margin accounts the bank
/// code after the last "- " (e.g. "Depositary Bk- CBLU" -> "CBLU").
pub fn default_issuer_group(asset_type: &str, name: &str) -> (r: String)
    ensures
        r@ == group_of_normalized(asset_type@, normalized(name@)),
        crate::text::ascii(name@) ==> r@ == plain_group(asset_type@, name@),
{
    proof {
        if crate::text::ascii(name@) {
            crate::text::lemma_ascii_squeezed(name@);
        }
    }
    let n = to_uppercase(squeezed(name).as_str());
    issuer_group_of(asset_type, n)
}

/// The issuer-group rule: the `issuer_group` override where there is one,
/// falling back to `default_issuer_group` - except for `Fonds`, which is never
/// regrouped (see `FUND_ASSET_TYPE`).
///
/// One definition, called by the concentration checks, the breach register,
/// the Reference page's `effective_issuer_group` and the P&L attribution
/// dimension, so that the group shown is the group used.
pub fn effective_issuer_group(asset_type: &str, name: &str, override_: Option<&str>) -> (r: String)
    ensures
        r@ == effective_group(
            asset_type@,
            name@,
            match override_ {
                None => None,
                Some(g) => Some(g@),
            },
        ),
        crate::text::ascii(name@) && (override_ is None || asset_type@ == "Fonds"@) ==> r@
            == plain_group(asset_type@, name@),
{
    match override_ {
        Some(g) => if issuer_group_override_is_inert(asset_type) {
            default_issuer_group(asset_type, name)
        } else {
            g.to_string()
        },
        None => default_issuer_group(asset_type, name),
    }
}

/// Whether an `issuer_group` override on this asset type does anything at all.
/// The Reference page shows this rather than echoing an inert override back as
/// "effective".
pub fn issuer_group_override_is_inert(asset_type: &str) -> (r: bool)
    ensures
        r == (asset_type@ == "Fonds"@),
{
    same_text(asset_type, FUND_ASSET_TYPE)
}

/// Names with the same words have the same group: how they are spaced does not
/// matter.
pub proof fn law_the_same_words_have_the_same_group(
    asset_type: Seq<char>,
    a: Seq<char>,
    b: Seq<char>,
)
    requires
        crate::text::words(a) == crate::text::words(b),
    ensures
        group_of_normalized(asset_type, normalized(a)) == group_of_normalized(
            asset_type,
            normalized(b),
        ),
{
}

/// Nor does the case of ASCII letters: names of ASCII characters that have the
/// same words up to case have the same group.
pub proof fn law_case_does_not_change_the_group(
    asset_type: Seq<char>,
    a: Seq<char>,
    b: Seq<char>,
)
    requires
        crate::text::words(a).len() == crate::text::words(b).len(),
        forall|i: int|
            0 <= i < crate::text::words(a).len() ==> crate::text::same_but_for_case(
                #[trigger] crate::text::words(a)[i],
                crate::text::words(b)[i],
            ),
    ensures
        plain_group(asset_type, a) == plain_group(asset_type, b),
{
    crate::text::lemma_case_does_not_count(crate::text::words(a), crate::text::words(b));
}

/// Whether no `"- "` stands in a text.
spec fn dashless(s: Seq<char>) -> bool {
    forall|i: int, j: int|
        0 <= i && j == i + 1 && j < s.len() && #[trigger] s[i] == '-' ==> #[trigger] s[j] != ' '
}

/// Where no `"- "` stands, nothing follows one.
proof fn lemma_dashless(s: Seq<char>)
    requires
        dashless(s),
    ensures
        after_last_dash(s) is None,
    decreases s.len(),
{
    if s.len() >= 2 {
        let before = s.drop_last();
        assert(s[s.len() - 2] == '-' ==> s[s.len() - 1] != ' ');
        assert forall|i: int, j: int|
            0 <= i && j == i + 1 && j < before.len() && #[trigger] before[i]
                == '-' implies #[trigger] before[j] != ' ' by {
            assert(s[i] == before[i] && s[j] == before[j]);
        }
        lemma_dashless(before);
    }
}

/// What follows the last `"- "` is the end of the text behind it, and no other
/// stands in it.
proof fn lemma_after_last_dash(s: Seq<char>)
    ensures
        after_last_dash(s) matches Some(rest) ==> {
            &&& rest.len() + 2 <= s.len()
            &&& rest == s.skip(s.len() - rest.len())
            &&& s[s.len() - rest.len() - 1] == ' '
            &&& dashless(rest)
        },
    decreases s.len(),
{
    if s.len() >= 2 {
        if s[s.len() - 2] == '-' && s[s.len() - 1] == ' ' {
            assert(s.skip(s.len() as int) =~= Seq::<char>::empty());
        } else {
            let before = s.drop_last();
            lemma_after_last_dash(before);
            if let Some(part) = after_last_dash(before) {
                let rest = part.push(s.last());
                let at = s.len() - rest.len();
                assert(rest =~= s.skip(at));
                assert(before[at - 1] == s[at - 1]);
                assert forall|i: int, j: int|
                    0 <= i && j == i + 1 && j < rest.len() && #[trigger] rest[i]
                        == '-' implies #[trigger] rest[j] != ' ' by {
                    if j < part.len() {
                        assert(part[i] == rest[i] && part[j] == rest[j]);
                    } else {
                        assert(rest[i] == s[s.len() - 2] && rest[j] == s[s.len() - 1]);
                    }
                }
            }
        }
    }
}

/// The group of a tidy name is its own group, and is the name or what follows
/// its last `"- "`, which is tidy too.
proof fn lemma_group_of_tidy(asset_type: Seq<char>, n: Seq<char>)
    requires
        crate::text::tidy(n),
    ensures
        ({
            let g = group_of_normalized(asset_type, n);
            &&& crate::text::tidy(g)
            &&& group_of_normalized(asset_type, g) == g
            &&& exists|at: int| 0 <= at <= n.len() && g == #[trigger] n.skip(at)
        }),
{
    assert(n.skip(0) =~= n);
    lemma_after_last_dash(n);
    if let Some(rest) = after_last_dash(n) {
        let at = n.len() - rest.len();
        assert(n.last() == n[n.len() - 1]);
        assert(rest.len() > 0);
        assert forall|i: int| 0 <= i < rest.len() implies #[trigger] rest[i] == n[at + i] by {}
        assert(!crate::text::white_space(n[at])) by {
            assert(crate::text::white_space(n[at - 1]));
        }
        assert(rest[0] == n[at]);
        assert(rest.first() == rest[0] && rest.last() == n.last());
        assert(crate::text::trimmed(rest) == rest);
        assert forall|i: int| 0 <= i < rest.len() && crate::text::white_space(
            #[trigger] rest[i],
        ) implies rest[i] == ' ' by {
            assert(rest[i] == n[at + i]);
        }
        assert forall|i: int, j: int|
            0 <= i < rest.len() && j == i + 1 && j < rest.len() && crate::text::white_space(
                #[trigger] rest[i],
            ) implies !crate::text::white_space(#[trigger] rest[j]) by {
            assert(rest[i] == n[at + i] && rest[j] == n[at + j]);
        }
        assert(crate::text::tidy(rest));
        lemma_dashless(rest);
    }
}

/// Whether a text holds no ASCII small letter.
pub open spec fn no_small_letter(s: Seq<char>) -> bool {
    forall|i: int| 0 <= i < s.len() ==> !('a' <= #[trigger] s[i] <= 'z')
}

/// The group of a name of ASCII characters is words with one space between each
/// two, with no white space at its ends and without small letters.
pub proof fn law_a_group_is_tidy_and_in_capitals(asset_type: Seq<char>, name: Seq<char>)
    ensures
        crate::text::tidy(plain_group(asset_type, name)),
        no_small_letter(plain_group(asset_type, name)),
{
    let s = crate::text::spaced(crate::text::words(name));
    let n = crate::text::capitals(s);
    crate::text::lemma_squeezed_is_tidy(name);
    crate::text::lemma_capitals(s);
    lemma_group_of_tidy(asset_type, n);
    let g = group_of_normalized(asset_type, n);
    let at = choose|at: int| 0 <= at <= n.len() && g == #[trigger] n.skip(at);
    assert forall|i: int| 0 <= i < g.len() implies !('a' <= #[trigger] g[i] <= 'z') by {
        assert(g[i] == n[at + i] && n[at + i] == crate::text::ascii_capital(s[at + i]));
    }
}

/// The group of a group is the group itself, for a name of ASCII characters.
pub proof fn law_the_group_of_a_group_is_itself(asset_type: Seq<char>, name: Seq<char>)
    ensures
        plain_group(asset_type, plain_group(asset_type, name)) == plain_group(asset_type, name),
        crate::text::ascii(name) ==> crate::text::ascii(plain_group(asset_type, name)),
{
    let s = crate::text::spaced(crate::text::words(name));
    let n = crate::text::capitals(s);
    let g = plain_group(asset_type, name);
    law_a_group_is_tidy_and_in_capitals(asset_type, name);
    crate::text::lemma_squeezed_is_tidy(name);
    crate::text::lemma_capitals(s);
    lemma_group_of_tidy(asset_type, n);
    crate::text::lemma_tidy_stays(g);
    assert(crate::text::capitals(g) =~= g);
    if crate::text::ascii(name) {
        crate::text::lemma_ascii_squeezed(name);
        let at = choose|at: int| 0 <= at <= n.len() && g == #[trigger] n.skip(at);
        assert forall|i: int| 0 <= i < g.len() implies #[trigger] g[i] <= '\u{7f}' by {
            assert(g[i] == n[at + i]);
        }
    }
}

/// A limit on a weight, as a share of NAV. Four fifths of it are watched.
#[derive(Debug, Clone, Copy, PartialEq, Eq, Structural)]
pub enum Limit {
    TenPercent,
    TwentyPercent,
    FortyPercent,
}

impl Limit {
    /// The limit itself: the figures nearest to 0.1, 0.2 and 0.4.
    pub open spec fn bound(self) -> Number {
        match self {
            Limit::TenPercent => Number { bits: 0x3FB9_9999_9999_999A },
            Limit::TwentyPercent => Number { bits: 0x3FC9_9999_9999_999A },
            Limit::FortyPercent => Number { bits: 0x3FD9_9999_9999_999A },
        }
    }

    /// Where watching begins: the limit times the figure nearest to 0.8.
    pub open spec fn watched_from(self) -> Number {
        match self {
            Limit::TenPercent => Number { bits: 0x3FB4_7AE1_47AE_147C },
            Limit::TwentyPercent => Number { bits: 0x3FC4_7AE1_47AE_147C },
            Limit::FortyPercent => Number { bits: 0x3FD4_7AE1_47AE_147C },
        }
    }

    /// The limit itself.
    pub fn limit(&self) -> (r: Number)
        ensures
            r == self.bound(),
    {
        match self {
            Limit::TenPercent => Number { bits: 0x3FB9_9999_9999_999A },
            Limit::TwentyPercent => Number { bits: 0x3FC9_9999_9999_999A },
            Limit::FortyPercent => Number { bits: 0x3FD9_9999_9999_999A },
        }
    }

    /// Where watching begins.
    pub fn watch(&self) -> (r: Number)
        ensures
            r == self.watched_from(),
    {
        match self {
            Limit::TenPercent => Number { bits: 0x3FB4_7AE1_47AE_147C },
            Limit::TwentyPercent => Number { bits: 0x3FC4_7AE1_47AE_147C },
            Limit::FortyPercent => Number { bits: 0x3FD4_7AE1_47AE_147C },
        }
    }
}

/// The bits of 5% of NAV: the weight above which an issuer counts towards the
/// forty.
pub const FIVE_PERCENT: u64 = 0x3FA9_9999_9999_999A;

/// Whether a weight counts towards the forty.
pub open spec fn counts_to_forty(weight: Number) -> bool {
    (Number { bits: FIVE_PERCENT }).below(weight)
}

/// The verdict on a weight: a breach above the limit, watched from the share
/// of it.
pub open spec fn status_of(weight: Number, l: Limit) -> CheckStatus {
    if l.bound().below(weight) {
        CheckStatus::Breach
    } else if l.watched_from().at_most(weight) {
        CheckStatus::Watch
    } else {
        CheckStatus::Okay
    }
}

/// How bad a verdict is.
pub open spec fn gravity(s: CheckStatus) -> int {
    match s {
        CheckStatus::Okay => 0,
        CheckStatus::Watch => 1,
        CheckStatus::Breach => 2,
    }
}

/// The verdict on a weight.
pub fn status_for(weight: Number, l: Limit) -> (r: CheckStatus)
    ensures
        r == status_of(weight, l),
{
    if l.limit().is_below(&weight) {
        CheckStatus::Breach
    } else if l.watch().is_at_most(&weight) {
        CheckStatus::Watch
    } else {
        CheckStatus::Okay
    }
}

/// How bad a verdict is.
pub fn severity(s: CheckStatus) -> (r: u8)
    ensures
        r == gravity(s),
{
    match s {
        CheckStatus::Okay => 0,
        CheckStatus::Watch => 1,
        CheckStatus::Breach => 2,
    }
}

/// The positions a check looks at.
#[derive(Debug, Clone, Copy, PartialEq, Eq, Structural)]
pub enum Scope {
    /// Transferable securities and dividend receivables.
    Securities,
    /// Target funds.
    Funds,
    /// Cash and margin accounts.
    Deposits,
}

impl Scope {
    /// Whether an asset type falls under the scope.
    pub open spec fn covers(self, asset_type: Seq<char>) -> bool {
        match self {
            Scope::Securities => security(asset_type),
            Scope::Funds => asset_type == "Fonds"@,
            Scope::Deposits => deposit(asset_type),
        }
    }
}

/// The groups of some positions.
pub open spec fn groups_of(positions: Seq<ConPosition>) -> Seq<String> {
    positions.map_values(|p: ConPosition| p.group)
}

/// Which positions a scope covers.
pub open spec fn covered(positions: Seq<ConPosition>, scope: Scope) -> Seq<bool> {
    positions.map_values(|p: ConPosition| scope.covers(p.asset_type@))
}

/// The positions of a scope by issuer group: which rows each group sums over.
/// Groups come in the order of their names, rows in the order of the
/// positions.
pub fn group_members(positions: &[ConPosition], scope: Scope) -> (r: Vec<Group>)
    ensures
        crate::order::grouping(
            r@,
            groups_of(positions@),
            covered(positions@, scope),
            positions@.len() as int,
        ),
{
    let mut names: Vec<String> = Vec::new();
    let mut chosen: Vec<bool> = Vec::new();
    for i in 0..positions.len()
        invariant
            names@ == groups_of(positions@.take(i as int)),
            chosen@ == covered(positions@.take(i as int), scope),
    {
        let p = &positions[i];
        let inside: bool = match scope {
            Scope::Securities => is_security(p.asset_type.as_str()),
            Scope::Funds => same_text(p.asset_type.as_str(), FUND_ASSET_TYPE),
            Scope::Deposits => is_deposit(p.asset_type.as_str()),
        };
        names.push(p.group.clone());
        chosen.push(inside);
        proof {
            assert(names@ =~= groups_of(positions@.take(i + 1)));
            assert(chosen@ =~= covered(positions@.take(i + 1), scope));
        }
    }
    proof {
        assert(positions@.take(positions@.len() as int) =~= positions@);
    }
    group_rows(&names, &chosen)
}

/// A group and the sum of its weights.
#[derive(Debug, Clone)]
pub struct GroupSum {
    pub group: String,
    pub weight: Number,
}

/// A weight, or zero where it is below or no number: what a group owes is no
/// exposure.
pub open spec fn floored(weight: Number) -> Number {
    if weight.positive() {
        weight
    } else {
        Number { bits: 0 }
    }
}

/// Where a sum stands in the ranking: the heavier, the lower the key.
pub open spec fn rank_keys(sums: Seq<GroupSum>) -> Seq<int> {
    sums.map_values(|g: GroupSum| -1 - floored(g.weight).total_place())
}

/// Whether `ranked` is the ranking of some sums: floored at zero, the heaviest
/// first, and where two are equal the one that came first.
pub open spec fn ranking(sums: Seq<GroupSum>, ranked: Seq<GroupSum>) -> bool {
    exists|order: Seq<usize>|
        #![trigger crate::order::in_order(rank_keys(sums), order)]
        crate::order::in_order(rank_keys(sums), order) && ranked.len() == order.len() && forall|
            i: int,
        |
            0 <= i < ranked.len() ==> (#[trigger] ranked[i]).group@ == sums[order[i] as int].group@
                && ranked[i].weight == floored(sums[order[i] as int].weight)
}

/// Group sums floored at 0 (negatives offset within a group, never across)
/// and sorted descending by weight.
pub fn rank_groups(sums: &Vec<GroupSum>) -> (r: Vec<GroupSum>)
    ensures
        ranking(sums@, r@),
{
    let mut keys: Vec<i64> = Vec::new();
    let mut weights: Vec<Number> = Vec::new();
    for i in 0..sums.len()
        invariant
            keys@.len() == i,
            weights@.len() == i,
            forall|j: int| 0 <= j < i ==> (#[trigger] weights@[j]) == floored(sums@[j].weight),
            forall|j: int|
                0 <= j < i ==> (#[trigger] keys@[j]) == -1 - floored(sums@[j].weight).total_place(),
    {
        let w = if sums[i].weight.is_positive() {
            sums[i].weight
        } else {
            Number::zero()
        };
        keys.push(-1 - w.total_key());
        weights.push(w);
    }
    assert(crate::order::as_ints(keys@) =~= rank_keys(sums@));
    let order = stable_order(&keys);
    let mut out: Vec<GroupSum> = Vec::new();
    for i in 0..order.len()
        invariant
            crate::order::in_order(rank_keys(sums@), order@),
            weights@.len() == sums@.len(),
            forall|j: int|
                0 <= j < sums@.len() ==> (#[trigger] weights@[j]) == floored(sums@[j].weight),
            out@.len() == i,
            forall|j: int|
                0 <= j < i ==> (#[trigger] out@[j]).group@ == sums@[order@[j] as int].group@
                    && out@[j].weight == floored(sums@[order@[j] as int].weight),
    {
        let k: usize = order[i];
        out.push(GroupSum { group: sums[k].group.clone(), weight: weights[k] });
    }
    out
}

/// Which ranked groups weigh more than 5%: the ones the forty sums over.
pub fn over_five(ranked: &Vec<GroupSum>) -> (r: Vec<usize>)
    ensures
        crate::order::picks(
            r@,
            ranked@.map_values(|g: GroupSum| counts_to_forty(g.weight)),
        ),
{
    let five = Number { bits: FIVE_PERCENT };
    let mut wanted: Vec<bool> = Vec::new();
    for i in 0..ranked.len()
        invariant
            five.bits == FIVE_PERCENT,
            wanted@.len() == i,
            forall|k: int| 0 <= k < i ==> wanted@[k] == counts_to_forty(ranked@[k].weight),
    {
        wanted.push(five.is_below(&ranked[i].weight));
    }
    assert(wanted@ =~= ranked@.map_values(|g: GroupSum| counts_to_forty(g.weight)));
    pick_rows(&wanted)
}

/// Whether rows are the verdicts on some groups, one for one.
pub open spec fn judged(sums: Seq<GroupSum>, l: Limit, rows: Seq<CheckRow>) -> bool {
    &&& rows.len() == sums.len()
    &&& forall|i: int|
        0 <= i < rows.len() ==> (#[trigger] rows[i]).group@ == sums[i].group@ && rows[i].weight
            == sums[i].weight && rows[i].status == status_of(sums[i].weight, l)
}

/// Whether a verdict is the worst over some rows; over no rows it is `Okay`.
pub open spec fn worst(rows: Seq<CheckRow>, status: CheckStatus) -> bool {
    &&& forall|i: int|
        0 <= i < rows.len() ==> gravity((#[trigger] rows[i]).status) <= gravity(status)
    &&& status is Okay || exists|i: int| 0 <= i < rows.len() && (#[trigger] rows[i]).status == status
}

/// Whether a check is the one of a key, over some groups.
pub open spec fn check_over(
    c: Check,
    key: Seq<char>,
    label: Seq<char>,
    l: Limit,
    sums: Seq<GroupSum>,
) -> bool {
    &&& c.check@ == key
    &&& c.scope_label@ == label
    &&& c.limit == l.bound()
    &&& judged(sums, l, c.rows@)
    &&& worst(c.rows@, c.status)
}

/// The groups that hold something.
pub open spec fn above_zero(sums: Seq<GroupSum>) -> Seq<GroupSum>
    decreases sums.len(),
{
    if sums.len() == 0 {
        Seq::empty()
    } else if sums.last().weight.positive() {
        above_zero(sums.drop_last()).push(sums.last())
    } else {
        above_zero(sums.drop_last())
    }
}

/// The verdicts on some groups, and the worst of them.
fn check_of(key: &str, label: &str, l: Limit, sums: &Vec<GroupSum>) -> (r: Check)
    ensures
        check_over(r, key@, label@, l, sums@),
{
    let mut rows: Vec<CheckRow> = Vec::new();
    let mut status = CheckStatus::Okay;
    for i in 0..sums.len()
        invariant
            rows@.len() == i,
            forall|j: int|
                0 <= j < i ==> (#[trigger] rows@[j]).group@ == sums@[j].group@ && rows@[j].weight
                    == sums@[j].weight && rows@[j].status == status_of(sums@[j].weight, l),
            worst(rows@, status),
    {
        let ghost before = rows@;
        let s = status_for(sums[i].weight, l);
        rows.push(CheckRow { group: sums[i].group.clone(), weight: sums[i].weight, status: s });
        proof {
            assert(rows@[i as int].status == s);
            assert forall|j: int| 0 <= j < before.len() implies rows@[j] == before[j] by {}
            if !(status is Okay) {
                let j = choose|j: int|
                    0 <= j < before.len() && (#[trigger] before[j]).status == status;
                assert(rows@[j].status == status);
            }
        }
        if severity(s) > severity(status) {
            status = s;
        }
    }
    Check { check: key.to_string(), scope_label: label.to_string(), limit: l.limit(), rows, status }
}

/// The groups that hold something.
fn drop_empty(sums: &Vec<GroupSum>) -> (r: Vec<GroupSum>)
    ensures
        same_sums(r@, above_zero(sums@)),
{
    let mut out: Vec<GroupSum> = Vec::new();
    for i in 0..sums.len()
        invariant
            same_sums(out@, above_zero(sums@.take(i as int))),
    {
        proof {
            assert(sums@.take(i + 1).drop_last() =~= sums@.take(i as int));
        }
        if sums[i].weight.is_positive() {
            out.push(GroupSum { group: sums[i].group.clone(), weight: sums[i].weight });
        }
    }
    assert(sums@.take(sums@.len() as int) =~= sums@);
    out
}

/// Whether two lists of sums name the same groups with the same weights.
pub open spec fn same_sums(a: Seq<GroupSum>, b: Seq<GroupSum>) -> bool {
    &&& a.len() == b.len()
    &&& forall|i: int|
        0 <= i < a.len() ==> (#[trigger] a[i]).group@ == b[i].group@ && a[i].weight == b[i].weight
}

/// The five concentration checks on ranked groups: issuer_10, forty, group_20
/// on transferable securities (+ dividend receivables), fund_20 per target
/// fund, deposit_20 per bank on net-positive cash+margin. `over_five_sum` is
/// the weight of the securities groups that `over_five` picks.
pub fn concentration_checks(
    securities: &Vec<GroupSum>,
    over_five_sum: Number,
    funds: &Vec<GroupSum>,
    deposits: &Vec<GroupSum>,
) -> (r: Vec<Check>)
    ensures
        r@.len() == 5,
        check_over(
            r@[0],
            "issuer_10"@,
            "Issuer <= 10% NAV (equities + bonds)"@,
            Limit::TenPercent,
            securities@,
        ),
        r@[1].check@ == "forty"@,
        r@[1].scope_label@ == "Sum of issuers > 5% <= 40% NAV"@,
        r@[1].limit == Limit::FortyPercent.bound(),
        r@[1].rows@.len() == 1,
        r@[1].rows@[0].group@ == "Sum of issuer exposures > 5%"@,
        r@[1].rows@[0].weight == over_five_sum,
        r@[1].rows@[0].status == status_of(over_five_sum, Limit::FortyPercent),
        r@[1].status == status_of(over_five_sum, Limit::FortyPercent),
        check_over(
            r@[2],
            "group_20"@,
            "Connected group <= 20% NAV"@,
            Limit::TwentyPercent,
            securities@,
        ),
        check_over(r@[3], "fund_20"@, "Target fund <= 20% NAV"@, Limit::TwentyPercent, funds@),
        check_over(
            r@[4],
            "deposit_20"@,
            "Deposits per bank <= 20% NAV"@,
            Limit::TwentyPercent,
            above_zero(deposits@),
        ),
{
    let mut out: Vec<Check> = Vec::new();
    out.push(
        check_of("issuer_10", "Issuer <= 10% NAV (equities + bonds)", Limit::TenPercent, securities),
    );
    let mut forty: Vec<GroupSum> = Vec::new();
    forty.push(
        GroupSum { group: "Sum of issuer exposures > 5%".to_string(), weight: over_five_sum },
    );
    let forty_check = check_of(
        "forty",
        "Sum of issuers > 5% <= 40% NAV",
        Limit::FortyPercent,
        &forty,
    );
    assert(forty_check.rows@[0].status == forty_check.status);
    out.push(forty_check);
    out.push(check_of("group_20", "Connected group <= 20% NAV", Limit::TwentyPercent, securities));
    out.push(check_of("fund_20", "Target fund <= 20% NAV", Limit::TwentyPercent, funds));
    let held = drop_empty(deposits);
    out.push(check_of("deposit_20", "Deposits per bank <= 20% NAV", Limit::TwentyPercent, &held));
    out
}

/// A heavier weight never gets the milder verdict.
pub proof fn law_a_heavier_weight_is_judged_no_milder(lighter: Number, heavier: Number, l: Limit)
    requires
        lighter.at_most(heavier),
    ensures
        gravity(status_of(lighter, l)) <= gravity(status_of(heavier, l)),
{
}

/// An override is honoured everywhere but on a fund, where it changes nothing.
pub proof fn law_an_override_counts_except_on_a_fund(
    asset_type: Seq<char>,
    name: Seq<char>,
    override_: Seq<char>,
)
    ensures
        asset_type != "Fonds"@ ==> effective_group(asset_type, name, Some(override_)) == override_,
        asset_type == "Fonds"@ ==> effective_group(asset_type, name, Some(override_))
            == effective_group(asset_type, name, None),
        asset_type == "Fonds"@ ==> effective_group(asset_type, name, None) == normalized(name),
{
    reveal_strlit("Fonds");
    reveal_strlit("Cash Acc");
    reveal_strlit("Margin Acc");
    assert("Fonds"@.len() != "Cash Acc"@.len() && "Fonds"@.len() != "Margin Acc"@.len());
}

/// No position counts under two scopes.
pub proof fn law_the_scopes_do_not_overlap(asset_type: Seq<char>, a: Scope, b: Scope)
    requires
        a.covers(asset_type),
        b.covers(asset_type),
    ensures
        a == b,
{
    reveal_strlit("Fonds");
    reveal_strlit("Cash Acc");
    reveal_strlit("Margin Acc");
    reveal_strlit("Action");
    reveal_strlit("Obligation");
    reveal_strlit("Dividendes");
    assert(asset_type[0] == asset_type[0]);
    assert("Fonds"@[0] == 'F' && "Cash Acc"@[0] == 'C' && "Margin Acc"@[0] == 'M');
    assert("Action"@[0] == 'A' && "Obligation"@[0] == 'O' && "Dividendes"@[0] == 'D');
}

/// A ranking goes down: no group outweighs one above it, and none is below
/// zero.
pub proof fn law_a_ranking_goes_down(sums: Seq<GroupSum>, ranked: Seq<GroupSum>, i: int, j: int)
    requires
        ranking(sums, ranked),
        0 <= i < j < ranked.len(),
    ensures
        ranked[j].weight.at_most(ranked[i].weight),
        !ranked[i].weight.negative(),
        !ranked[j].weight.negative(),
{
    let order = choose|order: Seq<usize>|
        #![trigger crate::order::in_order(rank_keys(sums), order)]
        crate::order::in_order(rank_keys(sums), order) && ranked.len() == order.len() && forall|
            i: int,
        |
            0 <= i < ranked.len() ==> (#[trigger] ranked[i]).group@ == sums[order[i] as int].group@
                && ranked[i].weight == floored(sums[order[i] as int].weight);
    let keys = rank_keys(sums);
    assert(crate::order::precedes(keys, order[i] as int, order[j] as int));
    assert(keys[order[i] as int] == -1 - ranked[i].weight.total_place());
    assert(keys[order[j] as int] == -1 - ranked[j].weight.total_place());
}

/// A weight breaches exactly above the limit that it is judged by, is watched
/// exactly from the limit's own share of it up to the limit itself, and is in
/// order everywhere else.
pub proof fn law_a_weight_breaches_exactly_above_its_limit(weight: Number, l: Limit)
    ensures
        status_of(weight, l) is Breach <==> l.bound().below(weight),
        status_of(weight, l) is Watch <==> l.watched_from().at_most(weight) && weight.at_most(
            l.bound(),
        ),
        status_of(weight, l) is Okay <==> weight.nan() || weight.below(l.watched_from()),
{
}

/// The limits are a tenth, a fifth and two fifths of net assets, and watching
/// begins at four fifths of a limit, up to the last digit of a figure.
pub proof fn law_the_limits_are_what_they_are_called()
    ensures
        crate::binary64::closest(Limit::TenPercent.bound(), 1, 10),
        crate::binary64::closest(Limit::TwentyPercent.bound(), 1, 5),
        crate::binary64::closest(Limit::FortyPercent.bound(), 2, 5),
        forall|l: Limit|
            ({
                let limit = #[trigger] l.bound().in_smallest_units();
                let from = l.watched_from().in_smallest_units();
                &&& l.watched_from().finite()
                &&& 0 < from < limit
                &&& 0 <= 5 * from - 4 * limit
                &&& (5 * from - 4 * limit) * 0x4_0000_0000_0000 <= limit
            }),
        crate::binary64::closest(Number { bits: FIVE_PERCENT }, 1, 20),
{
    vstd::arithmetic::power2::lemma2_to64();
    vstd::arithmetic::power2::lemma2_to64_rest();
    crate::binary64::lemma_closest(Limit::TenPercent.bound(), 1018, 0x1999999999999a, 56, 1, 10);
    crate::binary64::lemma_closest(Limit::TwentyPercent.bound(), 1019, 0x1999999999999a, 55, 1, 5);
    crate::binary64::lemma_closest(Limit::FortyPercent.bound(), 1020, 0x1999999999999a, 54, 2, 5);
    crate::binary64::lemma_closest(Number { bits: FIVE_PERCENT }, 1017, 0x1999999999999a, 57, 1, 20);

    assert forall|l: Limit|
        ({
            let limit = #[trigger] l.bound().in_smallest_units();
            let from = l.watched_from().in_smallest_units();
            &&& l.watched_from().finite()
            &&& 0 < from < limit
            &&& 0 <= 5 * from - 4 * limit
            &&& (5 * from - 4 * limit) * 0x4_0000_0000_0000 <= limit
        }) by {
        let k: nat = match l {
            Limit::TenPercent => 1018,
            Limit::TwentyPercent => 1019,
            Limit::FortyPercent => 1020,
        };
        let p = vstd::arithmetic::power2::pow2(k) as int;
        vstd::arithmetic::power2::lemma_pow2_pos(k);
        let limit = l.bound().in_smallest_units();
        let from = l.watched_from().in_smallest_units();
        assert(limit == 0x19_9999_9999_999A * p);
        assert(from == 0x14_7AE1_47AE_147C * p);
        assert(0 < 0x14_7AE1_47AE_147C * p < 0x19_9999_9999_999A * p) by (nonlinear_arith)
            requires
                p > 0,
        ;
        assert(0 <= 5 * (0x14_7AE1_47AE_147C * p) - 4 * (0x19_9999_9999_999A * p)
            && (5 * (0x14_7AE1_47AE_147C * p) - 4 * (0x19_9999_9999_999A * p)) * 0x4_0000_0000_0000
            <= 0x19_9999_9999_999A * p) by (nonlinear_arith)
            requires
                p > 0,
        ;
    }
}

/// Of the issuers only those above a twentieth of net assets count towards the
/// forty.
pub proof fn law_only_more_than_five_percent_counts_to_forty(weight: Number, at_five: Number)
    requires
        crate::binary64::closest(at_five, 1, 20),
    ensures
        weight.finite() ==> (counts_to_forty(weight) <==> at_five.below(weight)),
        weight.nan() ==> !counts_to_forty(weight),
{
    law_the_limits_are_what_they_are_called();
    let five = Number { bits: FIVE_PERCENT };
    assert(at_five.finite() && five.finite());
    crate::number::law_comparison_is_numeric(at_five, five);
    crate::number::law_comparison_is_numeric(five, at_five);
    lemma_one_closest(at_five, five);
}

/// Only one figure is the nearest to a twentieth.
proof fn lemma_one_closest(a: Number, five: Number)
    requires
        crate::binary64::closest(a, 1, 20),
        five.bits == FIVE_PERCENT,
    ensures
        a.place() == five.place(),
{
    vstd::arithmetic::power2::lemma2_to64();
    vstd::arithmetic::power2::lemma2_to64_rest();
    crate::binary64::lemma_closest(five, 1017, 0x1999999999999a, 57, 1, 20);

    let one = crate::binary64::units_of_one();
    let p = vstd::arithmetic::power2::pow2(1017) as int;
    vstd::arithmetic::power2::lemma_pow2_pos(1017);
    vstd::arithmetic::power2::lemma_pow2_adds(57, 1017);
    assert(five.in_smallest_units() == 0x19_9999_9999_999A * p);
    assert(one == 0x200_0000_0000_0000 * p);
    assert(20 * five.in_smallest_units() == one + 8 * p) by (nonlinear_arith)
        requires
            five.in_smallest_units() == 0x19_9999_9999_999A * p,
            one == 0x200_0000_0000_0000 * p,
    ;
    let gap = crate::binary64::distance(one, 20 * five.in_smallest_units());
    assert(crate::binary64::distance(one, 20 * a.in_smallest_units()) <= gap);
    assert(gap == 8 * p);
    crate::number::law_comparison_is_numeric(a, five);
    crate::number::law_comparison_is_numeric(five, a);
    let up = Number { bits: (FIVE_PERCENT + 1) as u64 };
    let down = Number { bits: (FIVE_PERCENT - 1) as u64 };
    assert(20 * up.in_smallest_units() == one + 28 * p) by (nonlinear_arith)
        requires
            up.in_smallest_units() == 0x19_9999_9999_999B * p,
            one == 0x200_0000_0000_0000 * p,
    ;
    assert(20 * down.in_smallest_units() == one - 12 * p) by (nonlinear_arith)
        requires
            down.in_smallest_units() == 0x19_9999_9999_9999 * p,
            one == 0x200_0000_0000_0000 * p,
    ;
    if five.below(a) {
        assert(up.at_most(a));
        crate::number::law_comparison_is_numeric(up, a);
    }
    if a.below(five) {
        assert(a.at_most(down));
        crate::number::law_comparison_is_numeric(a, down);
    }
}

/// A check judges every group it is given, each by the limit that it reports:
/// one row per group in the same order, a breach exactly above that limit, and
/// the check itself as bad as the worst of its rows.
pub proof fn law_a_check_is_judged_by_the_limit_it_reports(
    c: Check,
    key: Seq<char>,
    label: Seq<char>,
    l: Limit,
    sums: Seq<GroupSum>,
)
    requires
        check_over(c, key, label, l, sums),
    ensures
        c.rows@.len() == sums.len(),
        forall|i: int|
            0 <= i < sums.len() ==> (#[trigger] c.rows@[i]).group@ == sums[i].group@
                && c.rows@[i].weight == sums[i].weight && (c.rows@[i].status is Breach
                <==> c.limit.below(sums[i].weight)) && (c.rows@[i].status is Okay
                <==> !l.watched_from().at_most(sums[i].weight)),
        c.status is Breach <==> exists|i: int|
            0 <= i < sums.len() && c.limit.below((#[trigger] sums[i]).weight),
        c.status is Okay <==> forall|i: int|
            0 <= i < sums.len() ==> !l.watched_from().at_most((#[trigger] sums[i]).weight),
{
    if c.status is Breach {
        let i = choose|i: int| 0 <= i < c.rows@.len() && (#[trigger] c.rows@[i]).status == c.status;
        assert(c.limit.below(sums[i].weight));
    }
    if exists|i: int| 0 <= i < sums.len() && c.limit.below((#[trigger] sums[i]).weight) {
        let i = choose|i: int| 0 <= i < sums.len() && c.limit.below((#[trigger] sums[i]).weight);
        assert(c.rows@[i].status is Breach);
    }
    if c.status is Okay {
        assert forall|i: int| 0 <= i < sums.len() implies !l.watched_from().at_most(
            (#[trigger] sums[i]).weight,
        ) by {
            assert(gravity(c.rows@[i].status) <= gravity(c.status));
        }
    }
    if forall|i: int|
        0 <= i < sums.len() ==> !l.watched_from().at_most((#[trigger] sums[i]).weight) {
        if !(c.status is Okay) {
            let i = choose|i: int|
                0 <= i < c.rows@.len() && (#[trigger] c.rows@[i]).status == c.status;
            assert(!l.watched_from().at_most(sums[i].weight));
        }
    }
}

/// A breach is worse than a watched weight, and that is worse than one in order.
pub proof fn law_verdicts_go_from_bad_to_worse()
    ensures
        0 == gravity(CheckStatus::Okay) < gravity(CheckStatus::Watch) < gravity(
            CheckStatus::Breach,
        ),
{
}

/// What each check looks at: shares, bonds and dividend receivables; target
/// funds; cash and margin accounts. Anything else is looked at by none.
pub proof fn law_what_a_scope_covers(asset_type: Seq<char>)
    ensures
        Scope::Securities.covers(asset_type) <==> asset_type == "Action"@ || asset_type
            == "Obligation"@ || asset_type == "Dividendes"@,
        Scope::Funds.covers(asset_type) <==> asset_type == "Fonds"@,
        Scope::Deposits.covers(asset_type) <==> asset_type == "Cash Acc"@ || asset_type
            == "Margin Acc"@,
{
}

/// The deposits that are judged are those that hold something, in their order.
pub proof fn law_only_deposits_that_hold_something_are_judged(sums: Seq<GroupSum>)
    ensures
        above_zero(sums) == sums.filter(|g: GroupSum| g.weight.positive()),
    decreases sums.len(),
{
    reveal(Seq::filter);
    if sums.len() > 0 {
        law_only_deposits_that_hold_something_are_judged(sums.drop_last());
    }
}

/// A ranking keeps every group, each with its own weight, or with zero where
/// that is below zero or no number; of two that weigh the same the one that
/// came first stays first.
pub proof fn law_a_ranking_keeps_every_group(sums: Seq<GroupSum>, ranked: Seq<GroupSum>)
    requires
        ranking(sums, ranked),
    ensures
        ranked.len() == sums.len(),
        exists|order: Seq<usize>|
            order.len() == sums.len() && (forall|k: int|
                0 <= k < sums.len() <= usize::MAX ==> #[trigger] order.contains(k as usize)) && (
            forall|i: int|
                0 <= i < order.len() ==> #[trigger] order[i] < sums.len() && ranked[i].group@
                    == sums[order[i] as int].group@ && (if sums[order[i] as int].weight.positive() {
                    ranked[i].weight == sums[order[i] as int].weight
                } else {
                    ranked[i].weight.bits == 0
                })) && (forall|i: int, j: int|
                0 <= i < j < order.len() && ranked[i].weight == ranked[j].weight
                    ==> #[trigger] order[i] < #[trigger] order[j]),
{
    let keys = rank_keys(sums);
    let order = choose|order: Seq<usize>|
        #![trigger crate::order::in_order(rank_keys(sums), order)]
        crate::order::in_order(rank_keys(sums), order) && ranked.len() == order.len() && forall|
            i: int,
        |
            0 <= i < ranked.len() ==> (#[trigger] ranked[i]).group@ == sums[order[i] as int].group@
                && ranked[i].weight == floored(sums[order[i] as int].weight);
    assert forall|i: int|
        0 <= i < order.len() implies #[trigger] order[i] < sums.len() && ranked[i].group@
        == sums[order[i] as int].group@ && (if sums[order[i] as int].weight.positive() {
        ranked[i].weight == sums[order[i] as int].weight
    } else {
        ranked[i].weight.bits == 0
    }) by {
        assert(order[i] < keys.len());
    }
    assert forall|i: int, j: int|
        0 <= i < j < order.len() && ranked[i].weight == ranked[j].weight implies #[trigger] order[i]
        < #[trigger] order[j] by {
        assert(crate::order::precedes(keys, order[i] as int, order[j] as int));
        assert(keys[order[i] as int] == -1 - ranked[i].weight.total_place());
        assert(keys[order[j] as int] == -1 - ranked[j].weight.total_place());
    }
}

/// The group of a cash or margin account is what follows the last dash and
/// space of its name, trimmed, where that leaves anything; any other position
/// goes by its whole name.
pub proof fn law_a_deposit_goes_by_its_bank_code(
    asset_type: Seq<char>,
    head: Seq<char>,
    code: Seq<char>,
)
    requires
        forall|i: int, j: int|
            0 <= i && j == i + 1 && j < code.len() && #[trigger] code[i] == '-'
                ==> #[trigger] code[j] != ' ',
    ensures
        ({
            let name = head + seq!['-', ' '] + code;
            let account = asset_type == "Cash Acc"@ || asset_type == "Margin Acc"@;
            &&& account && crate::text::trimmed(code).len() > 0 ==> group_of_normalized(
                asset_type,
                name,
            ) == crate::text::trimmed(code)
            &&& account && crate::text::trimmed(code).len() == 0 ==> group_of_normalized(
                asset_type,
                name,
            ) == name
            &&& !account ==> group_of_normalized(asset_type, name) == name
        }),
        (asset_type == "Cash Acc"@ || asset_type == "Margin Acc"@) ==> group_of_normalized(
            asset_type,
            code,
        ) == code,
{
    lemma_dashless(code);
    lemma_dash_before(head, code);
}

/// What follows a dash and space behind which there is no other.
proof fn lemma_dash_before(head: Seq<char>, code: Seq<char>)
    requires
        dashless(code),
    ensures
        after_last_dash(head + seq!['-', ' '] + code) == Some(code),
    decreases code.len(),
{
    let s = head + seq!['-', ' '] + code;
    if code.len() == 0 {
        assert(code =~= Seq::empty());
    } else {
        let rest = code.drop_last();
        assert forall|i: int, j: int|
            0 <= i && j == i + 1 && j < rest.len() && #[trigger] rest[i]
                == '-' implies #[trigger] rest[j] != ' ' by {
            assert(code[i] == rest[i] && code[j] == rest[j]);
        }
        lemma_dash_before(head, rest);
        assert(s.drop_last() =~= head + seq!['-', ' '] + rest);
        assert(rest.push(code.last()) =~= code);
        assert(s.last() == code.last());
        if code.len() >= 2 {
            assert(s[s.len() - 2] == code[code.len() - 2]);
            assert(code[code.len() - 1] == code.last());
        } else {
            assert(s[s.len() - 2] == ' ');
        }
    }
}

/// Where there is no override the group is that of the name.
pub proof fn law_without_an_override_the_name_decides(asset_type: Seq<char>, name: Seq<char>)
    ensures
        effective_group(asset_type, name, None) == group_of_normalized(
            asset_type,
            crate::text::uppercase(crate::text::spaced(crate::text::words(name))),
        ),
{
}

/// Positions are grouped by the issuer group that they carry, those that the
/// scope covers.
pub proof fn law_positions_are_grouped_by_their_issuer_group(
    positions: Seq<ConPosition>,
    scope: Scope,
    i: int,
)
    requires
        0 <= i < positions.len(),
    ensures
        groups_of(positions).len() == positions.len() && covered(positions, scope).len()
            == positions.len(),
        groups_of(positions)[i]@ == positions[i].group@,
        covered(positions, scope)[i] == scope.covers(positions[i].asset_type@),
{
}

} // verus!
