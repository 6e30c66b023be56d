//! Orders and groupings of rows, as lists of row indices.

use crate::text::same_text;
use vstd::prelude::*;

verus! {

/// Whether row `a` comes before row `b`: by key, and by position where the
/// keys are equal.
pub open spec fn precedes(keys: Seq<int>, a: int, b: int) -> bool {
    keys[a] < keys[b] || (keys[a] == keys[b] && a < b)
}

/// Whether a list of row indices is the stable ascending order of the rows:
/// every row is in it, and each row precedes the rows after it.
pub open spec fn in_order(keys: Seq<int>, order: Seq<usize>) -> bool {
    &&& order.len() == keys.len()
    &&& forall|i: int| 0 <= i < order.len() ==> (#[trigger] order[i]) < keys.len()
    &&& forall|k: int|
        0 <= k < keys.len() ==> #[trigger] order.contains(k as usize)
    &&& forall|i: int, j: int|
        0 <= i < j < order.len() ==> precedes(
            keys,
            #[trigger] order[i] as int,
            #[trigger] order[j] as int,
        )
}

/// The keys of some rows.
pub open spec fn as_ints(keys: Seq<i64>) -> Seq<int> {
    keys.map_values(|k: i64| k as int)
}

/// The stable ascending order of rows.
pub fn stable_order(keys: &Vec<i64>) -> (r: Vec<usize>)
    ensures
        in_order(as_ints(keys@), r@),
{
    let mut order: Vec<usize> = Vec::new();
    for i in 0..keys.len()
        invariant
            in_order(as_ints(keys@.take(i as int)), order@),
    {
        let ghost ks = as_ints(keys@);
        let ghost before = order@;
        let ghost part = as_ints(keys@.take(i as int));
        let key: i64 = keys[i];
        let mut at: usize = order.len();
        while at > 0 && keys[order[at - 1]] > key
            invariant
                i < keys@.len(),
                key == keys@[i as int],
                order@ == before,
                part == as_ints(keys@.take(i as int)),
                in_order(part, before),
                at <= before.len(),
                forall|j: int| at <= j < before.len() ==> keys@[(#[trigger] before[j]) as int] > key,
                forall|j: int|
                    0 <= j < before.len() ==> (#[trigger] before[j]) < i,
            decreases at,
        {
            at = at - 1;
        }
        proof {
            if at > 0 {
                let last = before[at - 1] as int;
                assert forall|j: int| 0 <= j < at implies keys@[(#[trigger] before[j]) as int]
                    <= key by {
                    if j < at - 1 {
                        assert(precedes(part, before[j] as int, last));
                        assert(part[before[j] as int] == keys@[before[j] as int]);
                        assert(part[last] == keys@[last]);
                    }
                }
            }
        }
        order.insert(at, i);
        proof {
            let now = as_ints(keys@.take(i + 1));
            assert(order@ == before.insert(at as int, i));
            assert forall|k: int| 0 <= k < i implies now[k] == part[k] by {}
            assert forall|k: int| 0 <= k < i + 1 implies #[trigger] order@.contains(k as usize) by {
                if k < i {
                    assert(before.contains(k as usize));
                    let p = before.index_of(k as usize);
                    if p < at {
                        assert(order@[p] == k as usize);
                    } else {
                        assert(order@[p + 1] == k as usize);
                    }
                } else {
                    assert(order@[at as int] == i);
                }
            }
            assert forall|a: int, b: int| 0 <= a < b < order@.len() implies precedes(
                now,
                #[trigger] order@[a] as int,
                #[trigger] order@[b] as int,
            ) by {
                let a0 = if a < at {
                    a
                } else {
                    a - 1
                };
                let b0 = if b < at {
                    b
                } else {
                    b - 1
                };
                if a != at && b != at {
                    assert(order@[a] == before[a0] && order@[b] == before[b0]);
                    assert(precedes(part, before[a0] as int, before[b0] as int));
                } else if a == at {
                    assert(order@[b] == before[b0]);
                } else {
                    assert(order@[a] == before[a0]);
                }
            }
        }
    }
    assert(keys@.take(keys@.len() as int) =~= keys@);
    order
}

/// Rows have one stable order only.
pub proof fn law_the_stable_order_is_the_only_one(keys: Seq<int>, a: Seq<usize>, b: Seq<usize>)
    requires
        in_order(keys, a),
        in_order(keys, b),
    ensures
        a == b,
{
    assert forall|n: int| 0 <= n <= a.len() implies a.take(n) == b.take(n) by {
        lemma_same_start(keys, a, b, n);
    }
    assert(a.take(a.len() as int) =~= a);
    assert(b.take(b.len() as int) =~= b);
}

proof fn lemma_same_start(keys: Seq<int>, a: Seq<usize>, b: Seq<usize>, n: int)
    requires
        in_order(keys, a),
        in_order(keys, b),
        0 <= n <= a.len(),
    ensures
        a.take(n) == b.take(n),
    decreases n,
{
    if n > 0 {
        lemma_same_start(keys, a, b, n - 1);
        let i = n - 1;
        assert forall|j: int| 0 <= j < i implies a[j] == b[j] by {
            assert(a.take(i)[j] == b.take(i)[j]);
        }
        let x = a[i];
        let y = b[i];
        if x != y {
            assert(b.contains((x as int) as usize));
            assert(a.contains((y as int) as usize));
            let k = b.index_of(x);
            let m = a.index_of(y);
            assert(b[k] == x && a[m] == y);
            if k < i {
                assert(a[k] == x);
                assert(precedes(keys, a[k] as int, a[i] as int));
            }
            if m < i {
                assert(b[m] == y);
                assert(precedes(keys, b[m] as int, b[i] as int));
            }
            assert(precedes(keys, b[i] as int, b[k] as int));
            assert(precedes(keys, a[i] as int, a[m] as int));
        }
        assert(a.take(n) =~= b.take(n));
    }
}

/// Where the last row stands in the order of the rows: behind all that are not
/// above it, and the order without it is that of the other rows.
pub proof fn lemma_order_without_last(keys: Seq<int>, order: Seq<usize>) -> (p: int)
    requires
        in_order(keys, order),
        0 < keys.len() <= usize::MAX,
    ensures
        0 <= p < order.len(),
        order[p] == keys.len() - 1,
        in_order(keys.drop_last(), order.remove(p)),
        forall|j: int| 0 <= j < p ==> keys[(#[trigger] order[j]) as int] <= keys.last(),
        forall|j: int| p < j < order.len() ==> keys[(#[trigger] order[j]) as int] > keys.last(),
{
    let last = keys.len() - 1;
    assert(order.contains(last as usize));
    let p = order.index_of(last as usize);
    assert(order[p] == last);
    let rest = order.remove(p);
    let fewer = keys.drop_last();
    assert forall|j: int| 0 <= j < p implies keys[(#[trigger] order[j]) as int]
        <= keys.last() by {
        assert(precedes(keys, order[j] as int, order[p] as int));
    }
    assert forall|j: int| p < j < order.len() implies keys[(#[trigger] order[j]) as int]
        > keys.last() by {
        assert(precedes(keys, order[p] as int, order[j] as int));
    }
    assert forall|i: int| 0 <= i < rest.len() implies (#[trigger] rest[i]) < fewer.len() by {
        let i0 = if i < p {
            i
        } else {
            i + 1
        };
        assert(rest[i] == order[i0]);
        if i0 < p {
            assert(precedes(keys, order[i0] as int, order[p] as int));
        } else {
            assert(precedes(keys, order[p] as int, order[i0] as int));
        }
    }
    assert forall|k: int| 0 <= k < fewer.len() implies #[trigger] rest.contains(k as usize) by {
        assert(order.contains(k as usize));
        let m = order.index_of(k as usize);
        if m < p {
            assert(rest[m] == k as usize);
        } else {
            assert(rest[m - 1] == k as usize);
        }
    }
    assert forall|i: int, j: int| 0 <= i < j < rest.len() implies precedes(
        fewer,
        #[trigger] rest[i] as int,
        #[trigger] rest[j] as int,
    ) by {
        let i0 = if i < p {
            i
        } else {
            i + 1
        };
        let j0 = if j < p {
            j
        } else {
            j + 1
        };
        assert(rest[i] == order[i0] && rest[j] == order[j0]);
        assert(precedes(keys, order[i0] as int, order[j0] as int));
    }
    p
}

/// Whether one text comes before another, character by character.
pub open spec fn text_before(a: Seq<char>, b: Seq<char>) -> bool
    decreases a.len(),
{
    if b.len() == 0 {
        false
    } else if a.len() == 0 {
        true
    } else if a[0] == b[0] {
        text_before(a.drop_first(), b.drop_first())
    } else {
        a[0] < b[0]
    }
}

/// Of two different texts one comes before the other.
pub proof fn lemma_texts_are_ordered(a: Seq<char>, b: Seq<char>)
    ensures
        a == b || text_before(a, b) || text_before(b, a),
        !(text_before(a, b) && text_before(b, a)),
        text_before(a, b) ==> a != b,
    decreases a.len(),
{
    if a.len() > 0 && b.len() > 0 {
        lemma_texts_are_ordered(a.drop_first(), b.drop_first());
        if a[0] == b[0] && a.drop_first() == b.drop_first() {
            assert(a =~= seq![a[0]] + a.drop_first());
            assert(b =~= seq![b[0]] + b.drop_first());
        }
    } else if a.len() == 0 && b.len() == 0 {
        assert(a =~= b);
    }
}

/// The order of texts carries over.
pub proof fn lemma_text_order_carries_over(a: Seq<char>, b: Seq<char>, c: Seq<char>)
    requires
        text_before(a, b),
        text_before(b, c),
    ensures
        text_before(a, c),
    decreases a.len(),
{
    if a.len() > 0 && a[0] == b[0] && b[0] == c[0] {
        lemma_text_order_carries_over(a.drop_first(), b.drop_first(), c.drop_first());
    }
}

/// Whether one text comes before another.
pub(crate) fn is_text_before(a: &str, b: &str) -> (r: bool)
    ensures
        r == text_before(a@, b@),
{
    let x = crate::text::chars_of(a);
    let y = crate::text::chars_of(b);
    let mut i: usize = 0;
    assert(a@.skip(0) =~= a@ && b@.skip(0) =~= b@);
    while i < x.len() && i < y.len()
        invariant
            x@ == a@,
            y@ == b@,
            i <= x@.len(),
            i <= y@.len(),
            text_before(a@, b@) == text_before(a@.skip(i as int), b@.skip(i as int)),
        decreases x@.len() - i,
    {
        proof {
            assert(a@.skip(i as int).drop_first() =~= a@.skip(i + 1));
            assert(b@.skip(i as int).drop_first() =~= b@.skip(i + 1));
        }
        if x[i] != y[i] {
            return x[i] < y[i];
        }
        i = i + 1;
    }
    i < y.len()
}

/// Whether a list of indices is, ascending, exactly the wanted rows.
pub open spec fn picks(rows: Seq<usize>, wanted: Seq<bool>) -> bool {
    &&& forall|i: int, j: int|
        0 <= i < j < rows.len() ==> (#[trigger] rows[i]) < (#[trigger] rows[j])
    &&& forall|i: int|
        0 <= i < rows.len() ==> (#[trigger] rows[i]) < wanted.len() && wanted[rows[i] as int]
    &&& forall|k: int| 0 <= k < wanted.len() && #[trigger] wanted[k] ==> rows.contains(k as usize)
}

/// The wanted rows, ascending.
pub fn pick_rows(wanted: &Vec<bool>) -> (r: Vec<usize>)
    ensures
        picks(r@, wanted@),
{
    let mut out: Vec<usize> = Vec::new();
    for i in 0..wanted.len()
        invariant
            picks(out@, wanted@.take(i as int)),
    {
        let ghost before = out@;
        let ghost now = wanted@.take(i + 1);
        if wanted[i] {
            out.push(i);
        }
        proof {
            assert forall|k: int| 0 <= k < now.len() && #[trigger] now[k] implies out@.contains(
                k as usize,
            ) by {
                if k < i {
                    assert(wanted@.take(i as int)[k]);
                    let m = before.index_of(k as usize);
                    assert(out@[m] == k as usize);
                } else {
                    assert(out@[before.len() as int] == k as usize);
                }
            }
            assert forall|a: int| 0 <= a < out@.len() implies (#[trigger] out@[a]) < now.len()
                && now[out@[a] as int] by {
                if a < before.len() {
                    assert(out@[a] == before[a]);
                    assert(wanted@.take(i as int)[before[a] as int]);
                }
            }
        }
    }
    assert(wanted@.take(wanted@.len() as int) =~= wanted@);
    out
}

/// Wanted rows are picked in one way only.
pub proof fn law_rows_are_picked_in_one_way(a: Seq<usize>, b: Seq<usize>, wanted: Seq<bool>)
    requires
        picks(a, wanted),
        picks(b, wanted),
    ensures
        a == b,
{
    lemma_picked_alike(a, b, wanted, a.len() as int);
    lemma_picked_alike(b, a, wanted, b.len() as int);
    assert(a =~= b);
}

proof fn lemma_picked_alike(a: Seq<usize>, b: Seq<usize>, wanted: Seq<bool>, n: int)
    requires
        picks(a, wanted),
        picks(b, wanted),
        0 <= n <= a.len(),
    ensures
        n <= b.len(),
        forall|i: int| 0 <= i < n ==> (#[trigger] a[i]) == b[i],
    decreases n,
{
    if n > 0 {
        lemma_picked_alike(a, b, wanted, n - 1);
        let i = n - 1;
        let x = a[i];
        assert(wanted[x as int]);
        assert(b.contains((x as int) as usize));
        let k = b.index_of(x);
        assert(b[k] == x);
        if k < i {
            assert(a[k] == b[k]);
            assert(a[k] < a[i]);
        }
        if k > i {
            let y = b[i];
            assert(y < x);
            assert(wanted[y as int]);
            assert(a.contains((y as int) as usize));
            let m = a.index_of(y);
            assert(a[m] == y);
            if m < i {
                assert(a[m] == b[m]);
                assert(b[m] < b[i]);
            }
            if m > i {
                assert(a[i] < a[m]);
            }
            assert(false);
        }
    }
}

/// Rows that share a name: the name, and which rows, in ascending order.
#[derive(Debug)]
pub struct Group {
    pub name: String,
    pub members: Vec<usize>,
}

/// Whether a list of indices is, ascending, those of the first `n` rows that
/// are chosen and bear a name.
pub open spec fn lists(
    members: Seq<usize>,
    names: Seq<String>,
    chosen: Seq<bool>,
    n: int,
    name: Seq<char>,
) -> bool {
    &&& forall|i: int, j: int|
        0 <= i < j < members.len() ==> (#[trigger] members[i]) < (#[trigger] members[j])
    &&& forall|i: int|
        0 <= i < members.len() ==> (#[trigger] members[i]) < n && chosen[members[i] as int]
            && names[members[i] as int]@ == name
    &&& forall|k: int|
        0 <= k < n && chosen[k] && (#[trigger] names[k])@ == name ==> members.contains(k as usize)
}

/// Whether groups are the grouping by name of those of the first `n` rows that
/// are chosen: each group lists the rows that bear its name and has at least
/// one, the names come in order and each once, and every chosen row is in a
/// group.
pub open spec fn grouping(
    groups: Seq<Group>,
    names: Seq<String>,
    chosen: Seq<bool>,
    n: int,
) -> bool {
    &&& forall|i: int|
        0 <= i < groups.len() ==> (#[trigger] groups[i]).members@.len() > 0 && lists(
            groups[i].members@,
            names,
            chosen,
            n,
            groups[i].name@,
        )
    &&& forall|i: int, j: int|
        0 <= i < j < groups.len() ==> text_before(
            (#[trigger] groups[i]).name@,
            (#[trigger] groups[j]).name@,
        )
    &&& forall|k: int| 0 <= k < n && #[trigger] chosen[k] ==> has_group(groups, names[k]@)
}

/// Whether there is a group of a name.
pub open spec fn has_group(groups: Seq<Group>, name: Seq<char>) -> bool {
    exists|g: int| 0 <= g < groups.len() && (#[trigger] groups[g]).name@ == name
}

/// Groups the chosen rows by name.
pub fn group_rows(names: &Vec<String>, chosen: &Vec<bool>) -> (r: Vec<Group>)
    requires
        chosen@.len() == names@.len(),
    ensures
        grouping(r@, names@, chosen@, names@.len() as int),
{
    let mut groups: Vec<Group> = Vec::new();
    for i in 0..names.len()
        invariant
            chosen@.len() == names@.len(),
            grouping(groups@, names@, chosen@, i as int),
    {
        let ghost before = groups@;
        if chosen[i] {
            let name = &names[i];
            let mut at: usize = 0;
            while at < groups.len() && is_text_before(groups[at].name.as_str(), name.as_str())
                invariant
                    groups@ == before,
                    at <= before.len(),
                    forall|j: int|
                        0 <= j < at ==> text_before((#[trigger] before[j]).name@, name@),
                decreases before.len() - at,
            {
                at = at + 1;
            }
            if at < groups.len() && same_text(groups[at].name.as_str(), name.as_str()) {
                let mut g = groups.remove(at);
                let ghost old_members = g.members@;
                g.members.push(i);
                proof {
                    lemma_list_grows(old_members, names@, chosen@, i as int, name@);
                }
                groups.insert(at, g);
                proof {
                    assert(groups@ =~= before.update(at as int, g));
                    lemma_joined_group(before, groups@, names@, chosen@, i as int, at as int);
                }
            } else {
                let mut members: Vec<usize> = Vec::new();
                members.push(i);
                let g = Group { name: name.clone(), members };
                groups.insert(at, g);
                proof {
                    assert(groups@ =~= before.insert(at as int, g));
                    assert(g.members@ =~= seq![i]);
                    lemma_new_group(before, groups@, names@, chosen@, i as int, at as int);
                }
            }
        } else {
            proof {
                lemma_row_passed_over(groups@, names@, chosen@, i as int);
            }
        }
    }
    groups
}

/// A row that is not chosen, or bears another name, leaves a list as it is.
proof fn lemma_list_stays(
    members: Seq<usize>,
    names: Seq<String>,
    chosen: Seq<bool>,
    n: int,
    name: Seq<char>,
)
    requires
        lists(members, names, chosen, n, name),
        !chosen[n] || names[n]@ != name,
    ensures
        lists(members, names, chosen, n + 1, name),
{
}

/// A chosen row of the same name is listed last.
proof fn lemma_list_grows(
    members: Seq<usize>,
    names: Seq<String>,
    chosen: Seq<bool>,
    n: int,
    name: Seq<char>,
)
    requires
        lists(members, names, chosen, n, name),
        0 <= n < usize::MAX,
        chosen[n],
        names[n]@ == name,
    ensures
        lists(members.push(n as usize), names, chosen, n + 1, name),
{
    let more = members.push(n as usize);
    assert forall|k: int|
        0 <= k < n + 1 && chosen[k] && (#[trigger] names[k])@ == name implies more.contains(
        k as usize,
    ) by {
        if k == n {
            assert(more[members.len() as int] == n as usize);
        } else {
            assert(more[members.index_of(k as usize)] == k as usize);
        }
    }
}

/// A row that is not chosen leaves the grouping as it is.
proof fn lemma_row_passed_over(groups: Seq<Group>, names: Seq<String>, chosen: Seq<bool>, n: int)
    requires
        grouping(groups, names, chosen, n),
        !chosen[n],
    ensures
        grouping(groups, names, chosen, n + 1),
{
}

/// A chosen row joins the group of its name.
proof fn lemma_joined_group(
    before: Seq<Group>,
    after: Seq<Group>,
    names: Seq<String>,
    chosen: Seq<bool>,
    n: int,
    at: int,
)
    requires
        grouping(before, names, chosen, n),
        0 <= at < before.len(),
        after.len() == before.len(),
        forall|j: int| 0 <= j < before.len() && j != at ==> (#[trigger] after[j]) == before[j],
        after[at].name == before[at].name,
        after[at].members@.len() > 0,
        chosen[n],
        names[n]@ == before[at].name@,
        lists(after[at].members@, names, chosen, n + 1, after[at].name@),
    ensures
        grouping(after, names, chosen, n + 1),
{
    assert forall|j: int| 0 <= j < after.len() implies (#[trigger] after[j]).members@.len() > 0
        && lists(after[j].members@, names, chosen, n + 1, after[j].name@) by {
        if j != at {
            lemma_texts_are_ordered(before[j].name@, before[at].name@);
            assert(before[j].name@ != before[at].name@) by {
                if j < at {
                    assert(text_before(before[j].name@, before[at].name@));
                } else {
                    assert(text_before(before[at].name@, before[j].name@));
                    lemma_texts_are_ordered(before[at].name@, before[j].name@);
                }
            }
            lemma_list_stays(before[j].members@, names, chosen, n, before[j].name@);
        }
    }
    assert forall|i: int, j: int| 0 <= i < j < after.len() implies text_before(
        (#[trigger] after[i]).name@,
        (#[trigger] after[j]).name@,
    ) by {
        assert(text_before(before[i].name@, before[j].name@));
    }
    assert forall|k: int| 0 <= k < n + 1 && #[trigger] chosen[k] implies has_group(
        after,
        names[k]@,
    ) by {
        if k == n {
            assert(after[at].name@ == names[k]@);
        } else {
            let g = choose|g: int|
                0 <= g < before.len() && (#[trigger] before[g]).name@ == names[k]@;
            assert(after[g].name@ == names[k]@);
        }
    }
}

/// A chosen row whose name has no group yet starts one.
proof fn lemma_new_group(
    before: Seq<Group>,
    after: Seq<Group>,
    names: Seq<String>,
    chosen: Seq<bool>,
    n: int,
    at: int,
)
    requires
        grouping(before, names, chosen, n),
        0 <= at <= before.len(),
        0 <= n < usize::MAX,
        after == before.insert(at, after[at]),
        after[at].name@ == names[n]@,
        after[at].members@ == seq![n as usize],
        chosen[n],
        forall|j: int| 0 <= j < at ==> text_before((#[trigger] before[j]).name@, names[n]@),
        at < before.len() ==> !text_before(before[at].name@, names[n]@) && before[at].name@
            != names[n]@,
    ensures
        grouping(after, names, chosen, n + 1),
{
    let name = names[n]@;
    assert forall|j: int| at <= j < before.len() implies text_before(
        name,
        (#[trigger] before[j]).name@,
    ) by {
        lemma_texts_are_ordered(before[at].name@, name);
        if j > at {
            assert(text_before(before[at].name@, before[j].name@));
            lemma_text_order_carries_over(name, before[at].name@, before[j].name@);
        }
    }
    assert forall|j: int| 0 <= j < before.len() implies (#[trigger] before[j]).name@ != name by {
        lemma_texts_are_ordered(before[j].name@, name);
        lemma_texts_are_ordered(name, before[j].name@);
    }
    assert forall|j: int| 0 <= j < after.len() implies (#[trigger] after[j]).members@.len() > 0
        && lists(after[j].members@, names, chosen, n + 1, after[j].name@) by {
        if j != at {
            let j0 = if j < at {
                j
            } else {
                j - 1
            };
            assert(after[j] == before[j0]);
            lemma_list_stays(before[j0].members@, names, chosen, n, before[j0].name@);
        } else {
            assert(after[j].members@[0] == n as usize);
            assert forall|k: int|
                0 <= k < n + 1 && chosen[k] && (#[trigger] names[k])@ == name implies after[j].members@.contains(
            k as usize) by {
                if k < n {
                    let g = choose|g: int|
                        0 <= g < before.len() && (#[trigger] before[g]).name@ == names[k]@;
                    assert(before[g].name@ != name);
                }
            }
        }
    }
    assert forall|i: int, j: int| 0 <= i < j < after.len() implies text_before(
        (#[trigger] after[i]).name@,
        (#[trigger] after[j]).name@,
    ) by {
        let i0 = if i < at {
            i
        } else {
            i - 1
        };
        let j0 = if j < at {
            j
        } else {
            j - 1
        };
        if i == at {
            assert(after[j] == before[j0]);
        } else if j == at {
            assert(after[i] == before[i0]);
        } else {
            assert(after[i] == before[i0] && after[j] == before[j0]);
            assert(text_before(before[i0].name@, before[j0].name@));
        }
    }
    assert forall|k: int| 0 <= k < n + 1 && #[trigger] chosen[k] implies has_group(
        after,
        names[k]@,
    ) by {
        if k == n {
            assert(after[at].name@ == names[k]@);
        } else {
            let g = choose|g: int|
                0 <= g < before.len() && (#[trigger] before[g]).name@ == names[k]@;
            if g < at {
                assert(after[g] == before[g]);
            } else {
                assert(after[g + 1] == before[g]);
            }
        }
    }
}

/// Every chosen row is in one group and counts there once.
pub proof fn law_each_chosen_row_is_in_one_group(
    groups: Seq<Group>,
    names: Seq<String>,
    chosen: Seq<bool>,
    row: usize,
)
    requires
        grouping(groups, names, chosen, names.len() as int),
        row < names.len(),
    ensures
        chosen[row as int] <==> exists|g: int|
            0 <= g < groups.len() && (#[trigger] groups[g]).members@.contains(row),
        forall|g: int, h: int|
            0 <= g < groups.len() && 0 <= h < groups.len() && (
            #[trigger] groups[g]).members@.contains(row) && (
            #[trigger] groups[h]).members@.contains(row) ==> g == h,
        forall|g: int|
            0 <= g < groups.len() ==> (#[trigger] groups[g]).members@.no_duplicates(),
{
    if chosen[row as int] {
        let g = choose|g: int|
            0 <= g < groups.len() && (#[trigger] groups[g]).name@ == names[row as int]@;
        assert(groups[g].members@.contains((row as int) as usize));
    }
    assert forall|g: int, h: int|
        0 <= g < groups.len() && 0 <= h < groups.len() && (#[trigger] groups[g]).members@.contains(
            row,
        ) && (#[trigger] groups[h]).members@.contains(row) implies g == h by {
        let a = groups[g].members@.index_of(row);
        let b = groups[h].members@.index_of(row);
        assert(groups[g].members@[a] == row && groups[h].members@[b] == row);
        assert(groups[g].name@ == groups[h].name@);
        if g < h {
            lemma_texts_are_ordered(groups[g].name@, groups[h].name@);
        } else if h < g {
            lemma_texts_are_ordered(groups[h].name@, groups[g].name@);
        }
    }
}

/// A stable order puts a lower key first, and of equal keys the row that came
/// first; every row has its place in it.
pub proof fn law_lower_keys_come_first(keys: Seq<int>, order: Seq<usize>, i: int, j: int)
    requires
        in_order(keys, order),
        0 <= i < j < keys.len() <= usize::MAX,
    ensures
        order.len() == keys.len(),
        order[i] < keys.len() && order[j] < keys.len(),
        keys[order[i] as int] <= keys[order[j] as int],
        keys[order[i] as int] == keys[order[j] as int] ==> order[i] < order[j],
        forall|k: int| 0 <= k < keys.len() ==> #[trigger] order.contains(k as usize),
{
    assert(precedes(keys, order[i] as int, order[j] as int));
}

/// What is picked are the wanted rows and no others, from the first to the last.
pub proof fn law_wanted_rows_are_picked(rows: Seq<usize>, wanted: Seq<bool>, k: usize)
    requires
        picks(rows, wanted),
        wanted.len() <= usize::MAX,
    ensures
        rows.contains(k) <==> k < wanted.len() && wanted[k as int],
        forall|i: int, j: int|
            0 <= i < j < rows.len() ==> (#[trigger] rows[i]) < (#[trigger] rows[j]),
{
    if k < wanted.len() && wanted[k as int] {
        assert(rows.contains((k as int) as usize));
    }
}

/// Texts are ordered by the first character in which they differ, and a text
/// comes before any longer one that begins with it.
pub proof fn law_texts_are_ordered_by_their_first_difference(
    start: Seq<char>,
    a: Seq<char>,
    b: Seq<char>,
)
    requires
        b.len() > 0,
        a.len() > 0 ==> a[0] != b[0],
    ensures
        text_before(start + a, start + b) <==> a.len() == 0 || a[0] < b[0],
    decreases start.len(),
{
    if start.len() > 0 {
        law_texts_are_ordered_by_their_first_difference(start.drop_first(), a, b);
        assert((start + a).drop_first() =~= start.drop_first() + a);
        assert((start + b).drop_first() =~= start.drop_first() + b);
        assert((start + a)[0] == start[0] && (start + b)[0] == start[0]);
    } else {
        assert(start + a =~= a && start + b =~= b);
    }
}

/// Groups hold the chosen rows under their names: a group lists a row exactly
/// when it is chosen and bears the group's name, in ascending order, and the
/// groups come in the order of their names.
pub proof fn law_groups_list_the_rows_of_their_name(
    groups: Seq<Group>,
    names: Seq<String>,
    chosen: Seq<bool>,
    g: int,
    row: usize,
)
    requires
        grouping(groups, names, chosen, names.len() as int),
        0 <= g < groups.len(),
        names.len() == chosen.len() <= usize::MAX,
    ensures
        groups[g].members@.len() > 0,
        groups[g].members@.contains(row) <==> row < names.len() && chosen[row as int]
            && names[row as int]@ == groups[g].name@,
        forall|i: int, j: int|
            0 <= i < j < groups[g].members@.len() ==> (#[trigger] groups[g].members@[i]) < (
            #[trigger] groups[g].members@[j]),
        g + 1 < groups.len() ==> text_before(groups[g].name@, groups[g + 1].name@),
        row < names.len() && chosen[row as int] ==> exists|h: int|
            0 <= h < groups.len() && (#[trigger] groups[h]).name@ == names[row as int]@,
{
    assert(lists(groups[g].members@, names, chosen, names.len() as int, groups[g].name@));
    if row < names.len() && chosen[row as int] {
        assert(has_group(groups, names[row as int]@));
        if names[row as int]@ == groups[g].name@ {
            assert(groups[g].members@.contains((row as int) as usize));
        }
    }
    if g + 1 < groups.len() {
        assert(text_before(groups[g].name@, groups[g + 1].name@));
    }
}

} // verus!
