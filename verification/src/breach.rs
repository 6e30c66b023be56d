//! Breach episodes: the pure logic that turns one run's breaching findings
//! into transitions against the episodes already open.
//!
//! An episode, not a row per run: a breach that persists for six weeks is one
//! thing to remediate, not forty-two. Nothing here touches a database or
//! knows about authorization - it takes what is open, takes what this run
//! found, and says what changed.

use crate::number::Number;
use crate::text::same_text;
use vstd::prelude::*;
use vstd::string::*;

verus! {

/// One breaching row from a run: the check, the thing that breached it, and
/// the observed value where the check has one.
#[derive(Debug, Clone, PartialEq)]
pub struct Finding {
    pub check_key: String,
    pub subject: String,
    pub value: Option<Number>,
}

/// An episode already open on the data.
#[derive(Debug, Clone, PartialEq)]
pub struct LiveEpisode {
    pub id: i64,
    pub check_key: String,
    pub subject: String,
    pub peak_value: Option<Number>,
}

/// What changed.
#[allow(inconsistent_fields)]
#[derive(Debug, Clone, PartialEq)]
pub enum Transition {
    Open { check_key: String, subject: String, value: Option<Number> },
    RaisePeak { id: i64, value: Number },
    Close { id: i64 },
}

/// What an episode is kept under: the check and the subject together.
pub open spec fn joined(check_key: Seq<char>, subject: Seq<char>) -> Seq<char> {
    check_key + seq!['\u{1f}'] + subject
}

impl Finding {
    pub open spec fn key(self) -> Seq<char> {
        joined(self.check_key@, self.subject@)
    }
}

impl LiveEpisode {
    pub open spec fn key(self) -> Seq<char> {
        joined(self.check_key@, self.subject@)
    }
}

/// The open episode kept under a key. Should several be, the last one counts.
pub open spec fn open_under(live: Seq<LiveEpisode>, key: Seq<char>) -> Option<LiveEpisode>
    decreases live.len(),
{
    if live.len() == 0 {
        None
    } else if live.last().key() == key {
        Some(live.last())
    } else {
        open_under(live.drop_last(), key)
    }
}

/// Whether a reading is worse than anything an episode has seen.
pub open spec fn worse(value: Number, peak: Option<Number>) -> bool {
    match peak {
        None => true,
        Some(p) => p.below(value),
    }
}

/// What one finding changes. A worse reading than the episode has ever seen is
/// worth recording; an equal or better one inside an open episode is not news.
pub open spec fn answer(live: Seq<LiveEpisode>, f: Finding) -> Seq<Transition> {
    match open_under(live, f.key()) {
        None => seq![
            Transition::Open { check_key: f.check_key, subject: f.subject, value: f.value },
        ],
        Some(e) => match f.value {
            Some(v) => if worse(v, e.peak_value) {
                seq![Transition::RaisePeak { id: e.id, value: v }]
            } else {
                Seq::empty()
            },
            None => Seq::empty(),
        },
    }
}

/// What the findings change, in their order.
pub open spec fn answers(live: Seq<LiveEpisode>, findings: Seq<Finding>) -> Seq<Transition>
    decreases findings.len(),
{
    if findings.len() == 0 {
        Seq::empty()
    } else {
        answers(live, findings.drop_last()) + answer(live, findings.last())
    }
}

/// Whether a key is among what was found.
pub open spec fn found(findings: Seq<Finding>, key: Seq<char>) -> bool {
    exists|i: int| 0 <= i < findings.len() && (#[trigger] findings[i]).key() == key
}

/// The open episodes that were not found again, in their order.
pub open spec fn closes(live: Seq<LiveEpisode>, findings: Seq<Finding>) -> Seq<Transition>
    decreases live.len(),
{
    if live.len() == 0 {
        Seq::empty()
    } else {
        let earlier = closes(live.drop_last(), findings);
        if found(findings, live.last().key()) {
            earlier
        } else {
            earlier.push(Transition::Close { id: live.last().id })
        }
    }
}

/// What an episode is kept under.
pub fn episode_key(check_key: &String, subject: &String) -> (r: String)
    ensures
        r@ == joined(check_key@, subject@),
{
    let mut r = check_key.clone();
    r.push('\u{1f}');
    r.append(subject.as_str());
    assert(r@ =~= joined(check_key@, subject@));
    r
}

/// Where the open episode kept under a key stands.
fn find_open(keys: &Vec<String>, live: &[LiveEpisode], key: &String) -> (r: Option<usize>)
    requires
        keys@.len() == live@.len(),
        forall|i: int| 0 <= i < live@.len() ==> (#[trigger] keys@[i])@ == live@[i].key(),
    ensures
        match r {
            None => open_under(live@, key@) is None,
            Some(i) => i < live@.len() && open_under(live@, key@) == Some(live@[i as int]),
        },
{
    let mut i: usize = keys.len();
    assert(live@.take(i as int) =~= live@);
    while i > 0
        invariant
            i <= keys@.len() == live@.len(),
            forall|j: int| 0 <= j < live@.len() ==> (#[trigger] keys@[j])@ == live@[j].key(),
            open_under(live@, key@) == open_under(live@.take(i as int), key@),
        decreases i,
    {
        i = i - 1;
        proof {
            let part = live@.take(i + 1);
            assert(part.drop_last() =~= live@.take(i as int));
            assert(part.last() == live@[i as int]);
        }
        if same_text(keys[i].as_str(), key.as_str()) {
            return Some(i);
        }
    }
    None
}

/// Whether a key is among some.
fn holds_key(keys: &Vec<String>, key: &String) -> (r: bool)
    ensures
        r == exists|i: int| 0 <= i < keys@.len() && (#[trigger] keys@[i])@ == key@,
{
    for i in 0..keys.len()
        invariant
            forall|j: int| 0 <= j < i ==> (#[trigger] keys@[j])@ != key@,
    {
        if same_text(keys[i].as_str(), key.as_str()) {
            return true;
        }
    }
    false
}

/// What changed between the episodes currently open and what this run found.
///
/// Ordering is deterministic: findings are processed in `findings` order
/// (opens and peaks interleaved as they occur), and all closes follow in
/// `live` order - so someone reading the event timeline sees the same order
/// every time.
pub fn transitions(live: &[LiveEpisode], findings: &[Finding]) -> (r: Vec<Transition>)
    ensures
        r@ == answers(live@, findings@) + closes(live@, findings@),
{
    let mut live_keys: Vec<String> = Vec::new();
    for i in 0..live.len()
        invariant
            live_keys@.len() == i,
            forall|j: int| 0 <= j < i ==> (#[trigger] live_keys@[j])@ == live@[j].key(),
    {
        live_keys.push(episode_key(&live[i].check_key, &live[i].subject));
    }
    let mut out: Vec<Transition> = Vec::new();
    let mut found_keys: Vec<String> = Vec::new();
    for i in 0..findings.len()
        invariant
            live_keys@.len() == live@.len(),
            forall|j: int| 0 <= j < live@.len() ==> (#[trigger] live_keys@[j])@ == live@[j].key(),
            found_keys@.len() == i,
            forall|j: int| 0 <= j < i ==> (#[trigger] found_keys@[j])@ == findings@[j].key(),
            out@ == answers(live@, findings@.take(i as int)),
    {
        let f = &findings[i];
        let key = episode_key(&f.check_key, &f.subject);
        match find_open(&live_keys, live, &key) {
            None => {
                out.push(
                    Transition::Open {
                        check_key: f.check_key.clone(),
                        subject: f.subject.clone(),
                        value: f.value,
                    },
                );
            },
            Some(at) => {
                if let Some(v) = f.value {
                    let e = &live[at];
                    let news: bool = match e.peak_value {
                        None => true,
                        Some(p) => p.is_below(&v),
                    };
                    if news {
                        out.push(Transition::RaisePeak { id: e.id, value: v });
                    }
                }
            },
        }
        found_keys.push(key);
        proof {
            let next = findings@.take(i + 1);
            assert(next.drop_last() =~= findings@.take(i as int));
            assert(next.last() == findings@[i as int]);
            assert(out@ =~= answers(live@, next));
        }
    }
    let ghost news = out@;
    assert(findings@.take(findings@.len() as int) =~= findings@);
    for i in 0..live.len()
        invariant
            live_keys@.len() == live@.len(),
            forall|j: int| 0 <= j < live@.len() ==> (#[trigger] live_keys@[j])@ == live@[j].key(),
            found_keys@.len() == findings@.len(),
            forall|j: int|
                0 <= j < findings@.len() ==> (#[trigger] found_keys@[j])@ == findings@[j].key(),
            news == answers(live@, findings@),
            out@ == news + closes(live@.take(i as int), findings@),
    {
        let again = holds_key(&found_keys, &live_keys[i]);
        proof {
            let key = live@[i as int].key();
            if again {
                let j = choose|j: int|
                    0 <= j < found_keys@.len() && (#[trigger] found_keys@[j])@ == key;
                assert(findings@[j].key() == key);
            } else {
                assert forall|j: int|
                    0 <= j < findings@.len() implies (#[trigger] findings@[j]).key() != key by {
                    assert(found_keys@[j]@ != key);
                }
            }
            assert(again == found(findings@, key));
        }
        if !again {
            out.push(Transition::Close { id: live[i].id });
        }
        proof {
            let next = live@.take(i + 1);
            assert(next.drop_last() =~= live@.take(i as int));
            assert(next.last() == live@[i as int]);
            assert(out@ =~= news + closes(next, findings@));
        }
    }
    assert(live@.take(live@.len() as int) =~= live@);
    out
}

/// Two findings share a key only if they share both the check and the subject,
/// as long as no check is named with the separator.
pub proof fn law_a_key_is_a_check_and_a_subject(
    check_a: Seq<char>,
    subject_a: Seq<char>,
    check_b: Seq<char>,
    subject_b: Seq<char>,
)
    requires
        !check_a.contains('\u{1f}'),
        !check_b.contains('\u{1f}'),
    ensures
        joined(check_a, subject_a) == joined(check_b, subject_b) <==> check_a == check_b
            && subject_a == subject_b,
{
    let a = joined(check_a, subject_a);
    let b = joined(check_b, subject_b);
    if a == b {
        assert(a[check_a.len() as int] == '\u{1f}');
        assert(b[check_b.len() as int] == '\u{1f}');
        if check_a.len() < check_b.len() {
            assert(check_b[check_a.len() as int] == b[check_a.len() as int]);
            assert(check_b.contains('\u{1f}'));
        }
        if check_b.len() < check_a.len() {
            assert(check_a[check_b.len() as int] == a[check_b.len() as int]);
            assert(check_a.contains('\u{1f}'));
        }
        assert forall|i: int| 0 <= i < check_a.len() implies check_a[i] == check_b[i] by {
            assert(a[i] == b[i]);
        }
        assert(check_a =~= check_b);
        assert(a.len() == b.len());
        assert forall|i: int| 0 <= i < subject_a.len() implies subject_a[i] == subject_b[i] by {
            assert(a[check_a.len() + 1 + i] == subject_a[i]);
            assert(b[check_b.len() + 1 + i] == subject_b[i]);
        }
        assert(subject_a =~= subject_b);
    }
}

/// The open episode under a key is one of those open, kept under that key; and
/// there is one whenever any is.
proof fn lemma_open_under(live: Seq<LiveEpisode>, key: Seq<char>)
    ensures
        match open_under(live, key) {
            None => forall|i: int| 0 <= i < live.len() ==> (#[trigger] live[i]).key() != key,
            Some(e) => e.key() == key && live.contains(e),
        },
    decreases live.len(),
{
    if live.len() > 0 {
        let rest = live.drop_last();
        lemma_open_under(rest, key);
        if live.last().key() == key {
            assert(live[live.len() - 1] == live.last());
        } else {
            match open_under(rest, key) {
                None => {
                    assert forall|i: int| 0 <= i < live.len() implies (#[trigger] live[i]).key()
                        != key by {
                        if i < rest.len() {
                            assert(rest[i].key() != key);
                        }
                    }
                },
                Some(e) => {
                    let k = rest.index_of(e);
                    assert(live[k] == e);
                },
            }
        }
    }
}

/// A run that finds nothing closes every episode, in order.
pub proof fn law_a_clean_run_closes_everything(live: Seq<LiveEpisode>)
    ensures
        answers(live, Seq::empty()) + closes(live, Seq::empty()) == Seq::new(
            live.len(),
            |i: int| Transition::Close { id: live[i].id },
        ),
    decreases live.len(),
{
    if live.len() > 0 {
        law_a_clean_run_closes_everything(live.drop_last());
        assert(!found(Seq::empty(), live.last().key()));
    }
    assert(answers(live, Seq::empty()) + closes(live, Seq::empty()) =~= Seq::new(
        live.len(),
        |i: int| Transition::Close { id: live[i].id },
    ));
}

/// On an empty register every finding opens an episode, in order.
pub proof fn law_a_first_run_opens_everything(findings: Seq<Finding>)
    ensures
        answers(Seq::empty(), findings) + closes(Seq::empty(), findings) == Seq::new(
            findings.len(),
            |i: int|
                Transition::Open {
                    check_key: findings[i].check_key,
                    subject: findings[i].subject,
                    value: findings[i].value,
                },
        ),
    decreases findings.len(),
{
    if findings.len() > 0 {
        law_a_first_run_opens_everything(findings.drop_last());
    }
    assert(answers(Seq::empty(), findings) + closes(Seq::empty(), findings) =~= Seq::new(
        findings.len(),
        |i: int|
            Transition::Open {
                check_key: findings[i].check_key,
                subject: findings[i].subject,
                value: findings[i].value,
            },
    ));
}

/// Whether the register already says all there is to say of some findings:
/// each is an open episode that has seen no better than it, and every open
/// episode was found.
pub open spec fn settled(live: Seq<LiveEpisode>, findings: Seq<Finding>) -> bool {
    &&& forall|i: int|
        0 <= i < findings.len() ==> answer(live, #[trigger] findings[i]) == Seq::<
            Transition,
        >::empty()
    &&& forall|i: int| 0 <= i < live.len() ==> found(findings, (#[trigger] live[i]).key())
}

proof fn lemma_no_answers(live: Seq<LiveEpisode>, findings: Seq<Finding>)
    ensures
        answers(live, findings).len() == 0 <==> (forall|i: int|
            0 <= i < findings.len() ==> answer(live, #[trigger] findings[i]) == Seq::<
                Transition,
            >::empty()),
    decreases findings.len(),
{
    if findings.len() > 0 {
        let rest = findings.drop_last();
        lemma_no_answers(live, rest);
        assert(findings[findings.len() - 1] == findings.last());
        if answers(live, findings).len() == 0 {
            assert forall|i: int| 0 <= i < findings.len() implies answer(
                live,
                #[trigger] findings[i],
            ) == Seq::<Transition>::empty() by {
                if i < rest.len() {
                    assert(answer(live, rest[i]) == Seq::<Transition>::empty());
                } else {
                    assert(answer(live, findings.last()) =~= Seq::<Transition>::empty());
                }
            }
        }
        if forall|i: int|
            0 <= i < findings.len() ==> answer(live, #[trigger] findings[i]) == Seq::<
                Transition,
            >::empty() {
            assert forall|i: int| 0 <= i < rest.len() implies answer(live, #[trigger] rest[i])
                == Seq::<Transition>::empty() by {
                assert(answer(live, findings[i]) == Seq::<Transition>::empty());
            }
        }
    }
}

proof fn lemma_no_closes(live: Seq<LiveEpisode>, findings: Seq<Finding>)
    ensures
        closes(live, findings).len() == 0 <==> (forall|i: int|
            0 <= i < live.len() ==> found(findings, (#[trigger] live[i]).key())),
    decreases live.len(),
{
    if live.len() > 0 {
        let rest = live.drop_last();
        lemma_no_closes(rest, findings);
        assert(live[live.len() - 1] == live.last());
        assert forall|i: int| 0 <= i < rest.len() implies rest[i] == live[i] by {}
        if closes(live, findings).len() == 0 {
            assert forall|i: int| 0 <= i < live.len() implies found(
                findings,
                (#[trigger] live[i]).key(),
            ) by {
                if i < rest.len() {
                    assert(found(findings, rest[i].key()));
                }
            }
        }
        if forall|i: int| 0 <= i < live.len() ==> found(findings, (#[trigger] live[i]).key()) {
            assert forall|i: int| 0 <= i < rest.len() implies found(
                findings,
                (#[trigger] rest[i]).key(),
            ) by {
                assert(found(findings, live[i].key()));
            }
        }
    }
}

/// A run records nothing exactly when the register is settled on its findings.
pub proof fn law_nothing_changes_when_settled(live: Seq<LiveEpisode>, findings: Seq<Finding>)
    ensures
        (answers(live, findings) + closes(live, findings)).len() == 0 <==> settled(live, findings),
{
    lemma_no_answers(live, findings);
    lemma_no_closes(live, findings);
}

/// Whether one register follows from another by carrying out transitions:
/// what was opened stands in it with the value it was opened on, what was
/// raised stands there with its new peak, what was closed is gone, and
/// everything else is as it was.
pub open spec fn carried_out(
    before: Seq<LiveEpisode>,
    changes: Seq<Transition>,
    after: Seq<LiveEpisode>,
) -> bool {
    &&& forall|j: int|
        0 <= j < after.len() ==> stands_to_reason(before, changes, #[trigger] after[j])
    &&& forall|i: int|
        0 <= i < before.len() && !changes.contains(Transition::Close { id: before[i].id })
            ==> exists|j: int|
            0 <= j < after.len() && (#[trigger] after[j]).key() == (#[trigger] before[i]).key()
    &&& forall|k: int|
        0 <= k < changes.len() ==> ((#[trigger] changes[k]) matches Transition::Open {
            check_key,
            subject,
            value,
        } ==> exists|j: int|
            0 <= j < after.len() && (#[trigger] after[j]).key() == joined(check_key@, subject@))
}

/// Whether some transitions raise an episode's peak.
pub open spec fn raised(changes: Seq<Transition>, id: i64) -> bool {
    exists|v: Number| #[trigger] changes.contains(Transition::RaisePeak { id, value: v })
}

/// Whether an episode is what became of an earlier one.
pub open spec fn kept_from(
    earlier: LiveEpisode,
    changes: Seq<Transition>,
    e: LiveEpisode,
) -> bool {
    &&& earlier.id == e.id
    &&& earlier.key() == e.key()
    &&& !changes.contains(Transition::Close { id: e.id })
    &&& if raised(changes, e.id) {
        exists|v: Number| #[trigger]
            changes.contains(Transition::RaisePeak { id: e.id, value: v }) && e.peak_value == Some(
                v,
            )
    } else {
        e.peak_value == earlier.peak_value
    }
}

/// Whether an episode is what became of one that was open before.
pub open spec fn kept(
    before: Seq<LiveEpisode>,
    changes: Seq<Transition>,
    e: LiveEpisode,
) -> bool {
    exists|i: int| 0 <= i < before.len() && kept_from(#[trigger] before[i], changes, e)
}

/// Whether an episode has its place in a register that some transitions led
/// to: it was opened, or it was kept.
pub open spec fn stands_to_reason(
    before: Seq<LiveEpisode>,
    changes: Seq<Transition>,
    e: LiveEpisode,
) -> bool {
    ||| exists|k: int|
        0 <= k < changes.len() && ((#[trigger] changes[k]) matches Transition::Open {
            check_key,
            subject,
            value,
        } && e.key() == joined(check_key@, subject@) && e.peak_value == value)
    ||| kept(before, changes, e)
}

/// Every transition comes from one finding, or is the close of an episode that
/// was not found.
proof fn lemma_where_answers_come_from(live: Seq<LiveEpisode>, findings: Seq<Finding>, t: Transition)
    ensures
        answers(live, findings).contains(t) <==> exists|i: int|
            0 <= i < findings.len() && #[trigger] answer(live, findings[i]).contains(t),
    decreases findings.len(),
{
    if findings.len() > 0 {
        let rest = findings.drop_last();
        lemma_where_answers_come_from(live, rest, t);
        let head = answers(live, rest);
        let tail = answer(live, findings.last());
        let all = answers(live, findings);
        assert(all == head + tail);
        if all.contains(t) {
            let k = all.index_of(t);
            if k < head.len() {
                assert(head[k] == t);
                let i = choose|i: int|
                    0 <= i < rest.len() && #[trigger] answer(live, rest[i]).contains(t);
                assert(findings[i] == rest[i]);
                assert(answer(live, findings[i]).contains(t));
            } else {
                assert(tail[k - head.len()] == t);
                assert(answer(live, findings[findings.len() - 1]).contains(t));
            }
        }
        if exists|i: int|
            0 <= i < findings.len() && #[trigger] answer(live, findings[i]).contains(t) {
            let i = choose|i: int|
                0 <= i < findings.len() && #[trigger] answer(live, findings[i]).contains(t);
            if i < rest.len() {
                assert(answer(live, rest[i]).contains(t));
                let k = head.index_of(t);
                assert(all[k] == t);
            } else {
                let k = tail.index_of(t);
                assert(all[head.len() + k] == t);
            }
        }
    }
}

proof fn lemma_where_closes_come_from(live: Seq<LiveEpisode>, findings: Seq<Finding>, t: Transition)
    ensures
        closes(live, findings).contains(t) <==> exists|i: int|
            0 <= i < live.len() && !found(findings, (#[trigger] live[i]).key()) && t
                == (Transition::Close { id: live[i].id }),
    decreases live.len(),
{
    if live.len() > 0 {
        let rest = live.drop_last();
        lemma_where_closes_come_from(rest, findings, t);
        let head = closes(rest, findings);
        let all = closes(live, findings);
        let last = Transition::Close { id: live.last().id };
        if all.contains(t) {
            let k = all.index_of(t);
            if k < head.len() {
                assert(head[k] == t);
                let i = choose|i: int|
                    0 <= i < rest.len() && !found(findings, (#[trigger] rest[i]).key()) && t
                        == (Transition::Close { id: rest[i].id });
                assert(live[i] == rest[i]);
            } else {
                assert(live[live.len() - 1] == live.last());
            }
        }
        if exists|i: int|
            0 <= i < live.len() && !found(findings, (#[trigger] live[i]).key()) && t
                == (Transition::Close { id: live[i].id }) {
            let i = choose|i: int|
                0 <= i < live.len() && !found(findings, (#[trigger] live[i]).key()) && t
                    == (Transition::Close { id: live[i].id });
            if i < rest.len() {
                assert(rest[i] == live[i]);
                let k = head.index_of(t);
                assert(all[k] == t);
            } else {
                assert(all[head.len() as int] == last);
            }
        }
    }
}

/// Which keys and ids tell findings and episodes apart.
pub open spec fn told_apart(before: Seq<LiveEpisode>, findings: Seq<Finding>) -> bool {
    &&& forall|i: int, j: int|
        0 <= i < j < findings.len() ==> (#[trigger] findings[i]).key() != (
        #[trigger] findings[j]).key()
    &&& forall|i: int, j: int|
        0 <= i < j < before.len() ==> (#[trigger] before[i]).key() != (
        #[trigger] before[j]).key() && before[i].id != before[j].id
}

proof fn lemma_in_either(news: Seq<Transition>, ends: Seq<Transition>, t: Transition)
    ensures
        (news + ends).contains(t) <==> news.contains(t) || ends.contains(t),
{
    let all = news + ends;
    if news.contains(t) {
        assert(all[news.index_of(t)] == t);
    }
    if ends.contains(t) {
        assert(all[news.len() + ends.index_of(t)] == t);
    }
    if all.contains(t) {
        let k = all.index_of(t);
        if k < news.len() {
            assert(news[k] == t);
        } else {
            assert(ends[k - news.len()] == t);
        }
    }
}

/// Where the transitions of a run come from.
proof fn lemma_where_changes_come_from(
    live: Seq<LiveEpisode>,
    findings: Seq<Finding>,
    t: Transition,
)
    ensures
        (answers(live, findings) + closes(live, findings)).contains(t) <==> (if t is Close {
            exists|i: int|
                0 <= i < live.len() && !found(findings, (#[trigger] live[i]).key()) && t
                    == (Transition::Close { id: live[i].id })
        } else {
            exists|i: int|
                0 <= i < findings.len() && #[trigger] answer(live, findings[i]).contains(t)
        }),
{
    lemma_in_either(answers(live, findings), closes(live, findings), t);
    lemma_where_answers_come_from(live, findings, t);
    lemma_where_closes_come_from(live, findings, t);
}

/// What was found has an episode once the transitions have been carried out.
proof fn lemma_found_is_open(
    before: Seq<LiveEpisode>,
    findings: Seq<Finding>,
    after: Seq<LiveEpisode>,
    n: int,
)
    requires
        0 <= n < findings.len(),
        told_apart(before, findings),
        carried_out(before, answers(before, findings) + closes(before, findings), after),
    ensures
        open_under(after, findings[n].key()) is Some,
{
    let f = findings[n];
    let changes = answers(before, findings) + closes(before, findings);
    lemma_open_under(before, f.key());
    lemma_open_under(after, f.key());
    match open_under(before, f.key()) {
        None => {
            let t = Transition::Open { check_key: f.check_key, subject: f.subject, value: f.value };
            assert(answer(before, f)[0] == t);
            assert(answer(before, findings[n]).contains(t));
            lemma_where_changes_come_from(before, findings, t);
            let k = changes.index_of(t);
            assert(changes[k] == t);
        },
        Some(b) => {
            let t = Transition::Close { id: b.id };
            let i0 = before.index_of(b);
            lemma_where_changes_come_from(before, findings, t);
            assert(found(findings, f.key()));
            assert(before[i0] == b);
            assert(!changes.contains(Transition::Close { id: before[i0].id }));
        },
    }
}

/// The episode of a finding has seen no better than it, once the transitions
/// have been carried out.
proof fn lemma_found_again(
    before: Seq<LiveEpisode>,
    findings: Seq<Finding>,
    after: Seq<LiveEpisode>,
    n: int,
)
    requires
        0 <= n < findings.len(),
        told_apart(before, findings),
        carried_out(before, answers(before, findings) + closes(before, findings), after),
    ensures
        answer(after, findings[n]) == Seq::<Transition>::empty(),
{
    let f = findings[n];
    let changes = answers(before, findings) + closes(before, findings);
    lemma_found_is_open(before, findings, after, n);
    lemma_open_under(before, f.key());
    lemma_open_under(after, f.key());
    let e = open_under(after, f.key())->0;
    let at = after.index_of(e);
    assert(stands_to_reason(before, changes, after[at]));
    if exists|k: int|
        0 <= k < changes.len() && ((#[trigger] changes[k]) matches Transition::Open {
            check_key,
            subject,
            value,
        } && e.key() == joined(check_key@, subject@) && e.peak_value == value) {
        let k = choose|k: int|
            0 <= k < changes.len() && ((#[trigger] changes[k]) matches Transition::Open {
                check_key,
                subject,
                value,
            } && e.key() == joined(check_key@, subject@) && e.peak_value == value);
        let t = changes[k];
        assert(changes.contains(t));
        lemma_where_changes_come_from(before, findings, t);
        let m = choose|m: int|
            0 <= m < findings.len() && #[trigger] answer(before, findings[m]).contains(t);
        assert(findings[m].key() == f.key());
        assert(m == n);
        assert(e.peak_value == f.value);
    } else {
        lemma_kept_again(before, findings, e, n);
    }
}

/// An episode that was open before and was found has seen no better than the
/// finding.
proof fn lemma_kept_again(
    before: Seq<LiveEpisode>,
    findings: Seq<Finding>,
    e: LiveEpisode,
    n: int,
)
    requires
        0 <= n < findings.len(),
        told_apart(before, findings),
        e.key() == findings[n].key(),
        kept(before, answers(before, findings) + closes(before, findings), e),
    ensures
        findings[n].value matches Some(v) ==> !worse(v, e.peak_value),
{
    let f = findings[n];
    let changes = answers(before, findings) + closes(before, findings);
    let i = choose|i: int| 0 <= i < before.len() && kept_from(#[trigger] before[i], changes, e);
    lemma_open_under(before, f.key());
    assert(before[i].key() == f.key());
    let b = open_under(before, f.key())->0;
    let i0 = before.index_of(b);
    assert(before[i0] == b);
    assert(i == i0);
    if raised(changes, e.id) {
        let v = choose|v: Number|
            #[trigger] changes.contains(Transition::RaisePeak { id: e.id, value: v })
                && e.peak_value == Some(v);
        let t = Transition::RaisePeak { id: e.id, value: v };
        lemma_where_changes_come_from(before, findings, t);
        let m = choose|m: int|
            0 <= m < findings.len() && #[trigger] answer(before, findings[m]).contains(t);
        lemma_open_under(before, findings[m].key());
        let bm = open_under(before, findings[m].key())->0;
        let im = before.index_of(bm);
        assert(before[im] == bm);
        assert(im == i0);
        assert(findings[m].key() == findings[n].key());
        assert(m == n);
        assert(f.value == Some(v));
    } else {
        if let Some(v) = f.value {
            if worse(v, b.peak_value) {
                let t = Transition::RaisePeak { id: b.id, value: v };
                assert(answer(before, findings[n])[0] == t);
                assert(answer(before, findings[n]).contains(t));
                lemma_where_changes_come_from(before, findings, t);
                assert(raised(changes, e.id));
            }
        }
    }
}

/// Once a run's transitions have been carried out, running again on the same
/// findings changes nothing.
pub proof fn law_a_repeated_run_changes_nothing(
    before: Seq<LiveEpisode>,
    findings: Seq<Finding>,
    after: Seq<LiveEpisode>,
)
    requires
        told_apart(before, findings),
        carried_out(before, answers(before, findings) + closes(before, findings), after),
    ensures
        (answers(after, findings) + closes(after, findings)).len() == 0,
{
    let changes = answers(before, findings) + closes(before, findings);
    assert forall|i: int| 0 <= i < findings.len() implies answer(after, #[trigger] findings[i])
        == Seq::<Transition>::empty() by {
        lemma_found_again(before, findings, after, i);
    }
    assert forall|j: int| 0 <= j < after.len() implies found(
        findings,
        (#[trigger] after[j]).key(),
    ) by {
        let e = after[j];
        assert(stands_to_reason(before, changes, after[j]));
        if kept(before, changes, e) {
            let i = choose|i: int|
                0 <= i < before.len() && kept_from(#[trigger] before[i], changes, e);
            lemma_where_changes_come_from(before, findings, Transition::Close { id: e.id });
            assert(found(findings, before[i].key()));
        } else {
            let k = choose|k: int|
                0 <= k < changes.len() && ((#[trigger] changes[k]) matches Transition::Open {
                    check_key,
                    subject,
                    value,
                } && e.key() == joined(check_key@, subject@) && e.peak_value == value);
            let t = changes[k];
            assert(changes.contains(t));
            lemma_where_changes_come_from(before, findings, t);
            let m = choose|m: int|
                0 <= m < findings.len() && #[trigger] answer(before, findings[m]).contains(t);
            assert(findings[m].key() == e.key());
        }
    }
    law_nothing_changes_when_settled(after, findings);
}

/// Whether a finding and an episode are about the same thing.
pub open spec fn same_matter(f: Finding, e: LiveEpisode) -> bool {
    f.check_key@ == e.check_key@ && f.subject@ == e.subject@
}

/// Where no check is named with the separator, a finding and an episode share a
/// key exactly when they share the check and the subject.
proof fn lemma_same_matter(f: Finding, e: LiveEpisode)
    requires
        !f.check_key@.contains('\u{1f}'),
        !e.check_key@.contains('\u{1f}'),
    ensures
        f.key() == e.key() <==> same_matter(f, e),
{
    law_a_key_is_a_check_and_a_subject(f.check_key@, f.subject@, e.check_key@, e.subject@);
}

/// A finding that no episode is open on opens one, under its own check and
/// subject and with its own value.
pub proof fn law_a_new_finding_opens_an_episode(live: Seq<LiveEpisode>, f: Finding)
    requires
        !f.check_key@.contains('\u{1f}'),
        forall|i: int|
            0 <= i < live.len() ==> !(#[trigger] live[i]).check_key@.contains('\u{1f}')
                && !same_matter(f, live[i]),
    ensures
        answer(live, f) == seq![
            Transition::Open { check_key: f.check_key, subject: f.subject, value: f.value },
        ],
{
    lemma_open_under(live, f.key());
    if let Some(e) = open_under(live, f.key()) {
        let i = live.index_of(e);
        assert(live[i] == e);
        lemma_same_matter(f, live[i]);
    }
}

/// A finding on an open episode raises its peak exactly when it has a value and
/// that is above everything the episode has seen; else it changes nothing.
pub proof fn law_only_a_worse_reading_raises_the_peak(live: Seq<LiveEpisode>, f: Finding, i: int)
    requires
        !f.check_key@.contains('\u{1f}'),
        forall|k: int|
            0 <= k < live.len() ==> !(#[trigger] live[k]).check_key@.contains('\u{1f}'),
        0 <= i < live.len(),
        same_matter(f, live[i]),
        forall|k: int| 0 <= k < live.len() && k != i ==> !same_matter(f, #[trigger] live[k]),
    ensures
        f.value is Some && (live[i].peak_value is None || live[i].peak_value->0.below(f.value->0))
            ==> answer(live, f) == seq![
            Transition::RaisePeak { id: live[i].id, value: f.value->0 },
        ],
        f.value is None || (live[i].peak_value is Some && !live[i].peak_value->0.below(f.value->0))
            ==> answer(live, f).len() == 0,
{
    lemma_open_under(live, f.key());
    lemma_same_matter(f, live[i]);
    let e = open_under(live, f.key())->0;
    let k = live.index_of(e);
    assert(live[k] == e);
    lemma_same_matter(f, live[k]);
    assert(k == i);
}

/// The findings are answered one after the other, in their order.
pub proof fn law_findings_are_answered_in_turn(
    live: Seq<LiveEpisode>,
    findings: Seq<Finding>,
    f: Finding,
)
    ensures
        answers(live, findings.push(f)) == answers(live, findings) + answer(live, f),
        answers(live, Seq::empty()).len() == 0,
{
    assert(findings.push(f).drop_last() =~= findings);
}

/// The episodes that no finding is about are closed, in their order, and no
/// others.
pub proof fn law_what_was_not_found_is_closed(live: Seq<LiveEpisode>, findings: Seq<Finding>)
    requires
        forall|i: int|
            0 <= i < live.len() ==> !(#[trigger] live[i]).check_key@.contains('\u{1f}'),
        forall|i: int|
            0 <= i < findings.len() ==> !(#[trigger] findings[i]).check_key@.contains('\u{1f}'),
    ensures
        closes(live, findings) == live.filter(
            |e: LiveEpisode|
                forall|i: int|
                    0 <= i < findings.len() ==> !same_matter(#[trigger] findings[i], e),
        ).map_values(|e: LiveEpisode| Transition::Close { id: e.id }),
    decreases live.len(),
{
    reveal(Seq::filter);
    let gone = |e: LiveEpisode|
        forall|i: int| 0 <= i < findings.len() ==> !same_matter(#[trigger] findings[i], e);
    let close = |e: LiveEpisode| Transition::Close { id: e.id };
    if live.len() > 0 {
        let rest = live.drop_last();
        assert forall|i: int| 0 <= i < rest.len() implies !(
        #[trigger] rest[i]).check_key@.contains('\u{1f}') by {
            assert(rest[i] == live[i]);
        }
        law_what_was_not_found_is_closed(rest, findings);
        let e = live.last();
        assert(e == live[live.len() - 1]);
        assert(found(findings, e.key()) <==> !gone(e)) by {
            if found(findings, e.key()) {
                let i = choose|i: int|
                    0 <= i < findings.len() && (#[trigger] findings[i]).key() == e.key();
                lemma_same_matter(findings[i], e);
            }
            if !gone(e) {
                let i = choose|i: int|
                    0 <= i < findings.len() && same_matter(#[trigger] findings[i], e);
                lemma_same_matter(findings[i], e);
            }
        }
        assert(closes(live, findings) =~= live.filter(gone).map_values(close));
    } else {
        assert(closes(live, findings) =~= live.filter(gone).map_values(close));
    }
}

/// A key is the check, the separator and the subject, of a finding as of an
/// episode.
pub proof fn law_what_a_key_is_made_of(f: Finding, e: LiveEpisode)
    ensures
        f.key() == f.check_key@ + seq!['\u{1f}'] + f.subject@,
        e.key() == e.check_key@ + seq!['\u{1f}'] + e.subject@,
{
}

/// The episode that is open under a key is the last one kept under it.
pub proof fn law_the_last_episode_under_a_key_counts(live: Seq<LiveEpisode>, key: Seq<char>)
    ensures
        match open_under(live, key) {
            None => forall|i: int| 0 <= i < live.len() ==> (#[trigger] live[i]).key() != key,
            Some(e) => exists|i: int|
                0 <= i < live.len() && #[trigger] live[i] == e && e.key() == key && forall|j: int|
                    i < j < live.len() ==> (#[trigger] live[j]).key() != key,
        },
    decreases live.len(),
{
    if live.len() > 0 {
        let rest = live.drop_last();
        let n = live.len() - 1;
        law_the_last_episode_under_a_key_counts(rest, key);
        assert(live.last() == live[n]);
        if live.last().key() != key {
            match open_under(rest, key) {
                None => {
                    assert forall|i: int| 0 <= i < live.len() implies (#[trigger] live[i]).key()
                        != key by {
                        if i < n {
                            assert(rest[i] == live[i]);
                        }
                    }
                },
                Some(e) => {
                    let i = choose|i: int|
                        0 <= i < rest.len() && #[trigger] rest[i] == e && e.key() == key && forall|
                            j: int,
                        |
                            i < j < rest.len() ==> (#[trigger] rest[j]).key() != key;
                    assert(live[i] == e);
                    assert forall|j: int| i < j < live.len() implies (#[trigger] live[j]).key()
                        != key by {
                        if j < n {
                            assert(rest[j] == live[j]);
                        }
                    }
                },
            }
        }
    }
}

/// What a finding changes goes by the episode that is open under its key.
pub proof fn law_what_a_finding_changes(live: Seq<LiveEpisode>, f: Finding)
    ensures
        match open_under(live, f.key()) {
            None => answer(live, f).len() == 1 && answer(live, f)[0] == (Transition::Open {
                check_key: f.check_key,
                subject: f.subject,
                value: f.value,
            }),
            Some(e) => if f.value is Some && (e.peak_value is None || e.peak_value->0.below(
                f.value->0,
            )) {
                answer(live, f).len() == 1 && answer(live, f)[0] == (Transition::RaisePeak {
                    id: e.id,
                    value: f.value->0,
                })
            } else {
                answer(live, f).len() == 0
            },
        },
{
}

/// An open episode is closed exactly when none of the findings has its key, one
/// episode after the other.
pub proof fn law_episodes_are_closed_in_turn(
    live: Seq<LiveEpisode>,
    findings: Seq<Finding>,
    e: LiveEpisode,
)
    ensures
        closes(Seq::empty(), findings).len() == 0,
        (forall|i: int| 0 <= i < findings.len() ==> (#[trigger] findings[i]).key() != e.key())
            ==> closes(live.push(e), findings) == closes(live, findings).push(
            Transition::Close { id: e.id },
        ),
        (exists|i: int| 0 <= i < findings.len() && (#[trigger] findings[i]).key() == e.key())
            ==> closes(live.push(e), findings) == closes(live, findings),
{
    assert(live.push(e).drop_last() =~= live);
}

} // verus!
