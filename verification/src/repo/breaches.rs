//! The limit breach register: how a recorded run changes it, what is written
//! for each transition, and how results go back onto their runs.
//!
//! Runs and results are write-once: there is deliberately no way to update
//! either.

use crate::auth::access::{Access, ActionMarker, DomainMarker};
use crate::breach::Transition;
use crate::date::Date;
use crate::number::Number;
use crate::order::pick_rows;
use crate::text::signed_decimal_of;
use vstd::prelude::*;
use vstd::string::*;

verus! {

/// The `input_notes` key under which a run records that it left the episode
/// lifecycle alone. Named as a constant so the recorder, the tests and any
/// future reader agree on it.
pub const TRANSITIONS_SKIPPED_NOTE: &'static str = "transitions";

/// High half of this module's advisory-lock keys, so a lock taken here cannot
/// collide with one a future feature takes on a bare portfolio id. The low
/// half is the portfolio id.
pub const REGISTER_LOCK_TAG: i64 = 0x0B12;

/// The advisory-lock key of a portfolio's register.
pub open spec fn lock_key(portfolio_id: i64) -> int {
    REGISTER_LOCK_TAG * 0x1_0000_0000 + (portfolio_id as int) % 0x1_0000_0000
}

/// The advisory-lock key of a portfolio's register.
pub fn register_lock_key(portfolio_id: i64) -> (r: i64)
    ensures
        r == lock_key(portfolio_id),
{
    let low: i64 = portfolio_id & 0xFFFF_FFFF;
    let r: i64 = (REGISTER_LOCK_TAG << 32) | low;
    proof {
        assert(portfolio_id & 0xFFFF_FFFF == portfolio_id as int % 0x1_0000_0000) by (bit_vector);
        assert(low == portfolio_id & 0xFFFF_FFFF ==> (0x0B12i64 << 32) | low == 0x0B12i64
            * 0x1_0000_0000i64 + low) by (bit_vector);
    }
    r
}

/// Portfolios share a lock only where their ids agree in the low half, and no
/// key is that of a bare portfolio id below it.
pub proof fn law_locks_tell_portfolios_apart(a: i64, b: i64)
    ensures
        lock_key(a) == lock_key(b) <==> (a - b) % 0x1_0000_0000 == 0,
        0 <= a < 0x1_0000_0000 && 0 <= b < 0x1_0000_0000 && lock_key(a) == lock_key(b) ==> a == b,
        lock_key(a) >= 0x0B12_0000_0000,
{
}

/// The newest recorded day, where a run's own day lies before it.
pub open spec fn too_late_after(latest: Option<Date>, nav_date: Date) -> Option<Date> {
    match latest {
        Some(l) if nav_date.number() < l.number() => Some(l),
        _ => None,
    }
}

/// After which run a back-dated one comes too late: the newest recorded day,
/// where the run's own day lies before it.
///
/// The transitions of a run close every open episode that it did not find, so
/// a run for a day before the register's current state would close episodes
/// before they were opened. Such a run and its results are recorded as honest
/// history for that day, and the register is left alone.
pub fn transitions_skipped_after(latest: Option<Date>, nav_date: Date) -> (r: Option<Date>)
    ensures
        r == too_late_after(latest, nav_date),
{
    match latest {
        None => None,
        Some(l) => if nav_date.is_before(&l) {
            Some(l)
        } else {
            None
        },
    }
}

/// The days of an episode in the register, by their numbers.
pub struct EpisodeDays {
    pub id: i64,
    pub opened: int,
    pub closed: Option<int>,
}

/// Whether the days of a register are in order: no episode opened after the
/// newest run, and none closed before it opened or after the newest run.
pub open spec fn days_in_order(register: Seq<EpisodeDays>, latest: Option<Date>) -> bool {
    forall|i: int| 0 <= i < register.len() ==> opened_first(#[trigger] register[i], latest)
}

/// Whether the days of one episode are in order.
pub open spec fn opened_first(e: EpisodeDays, latest: Option<Date>) -> bool {
    latest matches Some(l) && e.opened <= l.number() && (e.closed matches Some(c) ==> e.opened <= c
        <= l.number())
}

/// Whether the transitions of a run for a day turn one register into another:
/// episodes are closed on that day, and new ones open on it.
pub open spec fn written_on(
    before: Seq<EpisodeDays>,
    transitions: Seq<Transition>,
    day: int,
    after: Seq<EpisodeDays>,
) -> bool {
    &&& before.len() <= after.len()
    &&& forall|i: int|
        0 <= i < before.len() ==> (#[trigger] after[i]).id == before[i].id && after[i].opened
            == before[i].opened && (after[i].closed == before[i].closed || (before[i].closed is None
            && after[i].closed == Some(day) && transitions.contains(
            Transition::Close { id: before[i].id },
        )))
    &&& forall|i: int|
        before.len() <= i < after.len() ==> (#[trigger] after[i]).opened == day
            && after[i].closed is None
}

/// No run, back-dated or not, leaves an episode that closed before it opened.
pub proof fn law_no_episode_closes_before_it_opens(
    before: Seq<EpisodeDays>,
    latest: Option<Date>,
    transitions: Seq<Transition>,
    nav_date: Date,
    after: Seq<EpisodeDays>,
)
    requires
        days_in_order(before, latest),
        too_late_after(latest, nav_date) is Some ==> after == before,
        too_late_after(latest, nav_date) is None ==> written_on(
            before,
            transitions,
            nav_date.number(),
            after,
        ),
    ensures
        days_in_order(
            after,
            if too_late_after(latest, nav_date) is Some {
                latest
            } else {
                Some(nav_date)
            },
        ),
{
    if too_late_after(latest, nav_date) is None {
        assert forall|i: int| 0 <= i < after.len() implies opened_first(
            #[trigger] after[i],
            Some(nav_date),
        ) by {
            if i < before.len() {
                assert(opened_first(before[i], latest));
            }
        }
    }
}

/// What a run that left the register alone records of it.
pub fn skipped_note(nav_date: Date, latest: Date) -> (r: String)
    ensures
        r@ == "this run is back-dated ("@ + crate::date::iso_text(nav_date@) + " is before "@
            + crate::date::iso_text(latest@)
            + ", the newest run already recorded for this portfolio), so its results were recorded but no breach episode was opened, raised or closed"@,
{
    let mut r = "this run is back-dated (".to_string();
    r.append(nav_date.to_iso().as_str());
    r.append(" is before ");
    r.append(latest.to_iso().as_str());
    r.append(
        ", the newest run already recorded for this portfolio), so its results were recorded but no breach episode was opened, raised or closed",
    );
    r
}

/// What is written into an episode's timeline.
#[derive(Debug, Clone, Copy, PartialEq, Eq, Structural)]
pub enum BreachEvent {
    Opened { value: Option<Number> },
    PeakRaised { value: Number },
    Cleared,
}

impl BreachEvent {
    /// The name an event is stored under.
    pub fn name(&self) -> (r: &'static str)
        ensures
            r@ == (match *self {
                BreachEvent::Opened { .. } => "opened"@,
                BreachEvent::PeakRaised { .. } => "note"@,
                BreachEvent::Cleared => "cleared"@,
            }),
    {
        match self {
            BreachEvent::Opened { .. } => "opened",
            BreachEvent::PeakRaised { .. } => "note",
            BreachEvent::Cleared => "cleared",
        }
    }
}

/// One thing to do in the store.
#[allow(inconsistent_fields)]
#[derive(Debug, Clone)]
pub enum RegisterAction {
    /// Open an episode; the store answers with its id.
    Insert { check_key: String, subject: String, value: Option<Number> },
    /// Raise the peak of an episode of this portfolio; the store answers
    /// whether there was one.
    Raise { id: i64, value: Number },
    /// Close an episode of this portfolio that is still open; the store answers
    /// whether there was one.
    Close { id: i64 },
    /// Look for an episode in this portfolio, open or closed.
    LookUp { id: i64 },
    /// Append an event to an episode's timeline.
    Record { breach: i64, event: BreachEvent },
    /// Nothing is left to do.
    Done,
}

/// How far a transition has come.
#[derive(Debug, Clone, Copy, PartialEq, Eq, Structural)]
pub enum Stage {
    /// Its episode is to be written.
    Writing,
    /// Its episode was not there to close; it is to be looked for.
    LookingUp,
    /// Its event is to be recorded.
    Recording { breach: i64 },
}

/// How far the transitions of a run have been applied.
#[derive(Debug, Clone, Copy, PartialEq, Eq, Structural)]
pub struct Progress {
    pub at: usize,
    pub stage: Stage,
}

/// What the store answered.
#[derive(Debug, Clone, Copy, PartialEq, Eq, Structural)]
pub enum Reply {
    /// The id of the episode that was opened.
    Inserted(i64),
    /// Whether there was an episode to write, or one to be found.
    Hit(bool),
    /// The event was recorded.
    Recorded,
}

/// The event of a transition.
pub open spec fn event_of(t: Transition) -> BreachEvent {
    match t {
        Transition::Open { check_key, subject, value } => BreachEvent::Opened { value },
        Transition::RaisePeak { id, value } => BreachEvent::PeakRaised { value },
        Transition::Close { id } => BreachEvent::Cleared,
    }
}

/// What is to be done next.
pub open spec fn due(ts: Seq<Transition>, p: Progress) -> RegisterAction {
    if p.at >= ts.len() {
        RegisterAction::Done
    } else {
        match p.stage {
            Stage::Writing => match ts[p.at as int] {
                Transition::Open { check_key, subject, value } => RegisterAction::Insert {
                    check_key,
                    subject,
                    value,
                },
                Transition::RaisePeak { id, value } => RegisterAction::Raise { id, value },
                Transition::Close { id } => RegisterAction::Close { id },
            },
            Stage::LookingUp => match ts[p.at as int] {
                Transition::Close { id } => RegisterAction::LookUp { id },
                _ => RegisterAction::Done,
            },
            Stage::Recording { breach } => RegisterAction::Record {
                breach,
                event: event_of(ts[p.at as int]),
            },
        }
    }
}

/// Whether an answer is one to what is due.
pub open spec fn answers_to(action: RegisterAction, reply: Reply) -> bool {
    match action {
        RegisterAction::Insert { .. } => reply is Inserted,
        RegisterAction::Raise { .. } => reply is Hit,
        RegisterAction::Close { .. } => reply is Hit,
        RegisterAction::LookUp { .. } => reply is Hit,
        RegisterAction::Record { .. } => reply is Recorded,
        RegisterAction::Done => false,
    }
}

/// Where an answer leads: on to the next thing to do, or to the episode that is
/// not in this portfolio.
pub open spec fn led_by(ts: Seq<Transition>, p: Progress, reply: Reply) -> Result<Progress, i64> {
    let next = Progress { at: (p.at + 1) as usize, stage: Stage::Writing };
    match (due(ts, p), reply) {
        (RegisterAction::Insert { .. }, Reply::Inserted(id)) => Ok(
            Progress { at: p.at, stage: Stage::Recording { breach: id } },
        ),
        (RegisterAction::Raise { id, value }, Reply::Hit(hit)) => if hit {
            Ok(Progress { at: p.at, stage: Stage::Recording { breach: id } })
        } else {
            Err(id)
        },
        (RegisterAction::Close { id }, Reply::Hit(hit)) => if hit {
            Ok(Progress { at: p.at, stage: Stage::Recording { breach: id } })
        } else {
            Ok(Progress { at: p.at, stage: Stage::LookingUp })
        },
        (RegisterAction::LookUp { id }, Reply::Hit(hit)) => if hit {
            Ok(next)
        } else {
            Err(id)
        },
        (RegisterAction::Record { .. }, Reply::Recorded) => Ok(next),
        _ => Ok(p),
    }
}

/// The error of a transition that names another portfolio's episode.
pub open spec fn not_in_portfolio(id: i64, portfolio_id: i64) -> Seq<char> {
    "transition names breach "@ + crate::text::signed_decimal(id as int)
        + ", which is not in portfolio "@ + crate::text::signed_decimal(portfolio_id as int)
}

impl Progress {
    /// Nothing has been applied yet.
    pub fn start() -> (r: Progress)
        ensures
            r == (Progress { at: 0, stage: Stage::Writing }),
    {
        Progress { at: 0, stage: Stage::Writing }
    }

    /// What is to be done next.
    pub fn action(&self, transitions: &[Transition]) -> (r: RegisterAction)
        ensures
            r == due(transitions@, *self),
    {
        if self.at >= transitions.len() {
            return RegisterAction::Done;
        }
        match self.stage {
            Stage::Writing => match &transitions[self.at] {
                Transition::Open { check_key, subject, value } => RegisterAction::Insert {
                    check_key: check_key.clone(),
                    subject: subject.clone(),
                    value: *value,
                },
                Transition::RaisePeak { id, value } => RegisterAction::Raise {
                    id: *id,
                    value: *value,
                },
                Transition::Close { id } => RegisterAction::Close { id: *id },
            },
            Stage::LookingUp => match &transitions[self.at] {
                Transition::Close { id } => RegisterAction::LookUp { id: *id },
                _ => RegisterAction::Done,
            },
            Stage::Recording { breach } => RegisterAction::Record {
                breach,
                event: match &transitions[self.at] {
                    Transition::Open { check_key, subject, value } => BreachEvent::Opened {
                        value: *value,
                    },
                    Transition::RaisePeak { id, value } => BreachEvent::PeakRaised {
                        value: *value,
                    },
                    Transition::Close { id } => BreachEvent::Cleared,
                },
            },
        }
    }

    /// Where the store's answer leads. The id in a transition is data, not a
    /// grant: one that names no episode of this portfolio ends the whole run
    /// with an error. An episode that is closed already is passed over without
    /// an event: the register is in the state the transition asks for.
    pub fn advance(
        &self,
        transitions: &[Transition],
        reply: Reply,
        portfolio_id: i64,
    ) -> (r: Result<Progress, String>)
        requires
            answers_to(due(transitions@, *self), reply),
        ensures
            match led_by(transitions@, *self, reply) {
                Ok(p) => r == Ok::<Progress, String>(p),
                Err(id) => r is Err && r->Err_0@ == not_in_portfolio(id, portfolio_id),
            },
    {
        let count: usize = transitions.len();
        assert(self.at < count);
        match (self.action(transitions), reply) {
            (RegisterAction::Insert { .. }, Reply::Inserted(id)) => Ok(
                Progress { at: self.at, stage: Stage::Recording { breach: id } },
            ),
            (RegisterAction::Raise { id, value }, Reply::Hit(hit)) => if hit {
                Ok(Progress { at: self.at, stage: Stage::Recording { breach: id } })
            } else {
                Err(foreign_breach(id, portfolio_id))
            },
            (RegisterAction::Close { id }, Reply::Hit(hit)) => if hit {
                Ok(Progress { at: self.at, stage: Stage::Recording { breach: id } })
            } else {
                Ok(Progress { at: self.at, stage: Stage::LookingUp })
            },
            (RegisterAction::LookUp { id }, Reply::Hit(hit)) => if hit {
                Ok(Progress { at: self.at + 1, stage: Stage::Writing })
            } else {
                Err(foreign_breach(id, portfolio_id))
            },
            (RegisterAction::Record { breach, event }, Reply::Recorded) => Ok(
                Progress { at: self.at + 1, stage: Stage::Writing },
            ),
            _ => Ok(*self),
        }
    }
}

/// The error of a transition that names another portfolio's episode.
fn foreign_breach(id: i64, portfolio_id: i64) -> (r: String)
    ensures
        r@ == not_in_portfolio(id, portfolio_id),
{
    let mut r = "transition names breach ".to_string();
    r.append(signed_decimal_of(id).as_str());
    r.append(", which is not in portfolio ");
    r.append(signed_decimal_of(portfolio_id).as_str());
    r
}

/// How far along some progress is.
pub open spec fn distance(p: Progress) -> int {
    3 * p.at + match p.stage {
        Stage::Writing => 0int,
        Stage::LookingUp => 1,
        Stage::Recording { .. } => 2,
    }
}

/// Every answer moves the work on, so that it ends after at most three actions
/// per transition.
pub proof fn law_every_answer_moves_on(ts: Seq<Transition>, p: Progress, reply: Reply)
    requires
        ts.len() <= usize::MAX,
        answers_to(due(ts, p), reply),
        led_by(ts, p, reply) is Ok,
    ensures
        distance(p) < distance(led_by(ts, p, reply)->Ok_0) <= 3 * ts.len(),
{
}

/// An event is recorded exactly where something was written: after an answer
/// that an episode was opened, raised or closed, and nowhere else. The event
/// is that of the transition, on the episode that was written.
pub proof fn law_an_event_follows_every_write(ts: Seq<Transition>, p: Progress, reply: Reply)
    requires
        ts.len() <= usize::MAX,
        answers_to(due(ts, p), reply),
        led_by(ts, p, reply) is Ok,
    ensures
        due(ts, led_by(ts, p, reply)->Ok_0) is Record <==> (due(ts, p) is Insert || ((due(
            ts,
            p,
        ) is Raise || due(ts, p) is Close) && reply == Reply::Hit(true))),
        due(ts, led_by(ts, p, reply)->Ok_0) is Record ==> due(ts, led_by(ts, p, reply)->Ok_0)
            == (RegisterAction::Record {
            breach: match due(ts, p) {
                RegisterAction::Raise { id, value } => id,
                RegisterAction::Close { id } => id,
                _ => reply->Inserted_0,
            },
            event: event_of(ts[p.at as int]),
        }),
{
}

/// Closing an episode that is closed already records nothing: the work goes on
/// with the next transition.
pub proof fn law_closing_twice_records_once(ts: Seq<Transition>, at: usize, id: i64)
    requires
        at < ts.len() <= usize::MAX,
        ts[at as int] == (Transition::Close { id }),
    ensures
        ({
            let closing = Progress { at, stage: Stage::Writing };
            let missed = led_by(ts, closing, Reply::Hit(false));
            &&& missed is Ok
            &&& due(ts, missed->Ok_0) == (RegisterAction::LookUp { id })
            &&& led_by(ts, missed->Ok_0, Reply::Hit(true)) == Ok::<Progress, i64>(
                Progress { at: (at + 1) as usize, stage: Stage::Writing },
            )
            &&& led_by(ts, missed->Ok_0, Reply::Hit(false)) == Err::<Progress, i64>(id)
        }),
{
}

/// Whether results are those of the `i`-th run: the rows that carry its id. A
/// run whose id stood before has none left.
pub open spec fn results_of(run_ids: Seq<i64>, result_run_ids: Seq<i64>, i: int) -> Seq<bool> {
    Seq::new(
        result_run_ids.len(),
        |j: int| result_run_ids[j] == run_ids[i] && !run_ids.take(i).contains(run_ids[i]),
    )
}

/// Puts results back onto their runs: for each run, in order, which of the
/// result rows are its own.
pub fn results_by_run(run_ids: &[i64], result_run_ids: &[i64]) -> (r: Vec<Vec<usize>>)
    ensures
        r@.len() == run_ids@.len(),
        forall|i: int|
            0 <= i < run_ids@.len() ==> crate::order::picks(
                (#[trigger] r@[i])@,
                results_of(run_ids@, result_run_ids@, i),
            ),
{
    let mut out: Vec<Vec<usize>> = Vec::new();
    for i in 0..run_ids.len()
        invariant
            out@.len() == i,
            forall|k: int|
                0 <= k < i ==> crate::order::picks(
                    (#[trigger] out@[k])@,
                    results_of(run_ids@, result_run_ids@, k),
                ),
    {
        let mut taken: bool = false;
        for k in 0..i
            invariant
                i < run_ids@.len(),
                taken == run_ids@.take(k as int).contains(run_ids@[i as int]),
        {
            let ghost part = run_ids@.take(k as int);
            let ghost now = run_ids@.take(k + 1);
            if run_ids[k] == run_ids[i] {
                taken = true;
            }
            proof {
                assert(now[k as int] == run_ids@[k as int]);
                assert forall|m: int| 0 <= m < k implies now[m] == part[m] by {}
                if part.contains(run_ids@[i as int]) {
                    assert(now[part.index_of(run_ids@[i as int])] == run_ids@[i as int]);
                }
                if now.contains(run_ids@[i as int]) {
                    let m = now.index_of(run_ids@[i as int]);
                    if m < k {
                        assert(part[m] == run_ids@[i as int]);
                    }
                }
            }
        }
        let mut wanted: Vec<bool> = Vec::new();
        for j in 0..result_run_ids.len()
            invariant
                i < run_ids@.len(),
                taken == run_ids@.take(i as int).contains(run_ids@[i as int]),
                wanted@.len() == j,
                forall|m: int|
                    0 <= m < j ==> wanted@[m] == results_of(
                        run_ids@,
                        result_run_ids@,
                        i as int,
                    )[m],
        {
            wanted.push(!taken && result_run_ids[j] == run_ids[i]);
        }
        assert(wanted@ =~= results_of(run_ids@, result_run_ids@, i as int));
        out.push(pick_rows(&wanted));
    }
    out
}

/// Every result whose run is listed goes to one run, the one whose id it
/// carries; no other result goes anywhere.
pub proof fn law_each_result_goes_to_one_run(
    run_ids: Seq<i64>,
    result_run_ids: Seq<i64>,
    rows: Seq<Vec<usize>>,
    j: usize,
)
    requires
        rows.len() == run_ids.len(),
        forall|i: int|
            0 <= i < run_ids.len() ==> crate::order::picks(
                (#[trigger] rows[i])@,
                results_of(run_ids, result_run_ids, i),
            ),
        j < result_run_ids.len(),
    ensures
        run_ids.contains(result_run_ids[j as int]) <==> exists|i: int|
            0 <= i < rows.len() && (#[trigger] rows[i])@.contains(j),
        forall|i: int|
            0 <= i < rows.len() && (#[trigger] rows[i])@.contains(j) ==> run_ids[i]
                == result_run_ids[j as int],
        forall|a: int, b: int|
            0 <= a < rows.len() && 0 <= b < rows.len() && (#[trigger] rows[a])@.contains(j) && (
            #[trigger] rows[b])@.contains(j) ==> a == b,
{
    let id = result_run_ids[j as int];
    assert forall|i: int| 0 <= i < rows.len() implies ((#[trigger] rows[i])@.contains(j) <==> (
    run_ids[i] == id && !run_ids.take(i).contains(id))) by {
        let wanted = results_of(run_ids, result_run_ids, i);
        assert(wanted[j as int] == (id == run_ids[i] && !run_ids.take(i).contains(run_ids[i])));
        if rows[i]@.contains(j) {
            let k = rows[i]@.index_of(j);
            assert(rows[i]@[k] == j);
            assert(wanted[j as int]);
        }
        if wanted[j as int] {
            assert(rows[i]@.contains((j as int) as usize));
        }
    }
    if run_ids.contains(id) {
        lemma_first_place(run_ids, id, run_ids.index_of(id));
        let i = choose|i: int|
            0 <= i < run_ids.len() && run_ids[i] == id && !(#[trigger] run_ids.take(i)).contains(id);
        assert(rows[i]@.contains(j));
    }
    assert forall|a: int, b: int|
        0 <= a < rows.len() && 0 <= b < rows.len() && (#[trigger] rows[a])@.contains(j) && (
        #[trigger] rows[b])@.contains(j) implies a == b by {
        if a < b {
            assert(run_ids.take(b)[a] == id);
        }
        if b < a {
            assert(run_ids.take(a)[b] == id);
        }
    }
}

proof fn lemma_first_place(ids: Seq<i64>, id: i64, at: int)
    requires
        0 <= at < ids.len(),
        ids[at] == id,
    ensures
        exists|i: int|
            0 <= i < ids.len() && ids[i] == id && !(#[trigger] ids.take(i)).contains(id),
    decreases at,
{
    if ids.take(at).contains(id) {
        let k = ids.take(at).index_of(id);
        assert(ids[k] == id);
        lemma_first_place(ids, id, k);
    }
}

/// The error of a portfolio that is not the token's.
pub open spec fn token_mismatch(what: Seq<char>, pid: i64, token: i64) -> Seq<char> {
    what + ": pid "@ + crate::text::signed_decimal(pid as int)
        + " does not match the token's portfolio "@ + crate::text::signed_decimal(token as int)
}

/// A portfolio id that travels separately from the token must not silently name
/// a different portfolio.
pub fn ensure_token_portfolio<D: DomainMarker, A: ActionMarker>(
    what: &str,
    pid: i64,
    a: &Access<D, A>,
) -> (r: Result<(), String>)
    ensures
        r is Ok <==> pid == a.portfolio(),
        r matches Err(e) ==> e@ == token_mismatch(what@, pid, a.portfolio()),
{
    let token: i64 = a.portfolio_id();
    if pid == token {
        Ok(())
    } else {
        let mut e = what.to_string();
        e.append(": pid ");
        e.append(signed_decimal_of(pid).as_str());
        e.append(" does not match the token's portfolio ");
        e.append(signed_decimal_of(token).as_str());
        Err(e)
    }
}

/// A run leaves the register alone exactly when a later day is recorded already,
/// and says which.
pub proof fn law_only_a_back_dated_run_is_skipped(latest: Option<Date>, nav_date: Date)
    ensures
        too_late_after(latest, nav_date) is Some <==> latest is Some && nav_date.number()
            < latest->0.number(),
        too_late_after(latest, nav_date) is Some ==> too_late_after(latest, nav_date) == latest,
{
}

/// What is written first for each transition is what it asks for, and what is
/// recorded of it afterwards is what it was.
pub proof fn law_what_is_written_for_a_transition(ts: Seq<Transition>, at: usize, breach: i64)
    requires
        at < ts.len(),
    ensures
        ({
            let first = due(ts, Progress { at, stage: Stage::Writing });
            let after = due(ts, Progress { at, stage: Stage::Recording { breach } });
            match ts[at as int] {
                Transition::Open { check_key, subject, value } => first == (
                RegisterAction::Insert { check_key, subject, value }) && after == (
                RegisterAction::Record { breach, event: BreachEvent::Opened { value } }),
                Transition::RaisePeak { id, value } => first == (RegisterAction::Raise { id, value })
                    && after == (RegisterAction::Record {
                    breach,
                    event: BreachEvent::PeakRaised { value },
                }),
                Transition::Close { id } => first == (RegisterAction::Close { id }) && after == (
                RegisterAction::Record { breach, event: BreachEvent::Cleared }),
            }
        }),
{
}

/// The work is done exactly when no transition is left.
pub proof fn law_the_work_ends_with_the_transitions(ts: Seq<Transition>, at: usize)
    ensures
        due(ts, Progress { at, stage: Stage::Writing }) is Done <==> at >= ts.len(),
{
}

/// An episode that is not in the portfolio ends the run with its id: one to be
/// raised at once, one to be closed once it is not found closed either. What was
/// written is recorded, and the next transition follows.
pub proof fn law_a_foreign_episode_ends_the_run(ts: Seq<Transition>, at: usize, id: i64, value: Number)
    requires
        at < ts.len() <= usize::MAX,
    ensures
        ({
            let writing = Progress { at, stage: Stage::Writing };
            let looking = Progress { at, stage: Stage::LookingUp };
            let recording = Progress { at, stage: Stage::Recording { breach: id } };
            let next = Progress { at: (at + 1) as usize, stage: Stage::Writing };
            &&& ts[at as int] == (Transition::RaisePeak { id, value }) ==> led_by(
                ts,
                writing,
                Reply::Hit(false),
            ) == Err::<Progress, i64>(id) && led_by(ts, writing, Reply::Hit(true)) == Ok::<
                Progress,
                i64,
            >(recording)
            &&& ts[at as int] == (Transition::Close { id }) ==> led_by(
                ts,
                writing,
                Reply::Hit(true),
            ) == Ok::<Progress, i64>(recording) && led_by(ts, writing, Reply::Hit(false)) == Ok::<
                Progress,
                i64,
            >(looking) && led_by(ts, looking, Reply::Hit(false)) == Err::<Progress, i64>(id)
                && led_by(ts, looking, Reply::Hit(true)) == Ok::<Progress, i64>(next)
            &&& ts[at as int] is Open ==> led_by(ts, writing, Reply::Inserted(id)) == Ok::<
                Progress,
                i64,
            >(recording)
            &&& led_by(ts, recording, Reply::Recorded) == Ok::<Progress, i64>(next)
        }),
{
}

/// How the two errors of the register read.
pub proof fn law_how_register_errors_read(id: i64, portfolio: i64, what: Seq<char>)
    ensures
        not_in_portfolio(id, portfolio) == "transition names breach "@ + crate::text::signed_decimal(
            id as int,
        ) + ", which is not in portfolio "@ + crate::text::signed_decimal(portfolio as int),
        token_mismatch(what, id, portfolio) == what + ": pid "@ + crate::text::signed_decimal(
            id as int,
        ) + " does not match the token's portfolio "@ + crate::text::signed_decimal(
            portfolio as int,
        ),
{
}

/// A lock is that of the register in its high half and of the portfolio in its
/// low half.
pub proof fn law_a_lock_names_the_register_and_the_portfolio(portfolio_id: i64)
    ensures
        lock_key(portfolio_id) / 0x1_0000_0000 == 0x0B12,
        0 <= portfolio_id < 0x1_0000_0000 ==> lock_key(portfolio_id) % 0x1_0000_0000 == portfolio_id,
{
}

/// A result goes to the first run that carries its id, and results keep their
/// order within a run.
pub proof fn law_a_result_goes_to_the_first_run_of_its_id(
    run_ids: Seq<i64>,
    result_run_ids: Seq<i64>,
    i: int,
    rows: Seq<usize>,
    j: usize,
)
    requires
        0 <= i < run_ids.len(),
        crate::order::picks(rows, results_of(run_ids, result_run_ids, i)),
        result_run_ids.len() <= usize::MAX,
    ensures
        rows.contains(j) <==> j < result_run_ids.len() && result_run_ids[j as int] == run_ids[i]
            && forall|k: int| 0 <= k < i ==> #[trigger] run_ids[k] != run_ids[i],
        forall|a: int, b: int|
            0 <= a < b < rows.len() ==> (#[trigger] rows[a]) < (#[trigger] rows[b]),
{
    crate::order::law_wanted_rows_are_picked(rows, results_of(run_ids, result_run_ids, i), j);
    let before = run_ids.take(i);
    if before.contains(run_ids[i]) {
        let k = before.index_of(run_ids[i]);
        assert(run_ids[k] == run_ids[i]);
    } else {
        assert forall|k: int| 0 <= k < i implies #[trigger] run_ids[k] != run_ids[i] by {
            assert(before[k] == run_ids[k]);
        }
    }
}

} // verus!
