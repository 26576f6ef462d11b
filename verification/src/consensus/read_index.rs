//! What a leader has to establish before it may answer a read from local state.

use super::config::{Configuration, ConfigurationView};
use crate::endpoint::nodes;
use crate::json::{Json, JsonView};
use crate::lists::lemma_joined_hold;
use crate::text::{same_text, texts};
use vstd::prelude::*;

verus! {

/// How long a voter gets to answer a round, in nanoseconds.
pub const CONFIRM_TIMEOUT: u64 = 2_000_000_000;

/// Between two looks at local state, in milliseconds.
pub const APPLY_POLL_MS: u64 = 2;

/// How long local state may take to reach the index, in nanoseconds.
pub const APPLY_TIMEOUT: u64 = 2_000_000_000;

#[derive(Clone, Copy, Debug, PartialEq, Eq, Structural)]
pub enum ReadRefusal {
    /// Either never the leader, or deposed while establishing the index.
    NotLeader,
    /// Leadership too new: entries this node inherited are not yet committed in its own term, so its
    /// commit index is a lower bound rather than the answer.
    TermTooNew,
    /// No majority answered, so nothing rules out a leader at a higher term.
    Unconfirmed,
    /// Confirmed, but the index did not become visible in time.
    ApplyTimeout,
}

impl ReadRefusal {
    pub fn message(&self) -> (r: &'static str)
        ensures
            r@ == (match *self {
                ReadRefusal::NotLeader => "this node is not the primary; retry, or ask for read=replica"@,
                ReadRefusal::TermTooNew => "leadership is too new to answer a quorum read; retry"@,
                ReadRefusal::Unconfirmed => "could not confirm leadership with a quorum; retry"@,
                ReadRefusal::ApplyTimeout => "leadership confirmed but the read index is not yet visible; retry"@,
            }),
    {
        match self {
            ReadRefusal::NotLeader => "this node is not the primary; retry, or ask for read=replica",
            ReadRefusal::TermTooNew => "leadership is too new to answer a quorum read; retry",
            ReadRefusal::Unconfirmed => "could not confirm leadership with a quorum; retry",
            ReadRefusal::ApplyTimeout => "leadership confirmed but the read index is not yet visible; retry",
        }
    }
}

/// Whether the commit index is the answer and not only a lower bound of it.
pub open spec fn complete(pending_len: usize, current_term_commit: bool) -> bool {
    pending_len == 0 || current_term_commit
}

/// Whether the leader has committed an entry of its own term for this collection. Until it has, the
/// commit index can sit below entries a previous leader committed and this node holds staged, so a
/// read at that index would miss them. An empty staging buffer says the same thing another way:
/// everything durable here is already applied.
pub fn index_is_complete(pending_len: usize, has_current_term_commit: bool) -> (r: bool)
    ensures
        r == complete(pending_len, has_current_term_commit),
{
    pending_len == 0 || has_current_term_commit
}

// ---- Confirming leadership ----

/// A voter's answer to a heartbeat: its term, and whether it claims to lead. `None` is no answer.
pub struct Answer {
    pub voter: String,
    pub said: Option<(u64, bool)>,
}

/// Whether an answer confirms leadership at `term`: the voter has not moved to a higher one, and does
/// not claim to lead ours, which would be a split brain.
pub open spec fn confirms(a: Answer, term: u64) -> bool {
    match a.said {
        Some((t, primary)) => t <= term && !(t == term && primary),
        None => false,
    }
}

/// The voters, among the first `n`, that confirm.
pub open spec fn confirming(a: Seq<Answer>, term: u64, n: int) -> Seq<Seq<char>>
    decreases n,
{
    if n <= 0 {
        Seq::empty()
    } else {
        let before = confirming(a, term, n - 1);
        if confirms(a[n - 1], term) { before.push(a[n - 1].voter@) } else { before }
    }
}

/// The highest of `term` and what the first `n` voters report.
pub open spec fn highest(a: Seq<Answer>, term: u64, n: int) -> u64
    decreases n,
{
    if n <= 0 {
        term
    } else {
        let before = highest(a, term, n - 1);
        match a[n - 1].said {
            Some((t, _)) => if t > before { t } else { before },
            None => before,
        }
    }
}

/// What a round of heartbeats established.
#[derive(Clone, Copy, Debug, PartialEq, Eq, Structural)]
pub enum Confirmation {
    Confirmed,
    /// A voter is at this higher term: step down instead of answering the read.
    Deposed(u64),
    Unconfirmed,
}

/// What a round establishes.
pub open spec fn confirmation(c: ConfigurationView, own: Seq<char>, term: u64, a: Seq<Answer>) -> Confirmation {
    let top = highest(a, term, a.len() as int);
    if c.decided(nodes(seq![own])) {
        Confirmation::Confirmed
    } else if top > term {
        Confirmation::Deposed(top)
    } else if c.decided(nodes(seq![own] + confirming(a, term, a.len() as int))) {
        Confirmation::Confirmed
    } else {
        Confirmation::Unconfirmed
    }
}

/// One round of heartbeats, counted by identity. A voter reporting a term at or below ours has not
/// moved to a higher one, and a leader elected above ours would have needed a majority to do so; two
/// majorities intersect, so a majority answering at our term rules that out. A lone voter is its own
/// quorum and asks nobody.
pub fn confirm_with_quorum(config: &Configuration, own: &str, term: u64, answers: &Vec<Answer>) -> (r: Confirmation)
    ensures
        r == confirmation(config@, own@, term, answers@),
{
    let mut granted: Vec<String> = Vec::new();
    granted.push(own.to_owned());
    assert(texts(granted@) =~= seq![own@]);
    if config.has_quorum(granted.as_slice()) {
        return Confirmation::Confirmed;
    }
    let mut top: u64 = term;
    let mut i: usize = 0;
    assert(texts(granted@) =~= seq![own@] + confirming(answers@, term, 0));
    while i < answers.len()
        invariant
            i <= answers@.len(),
            top == highest(answers@, term, i as int),
            texts(granted@) == seq![own@] + confirming(answers@, term, i as int),
        decreases answers@.len() - i,
    {
        let ghost before = texts(granted@);
        if let Some((t, primary)) = answers[i].said {
            if t > top {
                top = t;
            }
            if t <= term && !(t == term && primary) {
                granted.push(answers[i].voter.clone());
                assert(texts(granted@) =~= before.push(answers@[i as int].voter@));
                assert(before.push(answers@[i as int].voter@) =~= seq![own@] + confirming(answers@, term, i + 1));
            }
        }
        i += 1;
    }
    if top > term {
        return Confirmation::Deposed(top);
    }
    if config.has_quorum(granted.as_slice()) {
        Confirmation::Confirmed
    } else {
        Confirmation::Unconfirmed
    }
}

/// What a voter's heartbeat says: nothing, where it gives no term.
pub open spec fn said_in(body: Option<JsonView>) -> Option<(u64, bool)> {
    match body {
        Some(b) => match b.member("term"@) {
            Some(t) => match t.number() {
                Some(n) => Some((n, b.member("role"@) == Some(JsonView::Str("primary"@)))),
                None => None,
            },
            None => None,
        },
        None => None,
    }
}

/// A voter's answer, from the heartbeat that came back, where one did.
pub fn heartbeat_answer(voter: String, body: Option<&Json>) -> (r: Answer)
    requires
        body is Some ==> body->0@.wf(),
    ensures
        r.voter@ == voter@,
        r.said == said_in(
            match body {
                Some(b) => Some(b@),
                None => None,
            },
        ),
{
    let said = match body {
        Some(b) => {
            let primary = match b.get("role") {
                Some(role) => match role.as_str() {
                    Some(text) => same_text(text, "primary"),
                    None => false,
                },
                None => false,
            };
            match b.get("term") {
                Some(t) => match t.as_u64() {
                    Some(n) => Some((n, primary)),
                    None => None,
                },
                None => None,
            }
        },
        None => None,
    };
    Answer { voter, said }
}

/// Whether leadership stands after a round.
pub open spec fn leadership(holds_read_lease: bool, round: Confirmation, is_leader: bool) -> Result<(), ReadRefusal> {
    if holds_read_lease {
        Ok(())
    } else {
        match round {
            Confirmation::Deposed(_) => Err(ReadRefusal::NotLeader),
            Confirmation::Unconfirmed => Err(ReadRefusal::Unconfirmed),
            Confirmation::Confirmed => if is_leader { Ok(()) } else { Err(ReadRefusal::NotLeader) },
        }
    }
}

/// The lease first: it establishes exactly what the round would, that no voter can have elected
/// anyone else. After a round leadership is looked at again: a demotion during it means that the
/// confirmation was for a term this node no longer holds.
pub fn confirm_leadership(holds_read_lease: bool, round: Confirmation, is_leader: bool) -> (r: Result<(), ReadRefusal>)
    ensures
        r == leadership(holds_read_lease, round, is_leader),
{
    if holds_read_lease {
        return Ok(());
    }
    match round {
        Confirmation::Deposed(_) => Err(ReadRefusal::NotLeader),
        Confirmation::Unconfirmed => Err(ReadRefusal::Unconfirmed),
        Confirmation::Confirmed => if is_leader { Ok(()) } else { Err(ReadRefusal::NotLeader) },
    }
}

/// Whether local state has reached an index.
#[derive(Clone, Copy, Debug, PartialEq, Eq, Structural)]
pub enum ApplyStep {
    Reached,
    Wait,
    TimedOut,
}

pub fn wait_for_applied(applied_lsn: u64, index: u64, now: u64, deadline: u64) -> (r: ApplyStep)
    ensures
        r == (if applied_lsn >= index {
            ApplyStep::Reached
        } else if now >= deadline {
            ApplyStep::TimedOut
        } else {
            ApplyStep::Wait
        }),
{
    if applied_lsn >= index {
        ApplyStep::Reached
    } else if now >= deadline {
        ApplyStep::TimedOut
    } else {
        ApplyStep::Wait
    }
}

// ---- The read index ----

/// What a read is waiting for.
#[derive(Clone, Copy, Debug, PartialEq, Eq, Structural)]
pub enum ReadPhase {
    Start,
    /// Leadership to be confirmed, for a collection that may have no log.
    Confirming { index: u64, has_log: bool },
    /// Local state to reach the index.
    Applying { index: u64, deadline: u64 },
    Over,
}

/// What a leader knows of a collection: nothing was ever written, or its index.
#[derive(Clone, Copy, Debug, PartialEq, Eq, Structural)]
pub enum IndexSample {
    NoCollection,
    /// How many entries are staged, whether an entry of this term has committed, and the commit index.
    Log { pending_len: usize, current_term_commit: bool, committed: u64 },
}

/// What happened outside.
#[derive(Clone, Copy, Debug, PartialEq, Eq)]
pub enum ReadEvent {
    Asked { is_leader: bool, sample: IndexSample },
    Confirmed { outcome: Result<(), ReadRefusal>, is_leader: bool, now: u64 },
    Looked { applied_lsn: u64, now: u64, is_leader: bool },
}

/// What to do next.
#[derive(Clone, Copy, Debug, PartialEq, Eq)]
pub enum ReadAction {
    ConfirmLeadership,
    /// Look how far local state is, after a little while where it is not there yet.
    LookApplied,
    Answer(Result<u64, ReadRefusal>),
}

/// The answer to give while leadership is looked at once more.
pub open spec fn concluded(index: u64, is_leader: bool) -> (ReadPhase, ReadAction) {
    (
        ReadPhase::Over,
        ReadAction::Answer(if is_leader { Ok(index) } else { Err(ReadRefusal::NotLeader) }),
    )
}

pub open spec fn refused(why: ReadRefusal) -> (ReadPhase, ReadAction) {
    (ReadPhase::Over, ReadAction::Answer(Err(why)))
}

/// The state and the action after an event. The index is sampled before leadership is confirmed, so a
/// write landing during a round cannot be required; the confirmation rules out a newer leader; the
/// wait makes the index readable and not merely known. An event that the read is not waiting for
/// refuses it.
pub open spec fn read_next(phase: ReadPhase, event: ReadEvent) -> (ReadPhase, ReadAction) {
    match (phase, event) {
        (ReadPhase::Start, ReadEvent::Asked { is_leader, sample }) => if !is_leader {
            refused(ReadRefusal::NotLeader)
        } else {
            match sample {
                IndexSample::NoCollection => (
                    ReadPhase::Confirming { index: 0, has_log: false },
                    ReadAction::ConfirmLeadership,
                ),
                IndexSample::Log { pending_len, current_term_commit, committed } => if complete(pending_len, current_term_commit) {
                    (ReadPhase::Confirming { index: committed, has_log: true }, ReadAction::ConfirmLeadership)
                } else {
                    refused(ReadRefusal::TermTooNew)
                },
            }
        },
        (ReadPhase::Confirming { index, has_log }, ReadEvent::Confirmed { outcome, is_leader, now }) => match outcome {
            Err(why) => refused(why),
            Ok(_) => if has_log {
                (
                    ReadPhase::Applying {
                        index,
                        deadline: if now + APPLY_TIMEOUT <= u64::MAX { (now + APPLY_TIMEOUT) as u64 } else { u64::MAX },
                    },
                    ReadAction::LookApplied,
                )
            } else {
                concluded(index, is_leader)
            },
        },
        (ReadPhase::Applying { index, deadline }, ReadEvent::Looked { applied_lsn, now, is_leader }) => if applied_lsn >= index {
            concluded(index, is_leader)
        } else if now >= deadline {
            refused(ReadRefusal::ApplyTimeout)
        } else {
            (phase, ReadAction::LookApplied)
        },
        _ => refused(ReadRefusal::NotLeader),
    }
}

/// One step towards the point at which a linearizable read may be answered. Leadership is looked at
/// once more at the end: every check before is in the past by then.
pub fn read_index(phase: ReadPhase, event: ReadEvent) -> (r: (ReadPhase, ReadAction))
    ensures
        r == read_next(phase, event),
{
    match (phase, event) {
        (ReadPhase::Start, ReadEvent::Asked { is_leader, sample }) => {
            if !is_leader {
                return (ReadPhase::Over, ReadAction::Answer(Err(ReadRefusal::NotLeader)));
            }
            match sample {
                IndexSample::NoCollection => (
                    ReadPhase::Confirming { index: 0, has_log: false },
                    ReadAction::ConfirmLeadership,
                ),
                IndexSample::Log { pending_len, current_term_commit, committed } => if index_is_complete(pending_len, current_term_commit) {
                    (ReadPhase::Confirming { index: committed, has_log: true }, ReadAction::ConfirmLeadership)
                } else {
                    (ReadPhase::Over, ReadAction::Answer(Err(ReadRefusal::TermTooNew)))
                },
            }
        },
        (ReadPhase::Confirming { index, has_log }, ReadEvent::Confirmed { outcome, is_leader, now }) => match outcome {
            Err(why) => (ReadPhase::Over, ReadAction::Answer(Err(why))),
            Ok(_) => if has_log {
                (ReadPhase::Applying { index, deadline: now.saturating_add(APPLY_TIMEOUT) }, ReadAction::LookApplied)
            } else if is_leader {
                (ReadPhase::Over, ReadAction::Answer(Ok(index)))
            } else {
                (ReadPhase::Over, ReadAction::Answer(Err(ReadRefusal::NotLeader)))
            },
        },
        (ReadPhase::Applying { index, deadline }, ReadEvent::Looked { applied_lsn, now, is_leader }) => {
            match wait_for_applied(applied_lsn, index, now, deadline) {
                ApplyStep::Reached => if is_leader {
                    (ReadPhase::Over, ReadAction::Answer(Ok(index)))
                } else {
                    (ReadPhase::Over, ReadAction::Answer(Err(ReadRefusal::NotLeader)))
                },
                ApplyStep::TimedOut => (ReadPhase::Over, ReadAction::Answer(Err(ReadRefusal::ApplyTimeout))),
                ApplyStep::Wait => (phase, ReadAction::LookApplied),
            }
        },
        _ => (ReadPhase::Over, ReadAction::Answer(Err(ReadRefusal::NotLeader))),
    }
}

/// What a read learns of leadership: from the lease where it holds, and else from a round of answers
/// of the configuration's voters, counted against that configuration.
pub fn confirm_read(
    holds_read_lease: bool,
    config: &Configuration,
    own: &str,
    term: u64,
    answers: &Vec<Answer>,
    is_leader: bool,
    now: u64,
) -> (r: ReadEvent)
    ensures
        r == (ReadEvent::Confirmed {
            outcome: leadership(holds_read_lease, confirmation(config@, own@, term, answers@), is_leader),
            is_leader,
            now,
        }),
{
    let round = confirm_with_quorum(config, own, term, answers);
    ReadEvent::Confirmed { outcome: confirm_leadership(holds_read_lease, round, is_leader), is_leader, now }
}

// ---- Laws ----

/// A read that goes on, or is answered, after its leadership was looked into rests on the lease or on a
/// confirmed round of a node that still leads.
pub proof fn law_a_read_rests_on_a_lease_or_a_quorum(
    phase: ReadPhase,
    holds_read_lease: bool,
    c: ConfigurationView,
    own: Seq<char>,
    term: u64,
    a: Seq<Answer>,
    is_leader: bool,
    now: u64,
)
    ensures
        ({
            let outcome = leadership(holds_read_lease, confirmation(c, own, term, a), is_leader);
            let next = read_next(phase, ReadEvent::Confirmed { outcome, is_leader, now });
            next.0 is Applying || next.1->Answer_0 is Ok ==> holds_read_lease || (confirmation(c, own, term, a)
                == Confirmation::Confirmed && is_leader)
        }),
{
}

/// A read is answered only by a node that leads at the end, with local state at the index.
pub proof fn law_an_answer_is_applied_and_led(phase: ReadPhase, event: ReadEvent, index: u64)
    requires
        read_next(phase, event).1 == ReadAction::Answer(Ok(index)),
    ensures
        match (phase, event) {
            (ReadPhase::Confirming { index: i, has_log }, ReadEvent::Confirmed { outcome, is_leader, now }) => i == index
                && !has_log && outcome is Ok && is_leader,
            (ReadPhase::Applying { index: i, deadline }, ReadEvent::Looked { applied_lsn, now, is_leader }) => i == index
                && applied_lsn >= index && is_leader,
            _ => false,
        },
{
}

/// Local state is waited for only after leadership was confirmed, and for the index sampled before.
pub proof fn law_the_index_is_confirmed_before_it_is_waited_for(phase: ReadPhase, event: ReadEvent)
    ensures
        (phase is Start || phase is Confirming) && read_next(phase, event).0 is Applying ==> phase is Confirming
            && event is Confirmed && event->outcome is Ok && read_next(phase, event).0->Applying_index == phase->Confirming_index,
        phase is Start && read_next(phase, event).0 is Confirming ==> event is Asked && event->Asked_is_leader && (match event->sample {
            IndexSample::NoCollection => read_next(phase, event).0->Confirming_index == 0,
            IndexSample::Log { pending_len, current_term_commit, committed } => complete(pending_len, current_term_commit) && read_next(phase, event).0->Confirming_index == committed,
        }),
{
}

/// Whoever confirms answered at no higher term and does not claim this one.
proof fn lemma_confirming(a: Seq<Answer>, term: u64, n: int, k: int)
    requires
        0 <= n <= a.len(),
        0 <= k < confirming(a, term, n).len(),
    ensures
        exists|i: int| 0 <= i < n && confirms(#[trigger] a[i], term) && a[i].voter@ == confirming(a, term, n)[k],
    decreases n,
{
    if n > 0 {
        let before = confirming(a, term, n - 1);
        if k < before.len() {
            lemma_confirming(a, term, n - 1, k);
        } else {
            assert(confirms(a[n - 1], term));
        }
    }
}

/// A confirmed round leaves no room for another leader: every quorum that could have elected one at a
/// higher term includes this node or a voter that answered at no higher term.
pub proof fn law_a_confirmed_round_excludes_another_leader(
    c: ConfigurationView,
    own: Seq<char>,
    term: u64,
    a: Seq<Answer>,
    electors: Set<Seq<char>>,
) -> (n: Seq<char>)
    requires
        nodes(c.voters).len() > 0,
        confirmation(c, own, term, a) == Confirmation::Confirmed,
        c.decided(electors),
    ensures
        electors.contains(n),
        n == crate::endpoint::node(own) || exists|i: int| 0 <= i < a.len() && confirms(#[trigger] a[i], term)
            && crate::endpoint::node(a[i].voter@) == n,
{
    let alone = seq![own];
    let yes = confirming(a, term, a.len() as int);
    let both = seq![own] + yes;
    if c.decided(nodes(alone)) {
        let n = super::config::law_quorums_meet(c, nodes(alone), electors);
        let k = choose|k: int| 0 <= k < alone.len() && crate::endpoint::node(#[trigger] alone[k]) == n;
        n
    } else {
        let n = super::config::law_quorums_meet(c, nodes(both), electors);
        let k = choose|k: int| 0 <= k < both.len() && crate::endpoint::node(#[trigger] both[k]) == n;
        if k > 0 {
            assert(both[k] == yes[k - 1]);
            lemma_confirming(a, term, a.len() as int, k - 1);
        }
        n
    }
}

/// A read after the first `n` of some events.
pub open spec fn read_after(events: Seq<ReadEvent>, n: int) -> ReadPhase
    decreases n,
{
    if n <= 0 { ReadPhase::Start } else { read_next(read_after(events, n - 1), events[n - 1]).0 }
}

/// Whether an event is the sampling of an index by a leader that may answer it.
pub open spec fn sampled(event: ReadEvent, index: u64, has_log: bool) -> bool {
    &&& event is Asked && event->Asked_is_leader
    &&& match event->sample {
        IndexSample::Log { pending_len, current_term_commit, committed } => has_log && complete(pending_len, current_term_commit)
            && committed == index,
        IndexSample::NoCollection => !has_log,
    }
}

/// Whether an event is a confirmation of leadership.
pub open spec fn confirmed(event: ReadEvent) -> bool {
    event is Confirmed && event->outcome is Ok
}

proof fn lemma_read_phases(events: Seq<ReadEvent>, n: int)
    requires
        0 <= n <= events.len(),
    ensures
        match read_after(events, n) {
            ReadPhase::Confirming { index, has_log } => n == 1 && sampled(events[0], index, has_log) && (!has_log ==> index == 0),
            ReadPhase::Applying { index, deadline } => n >= 2 && sampled(events[0], index, true) && confirmed(events[1]),
            ReadPhase::Start => n == 0,
            ReadPhase::Over => true,
        },
    decreases n,
{
    if n > 0 {
        lemma_read_phases(events, n - 1);
    }
}

/// Whatever happens on the way, a read that is answered was sampled first, by a leader, then confirmed,
/// and, where there is a log, applied up to its index last, by a node that still led.
pub proof fn law_a_read_is_answered_at_a_confirmed_index(events: Seq<ReadEvent>, n: int, index: u64)
    requires
        0 < n <= events.len(),
        read_next(read_after(events, n - 1), events[n - 1]).1 == ReadAction::Answer(Ok(index)),
    ensures
        n >= 2,
        confirmed(events[1]),
        sampled(events[0], index, true) && n >= 3 && events[n - 1] is Looked && events[n - 1]->applied_lsn >= index
            && events[n - 1]->Looked_is_leader || sampled(events[0], 0, false) && index == 0 && n == 2
            && events[1]->Confirmed_is_leader,
{
    lemma_read_phases(events, n - 1);
}

/// Everybody whose answer confirms the term counts, and nobody else: whoever answers at a higher term,
/// claims to lead at this one, or does not answer confirms nothing.
pub proof fn law_whoever_confirms_counts(a: Seq<Answer>, term: u64, n: int, voter: Seq<char>)
    requires
        0 <= n <= a.len(),
    ensures
        confirming(a, term, n).contains(voter) <==> exists|i: int|
            0 <= i < n && (#[trigger] a[i]).voter@ == voter && a[i].said is Some && (a[i].said->0).0 <= term && !((a[i].said->0).0 == term
                && (a[i].said->0).1),
    decreases n,
{
    lemma_joined_hold::<Seq<char>>();
    if n > 0 {
        law_whoever_confirms_counts(a, term, n - 1, voter);
    }
}

/// The highest term is over every answer: none told a higher one, and it is this node's or somebody
/// told it.
pub proof fn law_the_highest_term_is_over_every_answer(a: Seq<Answer>, term: u64, n: int)
    requires
        0 <= n <= a.len(),
    ensures
        highest(a, term, n) >= term,
        forall|i: int| 0 <= i < n && (#[trigger] a[i]).said is Some ==> (a[i].said->0).0 <= highest(a, term, n),
        highest(a, term, n) == term || exists|i: int| 0 <= i < n && (#[trigger] a[i]).said is Some && (a[i].said->0).0 == highest(a, term, n),
    decreases n,
{
    if n > 0 {
        law_the_highest_term_is_over_every_answer(a, term, n - 1);
        if highest(a, term, n) == highest(a, term, n - 1) && highest(a, term, n) != term {
            let i = choose|i: int| 0 <= i < n - 1 && (#[trigger] a[i]).said is Some && (a[i].said->0).0 == highest(a, term, n - 1);
            assert(a[i].said is Some);
        }
    }
}

/// A round is confirmed by this node with those who confirm, where nobody told a higher term; one who
/// told a higher term deposes.
pub proof fn law_what_a_round_says(c: ConfigurationView, own: Seq<char>, term: u64, a: Seq<Answer>)
    requires
        !c.decided(nodes(seq![own])),
    ensures
        (exists|i: int| 0 <= i < a.len() && (#[trigger] a[i]).said is Some && (a[i].said->0).0 > term) <==> confirmation(c, own, term, a)
            is Deposed,
        confirmation(c, own, term, a) is Confirmed <==> !(confirmation(c, own, term, a) is Deposed) && c.decided(
            nodes(seq![own] + confirming(a, term, a.len() as int)),
        ),
{
    law_the_highest_term_is_over_every_answer(a, term, a.len() as int);
}

/// An answer is heard where it tells its term, and it claims to lead exactly where it says that it is
/// the primary.
pub proof fn law_what_an_answer_says(body: Option<JsonView>)
    ensures
        said_in(body) is Some <==> body is Some && (body->0).member("term"@) is Some && ((body->0).member("term"@)->0).number() is Some,
        said_in(body) is Some ==> (said_in(body)->0).0 == ((body->0).member("term"@)->0).number()->0,
        said_in(body) is Some ==> ((said_in(body)->0).1 <==> (body->0).member("role"@) == Some(JsonView::Str("primary"@))),
{
}

/// A read goes through its steps: only a leader whose log is known to be whole takes an index, which is
/// what is committed; it is waited for until the deadline, and answered once it is applied here.
pub proof fn law_what_each_step_of_a_read_does(phase: ReadPhase, event: ReadEvent)
    ensures
        ({
            let (after, action) = read_next(phase, event);
            let asked = phase is Start && event is Asked;
            let log = event->sample;
            let confirmed = phase is Confirming && event is Confirmed;
            let looked = phase is Applying && event is Looked;
            &&& asked && !event->Asked_is_leader ==> action == ReadAction::Answer(Err(ReadRefusal::NotLeader))
            &&& asked && event->Asked_is_leader && log is NoCollection ==> action is ConfirmLeadership && after == (ReadPhase::Confirming {
                index: 0,
                has_log: false,
            })
            &&& asked && event->Asked_is_leader && log is Log && (log->pending_len == 0 || log->current_term_commit) ==> action
                is ConfirmLeadership && after == (ReadPhase::Confirming { index: log->committed, has_log: true })
            &&& asked && event->Asked_is_leader && log is Log && log->pending_len > 0 && !log->current_term_commit ==> action
                == ReadAction::Answer(Err(ReadRefusal::TermTooNew))
            &&& confirmed && event->outcome is Err ==> action == ReadAction::Answer(Err(event->outcome->Err_0))
            &&& confirmed && event->outcome is Ok && phase->has_log ==> action is LookApplied && after is Applying && after->Applying_index
                == phase->Confirming_index && (event->Confirmed_now + APPLY_TIMEOUT <= u64::MAX ==> after->deadline == event->Confirmed_now
                + APPLY_TIMEOUT)
            &&& confirmed && event->outcome is Ok && !phase->has_log && event->Confirmed_is_leader ==> action == ReadAction::Answer(
                Ok(phase->Confirming_index),
            )
            &&& looked && event->applied_lsn >= phase->Applying_index && event->Looked_is_leader ==> action == ReadAction::Answer(
                Ok(phase->Applying_index),
            )
            &&& looked && event->applied_lsn >= phase->Applying_index && !event->Looked_is_leader ==> action == ReadAction::Answer(
                Err(ReadRefusal::NotLeader),
            )
            &&& looked && event->applied_lsn < phase->Applying_index && event->Looked_now >= phase->deadline ==> action
                == ReadAction::Answer(Err(ReadRefusal::ApplyTimeout))
            &&& looked && event->applied_lsn < phase->Applying_index && event->Looked_now < phase->deadline ==> action is LookApplied
                && after == phase
        }),
{
}

/// Leadership is taken as confirmed under a lease, or by a round that confirmed it while this node still
/// leads; what stands against it is told.
pub proof fn law_how_leadership_is_confirmed(lease: bool, round: Confirmation, is_leader: bool)
    ensures
        leadership(lease, round, is_leader) is Ok <==> lease || (round is Confirmed && is_leader),
        !lease && round is Unconfirmed ==> leadership(lease, round, is_leader) == Err::<(), ReadRefusal>(ReadRefusal::Unconfirmed),
        !lease && (round is Deposed || (round is Confirmed && !is_leader)) ==> leadership(lease, round, is_leader) == Err::<(), ReadRefusal>(
            ReadRefusal::NotLeader,
        ),
{
}

} // verus!
