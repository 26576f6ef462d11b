//! Leadership transfer: a leader hands office to a voter that can take it. Hold writes, catch the
//! target up, then tell it to stand now, past the pre-vote and past every voter's lease.

use super::config::{canon, Configuration, ConfigurationView};
use super::progress::{Progress, ProgressView};
use crate::endpoint::{list_names, names, node, same_endpoint, same_node};
use crate::lists::{lemma_joined_hold, lemma_take_all, lemma_take_grows};
use crate::text::{cat2, cat3, debug_list, debug_texts, opt_text, texts};
use vstd::prelude::*;

verus! {

/// The whole handover, catch-up included, in nanoseconds. Bounded because writes are held for its
/// length.
pub const TRANSFER_TIMEOUT: u64 = 5_000_000_000;

/// How long in-flight writes get to finish before the barrier gives up. Separate from the transfer
/// budget: this one is spent before anything has been decided, so a refusal here costs nothing.
pub const DRAIN_TIMEOUT: u64 = 2_000_000_000;

/// Between two attempts to catch the target up, in milliseconds.
pub const CATCH_UP_POLL_MS: u64 = 20;

/// Between two looks whether this node was deposed, in milliseconds.
pub const HANDOVER_POLL_MS: u64 = 20;

/// How long the target gets to answer that it will stand, in milliseconds.
pub const TIMEOUT_NOW_TIMEOUT_MS: u64 = 1000;

pub struct TimeoutNowRequest {
    pub term: u64,
    /// The leader standing aside. A voter checks it against the leader it is following, so the
    /// request carries no authority a node could not already spend.
    pub leader: String,
}

#[derive(Debug, PartialEq, Eq)]
pub enum TransferError {
    /// Nothing was attempted and this node still leads.
    Refused(String),
    /// The handover was attempted and did not complete. This node still leads, unless it lost office
    /// for an unrelated reason while trying.
    Failed(String),
}

pub ghost enum TransferErrorView {
    Refused(Seq<char>),
    Failed(Seq<char>),
}

impl View for TransferError {
    type V = TransferErrorView;

    open spec fn view(&self) -> TransferErrorView {
        match *self {
            TransferError::Refused(s) => TransferErrorView::Refused(s@),
            TransferError::Failed(s) => TransferErrorView::Failed(s@),
        }
    }
}

impl TransferError {
    pub fn why(&self) -> (r: &str)
        ensures
            r@ == (match self@ {
                TransferErrorView::Refused(s) => s,
                TransferErrorView::Failed(s) => s,
            }),
    {
        match self {
            TransferError::Refused(why) => why.as_str(),
            TransferError::Failed(why) => why.as_str(),
        }
    }
}

// ---- Who can take over ----

/// Whether a node could take over: a voter of every half, not this node, and among those asked for.
pub open spec fn could_take_over(c: ConfigurationView, own: Seq<char>, among: Seq<Seq<char>>, url: Seq<char>) -> bool {
    &&& !same_node(url, own)
    &&& names(c.voters, node(url))
    &&& c.outgoing is Some ==> names(c.outgoing->0, node(url))
    &&& names(among, node(url))
}

/// The members, in order, that could take over.
pub open spec fn eligible(c: ConfigurationView, own: Seq<char>, among: Seq<Seq<char>>, members: Seq<Seq<char>>) -> Seq<Seq<char>>
    decreases members.len(),
{
    if members.len() == 0 {
        Seq::empty()
    } else {
        let before = eligible(c, own, among, members.drop_last());
        if could_take_over(c, own, among, members.last()) { before.push(members.last()) } else { before }
    }
}

/// Who could take over, out of `among`: the voters of the configuration in force, this node excluded.
/// While joint that means both halves: a target in one half cannot win.
pub fn eligible_targets(quorum: &Configuration, own: &str, among: &[String]) -> (r: Vec<String>)
    ensures
        texts(r@) == eligible(quorum@, own@, texts(among@), canon(quorum@.all())),
{
    let members = quorum.members();
    let ghost all = texts(members@);
    let ghost asked = texts(among@);
    let mut out: Vec<String> = Vec::new();
    let mut i: usize = 0;
    assert(all.take(0) =~= Seq::empty());
    assert(texts(out@) =~= eligible(quorum@, own@, asked, all.take(0)));
    while i < members.len()
        invariant
            all == texts(members@),
            asked == texts(among@),
            i <= members@.len(),
            texts(out@) == eligible(quorum@, own@, asked, all.take(i as int)),
        decreases members@.len() - i,
    {
        proof {
            lemma_take_grows(all, i as int);
        }
        let m = members[i].as_str();
        let in_old = match &quorum.outgoing {
            Some(old) => list_names(old.as_slice(), m),
            None => true,
        };
        let ghost before = texts(out@);
        if !same_endpoint(m, own) && list_names(quorum.voters.as_slice(), m) && in_old && list_names(among, m) {
            out.push(members[i].clone());
            assert(texts(out@) =~= before.push(m@));
        }
        i += 1;
    }
    proof {
        lemma_take_all(all);
    }
    out
}

/// How far a target is behind on one collection.
pub open spec fn lag_on(p: ProgressView, target: Seq<char>, tail: (Seq<char>, u64)) -> u64 {
    let held = p.holds(target, tail.0);
    if held <= tail.1 { (tail.1 - held) as u64 } else { 0 }
}

/// How far a target is behind on its worst collection.
pub open spec fn worst_lag(p: ProgressView, target: Seq<char>, tails: Seq<(Seq<char>, u64)>) -> u64
    decreases tails.len(),
{
    if tails.len() == 0 {
        0
    } else {
        let rest = worst_lag(p, target, tails.drop_last());
        let last = if tails.last().1 > 0 { lag_on(p, target, tails.last()) } else { 0 };
        if rest < last { last } else { rest }
    }
}

/// The contents of a list of tails.
pub open spec fn tail_list(v: Seq<(String, u64)>) -> Seq<(Seq<char>, u64)> {
    Seq::new(v.len(), |i: int| (v[i].0@, v[i].1))
}

/// Whether the target at `i` is the readiest: none lags less, and it stands last among equals.
pub open spec fn readiest(p: ProgressView, among: Seq<Seq<char>>, tails: Seq<(Seq<char>, u64)>, i: int) -> bool {
    &&& 0 <= i < among.len()
    &&& forall|j: int| 0 <= j < among.len() ==> worst_lag(p, among[i], tails) <= worst_lag(p, #[trigger] among[j], tails)
        && (j > i ==> worst_lag(p, among[i], tails) < worst_lag(p, among[j], tails))
}

/// The readiest of some targets; the first where there are no tails to measure by.
pub open spec fn best_of(p: ProgressView, among: Seq<Seq<char>>, tails: Option<Seq<(Seq<char>, u64)>>) -> Option<Seq<char>> {
    if among.len() == 0 {
        None
    } else {
        match tails {
            None => Some(among[0]),
            Some(ts) => Some(among[choose|i: int| readiest(p, among, ts, i)]),
        }
    }
}

/// The contents of a list of tails that may be absent.
pub open spec fn opt_tails(v: Option<&Vec<(String, u64)>>) -> Option<Seq<(Seq<char>, u64)>> {
    match v {
        Some(t) => Some(tail_list(t@)),
        None => None,
    }
}

/// One target is the readiest, and it is the one that is named.
proof fn lemma_one_readiest(p: ProgressView, among: Seq<Seq<char>>, tails: Seq<(Seq<char>, u64)>, i: int)
    requires
        readiest(p, among, tails, i),
    ensures
        best_of(p, among, Some(tails)) == Some(among[i]),
{
    let j = choose|j: int| readiest(p, among, tails, j);
    assert(readiest(p, among, tails, j));
    if i < j {
        assert(worst_lag(p, among[i], tails) < worst_lag(p, among[j], tails));
    } else if j < i {
        assert(worst_lag(p, among[j], tails) < worst_lag(p, among[i], tails));
    }
}

fn worst(progress: &Progress, target: &str, tails: &Vec<(String, u64)>) -> (r: u64)
    ensures
        r == worst_lag(progress@, target@, tail_list(tails@)),
{
    let ghost ts = tail_list(tails@);
    let mut w: u64 = 0;
    let mut i: usize = 0;
    assert(ts.take(0) =~= Seq::empty());
    while i < tails.len()
        invariant
            ts == tail_list(tails@),
            i <= tails@.len(),
            w == worst_lag(progress@, target@, ts.take(i as int)),
        decreases tails@.len() - i,
    {
        proof {
            lemma_take_grows(ts, i as int);
        }
        let tail: u64 = tails[i].1;
        let lag: u64 = tail.saturating_sub(progress.matched(target, tails[i].0.as_str()));
        if lag > w {
            w = lag;
        }
        i += 1;
    }
    proof {
        lemma_take_all(ts);
    }
    w
}

/// The readiest of them, measured by the collection each is furthest *behind* on: a target is only as
/// ready as its worst log, since one voter holding an entry it lacks is enough to refuse it. Without
/// storage there is nothing to measure, and the first will do.
pub fn best_target(among: &[String], tails: Option<&Vec<(String, u64)>>, progress: &Progress) -> (r: Option<String>)
    ensures
        opt_text(r) == best_of(progress@, texts(among@), opt_tails(tails)),
        r is None <==> among@.len() == 0,
        r is Some && tails is None ==> r->0@ == among@[0]@,
        r is Some && tails is Some ==> exists|i: int| readiest(progress@, texts(among@), tail_list(tails->0@), i)
            && r->0@ == (#[trigger] texts(among@)[i]),
{
    if among.len() == 0 {
        return None;
    }
    match tails {
        None => Some(among[0].clone()),
        Some(tails) => {
            let ghost all = texts(among@);
            let ghost ts = tail_list(tails@);
            let mut best: usize = 0;
            let mut least: u64 = worst(progress, among[0].as_str(), tails);
            let mut i: usize = 1;
            assert(all[0] == among@[0]@);
            while i < among.len()
                invariant
                    all == texts(among@),
                    ts == tail_list(tails@),
                    best < i <= among@.len(),
                    least == worst_lag(progress@, all[best as int], ts),
                    forall|j: int| 0 <= j < i ==> least <= worst_lag(progress@, #[trigger] all[j], ts)
                        && (j > best ==> least < worst_lag(progress@, all[j], ts)),
                decreases among@.len() - i,
            {
                let w: u64 = worst(progress, among[i].as_str(), tails);
                assert(all[i as int] == among@[i as int]@);
                if w <= least {
                    least = w;
                    best = i;
                }
                i += 1;
            }
            assert(readiest(progress@, all, ts, best as int));
            assert(all[best as int] == among@[best as int]@);
            proof {
                lemma_one_readiest(progress@, all, ts, best as int);
            }
            Some(among[best].clone())
        },
    }
}

// ---- The handover ----

/// What a handover is waiting for.
#[derive(Clone, Copy, Debug, PartialEq, Eq, Structural)]
pub enum TransferPhase {
    Draining,
    CatchingUp,
    Asking,
    Awaiting,
    Over,
}

/// A handover under way, to `target` at `term`. Times are monotonic nanoseconds.
pub struct Transfer {
    pub target: String,
    pub term: u64,
    pub phase: TransferPhase,
    pub deadline: u64,
}

pub ghost struct TransferView {
    pub target: Seq<char>,
    pub term: u64,
    pub phase: TransferPhase,
    pub deadline: u64,
}

impl View for Transfer {
    type V = TransferView;

    open spec fn view(&self) -> TransferView {
        TransferView { target: self.target@, term: self.term, phase: self.phase, deadline: self.deadline }
    }
}

/// What happened outside.
pub enum TransferEvent {
    /// In-flight writes did not finish in time.
    DrainTimedOut,
    /// Writes are held.
    Drained { is_leader: bool, current_term: u64, pending: bool, now: u64 },
    /// One attempt to catch the target up.
    CaughtUp { done: bool, is_leader: bool, current_term: u64, now: u64 },
    /// The target was told to stand and agreed.
    AskedOk,
    /// It answered with this status.
    AskRefused { status: String },
    /// It could not be reached, for this reason.
    AskFailed { error: String },
    /// Some time passed.
    Looked { is_leader: bool, current_term: u64, now: u64 },
}

/// What to do next.
pub enum TransferAction {
    /// Try to catch the target up.
    CatchUp,
    /// Wait a little, then try again.
    PauseThenCatchUp,
    /// Mark the handover, so that no read rests on a lease any more, and tell the target to stand.
    AskTarget,
    /// Wait a little, then look whether this node was deposed.
    PauseThenLook,
    /// The target took office: follow it.
    Done(String),
    Fail(TransferError),
}

pub ghost enum TransferActionView {
    CatchUp,
    PauseThenCatchUp,
    AskTarget,
    PauseThenLook,
    Done(Seq<char>),
    Fail(TransferErrorView),
}

impl View for TransferAction {
    type V = TransferActionView;

    open spec fn view(&self) -> TransferActionView {
        match *self {
            TransferAction::CatchUp => TransferActionView::CatchUp,
            TransferAction::PauseThenCatchUp => TransferActionView::PauseThenCatchUp,
            TransferAction::AskTarget => TransferActionView::AskTarget,
            TransferAction::PauseThenLook => TransferActionView::PauseThenLook,
            TransferAction::Done(t) => TransferActionView::Done(t@),
            TransferAction::Fail(e) => TransferActionView::Fail(e@),
        }
    }
}

/// What choosing a target came to, by its contents.
pub open spec fn choice(r: Result<String, TransferError>) -> Result<Seq<char>, TransferErrorView> {
    match r {
        Ok(t) => Ok(t@),
        Err(e) => Err(e@),
    }
}

/// The first of some URLs that names the node of `url`.
pub open spec fn first_at_node(urls: Seq<Seq<char>>, url: Seq<char>) -> Option<Seq<char>>
    decreases urls.len(),
{
    if urls.len() == 0 {
        None
    } else if same_node(urls[0], url) {
        Some(urls[0])
    } else {
        first_at_node(urls.skip(1), url)
    }
}

/// Why a handover is refused before anything is tried, if it is; otherwise to whom it goes. `to` is
/// who was asked for, `able` who could take over and `best` the readiest of them.
pub open spec fn chosen(
    is_shard: bool,
    is_leader: bool,
    pending: bool,
    to: Option<Seq<char>>,
    able: Seq<Seq<char>>,
    best: Option<Seq<char>>,
) -> Result<Seq<char>, TransferErrorView> {
    if !is_shard {
        Err(TransferErrorView::Refused("a router has no leadership to transfer"@))
    } else if !is_leader {
        Err(TransferErrorView::Refused("not the leader; there is nothing here to hand over"@))
    } else if pending {
        Err(TransferErrorView::Refused("a configuration entry has not committed yet; retry once it has"@))
    } else if to is Some {
        match first_at_node(able, to->0) {
            Some(found) => Ok(found),
            None => Err(TransferErrorView::Refused(to->0 + " is not a voter that could take over; eligible: "@ + debug_list(able))),
        }
    } else {
        match best {
            Some(found) => Ok(found),
            None => Err(TransferErrorView::Refused("no other voter to hand to; this node is the whole quorum"@)),
        }
    }
}

/// Picks the target of a handover, or refuses. With a configuration entry uncommitted the successor
/// would finish it under a configuration that is not the one this transfer picked its target from.
pub fn choose_target(
    is_shard: bool,
    is_leader: bool,
    pending: bool,
    to: Option<String>,
    able: &Vec<String>,
    best: Option<String>,
) -> (r: Result<String, TransferError>)
    ensures
        choice(r) == chosen(is_shard, is_leader, pending, opt_text(to), texts(able@), opt_text(best)),
{
    if !is_shard {
        return Err(TransferError::Refused("a router has no leadership to transfer".to_owned()));
    }
    if !is_leader {
        return Err(TransferError::Refused("not the leader; there is nothing here to hand over".to_owned()));
    }
    if pending {
        return Err(TransferError::Refused("a configuration entry has not committed yet; retry once it has".to_owned()));
    }
    match to {
        Some(url) => {
            let ghost all = texts(able@);
            let mut i: usize = 0;
            assert(all.skip(0) =~= all);
            while i < able.len()
                invariant
                    all == texts(able@),
                    i <= able@.len(),
                    first_at_node(all, url@) == first_at_node(all.skip(i as int), url@),
                    is_shard && is_leader && !pending,
                    opt_text(to) == Some(url@),
                decreases able@.len() - i,
            {
                assert(all.skip(i as int)[0] == able@[i as int]@);
                assert(all.skip(i as int).skip(1) =~= all.skip(i + 1));
                if same_endpoint(able[i].as_str(), url.as_str()) {
                    return Ok(able[i].clone());
                }
                i += 1;
            }
            Err(
                TransferError::Refused(
                    cat3(url.as_str(), " is not a voter that could take over; eligible: ", debug_texts(able).as_str()),
                ),
            )
        },
        None => match best {
            Some(found) => Ok(found),
            None => Err(TransferError::Refused("no other voter to hand to; this node is the whole quorum".to_owned())),
        },
    }
}

/// The voters, in order, that could take over from this node.
pub open spec fn successors(c: ConfigurationView, own: Seq<char>) -> Seq<Seq<char>> {
    let members = canon(c.all());
    eligible(c, own, members, members)
}

/// The target of a handover, or why there is none: who was asked for, where that is a voter that could
/// take over, and else the readiest of those.
pub fn transfer_target(
    is_shard: bool,
    is_leader: bool,
    pending: bool,
    to: Option<String>,
    quorum: &Configuration,
    own: &str,
    tails: Option<&Vec<(String, u64)>>,
    progress: &Progress,
) -> (r: Result<String, TransferError>)
    ensures
        choice(r) == chosen(
            is_shard,
            is_leader,
            pending,
            opt_text(to),
            successors(quorum@, own@),
            best_of(progress@, successors(quorum@, own@), opt_tails(tails)),
        ),
{
    let members = quorum.members();
    let able = eligible_targets(quorum, own, members.as_slice());
    let best = best_target(able.as_slice(), tails, progress);
    choose_target(is_shard, is_leader, pending, to, &able, best)
}

/// A handover goes to a voter of every half other than this node, to the one asked for where one was,
/// and else to one that no other such voter is readier than.
pub proof fn law_a_handover_goes_to_the_readiest_voter(
    c: ConfigurationView,
    own: Seq<char>,
    to: Option<Seq<char>>,
    p: ProgressView,
    tails: Seq<(Seq<char>, u64)>,
    target: Seq<char>,
    other: Seq<char>,
)
    requires
        chosen(true, true, false, to, successors(c, own), best_of(p, successors(c, own), Some(tails))) == Ok::<
            Seq<char>,
            TransferErrorView,
        >(target),
        successors(c, own).contains(other),
    ensures
        successors(c, own).contains(target),
        could_take_over(c, own, canon(c.all()), target),
        to is Some ==> same_node(target, to->0),
        to is None ==> worst_lag(p, target, tails) <= worst_lag(p, other, tails),
{
    let able = successors(c, own);
    let members = canon(c.all());
    if to is Some {
        lemma_first_at_node(able, to->0);
    } else {
        let best = lemma_some_readiest(p, able, tails);
        lemma_one_readiest(p, able, tails, best);
        let j = choose|j: int| 0 <= j < able.len() && able[j] == other;
        assert(worst_lag(p, able[best], tails) <= worst_lag(p, able[j], tails));
        assert(able.contains(able[best]));
    }
    let k = choose|k: int| 0 <= k < able.len() && able[k] == target;
    law_a_target_votes_in_every_half(c, own, members, members, k);
}

proof fn lemma_first_at_node(urls: Seq<Seq<char>>, url: Seq<char>)
    ensures
        first_at_node(urls, url) is Some ==> urls.contains(first_at_node(urls, url)->0) && same_node(first_at_node(urls, url)->0, url),
    decreases urls.len(),
{
    if urls.len() > 0 {
        let rest = urls.skip(1);
        lemma_first_at_node(rest, url);
        if same_node(urls[0], url) {
            assert(urls.contains(urls[0]));
        } else if first_at_node(rest, url) is Some {
            let i = choose|i: int| 0 <= i < rest.len() && rest[i] == first_at_node(rest, url)->0;
            assert(urls[i + 1] == rest[i]);
        }
    }
}

/// Among some targets one is the readiest.
proof fn lemma_some_readiest(p: ProgressView, among: Seq<Seq<char>>, tails: Seq<(Seq<char>, u64)>) -> (i: int)
    requires
        among.len() > 0,
    ensures
        readiest(p, among, tails, i),
    decreases among.len(),
{
    let last = among.len() - 1;
    if last == 0 {
        0
    } else {
        let rest = among.drop_last();
        let i = lemma_some_readiest(p, rest, tails);
        let best = if worst_lag(p, among[last], tails) <= worst_lag(p, among[i], tails) { last } else { i };
        assert forall|j: int| 0 <= j < among.len() implies worst_lag(p, among[best], tails) <= worst_lag(p, #[trigger] among[j], tails) && (j
            > best ==> worst_lag(p, among[best], tails) < worst_lag(p, among[j], tails)) by {
            if j < last {
                assert(among[j] == rest[j]);
                assert(worst_lag(p, rest[i], tails) <= worst_lag(p, rest[j], tails));
            }
        }
        best
    }
}

impl TransferView {
    pub open spec fn at(self, phase: TransferPhase) -> TransferView {
        TransferView { phase, ..self }
    }

    pub open spec fn failed(self, why: Seq<char>) -> (TransferView, TransferActionView) {
        (self.at(TransferPhase::Over), TransferActionView::Fail(TransferErrorView::Failed(why)))
    }

    pub open spec fn refused(self, why: Seq<char>) -> (TransferView, TransferActionView) {
        (self.at(TransferPhase::Over), TransferActionView::Fail(TransferErrorView::Refused(why)))
    }

    /// The state and the action after an event. An event that the handover is not waiting for ends
    /// it.
    pub open spec fn next(self, event: TransferEvent) -> (TransferView, TransferActionView) {
        match (self.phase, event) {
            (TransferPhase::Draining, TransferEvent::DrainTimedOut) => self.failed(
                "writes did not drain within 2s; nothing was handed over"@,
            ),
            (TransferPhase::Draining, TransferEvent::Drained { is_leader, current_term, pending, now }) => if !is_leader
                || current_term != self.term {
                self.refused("leadership moved while this handover waited for writes to drain"@)
            } else if pending {
                self.refused("a configuration entry landed while this handover waited; retry once it commits"@)
            } else {
                (
                    TransferView {
                        phase: TransferPhase::CatchingUp,
                        deadline: if now + TRANSFER_TIMEOUT <= u64::MAX { (now + TRANSFER_TIMEOUT) as u64 } else { u64::MAX },
                        ..self
                    },
                    TransferActionView::CatchUp,
                )
            },
            (TransferPhase::CatchingUp, TransferEvent::CaughtUp { done, is_leader, current_term, now }) => if done {
                (self.at(TransferPhase::Asking), TransferActionView::AskTarget)
            } else if !is_leader || current_term != self.term {
                self.failed("lost leadership while catching the target up"@)
            } else if now >= self.deadline {
                self.failed(self.target + " did not reach this node's tail within 5s"@)
            } else {
                (self, TransferActionView::PauseThenCatchUp)
            },
            (TransferPhase::Asking, TransferEvent::AskedOk) => (self.at(TransferPhase::Awaiting), TransferActionView::PauseThenLook),
            (TransferPhase::Asking, TransferEvent::AskRefused { status }) => self.failed(
                self.target + " would not stand: "@ + status@,
            ),
            (TransferPhase::Asking, TransferEvent::AskFailed { error }) => self.failed(self.target + " unreachable: "@ + error@),
            (TransferPhase::Awaiting, TransferEvent::Looked { is_leader, current_term, now }) => if !is_leader
                || current_term != self.term {
                (self.at(TransferPhase::Over), TransferActionView::Done(self.target))
            } else if now >= self.deadline {
                self.failed(self.target + " did not take office within 5s; this node still leads"@)
            } else {
                (self, TransferActionView::PauseThenLook)
            },
            _ => self.failed("the handover was interrupted"@),
        }
    }
}

impl Transfer {
    /// A handover that waits for in-flight writes to finish.
    pub fn begin(target: String, term: u64) -> (r: Transfer)
        ensures
            r@ == (TransferView { target: target@, term, phase: TransferPhase::Draining, deadline: 0 }),
    {
        Transfer { target, term, phase: TransferPhase::Draining, deadline: 0 }
    }

    /// A handover that waits for in-flight writes to finish, to whom one may go, or why there is none.
    pub fn start(
        is_shard: bool,
        is_leader: bool,
        pending: bool,
        to: Option<String>,
        quorum: &Configuration,
        own: &str,
        tails: Option<&Vec<(String, u64)>>,
        progress: &Progress,
        term: u64,
    ) -> (r: Result<Transfer, TransferError>)
        ensures
            ({
                let able = successors(quorum@, own@);
                let target = chosen(is_shard, is_leader, pending, opt_text(to), able, best_of(progress@, able, opt_tails(tails)));
                match r {
                    Ok(t) => target is Ok && t@ == (TransferView {
                        target: target->Ok_0,
                        term,
                        phase: TransferPhase::Draining,
                        deadline: 0,
                    }),
                    Err(e) => target is Err && e@ == target->Err_0,
                }
            }),
    {
        match transfer_target(is_shard, is_leader, pending, to, quorum, own, tails, progress) {
            Ok(target) => Ok(Transfer::begin(target, term)),
            Err(e) => Err(e),
        }
    }

    fn fail(&mut self, why: String) -> (r: TransferAction)
        ensures
            (final(self)@, r@) == old(self)@.failed(why@),
    {
        self.phase = TransferPhase::Over;
        TransferAction::Fail(TransferError::Failed(why))
    }

    fn refuse(&mut self, why: String) -> (r: TransferAction)
        ensures
            (final(self)@, r@) == old(self)@.refused(why@),
    {
        self.phase = TransferPhase::Over;
        TransferAction::Fail(TransferError::Refused(why))
    }

    /// The next thing to do, given what happened. Relinquishing before the target has won would leave
    /// the group leaderless for a full election timeout if that election then failed, so this node
    /// leads until it is deposed. What was true before writes drained is looked at again after:
    /// nothing before excludes a second transfer or a configuration change.
    pub fn transfer_leadership(&mut self, event: TransferEvent) -> (r: TransferAction)
        ensures
            (final(self)@, r@) == old(self)@.next(event),
    {
        match (self.phase, event) {
            (TransferPhase::Draining, TransferEvent::DrainTimedOut) => self.fail(
                "writes did not drain within 2s; nothing was handed over".to_owned(),
            ),
            (TransferPhase::Draining, TransferEvent::Drained { is_leader, current_term, pending, now }) => {
                if !is_leader || current_term != self.term {
                    return self.refuse("leadership moved while this handover waited for writes to drain".to_owned());
                }
                if pending {
                    return self.refuse(
                        "a configuration entry landed while this handover waited; retry once it commits".to_owned(),
                    );
                }
                self.deadline = now.saturating_add(TRANSFER_TIMEOUT);
                self.phase = TransferPhase::CatchingUp;
                TransferAction::CatchUp
            },
            (TransferPhase::CatchingUp, TransferEvent::CaughtUp { done, is_leader, current_term, now }) => {
                if done {
                    self.phase = TransferPhase::Asking;
                    return TransferAction::AskTarget;
                }
                if !is_leader || current_term != self.term {
                    return self.fail("lost leadership while catching the target up".to_owned());
                }
                if now >= self.deadline {
                    let why = cat2(self.target.as_str(), " did not reach this node's tail within 5s");
                    return self.fail(why);
                }
                TransferAction::PauseThenCatchUp
            },
            (TransferPhase::Asking, TransferEvent::AskedOk) => {
                self.phase = TransferPhase::Awaiting;
                TransferAction::PauseThenLook
            },
            (TransferPhase::Asking, TransferEvent::AskRefused { status }) => {
                let why = cat3(self.target.as_str(), " would not stand: ", status.as_str());
                self.fail(why)
            },
            (TransferPhase::Asking, TransferEvent::AskFailed { error }) => {
                let why = cat3(self.target.as_str(), " unreachable: ", error.as_str());
                self.fail(why)
            },
            (TransferPhase::Awaiting, TransferEvent::Looked { is_leader, current_term, now }) => {
                if !is_leader || current_term != self.term {
                    self.phase = TransferPhase::Over;
                    return TransferAction::Done(self.target.clone());
                }
                if now >= self.deadline {
                    let why = cat2(self.target.as_str(), " did not take office within 5s; this node still leads");
                    return self.fail(why);
                }
                TransferAction::PauseThenLook
            },
            _ => self.fail("the handover was interrupted".to_owned()),
        }
    }
}

/// The target is told to stand only once it holds everything this leader does.
pub proof fn law_only_a_caught_up_target_is_asked(t: TransferView, event: TransferEvent)
    requires
        t.next(event).1 is AskTarget,
    ensures
        t.phase == TransferPhase::CatchingUp,
        event is CaughtUp && event->CaughtUp_done,
{
}

/// A handover reports success only when this node no longer leads the term it began in.
pub proof fn law_success_means_deposed(t: TransferView, event: TransferEvent)
    requires
        t.next(event).1 is Done,
    ensures
        event is Looked && (!event->Looked_is_leader || event->Looked_current_term != t.term),
        t.next(event).1->Done_0 == t.target,
{
}

/// Whoever could take over is a voter of every half of the configuration in force.
pub proof fn law_a_target_votes_in_every_half(c: ConfigurationView, own: Seq<char>, among: Seq<Seq<char>>, members: Seq<Seq<char>>, i: int)
    requires
        0 <= i < eligible(c, own, among, members).len(),
    ensures
        could_take_over(c, own, among, eligible(c, own, among, members)[i]),
    decreases members.len(),
{
    if members.len() > 0 {
        let before = eligible(c, own, among, members.drop_last());
        if i < before.len() {
            law_a_target_votes_in_every_half(c, own, among, members.drop_last(), i);
        }
    }
}

/// A handover after the first `n` of some events.
pub open spec fn transfer_after(start: TransferView, events: Seq<TransferEvent>, n: int) -> TransferView
    decreases n,
{
    if n <= 0 { start } else { transfer_after(start, events, n - 1).next(events[n - 1]).0 }
}

/// Whether an event says that the target holds everything.
pub open spec fn caught_up(event: TransferEvent) -> bool {
    event is CaughtUp && event->done
}

/// Whether writes are held, by a leader of the term, with no configuration entry on its way.
pub open spec fn drained(event: TransferEvent, term: u64) -> bool {
    event is Drained && event->Drained_is_leader && event->Drained_current_term == term && !event->pending
}

proof fn lemma_transfer_phases(start: TransferView, events: Seq<TransferEvent>, n: int)
    requires
        start.phase == TransferPhase::Draining,
        0 <= n <= events.len(),
    ensures
        ({
            let t = transfer_after(start, events, n);
            &&& t.term == start.term && t.target == start.target
            &&& match t.phase {
                TransferPhase::Draining => n == 0,
                TransferPhase::CatchingUp => n >= 1 && drained(events[0], start.term),
                TransferPhase::Asking => n >= 2 && drained(events[0], start.term) && caught_up(events[n - 1]),
                TransferPhase::Awaiting => drained(events[0], start.term) && exists|m: int|
                    0 < m < n - 1 && caught_up(#[trigger] events[m]) && events[m + 1] is AskedOk,
                TransferPhase::Over => true,
            }
        }),
    decreases n,
{
    if n > 0 {
        lemma_transfer_phases(start, events, n - 1);
        let before = transfer_after(start, events, n - 1);
        let t = transfer_after(start, events, n);
        if t.phase == TransferPhase::Awaiting {
            if before.phase == TransferPhase::Asking {
                assert(caught_up(events[n - 2]) && events[n - 1] is AskedOk);
            } else {
                let m = choose|m: int| 0 < m < n - 2 && caught_up(#[trigger] events[m]) && events[m + 1] is AskedOk;
                assert(caught_up(events[m]));
            }
        }
    }
}

/// Whatever happens on the way, a handover succeeds only after writes were held at the term it began
/// in, the target caught up and agreed to stand, in this order, and once this node no longer leads
/// that term.
pub proof fn law_a_handover_takes_every_step(start: TransferView, events: Seq<TransferEvent>, n: int) -> (m: int)
    requires
        start.phase == TransferPhase::Draining,
        0 < n <= events.len(),
        transfer_after(start, events, n - 1).next(events[n - 1]).1 is Done,
    ensures
        drained(events[0], start.term),
        0 < m < n - 2,
        caught_up(events[m]) && events[m + 1] is AskedOk,
        events[n - 1] is Looked && (!events[n - 1]->Looked_is_leader || events[n - 1]->Looked_current_term != start.term),
{
    lemma_transfer_phases(start, events, n - 1);
    choose|m: int| 0 < m < n - 2 && caught_up(#[trigger] events[m]) && events[m + 1] is AskedOk
}

/// Whoever could take over is among those who may be handed to, and nobody else is.
pub proof fn law_whoever_could_take_over_is_eligible(
    c: ConfigurationView,
    own: Seq<char>,
    among: Seq<Seq<char>>,
    members: Seq<Seq<char>>,
    url: Seq<char>,
)
    ensures
        eligible(c, own, among, members).contains(url) <==> {
            &&& members.contains(url)
            &&& node(url) != node(own)
            &&& names(c.voters, node(url))
            &&& c.outgoing is Some ==> names(c.outgoing->0, node(url))
            &&& names(among, node(url))
        },
    decreases members.len(),
{
    lemma_joined_hold::<Seq<char>>();
    if members.len() > 0 {
        law_whoever_could_take_over_is_eligible(c, own, among, members.drop_last(), url);
        assert(members =~= members.drop_last().push(members.last()));
    }
}

/// The worst lag of a voter is no less than how far it is behind in any log that holds something, and
/// it is that far behind in one of them, where it is behind at all.
pub proof fn law_the_worst_lag_is_over_every_log(p: ProgressView, target: Seq<char>, tails: Seq<(Seq<char>, u64)>)
    ensures
        forall|i: int|
            0 <= i < tails.len() && (#[trigger] tails[i]).1 > 0 ==> tails[i].1 <= p.holds(target, tails[i].0) + worst_lag(p, target, tails),
        worst_lag(p, target, tails) > 0 ==> exists|i: int|
            0 <= i < tails.len() && (#[trigger] tails[i]).1 > 0 && tails[i].1 == p.holds(target, tails[i].0) + worst_lag(p, target, tails),
    decreases tails.len(),
{
    if tails.len() > 0 {
        let rest = tails.drop_last();
        law_the_worst_lag_is_over_every_log(p, target, rest);
        assert(tails[tails.len() - 1] == tails.last());
        assert forall|i: int| 0 <= i < tails.len() && (#[trigger] tails[i]).1 > 0 implies tails[i].1 <= p.holds(target, tails[i].0)
            + worst_lag(p, target, tails) by {
            if i < rest.len() {
                assert(rest[i] == tails[i]);
            }
        }
        if worst_lag(p, target, rest) > 0 && worst_lag(p, target, tails) == worst_lag(p, target, rest) {
            let i = choose|i: int|
                0 <= i < rest.len() && (#[trigger] rest[i]).1 > 0 && rest[i].1 == p.holds(target, rest[i].0) + worst_lag(p, target, rest);
            assert(tails[i] == rest[i]);
        }
    }
}

/// A node that is asked for by any spelling is found under the one that is listed, the first.
pub proof fn law_a_node_is_found_by_any_spelling(urls: Seq<Seq<char>>, url: Seq<char>)
    ensures
        first_at_node(urls, url) is None <==> !names(urls, node(url)),
        first_at_node(urls, url) is Some ==> urls.contains(first_at_node(urls, url)->0) && node(first_at_node(urls, url)->0) == node(url),
        urls.len() > 0 && node(urls[0]) == node(url) ==> first_at_node(urls, url) == Some(urls[0]),
    decreases urls.len(),
{
    if urls.len() > 0 {
        let rest = urls.skip(1);
        law_a_node_is_found_by_any_spelling(rest, url);
        if names(rest, node(url)) {
            let i = choose|i: int| 0 <= i < rest.len() && node(#[trigger] rest[i]) == node(url);
            assert(urls[i + 1] == rest[i]);
        }
        if names(urls, node(url)) && !same_node(urls[0], url) {
            let i = choose|i: int| 0 <= i < urls.len() && node(#[trigger] urls[i]) == node(url);
            assert(rest[i - 1] == urls[i]);
        }
        if same_node(urls[0], url) {
            assert(node(urls[0]) == node(url));
        } else if first_at_node(rest, url) is Some {
            let i = choose|i: int| 0 <= i < rest.len() && rest[i] == first_at_node(rest, url)->0;
            assert(urls[i + 1] == rest[i]);
        }
    }
}

/// A handover waits for the writes, brings its target up to date, asks it to stand and waits until it
/// leads; whatever goes wrong on the way ends it, and nothing is handed over.
pub proof fn law_what_each_step_of_a_handover_does(t: TransferView, event: TransferEvent)
    ensures
        ({
            let (after, action) = t.next(event);
            let drained = t.phase is Draining && event is Drained;
            let moved = !event->Drained_is_leader || event->Drained_current_term != t.term;
            let looked = t.phase is CatchingUp && event is CaughtUp;
            let lost = !event->CaughtUp_is_leader || event->CaughtUp_current_term != t.term;
            let awaited = t.phase is Awaiting && event is Looked;
            let taken = !event->Looked_is_leader || event->Looked_current_term != t.term;
            &&& after.target == t.target && after.term == t.term
            &&& t.phase is Draining && event is DrainTimedOut ==> action is Fail && action->Fail_0 is Failed
            &&& drained && (moved || event->pending) ==> action is Fail && action->Fail_0 is Refused
            &&& drained && !moved && !event->pending ==> action is CatchUp && after.phase is CatchingUp && (event->Drained_now
                + TRANSFER_TIMEOUT <= u64::MAX ==> after.deadline == event->Drained_now + TRANSFER_TIMEOUT)
            &&& looked && event->done ==> action is AskTarget && after.phase is Asking && after.deadline == t.deadline
            &&& looked && !event->done && (lost || event->CaughtUp_now >= t.deadline) ==> action is Fail && action->Fail_0 is Failed
            &&& looked && !event->done && !lost && event->CaughtUp_now < t.deadline ==> action is PauseThenCatchUp && after == t
            &&& t.phase is Asking && event is AskedOk ==> action is PauseThenLook && after.phase is Awaiting && after.deadline == t.deadline
            &&& t.phase is Asking && (event is AskRefused || event is AskFailed) ==> action is Fail && action->Fail_0 is Failed
            &&& awaited && taken ==> action == TransferActionView::Done(t.target)
            &&& awaited && !taken && event->Looked_now >= t.deadline ==> action is Fail && action->Fail_0 is Failed
            &&& awaited && !taken && event->Looked_now < t.deadline ==> action is PauseThenLook && after == t
        }),
{
}

} // verus!
