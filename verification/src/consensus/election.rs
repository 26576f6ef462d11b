//! The vote round: eligibility, tallying, and assuming leadership.

use super::config::{canon, law_quorums_meet, Configuration, ConfigurationView};
use super::lease::Leases;
use super::progress::{cells, first_cursors, Cursors, ProgressView};
use super::state::{ReplicationMeta, ReplicationState, ReplicationStateView};
use crate::endpoint::{names, node, nodes, others, without_node};
use crate::lists::{lemma_joined_hold, lemma_take_all, lemma_take_grows};
use crate::name_map::NameMap;
use crate::text::{copy_opt, opt_is, opt_text, same_text, texts};
use std::cmp::Ordering;
use vstd::prelude::*;

pub use super::config::majority;

verus! {

pub const VOTE_REQUEST_TIMEOUT_MS: u64 = 1500;

/// Where a log ends.
#[derive(Debug, Clone, Copy, PartialEq, Eq, Structural)]
pub struct LogTail {
    pub last_term: u64,
    pub last_lsn: u64,
}

impl LogTail {
    /// At least as fresh: the term decides, then the position.
    pub open spec fn reaches(self, other: LogTail) -> bool {
        self.last_term > other.last_term || (self.last_term == other.last_term && self.last_lsn >= other.last_lsn)
    }

    /// The end of an empty log.
    pub open spec fn empty() -> LogTail {
        LogTail { last_term: 0, last_lsn: 0 }
    }

    /// Whether this log ends no earlier than `other`.
    pub fn at_least(&self, other: &LogTail) -> (r: bool)
        ensures
            r == self.reaches(*other),
    {
        self.last_term > other.last_term || (self.last_term == other.last_term && self.last_lsn >= other.last_lsn)
    }
}

impl Default for LogTail {
    fn default() -> (r: Self)
        ensures
            r == LogTail::empty(),
    {
        LogTail { last_term: 0, last_lsn: 0 }
    }
}

impl PartialOrd for LogTail {
    fn partial_cmp(&self, other: &LogTail) -> (r: Option<Ordering>) {
        if self.last_term < other.last_term {
            Some(Ordering::Less)
        } else if self.last_term > other.last_term {
            Some(Ordering::Greater)
        } else if self.last_lsn < other.last_lsn {
            Some(Ordering::Less)
        } else if self.last_lsn > other.last_lsn {
            Some(Ordering::Greater)
        } else {
            Some(Ordering::Equal)
        }
    }
}

impl vstd::std_specs::cmp::PartialOrdSpecImpl for LogTail {
    open spec fn obeys_partial_cmp_spec() -> bool {
        true
    }

    open spec fn partial_cmp_spec(&self, other: &LogTail) -> Option<Ordering> {
        if *self == *other {
            Some(Ordering::Equal)
        } else if self.reaches(*other) {
            Some(Ordering::Greater)
        } else {
            Some(Ordering::Less)
        }
    }
}

/// Freshness is a total order on log tails.
pub proof fn law_tails_are_totally_ordered(a: LogTail, b: LogTail, c: LogTail)
    ensures
        a.reaches(b) || b.reaches(a),
        a.reaches(b) && b.reaches(a) ==> a == b,
        a.reaches(b) && b.reaches(c) ==> a.reaches(c),
        a.reaches(LogTail::empty()),
{
}

/// A candidate's request. `last_lsn` and `last_term` are the database-wide summary, for peers that
/// know nothing of `logs`.
pub struct VoteRequest {
    pub term: u64,
    pub candidate_id: String,
    pub last_lsn: u64,
    pub last_term: u64,
    pub logs: NameMap<LogTail>,
    /// How a voter recognises the candidate in its own configuration, which is keyed by endpoint
    /// and not by `candidate_id`.
    pub candidate_url: Option<String>,
    /// The leader that told this candidate to stand, on a transfer. A voter following that leader
    /// votes despite fresh contact from it.
    pub transfer_from: Option<String>,
}

pub ghost struct VoteRequestView {
    pub term: u64,
    pub candidate_id: Seq<char>,
    pub last_lsn: u64,
    pub last_term: u64,
    pub logs: Map<Seq<char>, LogTail>,
    pub candidate_url: Option<Seq<char>>,
    pub transfer_from: Option<Seq<char>>,
}

impl View for VoteRequest {
    type V = VoteRequestView;

    open spec fn view(&self) -> VoteRequestView {
        VoteRequestView {
            term: self.term,
            candidate_id: self.candidate_id@,
            last_lsn: self.last_lsn,
            last_term: self.last_term,
            logs: self.logs@,
            candidate_url: opt_text(self.candidate_url),
            transfer_from: opt_text(self.transfer_from),
        }
    }
}

#[derive(Debug, Clone, Copy, PartialEq, Eq, Structural)]
pub struct VoteResponse {
    pub term: u64,
    pub vote_granted: bool,
}

pub struct VoteDecision {
    pub granted: bool,
    pub term: u64,
    pub voted_for: Option<String>,
}

/// What a voter brings to a request: its logs, their summary, the configuration it holds, and
/// whether it owes a leader silence.
pub ghost struct VoterView {
    pub logs: Map<Seq<char>, LogTail>,
    pub summary: LogTail,
    pub config: Option<ConfigurationView>,
    pub silent: bool,
}

/// Where the candidate's log of a collection ends; a log it does not mention is one it holds
/// nothing of.
pub open spec fn offered(logs: Map<Seq<char>, LogTail>, name: Seq<char>) -> LogTail {
    if logs.dom().contains(name) { logs[name] } else { LogTail::empty() }
}

/// No log that the voter holds would be cut short by electing the candidate.
pub open spec fn is_current(voter: VoterView, req: VoteRequestView) -> bool {
    if req.logs.dom() =~= Set::<Seq<char>>::empty() {
        (LogTail { last_term: req.last_term, last_lsn: req.last_lsn }).reaches(voter.summary)
    } else {
        forall|name: Seq<char>| #[trigger] voter.logs.dom().contains(name)
            ==> offered(req.logs, name).reaches(voter.logs[name])
    }
}

/// The voter's configuration names the candidate, as far as both are known.
pub open spec fn is_a_member(config: Option<ConfigurationView>, req: VoteRequestView) -> bool {
    config is Some && req.candidate_url is Some ==> config->0.has_member(req.candidate_url->0)
}

/// Whether a voter that has given `voted_for` its vote of the request's term grants the request.
pub open spec fn would_grant(voter: VoterView, voted_for: Option<Seq<char>>, req: VoteRequestView) -> bool {
    &&& voted_for is None || voted_for->0 == req.candidate_id
    &&& is_current(voter, req)
    &&& is_a_member(voter.config, req)
    &&& !voter.silent
}

/// The vote that stands once the request's term is taken on.
pub open spec fn vote_at(cur_term: u64, cur_voted_for: Option<Seq<char>>, req: VoteRequestView) -> Option<Seq<char>> {
    if req.term > cur_term { None } else { cur_voted_for }
}

/// Whether a request is granted, with the term and the vote that stand afterwards.
pub open spec fn decided(
    voter: VoterView,
    cur_term: u64,
    cur_voted_for: Option<Seq<char>>,
    req: VoteRequestView,
) -> (bool, u64, Option<Seq<char>>) {
    if req.term < cur_term {
        (false, cur_term, cur_voted_for)
    } else if would_grant(voter, vote_at(cur_term, cur_voted_for, req), req) {
        (true, req.term, Some(req.candidate_id))
    } else {
        (false, req.term, vote_at(cur_term, cur_voted_for, req))
    }
}

// ---- What this node holds ----

/// One collection with the end of its log, or why it could not be opened.
pub struct CollectionTail {
    pub name: String,
    pub tail: Result<(u64, u64), String>,
}

/// The tails of the first `n` collections of a listing; a name listed twice has the later one.
pub open spec fn tails_of(listing: Seq<CollectionTail>) -> Map<Seq<char>, LogTail>
    decreases listing.len(),
{
    if listing.len() == 0 {
        Map::empty()
    } else {
        let (t, l) = listing.last().tail->Ok_0;
        tails_of(listing.drop_last()).insert(listing.last().name@, LogTail { last_term: t, last_lsn: l })
    }
}

/// The log of every collection, or the first failure to list or to open one. A node without storage
/// has no logs.
pub fn try_local_log_tails(db: Option<Result<Vec<CollectionTail>, String>>) -> (r: Result<NameMap<LogTail>, String>)
    ensures
        match db {
            None => r is Ok && r->Ok_0@ == Map::<Seq<char>, LogTail>::empty(),
            Some(Err(e)) => r is Err && r->Err_0@ == e@,
            Some(Ok(listing)) => if forall|i: int| 0 <= i < listing@.len() ==> (#[trigger] listing@[i]).tail is Ok {
                r is Ok && r->Ok_0@ == tails_of(listing@)
            } else {
                r is Err && exists|i: int| 0 <= i < listing@.len() && (#[trigger] listing@[i]).tail is Err
                    && r->Err_0@ == listing@[i].tail->Err_0@
                    && forall|j: int| 0 <= j < i ==> (#[trigger] listing@[j]).tail is Ok
            },
        },
{
    let mut tails: NameMap<LogTail> = NameMap::new();
    let listing = match db {
        None => {
            return Ok(tails);
        },
        Some(Err(e)) => {
            return Err(e);
        },
        Some(Ok(listing)) => listing,
    };
    let mut i: usize = 0;
    assert(listing@.take(0) =~= Seq::<CollectionTail>::empty());
    while i < listing.len()
        invariant
            i <= listing@.len(),
            forall|j: int| 0 <= j < i ==> (#[trigger] listing@[j]).tail is Ok,
            tails@ == tails_of(listing@.take(i as int)),
            db == Some(Ok::<Vec<CollectionTail>, String>(listing)),
        decreases listing@.len() - i,
    {
        proof {
            lemma_take_grows(listing@, i as int);
        }
        match &listing[i].tail {
            Ok(t) => {
                tails.insert(listing[i].name.clone(), LogTail { last_term: t.0, last_lsn: t.1 });
            },
            Err(e) => {
                assert(listing@[i as int].tail is Err);
                return Err(e.clone());
            },
        }
        i += 1;
    }
    proof {
        lemma_take_all(listing@);
    }
    Ok(tails)
}

/// The logs of every collection, or none where they cannot be read.
pub fn local_log_tails(read: Result<NameMap<LogTail>, String>) -> (r: NameMap<LogTail>)
    ensures
        match read {
            Ok(m) => r == m,
            Err(_) => r@ == Map::<Seq<char>, LogTail>::empty(),
        },
{
    match read {
        Ok(m) => m,
        Err(_) => NameMap::new(),
    }
}

/// The freshest tail of a set of logs is one of them, and none is fresher.
pub open spec fn freshest(tails: Map<Seq<char>, LogTail>, r: LogTail) -> bool {
    &&& exists|name: Seq<char>| #[trigger] tails.dom().contains(name) && tails[name] == r
    &&& forall|name: Seq<char>| #[trigger] tails.dom().contains(name) ==> r.reaches(tails[name])
}

/// The database-wide pair for peers that know nothing of per-collection `logs`. Derived from the
/// tails, never from what has been fsynced: that lags, and a stale advertisement can win an
/// election. With no tails the shared counters are the only tail left.
pub fn log_summary(tails: &NameMap<LogTail>, counters: Option<LogTail>) -> (r: LogTail)
    ensures
        if tails@.dom() =~= Set::<Seq<char>>::empty() {
            r == (match counters {
                Some(c) => c,
                None => LogTail::empty(),
            })
        } else {
            freshest(tails@, r)
        },
{
    let n = tails.len();
    let ghost ks = tails.keys();
    if n == 0 {
        proof {
            assert(tails@.dom() =~= Set::<Seq<char>>::empty()) by {
                assert forall|k: Seq<char>| !tails@.dom().contains(k) by {
                    assert(ks.to_set().contains(k) <==> ks.contains(k));
                }
            }
        }
        return match counters {
            Some(c) => c,
            None => LogTail { last_term: 0, last_lsn: 0 },
        };
    }
    let mut best: LogTail = *tails.value_at(0);
    let mut i: usize = 1;
    assert(tails@.dom().contains(ks[0]));
    while i < n
        invariant
            ks == tails.keys(),
            n == ks.len(),
            1 <= i <= n,
            exists|name: Seq<char>| #[trigger] tails@.dom().contains(name) && tails@[name] == best,
            forall|j: int| 0 <= j < i ==> best.reaches(tails@[#[trigger] ks[j]]),
        decreases n - i,
    {
        let t: LogTail = *tails.value_at(i);
        if !best.at_least(&t) {
            best = t;
            assert(tails@.dom().contains(ks[i as int]));
        }
        i += 1;
    }
    proof {
        assert forall|name: Seq<char>| #[trigger] tails@.dom().contains(name) implies best.reaches(tails@[name]) by {
            assert(ks.to_set().contains(name));
            let j = choose|j: int| 0 <= j < ks.len() && ks[j] == name;
            assert(best.reaches(tails@[ks[j]]));
        }
        assert(tails@.dom().contains(ks[0]));
    }
    best
}

/// Staggered: a shared timeout splits the vote every round. `seed` mixes the node's name with the
/// clock.
pub fn election_jitter(seed: u64, max_delay_ms: u64) -> (r: u64)
    ensures
        max_delay_ms == 0 ==> r == 0,
        max_delay_ms > 0 ==> r == seed % max_delay_ms && r < max_delay_ms,
{
    if max_delay_ms == 0 {
        return 0;
    }
    seed % max_delay_ms
}

// ---- Voting ----

/// Every collection is an independent log and one leader serves all of them, so a candidate behind
/// on any single collection could lose that collection's committed entries once elected.
fn candidate_is_current(my_logs: &NameMap<LogTail>, my_summary: LogTail, req: &VoteRequest) -> (r: bool)
    ensures
        forall|v: VoterView| v.logs == my_logs@ && v.summary == my_summary ==> r == #[trigger] is_current(v, req@),
{
    let offered_logs = req.logs.len();
    proof {
        assert((req.logs@.dom() =~= Set::<Seq<char>>::empty()) == (offered_logs == 0));
    }
    if offered_logs == 0 {
        let tail = LogTail { last_term: req.last_term, last_lsn: req.last_lsn };
        return tail.at_least(&my_summary);
    }
    let n = my_logs.len();
    let ghost ks = my_logs.keys();
    let mut i: usize = 0;
    while i < n
        invariant
            ks == my_logs.keys(),
            n == ks.len(),
            !(req.logs@.dom() =~= Set::<Seq<char>>::empty()),
            i <= n,
            forall|j: int| 0 <= j < i ==> offered(req@.logs, #[trigger] ks[j]).reaches(my_logs@[ks[j]]),
        decreases n - i,
    {
        let name = my_logs.key_at(i);
        let theirs: LogTail = match req.logs.get(name.as_str()) {
            Some(t) => *t,
            None => LogTail { last_term: 0, last_lsn: 0 },
        };
        if !theirs.at_least(my_logs.value_at(i)) {
            assert(my_logs@.dom().contains(ks[i as int]));
            return false;
        }
        i += 1;
    }
    proof {
        assert forall|name: Seq<char>| #[trigger] my_logs@.dom().contains(name) implies offered(req@.logs, name).reaches(my_logs@[name]) by {
            assert(ks.to_set().contains(name));
            let j = choose|j: int| 0 <= j < ks.len() && ks[j] == name;
            assert(offered(req@.logs, ks[j]).reaches(my_logs@[ks[j]]));
        }
    }
    true
}

/// A configuration that may be absent, by its contents.
pub open spec fn opt_config(c: Option<&Configuration>) -> Option<ConfigurationView> {
    match c {
        Some(c) => Some(c@),
        None => None,
    }
}

/// Whether this voter's own configuration still counts the candidate: a demoted node goes on
/// campaigning, and its majorities are over members it no longer has. Unknown on either side grants.
fn candidate_is_a_member(my_config: Option<&Configuration>, req: &VoteRequest) -> (r: bool)
    ensures
        r == is_a_member(opt_config(my_config), req@),
{
    match (my_config, &req.candidate_url) {
        (Some(config), Some(url)) => config.contains(url.as_str()),
        _ => true,
    }
}

/// The grant itself, given the vote this node would hold once the request's term is applied. Shared
/// with the pre-vote. `must_withhold` is the lease's other half: silence owed refuses any offer.
fn grants(
    voted_for: &Option<String>,
    my_logs: &NameMap<LogTail>,
    my_summary: LogTail,
    my_config: Option<&Configuration>,
    req: &VoteRequest,
    must_withhold: bool,
) -> (r: bool)
    ensures
        r == would_grant(
            VoterView { logs: my_logs@, summary: my_summary, config: opt_config(my_config), silent: must_withhold },
            opt_text(*voted_for),
            req@,
        ),
{
    let ghost voter = VoterView { logs: my_logs@, summary: my_summary, config: opt_config(my_config), silent: must_withhold };
    let can_vote = match voted_for {
        None => true,
        Some(v) => same_text(v.as_str(), req.candidate_id.as_str()),
    };
    let current = candidate_is_current(my_logs, my_summary, req);
    assert(current == is_current(voter, req@));
    can_vote && current && candidate_is_a_member(my_config, req) && !must_withhold
}

/// The question the real vote answers, decided against nothing and changing nothing: a candidate
/// that could not win never raises anyone's term, so a removed node stops costing an election.
///
/// The real request would raise us to its term first, so at or below our own term it either loses
/// on the term or lands in one this node may already have voted in.
pub fn decide_pre_vote(
    cur_term: u64,
    my_logs: &NameMap<LogTail>,
    my_summary: LogTail,
    my_config: Option<&Configuration>,
    req: &VoteRequest,
    must_withhold: bool,
) -> (r: bool)
    ensures
        r == (req.term > cur_term && would_grant(
            VoterView { logs: my_logs@, summary: my_summary, config: opt_config(my_config), silent: must_withhold },
            None,
            req@,
        )),
{
    if req.term <= cur_term {
        return false;
    }
    grants(&None, my_logs, my_summary, my_config, req, must_withhold)
}

/// At most one vote per term, never for a candidate whose log is behind or that this voter's
/// configuration does not name. A refusal still adopts the term: withholding is not following.
pub fn decide_vote(
    cur_term: u64,
    cur_voted_for: &Option<String>,
    my_logs: &NameMap<LogTail>,
    my_summary: LogTail,
    my_config: Option<&Configuration>,
    req: &VoteRequest,
    must_withhold: bool,
) -> (r: VoteDecision)
    ensures
        (r.granted, r.term, opt_text(r.voted_for)) == decided(
            VoterView { logs: my_logs@, summary: my_summary, config: opt_config(my_config), silent: must_withhold },
            cur_term,
            opt_text(*cur_voted_for),
            req@,
        ),
{
    if req.term < cur_term {
        return VoteDecision { granted: false, term: cur_term, voted_for: copy_opt(cur_voted_for) };
    }
    let mut term: u64 = cur_term;
    let mut voted_for: Option<String> = copy_opt(cur_voted_for);
    if req.term > cur_term {
        term = req.term;
        voted_for = None;
    }
    if grants(&voted_for, my_logs, my_summary, my_config, req, must_withhold) {
        VoteDecision { granted: true, term, voted_for: Some(req.candidate_id.clone()) }
    } else {
        VoteDecision { granted: false, term, voted_for }
    }
}

/// A copy of a set of log tails.
pub fn copy_tails(m: &NameMap<LogTail>) -> (r: NameMap<LogTail>)
    ensures
        r@ == m@,
{
    let n = m.len();
    let ghost ks = m.keys();
    let mut out: NameMap<LogTail> = NameMap::new();
    let mut i: usize = 0;
    while i < n
        invariant
            ks == m.keys(),
            n == ks.len(),
            m.keyed(),
            i <= n,
            forall|k: Seq<char>| out@.dom().contains(k) <==> ks.take(i as int).contains(k),
            forall|k: Seq<char>| out@.dom().contains(k) ==> m@.dom().contains(k) && out@[k] == m@[k],
        decreases n - i,
    {
        proof {
            lemma_take_grows(ks, i as int);
        }
        out.insert(m.key_at(i).clone(), *m.value_at(i));
        i += 1;
    }
    proof {
        lemma_take_all(ks);
        assert forall|k: Seq<char>| m@.dom().contains(k) implies out@.dom().contains(k) by {
            assert(ks.to_set().contains(k));
        }
        assert(out@ =~= m@);
    }
    out
}

/// The request of a candidate that stands at `term`.
pub fn vote_request(
    term: u64,
    candidate_id: &str,
    logs: &NameMap<LogTail>,
    tail: LogTail,
    own: &str,
    transfer_from: Option<String>,
) -> (r: VoteRequest)
    ensures
        r@ == (VoteRequestView {
            term,
            candidate_id: candidate_id@,
            last_lsn: tail.last_lsn,
            last_term: tail.last_term,
            logs: logs@,
            candidate_url: Some(own@),
            transfer_from: opt_text(transfer_from),
        }),
{
    VoteRequest {
        term,
        candidate_id: candidate_id.to_owned(),
        last_lsn: tail.last_lsn,
        last_term: tail.last_term,
        logs: copy_tails(logs),
        candidate_url: Some(own.to_owned()),
        transfer_from,
    }
}

// ---- Counting answers ----

/// How one peer answered a request.
pub enum PeerReply {
    Answered(VoteResponse),
    /// Success, with a body that is no vote.
    Unreadable,
    /// The peer does not know the endpoint.
    NotFound,
    /// Any other status, or no answer.
    Failed,
}

/// Whether a reply grants, and at which term.
pub open spec fn counted_as(reply: PeerReply, absent_grants: bool) -> (bool, u64) {
    match reply {
        PeerReply::Answered(v) => (v.vote_granted, v.term),
        PeerReply::NotFound => (absent_grants, 0),
        _ => (false, 0),
    }
}

/// A peer that does not know the endpoint is counted as willing where the caller says so, which
/// leaves a mixed-version cluster where it was without the round. Everything else that is no answer
/// is a refusal at no term.
pub fn peer_answer(reply: &PeerReply, absent_grants: bool) -> (r: (bool, u64))
    ensures
        r == counted_as(*reply, absent_grants),
{
    match reply {
        PeerReply::Answered(v) => (v.vote_granted, v.term),
        PeerReply::NotFound => (absent_grants, 0),
        PeerReply::Unreadable => (false, 0),
        PeerReply::Failed => (false, 0),
    }
}

/// Who granted, this node included, and the highest term a peer reported, or 0. Who granted, not how
/// many: joint halves.
pub struct Tally {
    pub granted: Vec<String>,
    pub highest_term: u64,
}

pub ghost struct TallyView {
    pub granted: Seq<Seq<char>>,
    pub highest_term: u64,
}

impl View for Tally {
    type V = TallyView;

    open spec fn view(&self) -> TallyView {
        TallyView { granted: texts(self.granted@), highest_term: self.highest_term }
    }
}

/// One voter's answer.
pub struct Ballot {
    pub voter: String,
    pub granted: bool,
    pub term: u64,
}

impl TallyView {
    /// With one more answer counted.
    pub open spec fn counted(self, b: Ballot) -> TallyView {
        TallyView {
            granted: if b.granted { self.granted.push(b.voter@) } else { self.granted },
            highest_term: if b.term > self.highest_term { b.term } else { self.highest_term },
        }
    }

    /// With answers counted in order until they carry a quorum.
    pub open spec fn tallied(self, quorum: ConfigurationView, ballots: Seq<Ballot>) -> TallyView
        decreases ballots.len(),
    {
        if quorum.decided(nodes(self.granted)) || ballots.len() == 0 {
            self
        } else {
            self.counted(ballots[0]).tallied(quorum, ballots.skip(1))
        }
    }
}

impl Tally {
    /// Only this node has answered.
    pub fn opened(own: &str) -> (r: Tally)
        ensures
            r@ == (TallyView { granted: seq![own@], highest_term: 0 }),
    {
        let mut granted: Vec<String> = Vec::new();
        granted.push(own.to_owned());
        assert(texts(granted@) =~= seq![own@]);
        Tally { granted, highest_term: 0 }
    }

    /// Whether the answers so far carry a quorum, so that no more need be waited for.
    pub fn carried(&self, quorum: &Configuration) -> (r: bool)
        ensures
            r == quorum@.decided(nodes(self@.granted)),
    {
        quorum.has_quorum(self.granted.as_slice())
    }

    /// Counts one more answer.
    pub fn count(&mut self, ballot: &Ballot)
        ensures
            final(self)@ == old(self)@.counted(*ballot),
    {
        if ballot.term > self.highest_term {
            self.highest_term = ballot.term;
        }
        if ballot.granted {
            let ghost before = texts(self.granted@);
            self.granted.push(ballot.voter.clone());
            assert(texts(self.granted@) =~= before.push(ballot.voter@));
        }
    }
}

/// The answers in some replies, in the order in which they came.
pub open spec fn ballots_in(replies: Seq<(String, PeerReply)>, absent_grants: bool) -> Seq<Ballot> {
    Seq::new(
        replies.len(),
        |i: int| Ballot {
            voter: replies[i].0,
            granted: counted_as(replies[i].1, absent_grants).0,
            term: counted_as(replies[i].1, absent_grants).1,
        },
    )
}

/// The answers in some replies, in the order in which they came.
pub fn ballots_of(replies: Vec<(String, PeerReply)>, absent_grants: bool) -> (r: Vec<Ballot>)
    ensures
        r@ == ballots_in(replies@, absent_grants),
{
    let ghost all = ballots_in(replies@, absent_grants);
    let mut out: Vec<Ballot> = Vec::new();
    assert(out@ =~= all.take(0));
    for one in it: replies
        invariant
            all == ballots_in(replies@, absent_grants),
            it.seq() == replies@,
            out@ == all.take(it.index()),
    {
        let (voter, reply) = one;
        let (granted, term) = peer_answer(&reply, absent_grants);
        out.push(Ballot { voter, granted, term });
        assert(out@ =~= all.take(it.index() + 1));
    }
    assert(all.take(all.len() as int) =~= all);
    out
}

/// One round: the answers are counted in the order in which they came, stopping once they carry a
/// quorum.
pub fn ask_peers(own: &str, quorum: &Configuration, ballots: &Vec<Ballot>) -> (r: Tally)
    ensures
        r@ == (TallyView { granted: seq![own@], highest_term: 0 }).tallied(quorum@, ballots@),
{
    let mut tally = Tally::opened(own);
    let mut i: usize = 0;
    let ghost want = tally@.tallied(quorum@, ballots@);
    assert(ballots@.skip(0) =~= ballots@);
    while i < ballots.len() && !tally.carried(quorum)
        invariant
            i <= ballots@.len(),
            want == tally@.tallied(quorum@, ballots@.skip(i as int)),
        ensures
            want == tally@.tallied(quorum@, ballots@.skip(i as int)),
            i == ballots@.len() || quorum@.decided(nodes(tally@.granted)),
        decreases ballots@.len() - i,
    {
        assert(ballots@.skip(i as int).skip(1) =~= ballots@.skip(i + 1));
        assert(ballots@.skip(i as int)[0] == ballots@[i as int]);
        tally.count(&ballots[i]);
        i += 1;
    }
    tally
}

/// Whoever stands in a tally is this node or answered that it grants.
pub proof fn law_a_tally_counts_only_grants(start: TallyView, quorum: ConfigurationView, ballots: Seq<Ballot>, i: int)
    requires
        0 <= i < start.tallied(quorum, ballots).granted.len(),
    ensures
        i < start.granted.len() ==> start.tallied(quorum, ballots).granted[i] == start.granted[i],
        i >= start.granted.len() ==> exists|j: int| 0 <= j < ballots.len() && (#[trigger] ballots[j]).granted
            && ballots[j].voter@ == start.tallied(quorum, ballots).granted[i],
    decreases ballots.len(),
{
    if !(quorum.decided(nodes(start.granted)) || ballots.len() == 0) {
        let next = start.counted(ballots[0]);
        law_a_tally_counts_only_grants(next, quorum, ballots.skip(1), i);
        if i >= next.granted.len() {
            let j = choose|j: int| 0 <= j < ballots.skip(1).len() && (#[trigger] ballots.skip(1)[j]).granted
                && ballots.skip(1)[j].voter@ == next.tallied(quorum, ballots.skip(1)).granted[i];
            assert(ballots[j + 1].granted);
        } else if i >= start.granted.len() {
            assert(ballots[0].granted);
        }
    }
}

// ---- Assuming leadership ----

/// The LSNs of a set of log tails.
pub open spec fn lsns_of(tails: Map<Seq<char>, LogTail>) -> Map<Seq<char>, u64> {
    Map::new(|k: Seq<char>| tails.dom().contains(k), |k: Seq<char>| tails[k].last_lsn)
}

/// Seeds every replica's send cursor from our own log, lowered by any persisted hint. Also used at
/// boot by a node configured as primary, which never runs an election. A lease promise was made to
/// the node this one was a moment ago, so none is kept; the first read pays a round.
pub fn seed_leader_progress(repl: &mut ReplicationState, leases: &mut Leases, tails: &NameMap<LogTail>, hints: &Cursors)
    ensures
        final(repl)@ == (ReplicationStateView {
            progress: ProgressView {
                sent: first_cursors(old(repl)@.replicas, lsns_of(tails@), cells(*hints)),
                ..ProgressView::nothing()
            },
            ..old(repl)@
        }),
        final(leases)@ == Map::<Seq<char>, super::lease::Promise>::empty(),
{
    let n = tails.len();
    let ghost ks = tails.keys();
    let mut own_tails: NameMap<u64> = NameMap::new();
    let mut i: usize = 0;
    while i < n
        invariant
            ks == tails.keys(),
            n == ks.len(),
            tails.keyed(),
            i <= n,
            repl@ == old(repl)@,
            forall|k: Seq<char>| own_tails@.dom().contains(k) <==> ks.take(i as int).contains(k),
            forall|k: Seq<char>| own_tails@.dom().contains(k) ==> tails@.dom().contains(k) && own_tails@[k] == tails@[k].last_lsn,
        decreases n - i,
    {
        proof {
            lemma_take_grows(ks, i as int);
        }
        own_tails.insert(tails.key_at(i).clone(), tails.value_at(i).last_lsn);
        i += 1;
    }
    proof {
        lemma_take_all(ks);
        assert forall|k: Seq<char>| tails@.dom().contains(k) implies own_tails@.dom().contains(k) by {
            assert(ks.to_set().contains(k));
        }
        assert(own_tails@ =~= lsns_of(tails@));
    }
    repl.progress.reinit_as_leader(repl.replicas.as_slice(), &own_tails, hints);
    leases.clear();
}

/// What becomes of a collection when a new leader looks for tails to publish.
#[derive(Clone, Copy, Debug, PartialEq, Eq, Structural)]
pub enum BarrierStep {
    /// Nothing to publish here.
    Skip,
    /// Leadership has gone; look no further.
    Stop,
    /// Append a barrier of this term.
    Append,
}

/// A durable but uncommitted tail from a previous leader has no entry of the current term, so the
/// watermark has no floor and cannot move over it. Leadership is checked per collection: the walk
/// outlives a demotion otherwise. `last_appended` is `None` where the collection cannot be opened.
pub fn publish_inherited_tails(
    last_appended: Option<u64>,
    committed: u64,
    has_term_floor: bool,
    is_leader: bool,
    current_term: u64,
    term: u64,
) -> (r: BarrierStep)
    ensures
        r == (if last_appended is None || last_appended->0 <= committed || has_term_floor {
            BarrierStep::Skip
        } else if !is_leader || current_term != term {
            BarrierStep::Stop
        } else {
            BarrierStep::Append
        }),
{
    let stranded = match last_appended {
        Some(lsn) => lsn > committed && !has_term_floor,
        None => false,
    };
    if !stranded {
        BarrierStep::Skip
    } else if !is_leader || current_term != term {
        BarrierStep::Stop
    } else {
        BarrierStep::Append
    }
}

/// Stands for election: the next term, with this node's own vote in it. Both are to be made durable
/// before anybody is asked, by the record that is returned.
pub fn stand(repl: &mut ReplicationState, candidate_id: &str) -> (r: ReplicationMeta)
    requires
        old(repl)@.term < u64::MAX,
    ensures
        final(repl)@ == (ReplicationStateView {
            term: (old(repl)@.term + 1) as u64,
            voted_for: Some(candidate_id@),
            ..old(repl)@
        }),
        r.term == final(repl)@.term,
        !r.is_leader,
        opt_text(r.voted_for) == Some(candidate_id@),
{
    repl.term = repl.term + 1;
    repl.voted_for = Some(candidate_id.to_owned());
    ReplicationMeta { term: repl.term, is_leader: false, voted_for: Some(candidate_id.to_owned()) }
}

/// What became of a won election.
#[derive(Debug, PartialEq, Eq)]
pub enum Promotion {
    /// This node is non-voting and takes no office.
    NonVoting,
    /// The term or the vote moved while the votes came in.
    Moved,
    /// Office was taken; the record says so durably.
    Promoted(ReplicationMeta),
}

/// Whether the term that was won is still this node's, with its own vote in it.
pub open spec fn still_candidate(s: ReplicationStateView, term: u64, candidate_id: Seq<char>) -> bool {
    s.term == term && s.voted_for == Some(candidate_id)
}

/// The state of a node that has taken office over some replicas.
pub open spec fn in_office(
    s: ReplicationStateView,
    replicas: Seq<Seq<char>>,
    tails: Map<Seq<char>, LogTail>,
    hints: Map<(Seq<char>, Seq<char>), u64>,
) -> ReplicationStateView {
    ReplicationStateView {
        is_leader: true,
        heartbeat_running: false,
        primary_addr: None,
        replicas,
        progress: ProgressView { sent: first_cursors(replicas, lsns_of(tails), hints), ..ProgressView::nothing() },
        ..s
    }
}

/// Takes office, unless the node is non-voting or its state moved during the election. The replicas are
/// the other voters of the configuration that the election counted, so the commit quorum cannot end up
/// narrower than the vote was. Nothing that was held as evidence before counts now.
pub fn become_leader(
    repl: &mut ReplicationState,
    leases: &mut Leases,
    term: u64,
    candidate_id: &str,
    in_quorum: bool,
    quorum: &Configuration,
    own: &str,
    tails: &NameMap<LogTail>,
    hints: &Cursors,
) -> (r: Promotion)
    ensures
        match r {
            Promotion::NonVoting => !in_quorum && final(repl)@ == old(repl)@ && final(leases)@ == old(leases)@,
            Promotion::Moved => in_quorum && !still_candidate(old(repl)@, term, candidate_id@) && final(repl)@ == old(repl)@
                && final(leases)@ == old(leases)@,
            Promotion::Promoted(record) => {
                &&& in_quorum && still_candidate(old(repl)@, term, candidate_id@)
                &&& final(repl)@ == in_office(old(repl)@, without_node(canon(quorum@.all()), own@), tails@, cells(*hints))
                &&& final(leases)@ == Map::<Seq<char>, super::lease::Promise>::empty()
                &&& record.term == term && record.is_leader && opt_text(record.voted_for) == Some(candidate_id@)
            },
        },
{
    if !in_quorum {
        return Promotion::NonVoting;
    }
    if repl.term != term || !opt_is(&repl.voted_for, candidate_id) {
        return Promotion::Moved;
    }
    repl.is_leader = true;
    repl.heartbeat_running = false;
    repl.primary_addr = None;
    repl.replicas = others(&quorum.members(), own);
    seed_leader_progress(repl, leases, tails, hints);
    Promotion::Promoted(ReplicationMeta { term, is_leader: true, voted_for: Some(candidate_id.to_owned()) })
}

// ---- Laws ----

/// A node that answers two requests of one term in turn grants them to one candidate only.
pub proof fn law_at_most_one_vote_per_term(
    voter: VoterView,
    later: VoterView,
    cur_term: u64,
    cur_voted_for: Option<Seq<char>>,
    first: VoteRequestView,
    second: VoteRequestView,
)
    requires
        first.term == second.term,
        decided(voter, cur_term, cur_voted_for, first).0,
        decided(
            later,
            decided(voter, cur_term, cur_voted_for, first).1,
            decided(voter, cur_term, cur_voted_for, first).2,
            second,
        ).0,
    ensures
        first.candidate_id == second.candidate_id,
{
}

/// A vote once recorded stays as long as the term does, whatever is asked.
pub proof fn law_a_vote_stays_for_its_term(
    voter: VoterView,
    cur_term: u64,
    cur_voted_for: Option<Seq<char>>,
    req: VoteRequestView,
)
    ensures
        ({
            let (granted, term, vote) = decided(voter, cur_term, cur_voted_for, req);
            &&& cur_term <= term
            &&& term == cur_term && cur_voted_for is Some ==> vote == cur_voted_for
            &&& granted ==> term == req.term && vote == Some(req.candidate_id)
        }),
{
}

/// A pre-vote is granted exactly where the real vote, at a term above ours, would be.
pub proof fn law_the_pre_vote_agrees_with_the_vote(
    voter: VoterView,
    cur_term: u64,
    cur_voted_for: Option<Seq<char>>,
    req: VoteRequestView,
)
    requires
        req.term > cur_term,
    ensures
        decided(voter, cur_term, cur_voted_for, req).0 == would_grant(voter, None, req),
{
}

/// A voter that owes a leader silence grants nothing, at any term, and still takes the term.
pub proof fn law_silence_refuses_every_offer(
    voter: VoterView,
    cur_term: u64,
    cur_voted_for: Option<Seq<char>>,
    req: VoteRequestView,
)
    requires
        voter.silent,
    ensures
        !decided(voter, cur_term, cur_voted_for, req).0,
        req.term > cur_term ==> decided(voter, cur_term, cur_voted_for, req).1 == req.term,
{
}

/// A candidate that sends its logs is elected by a voter only if it lacks nothing the voter holds.
pub proof fn law_a_granted_candidate_lacks_nothing(
    voter: VoterView,
    cur_term: u64,
    cur_voted_for: Option<Seq<char>>,
    req: VoteRequestView,
    name: Seq<char>,
)
    requires
        decided(voter, cur_term, cur_voted_for, req).0,
        !(req.logs.dom() =~= Set::<Seq<char>>::empty()),
        voter.logs.dom().contains(name),
    ensures
        offered(req.logs, name).reaches(voter.logs[name]),
{
}

/// What a voter goes through: requests, each with what it brings to them, and higher terms that it
/// hears of otherwise.
pub ghost enum VoterStep {
    Asked { voter: VoterView, req: VoteRequestView },
    Heard { term: u64 },
}

/// The term and the vote of a voter after the first `n` of some steps. A higher term comes with no
/// vote in it.
pub open spec fn standing_after(term: u64, vote: Option<Seq<char>>, steps: Seq<VoterStep>, n: int) -> (u64, Option<Seq<char>>)
    decreases n,
{
    if n <= 0 {
        (term, vote)
    } else {
        let (t, v) = standing_after(term, vote, steps, n - 1);
        match steps[n - 1] {
            VoterStep::Asked { voter, req } => (decided(voter, t, v, req).1, decided(voter, t, v, req).2),
            VoterStep::Heard { term } => if term > t { (term, None) } else { (t, v) },
        }
    }
}

/// Whether the step at `i` gives this candidate the vote of this term.
pub open spec fn votes_at(term: u64, vote: Option<Seq<char>>, steps: Seq<VoterStep>, i: int, t: u64, candidate: Seq<char>) -> bool {
    0 <= i < steps.len() && match steps[i] {
        VoterStep::Asked { voter, req } => req.term == t && req.candidate_id == candidate && ({
            let before = standing_after(term, vote, steps, i);
            decided(voter, before.0, before.1, req).0
        }),
        VoterStep::Heard { .. } => false,
    }
}

proof fn lemma_vote_is_kept(term: u64, vote: Option<Seq<char>>, steps: Seq<VoterStep>, i: int, n: int, t: u64, candidate: Seq<char>)
    requires
        votes_at(term, vote, steps, i, t, candidate),
        i < n <= steps.len(),
    ensures
        ({
            let (now, v) = standing_after(term, vote, steps, n);
            now > t || (now == t && v == Some(candidate))
        }),
    decreases n,
{
    if n > i + 1 {
        lemma_vote_is_kept(term, vote, steps, i, n - 1, t, candidate);
    }
}

/// Whatever a voter goes through, it gives the vote of a term to one candidate only.
pub proof fn law_a_term_has_one_vote(
    term: u64,
    vote: Option<Seq<char>>,
    steps: Seq<VoterStep>,
    i: int,
    j: int,
    t: u64,
    a: Seq<char>,
    b: Seq<char>,
)
    requires
        votes_at(term, vote, steps, i, t, a),
        votes_at(term, vote, steps, j, t, b),
    ensures
        a == b,
{
    if i < j {
        lemma_vote_is_kept(term, vote, steps, i, j, t, a);
    } else if j < i {
        lemma_vote_is_kept(term, vote, steps, j, i, t, b);
    }
}

/// A voter from its first standing on.
pub ghost struct VoterHistory {
    pub term: u64,
    pub vote: Option<Seq<char>>,
    pub steps: Seq<VoterStep>,
}

impl VoterHistory {
    /// Whether the voter gave this candidate the vote of this term.
    pub open spec fn voted(self, t: u64, candidate: Seq<char>) -> bool {
        exists|i: int| votes_at(self.term, self.vote, self.steps, i, t, candidate)
    }
}

/// A term has one leader: two candidates that each have the votes of a quorum in one term are one.
pub proof fn law_a_term_has_one_leader(
    c: ConfigurationView,
    voters: Map<Seq<char>, VoterHistory>,
    t: u64,
    a: Seq<char>,
    b: Seq<char>,
    for_a: Set<Seq<char>>,
    for_b: Set<Seq<char>>,
)
    requires
        nodes(c.voters).len() > 0,
        c.decided(for_a),
        c.decided(for_b),
        forall|n: Seq<char>| #[trigger] for_a.contains(n) ==> voters[n].voted(t, a),
        forall|n: Seq<char>| #[trigger] for_b.contains(n) ==> voters[n].voted(t, b),
    ensures
        a == b,
{
    let n = law_quorums_meet(c, for_a, for_b);
    let h = voters[n];
    assert(h.voted(t, a) && h.voted(t, b));
    let i = choose|i: int| votes_at(h.term, h.vote, h.steps, i, t, a);
    let j = choose|j: int| votes_at(h.term, h.vote, h.steps, j, t, b);
    law_a_term_has_one_vote(h.term, h.vote, h.steps, i, j, t, a, b);
}

/// What a quorum holds of a collection, every leader that sends its logs holds: a candidate with the
/// votes of a quorum has a log that reaches as far.
pub proof fn law_a_leader_holds_what_a_quorum_holds(
    c: ConfigurationView,
    voters: Map<Seq<char>, VoterView>,
    standings: Map<Seq<char>, (u64, Option<Seq<char>>)>,
    holders: Set<Seq<char>>,
    electors: Set<Seq<char>>,
    req: VoteRequestView,
    name: Seq<char>,
    tail: LogTail,
)
    requires
        nodes(c.voters).len() > 0,
        c.decided(holders),
        c.decided(electors),
        !(req.logs.dom() =~= Set::<Seq<char>>::empty()),
        forall|n: Seq<char>| #[trigger] holders.contains(n) ==> voters[n].logs.dom().contains(name) && voters[n].logs[name].reaches(tail),
        forall|n: Seq<char>| #[trigger] electors.contains(n) ==> decided(voters[n], standings[n].0, standings[n].1, req).0,
    ensures
        offered(req.logs, name).reaches(tail),
{
    let n = law_quorums_meet(c, holders, electors);
    assert(holders.contains(n) && electors.contains(n));
    law_a_granted_candidate_lacks_nothing(voters[n], standings[n].0, standings[n].1, req, name);
    law_tails_are_totally_ordered(offered(req.logs, name), voters[n].logs[name], tail);
}

/// Every collection that is listed has its tail told, the later where it is listed twice, and no
/// other has.
pub proof fn law_every_collections_tail_is_told(listing: Seq<CollectionTail>, name: Seq<char>)
    requires
        forall|i: int| 0 <= i < listing.len() ==> (#[trigger] listing[i]).tail is Ok,
    ensures
        tails_of(listing).dom().contains(name) <==> exists|i: int| 0 <= i < listing.len() && (#[trigger] listing[i]).name@ == name,
        forall|i: int|
            0 <= i < listing.len() && (#[trigger] listing[i]).name@ == name && (forall|j: int|
                i < j < listing.len() ==> (#[trigger] listing[j]).name@ != name) ==> tails_of(listing)[name].last_term == (
            listing[i].tail->Ok_0).0 && tails_of(listing)[name].last_lsn == (listing[i].tail->Ok_0).1,
    decreases listing.len(),
{
    if listing.len() > 0 {
        let rest = listing.drop_last();
        assert(forall|i: int| 0 <= i < rest.len() ==> rest[i] == listing[i]);
        law_every_collections_tail_is_told(rest, name);
        assert(listing.last() == listing[listing.len() - 1]);
        if tails_of(rest).dom().contains(name) {
            let i = choose|i: int| 0 <= i < rest.len() && (#[trigger] rest[i]).name@ == name;
            assert(listing[i].name@ == name);
        }
        if exists|i: int| 0 <= i < listing.len() && (#[trigger] listing[i]).name@ == name {
            let i = choose|i: int| 0 <= i < listing.len() && (#[trigger] listing[i]).name@ == name;
            if i < rest.len() {
                assert(rest[i].name@ == name);
            }
        }
    }
}

/// A tally that reaches no decision has counted every ballot: every grant is in it, and the highest
/// term that anybody told. Counting goes on only while nothing is decided.
pub proof fn law_an_undecided_tally_has_counted_everybody(start: TallyView, quorum: ConfigurationView, ballots: Seq<Ballot>)
    ensures
        ({
            let end = start.tallied(quorum, ballots);
            &&& quorum.decided(nodes(end.granted)) || forall|i: int|
                0 <= i < ballots.len() ==> (#[trigger] ballots[i]).term <= end.highest_term && (ballots[i].granted ==> end.granted.contains(
                    ballots[i].voter@,
                ))
            &&& quorum.decided(nodes(start.granted)) ==> end == start
            &&& end.highest_term >= start.highest_term
            &&& end.highest_term == start.highest_term || exists|i: int| 0 <= i < ballots.len() && (#[trigger] ballots[i]).term == end.highest_term
            &&& forall|x: Seq<char>| start.granted.contains(x) ==> end.granted.contains(x)
        }),
    decreases ballots.len(),
{
    lemma_joined_hold::<Seq<char>>();
    if !(quorum.decided(nodes(start.granted)) || ballots.len() == 0) {
        let next = start.counted(ballots[0]);
        let rest = ballots.skip(1);
        let end = start.tallied(quorum, ballots);
        law_an_undecided_tally_has_counted_everybody(next, quorum, rest);
        assert(end == next.tallied(quorum, rest));
        if !quorum.decided(nodes(end.granted)) {
            assert forall|i: int| 0 <= i < ballots.len() implies (#[trigger] ballots[i]).term <= end.highest_term && (ballots[i].granted
                ==> end.granted.contains(ballots[i].voter@)) by {
                if i > 0 {
                    assert(rest[i - 1] == ballots[i]);
                }
            }
        }
        if end.highest_term != start.highest_term {
            if end.highest_term == next.highest_term {
                assert(ballots[0].term == end.highest_term);
            } else {
                let i = choose|i: int| 0 <= i < rest.len() && (#[trigger] rest[i]).term == end.highest_term;
                assert(ballots[i + 1] == rest[i]);
            }
        }
    }
}

/// A reply counts as its sender meant it: an answer by its own word and at its own term, a peer that
/// does not know the question as the caller says, and anything else as no grant.
pub proof fn law_a_reply_counts_as_it_was_meant(replies: Seq<(String, PeerReply)>, absent_grants: bool, i: int)
    requires
        0 <= i < replies.len(),
    ensures
        ballots_in(replies, absent_grants).len() == replies.len(),
        ballots_in(replies, absent_grants)[i].voter == replies[i].0,
        match replies[i].1 {
            PeerReply::Answered(v) => ballots_in(replies, absent_grants)[i].granted == v.vote_granted && ballots_in(
                replies,
                absent_grants,
            )[i].term == v.term,
            PeerReply::NotFound => ballots_in(replies, absent_grants)[i].granted == absent_grants && ballots_in(
                replies,
                absent_grants,
            )[i].term == 0,
            _ => !ballots_in(replies, absent_grants)[i].granted && ballots_in(replies, absent_grants)[i].term == 0,
        },
{
}

/// A new leader starts from its own logs: no replica is taken to hold anything, nothing is taken to be
/// committed, and every replica is sent every log from its end, or from a hint that is further back.
pub proof fn law_a_new_leader_takes_nothing_for_granted(
    s: ReplicationStateView,
    replicas: Seq<Seq<char>>,
    tails: Map<Seq<char>, LogTail>,
    hints: Map<(Seq<char>, Seq<char>), u64>,
    replica: Seq<char>,
    log: Seq<char>,
)
    ensures
        ({
            let l = in_office(s, replicas, tails, hints);
            &&& l.is_leader && !l.heartbeat_running && l.primary_addr is None && l.replicas == replicas
            &&& l.term == s.term && l.voted_for == s.voted_for && l.leader_committed == s.leader_committed
            &&& l.progress.holds(replica, log) == 0 && l.progress.commit(log) == 0
            &&& l.progress.sent.dom().contains((replica, log)) <==> replicas.contains(replica) && tails.dom().contains(log)
            &&& replicas.contains(replica) && tails.dom().contains(log) ==> {
                let from = l.progress.sent[(replica, log)];
                &&& from <= tails[log].last_lsn
                &&& !hints.dom().contains((replica, log)) ==> from == tails[log].last_lsn
                &&& hints.dom().contains((replica, log)) ==> from <= hints[(replica, log)] && (from == hints[(replica, log)] || from
                    == tails[log].last_lsn)
            }
        }),
{
}

/// A vote is granted exactly where the term is not behind, no other candidate has the vote at it, the
/// candidate lacks nothing that this node holds, votes in either half, and no silence is owed.
pub proof fn law_when_a_vote_is_granted(voter: VoterView, term: u64, voted_for: Option<Seq<char>>, req: VoteRequestView)
    ensures
        ({
            let member = voter.config is Some && req.candidate_url is Some ==> names(voter.config->0.voters, node(req.candidate_url->0)) || (
            voter.config->0.outgoing is Some && names(voter.config->0.outgoing->0, node(req.candidate_url->0)));
            let free = req.term > term || voted_for is None || voted_for == Some(req.candidate_id);
            decided(voter, term, voted_for, req).0 <==> req.term >= term && free && !voter.silent && is_current(voter, req) && member
        }),
        decided(voter, term, voted_for, req).0 ==> decided(voter, term, voted_for, req).1 == req.term && decided(
            voter,
            term,
            voted_for,
            req,
        ).2 == Some(req.candidate_id),
        req.term < term ==> decided(voter, term, voted_for, req).1 == term && decided(voter, term, voted_for, req).2 == voted_for,
        !decided(voter, term, voted_for, req).0 && req.term > term ==> decided(voter, term, voted_for, req).1 == req.term && decided(
            voter,
            term,
            voted_for,
            req,
        ).2 is None,
{
    if voter.config is Some && req.candidate_url is Some {
        let c = voter.config->0;
        let n = node(req.candidate_url->0);
        let all = c.all();
        if names(c.voters, n) {
            let i = choose|i: int| 0 <= i < c.voters.len() && node(#[trigger] c.voters[i]) == n;
            assert(all[i] == c.voters[i]);
        }
        if c.outgoing is Some {
            let o = c.outgoing->0;
            if names(o, n) {
                let i = choose|i: int| 0 <= i < o.len() && node(#[trigger] o[i]) == n;
                assert(all[c.voters.len() + i] == o[i]);
            }
            if names(all, n) {
                let i = choose|i: int| 0 <= i < all.len() && node(#[trigger] all[i]) == n;
                if i < c.voters.len() {
                    assert(c.voters[i] == all[i]);
                } else {
                    assert(o[i - c.voters.len()] == all[i]);
                }
            }
        }
    }
}

/// A candidate lacks nothing where every log that this node holds ends no later than the candidate's; one
/// that tells no logs is measured by its summary.
pub proof fn law_a_candidate_is_measured_log_by_log(voter: VoterView, req: VoteRequestView, name: Seq<char>)
    ensures
        req.logs.dom().contains(name) && is_current(voter, req) && voter.logs.dom().contains(name) ==> req.logs[name].last_term
            > voter.logs[name].last_term || (req.logs[name].last_term == voter.logs[name].last_term && req.logs[name].last_lsn
            >= voter.logs[name].last_lsn),
        (exists|k: Seq<char>| req.logs.dom().contains(k)) && !req.logs.dom().contains(name) && voter.logs.dom().contains(name) && is_current(
            voter,
            req,
        ) ==> voter.logs[name].last_term == 0 && voter.logs[name].last_lsn == 0,
        (forall|k: Seq<char>| !req.logs.dom().contains(k)) ==> (is_current(voter, req) <==> req.last_term > voter.summary.last_term || (
        req.last_term == voter.summary.last_term && req.last_lsn >= voter.summary.last_lsn)),
{
    if exists|k: Seq<char>| req.logs.dom().contains(k) {
        let k = choose|k: Seq<char>| req.logs.dom().contains(k);
        assert(!(req.logs.dom() =~= Set::<Seq<char>>::empty()));
    } else {
        assert(req.logs.dom() =~= Set::<Seq<char>>::empty());
    }
}

/// A log that ends at a later term is further on, and of two that end at one term the longer is.
pub proof fn law_the_later_term_is_further_on(a: LogTail, b: LogTail)
    ensures
        a.last_term > b.last_term ==> a.reaches(b) && !b.reaches(a),
        a.last_term == b.last_term ==> (a.reaches(b) <==> a.last_lsn >= b.last_lsn),
{
}

} // verus!
