//! Standing for election, from the decision to stand to taking office.
//!
//! The campaign alternates between deciding and asking others. It is a state machine: each answer
//! from outside is an event, and each event gives the next thing to do.

use super::config::{canon, law_canon_names_each_node_once, Configuration, ConfigurationView};
use super::election::{
    ask_peers, ballots_in, ballots_of, law_a_tally_counts_only_grants, law_an_undecided_tally_has_counted_everybody,
    vote_request, LogTail, PeerReply, Tally, TallyView, VoteRequest, VoteRequestView,
};
use crate::endpoint::{law_others_leave_one_node_out, names, node, nodes, others, without_node};
use crate::name_map::NameMap;
use crate::text::{copy_opt, opt_text, texts};
use vstd::prelude::*;

verus! {

/// What a campaign is waiting for.
#[derive(Clone, Copy, Debug, PartialEq, Eq, Structural)]
pub enum Phase {
    /// The staggered delay.
    Waiting,
    /// Whether this node leads and whether it votes.
    Inspecting,
    /// Whether a leader is serving, before standing.
    Searching,
    /// Whether a leader is serving, for a node that will not stand.
    Following,
    /// This node's log tails.
    Reading,
    /// The answers to the pre-vote.
    PreVoting,
    /// The new term and the vote for itself to be durable.
    Standing,
    /// The answers to the vote.
    Voting,
    Over,
}

/// One attempt to be elected. `forced_by` is a leader handing office over: everything a timeout election
/// does to avoid disturbing a live leader is what a transfer skips.
pub struct Campaign {
    pub candidate_id: String,
    pub own: String,
    pub forced_by: Option<String>,
    pub phase: Phase,
    pub quorum: Configuration,
    pub term: u64,
    /// This node's logs, and their summary.
    pub logs: NameMap<LogTail>,
    pub tail: LogTail,
}

pub ghost struct CampaignView {
    pub candidate_id: Seq<char>,
    pub own: Seq<char>,
    pub forced_by: Option<Seq<char>>,
    pub phase: Phase,
    pub quorum: ConfigurationView,
    pub term: u64,
    pub logs: Map<Seq<char>, LogTail>,
    pub tail: LogTail,
}

impl View for Campaign {
    type V = CampaignView;

    open spec fn view(&self) -> CampaignView {
        CampaignView {
            candidate_id: self.candidate_id@,
            own: self.own@,
            forced_by: opt_text(self.forced_by),
            phase: self.phase,
            quorum: self.quorum@,
            term: self.term,
            logs: self.logs@,
            tail: self.tail,
        }
    }
}

/// What happened outside.
pub enum CampaignEvent {
    Waited,
    Inspected { is_leader: bool, in_quorum: bool },
    Searched { found: bool },
    /// The logs were read; the quorum in force and the current term with them.
    TailsRead { quorum: Configuration, term: u64, logs: NameMap<LogTail>, tail: LogTail },
    TailsFailed,
    /// What came back from the peers within the round, in order, and this node's own term by now.
    PreVoted { replies: Vec<(String, PeerReply)>, term: u64 },
    /// The term was raised to `term`, and whether that could be made durable.
    Stood { persisted: bool, term: u64 },
    /// What came back from the peers within the round, in order.
    Voted { replies: Vec<(String, PeerReply)> },
}

/// What to do next.
pub enum CampaignAction {
    Wait,
    Inspect,
    SearchLeader,
    ReadTails,
    /// Ask these whether they would vote for this node.
    PreVote { peers: Vec<String>, request: VoteRequest },
    /// Raise the term, vote for this node, and make both durable.
    Stand,
    /// Ask these for their votes.
    Vote { peers: Vec<String>, request: VoteRequest },
    Lead { term: u64 },
    Demote { term: u64 },
    /// Fetch the histories that the pre-vote was refused over.
    Recover,
    Stop,
}

pub ghost enum CampaignActionView {
    Wait,
    Inspect,
    SearchLeader,
    ReadTails,
    PreVote { peers: Seq<Seq<char>>, request: VoteRequestView },
    Stand,
    Vote { peers: Seq<Seq<char>>, request: VoteRequestView },
    Lead { term: u64 },
    Demote { term: u64 },
    Recover,
    Stop,
}

impl View for CampaignAction {
    type V = CampaignActionView;

    open spec fn view(&self) -> CampaignActionView {
        match *self {
            CampaignAction::Wait => CampaignActionView::Wait,
            CampaignAction::Inspect => CampaignActionView::Inspect,
            CampaignAction::SearchLeader => CampaignActionView::SearchLeader,
            CampaignAction::ReadTails => CampaignActionView::ReadTails,
            CampaignAction::PreVote { peers, request } => CampaignActionView::PreVote { peers: texts(peers@), request: request@ },
            CampaignAction::Stand => CampaignActionView::Stand,
            CampaignAction::Vote { peers, request } => CampaignActionView::Vote { peers: texts(peers@), request: request@ },
            CampaignAction::Lead { term } => CampaignActionView::Lead { term },
            CampaignAction::Demote { term } => CampaignActionView::Demote { term },
            CampaignAction::Recover => CampaignActionView::Recover,
            CampaignAction::Stop => CampaignActionView::Stop,
        }
    }
}

impl CampaignView {
    /// Everyone this node has to ask.
    pub open spec fn peers(self) -> Seq<Seq<char>> {
        without_node(canon(self.quorum.all()), self.own)
    }

    /// The vote for itself alone carries a lone voter; while joint it cannot carry a half it is not
    /// in.
    pub open spec fn lone(self) -> bool {
        self.quorum.decided(nodes(seq![self.own]))
    }

    pub open spec fn forced(self) -> bool {
        self.forced_by is Some
    }

    pub open spec fn at(self, phase: Phase) -> CampaignView {
        CampaignView { phase, ..self }
    }

    /// What this node asks with at a term. Only a vote says who told it to stand.
    pub open spec fn request(self, term: u64, from: Option<Seq<char>>) -> VoteRequestView {
        VoteRequestView {
            term,
            candidate_id: self.candidate_id,
            last_lsn: self.tail.last_lsn,
            last_term: self.tail.last_term,
            logs: self.logs,
            candidate_url: Some(self.own),
            transfer_from: from,
        }
    }

    /// The count of a round's replies.
    pub open spec fn tally(self, replies: Seq<(String, PeerReply)>, absent_grants: bool) -> TallyView {
        (TallyView { granted: seq![self.own], highest_term: 0 }).tallied(self.quorum, ballots_in(replies, absent_grants))
    }

    /// The state and the action after an event. An event that the campaign is not waiting for ends
    /// it.
    pub open spec fn next(self, event: CampaignEvent) -> (CampaignView, CampaignActionView) {
        match (self.phase, event) {
            (Phase::Waiting, CampaignEvent::Waited) => (self.at(Phase::Inspecting), CampaignActionView::Inspect),
            (Phase::Inspecting, CampaignEvent::Inspected { is_leader, in_quorum }) => if is_leader {
                (self.at(Phase::Over), CampaignActionView::Stop)
            } else if !in_quorum {
                if self.forced() {
                    (self.at(Phase::Over), CampaignActionView::Stop)
                } else {
                    (self.at(Phase::Following), CampaignActionView::SearchLeader)
                }
            } else if self.forced() {
                (self.at(Phase::Reading), CampaignActionView::ReadTails)
            } else {
                (self.at(Phase::Searching), CampaignActionView::SearchLeader)
            },
            (Phase::Searching, CampaignEvent::Searched { found }) => if found {
                (self.at(Phase::Over), CampaignActionView::Stop)
            } else {
                (self.at(Phase::Reading), CampaignActionView::ReadTails)
            },
            (Phase::Reading, CampaignEvent::TailsRead { quorum, term, logs, tail }) => {
                let with = CampaignView { quorum: quorum@, logs: logs@, tail, ..self };
                if !self.forced() && !with.lone() && with.peers().len() > 0 {
                    let asking = (term + 1) as u64;
                    (
                        CampaignView { phase: Phase::PreVoting, term: asking, ..with },
                        CampaignActionView::PreVote { peers: with.peers(), request: with.request(asking, None) },
                    )
                } else {
                    (with.at(Phase::Standing), CampaignActionView::Stand)
                }
            },
            (Phase::PreVoting, CampaignEvent::PreVoted { replies, term }) => if self.tally(replies@, true).highest_term > term {
                (self.at(Phase::Over), CampaignActionView::Demote { term: self.tally(replies@, true).highest_term })
            } else if !self.quorum.decided(nodes(self.tally(replies@, true).granted)) {
                (self.at(Phase::Over), CampaignActionView::Recover)
            } else {
                (self.at(Phase::Standing), CampaignActionView::Stand)
            },
            (Phase::Standing, CampaignEvent::Stood { persisted, term }) => if !persisted {
                (self.at(Phase::Over), CampaignActionView::Stop)
            } else if self.lone() {
                (self.at(Phase::Over), CampaignActionView::Lead { term })
            } else if self.peers().len() == 0 {
                (self.at(Phase::Over), CampaignActionView::Stop)
            } else {
                (
                    CampaignView { phase: Phase::Voting, term, ..self },
                    CampaignActionView::Vote { peers: self.peers(), request: self.request(term, self.forced_by) },
                )
            },
            (Phase::Voting, CampaignEvent::Voted { replies }) => if self.tally(replies@, false).highest_term > self.term {
                (self.at(Phase::Over), CampaignActionView::Demote { term: self.tally(replies@, false).highest_term })
            } else if self.quorum.decided(nodes(self.tally(replies@, false).granted)) {
                (self.at(Phase::Over), CampaignActionView::Lead { term: self.term })
            } else {
                (self.at(Phase::Over), CampaignActionView::Stop)
            },
            _ => (self.at(Phase::Over), CampaignActionView::Stop),
        }
    }
}

impl Campaign {
    /// A campaign at its start, with the first thing to do. A timeout election waits its staggered
    /// delay; a handover looks at once.
    pub fn begin(candidate_id: &str, own: &str, forced_by: Option<String>) -> (r: (Campaign, CampaignAction))
        ensures
            r.0@ == (CampaignView {
                candidate_id: candidate_id@,
                own: own@,
                forced_by: opt_text(forced_by),
                phase: if forced_by is Some { Phase::Inspecting } else { Phase::Waiting },
                quorum: ConfigurationView { voters: Seq::empty(), outgoing: None },
                term: 0,
                logs: Map::empty(),
                tail: LogTail { last_term: 0, last_lsn: 0 },
            }),
            r.1@ == (if forced_by is Some { CampaignActionView::Inspect } else { CampaignActionView::Wait }),
    {
        let forced = forced_by.is_some();
        let voters: Vec<String> = Vec::new();
        assert(texts(voters@) =~= Seq::empty());
        let c = Campaign {
            candidate_id: candidate_id.to_owned(),
            own: own.to_owned(),
            forced_by,
            phase: if forced { Phase::Inspecting } else { Phase::Waiting },
            quorum: Configuration { voters, outgoing: None },
            term: 0,
            logs: NameMap::new(),
            tail: LogTail { last_term: 0, last_lsn: 0 },
        };
        let action = if forced { CampaignAction::Inspect } else { CampaignAction::Wait };
        (c, action)
    }

    fn asks(&self, term: u64, from: Option<String>) -> (r: VoteRequest)
        ensures
            r@ == self@.request(term, opt_text(from)),
    {
        vote_request(term, self.candidate_id.as_str(), &self.logs, self.tail, self.own.as_str(), from)
    }

    fn counts(&self, replies: Vec<(String, PeerReply)>, absent_grants: bool) -> (r: Tally)
        ensures
            r@ == self@.tally(replies@, absent_grants),
    {
        let ballots = ballots_of(replies, absent_grants);
        ask_peers(self.own.as_str(), &self.quorum, &ballots)
    }

    fn lone_voter(&self) -> (r: bool)
        ensures
            r == self@.lone(),
    {
        let mut me: Vec<String> = Vec::new();
        me.push(self.own.clone());
        assert(texts(me@) =~= seq![self@.own]);
        self.quorum.has_quorum(me.as_slice())
    }

    fn peers(&self) -> (r: Vec<String>)
        ensures
            texts(r@) == self@.peers(),
    {
        others(&self.quorum.members(), self.own.as_str())
    }

    /// The next thing to do, given what happened.
    pub fn run_election(&mut self, event: CampaignEvent) -> (r: CampaignAction)
        requires
            match event {
                CampaignEvent::TailsRead { term, .. } => term < u64::MAX,
                _ => true,
            },
        ensures
            (final(self)@, r@) == old(self)@.next(event),
    {
        let phase = self.phase;
        self.phase = Phase::Over;
        match (phase, event) {
            (Phase::Waiting, CampaignEvent::Waited) => {
                self.phase = Phase::Inspecting;
                CampaignAction::Inspect
            },
            (Phase::Inspecting, CampaignEvent::Inspected { is_leader, in_quorum }) => {
                if is_leader {
                    return CampaignAction::Stop;
                }
                if !in_quorum {
                    if self.forced_by.is_some() {
                        return CampaignAction::Stop;
                    }
                    self.phase = Phase::Following;
                    return CampaignAction::SearchLeader;
                }
                if self.forced_by.is_some() {
                    self.phase = Phase::Reading;
                    CampaignAction::ReadTails
                } else {
                    self.phase = Phase::Searching;
                    CampaignAction::SearchLeader
                }
            },
            (Phase::Searching, CampaignEvent::Searched { found }) => {
                if found {
                    return CampaignAction::Stop;
                }
                self.phase = Phase::Reading;
                CampaignAction::ReadTails
            },
            (Phase::Reading, CampaignEvent::TailsRead { quorum, term, logs, tail }) => {
                self.quorum = quorum;
                self.logs = logs;
                self.tail = tail;
                let peers = self.peers();
                assert(texts(peers@).len() == peers@.len());
                if !self.forced_by.is_some() && !self.lone_voter() && peers.len() > 0 {
                    // A term raised and lost with deposes a leader that was serving fine, so ask
                    // first whether it could win.
                    self.phase = Phase::PreVoting;
                    self.term = term + 1;
                    let request = self.asks(term + 1, None);
                    return CampaignAction::PreVote { peers, request };
                }
                self.phase = Phase::Standing;
                CampaignAction::Stand
            },
            (Phase::PreVoting, CampaignEvent::PreVoted { replies, term }) => {
                // A peer that does not know the endpoint is willing: the round is as if it were not.
                let tally = self.counts(replies, true);
                if tally.highest_term > term {
                    return CampaignAction::Demote { term: tally.highest_term };
                }
                if !self.quorum.has_quorum(tally.granted.as_slice()) {
                    return CampaignAction::Recover;
                }
                self.phase = Phase::Standing;
                CampaignAction::Stand
            },
            (Phase::Standing, CampaignEvent::Stood { persisted, term }) => {
                // Standing is a vote for itself: forgotten across a restart, this node could grant
                // the same term twice.
                if !persisted {
                    return CampaignAction::Stop;
                }
                if self.lone_voter() {
                    return CampaignAction::Lead { term };
                }
                let peers = self.peers();
                assert(texts(peers@).len() == peers@.len());
                if peers.len() == 0 {
                    return CampaignAction::Stop;
                }
                self.phase = Phase::Voting;
                self.term = term;
                let request = self.asks(term, copy_opt(&self.forced_by));
                CampaignAction::Vote { peers, request }
            },
            (Phase::Voting, CampaignEvent::Voted { replies }) => {
                let tally = self.counts(replies, false);
                if tally.highest_term > self.term {
                    return CampaignAction::Demote { term: tally.highest_term };
                }
                if self.quorum.has_quorum(tally.granted.as_slice()) {
                    CampaignAction::Lead { term: self.term }
                } else {
                    CampaignAction::Stop
                }
            },
            _ => CampaignAction::Stop,
        }
    }
}

/// How long one round of asking may take, in milliseconds.
pub fn round_deadline_ms(max_delay_ms: u64) -> (r: u64)
    ensures
        r as int == (if max_delay_ms < 1000 { 3000 } else if max_delay_ms + 2000 <= u64::MAX { max_delay_ms + 2000 } else { u64::MAX as int }),
{
    let base: u64 = if max_delay_ms < 1000 { 1000 } else { max_delay_ms };
    base.saturating_add(2000)
}

// ---- Laws ----

/// Office is taken only with a quorum behind it: the votes that came in, at a term nobody has gone
/// past, or this node's own vote where that is a quorum by itself.
pub proof fn law_a_campaign_leads_only_with_a_quorum(c: CampaignView, event: CampaignEvent)
    requires
        c.next(event).1 is Lead,
    ensures
        match event {
            CampaignEvent::Stood { persisted, term } => persisted && c.lone() && c.next(event).1->Lead_term == term,
            CampaignEvent::Voted { replies } => c.quorum.decided(nodes(c.tally(replies@, false).granted)) && c.tally(
                replies@,
                false,
            ).highest_term <= c.term && c.next(event).1->Lead_term == c.term,
            _ => false,
        },
{
}

/// Every node behind a campaign that takes office by votes is this one, or granted its vote in a reply:
/// a peer that answered nothing counts for nothing.
pub proof fn law_votes_are_granted_in_replies(c: CampaignView, replies: Seq<(String, PeerReply)>, n: Seq<char>)
    requires
        nodes(c.tally(replies, false).granted).contains(n),
    ensures
        n == node(c.own) || exists|i: int| 0 <= i < replies.len() && (#[trigger] replies[i]).1 is Answered
            && replies[i].1->Answered_0.vote_granted && node(replies[i].0@) == n,
{
    let start = TallyView { granted: seq![c.own], highest_term: 0 };
    let ballots = ballots_in(replies, false);
    let granted = c.tally(replies, false).granted;
    let k = choose|k: int| 0 <= k < granted.len() && node(#[trigger] granted[k]) == n;
    law_a_tally_counts_only_grants(start, c.quorum, ballots, k);
    if k >= 1 {
        let j = choose|j: int| 0 <= j < ballots.len() && (#[trigger] ballots[j]).granted && ballots[j].voter@ == granted[k];
        assert(replies[j].1 is Answered);
    } else {
        assert(start.granted[0] == c.own);
    }
}

/// A timeout election raises its term only once a quorum has said that it would win, or where there
/// is nobody to ask.
pub proof fn law_no_term_is_raised_in_vain(c: CampaignView, event: CampaignEvent)
    requires
        c.next(event).1 is Stand,
        !c.forced(),
    ensures
        match event {
            CampaignEvent::PreVoted { replies, term } => c.quorum.decided(nodes(c.tally(replies@, true).granted)) && c.tally(
                replies@,
                true,
            ).highest_term <= term,
            CampaignEvent::TailsRead { .. } => c.next(event).0.lone() || c.next(event).0.peers().len() == 0,
            _ => false,
        },
{
}

/// A handover never waits, never looks for a leader and never asks for pre-votes.
pub proof fn law_a_handover_skips_the_courtesies(c: CampaignView, event: CampaignEvent)
    requires
        c.forced(),
    ensures
        !(c.next(event).1 is Wait),
        !(c.next(event).1 is SearchLeader),
        !(c.next(event).1 is PreVote),
{
}

/// A campaign that is over stays over.
pub proof fn law_an_ended_campaign_does_nothing_more(c: CampaignView, event: CampaignEvent)
    requires
        c.phase == Phase::Over,
    ensures
        c.next(event) == (c, CampaignActionView::Stop),
{
}

/// A campaign after the first `n` of some events.
pub open spec fn campaign_after(start: CampaignView, events: Seq<CampaignEvent>, n: int) -> CampaignView
    decreases n,
{
    if n <= 0 { start } else { campaign_after(start, events, n - 1).next(events[n - 1]).0 }
}

/// Whether an event is this node's vote for itself in a term, made durable.
pub open spec fn stood_durably(event: CampaignEvent, term: u64) -> bool {
    event is Stood && event->Stood_persisted && event->Stood_term == term
}

proof fn lemma_voting_follows_standing(start: CampaignView, events: Seq<CampaignEvent>, n: int)
    requires
        start.phase != Phase::Voting,
        0 <= n <= events.len(),
        campaign_after(start, events, n).phase == Phase::Voting,
    ensures
        n > 0 && stood_durably(events[n - 1], campaign_after(start, events, n).term),
{
}

/// Whatever happens on the way, a campaign leads a term only after this node's vote for itself in that
/// term was made durable: a vote that could be forgotten elects nobody.
pub proof fn law_a_leader_has_voted_durably(start: CampaignView, events: Seq<CampaignEvent>, n: int) -> (m: int)
    requires
        start.phase == Phase::Waiting || start.phase == Phase::Inspecting,
        0 < n <= events.len(),
        campaign_after(start, events, n - 1).next(events[n - 1]).1 is Lead,
    ensures
        0 <= m < n,
        stood_durably(events[m], campaign_after(start, events, n - 1).next(events[n - 1]).1->Lead_term),
{
    let c = campaign_after(start, events, n - 1);
    if c.phase == Phase::Voting {
        lemma_voting_follows_standing(start, events, n - 1);
        n - 2
    } else {
        n - 1
    }
}

/// A candidate asks every other voter of either half, and nobody else.
pub proof fn law_every_other_voter_is_asked(c: CampaignView, n: Seq<char>)
    ensures
        names(c.peers(), n) <==> n != node(c.own) && (names(c.quorum.voters, n) || (c.quorum.outgoing is Some && names(
            c.quorum.outgoing->0,
            n,
        ))),
{
    let all = c.quorum.all();
    law_canon_names_each_node_once(all);
    law_others_leave_one_node_out(canon(all), c.own);
    assert(nodes(c.peers()).contains(n) <==> nodes(all).contains(n) && n != node(c.own));
    let v = c.quorum.voters;
    if names(v, n) {
        let i = choose|i: int| 0 <= i < v.len() && node(#[trigger] v[i]) == n;
        assert(all[i] == v[i]);
    }
    if c.quorum.outgoing is Some {
        let o = c.quorum.outgoing->0;
        if names(o, n) {
            let i = choose|i: int| 0 <= i < o.len() && node(#[trigger] o[i]) == n;
            assert(all[v.len() + i] == o[i]);
        }
        if names(all, n) {
            let i = choose|i: int| 0 <= i < all.len() && node(#[trigger] all[i]) == n;
            if i < v.len() {
                assert(v[i] == all[i]);
            } else {
                assert(o[i - v.len()] == all[i]);
            }
        }
    }
}

/// A candidate offers what it holds: every log's tail and their summary, under its own name and URL.
pub proof fn law_a_candidate_offers_what_it_holds(c: CampaignView, term: u64, from: Option<Seq<char>>)
    ensures
        c.request(term, from).term == term,
        c.request(term, from).candidate_id == c.candidate_id,
        c.request(term, from).candidate_url == Some(c.own),
        c.request(term, from).logs == c.logs,
        c.request(term, from).last_term == c.tail.last_term && c.request(term, from).last_lsn == c.tail.last_lsn,
        c.request(term, from).transfer_from == from,
{
}

/// What a candidate does once it has looked at itself: a leader has nothing to stand for, a node that
/// may not vote looks for whom to follow, and one that was handed the office goes straight to its logs.
pub proof fn law_a_candidate_looks_at_itself_first(c: CampaignView, event: CampaignEvent)
    ensures
        ({
            let (after, action) = c.next(event);
            &&& c.phase is Waiting && event is Waited ==> action is Inspect && after.phase is Inspecting
            &&& c.phase is Inspecting && event is Inspected && event->is_leader ==> action is Stop
            &&& c.phase is Inspecting && event is Inspected && !event->is_leader && !event->in_quorum && c.forced_by is None
                ==> action is SearchLeader && after.phase is Following
            &&& c.phase is Inspecting && event is Inspected && !event->is_leader && !event->in_quorum && c.forced_by is Some
                ==> action is Stop
            &&& c.phase is Inspecting && event is Inspected && !event->is_leader && event->in_quorum && c.forced_by is Some
                ==> action is ReadTails && after.phase is Reading
            &&& c.phase is Inspecting && event is Inspected && !event->is_leader && event->in_quorum && c.forced_by is None
                ==> action is SearchLeader && after.phase is Searching
            &&& c.phase is Searching && event is Searched && event->found ==> action is Stop
            &&& c.phase is Searching && event is Searched && !event->found ==> action is ReadTails && after.phase is Reading
            &&& c.phase is Following ==> action is Stop
            &&& after.own == c.own && after.candidate_id == c.candidate_id && after.forced_by == c.forced_by
        }),
{
}

/// What a candidate does with its logs: unless it was handed the office or is alone it asks the others
/// first whether they would vote for it, at the next term, and it stands only where a quorum would.
pub proof fn law_a_candidate_asks_before_it_stands(c: CampaignView, event: CampaignEvent)
    ensures
        ({
            let (after, action) = c.next(event);
            let read = c.phase is Reading && event is TailsRead;
            let asked = c.phase is PreVoting && event is PreVoted;
            let polled = c.tally(event->PreVoted_replies@, true);
            &&& read ==> after.quorum == event->quorum@ && after.logs == event->logs@ && after.tail == event->tail
            &&& read && c.forced_by is None && !after.lone() && after.peers().len() > 0 && event->TailsRead_term < u64::MAX ==> {
                &&& action is PreVote && after.phase is PreVoting
                &&& action->PreVote_peers == after.peers()
                &&& action->PreVote_request == after.request((event->TailsRead_term + 1) as u64, None)
                &&& after.term == event->TailsRead_term + 1
            }
            &&& read && (c.forced_by is Some || after.lone() || after.peers().len() == 0) ==> action is Stand && after.phase is Standing
            &&& asked && polled.highest_term > event->PreVoted_term ==> action == (CampaignActionView::Demote { term: polled.highest_term })
            &&& asked && polled.highest_term <= event->PreVoted_term && !c.quorum.decided(nodes(polled.granted)) ==> action is Recover
            &&& asked && polled.highest_term <= event->PreVoted_term && c.quorum.decided(nodes(polled.granted)) ==> action is Stand
                && after.phase is Standing
        }),
{
}

/// What a candidate does once it stands: without a durable vote for itself nothing, alone it leads, and
/// otherwise it asks every other voter for its vote, at its own term and as what it stands.
pub proof fn law_a_candidate_that_stands_asks_everybody(c: CampaignView, event: CampaignEvent)
    ensures
        ({
            let (after, action) = c.next(event);
            let stood = c.phase is Standing && event is Stood;
            let voted = c.phase is Voting && event is Voted;
            let polled = c.tally(event->Voted_replies@, false);
            &&& stood && !event->persisted ==> action is Stop
            &&& stood && event->persisted && c.lone() ==> action == (CampaignActionView::Lead { term: event->Stood_term })
            &&& stood && event->persisted && !c.lone() && c.peers().len() == 0 ==> action is Stop
            &&& stood && event->persisted && !c.lone() && c.peers().len() > 0 ==> {
                &&& action is Vote && after.phase is Voting && after.term == event->Stood_term
                &&& action->Vote_peers == c.peers()
                &&& action->Vote_request == c.request(event->Stood_term, c.forced_by)
            }
            &&& voted && polled.highest_term > c.term ==> action == (CampaignActionView::Demote { term: polled.highest_term })
            &&& voted && polled.highest_term <= c.term && c.quorum.decided(nodes(polled.granted)) ==> action == (CampaignActionView::Lead {
                term: c.term,
            })
            &&& voted && polled.highest_term <= c.term && !c.quorum.decided(nodes(polled.granted)) ==> action is Stop
        }),
{
}

/// A candidate counts itself, and begins from no term.
pub proof fn law_a_candidate_counts_itself(c: CampaignView, replies: Seq<(String, PeerReply)>, absent_grants: bool)
    ensures
        c.tally(replies, absent_grants).granted.contains(c.own),
        c.tally(replies, absent_grants).highest_term == 0 || exists|i: int|
            0 <= i < replies.len() && (#[trigger] ballots_in(replies, absent_grants)[i]).term == c.tally(replies, absent_grants).highest_term,
{
    let start = TallyView { granted: seq![c.own], highest_term: 0 };
    law_an_undecided_tally_has_counted_everybody(start, c.quorum, ballots_in(replies, absent_grants));
    assert(start.granted[0] == c.own);
    assert(start.granted.contains(c.own));
}

} // verus!
