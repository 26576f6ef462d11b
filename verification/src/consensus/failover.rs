//! Follower watchdog: detect leader silence, find the new leader, step down.

use super::lease::{latest, newest, owes_silence, promise, promised, since};
use super::progress::Cursors;
use super::state::{apply_demotion, ReplicationMeta, ReplicationState, ReplicationStateView};
use crate::cluster::metadata::{
    anchor, group_with, lemma_picked, member_at, owners, picked_urls, ClusterMetadata, ClusterMetadataView,
    MemberView,
};
use crate::cluster::probe::{number_at, number_or_zero, text_at, text_of_member};
use crate::cluster::scan::pairs_view;
use crate::endpoint::{node, others, without_node};
use crate::json::{lemma_found, lemma_member_wf, lookup, members, ordered, Json, JsonView, Members};
use crate::lists::{lemma_joined_hold, lemma_take_all, lemma_take_grows};
use crate::name_map::{increasing, sorted_distinct, NameMap};
use crate::text::{
    copy_list, copy_opt, decimal, decimal_of, lemma_text_order, opt_is, opt_text, same_text, text_before, texts,
};
use vstd::prelude::*;

pub use super::lease::{HEARTBEAT_POLL_INTERVAL, HEARTBEAT_POLL_INTERVAL_MS};

verus! {

pub const PEER_PROBE_TIMEOUT_MS: u64 = 400;

pub const BOOT_DISCOVERY_RETRY_MS: u64 = 300;

// ---- Finding the leader ----

/// Where the cluster view says a leader may be: in this node's own group, or among all shard nodes
/// where the view records no groups, and at the node it follows. Scoped to the own group because a
/// follower that adopts another group's primary resyncs its whole database from a log it shares
/// nothing with.
pub open spec fn suggested(view: ClusterMetadataView, own: Seq<char>) -> Seq<Seq<char>> {
    let group = group_with(owners(view), anchor(view, own));
    let me = member_at(view.members, node(own));
    (if group is Some {
        seq![(group->0).0] + (group->0).1
    } else if view.ring is None && view.shards.len() == 0 {
        picked_urls(view.members, |m: MemberView| m.role == "shard"@)
    } else {
        Seq::empty()
    }) + (if me is Some && me->0.follows is Some { seq![me->0.follows->0] } else { Seq::empty() })
}

/// Everything this node knows of who may lead it.
pub struct Hints {
    pub config_replicas: Vec<String>,
    pub config_peers: Vec<String>,
    pub primary_addr: Option<String>,
    pub replicas: Vec<String>,
}

/// All of it, in the order in which it is gathered.
pub open spec fn hinted(h: Hints) -> Seq<Seq<char>> {
    texts(h.config_replicas@) + texts(h.config_peers@) + (match h.primary_addr {
        Some(p) => seq![p@],
        None => Seq::empty(),
    }) + texts(h.replicas@)
}

fn shard_members(view: &ClusterMetadata) -> (r: Vec<String>)
    ensures
        texts(r@) == picked_urls(view@.members, |m: MemberView| m.role == "shard"@),
{
    let ghost pick = |m: MemberView| m.role == "shard"@;
    let ghost all = view@.members;
    let mut out: Vec<String> = Vec::new();
    let mut i: usize = 0;
    assert(all.take(0) =~= Seq::empty());
    assert(texts(out@) =~= picked_urls(all.take(0), pick));
    while i < view.members.len()
        invariant
            pick == (|m: MemberView| m.role == "shard"@),
            all == view@.members,
            i <= view.members@.len(),
            texts(out@) == picked_urls(all.take(i as int), pick),
        decreases view.members@.len() - i,
    {
        proof {
            lemma_take_grows(all, i as int);
        }
        let m = &view.members[i];
        assert(all[i as int] == m@);
        let ghost before = texts(out@);
        if same_text(m.role.as_str(), "shard") {
            out.push(m.url.clone());
            assert(texts(out@) =~= before.push(m@.url));
        }
        i += 1;
    }
    proof {
        lemma_take_all(all);
    }
    out
}

fn extend(out: &mut Vec<String>, more: Vec<String>)
    ensures
        texts(final(out)@) == texts(old(out)@) + texts(more@),
{
    let ghost a = texts(out@);
    let ghost b = texts(more@);
    let mut more = more;
    out.append(&mut more);
    assert(texts(out@) =~= a + b);
}

/// Every node to ask whether it leads: what the configuration, the replication state and the cluster
/// view name, each once and not this node.
pub fn discovery_targets(view: &ClusterMetadata, own: &str, listen_addr: &str, hints: &Hints) -> (r: Vec<String>)
    ensures
        increasing(texts(r@)),
        texts(r@).to_set() == without_node(hinted(*hints) + suggested(view@, own@), listen_addr@).to_set(),
{
    let mut peers = copy_list(&hints.config_replicas);
    extend(&mut peers, copy_list(&hints.config_peers));
    let ghost so_far = texts(peers@);
    match &hints.primary_addr {
        Some(p) => {
            peers.push(p.clone());
            assert(texts(peers@) =~= so_far + seq![p@]);
        },
        None => {
            assert(texts(peers@) =~= so_far + Seq::<Seq<char>>::empty());
        },
    }
    extend(&mut peers, copy_list(&hints.replicas));
    assert(texts(peers@) == hinted(*hints));
    let mut found: Vec<String> = match view.shard_group(own) {
        Some(group) => group,
        None => if !view.groups_known() { shard_members(view) } else { Vec::new() },
    };
    let ghost placed = texts(found@);
    let follows: Option<String> = match view.member(own) {
        Some(m) => copy_opt(&m.follows),
        None => None,
    };
    match follows {
        Some(f) => {
            found.push(f);
            assert(texts(found@) =~= placed + seq![f@]);
        },
        None => {
            assert(texts(found@) =~= placed + Seq::<Seq<char>>::empty());
        },
    }
    proof {
        let group = group_with(owners(view@), anchor(view@, own@));
        if group is None && !(view@.ring is None && view@.shards.len() == 0) {
            assert(placed =~= Seq::empty());
        }
        assert(texts(found@) == suggested(view@, own@));
    }
    extend(&mut peers, found);
    sorted_distinct(&others(&peers, listen_addr))
}

/// The term at which a node says that it leads, if it does.
pub open spec fn claimed_term(hb: JsonView) -> Option<u64> {
    if text_of_member(hb.member("role"@)) == Some("primary"@) { Some(number_or_zero(hb.member("term"@))) } else { None }
}

pub fn leader_claim(hb: &Json) -> (r: Option<u64>)
    requires
        hb@.wf(),
    ensures
        r == claimed_term(hb@),
{
    let role = text_at(hb, "role");
    if opt_is(&role, "primary") { Some(number_at(hb, "term")) } else { None }
}

/// Whether the node at `i` is the leader to follow: it leads at a term no lower than ours, none leads
/// at a higher one, and it stands last among equals.
pub open spec fn to_follow(terms: Seq<Option<u64>>, our_term: u64, i: int) -> bool {
    &&& 0 <= i < terms.len()
    &&& terms[i] is Some
    &&& terms[i]->0 >= our_term
    &&& forall|j: int| 0 <= j < terms.len() && (#[trigger] terms[j]) is Some && terms[j]->0 >= our_term
        ==> terms[j]->0 <= terms[i]->0 && (j > i ==> terms[j]->0 < terms[i]->0)
}

/// The terms claimed in a list of answers.
pub open spec fn claimed_terms(v: Seq<(String, Option<u64>)>) -> Seq<Option<u64>> {
    Seq::new(v.len(), |i: int| v[i].1)
}

/// The leader to follow among the nodes that answered, where there is one.
pub open spec fn found_leader(v: Seq<(String, Option<u64>)>, our_term: u64) -> Option<Seq<char>> {
    if exists|i: int| to_follow(claimed_terms(v), our_term, i) {
        Some(v[choose|i: int| to_follow(claimed_terms(v), our_term, i)].0@)
    } else {
        None
    }
}

/// One node is the leader to follow.
proof fn lemma_one_leader(v: Seq<(String, Option<u64>)>, our_term: u64, i: int)
    requires
        to_follow(claimed_terms(v), our_term, i),
    ensures
        found_leader(v, our_term) == Some(v[i].0@),
{
    let ts = claimed_terms(v);
    let j = choose|j: int| to_follow(ts, our_term, j);
    assert(to_follow(ts, our_term, j));
    assert(ts[i] is Some && ts[j] is Some);
}

/// The leader among the nodes that answered. One behind our own term has already been superseded:
/// following it parks this node on a watermark it must not apply and holds off the election that
/// would resolve the split.
pub fn discover_leader(answers: &Vec<(String, Option<u64>)>, our_term: u64) -> (r: Option<String>)
    ensures
        opt_text(r) == found_leader(answers@, our_term),
        match r {
            Some(u) => exists|i: int| to_follow(claimed_terms(answers@), our_term, i) && u@ == (#[trigger] answers@[i]).0@,
            None => forall|i: int| 0 <= i < answers@.len() ==> !((#[trigger] answers@[i]).1 is Some && answers@[i].1->0 >= our_term),
        },
{
    let ghost ts = claimed_terms(answers@);
    let mut best: Option<(u64, usize)> = None;
    let mut i: usize = 0;
    while i < answers.len()
        invariant
            ts == claimed_terms(answers@),
            i <= answers@.len(),
            match best {
                Some((t, k)) => k < i && ts[k as int] == Some(t) && t >= our_term && forall|j: int| 0 <= j < i
                    && (#[trigger] ts[j]) is Some && ts[j]->0 >= our_term ==> ts[j]->0 <= t && (j > k ==> ts[j]->0 < t),
                None => forall|j: int| 0 <= j < i ==> !((#[trigger] ts[j]) is Some && ts[j]->0 >= our_term),
            },
        decreases answers@.len() - i,
    {
        assert(ts[i as int] == answers@[i as int].1);
        if let Some(t) = answers[i].1 {
            if t >= our_term {
                let take = match best {
                    Some((b, _)) => t >= b,
                    None => true,
                };
                if take {
                    best = Some((t, i));
                }
            }
        }
        i += 1;
    }
    match best {
        Some((_, k)) => {
            assert(to_follow(ts, our_term, k as int));
            proof {
                lemma_one_leader(answers@, our_term, k as int);
            }
            Some(answers[k].0.clone())
        },
        None => {
            proof {
                assert forall|j: int| 0 <= j < answers@.len() implies !((#[trigger] answers@[j]).1 is Some && answers@[j].1->0 >= our_term) by {
                    assert(ts[j] == answers@[j].1);
                }
                assert forall|j: int| !to_follow(ts, our_term, j) by {
                    if 0 <= j < ts.len() {
                        assert(ts[j] == answers@[j].1);
                    }
                }
            }
            None
        },
    }
}

/// A state that follows a leader, heard from just now.
pub open spec fn following(s: ReplicationStateView, leader: Seq<char>, now: u64) -> ReplicationStateView {
    ReplicationStateView { primary_addr: Some(leader), last_heartbeat: Some(now), ..s }
}

/// Follows a leader found while the one followed answers badly. Returns whether anything changed, so
/// that a resync is due.
pub fn maybe_follow_new_leader(repl: &mut ReplicationState, leader: Option<String>, current_primary: &str, now: u64) -> (r: bool)
    ensures
        r == (!old(repl)@.is_leader && leader is Some && leader->0@ != current_primary@
            && old(repl)@.primary_addr != Some(leader->0@)),
        final(repl)@ == (if r { following(old(repl)@, leader->0@, now) } else { old(repl)@ }),
{
    if repl.is_leader {
        return false;
    }
    match leader {
        None => false,
        Some(leader) => {
            if same_text(leader.as_str(), current_primary) || opt_is(&repl.primary_addr, leader.as_str()) {
                return false;
            }
            repl.primary_addr = Some(leader);
            repl.last_heartbeat = Some(now);
            true
        },
    }
}

/// What came of looking for a leader before standing for election.
#[derive(Clone, Copy, Debug, PartialEq, Eq, Structural)]
pub enum LeaderFound {
    Nobody,
    /// The one already followed.
    Same,
    /// Another one: a resync is due.
    Changed,
}

/// Follows a leader that is serving instead of standing for election.
pub fn adopt_existing_leader(repl: &mut ReplicationState, leader: Option<String>, now: u64) -> (r: LeaderFound)
    ensures
        r == (if leader is None {
            LeaderFound::Nobody
        } else if old(repl)@.primary_addr == Some(leader->0@) {
            LeaderFound::Same
        } else {
            LeaderFound::Changed
        }),
        final(repl)@ == (if leader is Some { following(old(repl)@, leader->0@, now) } else { old(repl)@ }),
{
    match leader {
        None => LeaderFound::Nobody,
        Some(leader) => {
            let same = opt_is(&repl.primary_addr, leader.as_str());
            repl.primary_addr = Some(leader);
            repl.last_heartbeat = Some(now);
            if same { LeaderFound::Same } else { LeaderFound::Changed }
        },
    }
}

/// What boot does next while it looks for a leader to catch up with.
#[derive(Debug, PartialEq, Eq)]
pub enum BootStep {
    /// This leader answered; sync from it.
    Sync(String),
    /// Nobody answered yet; ask again.
    Retry,
    /// Time is up: local state is kept rather than overwritten from an unverified source.
    KeepLocal,
}

/// Boot-time catch-up for a configured replica. The configured primary is a bootstrap seed, not a
/// fact: it can name a leader deposed while this node was down, and installing that node's snapshot
/// would adopt a superseded log over local state. So only a leader that answers is synced from.
pub fn boot_resync(repl: &mut ReplicationState, answers: &Vec<(String, Option<u64>)>, now: u64, deadline: u64) -> (r: BootStep)
    ensures
        ({
            let leader = found_leader(answers@, old(repl)@.term);
            match r {
                BootStep::Sync(from) => leader == Some(from@) && final(repl)@ == following(old(repl)@, from@, now),
                BootStep::KeepLocal => leader is None && now >= deadline && final(repl)@ == old(repl)@,
                BootStep::Retry => leader is None && now < deadline && final(repl)@ == old(repl)@,
            }
        }),
{
    match discover_leader(answers, repl.term) {
        Some(leader) => {
            repl.primary_addr = Some(leader.clone());
            repl.last_heartbeat = Some(now);
            BootStep::Sync(leader)
        },
        None => if now >= deadline { BootStep::KeepLocal } else { BootStep::Retry },
    }
}

// ---- Stepping down ----

/// What follows from stepping down.
pub struct SteppedDown {
    /// Whether the heartbeat poll has to be started.
    pub restart: bool,
    /// What is to be made durable.
    pub record: ReplicationMeta,
}

/// Steps down on sight of a higher term. The record forgets the vote: it was of an earlier term.
pub fn demote(repl: &mut ReplicationState, new_term: u64, now: u64) -> (r: Option<SteppedDown>)
    ensures
        new_term <= old(repl)@.term ==> r is None && final(repl)@ == old(repl)@,
        new_term > old(repl)@.term ==> r is Some && r->0.restart == !old(repl)@.heartbeat_running
            && r->0.record.term == new_term && !r->0.record.is_leader && r->0.record.voted_for is None
            && final(repl)@ == old(repl)@.demoted(new_term, now),
{
    match apply_demotion(repl, new_term, now) {
        Some(restart) => Some(
            SteppedDown { restart, record: ReplicationMeta { term: new_term, is_leader: false, voted_for: None } },
        ),
        None => None,
    }
}

/// Follows the leader that a node which stepped down finds, where it finds one, and says from whom to
/// resync. It has not been heard from as a follower yet, so contact counts from the stepping down.
pub fn follow_after_demotion(repl: &mut ReplicationState, answers: &Vec<(String, Option<u64>)>) -> (r: Option<String>)
    ensures
        opt_text(r) == found_leader(answers@, old(repl)@.term),
        final(repl)@ == (match opt_text(r) {
            Some(leader) => ReplicationStateView { primary_addr: Some(leader), ..old(repl)@ },
            None => old(repl)@,
        }),
{
    match discover_leader(answers, repl.term) {
        Some(leader) => {
            repl.primary_addr = Some(leader.clone());
            Some(leader)
        },
        None => None,
    }
}

/// Gives up leadership at the current term, so the voters this node can no longer reach are free to
/// elect one that can. The vote is kept: the term has not moved, and a node that forgot voting for
/// itself could seat a second leader in it.
pub fn step_down_without_quorum(repl: &mut ReplicationState, now: u64) -> (r: Option<SteppedDown>)
    ensures
        !old(repl)@.is_leader ==> r is None && final(repl)@ == old(repl)@,
        old(repl)@.is_leader ==> r is Some && r->0.restart == !old(repl)@.heartbeat_running
            && r->0.record.term == old(repl)@.term && !r->0.record.is_leader
            && opt_text(r->0.record.voted_for) == old(repl)@.voted_for
            && final(repl)@ == (ReplicationStateView { voted_for: old(repl)@.voted_for, ..old(repl)@.demoted(old(repl)@.term, now) }),
{
    if !repl.is_leader {
        return None;
    }
    repl.is_leader = false;
    repl.progress.reset();
    repl.last_heartbeat = Some(now);
    repl.last_replication = None;
    repl.was_receiving_replication = false;
    let restart = !repl.heartbeat_running;
    repl.heartbeat_running = true;
    Some(
        SteppedDown {
            restart,
            record: ReplicationMeta { term: repl.term, is_leader: false, voted_for: copy_opt(&repl.voted_for) },
        },
    )
}

/// How often a leader checks its contact: four chances inside the window whatever the timeout, so a
/// leader is never deposed by two scheduler hiccups on a short one.
pub fn contact_interval(timeout: u64) -> (r: u64)
    ensures
        r == (if timeout / 4 < HEARTBEAT_POLL_INTERVAL { (timeout / 4) as u64 } else { HEARTBEAT_POLL_INTERVAL }),
        timeout > 0 ==> r < timeout,
{
    if timeout / 4 < HEARTBEAT_POLL_INTERVAL { timeout / 4 } else { HEARTBEAT_POLL_INTERVAL }
}

/// What a leader's contact check asks for.
#[derive(Clone, Copy, Debug, PartialEq, Eq, Structural)]
pub enum ContactStep {
    /// Not leading: nothing to check.
    Idle,
    /// Probe the replicas and stay.
    Stay,
    /// Probe the replicas and step down: no majority answers.
    StepDown,
}

/// A follower's poll proves the leader's *inbound* path, so an asymmetric partition leaves every
/// inbound signal healthy while nothing the leader sends arrives. The probe is the only outbound
/// evidence an idle leader has.
pub fn leader_contact_task(is_leader: bool, holds_contact_quorum: bool) -> (r: ContactStep)
    ensures
        r == (if !is_leader {
            ContactStep::Idle
        } else if holds_contact_quorum {
            ContactStep::Stay
        } else {
            ContactStep::StepDown
        }),
{
    if !is_leader {
        ContactStep::Idle
    } else if holds_contact_quorum {
        ContactStep::Stay
    } else {
        ContactStep::StepDown
    }
}

/// The term a replica reports, where it deposes this node.
pub fn probe_replica(body: Option<&Json>, current_term: u64) -> (r: Option<u64>)
    requires
        body is Some ==> body->0@.wf(),
    ensures
        r == ({
            let their = match body {
                Some(b) => number_or_zero(b@.member("term"@)),
                None => 0,
            };
            if their > current_term { Some(their) } else { None }
        }),
{
    let their: u64 = match body {
        Some(b) => number_at(b, "term"),
        None => 0,
    };
    if their > current_term { Some(their) } else { None }
}

// ---- Resyncing ----

/// Claims the resync of a collection; whether it was free. One that is under way already is waited
/// for and not run a second time.
pub fn begin_resync(resyncing: &mut NameMap<bool>, collection: &str) -> (r: bool)
    ensures
        r == !old(resyncing)@.dom().contains(collection@),
        final(resyncing)@.dom() == old(resyncing)@.dom().insert(collection@),
{
    if resyncing.holds(collection) {
        assert(resyncing@.dom().insert(collection@) =~= resyncing@.dom());
        return false;
    }
    resyncing.insert(collection.to_owned(), true);
    true
}

/// Gives up the claim on a collection's resync, however it ended.
pub fn end_resync(resyncing: &mut NameMap<bool>, collection: &str)
    ensures
        final(resyncing)@.dom() == old(resyncing)@.dom().remove(collection@),
{
    let ghost before = resyncing@;
    let was = resyncing.remove(collection);
    assert(before.remove(collection@).dom() =~= before.dom().remove(collection@));
}

// ---- Hearing from the leader ----

/// Whether the leader has gone quiet: the newer of the two signals is a timeout old. A node that
/// never heard anything counts from its own start.
pub open spec fn quiet(last_heartbeat: Option<u64>, last_replication: Option<u64>, since_start: u64, timeout: u64, now: u64) -> bool {
    match latest(last_heartbeat, last_replication) {
        Some(t) => since(now, t) >= timeout,
        None => since_start >= timeout,
    }
}

/// Newer of the two signals: requiring fresh replication under a stale heartbeat never holds.
pub fn contact_lost(last_heartbeat: Option<u64>, last_replication: Option<u64>, since_start: u64, timeout: u64, now: u64) -> (r: bool)
    ensures
        r == quiet(last_heartbeat, last_replication, since_start, timeout, now),
{
    match newest(last_heartbeat, last_replication) {
        Some(t) => now.saturating_sub(t) >= timeout,
        None => since_start >= timeout,
    }
}

/// A node that owes its leader silence does not stand for election itself.
pub proof fn law_silence_and_candidacy_exclude_each_other(
    last_heartbeat: Option<u64>,
    last_replication: Option<u64>,
    since_boot: u64,
    since_start: u64,
    timeout: u64,
    now: u64,
)
    requires
        timeout > 0,
        since_start <= since_boot,
        owes_silence(
            match latest(last_heartbeat, last_replication) {
                Some(t) => Some(since(now, t)),
                None => None,
            },
            since_boot,
            timeout,
        ),
        latest(last_heartbeat, last_replication) is Some ==> since(now, latest(last_heartbeat, last_replication)->0) <= since_boot,
    ensures
        !quiet(last_heartbeat, last_replication, since_start, timeout, now),
{
}

/// The members of an object whose value is a number.
pub open spec fn numbers_in(m: Members, n: int) -> Seq<(Seq<char>, u64)>
    decreases n,
{
    if n <= 0 {
        Seq::empty()
    } else {
        let before = numbers_in(m, n - 1);
        match m[n - 1].1.number() {
            Some(v) => before.push((m[n - 1].0, v)),
            None => before,
        }
    }
}

/// The commit watermarks that a heartbeat carries.
pub open spec fn told_commits(hb: JsonView) -> Seq<(Seq<char>, u64)> {
    match hb.member("committed"@) {
        Some(JsonView::Object(m)) => numbers_in(m, m.len() as int),
        _ => Seq::empty(),
    }
}

/// The contents of a list of watermarks.
pub open spec fn marks(v: Seq<(String, u64)>) -> Seq<(Seq<char>, u64)> {
    Seq::new(v.len(), |i: int| (v[i].0@, v[i].1))
}

fn commits_in(hb: &Json) -> (r: Vec<(String, u64)>)
    requires
        hb@.wf(),
    ensures
        marks(r@) == told_commits(hb@),
{
    let mut out: Vec<(String, u64)> = Vec::new();
    assert(marks(out@) =~= Seq::empty());
    if let Some(c) = hb.get("committed") {
        proof {
            crate::json::lemma_model(*c);
        }
        if let Json::Object(m) = c {
            let ghost ms = members(m@);
            let mut i: usize = 0;
            while i < m.len()
                invariant
                    ms == members(m@),
                    i <= m@.len(),
                    marks(out@) == numbers_in(ms, i as int),
                decreases m@.len() - i,
            {
                let ghost before = marks(out@);
                if let Some(v) = m[i].1.as_u64() {
                    out.push((m[i].0.clone(), v));
                    assert(marks(out@) =~= before.push((m@[i as int].0@, v)));
                }
                i += 1;
            }
        }
    }
    out
}

/// What a heartbeat from the leader brought.
pub struct Beat {
    /// A higher term that was adopted, and is to be made durable.
    pub adopted: Option<u64>,
    /// Whether the answer counts as leader contact.
    pub trusted: bool,
    /// The commit watermarks it carried, where it is trusted.
    pub committed: Vec<(String, u64)>,
    /// Whether the sender holds a newer cluster view.
    pub fetch_view: bool,
}

pub ghost struct BeatView {
    pub adopted: Option<u64>,
    pub trusted: bool,
    pub committed: Seq<(Seq<char>, u64)>,
    pub fetch_view: bool,
}

impl View for Beat {
    type V = BeatView;

    open spec fn view(&self) -> BeatView {
        BeatView { adopted: self.adopted, trusted: self.trusted, committed: marks(self.committed@), fetch_view: self.fetch_view }
    }
}

/// The term after a heartbeat.
pub open spec fn term_after(term: u64, hb: JsonView) -> u64 {
    if number_or_zero(hb.member("term"@)) > term { number_or_zero(hb.member("term"@)) } else { term }
}

/// Whether a heartbeat comes from a node still leading at a term this node accepts: a deposed one
/// keeps answering with the term it held.
pub open spec fn trusted_beat(term: u64, hb: JsonView) -> bool {
    claimed_term(hb) is Some && claimed_term(hb)->0 >= term_after(term, hb)
}

/// The state after a heartbeat.
pub open spec fn after_beat(s: ReplicationStateView, hb: JsonView, now: u64) -> ReplicationStateView {
    let their = number_or_zero(hb.member("term"@));
    let raised = if their > s.term { ReplicationStateView { term: their, voted_for: None, ..s } } else { s };
    if trusted_beat(s.term, hb) {
        ReplicationStateView {
            last_heartbeat: Some(now),
            last_known_primary_position: match hb.member("commit_index"@) {
                Some(v) => match v.number() {
                    Some(n) => Some(n),
                    None => s.last_known_primary_position,
                },
                None => s.last_known_primary_position,
            },
            ..raised
        }
    } else {
        raised
    }
}

/// What a heartbeat brings to a node at a term with a cluster view.
pub open spec fn beat_of(term: u64, hb: JsonView, cluster_version: u64) -> BeatView {
    let their = number_or_zero(hb.member("term"@));
    BeatView {
        adopted: if their > term { Some(their) } else { None },
        trusted: trusted_beat(term, hb),
        committed: if trusted_beat(term, hb) { told_commits(hb) } else { Seq::empty() },
        fetch_view: number_or_zero(hb.member("cluster_version"@)) > cluster_version,
    }
}

/// Takes in the leader's answer to a poll.
pub fn apply_heartbeat(repl: &mut ReplicationState, hb: &Json, now: u64, cluster_version: u64) -> (r: Beat)
    requires
        hb@.wf(),
    ensures
        final(repl)@ == after_beat(old(repl)@, hb@, now),
        r@ == beat_of(old(repl)@.term, hb@, cluster_version),
{
    let their = number_at(hb, "term");
    let leading = leader_claim(hb).is_some();
    let mut adopted: Option<u64> = None;
    if their > repl.term {
        repl.term = their;
        repl.voted_for = None;
        adopted = Some(their);
    }
    let trusted = leading && their >= repl.term;
    let committed: Vec<(String, u64)> = if trusted { commits_in(hb) } else { Vec::new() };
    if trusted {
        repl.last_heartbeat = Some(now);
        if let Some(v) = hb.get("commit_index") {
            if let Some(idx) = v.as_u64() {
                repl.last_known_primary_position = Some(idx);
            }
        }
    }
    proof {
        if !trusted {
            assert(marks(committed@) =~= Seq::empty());
        }
    }
    let fetch_view = number_at(hb, "cluster_version") > cluster_version;
    Beat { adopted, trusted, committed, fetch_view }
}

/// A heartbeat never lowers the term, and a vote outlives it only as long as its term does.
pub proof fn law_a_beat_never_lowers_the_term(s: ReplicationStateView, hb: JsonView, now: u64)
    ensures
        s.term <= after_beat(s, hb, now).term,
        after_beat(s, hb, now).term == s.term ==> after_beat(s, hb, now).voted_for == s.voted_for,
        after_beat(s, hb, now).term != s.term ==> after_beat(s, hb, now).voted_for is None,
{
}

// ---- The poll ----

/// What a poll sends along: who asks, at which term, and for how long this node will go on
/// withholding its vote.
pub fn poll_promise(repl: &ReplicationState, timeout: u64, now: u64) -> (r: (u64, u64))
    ensures
        r.0 == repl@.term,
        r.1 == promised(
            match latest(repl@.last_heartbeat, repl@.last_replication) {
                Some(t) => Some(since(now, t)),
                None => None,
            },
            timeout,
        ),
{
    let age = super::lease::contact_age(repl.last_heartbeat, repl.last_replication, now);
    (repl.term, promise(age, timeout))
}

/// What the poll is waiting for.
#[derive(Debug, PartialEq, Eq)]
pub enum PollPhase {
    Sleeping,
    /// This primary to answer.
    Asking { primary: String },
    /// The search for another leader than this primary, which answered badly.
    Following { primary: String },
    Checking,
    /// The search for a leader, now that contact is lost.
    Adopting,
    Electing,
    Over,
}

pub ghost enum PollPhaseView {
    Sleeping,
    Asking { primary: Seq<char> },
    Following { primary: Seq<char> },
    Checking,
    Adopting,
    Electing,
    Over,
}

impl View for PollPhase {
    type V = PollPhaseView;

    open spec fn view(&self) -> PollPhaseView {
        match *self {
            PollPhase::Sleeping => PollPhaseView::Sleeping,
            PollPhase::Asking { primary } => PollPhaseView::Asking { primary: primary@ },
            PollPhase::Following { primary } => PollPhaseView::Following { primary: primary@ },
            PollPhase::Checking => PollPhaseView::Checking,
            PollPhase::Adopting => PollPhaseView::Adopting,
            PollPhase::Electing => PollPhaseView::Electing,
            PollPhase::Over => PollPhaseView::Over,
        }
    }
}

/// What stays the same over a poll: who polls, how long contact may be lost, and when the poll began, in
/// monotonic nanoseconds.
pub struct PollSettings {
    pub own: String,
    pub timeout: u64,
    pub started: u64,
}

/// What happened outside.
pub enum PollEvent {
    /// The interval passed.
    Woke,
    /// The primary answered, with this where its answer is JSON.
    Answered { hb: Option<Json> },
    /// The primary answered with an error.
    AnsweredBadly,
    Unreachable,
    /// What was asked for after the last answer is done.
    Settled,
    /// Who may lead was asked: each with the term at which it says that it leads, if it does.
    LookedForLeader { answers: Vec<(String, Option<u64>)> },
    /// The election is over.
    Stood,
}

/// What to do next.
#[derive(Debug, PartialEq, Eq)]
pub enum PollAction {
    Sleep,
    /// Ask this node for its heartbeat, with these parameters.
    AskPrimary { to: String, query: Vec<(String, String)> },
    LookForLeader,
    /// Look at the contact with the leader once what the step brings is done.
    CheckContact,
    StandForElection,
    Stop,
}

pub ghost enum PollActionView {
    Sleep,
    AskPrimary { to: Seq<char>, query: Seq<(Seq<char>, Seq<char>)> },
    LookForLeader,
    CheckContact,
    StandForElection,
    Stop,
}

impl View for PollAction {
    type V = PollActionView;

    open spec fn view(&self) -> PollActionView {
        match *self {
            PollAction::Sleep => PollActionView::Sleep,
            PollAction::AskPrimary { to, query } => PollActionView::AskPrimary { to: to@, query: pairs_view(query@) },
            PollAction::LookForLeader => PollActionView::LookForLeader,
            PollAction::CheckContact => PollActionView::CheckContact,
            PollAction::StandForElection => PollActionView::StandForElection,
            PollAction::Stop => PollActionView::Stop,
        }
    }
}

/// One step of the poll.
pub struct PollStep {
    pub phase: PollPhase,
    pub action: PollAction,
    /// What the leader's answer brought: an adopted term to make durable, watermarks to note, a view to
    /// fetch.
    pub beat: Option<Beat>,
    /// A leader that is newly followed: every collection is to be resynced from it.
    pub resync: Option<String>,
}

pub ghost struct PollStepView {
    pub phase: PollPhaseView,
    pub action: PollActionView,
    pub beat: Option<BeatView>,
    pub resync: Option<Seq<char>>,
}

impl View for PollStep {
    type V = PollStepView;

    open spec fn view(&self) -> PollStepView {
        PollStepView {
            phase: self.phase@,
            action: self.action@,
            beat: match self.beat {
                Some(b) => Some(b@),
                None => None,
            },
            resync: opt_text(self.resync),
        }
    }
}

/// A step that brings nothing.
pub open spec fn poll_to(phase: PollPhaseView, action: PollActionView) -> PollStepView {
    PollStepView { phase, action, beat: None, resync: None }
}

/// What a poll asks with.
pub open spec fn poll_query(own: Seq<char>, s: ReplicationStateView, timeout: u64, now: u64) -> Seq<(Seq<char>, Seq<char>)> {
    let age = match latest(s.last_heartbeat, s.last_replication) {
        Some(t) => Some(since(now, t)),
        None => None,
    };
    seq![
        ("from"@, own),
        ("term"@, decimal_of(s.term as nat)),
        ("novote_ms"@, decimal_of((promised(age, timeout) / 1_000_000) as nat)),
    ]
}

/// The step and the state after an event. An event that the poll is not waiting for ends it.
pub open spec fn poll_next(
    phase: PollPhaseView,
    s: ReplicationStateView,
    poll: PollSettings,
    cluster_version: u64,
    event: PollEvent,
    now: u64,
) -> (PollStepView, ReplicationStateView) {
    match (phase, event) {
        (PollPhaseView::Sleeping, PollEvent::Woke) => (
            if s.is_leader || !s.heartbeat_running {
                poll_to(PollPhaseView::Over, PollActionView::Stop)
            } else {
                match s.primary_addr {
                    Some(p) => poll_to(
                        PollPhaseView::Asking { primary: p },
                        PollActionView::AskPrimary { to: p, query: poll_query(poll.own@, s, poll.timeout, now) },
                    ),
                    None => poll_to(PollPhaseView::Checking, PollActionView::CheckContact),
                }
            },
            s,
        ),
        (PollPhaseView::Asking { primary }, PollEvent::Answered { hb }) => match hb {
            Some(hb) => (
                PollStepView {
                    beat: Some(beat_of(s.term, hb@, cluster_version)),
                    ..poll_to(PollPhaseView::Checking, PollActionView::CheckContact)
                },
                after_beat(s, hb@, now),
            ),
            None => (poll_to(PollPhaseView::Checking, PollActionView::CheckContact), s),
        },
        (PollPhaseView::Asking { primary }, PollEvent::AnsweredBadly) => (
            poll_to(PollPhaseView::Following { primary }, PollActionView::LookForLeader),
            s,
        ),
        (PollPhaseView::Asking { primary }, PollEvent::Unreachable) => (
            poll_to(PollPhaseView::Checking, PollActionView::CheckContact),
            s,
        ),
        (PollPhaseView::Following { primary }, PollEvent::LookedForLeader { answers }) => {
            let leader = found_leader(answers@, s.term);
            let to = poll_to(PollPhaseView::Checking, PollActionView::CheckContact);
            if !s.is_leader && leader is Some && leader->0 != primary && s.primary_addr != leader {
                (PollStepView { resync: leader, ..to }, following(s, leader->0, now))
            } else {
                (to, s)
            }
        },
        (PollPhaseView::Checking, PollEvent::Settled) => (
            if quiet(s.last_heartbeat, s.last_replication, since(now, poll.started), poll.timeout, now) {
                poll_to(PollPhaseView::Adopting, PollActionView::LookForLeader)
            } else {
                poll_to(PollPhaseView::Sleeping, PollActionView::Sleep)
            },
            s,
        ),
        (PollPhaseView::Adopting, PollEvent::LookedForLeader { answers }) => {
            let leader = found_leader(answers@, s.term);
            let asleep = poll_to(PollPhaseView::Sleeping, PollActionView::Sleep);
            if leader is None {
                (poll_to(PollPhaseView::Electing, PollActionView::StandForElection), s)
            } else if s.primary_addr == leader {
                (asleep, following(s, leader->0, now))
            } else {
                (PollStepView { resync: leader, ..asleep }, following(s, leader->0, now))
            }
        },
        (PollPhaseView::Electing, PollEvent::Stood) => (
            if s.is_leader {
                poll_to(PollPhaseView::Over, PollActionView::Stop)
            } else {
                poll_to(PollPhaseView::Sleeping, PollActionView::Sleep)
            },
            s,
        ),
        _ => (poll_to(PollPhaseView::Over, PollActionView::Stop), s),
    }
}

fn plain_step(phase: PollPhase, action: PollAction) -> (r: PollStep)
    ensures
        r@ == poll_to(phase@, action@),
{
    PollStep { phase, action, beat: None, resync: None }
}

fn asked_with(own: &str, term: u64, promise: u64) -> (r: Vec<(String, String)>)
    ensures
        pairs_view(r@) == seq![
            ("from"@, own@),
            ("term"@, decimal_of(term as nat)),
            ("novote_ms"@, decimal_of((promise / 1_000_000) as nat)),
        ],
{
    let mut q: Vec<(String, String)> = Vec::new();
    q.push(("from".to_owned(), own.to_owned()));
    q.push(("term".to_owned(), decimal(term)));
    q.push(("novote_ms".to_owned(), decimal(promise / 1_000_000)));
    assert(pairs_view(q@) =~= seq![
        ("from"@, own@),
        ("term"@, decimal_of(term as nat)),
        ("novote_ms"@, decimal_of((promise / 1_000_000) as nat)),
    ]);
    q
}

/// One step of the follower's watchdog, on the state that it watches. The poll a follower sends anyway
/// carries how long this node will go on withholding its vote, which is the round the leader's reads no
/// longer have to pay.
pub fn heartbeat_poll_task(
    phase: PollPhase,
    repl: &mut ReplicationState,
    poll: &PollSettings,
    cluster_version: u64,
    event: PollEvent,
    now: u64,
) -> (r: PollStep)
    requires
        event is Answered && event->hb is Some ==> event->hb->0@.wf(),
    ensures
        (r@, final(repl)@) == poll_next(phase@, old(repl)@, *poll, cluster_version, event, now),
{
    match (phase, event) {
        (PollPhase::Sleeping, PollEvent::Woke) => {
            if repl.is_leader || !repl.heartbeat_running {
                return plain_step(PollPhase::Over, PollAction::Stop);
            }
            let (term, promise) = poll_promise(repl, poll.timeout, now);
            match &repl.primary_addr {
                Some(p) => {
                    let query = asked_with(poll.own.as_str(), term, promise);
                    plain_step(PollPhase::Asking { primary: p.clone() }, PollAction::AskPrimary { to: p.clone(), query })
                },
                None => plain_step(PollPhase::Checking, PollAction::CheckContact),
            }
        },
        (PollPhase::Asking { primary }, PollEvent::Answered { hb }) => match hb {
            Some(hb) => {
                let beat = apply_heartbeat(repl, &hb, now, cluster_version);
                PollStep { phase: PollPhase::Checking, action: PollAction::CheckContact, beat: Some(beat), resync: None }
            },
            None => plain_step(PollPhase::Checking, PollAction::CheckContact),
        },
        (PollPhase::Asking { primary }, PollEvent::AnsweredBadly) => plain_step(
            PollPhase::Following { primary },
            PollAction::LookForLeader,
        ),
        (PollPhase::Asking { primary }, PollEvent::Unreachable) => plain_step(PollPhase::Checking, PollAction::CheckContact),
        (PollPhase::Following { primary }, PollEvent::LookedForLeader { answers }) => {
            let leader = discover_leader(&answers, repl.term);
            let named = copy_opt(&leader);
            let changed = maybe_follow_new_leader(repl, leader, primary.as_str(), now);
            PollStep {
                phase: PollPhase::Checking,
                action: PollAction::CheckContact,
                beat: None,
                resync: if changed { named } else { None },
            }
        },
        (PollPhase::Checking, PollEvent::Settled) => {
            let since_start: u64 = now.saturating_sub(poll.started);
            if contact_lost(repl.last_heartbeat, repl.last_replication, since_start, poll.timeout, now) {
                plain_step(PollPhase::Adopting, PollAction::LookForLeader)
            } else {
                plain_step(PollPhase::Sleeping, PollAction::Sleep)
            }
        },
        (PollPhase::Adopting, PollEvent::LookedForLeader { answers }) => {
            let leader = discover_leader(&answers, repl.term);
            let named = copy_opt(&leader);
            match adopt_existing_leader(repl, leader, now) {
                LeaderFound::Nobody => plain_step(PollPhase::Electing, PollAction::StandForElection),
                LeaderFound::Same => plain_step(PollPhase::Sleeping, PollAction::Sleep),
                LeaderFound::Changed => PollStep {
                    phase: PollPhase::Sleeping,
                    action: PollAction::Sleep,
                    beat: None,
                    resync: named,
                },
            }
        },
        (PollPhase::Electing, PollEvent::Stood) => if repl.is_leader {
            plain_step(PollPhase::Over, PollAction::Stop)
        } else {
            plain_step(PollPhase::Sleeping, PollAction::Sleep)
        },
        _ => plain_step(PollPhase::Over, PollAction::Stop),
    }
}

/// A node stands for election only after no leader was found in a search that its leader's silence
/// began.
pub proof fn law_an_election_follows_silence(
    phase: PollPhaseView,
    s: ReplicationStateView,
    poll: PollSettings,
    cluster_version: u64,
    event: PollEvent,
    now: u64,
)
    ensures
        ({
            let (step, _) = poll_next(phase, s, poll, cluster_version, event, now);
            &&& step.action is StandForElection ==> phase is Adopting && event is LookedForLeader && found_leader(event->answers@, s.term)
                is None
            &&& step.phase is Adopting ==> phase is Checking && quiet(
                s.last_heartbeat,
                s.last_replication,
                since(now, poll.started),
                poll.timeout,
                now,
            )
        }),
{
}

/// Watching never lowers the term, and a leader is followed only at a term no lower than this node's.
pub proof fn law_watching_never_goes_back(
    phase: PollPhaseView,
    s: ReplicationStateView,
    poll: PollSettings,
    cluster_version: u64,
    event: PollEvent,
    now: u64,
)
    ensures
        ({
            let (step, after) = poll_next(phase, s, poll, cluster_version, event, now);
            &&& after.term >= s.term
            &&& after.is_leader == s.is_leader
            &&& step.resync is Some ==> event is LookedForLeader && after.primary_addr == step.resync && exists|i: int|
                0 <= i < event->answers@.len() && (#[trigger] event->answers@[i]).0@ == step.resync->0 && event->answers@[i].1 is Some
                    && event->answers@[i].1->0 >= s.term
        }),
{
    let (step, after) = poll_next(phase, s, poll, cluster_version, event, now);
    if step.resync is Some {
        let v = event->answers@;
        let i = choose|i: int| to_follow(claimed_terms(v), s.term, i);
        assert(to_follow(claimed_terms(v), s.term, i));
        assert(claimed_terms(v)[i] == v[i].1);
        assert(v[i].0@ == step.resync->0);
    }
}

// ---- Flushing cursors ----

fn same_numbers(a: &NameMap<u64>, b: &NameMap<u64>) -> (r: bool)
    ensures
        r == (a@ == b@),
{
    let n = a.len();
    let m = b.len();
    let ghost ks = a.keys();
    if n != m {
        return false;
    }
    let mut i: usize = 0;
    while i < n
        invariant
            ks == a.keys(),
            n == ks.len(),
            i <= n,
            forall|j: int| 0 <= j < i ==> b@.dom().contains(#[trigger] ks[j]) && b@[ks[j]] == a@[ks[j]],
        decreases n - i,
    {
        let same = match b.get(a.key_at(i).as_str()) {
            Some(v) => *v == *a.value_at(i),
            None => false,
        };
        if !same {
            assert(a@.dom().contains(ks[i as int]));
            return false;
        }
        i += 1;
    }
    proof {
        assert forall|k: Seq<char>| a@.dom().contains(k) implies b@.dom().contains(k) && b@[k] == a@[k] by {
            assert(ks.to_set().contains(k));
            let j = choose|j: int| 0 <= j < ks.len() && ks[j] == k;
            assert(b@.dom().contains(ks[j]));
        }
        vstd::set_lib::lemma_subset_equality(a@.dom(), b@.dom());
        assert(a@ =~= b@);
    }
    true
}

/// Whether two sets of cursors are the same, replica by replica.
pub open spec fn same_cells(a: Cursors, b: Cursors) -> bool {
    a@.dom() == b@.dom() && forall|k: Seq<char>| #[trigger] a@.dom().contains(k) ==> a@[k]@ == b@[k]@
}

/// Whether the send cursors have moved since they were last written down. Flushed lazily: a stale
/// entry only costs a rejected frame and a rewind.
pub fn progress_flush_task(snapshot: &Cursors, last: &Cursors) -> (r: bool)
    ensures
        r == !same_cells(*snapshot, *last),
{
    let n = snapshot.len();
    let m = last.len();
    let ghost ks = snapshot.keys();
    if n != m {
        return true;
    }
    let mut i: usize = 0;
    while i < n
        invariant
            ks == snapshot.keys(),
            n == ks.len(),
            i <= n,
            forall|j: int| 0 <= j < i ==> last@.dom().contains(#[trigger] ks[j]) && last@[ks[j]]@ == snapshot@[ks[j]]@,
        decreases n - i,
    {
        let same = match last.get(snapshot.key_at(i).as_str()) {
            Some(v) => same_numbers(v, snapshot.value_at(i)),
            None => false,
        };
        if !same {
            assert(snapshot@.dom().contains(ks[i as int]));
            return true;
        }
        i += 1;
    }
    proof {
        assert forall|k: Seq<char>| #[trigger] snapshot@.dom().contains(k) implies last@.dom().contains(k) && last@[k]@ == snapshot@[k]@ by {
            assert(ks.to_set().contains(k));
            let j = choose|j: int| 0 <= j < ks.len() && ks[j] == k;
            assert(last@.dom().contains(ks[j]));
        }
        vstd::set_lib::lemma_subset_equality(snapshot@.dom(), last@.dom());
        assert(snapshot@.dom() =~= last@.dom());
    }
    false
}

// ---- What a heartbeat brings ----

proof fn lemma_numbers_in(m: Members, n: int, c: Seq<char>, v: u64)
    requires
        0 <= n <= m.len(),
    ensures
        numbers_in(m, n).contains((c, v)) <==> exists|i: int| 0 <= i < n && (#[trigger] m[i]).0 == c && m[i].1.number() == Some(v),
        forall|k: int| 0 <= k < numbers_in(m, n).len() ==> exists|i: int| 0 <= i < n && (#[trigger] m[i]).0 == (#[trigger] numbers_in(m, n)[k]).0,
    decreases n,
{
    lemma_joined_hold::<(Seq<char>, u64)>();
    if n > 0 {
        lemma_numbers_in(m, n - 1, c, v);
        let all = numbers_in(m, n);
        let before = numbers_in(m, n - 1);
        if all.contains((c, v)) && !before.contains((c, v)) {
            assert(m[n - 1].0 == c && m[n - 1].1.number() == Some(v));
        }
        assert forall|k: int| 0 <= k < all.len() implies exists|i: int| 0 <= i < n && (#[trigger] m[i]).0 == (#[trigger] all[k]).0 by {
            if k < before.len() {
                assert(all[k] == before[k]);
                let i = choose|i: int| 0 <= i < n - 1 && (#[trigger] m[i]).0 == before[k].0;
                assert(m[i].0 == all[k].0);
            } else {
                assert(m[n - 1].0 == all[k].0);
            }
        }
    }
}

proof fn lemma_numbers_apart(m: Members, n: int)
    requires
        ordered(m),
        0 <= n <= m.len(),
    ensures
        forall|i: int, j: int| 0 <= i < j < numbers_in(m, n).len() ==> (#[trigger] numbers_in(m, n)[i]).0 != (#[trigger] numbers_in(m, n)[j]).0,
    decreases n,
{
    if n > 0 {
        lemma_numbers_apart(m, n - 1);
        let before = numbers_in(m, n - 1);
        let all = numbers_in(m, n);
        lemma_numbers_in(m, n - 1, Seq::empty(), 0);
        assert forall|i: int, j: int| 0 <= i < j < all.len() implies (#[trigger] all[i]).0 != (#[trigger] all[j]).0 by {
            assert(all[i] == before[i]);
            if j < before.len() {
                assert(all[j] == before[j]);
            } else {
                let k = choose|k: int| 0 <= k < n - 1 && (#[trigger] m[k]).0 == before[i].0;
                assert(text_before(m[k].0, m[n - 1].0));
                lemma_text_order(m[k].0, m[n - 1].0);
            }
        }
    }
}

/// A heartbeat brings the watermark of a collection exactly where it comes from a node that leads at no
/// lower term and reports a number for that collection: none is left out, however many there are, none
/// is made up, and no collection comes twice.
pub proof fn law_every_reported_commit_is_taken(term: u64, hb: JsonView, cluster_version: u64, c: Seq<char>, n: u64)
    requires
        hb.wf(),
    ensures
        ({
            let leads = hb.member("role"@) == Some(JsonView::Str("primary"@)) && match hb.member("term"@) {
                Some(t) => match t.number() {
                    Some(t) => t >= term,
                    None => term == 0,
                },
                None => term == 0,
            };
            let told = beat_of(term, hb, cluster_version).committed;
            &&& told.contains((c, n)) <==> leads && hb.member("committed"@) is Some && hb.member("committed"@)->0.member(c) is Some
                && hb.member("committed"@)->0.member(c)->0.number() == Some(n)
            &&& forall|i: int, j: int| 0 <= i < j < told.len() ==> (#[trigger] told[i]).0 != (#[trigger] told[j]).0
            &&& beat_of(term, hb, cluster_version).trusted <==> leads
        }),
{
    lemma_joined_hold::<(Seq<char>, u64)>();
    lemma_member_wf(hb, "committed"@);
    if let Some(JsonView::Object(m)) = hb.member("committed"@) {
        lemma_numbers_in(m, m.len() as int, c, n);
        lemma_numbers_apart(m, m.len() as int);
        lemma_found(m, c);
        if lookup(m, c) is Some {
            let i = choose|i: int| 0 <= i < m.len() && #[trigger] m[i] == (c, lookup(m, c)->0);
            assert(m[i].0 == c);
        }
    }
}

/// What a heartbeat changes of the state that it comes to: a higher term is taken over and its vote is
/// not, contact and position are noted where its sender leads, and everything else stays.
pub proof fn law_a_beat_moves_nothing_else(s: ReplicationStateView, hb: JsonView, now: u64, cluster_version: u64)
    ensures
        ({
            let told = match hb.member("term"@) {
                Some(t) => t.number(),
                None => None,
            };
            let after = after_beat(s, hb, now);
            let beat = beat_of(s.term, hb, cluster_version);
            &&& told is Some && told->0 > s.term ==> after.term == told->0 && after.voted_for is None && beat.adopted == told
            &&& !(told is Some && told->0 > s.term) ==> after.term == s.term && after.voted_for == s.voted_for && beat.adopted is None
            &&& after.last_heartbeat == if beat.trusted { Some(now) } else { s.last_heartbeat }
            &&& !beat.trusted ==> after.last_known_primary_position == s.last_known_primary_position
            &&& beat.trusted ==> after.last_known_primary_position == match hb.member("commit_index"@) {
                Some(v) => if v.number() is Some { v.number() } else { s.last_known_primary_position },
                None => s.last_known_primary_position,
            }
            &&& after.is_leader == s.is_leader && after.primary_addr == s.primary_addr && after.replicas == s.replicas
            &&& after.progress == s.progress && after.last_replication == s.last_replication
            &&& after.heartbeat_running == s.heartbeat_running && after.was_receiving_replication == s.was_receiving_replication
            &&& beat.fetch_view <==> hb.member("cluster_version"@) is Some && hb.member("cluster_version"@)->0.number() is Some
                && hb.member("cluster_version"@)->0.number()->0 > cluster_version
        }),
{
}

/// A node looks for its leader among everybody that anything hints at: the configured replicas and
/// peers, the primary it had, and its replicas.
pub proof fn law_every_hint_is_followed(h: Hints, url: Seq<char>)
    ensures
        hinted(h).contains(url) <==> {
            ||| texts(h.config_replicas@).contains(url)
            ||| texts(h.config_peers@).contains(url)
            ||| h.primary_addr is Some && h.primary_addr->0@ == url
            ||| texts(h.replicas@).contains(url)
        },
{
    let a = texts(h.config_replicas@);
    let b = texts(h.config_peers@);
    let c = match h.primary_addr {
        Some(p) => seq![p@],
        None => Seq::empty(),
    };
    let d = texts(h.replicas@);
    lemma_joined_hold::<Seq<char>>();
    assert(hinted(h) == a + b + c + d);
    assert(hinted(h).contains(url) <==> (a + b + c).contains(url) || d.contains(url));
    assert((a + b + c).contains(url) <==> (a + b).contains(url) || c.contains(url));
    if h.primary_addr is Some {
        assert(c =~= Seq::<Seq<char>>::empty().push(h.primary_addr->0@));
    }
}

/// A node's view suggests the nodes of its own group, and whom it follows; where no groups are
/// recorded, every shard node.
pub proof fn law_a_view_suggests_the_group(view: ClusterMetadataView, own: Seq<char>, url: Seq<char>)
    ensures
        ({
            let group = group_with(owners(view), anchor(view, own));
            let me = member_at(view.members, node(own));
            suggested(view, own).contains(url) <==> {
                ||| group is Some && (url == (group->0).0 || (group->0).1.contains(url))
                ||| group is None && view.ring is None && view.shards.len() == 0 && exists|m: MemberView|
                    #[trigger] view.members.contains(m) && m.role == "shard"@ && m.url == url
                ||| me is Some && me->0.follows == Some(url)
            }
        }),
{
    let group = group_with(owners(view), anchor(view, own));
    let me = member_at(view.members, node(own));
    let pick = |m: MemberView| m.role == "shard"@;
    let a = if group is Some {
        seq![(group->0).0] + (group->0).1
    } else if view.ring is None && view.shards.len() == 0 {
        picked_urls(view.members, pick)
    } else {
        Seq::empty()
    };
    let b = if me is Some && me->0.follows is Some { seq![me->0.follows->0] } else { Seq::empty() };
    lemma_joined_hold::<Seq<char>>();
    assert(suggested(view, own) == a + b);
    assert((a + b).contains(url) <==> a.contains(url) || b.contains(url));
    if me is Some && me->0.follows is Some {
        assert(b =~= Seq::<Seq<char>>::empty().push(me->0.follows->0));
    }
    if group is Some {
        let one = seq![(group->0).0];
        assert(one =~= Seq::<Seq<char>>::empty().push((group->0).0));
        assert(a.contains(url) <==> one.contains(url) || (group->0).1.contains(url));
    } else {
        lemma_picked(view.members, pick, url);
        if exists|m: MemberView| #[trigger] view.members.contains(m) && m.role == "shard"@ && m.url == url {
            let m = choose|m: MemberView| #[trigger] view.members.contains(m) && m.role == "shard"@ && m.url == url;
            assert(view.members.contains(m) && pick(m) && m.url == url);
        }
        if picked_urls(view.members, pick).contains(url) {
            let m = choose|m: MemberView| #[trigger] view.members.contains(m) && pick(m) && m.url == url;
            assert(view.members.contains(m) && m.role == "shard"@ && m.url == url);
        }
    }
}

/// A leader is found exactly where somebody claims to lead at this node's term or above, and nobody
/// who claims so does at a higher term than the one found.
pub proof fn law_the_highest_claim_is_followed(v: Seq<(String, Option<u64>)>, our_term: u64)
    ensures
        found_leader(v, our_term) is None <==> forall|i: int| 0 <= i < v.len() ==> !((#[trigger] v[i]).1 is Some && v[i].1->0 >= our_term),
        found_leader(v, our_term) is Some ==> exists|i: int|
            0 <= i < v.len() && (#[trigger] v[i]).0@ == found_leader(v, our_term)->0 && v[i].1 is Some && v[i].1->0 >= our_term && forall|
                j: int,
            |
                0 <= j < v.len() && (#[trigger] v[j]).1 is Some ==> v[j].1->0 <= v[i].1->0,
{
    let terms = claimed_terms(v);
    if exists|i: int| to_follow(terms, our_term, i) {
        let i = choose|i: int| to_follow(terms, our_term, i);
        assert(terms[i] == v[i].1);
        assert forall|j: int| 0 <= j < v.len() && (#[trigger] v[j]).1 is Some implies v[j].1->0 <= v[i].1->0 by {
            assert(terms[j] == v[j].1);
        }
        assert(v[i].0@ == found_leader(v, our_term)->0);
    } else {
        assert forall|i: int| 0 <= i < v.len() implies !((#[trigger] v[i]).1 is Some && v[i].1->0 >= our_term) by {
            if v[i].1 is Some && v[i].1->0 >= our_term {
                lemma_somebody_is_followed(terms, our_term, i, terms.len() as int);
            }
        }
    }
}

proof fn lemma_somebody_is_followed(terms: Seq<Option<u64>>, our_term: u64, i: int, n: int)
    requires
        0 <= i < n <= terms.len(),
        terms[i] is Some,
        terms[i]->0 >= our_term,
    ensures
        exists|k: int| k < n && to_follow(terms.take(n), our_term, k),
        n == terms.len() ==> exists|k: int| to_follow(terms, our_term, k),
    decreases n,
{
    let head = terms.take(n);
    let able = |x: Option<u64>| x is Some && x->0 >= our_term;
    if exists|j: int| 0 <= j < n - 1 && able(#[trigger] terms[j]) {
        let j = choose|j: int| 0 <= j < n - 1 && able(#[trigger] terms[j]);
        lemma_somebody_is_followed(terms, our_term, j, n - 1);
        let before = terms.take(n - 1);
        let k = choose|k: int| k < n - 1 && to_follow(before, our_term, k);
        assert(forall|m: int| 0 <= m < n - 1 ==> before[m] == head[m]);
        if able(terms[n - 1]) && terms[n - 1]->0 >= terms[k]->0 {
            assert(to_follow(head, our_term, n - 1));
        } else {
            assert(to_follow(head, our_term, k));
        }
    } else {
        assert(i == n - 1) by {
            assert(able(terms[i]));
        }
        assert forall|j: int| 0 <= j < head.len() && (#[trigger] head[j]) is Some && head[j]->0 >= our_term implies j == n - 1 by {
            if j < n - 1 {
                assert(able(terms[j]));
            }
        }
        assert(to_follow(head, our_term, n - 1));
    }
    if n == terms.len() {
        assert(head =~= terms);
    }
}

/// A follower that polls says who it is, at which term, and for how long it will not vote.
pub proof fn law_a_poll_says_who_asks(own: Seq<char>, s: ReplicationStateView, timeout: u64, now: u64)
    ensures
        ({
            let q = poll_query(own, s, timeout, now);
            let contact = latest(s.last_heartbeat, s.last_replication);
            let promised_for = promised(if contact is Some { Some(since(now, contact->0)) } else { None }, timeout);
            &&& q.contains(("from"@, own))
            &&& q.contains(("term"@, decimal_of(s.term as nat)))
            &&& q.contains(("novote_ms"@, decimal_of((promised_for / 1_000_000) as nat)))
            &&& q.len() == 3
        }),
{
    let q = poll_query(own, s, timeout, now);
    assert(q[0] == ("from"@, own));
    assert(q[1].0 == "term"@);
    assert(q[2].0 == "novote_ms"@);
}

/// A follower that finds another leader than it had turns to it and starts over from its log; one that
/// finds none after a silence stands itself.
pub proof fn law_a_follower_turns_to_the_leader_it_finds(
    phase: PollPhaseView,
    s: ReplicationStateView,
    poll: PollSettings,
    cluster_version: u64,
    answers: Vec<(String, Option<u64>)>,
    now: u64,
)
    requires
        phase is Adopting || phase is Following,
    ensures
        ({
            let (step, after) = poll_next(phase, s, poll, cluster_version, PollEvent::LookedForLeader { answers }, now);
            let leader = found_leader(answers@, s.term);
            &&& phase is Adopting && leader is None ==> step.action is StandForElection && after == s
            &&& phase is Adopting && leader is Some ==> after.primary_addr == leader && after.last_heartbeat == Some(now) && step.resync == (
            if s.primary_addr == leader { None } else { leader })
            &&& phase is Following && step.resync is Some ==> step.resync == leader && after.primary_addr == leader && !s.is_leader
            &&& phase is Following && step.resync is None ==> after == s
            &&& phase is Following && leader is Some && leader->0 != phase->Following_primary && s.primary_addr != leader && !s.is_leader
                ==> step.resync == leader
            &&& after.term == s.term && after.voted_for == s.voted_for
        }),
{
}

/// A follower that wakes polls its primary, as long as it follows at all; without one it looks whether
/// it has been out of contact.
pub proof fn law_a_follower_polls_its_primary(
    s: ReplicationStateView,
    poll: PollSettings,
    cluster_version: u64,
    now: u64,
)
    ensures
        ({
            let (step, after) = poll_next(PollPhaseView::Sleeping, s, poll, cluster_version, PollEvent::Woke, now);
            &&& after == s && step.beat is None && step.resync is None
            &&& s.is_leader || !s.heartbeat_running ==> step.action is Stop && step.phase is Over
            &&& !s.is_leader && s.heartbeat_running && s.primary_addr is None ==> step.action is CheckContact && step.phase is Checking
            &&& !s.is_leader && s.heartbeat_running && s.primary_addr is Some ==> {
                &&& step.action is AskPrimary && step.action->to == s.primary_addr->0
                &&& step.action->query == poll_query(poll.own@, s, poll.timeout, now)
                &&& step.phase is Asking && step.phase->Asking_primary == s.primary_addr->0
            }
        }),
{
}

/// A primary's answer is taken in; one that makes no sense has the follower look for who leads; none
/// at all has it look at its contact.
pub proof fn law_what_an_answer_does_to_a_follower(
    primary: Seq<char>,
    s: ReplicationStateView,
    poll: PollSettings,
    cluster_version: u64,
    event: PollEvent,
    now: u64,
)
    ensures
        ({
            let (step, after) = poll_next(PollPhaseView::Asking { primary }, s, poll, cluster_version, event, now);
            &&& event is Answered && event->hb is Some ==> step.beat == Some(beat_of(s.term, event->hb->0@, cluster_version)) && after
                == after_beat(s, event->hb->0@, now) && step.action is CheckContact && step.phase is Checking
            &&& event is Answered && event->hb is None ==> step.action is CheckContact && step.phase is Checking && after == s
                && step.beat is None
            &&& event is AnsweredBadly ==> step.action is LookForLeader && step.phase is Following && step.phase->Following_primary == primary
                && after == s
            &&& event is Unreachable ==> step.action is CheckContact && step.phase is Checking && after == s
            &&& step.resync is None
        }),
{
}

/// A follower that has been out of contact for too long looks for a leader, and otherwise sleeps on; one
/// that has been elected stops following.
pub proof fn law_a_follower_out_of_contact_looks_for_a_leader(
    s: ReplicationStateView,
    poll: PollSettings,
    cluster_version: u64,
    now: u64,
)
    ensures
        ({
            let (step, after) = poll_next(PollPhaseView::Checking, s, poll, cluster_version, PollEvent::Settled, now);
            let quiet_now = quiet(s.last_heartbeat, s.last_replication, since(now, poll.started), poll.timeout, now);
            &&& after == s
            &&& quiet_now ==> step.action is LookForLeader && step.phase is Adopting
            &&& !quiet_now ==> step.action is Sleep && step.phase is Sleeping
        }),
        ({
            let (step, after) = poll_next(PollPhaseView::Electing, s, poll, cluster_version, PollEvent::Stood, now);
            &&& after == s
            &&& s.is_leader ==> step.action is Stop && step.phase is Over
            &&& !s.is_leader ==> step.action is Sleep && step.phase is Sleeping
        }),
{
}

/// A node is out of contact once its last contact of either kind, or its start, is a timeout ago.
pub proof fn law_contact_is_of_either_kind(beat: Option<u64>, replication: Option<u64>, since_start: u64, timeout: u64, now: u64)
    requires
        beat is Some ==> beat->0 <= now,
        replication is Some ==> replication->0 <= now,
    ensures
        beat is None && replication is None ==> (quiet(beat, replication, since_start, timeout, now) <==> since_start >= timeout),
        beat is Some || replication is Some ==> (quiet(beat, replication, since_start, timeout, now) <==> (beat is Some ==> now - beat->0
            >= timeout) && (replication is Some ==> now - replication->0 >= timeout)),
{
}

} // verus!
