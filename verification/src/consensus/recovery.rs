//! Monotonic per-collection history recovery before retrying a failed pre-vote.

use super::config::{canon, law_canon_names_each_node_once, Configuration, ConfigurationView, CONFIG_LOG};
use super::election::{offered, LogTail};
use crate::endpoint::{law_others_leave_one_node_out, names, node, nodes, others, without_node};
use crate::lists::{lemma_take_all, lemma_take_grows};
use crate::name_map::{increasing, NameMap};
use crate::text::{same_lists, same_text, texts};
use vstd::prelude::*;

verus! {

/// What a voter says of its logs.
pub struct ElectionHistories {
    pub term: u64,
    pub logs: NameMap<LogTail>,
}

/// A voter with what it said.
pub struct PeerHistories {
    pub peer: String,
    pub histories: ElectionHistories,
}

/// One history to fetch: the collection, how far it reaches, and from whom.
pub struct Source {
    pub name: String,
    pub tail: LogTail,
    pub peer: String,
}

pub ghost struct SourceView {
    pub tail: LogTail,
    pub peer: Seq<char>,
}

/// Sources by collection.
pub type SourceMap = Map<Seq<char>, SourceView>;

/// Whether a tail is worth fetching: written at no later term than this node's, and beyond what this
/// node holds.
pub open spec fn wanted(term: u64, local: Map<Seq<char>, LogTail>, name: Seq<char>, tail: LogTail) -> bool {
    tail.last_term <= term && !offered(local, name).reaches(tail)
}

/// Whether `v` is the best history of a collection that the first `n` peers offer: one of theirs,
/// wanted, beaten by none, and of the first peer to offer it.
pub open spec fn best_offer(
    term: u64,
    local: Map<Seq<char>, LogTail>,
    peers: Seq<PeerHistories>,
    n: int,
    name: Seq<char>,
    v: SourceView,
) -> bool {
    &&& wanted(term, local, name, v.tail)
    &&& exists|i: int| first_to_offer(peers, n, name, v, i)
    &&& forall|i: int| 0 <= i < n && (#[trigger] peers[i]).histories.logs@.dom().contains(name)
        && wanted(term, local, name, peers[i].histories.logs@[name]) ==> v.tail.reaches(peers[i].histories.logs@[name])
}

/// Peer `i` offers `v`, and no peer before it offers as much.
pub open spec fn first_to_offer(peers: Seq<PeerHistories>, n: int, name: Seq<char>, v: SourceView, i: int) -> bool {
    &&& 0 <= i < n
    &&& peers[i].histories.logs@.dom().contains(name)
    &&& peers[i].histories.logs@[name] == v.tail
    &&& peers[i].peer@ == v.peer
    &&& forall|j: int| 0 <= j < i && (#[trigger] peers[j]).histories.logs@.dom().contains(name)
        ==> peers[j].histories.logs@[name] != v.tail
}

/// Whether some of the first `n` peers offers a wanted history of a collection.
pub open spec fn offers_any(term: u64, local: Map<Seq<char>, LogTail>, peers: Seq<PeerHistories>, n: int, name: Seq<char>) -> bool {
    exists|i: int| 0 <= i < n && (#[trigger] peers[i]).histories.logs@.dom().contains(name)
        && wanted(term, local, name, peers[i].histories.logs@[name])
}

/// What to do about the histories that the voters offer.
pub enum RecoveryPlan {
    /// A voter is at a higher term.
    Demote(u64),
    /// Fetch these, the configuration log first, then by name: recovering a configuration changes the
    /// electorate.
    Fetch(Vec<Source>),
}

/// Whether the peer at `i` is the first at a higher term.
pub open spec fn first_above(peers: Seq<PeerHistories>, term: u64, i: int) -> bool {
    0 <= i < peers.len() && peers[i].histories.term > term && forall|j: int| 0 <= j < i ==> (#[trigger] peers[j]).histories.term <= term
}

/// The best source of one collection among the peers.
fn best_source(term: u64, local: &NameMap<LogTail>, peers: &Vec<PeerHistories>, name: &str) -> (r: Option<(LogTail, usize)>)
    ensures
        match r {
            Some((t, i)) => i < peers@.len() && best_offer(
                term,
                local@,
                peers@,
                peers@.len() as int,
                name@,
                SourceView { tail: t, peer: peers@[i as int].peer@ },
            ),
            None => !offers_any(term, local@, peers@, peers@.len() as int, name@),
        },
{
    let own: LogTail = match local.get(name) {
        Some(t) => *t,
        None => LogTail { last_term: 0, last_lsn: 0 },
    };
    let mut best: Option<(LogTail, usize)> = None;
    let mut i: usize = 0;
    while i < peers.len()
        invariant
            own == offered(local@, name@),
            i <= peers@.len(),
            match best {
                Some((t, k)) => k < i && wanted(term, local@, name@, t) && first_to_offer(
                    peers@,
                    i as int,
                    name@,
                    SourceView { tail: t, peer: peers@[k as int].peer@ },
                    k as int,
                ) && forall|j: int| 0 <= j < i && (#[trigger] peers@[j]).histories.logs@.dom().contains(name@)
                    && wanted(term, local@, name@, peers@[j].histories.logs@[name@]) ==> t.reaches(peers@[j].histories.logs@[name@]),
                None => !offers_any(term, local@, peers@, i as int, name@),
            },
        decreases peers@.len() - i,
    {
        if let Some(t) = peers[i].histories.logs.get(name) {
            let t: LogTail = *t;
            if t.last_term <= term && !own.at_least(&t) {
                let better = match best {
                    Some((b, _)) => !b.at_least(&t),
                    None => true,
                };
                proof {
                    if better {
                        assert forall|j: int| 0 <= j < i && (#[trigger] peers@[j]).histories.logs@.dom().contains(name@)
                            implies peers@[j].histories.logs@[name@] != t by {
                            if peers@[j].histories.logs@[name@] == t {
                                assert(wanted(term, local@, name@, peers@[j].histories.logs@[name@]));
                                if best is None {
                                    assert(offers_any(term, local@, peers@, i as int, name@));
                                }
                            }
                        }
                    }
                }
                if better {
                    best = Some((t, i));
                }
            }
        }
        i += 1;
    }
    proof {
        if best is Some {
            let (t, k) = best->0;
            assert(first_to_offer(peers@, peers@.len() as int, name@, SourceView { tail: t, peer: peers@[k as int].peer@ }, k as int));
        }
    }
    best
}

/// Every collection that some peer mentions, in name order.
fn mentioned(peers: &Vec<PeerHistories>) -> (r: NameMap<bool>)
    ensures
        forall|k: Seq<char>| #[trigger] r@.dom().contains(k) <==> exists|i: int| 0 <= i < peers@.len()
            && (#[trigger] peers@[i]).histories.logs@.dom().contains(k),
{
    let mut out: NameMap<bool> = NameMap::new();
    let mut i: usize = 0;
    while i < peers.len()
        invariant
            i <= peers@.len(),
            forall|k: Seq<char>| #[trigger] out@.dom().contains(k) <==> exists|j: int| 0 <= j < i
                && (#[trigger] peers@[j]).histories.logs@.dom().contains(k),
        decreases peers@.len() - i,
    {
        let logs = &peers[i].histories.logs;
        let n = logs.len();
        let ghost ks = logs.keys();
        let ghost before = out@.dom();
        let mut k: usize = 0;
        while k < n
            invariant
                i < peers@.len(),
                *logs == peers@[i as int].histories.logs,
                ks == logs.keys(),
                n == ks.len(),
                k <= n,
                forall|q: Seq<char>| #[trigger] out@.dom().contains(q) <==> before.contains(q) || ks.take(k as int).contains(q),
            decreases n - k,
        {
            proof {
                lemma_take_grows(ks, k as int);
            }
            out.insert(logs.key_at(k).clone(), true);
            k += 1;
        }
        proof {
            lemma_take_all(ks);
            assert forall|q: Seq<char>| ks.contains(q) <==> logs@.dom().contains(q) by {
                assert(ks.to_set().contains(q) <==> ks.contains(q));
            }
            assert forall|q: Seq<char>| #[trigger] out@.dom().contains(q) <==> exists|j: int| 0 <= j < i + 1
                && (#[trigger] peers@[j]).histories.logs@.dom().contains(q) by {
                if logs@.dom().contains(q) {
                    assert(peers@[i as int].histories.logs@.dom().contains(q));
                }
            }
        }
        i += 1;
    }
    out
}

/// The names of a list of sources.
pub open spec fn source_names(v: Seq<Source>) -> Seq<Seq<char>> {
    Seq::new(v.len(), |i: int| v[i].name@)
}

/// The configuration log first, where it is there, then the others by name.
pub open spec fn config_first(names: Seq<Seq<char>>) -> bool {
    if names.contains(CONFIG_LOG@) {
        names[0] == CONFIG_LOG@ && increasing(names.skip(1)) && !names.skip(1).contains(CONFIG_LOG@)
    } else {
        increasing(names)
    }
}

/// The sources to fetch are exactly the best offers, the configuration log first.
pub open spec fn fetches(term: u64, local: Map<Seq<char>, LogTail>, peers: Seq<PeerHistories>, v: Seq<Source>) -> bool {
    &&& config_first(source_names(v))
    &&& forall|name: Seq<char>| source_names(v).contains(name) <==> #[trigger] offers_any(term, local, peers, peers.len() as int, name)
    &&& forall|i: int| 0 <= i < v.len() ==> best_offer(
        term,
        local,
        peers,
        peers.len() as int,
        (#[trigger] v[i]).name@,
        SourceView { tail: v[i].tail, peer: v[i].peer@ },
    )
}

/// Whom a node asks for its histories.
pub open spec fn asked_of(is_leader: bool, in_quorum: bool, quorum: ConfigurationView, own: Seq<char>) -> Seq<Seq<char>> {
    if is_leader || !in_quorum { Seq::empty() } else { without_node(canon(quorum.all()), own) }
}

/// Whom to ask for their histories: the other voters of the configuration. A leader, and a node that
/// the quorum does not count, asks nobody.
pub fn history_peers(is_leader: bool, in_quorum: bool, quorum: &Configuration, own: &str) -> (r: Vec<String>)
    ensures
        texts(r@) == asked_of(is_leader, in_quorum, quorum@, own@),
{
    if is_leader || !in_quorum {
        let none: Vec<String> = Vec::new();
        assert(texts(none@) =~= Seq::empty());
        return none;
    }
    others(&quorum.members(), own)
}

/// Nobody but a voter is asked for its histories, every other voter is, and this node is not.
pub proof fn law_only_the_other_voters_are_asked(is_leader: bool, in_quorum: bool, quorum: ConfigurationView, own: Seq<char>, url: Seq<char>)
    ensures
        ({
            let asked = asked_of(is_leader, in_quorum, quorum, own);
            &&& is_leader || !in_quorum ==> asked.len() == 0
            &&& asked.contains(url) ==> quorum.has_member(url) && node(url) != node(own)
            &&& !is_leader && in_quorum && quorum.has_member(url) && node(url) != node(own) ==> names(asked, node(url))
        }),
{
    let asked = asked_of(is_leader, in_quorum, quorum, own);
    let all = quorum.all();
    law_canon_names_each_node_once(all);
    law_others_leave_one_node_out(canon(all), own);
    if asked.contains(url) {
        let i = choose|i: int| 0 <= i < asked.len() && asked[i] == url;
        assert(node(asked[i]) == node(url));
        assert(nodes(asked).contains(node(url)));
        assert(nodes(all).contains(node(url)));
    }
    if !is_leader && in_quorum && quorum.has_member(url) && node(url) != node(own) {
        assert(nodes(all).contains(node(url)));
        assert(nodes(asked).contains(node(url)));
    }
}

/// Which histories to fetch from whom, given what the voters of this node's configuration said of
/// theirs. Only what this node lacks is fetched, so recovery never goes back on a log.
pub fn recover_histories(term: u64, local: &NameMap<LogTail>, peers: &Vec<PeerHistories>) -> (r: RecoveryPlan)
    ensures
        match r {
            RecoveryPlan::Demote(t) => exists|i: int| first_above(peers@, term, i) && t == (#[trigger] peers@[i]).histories.term,
            RecoveryPlan::Fetch(v) => (forall|i: int| 0 <= i < peers@.len() ==> (#[trigger] peers@[i]).histories.term <= term)
                && fetches(term, local@, peers@, v@),
        },
{
    let mut i: usize = 0;
    while i < peers.len()
        invariant
            i <= peers@.len(),
            forall|j: int| 0 <= j < i ==> (#[trigger] peers@[j]).histories.term <= term,
        decreases peers@.len() - i,
    {
        if peers[i].histories.term > term {
            assert(first_above(peers@, term, i as int));
            return RecoveryPlan::Demote(peers[i].histories.term);
        }
        i += 1;
    }
    let ghost total = peers@.len() as int;
    let names = mentioned(peers);
    let n = names.len();
    let ghost ks = names.keys();
    let mut head: Vec<Source> = Vec::new();
    let mut rest: Vec<Source> = Vec::new();
    let mut k: usize = 0;
    while k < n
        invariant
            total == peers@.len(),
            ks == names.keys(),
            n == ks.len(),
            names.keyed(),
            k <= n,
            head@.len() <= 1,
            forall|j: int| 0 <= j < head@.len() ==> (#[trigger] head@[j]).name@ == CONFIG_LOG@ && best_offer(
                term,
                local@,
                peers@,
                total,
                head@[j].name@,
                SourceView { tail: head@[j].tail, peer: head@[j].peer@ },
            ),
            head@.len() > 0 <==> ks.take(k as int).contains(CONFIG_LOG@) && offers_any(term, local@, peers@, total, CONFIG_LOG@),
            forall|j: int| 0 <= j < rest@.len() ==> (#[trigger] rest@[j]).name@ != CONFIG_LOG@ && best_offer(
                term,
                local@,
                peers@,
                total,
                rest@[j].name@,
                SourceView { tail: rest@[j].tail, peer: rest@[j].peer@ },
            ),
            forall|q: Seq<char>| source_names(rest@).contains(q) <==> #[trigger] ks.take(k as int).contains(q) && q != CONFIG_LOG@
                && offers_any(term, local@, peers@, total, q),
            increasing(source_names(rest@)),
        decreases n - k,
    {
        let name = names.key_at(k);
        let ghost q = ks[k as int];
        proof {
            lemma_take_grows(ks, k as int);
        }
        let ghost held = source_names(rest@);
        let is_config = same_text(name.as_str(), CONFIG_LOG);
        let found = best_source(term, local, peers, name.as_str());
        if let Some((tail, at)) = found {
            let s = Source { name: name.clone(), tail, peer: peers[at].peer.clone() };
            proof {
                lemma_offer_is_offered(term, local@, peers@, total, q, SourceView { tail, peer: s.peer@ });
            }
            if is_config {
                proof {
                    assert(!ks.take(k as int).contains(q)) by {
                        if ks.take(k as int).contains(q) {
                            let j = choose|j: int| 0 <= j < k && ks.take(k as int)[j] == q;
                            assert(ks[j] == ks[k as int]);
                        }
                    }
                }
                head.push(s);
            } else {
                let ghost before = source_names(rest@);
                proof {
                    assert forall|j: int| 0 <= j < before.len() implies crate::text::text_before(#[trigger] before[j], q) by {
                        assert(before.contains(before[j]));
                        assert(ks.take(k as int).contains(before[j]));
                        let t = choose|t: int| 0 <= t < k && ks.take(k as int)[t] == before[j];
                        assert(crate::text::text_before(ks[t], ks[k as int]));
                    }
                }
                rest.push(s);
                proof {
                    assert(source_names(rest@) =~= before.push(q));
                    assert forall|a: Seq<char>| #[trigger] source_names(rest@).contains(a) <==> before.contains(a) || a == q by {
                        if before.contains(a) {
                            let t = choose|t: int| 0 <= t < before.len() && before[t] == a;
                            assert(source_names(rest@)[t] == a);
                        }
                        assert(source_names(rest@)[before.len() as int] == q);
                    }
                }
            }
        }
        proof {
            assert forall|a: Seq<char>| source_names(rest@).contains(a) <==> #[trigger] ks.take(k + 1).contains(a)
                && a != CONFIG_LOG@ && offers_any(term, local@, peers@, total, a) by {
                assert(ks.take(k + 1).contains(a) <==> ks.take(k as int).contains(a) || a == q);
                assert(held.contains(a) <==> ks.take(k as int).contains(a) && a != CONFIG_LOG@
                    && offers_any(term, local@, peers@, total, a));
                if held.contains(a) {
                    assert(source_names(rest@).contains(a));
                }
            }
        }
        k += 1;
    }
    proof {
        lemma_take_all(ks);
        assert forall|q: Seq<char>| offers_any(term, local@, peers@, total, q) implies ks.contains(q) by {
            let i = choose|i: int| 0 <= i < total && (#[trigger] peers@[i]).histories.logs@.dom().contains(q)
                && wanted(term, local@, q, peers@[i].histories.logs@[q]);
            assert(peers@[i].histories.logs@.dom().contains(q));
            assert(names@.dom().contains(q));
            assert(ks.to_set().contains(q));
        }
    }
    let ghost h = source_names(head@);
    let ghost t = source_names(rest@);
    let ghost hs = head@;
    let ghost rs = rest@;
    head.append(&mut rest);
    proof {
        let all = source_names(head@);
        assert(all =~= h + t);
        assert forall|name: Seq<char>| all.contains(name) <==> #[trigger] offers_any(term, local@, peers@, total, name) by {
            if h.len() > 0 {
                assert(h[0] == CONFIG_LOG@);
                assert(all[0] == CONFIG_LOG@);
            }
            if t.contains(name) {
                let j = choose|j: int| 0 <= j < t.len() && t[j] == name;
                assert(all[h.len() + j] == name);
            }
            if all.contains(name) {
                let j = choose|j: int| 0 <= j < all.len() && all[j] == name;
                if j >= h.len() {
                    assert(t[j - h.len()] == name);
                    assert(t.contains(name));
                    assert(ks.take(n as int).contains(name));
                } else {
                    assert(h[j] == name);
                }
            }
            assert(ks.take(n as int).contains(name) <==> ks.contains(name));
        }
        assert(!t.contains(CONFIG_LOG@)) by {
            if t.contains(CONFIG_LOG@) {
                let j = choose|j: int| 0 <= j < t.len() && t[j] == CONFIG_LOG@;
                assert(rs[j].name@ == CONFIG_LOG@);
            }
        }
        if h.len() > 0 {
            assert(all.skip(1) =~= t);
            assert(all[0] == CONFIG_LOG@);
        } else {
            assert(all =~= t);
        }
        assert forall|i: int| 0 <= i < head@.len() implies best_offer(
            term,
            local@,
            peers@,
            total,
            (#[trigger] head@[i]).name@,
            SourceView { tail: head@[i].tail, peer: head@[i].peer@ },
        ) by {
            if i < hs.len() {
                assert(head@[i] == hs[i]);
            } else {
                assert(head@[i] == rs[i - hs.len()]);
            }
        }
    }
    RecoveryPlan::Fetch(head)
}

proof fn lemma_offer_is_offered(term: u64, local: Map<Seq<char>, LogTail>, peers: Seq<PeerHistories>, n: int, name: Seq<char>, v: SourceView)
    requires
        best_offer(term, local, peers, n, name, v),
    ensures
        offers_any(term, local, peers, n, name),
{
    let i = choose|i: int| first_to_offer(peers, n, name, v, i);
    assert(peers[i].histories.logs@.dom().contains(name));
}

/// Whether two configurations are written alike.
pub fn same_configuration(a: &Configuration, b: &Configuration) -> (r: bool)
    ensures
        r == (a@ == b@),
{
    if !same_lists(&a.voters, &b.voters) {
        return false;
    }
    match (&a.outgoing, &b.outgoing) {
        (Some(x), Some(y)) => same_lists(x, y),
        (None, None) => true,
        _ => false,
    }
}

/// Whether recovery may go on with the next collection: nothing it rests on has moved.
pub fn may_recover(is_leader: bool, current_term: u64, term: u64, current: &Configuration, quorum: &Configuration) -> (r: bool)
    ensures
        r == (!is_leader && current_term == term && current@ == quorum@),
{
    !is_leader && current_term == term && same_configuration(current, quorum)
}

/// Recovery only ever moves a log forward.
pub proof fn law_recovery_never_goes_back(
    term: u64,
    local: Map<Seq<char>, LogTail>,
    peers: Seq<PeerHistories>,
    name: Seq<char>,
    v: SourceView,
)
    requires
        best_offer(term, local, peers, peers.len() as int, name, v),
    ensures
        v.tail.reaches(offered(local, name)),
        v.tail != offered(local, name),
        v.tail.last_term <= term,
{
}


/// A log is fetched from the first peer that offers the furthest history of it: no peer offers a further
/// one that could be taken, and no earlier peer offers the same.
pub proof fn law_a_log_is_fetched_from_the_first_of_the_best(
    term: u64,
    local: Map<Seq<char>, LogTail>,
    peers: Seq<PeerHistories>,
    name: Seq<char>,
    v: SourceView,
    j: int,
)
    requires
        best_offer(term, local, peers, peers.len() as int, name, v),
        0 <= j < peers.len(),
        peers[j].histories.logs@.dom().contains(name),
    ensures
        ({
            let tail = peers[j].histories.logs@[name];
            &&& tail.last_term <= term && !offered(local, name).reaches(tail) ==> v.tail.reaches(tail)
            &&& tail == v.tail ==> exists|i: int|
                0 <= i <= j && (#[trigger] peers[i]).peer@ == v.peer && peers[i].histories.logs@.dom().contains(name) && peers[i].histories.logs@[name]
                    == v.tail
        }),
{
    let i = choose|i: int| first_to_offer(peers, peers.len() as int, name, v, i);
    if peers[j].histories.logs@[name] == v.tail && j < i {
        assert(peers[j].histories.logs@[name] != v.tail);
    }
    assert(peers[i].peer@ == v.peer);
}

/// Every log that some peer holds further than this node, at no later term, is fetched, and no other is;
/// the configuration comes first.
pub proof fn law_every_log_that_is_behind_is_fetched(
    term: u64,
    local: Map<Seq<char>, LogTail>,
    peers: Seq<PeerHistories>,
    v: Seq<Source>,
    name: Seq<char>,
)
    requires
        fetches(term, local, peers, v),
    ensures
        source_names(v).contains(name) <==> exists|i: int|
            0 <= i < peers.len() && (#[trigger] peers[i]).histories.logs@.dom().contains(name) && peers[i].histories.logs@[name].last_term
                <= term && !offered(local, name).reaches(peers[i].histories.logs@[name]),
        source_names(v).contains(CONFIG_LOG@) ==> v.len() > 0 && v[0].name@ == CONFIG_LOG@,
{
    assert(source_names(v).contains(name) <==> offers_any(term, local, peers, peers.len() as int, name));
    if offers_any(term, local, peers, peers.len() as int, name) {
        let i = choose|i: int|
            0 <= i < peers.len() && (#[trigger] peers[i]).histories.logs@.dom().contains(name) && wanted(
                term,
                local,
                name,
                peers[i].histories.logs@[name],
            );
        assert(peers[i].histories.logs@.dom().contains(name));
    }
    if source_names(v).contains(CONFIG_LOG@) {
        let i = choose|i: int| 0 <= i < source_names(v).len() && source_names(v)[i] == CONFIG_LOG@;
        assert(source_names(v)[0] == CONFIG_LOG@);
    }
}

} // verus!
