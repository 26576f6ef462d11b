//! Reconciles primary-shard membership with consistent-hash ownership via safe migrations.

use super::changestream::{text_list, text_values};
use super::fanout::list_of;
use super::metadata::{members_of, urls_of, ClusterMetadata, ClusterMetadataView, Member, MemberView};
use super::router::{answered, json_reply, BodyView, Reply, ReplyView};
use crate::consensus::config::one_per_node;
use crate::consensus::lease::since;
use crate::endpoint::{
    endpoint, endpoint_of, lemma_nodes_push, list_names, names, node, nodes, same_endpoint, same_node,
};
use crate::json::{gathered, law_the_last_of_one_key_is_kept, members, values, Json, JsonNumber, JsonView};
use crate::lists::{lemma_joined_hold, lemma_take_all, lemma_take_grows};
use crate::name_map::{increasing, lemma_increasing_unique, NameMap};
use crate::ring::{complaint, groups, same_ring, HashRing, HashRingView, RingShard, RingShardView};
use crate::text::{
    comes_before, lemma_text_before_transitive, lemma_text_order, opt_is, same_lists, same_text, text_before, texts,
};
use crate::wire::whole;
use vstd::prelude::*;

verus! {

#[derive(Clone, Copy, Debug, PartialEq, Eq, Structural)]
pub struct RebalanceConfig {
    /// Opt-in because membership recorded before rebalancing may omit current shards.
    pub enabled: bool,
    pub interval_secs: u64,
    /// Debounces membership churn into one migration.
    pub stabilization_secs: u64,
}

impl Default for RebalanceConfig {
    fn default() -> (r: Self)
        ensures
            r == (RebalanceConfig { enabled: false, interval_secs: 10, stabilization_secs: 30 }),
    {
        Self { enabled: false, interval_secs: 10, stabilization_secs: 30 }
    }
}

impl RebalanceConfig {
    /// Why the settings cannot be used, if they cannot.
    pub open spec fn fault(self) -> Option<Seq<char>> {
        if self.enabled && self.interval_secs == 0 {
            Some("rebalance.interval_secs must be greater than zero"@)
        } else {
            None
        }
    }

    pub fn validate(&self) -> (r: Result<(), String>)
        ensures
            complaint(r) == self.fault(),
    {
        if self.enabled && self.interval_secs == 0 {
            return Err("rebalance.interval_secs must be greater than zero".to_owned());
        }
        Ok(())
    }
}

// ---- Placement ----

/// The first primary of the member list at an endpoint.
pub open spec fn primary_at(v: Seq<MemberView>, e: Seq<char>) -> Option<Seq<char>>
    decreases v.len(),
{
    if v.len() == 0 {
        None
    } else if primary_at(v.drop_last(), e) is Some {
        primary_at(v.drop_last(), e)
    } else if v.last().role == "shard"@ && v.last().shard_role == Some("primary"@) && endpoint(v.last().url) == e {
        Some(v.last().url)
    } else {
        None
    }
}

/// The last replica of the member list at an endpoint.
pub open spec fn replica_at(v: Seq<MemberView>, e: Seq<char>) -> Option<MemberView>
    decreases v.len(),
{
    if v.len() == 0 {
        None
    } else if v.last().role == "shard"@ && v.last().shard_role == Some("replica"@) && endpoint(v.last().url) == e {
        Some(v.last())
    } else {
        replica_at(v.drop_last(), e)
    }
}

/// Whether the ring has a replica at `e` in the group whose primary is at `p`.
pub open spec fn ring_places(shards: Seq<RingShardView>, p: Seq<char>, e: Seq<char>) -> bool {
    exists|i: int, j: int| 0 <= i < shards.len() && endpoint(shards[i].node_url) == p && 0 <= j < shards[i].replica_urls.len()
        && endpoint(#[trigger] shards[i].replica_urls[j]) == e
}

/// Whether the replica at `e` belongs with the primary at `p`: it follows that primary, or the ring
/// has it there and it follows no other.
pub open spec fn placed_with(v: Seq<MemberView>, shards: Seq<RingShardView>, p: Seq<char>, e: Seq<char>) -> bool {
    match replica_at(v, e) {
        None => false,
        Some(m) => match m.follows {
            Some(f) => endpoint(f) == p,
            None => ring_places(shards, p, e),
        },
    }
}

/// A list without entries that name the node of the entry kept before them.
pub open spec fn deduped(s: Seq<Seq<char>>) -> Seq<Seq<char>>
    decreases s.len(),
{
    if s.len() == 0 {
        s
    } else {
        let before = deduped(s.drop_last());
        if before.len() > 0 && same_node(before.last(), s.last()) { before } else { before.push(s.last()) }
    }
}

/// The URLs of the replicas at some endpoints.
pub open spec fn replica_urls(v: Seq<MemberView>, es: Seq<Seq<char>>) -> Seq<Seq<char>> {
    Seq::new(es.len(), |i: int| replica_at(v, es[i])->0.url)
}

/// `r` are the replicas that belong with the primary at `p`, by endpoint, each node once.
pub open spec fn placement(v: Seq<MemberView>, shards: Seq<RingShardView>, p: Seq<char>, r: Seq<Seq<char>>) -> bool {
    exists|es: Seq<Seq<char>>| increasing(es) && (forall|e: Seq<char>| es.contains(e) <==> placed_with(v, shards, p, e))
        && r == deduped(#[trigger] replica_urls(v, es))
}

/// The replicas of a member list, by endpoint.
fn replicas_by_endpoint(members: &Vec<Member>) -> (r: NameMap<usize>)
    ensures
        forall|e: Seq<char>| #[trigger] r@.dom().contains(e) <==> replica_at(members_of(members@), e) is Some,
        forall|e: Seq<char>| #[trigger] r@.dom().contains(e) ==> r@[e] < members@.len() && replica_at(members_of(members@), e) == Some(
            members@[r@[e] as int]@,
        ),
{
    let ghost all = members_of(members@);
    let mut out: NameMap<usize> = NameMap::new();
    let mut i: usize = 0;
    assert(all.take(0) =~= Seq::empty());
    while i < members.len()
        invariant
            all == members_of(members@),
            i <= members@.len(),
            forall|e: Seq<char>| #[trigger] out@.dom().contains(e) <==> replica_at(all.take(i as int), e) is Some,
            forall|e: Seq<char>| #[trigger] out@.dom().contains(e) ==> out@[e] < members@.len() && replica_at(all.take(i as int), e)
                == Some(members@[out@[e] as int]@),
        decreases members@.len() - i,
    {
        proof {
            lemma_take_grows(all, i as int);
        }
        let m = &members[i];
        assert(all[i as int] == m@);
        if same_text(m.role.as_str(), "shard") && opt_is(&m.shard_role, "replica") {
            out.insert(endpoint_of(m.url.as_str()).to_owned(), i);
        }
        i += 1;
    }
    proof {
        lemma_take_all(all);
    }
    out
}

fn ring_has(shards: &Vec<RingShard>, p: &str, e: &str) -> (r: bool)
    ensures
        r == ring_places(groups(shards@), p@, e@),
{
    let ghost g = groups(shards@);
    let mut i: usize = 0;
    while i < shards.len()
        invariant
            g == groups(shards@),
            i <= shards@.len(),
            forall|a: int, b: int| 0 <= a < i && endpoint(g[a].node_url) == p@ && 0 <= b < g[a].replica_urls.len()
                ==> endpoint(#[trigger] g[a].replica_urls[b]) != e@,
        decreases shards@.len() - i,
    {
        if same_text(endpoint_of(shards[i].node_url.as_str()), p) {
            let urls = &shards[i].replica_urls;
            let mut j: usize = 0;
            while j < urls.len()
                invariant
                    g == groups(shards@),
                    i < shards@.len(),
                    *urls == shards@[i as int].replica_urls,
                    endpoint(g[i as int].node_url) == p@,
                    j <= urls@.len(),
                    forall|b: int| 0 <= b < j ==> endpoint(#[trigger] g[i as int].replica_urls[b]) != e@,
                decreases urls@.len() - j,
            {
                if same_text(endpoint_of(urls[j].as_str()), e) {
                    assert(endpoint(g[i as int].replica_urls[j as int]) == e@);
                    return true;
                }
                j += 1;
            }
        }
        i += 1;
    }
    false
}

/// The replicas that belong with one primary.
fn replica_placements(members: &Vec<Member>, shards: &Vec<RingShard>, primary: &str) -> (r: Vec<String>)
    ensures
        placement(members_of(members@), groups(shards@), primary@, texts(r@)),
{
    let ghost v = members_of(members@);
    let ghost g = groups(shards@);
    let replicas = replicas_by_endpoint(members);
    let n = replicas.len();
    let ghost ks = replicas.keys();
    let ghost mut es: Seq<Seq<char>> = Seq::empty();
    let mut out: Vec<String> = Vec::new();
    let mut i: usize = 0;
    proof {
        assert(texts(out@) =~= deduped(replica_urls(v, es)));
    }
    while i < n
        invariant
            v == members_of(members@),
            g == groups(shards@),
            ks == replicas.keys(),
            n == ks.len(),
            replicas.keyed(),
            forall|e: Seq<char>| #[trigger] replicas@.dom().contains(e) <==> replica_at(v, e) is Some,
            forall|e: Seq<char>| #[trigger] replicas@.dom().contains(e) ==> replicas@[e] < members@.len() && replica_at(v, e) == Some(
                members@[replicas@[e] as int]@,
            ),
            i <= n,
            increasing(es),
            forall|e: Seq<char>| #[trigger] es.contains(e) <==> ks.take(i as int).contains(e) && placed_with(v, g, primary@, e),
            texts(out@) == deduped(replica_urls(v, es)),
        decreases n - i,
    {
        proof {
            lemma_take_grows(ks, i as int);
        }
        let e = replicas.key_at(i);
        let at: usize = *replicas.value_at(i);
        assert(replicas@.dom().contains(e@));
        let m = &members[at];
        let belongs = match &m.follows {
            Some(f) => same_text(endpoint_of(f.as_str()), primary),
            None => ring_has(shards, primary, e.as_str()),
        };
        assert(belongs == placed_with(v, g, primary@, e@));
        if belongs {
            let ghost next = es.push(e@);
            let ghost before = texts(out@);
            proof {
                assert forall|a: int, b: int| 0 <= a < b < next.len() implies text_before(#[trigger] next[a], #[trigger] next[b]) by {
                    if b < es.len() {
                        assert(text_before(es[a], es[b]));
                    } else {
                        assert(es.contains(es[a]));
                        assert(ks.take(i as int).contains(es[a]));
                        let t = choose|t: int| 0 <= t < i && ks.take(i as int)[t] == es[a];
                        assert(text_before(ks[t], ks[i as int]));
                    }
                }
                assert forall|q: Seq<char>| next.contains(q) <==> es.contains(q) || q == e@ by {
                    if es.contains(q) {
                        let t = choose|t: int| 0 <= t < es.len() && es[t] == q;
                        assert(next[t] == q);
                    }
                    assert(next[es.len() as int] == e@);
                }
                let urls = replica_urls(v, next);
                assert(urls.drop_last() =~= replica_urls(v, es));
                assert(urls.last() == m@.url);
            }
            let repeated = out.len() > 0 && same_endpoint(out[out.len() - 1].as_str(), m.url.as_str());
            assert(texts(out@).len() == out@.len());
            if !repeated {
                out.push(m.url.clone());
                assert(texts(out@) =~= before.push(m@.url));
            }
            proof {
                es = next;
            }
        }
        proof {
            assert forall|q: Seq<char>| #[trigger] es.contains(q) <==> ks.take(i + 1).contains(q) && placed_with(v, g, primary@, q) by {
                assert(ks.take(i + 1).contains(q) <==> ks.take(i as int).contains(q) || q == e@);
            }
        }
        i += 1;
    }
    proof {
        lemma_take_all(ks);
        assert forall|e: Seq<char>| es.contains(e) <==> placed_with(v, g, primary@, e) by {
            if placed_with(v, g, primary@, e) {
                assert(replicas@.dom().contains(e));
                assert(ks.to_set().contains(e));
            }
            assert(ks.take(n as int).contains(e) <==> ks.contains(e));
        }
    }
    out
}

/// The primaries of a member list, by endpoint.
fn primaries_by_endpoint(members: &Vec<Member>) -> (r: NameMap<String>)
    ensures
        forall|e: Seq<char>| #[trigger] r@.dom().contains(e) <==> primary_at(members_of(members@), e) is Some,
        forall|e: Seq<char>| #[trigger] r@.dom().contains(e) ==> primary_at(members_of(members@), e) == Some(r@[e]@),
{
    let ghost all = members_of(members@);
    let mut out: NameMap<String> = NameMap::new();
    let mut i: usize = 0;
    assert(all.take(0) =~= Seq::empty());
    while i < members.len()
        invariant
            all == members_of(members@),
            i <= members@.len(),
            forall|e: Seq<char>| #[trigger] out@.dom().contains(e) <==> primary_at(all.take(i as int), e) is Some,
            forall|e: Seq<char>| #[trigger] out@.dom().contains(e) ==> primary_at(all.take(i as int), e) == Some(out@[e]@),
        decreases members@.len() - i,
    {
        proof {
            lemma_take_grows(all, i as int);
        }
        let m = &members[i];
        assert(all[i as int] == m@);
        if same_text(m.role.as_str(), "shard") && opt_is(&m.shard_role, "primary") {
            let e = endpoint_of(m.url.as_str());
            if !out.holds(e) {
                out.insert(e.to_owned(), m.url.clone());
            }
        }
        i += 1;
    }
    proof {
        lemma_take_all(all);
    }
    out
}

/// Whether `ring` is what membership asks for: one group for each primary, by endpoint, with the
/// replicas that belong with it.
pub open spec fn is_desired(v: Seq<MemberView>, current: HashRingView, ring: HashRingView) -> bool {
    &&& ring.vnodes == current.vnodes
    &&& exists|es: Seq<Seq<char>>| #[trigger] increasing(es) && (forall|e: Seq<char>| es.contains(e) <==> primary_at(v, e) is Some)
        && es.len() == ring.shards.len() && forall|i: int| 0 <= i < es.len() ==> (#[trigger] ring.shards[i]).node_url == primary_at(v, es[i])->0
        && placement(v, current.shards, es[i], ring.shards[i].replica_urls)
}

/// What deriving a ring gives.
pub open spec fn desired(view: ClusterMetadataView, r: Result<Option<HashRing>, String>) -> bool {
    if view.ring is None {
        r is Ok && r->Ok_0 is None
    } else if forall|e: Seq<char>| primary_at(view.members, e) is None {
        r is Err && r->Err_0@ == "automatic rebalancing needs at least one member with shard_role 'primary'"@
    } else {
        exists|ring: HashRingView| #[trigger] is_desired(view.members, view.ring->0, ring) && (match ring.fault() {
            Some(why) => r is Err && r->Err_0@ == why,
            None => r is Ok && r->Ok_0 is Some && r->Ok_0->0@ == ring,
        })
    }
}

/// Derives stable primary and replica placement from live membership.
pub fn desired_ring(view: &ClusterMetadata) -> (r: Result<Option<HashRing>, String>)
    ensures
        desired(view@, r),
{
    let current = match &view.ring {
        Some(ring) => ring,
        None => {
            return Ok(None);
        },
    };
    let ghost v = view@.members;
    let primaries = primaries_by_endpoint(&view.members);
    let n = primaries.len();
    let ghost es = primaries.keys();
    if n == 0 {
        proof {
            assert forall|e: Seq<char>| primary_at(v, e) is None by {
                assert(!es.to_set().contains(e));
                assert(!primaries@.dom().contains(e));
            }
        }
        return Err("automatic rebalancing needs at least one member with shard_role 'primary'".to_owned());
    }
    proof {
        assert(es.to_set().contains(es[0]));
        assert(primaries@.dom().contains(es[0]));
        assert(primary_at(v, es[0]) is Some);
    }
    let mut shards: Vec<RingShard> = Vec::new();
    let mut i: usize = 0;
    while i < n
        invariant
            view.ring == Some(*current),
            v == members_of(view.members@),
            es == primaries.keys(),
            n == es.len(),
            forall|e: Seq<char>| #[trigger] primaries@.dom().contains(e) ==> primary_at(v, e) == Some(primaries@[e]@),
            i <= n,
            shards@.len() == i,
            forall|j: int| 0 <= j < i ==> (#[trigger] groups(shards@)[j]).node_url == primary_at(v, es[j])->0 && placement(
                v,
                current@.shards,
                es[j],
                groups(shards@)[j].replica_urls,
            ),
        decreases n - i,
    {
        let e = primaries.key_at(i);
        let node_url = primaries.value_at(i).clone();
        assert(primaries@.dom().contains(es[i as int]));
        let replica_urls = replica_placements(&view.members, &current.shards, e.as_str());
        let ghost before = shards@;
        shards.push(RingShard { node_url, replica_urls });
        proof {
            assert forall|j: int| 0 <= j < i + 1 implies (#[trigger] groups(shards@)[j]).node_url == primary_at(v, es[j])->0 && placement(
                v,
                current@.shards,
                es[j],
                groups(shards@)[j].replica_urls,
            ) by {
                if j < i {
                    assert(groups(before)[j] == groups(shards@)[j]);
                }
            }
        }
        i += 1;
    }
    let target = HashRing { vnodes: current.vnodes, shards };
    proof {
        assert(increasing(es));
        assert forall|e: Seq<char>| es.contains(e) <==> primary_at(v, e) is Some by {
            assert(es.to_set().contains(e) <==> es.contains(e));
            assert(primaries@.dom().contains(e) <==> primary_at(v, e) is Some);
        }
        assert(is_desired(v, current@, target@));
        assert(view@.ring == Some(current@));
    }
    let ghost t = target@;
    assert(is_desired(view@.members, view@.ring->0, t));
    match target.validate() {
        Err(why) => {
            assert(t.fault() == Some(why@));
            Err(why)
        },
        Ok(()) => {
            assert(t.fault() is None);
            Ok(Some(target))
        },
    }
}

// ---- Whatever the order of the members ----

/// Whether a member is a primary, or a replica, at an endpoint.
spec fn stands_as(m: MemberView, shard_role: Seq<char>, e: Seq<char>) -> bool {
    m.role == "shard"@ && m.shard_role == Some(shard_role) && endpoint(m.url) == e
}

proof fn lemma_one_per_node_prefix(v: Seq<MemberView>)
    requires
        v.len() > 0,
        one_per_node(urls_of(v)),
    ensures
        one_per_node(urls_of(v.drop_last())),
        forall|i: int| 0 <= i < v.len() - 1 ==> endpoint((#[trigger] v[i]).url) != endpoint(v.last().url),
{
    let u = urls_of(v);
    assert(urls_of(v.drop_last()) =~= u.drop_last());
    assert forall|i: int| 0 <= i < v.len() - 1 implies endpoint((#[trigger] v[i]).url) != endpoint(v.last().url) by {
        assert(node(u[i]) != node(u[v.len() - 1]));
    }
}

proof fn lemma_primary_found(v: Seq<MemberView>, e: Seq<char>)
    requires
        one_per_node(urls_of(v)),
    ensures
        forall|i: int| 0 <= i < v.len() && stands_as(#[trigger] v[i], "primary"@, e) ==> primary_at(v, e) == Some(v[i].url),
        primary_at(v, e) is Some ==> exists|i: int| 0 <= i < v.len() && stands_as(#[trigger] v[i], "primary"@, e),
    decreases v.len(),
{
    if v.len() > 0 {
        let rest = v.drop_last();
        lemma_one_per_node_prefix(v);
        lemma_primary_found(rest, e);
        if primary_at(rest, e) is Some {
            let i = choose|i: int| 0 <= i < rest.len() && stands_as(#[trigger] rest[i], "primary"@, e);
            assert(stands_as(v[i], "primary"@, e));
        } else if primary_at(v, e) is Some {
            assert(stands_as(v[v.len() - 1], "primary"@, e));
        }
        assert forall|i: int| 0 <= i < v.len() && stands_as(#[trigger] v[i], "primary"@, e) implies primary_at(v, e) == Some(v[i].url) by {
            if i < v.len() - 1 {
                assert(stands_as(rest[i], "primary"@, e));
            } else if primary_at(rest, e) is Some {
                let j = choose|j: int| 0 <= j < rest.len() && stands_as(#[trigger] rest[j], "primary"@, e);
                assert(endpoint(v[j].url) != endpoint(v.last().url));
            }
        }
    }
}

proof fn lemma_replica_found(v: Seq<MemberView>, e: Seq<char>)
    requires
        one_per_node(urls_of(v)),
    ensures
        forall|i: int| 0 <= i < v.len() && stands_as(#[trigger] v[i], "replica"@, e) ==> replica_at(v, e) == Some(v[i]),
        replica_at(v, e) is Some ==> exists|i: int| 0 <= i < v.len() && stands_as(#[trigger] v[i], "replica"@, e),
    decreases v.len(),
{
    if v.len() > 0 {
        let rest = v.drop_last();
        lemma_one_per_node_prefix(v);
        lemma_replica_found(rest, e);
        if stands_as(v.last(), "replica"@, e) {
            assert(stands_as(v[v.len() - 1], "replica"@, e));
        } else if replica_at(rest, e) is Some {
            let i = choose|i: int| 0 <= i < rest.len() && stands_as(#[trigger] rest[i], "replica"@, e);
            assert(stands_as(v[i], "replica"@, e));
        }
        assert forall|i: int| 0 <= i < v.len() && stands_as(#[trigger] v[i], "replica"@, e) implies replica_at(v, e) == Some(v[i]) by {
            if i < v.len() - 1 {
                assert(stands_as(rest[i], "replica"@, e));
                assert(endpoint(v[i].url) != endpoint(v.last().url));
            }
        }
    }
}

proof fn lemma_same_finds(v: Seq<MemberView>, w: Seq<MemberView>, e: Seq<char>)
    requires
        one_per_node(urls_of(v)),
        one_per_node(urls_of(w)),
        forall|m: MemberView| v.contains(m) <==> #[trigger] w.contains(m),
    ensures
        primary_at(v, e) == primary_at(w, e),
        replica_at(v, e) == replica_at(w, e),
{
    lemma_primary_found(v, e);
    lemma_primary_found(w, e);
    lemma_replica_found(v, e);
    lemma_replica_found(w, e);
    if primary_at(v, e) is Some {
        let i = choose|i: int| 0 <= i < v.len() && stands_as(#[trigger] v[i], "primary"@, e);
        assert(w.contains(v[i]));
        let j = choose|j: int| 0 <= j < w.len() && w[j] == v[i];
        assert(stands_as(w[j], "primary"@, e));
    }
    if primary_at(w, e) is Some {
        let i = choose|i: int| 0 <= i < w.len() && stands_as(#[trigger] w[i], "primary"@, e);
        assert(w.contains(w[i]));
        let j = choose|j: int| 0 <= j < v.len() && v[j] == w[i];
        assert(stands_as(v[j], "primary"@, e));
    }
    if replica_at(v, e) is Some {
        let i = choose|i: int| 0 <= i < v.len() && stands_as(#[trigger] v[i], "replica"@, e);
        assert(w.contains(v[i]));
        let j = choose|j: int| 0 <= j < w.len() && w[j] == v[i];
        assert(stands_as(w[j], "replica"@, e));
    }
    if replica_at(w, e) is Some {
        let i = choose|i: int| 0 <= i < w.len() && stands_as(#[trigger] w[i], "replica"@, e);
        assert(w.contains(w[i]));
        let j = choose|j: int| 0 <= j < v.len() && v[j] == w[i];
        assert(stands_as(v[j], "replica"@, e));
    }
}

proof fn lemma_one_placement(v: Seq<MemberView>, w: Seq<MemberView>, shards: Seq<RingShardView>, p: Seq<char>, r: Seq<Seq<char>>, s: Seq<Seq<char>>)
    requires
        forall|e: Seq<char>| replica_at(v, e) == #[trigger] replica_at(w, e),
        placement(v, shards, p, r),
        placement(w, shards, p, s),
    ensures
        r == s,
{
    let a = choose|es: Seq<Seq<char>>| increasing(es) && (forall|e: Seq<char>| es.contains(e) <==> placed_with(v, shards, p, e))
        && r == deduped(#[trigger] replica_urls(v, es));
    let b = choose|es: Seq<Seq<char>>| increasing(es) && (forall|e: Seq<char>| es.contains(e) <==> placed_with(w, shards, p, e))
        && s == deduped(#[trigger] replica_urls(w, es));
    assert forall|e: Seq<char>| #[trigger] a.contains(e) <==> b.contains(e) by {
        assert(replica_at(v, e) == replica_at(w, e));
        assert(placed_with(v, shards, p, e) == placed_with(w, shards, p, e));
    }
    lemma_increasing_unique(a, b);
    assert(replica_urls(v, a) =~= replica_urls(w, b)) by {
        assert forall|i: int| 0 <= i < a.len() implies replica_urls(v, a)[i] == replica_urls(w, b)[i] by {
            assert(replica_at(v, a[i]) == replica_at(w, a[i]));
        }
    }
}

/// What deriving a ring came to, by its contents.
pub open spec fn derived(r: Result<Option<HashRing>, String>) -> Result<Option<HashRingView>, Seq<char>> {
    match r {
        Ok(Some(ring)) => Ok(Some(ring@)),
        Ok(None) => Ok(None),
        Err(why) => Err(why@),
    }
}

proof fn lemma_one_desired(v: Seq<MemberView>, w: Seq<MemberView>, current: HashRingView, r: HashRingView, s: HashRingView)
    requires
        forall|e: Seq<char>| replica_at(v, e) == #[trigger] replica_at(w, e),
        forall|e: Seq<char>| primary_at(v, e) == #[trigger] primary_at(w, e),
        is_desired(v, current, r),
        is_desired(w, current, s),
    ensures
        r == s,
{
    let a = choose|es: Seq<Seq<char>>| #[trigger] increasing(es) && (forall|e: Seq<char>| es.contains(e) <==> primary_at(v, e) is Some)
        && es.len() == r.shards.len() && forall|i: int| 0 <= i < es.len() ==> (#[trigger] r.shards[i]).node_url == primary_at(v, es[i])->0
        && placement(v, current.shards, es[i], r.shards[i].replica_urls);
    let b = choose|es: Seq<Seq<char>>| #[trigger] increasing(es) && (forall|e: Seq<char>| es.contains(e) <==> primary_at(w, e) is Some)
        && es.len() == s.shards.len() && forall|i: int| 0 <= i < es.len() ==> (#[trigger] s.shards[i]).node_url == primary_at(w, es[i])->0
        && placement(w, current.shards, es[i], s.shards[i].replica_urls);
    assert forall|e: Seq<char>| #[trigger] a.contains(e) <==> b.contains(e) by {
        assert(primary_at(v, e) == primary_at(w, e));
    }
    lemma_increasing_unique(a, b);
    assert forall|i: int| 0 <= i < r.shards.len() implies r.shards[i] == s.shards[i] by {
        assert(primary_at(v, a[i]) == primary_at(w, a[i]));
        lemma_one_placement(v, w, current.shards, a[i], r.shards[i].replica_urls, s.shards[i].replica_urls);
    }
    assert(r.shards =~= s.shards);
}

/// Every node derives the same ring from the same membership: the order in which members are listed
/// is immaterial, where none is listed twice.
pub proof fn law_the_order_of_members_is_immaterial(
    a: ClusterMetadataView,
    b: ClusterMetadataView,
    x: Result<Option<HashRing>, String>,
    y: Result<Option<HashRing>, String>,
)
    requires
        one_per_node(urls_of(a.members)),
        a.members.to_multiset() == b.members.to_multiset(),
        a.ring == b.ring,
        desired(a, x),
        desired(b, y),
    ensures
        derived(x) == derived(y),
{
    let (v, w) = (a.members, b.members);
    v.to_multiset_ensures();
    w.to_multiset_ensures();
    assert forall|m: MemberView| v.contains(m) <==> #[trigger] w.contains(m) by {
        assert(v.contains(m) <==> v.to_multiset().count(m) > 0);
        assert(w.contains(m) <==> w.to_multiset().count(m) > 0);
    }
    lemma_permuted_nodes(v, w);
    assert forall|e: Seq<char>| primary_at(v, e) == #[trigger] primary_at(w, e) by {
        lemma_same_finds(v, w, e);
    }
    assert forall|e: Seq<char>| replica_at(v, e) == #[trigger] replica_at(w, e) by {
        lemma_same_finds(v, w, e);
    }
    if a.ring is Some {
        if forall|e: Seq<char>| primary_at(v, e) is None {
            assert forall|e: Seq<char>| primary_at(w, e) is None by {
                assert(primary_at(v, e) == primary_at(w, e));
            }
        } else {
            let e = choose|e: Seq<char>| primary_at(v, e) is Some;
            assert(primary_at(w, e) is Some);
            let r = choose|ring: HashRingView| #[trigger] is_desired(v, a.ring->0, ring) && (match ring.fault() {
                Some(why) => x is Err && x->Err_0@ == why,
                None => x is Ok && x->Ok_0 is Some && x->Ok_0->0@ == ring,
            });
            let s = choose|ring: HashRingView| #[trigger] is_desired(w, b.ring->0, ring) && (match ring.fault() {
                Some(why) => y is Err && y->Err_0@ == why,
                None => y is Ok && y->Ok_0 is Some && y->Ok_0->0@ == ring,
            });
            lemma_one_desired(v, w, a.ring->0, r, s);
        }
    }
}

/// A permuted list names each node once where the list does.
proof fn lemma_permuted_nodes(v: Seq<MemberView>, w: Seq<MemberView>)
    requires
        one_per_node(urls_of(v)),
        v.to_multiset() == w.to_multiset(),
    ensures
        one_per_node(urls_of(w)),
{
    v.to_multiset_ensures();
    w.to_multiset_ensures();
    let (u, t) = (urls_of(v), urls_of(w));
    assert(v.no_duplicates()) by {
        assert forall|i: int, j: int| 0 <= i < j < v.len() implies v[i] != v[j] by {
            assert(node(u[i]) != node(u[j]));
        }
    }
    v.lemma_multiset_has_no_duplicates();
    w.lemma_multiset_has_no_duplicates_conv();
    assert forall|i: int, j: int| 0 <= i < j < t.len() implies node(#[trigger] t[i]) != node(#[trigger] t[j]) by {
        assert(v.contains(w[i])) by {
            assert(w.contains(w[i]));
            assert(w.to_multiset().count(w[i]) > 0);
            assert(v.to_multiset().count(w[i]) > 0);
        }
        assert(v.contains(w[j])) by {
            assert(w.contains(w[j]));
            assert(w.to_multiset().count(w[j]) > 0);
            assert(v.to_multiset().count(w[j]) > 0);
        }
        let a = choose|a: int| 0 <= a < v.len() && v[a] == w[i];
        let b = choose|b: int| 0 <= b < v.len() && v[b] == w[j];
        assert(w[i] != w[j]);
        if a < b {
            assert(node(u[a]) != node(u[b]));
        } else {
            assert(node(u[b]) != node(u[a]));
        }
    }
}

// ---- When to move ----

/// A ring by the endpoints of its nodes.
pub open spec fn signature(r: HashRingView) -> Seq<(Seq<char>, Seq<Seq<char>>)> {
    Seq::new(r.shards.len(), |i: int| (endpoint(r.shards[i].node_url), endpoints(r.shards[i].replica_urls)))
}

/// The endpoints of some URLs.
pub open spec fn endpoints(urls: Seq<Seq<char>>) -> Seq<Seq<char>> {
    Seq::new(urls.len(), |i: int| endpoint(urls[i]))
}

fn endpoints_of(urls: &Vec<String>) -> (r: Vec<String>)
    ensures
        texts(r@) == endpoints(texts(urls@)),
{
    let mut out: Vec<String> = Vec::new();
    let mut i: usize = 0;
    while i < urls.len()
        invariant
            i <= urls@.len(),
            out@.len() == i,
            forall|j: int| 0 <= j < i ==> (#[trigger] out@[j])@ == endpoint(urls@[j]@),
        decreases urls@.len() - i,
    {
        out.push(endpoint_of(urls[i].as_str()).to_owned());
        i += 1;
    }
    assert(texts(out@) =~= endpoints(texts(urls@)));
    out
}

/// A target by the endpoints of its nodes, which is what a stable membership is recognised by.
pub fn target_signature(target: &HashRing) -> (r: Vec<(String, Vec<String>)>)
    ensures
        super::metadata::groups_view(r@) == signature(target@),
{
    let mut out: Vec<(String, Vec<String>)> = Vec::new();
    let mut i: usize = 0;
    while i < target.shards.len()
        invariant
            i <= target.shards@.len(),
            out@.len() == i,
            forall|j: int| 0 <= j < i ==> (#[trigger] out@[j]).0@ == endpoint(target.shards@[j].node_url@)
                && texts(out@[j].1@) == endpoints(texts(target.shards@[j].replica_urls@)),
        decreases target.shards@.len() - i,
    {
        let e = endpoint_of(target.shards[i].node_url.as_str()).to_owned();
        let rs = endpoints_of(&target.shards[i].replica_urls);
        out.push((e, rs));
        i += 1;
    }
    assert(super::metadata::groups_view(out@) =~= signature(target@));
    out
}

/// Whether the group at `i` is the one with the lowest endpoint, the first among equals.
pub open spec fn lowest_group(s: Seq<RingShardView>, i: int) -> bool {
    &&& 0 <= i < s.len()
    &&& forall|j: int| 0 <= j < s.len() ==> !text_before(endpoint((#[trigger] s[j]).node_url), endpoint(s[i].node_url)) && (j < i
        ==> text_before(endpoint(s[i].node_url), endpoint(s[j].node_url)))
}

/// Whether `own` belongs to the lowest group of a ring.
pub open spec fn coordinates(ring: Option<HashRingView>, own: Seq<char>) -> bool {
    ring is Some && exists|i: int| lowest_group(ring->0.shards, i) && (same_node(own, (#[trigger] ring->0.shards[i]).node_url) || names(
        ring->0.shards[i].replica_urls,
        node(own),
    ))
}

/// The lowest shard group coordinates; its elected replica may take over.
pub fn is_coordinator(own: &str, view: &ClusterMetadata) -> (r: bool)
    ensures
        r == coordinates(view@.ring, own@),
{
    let ring = match &view.ring {
        Some(r) => r,
        None => {
            return false;
        },
    };
    let ghost s = ring@.shards;
    if ring.shards.len() == 0 {
        assert(forall|i: int| !lowest_group(s, i));
        return false;
    }
    let mut best: usize = 0;
    let mut i: usize = 1;
    proof {
        lemma_text_order(endpoint(s[0].node_url), endpoint(s[0].node_url));
    }
    while i < ring.shards.len()
        invariant
            s == groups(ring.shards@),
            best < i <= ring.shards@.len(),
            forall|j: int| 0 <= j < i ==> !text_before(endpoint((#[trigger] s[j]).node_url), endpoint(s[best as int].node_url)) && (j < best
                ==> text_before(endpoint(s[best as int].node_url), endpoint(s[j].node_url))),
        decreases ring.shards@.len() - i,
    {
        let a = endpoint_of(ring.shards[i].node_url.as_str());
        let b = endpoint_of(ring.shards[best].node_url.as_str());
        assert(a@ == endpoint(s[i as int].node_url) && b@ == endpoint(s[best as int].node_url));
        if comes_before(a, b) {
            proof {
                assert forall|j: int| 0 <= j < i implies text_before(a@, endpoint((#[trigger] s[j]).node_url)) && !text_before(
                    endpoint(s[j].node_url),
                    a@,
                ) by {
                    let c = endpoint(s[j].node_url);
                    lemma_text_order(b@, c);
                    lemma_text_order(a@, c);
                    if b@ != c {
                        lemma_text_before_transitive(a@, b@, c);
                    }
                }
                lemma_text_order(a@, a@);
            }
            best = i;
        }
        i += 1;
    }
    proof {
        assert(lowest_group(s, best as int));
        assert forall|j: int| lowest_group(s, j) implies j == best by {
            lemma_text_order(endpoint(s[j].node_url), endpoint(s[best as int].node_url));
            if j < best {
                assert(text_before(endpoint(s[best as int].node_url), endpoint(s[j].node_url)));
            } else if best < j {
                assert(text_before(endpoint(s[j].node_url), endpoint(s[best as int].node_url)));
            }
        }
        assert(s[best as int] == ring.shards@[best as int]@);
        assert(view@.ring == Some(ring@));
    }
    let first = &ring.shards[best];
    let ours = same_endpoint(own, first.node_url.as_str()) || list_names(first.replica_urls.as_slice(), own);
    proof {
        let g = view@.ring->0.shards[best as int];
        assert(ours == (same_node(own@, g.node_url) || names(g.replica_urls, node(own@))));
    }
    ours
}

/// A target that was seen, and since when, in monotonic nanoseconds.
pub struct Observed {
    pub target: Vec<(String, Vec<String>)>,
    pub since: u64,
}

fn same_signature(a: &Vec<(String, Vec<String>)>, b: &Vec<(String, Vec<String>)>) -> (r: bool)
    ensures
        r == (super::metadata::groups_view(a@) == super::metadata::groups_view(b@)),
{
    let ghost x = super::metadata::groups_view(a@);
    let ghost y = super::metadata::groups_view(b@);
    if a.len() != b.len() {
        assert(x.len() != y.len());
        return false;
    }
    let mut i: usize = 0;
    while i < a.len()
        invariant
            x == super::metadata::groups_view(a@),
            y == super::metadata::groups_view(b@),
            a@.len() == b@.len(),
            i <= a@.len(),
            forall|j: int| 0 <= j < i ==> x[j] == y[j],
        decreases a@.len() - i,
    {
        if !same_text(a[i].0.as_str(), b[i].0.as_str()) || !same_lists(&a[i].1, &b[i].1) {
            assert(x[i as int] != y[i as int]);
            return false;
        }
        i += 1;
    }
    assert(x =~= y);
    true
}

/// What the rebalancer does in one round.
pub enum RebalanceStep {
    /// Nothing to do here.
    Idle,
    /// A handover is in flight: recover its copying, and its coordination where this group
    /// coordinates.
    Recover { coordinate: bool },
    /// No target can be derived, for this reason.
    Blocked(String),
    /// The ring is what membership asks for.
    Balanced,
    /// The target has not been stable for long enough.
    Observing,
    /// Another group coordinates.
    NotOurs,
    /// Begin a handover to this ring.
    Begin(HashRing),
}

/// When a target counts as stable: seen unchanged for long enough.
pub open spec fn stable(observed: Option<Observed>, target: HashRingView, now: u64, stabilization: u64) -> bool {
    observed is Some && super::metadata::groups_view(observed->0.target@) == signature(target) && since(now, observed->0.since)
        >= stabilization
}

/// Whether a target was seen before, stable or not.
pub open spec fn seen_before(observed: Option<Observed>, target: HashRingView) -> bool {
    observed is Some && super::metadata::groups_view(observed->0.target@) == signature(target)
}

/// What one round comes to, with what is remembered before and after.
pub open spec fn round_ok(
    is_leader: bool,
    view: ClusterMetadataView,
    own: Seq<char>,
    before: Option<Observed>,
    after: Option<Observed>,
    now: u64,
    stabilization: u64,
    step: RebalanceStep,
) -> bool {
    if !is_leader {
        step is Idle && after == before
    } else if view.migration is Some {
        step is Recover && step->coordinate == coordinates(view.ring, own) && after == before
    } else {
        exists|d: Result<Option<HashRing>, String>| #[trigger] desired(view, d) && (match d {
            Err(why) => step is Blocked && step->Blocked_0@ == why@ && after == before,
            Ok(None) => step is Idle && after == before,
            Ok(Some(target)) => if view.ring == Some(target@) {
                step is Balanced && after is None
            } else if !seen_before(before, target@) {
                step is Observing && after is Some && super::metadata::groups_view(after->0.target@) == signature(target@) && after->0.since
                    == now
            } else if !stable(before, target@, now, stabilization) {
                step is Observing && after == before
            } else if !coordinates(view.ring, own) {
                step is NotOurs && after == before
            } else {
                step is Begin && step->Begin_0@ == target@ && after == before
            },
        })
    }
}

/// One round of the rebalancer. Membership churn is debounced into one migration: a target has to
/// stay the same for the stabilization time before a handover to it begins.
pub fn rebalance_task(
    is_leader: bool,
    view: &ClusterMetadata,
    own: &str,
    observed: &mut Option<Observed>,
    now: u64,
    stabilization: u64,
) -> (r: RebalanceStep)
    ensures
        round_ok(is_leader, view@, own@, *old(observed), *final(observed), now, stabilization, r),
{
    if !is_leader {
        return RebalanceStep::Idle;
    }
    if view.migration.is_some() {
        return RebalanceStep::Recover { coordinate: is_coordinator(own, view) };
    }
    let wanted = desired_ring(view);
    let ghost d = wanted;
    assert(desired(view@, d));
    let target = match wanted {
        Err(why) => {
            return RebalanceStep::Blocked(why);
        },
        Ok(None) => {
            return RebalanceStep::Idle;
        },
        Ok(Some(t)) => t,
    };
    let reached = match &view.ring {
        Some(ring) => same_ring(ring, &target),
        None => false,
    };
    if reached {
        *observed = None;
        return RebalanceStep::Balanced;
    }
    let sig = target_signature(&target);
    let (seen, long_enough) = match &*observed {
        Some(o) => (same_signature(&o.target, &sig), now.saturating_sub(o.since) >= stabilization),
        None => (false, false),
    };
    if !seen {
        *observed = Some(Observed { target: sig, since: now });
        return RebalanceStep::Observing;
    }
    if !long_enough {
        return RebalanceStep::Observing;
    }
    if !is_coordinator(own, view) {
        return RebalanceStep::NotOurs;
    }
    RebalanceStep::Begin(target)
}

/// What the start of a handover came to.
#[derive(Clone, Copy, Debug, PartialEq, Eq, Structural)]
pub enum Launch {
    /// The handover began.
    Started,
    /// No key moves, so the ring was put in force at once.
    Applied,
    /// Nothing was begun; the next round tries again.
    Refused,
}

/// Notes what the start of a handover came to: a target that is being moved to, or has been reached,
/// is no longer watched, and one that could not be started on is still as stable as it was.
pub fn note_launch(observed: &mut Option<Observed>, launch: Launch)
    ensures
        *final(observed) == (if launch is Refused { *old(observed) } else { None }),
{
    match launch {
        Launch::Refused => {},
        _ => {
            *observed = None;
        },
    }
}

// ---- Laws ----

/// A target that is not being watched is not moved to: after a handover began or a ring was put in
/// force, another one begins only after it has been watched for the stabilization time.
pub proof fn law_a_target_is_watched_before_it_is_moved_to(
    is_leader: bool,
    view: ClusterMetadataView,
    own: Seq<char>,
    before: Option<Observed>,
    after: Option<Observed>,
    now: u64,
    stabilization: u64,
    step: RebalanceStep,
)
    requires
        round_ok(is_leader, view, own, before, after, now, stabilization, step),
        step is Begin,
    ensures
        before is Some,
        since(now, before->0.since) >= stabilization,
        super::metadata::groups_view(before->0.target@) == signature(step->Begin_0@),
        after == before,
{
}

/// The primary found at an endpoint is the one that is there, where nobody else is.
pub proof fn law_a_primary_is_found_where_it_is(v: Seq<MemberView>, i: int)
    requires
        0 <= i < v.len(),
        v[i].role == "shard"@,
        v[i].shard_role == Some("primary"@),
        forall|j: int| 0 <= j < v.len() && j != i ==> endpoint((#[trigger] v[j]).url) != endpoint(v[i].url),
    ensures
        primary_at(v, endpoint(v[i].url)) == Some(v[i].url),
    decreases v.len(),
{
    let e = endpoint(v[i].url);
    if i == v.len() - 1 {
        lemma_no_primary(v.drop_last(), e);
    } else {
        let rest = v.drop_last();
        assert forall|j: int| 0 <= j < rest.len() && j != i implies endpoint((#[trigger] rest[j]).url) != e by {
            assert(rest[j] == v[j]);
        }
        law_a_primary_is_found_where_it_is(rest, i);
    }
}

proof fn lemma_no_primary(v: Seq<MemberView>, e: Seq<char>)
    requires
        forall|j: int| 0 <= j < v.len() ==> endpoint((#[trigger] v[j]).url) != e,
    ensures
        primary_at(v, e) is None,
    decreases v.len(),
{
    if v.len() > 0 {
        let rest = v.drop_last();
        assert forall|j: int| 0 <= j < rest.len() implies endpoint((#[trigger] rest[j]).url) != e by {
            assert(rest[j] == v[j]);
        }
        lemma_no_primary(rest, e);
        assert(v.last() == v[v.len() - 1]);
    }
}

/// A replica belongs with one primary at most, where the ring has it in one group at most.
pub proof fn law_a_replica_belongs_with_one_primary(v: Seq<MemberView>, shards: Seq<RingShardView>, p: Seq<char>, q: Seq<char>, e: Seq<char>)
    requires
        placed_with(v, shards, p, e),
        placed_with(v, shards, q, e),
        ring_places(shards, p, e) && ring_places(shards, q, e) ==> p == q,
    ensures
        p == q,
{
}

// ---- Status ----

/// The primaries of a ring as a value: null where there is no ring.
pub open spec fn primaries_json(ring: Option<HashRingView>) -> JsonView {
    match ring {
        Some(r) => JsonView::Array(Seq::new(r.shards.len(), |i: int| JsonView::Str(r.shards[i].node_url))),
        None => JsonView::Null,
    }
}

/// One group as a value.
pub open spec fn placement_json(g: RingShardView) -> JsonView {
    JsonView::Object(gathered(seq![("primary"@, JsonView::Str(g.node_url)), ("replicas"@, text_values(g.replica_urls))]))
}

/// The groups of a ring as a value: null where there is no ring.
pub open spec fn placements_json(ring: Option<HashRingView>) -> JsonView {
    match ring {
        Some(r) => JsonView::Array(Seq::new(r.shards.len(), |i: int| placement_json(r.shards[i]))),
        None => JsonView::Null,
    }
}

fn primaries_value(ring: Option<&HashRing>) -> (r: Json)
    ensures
        r@ == primaries_json(opt_ring(ring)),
        r@.wf(),
{
    let ring = match ring {
        Some(r) => r,
        None => return Json::Null,
    };
    let mut out: Vec<Json> = Vec::new();
    let mut i: usize = 0;
    while i < ring.shards.len()
        invariant
            i <= ring.shards@.len(),
            out@.len() == i,
            forall|k: int| 0 <= k < i ==> (#[trigger] out@[k])@ == JsonView::Str(ring@.shards[k].node_url),
        decreases ring.shards@.len() - i,
    {
        assert(ring@.shards[i as int] == ring.shards@[i as int]@);
        out.push(Json::Str(ring.shards[i].node_url.clone()));
        i += 1;
    }
    proof {
        assert(values(out@) =~= Seq::new(ring@.shards.len(), |i: int| JsonView::Str(ring@.shards[i].node_url)));
        assert forall|k: int| 0 <= k < out@.len() implies (#[trigger] out@[k])@.wf() by {
            assert(out@[k]@ == JsonView::Str(ring@.shards[k].node_url));
        }
    }
    list_of(out)
}

fn placements_value(ring: Option<&HashRing>) -> (r: Json)
    ensures
        r@ == placements_json(opt_ring(ring)),
        r@.wf(),
{
    let ring = match ring {
        Some(r) => r,
        None => return Json::Null,
    };
    let mut out: Vec<Json> = Vec::new();
    let mut i: usize = 0;
    while i < ring.shards.len()
        invariant
            i <= ring.shards@.len(),
            out@.len() == i,
            forall|k: int| 0 <= k < i ==> (#[trigger] out@[k])@ == placement_json(ring@.shards[k]) && out@[k]@.wf(),
        decreases ring.shards@.len() - i,
    {
        assert(ring@.shards[i as int] == ring.shards@[i as int]@);
        let mut pairs: Vec<(String, Json)> = Vec::new();
        pairs.push(("primary".to_owned(), Json::Str(ring.shards[i].node_url.clone())));
        pairs.push(("replicas".to_owned(), text_list(&ring.shards[i].replica_urls)));
        assert(members(pairs@) =~= seq![
            ("primary"@, JsonView::Str(ring.shards@[i as int].node_url@)),
            ("replicas"@, text_values(texts(ring.shards@[i as int].replica_urls@))),
        ]);
        out.push(Json::object(pairs));
        i += 1;
    }
    assert(values(out@) =~= Seq::new(ring@.shards.len(), |i: int| placement_json(ring@.shards[i])));
    list_of(out)
}

pub open spec fn opt_ring(r: Option<&HashRing>) -> Option<HashRingView> {
    match r {
        Some(x) => Some(x@),
        None => None,
    }
}

pub open spec fn wanted_view(r: Option<HashRing>) -> Option<HashRingView> {
    match r {
        Some(x) => Some(x@),
        None => None,
    }
}

/// A value, or null.
pub open spec fn or_null(j: Option<JsonView>) -> JsonView {
    match j {
        Some(x) => x,
        None => JsonView::Null,
    }
}

/// What is reported of rebalancing.
pub open spec fn status_body(
    cfg: RebalanceConfig,
    coordinator: bool,
    in_progress: bool,
    current: Option<HashRingView>,
    desired: Option<HashRingView>,
    moved_fraction: JsonView,
    transfers: JsonView,
) -> JsonView {
    JsonView::Object(
        gathered(
            seq![
                ("enabled"@, JsonView::Bool(cfg.enabled)),
                ("interval_secs"@, whole(cfg.interval_secs)),
                ("stabilization_secs"@, whole(cfg.stabilization_secs)),
                ("coordinator"@, JsonView::Bool(coordinator)),
                ("in_progress"@, JsonView::Bool(in_progress)),
                ("balanced"@, JsonView::Bool(desired == current)),
                ("current_shards"@, primaries_json(current)),
                ("desired_shards"@, primaries_json(desired)),
                ("current_replica_placements"@, placements_json(current)),
                ("desired_replica_placements"@, placements_json(desired)),
                ("moved_fraction"@, moved_fraction),
                ("transfers"@, transfers),
            ],
        ),
    )
}

/// How much of the keyspace a change of ring moves, as it is reported.
pub struct MovementReport {
    pub moved_fraction: Json,
    pub transfers: Json,
}

/// What is reported of rebalancing where deriving a ring gives `d`.
pub open spec fn status_of(
    view: ClusterMetadataView,
    own: Seq<char>,
    cfg: RebalanceConfig,
    d: Result<Option<HashRing>, String>,
    movement: Option<MovementReport>,
) -> ReplyView {
    match d {
        Err(why) => answered(
            409,
            JsonView::Object(gathered(seq![("enabled"@, JsonView::Bool(cfg.enabled)), ("error"@, JsonView::Str(why@))])),
        ),
        Ok(d) => answered(
            200,
            status_body(
                cfg,
                coordinates(view.ring, own),
                view.migration is Some,
                view.ring,
                wanted_view(d),
                or_null(match movement {
                    Some(m) => Some(m.moved_fraction@),
                    None => None,
                }),
                or_null(match movement {
                    Some(m) => Some(m.transfers@),
                    None => None,
                }),
            ),
        ),
    }
}

/// What is reported of rebalancing: the ring in force and the one that membership asks for. `movement`
/// is what a change from the one to the other moves, where there are both.
pub fn rebalance_status_handler(view: &ClusterMetadata, own: &str, cfg: &RebalanceConfig, movement: Option<MovementReport>) -> (r: Reply)
    requires
        movement is Some ==> movement->0.moved_fraction@.wf() && movement->0.transfers@.wf(),
    ensures
        exists|d: Result<Option<HashRing>, String>| #[trigger] desired(view@, d) && r@ == status_of(view@, own@, *cfg, d, movement),
{
    let wanted = desired_ring(view);
    status_reply(view, own, cfg, &wanted, movement)
}

fn status_reply(
    view: &ClusterMetadata,
    own: &str,
    cfg: &RebalanceConfig,
    wanted: &Result<Option<HashRing>, String>,
    movement: Option<MovementReport>,
) -> (r: Reply)
    requires
        movement is Some ==> movement->0.moved_fraction@.wf() && movement->0.transfers@.wf(),
    ensures
        r@ == status_of(view@, own@, *cfg, *wanted, movement),
{
    let wanted_ring: Option<&HashRing> = match wanted {
        Ok(d) => d.as_ref(),
        Err(why) => {
            let mut pairs: Vec<(String, Json)> = Vec::new();
            pairs.push(("enabled".to_owned(), Json::Bool(cfg.enabled)));
            pairs.push(("error".to_owned(), Json::Str(why.clone())));
            assert(members(pairs@) =~= seq![("enabled"@, JsonView::Bool(cfg.enabled)), ("error"@, JsonView::Str(why@))]);
            return json_reply(409, Json::object(pairs));
        },
    };
    let current: Option<&HashRing> = view.ring.as_ref();
    let balanced = match (current, wanted_ring) {
        (Some(a), Some(b)) => same_ring(a, b),
        (None, None) => true,
        _ => false,
    };
    let coordinator = is_coordinator(own, view);
    let in_progress = view.migration.is_some();
    let (moved, transfers) = match movement {
        Some(m) => (m.moved_fraction, m.transfers),
        None => (Json::Null, Json::Null),
    };
    let mut pairs: Vec<(String, Json)> = Vec::new();
    pairs.push(("enabled".to_owned(), Json::Bool(cfg.enabled)));
    pairs.push(("interval_secs".to_owned(), Json::Number(JsonNumber::PosInt(cfg.interval_secs))));
    pairs.push(("stabilization_secs".to_owned(), Json::Number(JsonNumber::PosInt(cfg.stabilization_secs))));
    pairs.push(("coordinator".to_owned(), Json::Bool(coordinator)));
    pairs.push(("in_progress".to_owned(), Json::Bool(in_progress)));
    pairs.push(("balanced".to_owned(), Json::Bool(balanced)));
    pairs.push(("current_shards".to_owned(), primaries_value(current)));
    pairs.push(("desired_shards".to_owned(), primaries_value(wanted_ring)));
    pairs.push(("current_replica_placements".to_owned(), placements_value(current)));
    pairs.push(("desired_replica_placements".to_owned(), placements_value(wanted_ring)));
    pairs.push(("moved_fraction".to_owned(), moved));
    pairs.push(("transfers".to_owned(), transfers));
    proof {
        assert(opt_ring(current) == view@.ring);
        assert(members(pairs@) =~= seq![
            ("enabled"@, JsonView::Bool(cfg.enabled)),
            ("interval_secs"@, whole(cfg.interval_secs)),
            ("stabilization_secs"@, whole(cfg.stabilization_secs)),
            ("coordinator"@, JsonView::Bool(coordinator)),
            ("in_progress"@, JsonView::Bool(in_progress)),
            ("balanced"@, JsonView::Bool(opt_ring(wanted_ring) == view@.ring)),
            ("current_shards"@, primaries_json(view@.ring)),
            ("desired_shards"@, primaries_json(opt_ring(wanted_ring))),
            ("current_replica_placements"@, placements_json(view@.ring)),
            ("desired_replica_placements"@, placements_json(opt_ring(wanted_ring))),
            ("moved_fraction"@, moved@),
            ("transfers"@, transfers@),
        ]);
    }
    json_reply(200, Json::object(pairs))
}

/// The replicas of a primary, listed by endpoint, are each a node of the list, and every node of the
/// list is among them.
pub proof fn law_neighbours_that_are_one_node_stand_once(s: Seq<Seq<char>>)
    ensures
        forall|n: Seq<char>| names(deduped(s), n) <==> names(s, n),
        forall|i: int| 0 <= i < deduped(s).len() ==> s.contains(#[trigger] deduped(s)[i]),
        forall|i: int| 0 < i < deduped(s).len() ==> node(#[trigger] deduped(s)[i]) != node(deduped(s)[i - 1]),
    decreases s.len(),
{
    if s.len() > 0 {
        let rest = s.drop_last();
        let before = deduped(rest);
        let r = deduped(s);
        law_neighbours_that_are_one_node_stand_once(rest);
        lemma_joined_hold::<Seq<char>>();
        assert(s =~= rest.push(s.last()));
        assert forall|n: Seq<char>| names(r, n) <==> names(s, n) by {
            lemma_nodes_push(rest, s.last());
            lemma_nodes_push(before, s.last());
            assert(nodes(s).contains(n) <==> nodes(rest).contains(n) || n == node(s.last()));
            assert(nodes(before.push(s.last())).contains(n) <==> nodes(before).contains(n) || n == node(s.last()));
            if before.len() > 0 && same_node(before.last(), s.last()) {
                assert(before[before.len() - 1] == before.last());
                assert(names(before, node(s.last())));
            }
        }
        assert forall|i: int| 0 <= i < r.len() implies s.contains(#[trigger] r[i]) by {
            if i < before.len() {
                assert(r[i] == before[i]);
                assert(rest.contains(before[i]));
            }
        }
        assert forall|i: int| 0 < i < r.len() implies node(#[trigger] r[i]) != node(r[i - 1]) by {
            if i < before.len() {
                assert(r[i] == before[i] && r[i - 1] == before[i - 1]);
            }
        }
    }
}

/// Every replica that belongs with a primary is placed with it, and nobody else is.
pub proof fn law_every_replica_is_placed(v: Seq<MemberView>, shards: Seq<RingShardView>, p: Seq<char>, r: Seq<Seq<char>>)
    requires
        placement(v, shards, p, r),
    ensures
        forall|e: Seq<char>| #[trigger] placed_with(v, shards, p, e) ==> names(r, node(replica_at(v, e)->0.url)),
        forall|i: int|
            0 <= i < r.len() ==> exists|e: Seq<char>|
                #[trigger] placed_with(v, shards, p, e) && replica_at(v, e)->0.url == #[trigger] r[i],
{
    let es = choose|es: Seq<Seq<char>>|
        increasing(es) && (forall|e: Seq<char>| es.contains(e) <==> placed_with(v, shards, p, e)) && r == deduped(
            #[trigger] replica_urls(v, es),
        );
    let all = replica_urls(v, es);
    law_neighbours_that_are_one_node_stand_once(all);
    assert forall|e: Seq<char>| #[trigger] placed_with(v, shards, p, e) implies names(r, node(replica_at(v, e)->0.url)) by {
        assert(es.contains(e));
        let i = choose|i: int| 0 <= i < es.len() && es[i] == e;
        assert(all[i] == replica_at(v, e)->0.url);
        assert(names(all, node(replica_at(v, e)->0.url)));
    }
    assert forall|i: int| 0 <= i < r.len() implies exists|e: Seq<char>|
        #[trigger] placed_with(v, shards, p, e) && replica_at(v, e)->0.url == #[trigger] r[i] by {
        assert(all.contains(r[i]));
        let j = choose|j: int| 0 <= j < all.len() && all[j] == r[i];
        assert(es.contains(es[j]));
        assert(placed_with(v, shards, p, es[j]) && replica_at(v, es[j])->0.url == r[i]);
    }
}

/// A replica at an endpoint is the last shard member there that is one.
pub proof fn law_the_last_replica_at_an_endpoint_counts(v: Seq<MemberView>, e: Seq<char>)
    ensures
        forall|i: int|
            0 <= i < v.len() && is_replica_at(#[trigger] v[i], e) && (forall|j: int| i < j < v.len() ==> !is_replica_at(#[trigger] v[j], e))
                ==> replica_at(v, e) == Some(v[i]),
        replica_at(v, e) is None <==> forall|i: int| 0 <= i < v.len() ==> !is_replica_at(#[trigger] v[i], e),
    decreases v.len(),
{
    if v.len() > 0 {
        let rest = v.drop_last();
        law_the_last_replica_at_an_endpoint_counts(rest, e);
        assert(v.last() == v[v.len() - 1]);
        assert(forall|i: int| 0 <= i < rest.len() ==> rest[i] == v[i]);
        if replica_at(v, e) is None {
            assert forall|i: int| 0 <= i < v.len() implies !is_replica_at(#[trigger] v[i], e) by {
                if i < rest.len() {
                    assert(!is_replica_at(rest[i], e));
                }
            }
        }
    }
}

/// A shard member with the role of a replica, at an endpoint.
pub open spec fn is_replica_at(m: MemberView, e: Seq<char>) -> bool {
    m.role == "shard"@ && m.shard_role == Some("replica"@) && endpoint(m.url) == e
}

/// A shard member with the role of a primary, at an endpoint.
pub open spec fn is_primary_at(m: MemberView, e: Seq<char>) -> bool {
    m.role == "shard"@ && m.shard_role == Some("primary"@) && endpoint(m.url) == e
}

/// A primary at an endpoint is the first shard member there that is one.
pub proof fn law_the_first_primary_at_an_endpoint_counts(v: Seq<MemberView>, e: Seq<char>)
    ensures
        forall|i: int|
            0 <= i < v.len() && is_primary_at(#[trigger] v[i], e) && (forall|j: int| 0 <= j < i ==> !is_primary_at(#[trigger] v[j], e))
                ==> primary_at(v, e) == Some(v[i].url),
        primary_at(v, e) is None <==> forall|i: int| 0 <= i < v.len() ==> !is_primary_at(#[trigger] v[i], e),
    decreases v.len(),
{
    if v.len() > 0 {
        let rest = v.drop_last();
        law_the_first_primary_at_an_endpoint_counts(rest, e);
        assert(v.last() == v[v.len() - 1]);
        assert(forall|i: int| 0 <= i < rest.len() ==> rest[i] == v[i]);
        if primary_at(v, e) is None {
            assert forall|i: int| 0 <= i < v.len() implies !is_primary_at(#[trigger] v[i], e) by {
                if i < rest.len() {
                    assert(!is_primary_at(rest[i], e));
                }
            }
        }
        assert forall|i: int|
            0 <= i < v.len() && is_primary_at(#[trigger] v[i], e) && (forall|j: int| 0 <= j < i ==> !is_primary_at(#[trigger] v[j], e)) implies primary_at(
            v,
            e,
        ) == Some(v[i].url) by {
            if i < rest.len() {
                assert(is_primary_at(rest[i], e));
            } else {
                assert forall|j: int| 0 <= j < rest.len() implies !is_primary_at(#[trigger] rest[j], e) by {
                    assert(!is_primary_at(v[j], e));
                }
            }
        }
    }
}

/// Two rings are taken for one plan exactly where they have the same endpoints in the same groups.
pub proof fn law_a_plan_is_known_by_its_endpoints(a: HashRingView, b: HashRingView)
    ensures
        signature(a) == signature(b) <==> {
            &&& a.shards.len() == b.shards.len()
            &&& forall|i: int| 0 <= i < a.shards.len() ==> endpoint((#[trigger] a.shards[i]).node_url) == endpoint(b.shards[i].node_url)
            &&& forall|i: int| 0 <= i < a.shards.len() ==> (#[trigger] a.shards[i]).replica_urls.len() == b.shards[i].replica_urls.len()
            &&& forall|i: int, j: int|
                0 <= i < a.shards.len() && 0 <= j < a.shards[i].replica_urls.len() ==> endpoint(#[trigger] a.shards[i].replica_urls[j])
                    == endpoint(b.shards[i].replica_urls[j])
        },
{
    let (x, y) = (signature(a), signature(b));
    if x == y {
        assert forall|i: int| 0 <= i < a.shards.len() implies endpoint((#[trigger] a.shards[i]).node_url) == endpoint(
            b.shards[i].node_url,
        ) && a.shards[i].replica_urls.len() == b.shards[i].replica_urls.len() by {
            assert(x[i] == y[i]);
            assert(x[i].1.len() == y[i].1.len());
        }
        assert forall|i: int, j: int|
            0 <= i < a.shards.len() && 0 <= j < a.shards[i].replica_urls.len() implies endpoint(#[trigger] a.shards[i].replica_urls[j])
            == endpoint(b.shards[i].replica_urls[j]) by {
            assert(x[i].1[j] == y[i].1[j]);
        }
    } else if a.shards.len() == b.shards.len() && (forall|i: int|
        0 <= i < a.shards.len() ==> endpoint((#[trigger] a.shards[i]).node_url) == endpoint(b.shards[i].node_url)) && (forall|i: int|
        0 <= i < a.shards.len() ==> (#[trigger] a.shards[i]).replica_urls.len() == b.shards[i].replica_urls.len()) && (forall|
        i: int,
        j: int,
    |
        0 <= i < a.shards.len() && 0 <= j < a.shards[i].replica_urls.len() ==> endpoint(#[trigger] a.shards[i].replica_urls[j])
            == endpoint(b.shards[i].replica_urls[j])) {
        assert forall|i: int| 0 <= i < x.len() implies x[i] == y[i] by {
            assert(endpoints(a.shards[i].replica_urls) =~= endpoints(b.shards[i].replica_urls));
            assert(endpoint(a.shards[i].node_url) == endpoint(b.shards[i].node_url));
        }
        assert(x =~= y);
    }
}

proof fn lemma_status_names()
    ensures
        "enabled"@ != "interval_secs"@,
        "enabled"@ != "stabilization_secs"@,
        "enabled"@ != "coordinator"@,
        "enabled"@ != "in_progress"@,
        "enabled"@ != "balanced"@,
        "enabled"@ != "current_shards"@,
        "enabled"@ != "desired_shards"@,
        "enabled"@ != "current_replica_placements"@,
        "enabled"@ != "desired_replica_placements"@,
        "enabled"@ != "moved_fraction"@,
        "enabled"@ != "transfers"@,
        "interval_secs"@ != "stabilization_secs"@,
        "interval_secs"@ != "coordinator"@,
        "interval_secs"@ != "in_progress"@,
        "interval_secs"@ != "balanced"@,
        "interval_secs"@ != "current_shards"@,
        "interval_secs"@ != "desired_shards"@,
        "interval_secs"@ != "current_replica_placements"@,
        "interval_secs"@ != "desired_replica_placements"@,
        "interval_secs"@ != "moved_fraction"@,
        "interval_secs"@ != "transfers"@,
        "stabilization_secs"@ != "coordinator"@,
        "stabilization_secs"@ != "in_progress"@,
        "stabilization_secs"@ != "balanced"@,
        "stabilization_secs"@ != "current_shards"@,
        "stabilization_secs"@ != "desired_shards"@,
        "stabilization_secs"@ != "current_replica_placements"@,
        "stabilization_secs"@ != "desired_replica_placements"@,
        "stabilization_secs"@ != "moved_fraction"@,
        "stabilization_secs"@ != "transfers"@,
        "coordinator"@ != "in_progress"@,
        "coordinator"@ != "balanced"@,
        "coordinator"@ != "current_shards"@,
        "coordinator"@ != "desired_shards"@,
        "coordinator"@ != "current_replica_placements"@,
        "coordinator"@ != "desired_replica_placements"@,
        "coordinator"@ != "moved_fraction"@,
        "coordinator"@ != "transfers"@,
        "in_progress"@ != "balanced"@,
        "in_progress"@ != "current_shards"@,
        "in_progress"@ != "desired_shards"@,
        "in_progress"@ != "current_replica_placements"@,
        "in_progress"@ != "desired_replica_placements"@,
        "in_progress"@ != "moved_fraction"@,
        "in_progress"@ != "transfers"@,
        "balanced"@ != "current_shards"@,
        "balanced"@ != "desired_shards"@,
        "balanced"@ != "current_replica_placements"@,
        "balanced"@ != "desired_replica_placements"@,
        "balanced"@ != "moved_fraction"@,
        "balanced"@ != "transfers"@,
        "current_shards"@ != "desired_shards"@,
        "current_shards"@ != "current_replica_placements"@,
        "current_shards"@ != "desired_replica_placements"@,
        "current_shards"@ != "moved_fraction"@,
        "current_shards"@ != "transfers"@,
        "desired_shards"@ != "current_replica_placements"@,
        "desired_shards"@ != "desired_replica_placements"@,
        "desired_shards"@ != "moved_fraction"@,
        "desired_shards"@ != "transfers"@,
        "current_replica_placements"@ != "desired_replica_placements"@,
        "current_replica_placements"@ != "moved_fraction"@,
        "current_replica_placements"@ != "transfers"@,
        "desired_replica_placements"@ != "moved_fraction"@,
        "desired_replica_placements"@ != "transfers"@,
        "moved_fraction"@ != "transfers"@,
{
    reveal_strlit("enabled");
    assert("enabled"@.len() == 7);
    reveal_strlit("interval_secs");
    assert("interval_secs"@.len() == 13);
    reveal_strlit("stabilization_secs");
    assert("stabilization_secs"@.len() == 18);
    reveal_strlit("coordinator");
    assert("coordinator"@.len() == 11);
    reveal_strlit("in_progress");
    assert("in_progress"@.len() == 11);
    reveal_strlit("balanced");
    assert("balanced"@.len() == 8);
    reveal_strlit("current_shards");
    assert("current_shards"@.len() == 14);
    reveal_strlit("desired_shards");
    assert("desired_shards"@.len() == 14);
    reveal_strlit("current_replica_placements");
    assert("current_replica_placements"@.len() == 26);
    reveal_strlit("desired_replica_placements");
    assert("desired_replica_placements"@.len() == 26);
    reveal_strlit("moved_fraction");
    assert("moved_fraction"@.len() == 14);
    reveal_strlit("transfers");
    assert("transfers"@.len() == 9);
    assert("coordinator"@[0] != "in_progress"@[0]);
    assert("current_shards"@[0] != "desired_shards"@[0]);
    assert("current_shards"@[0] != "moved_fraction"@[0]);
    assert("desired_shards"@[0] != "moved_fraction"@[0]);
    assert("current_replica_placements"@[0] != "desired_replica_placements"@[0]);
}

/// The status says everything it is asked for, each under its own name.
pub proof fn law_the_status_says_everything(
    cfg: RebalanceConfig,
    coordinator: bool,
    in_progress: bool,
    current: Option<HashRingView>,
    desired: Option<HashRingView>,
    moved_fraction: JsonView,
    transfers: JsonView,
)
    ensures
        status_body(cfg, coordinator, in_progress, current, desired, moved_fraction, transfers).member("enabled"@) == Some(JsonView::Bool(cfg.enabled)),
        status_body(cfg, coordinator, in_progress, current, desired, moved_fraction, transfers).member("interval_secs"@) == Some(whole(cfg.interval_secs)),
        status_body(cfg, coordinator, in_progress, current, desired, moved_fraction, transfers).member("stabilization_secs"@) == Some(whole(cfg.stabilization_secs)),
        status_body(cfg, coordinator, in_progress, current, desired, moved_fraction, transfers).member("coordinator"@) == Some(JsonView::Bool(coordinator)),
        status_body(cfg, coordinator, in_progress, current, desired, moved_fraction, transfers).member("in_progress"@) == Some(JsonView::Bool(in_progress)),
        status_body(cfg, coordinator, in_progress, current, desired, moved_fraction, transfers).member("balanced"@) == Some(JsonView::Bool(desired == current)),
        status_body(cfg, coordinator, in_progress, current, desired, moved_fraction, transfers).member("current_shards"@) == Some(primaries_json(current)),
        status_body(cfg, coordinator, in_progress, current, desired, moved_fraction, transfers).member("desired_shards"@) == Some(primaries_json(desired)),
        status_body(cfg, coordinator, in_progress, current, desired, moved_fraction, transfers).member("current_replica_placements"@) == Some(placements_json(current)),
        status_body(cfg, coordinator, in_progress, current, desired, moved_fraction, transfers).member("desired_replica_placements"@) == Some(placements_json(desired)),
        status_body(cfg, coordinator, in_progress, current, desired, moved_fraction, transfers).member("moved_fraction"@) == Some(moved_fraction),
        status_body(cfg, coordinator, in_progress, current, desired, moved_fraction, transfers).member("transfers"@) == Some(transfers),
{
    let pairs = seq![
        ("enabled"@, JsonView::Bool(cfg.enabled)),
        ("interval_secs"@, whole(cfg.interval_secs)),
        ("stabilization_secs"@, whole(cfg.stabilization_secs)),
        ("coordinator"@, JsonView::Bool(coordinator)),
        ("in_progress"@, JsonView::Bool(in_progress)),
        ("balanced"@, JsonView::Bool(desired == current)),
        ("current_shards"@, primaries_json(current)),
        ("desired_shards"@, primaries_json(desired)),
        ("current_replica_placements"@, placements_json(current)),
        ("desired_replica_placements"@, placements_json(desired)),
        ("moved_fraction"@, moved_fraction),
        ("transfers"@, transfers),
    ];
    lemma_status_names();
    law_the_last_of_one_key_is_kept(pairs, "enabled"@, 0);
    law_the_last_of_one_key_is_kept(pairs, "interval_secs"@, 1);
    law_the_last_of_one_key_is_kept(pairs, "stabilization_secs"@, 2);
    law_the_last_of_one_key_is_kept(pairs, "coordinator"@, 3);
    law_the_last_of_one_key_is_kept(pairs, "in_progress"@, 4);
    law_the_last_of_one_key_is_kept(pairs, "balanced"@, 5);
    law_the_last_of_one_key_is_kept(pairs, "current_shards"@, 6);
    law_the_last_of_one_key_is_kept(pairs, "desired_shards"@, 7);
    law_the_last_of_one_key_is_kept(pairs, "current_replica_placements"@, 8);
    law_the_last_of_one_key_is_kept(pairs, "desired_replica_placements"@, 9);
    law_the_last_of_one_key_is_kept(pairs, "moved_fraction"@, 10);
    law_the_last_of_one_key_is_kept(pairs, "transfers"@, 11);
}

/// The groups of a ring are told one by one: each primary, and with it each of its replicas.
pub proof fn law_placements_tell_of_every_group(r: HashRingView, i: int, j: int)
    requires
        0 <= i < r.shards.len(),
    ensures
        primaries_json(Some(r)) is Array && primaries_json(Some(r))->Array_0.len() == r.shards.len(),
        primaries_json(Some(r))->Array_0[i] == JsonView::Str(r.shards[i].node_url),
        placements_json(Some(r)) is Array && placements_json(Some(r))->Array_0.len() == r.shards.len(),
        placements_json(Some(r))->Array_0[i].member("primary"@) == Some(JsonView::Str(r.shards[i].node_url)),
        ({
            let said = placements_json(Some(r))->Array_0[i].member("replicas"@);
            said is Some && said->0 is Array && said->0->Array_0.len() == r.shards[i].replica_urls.len() && (0 <= j
                < r.shards[i].replica_urls.len() ==> said->0->Array_0[j] == JsonView::Str(r.shards[i].replica_urls[j]))
        }),
{
    let g = r.shards[i];
    let pairs = seq![("primary"@, JsonView::Str(g.node_url)), ("replicas"@, text_values(g.replica_urls))];
    reveal_strlit("primary");
    reveal_strlit("replicas");
    assert("primary"@.len() == 7 && "replicas"@.len() == 8);
    law_the_last_of_one_key_is_kept(pairs, "primary"@, 0);
    law_the_last_of_one_key_is_kept(pairs, "replicas"@, 1);
}

/// The group whose primary comes first by endpoint coordinates, all of its nodes and nobody else.
pub proof fn law_the_first_group_coordinates(ring: HashRingView, own: Seq<char>, i: int)
    requires
        0 <= i < ring.shards.len(),
        forall|j: int|
            0 <= j < ring.shards.len() && j != i ==> text_before(endpoint(ring.shards[i].node_url), endpoint((#[trigger] ring.shards[j]).node_url)),
    ensures
        coordinates(Some(ring), own) <==> node(own) == node(ring.shards[i].node_url) || names(ring.shards[i].replica_urls, node(own)),
        !coordinates(None, own),
{
    let s = ring.shards;
    assert forall|j: int| 0 <= j < s.len() implies !text_before(endpoint((#[trigger] s[j]).node_url), endpoint(s[i].node_url)) by {
        lemma_text_order(endpoint(s[j].node_url), endpoint(s[i].node_url));
    }
    assert(lowest_group(s, i));
    let known = Some(ring);
    if coordinates(known, own) {
        let k = choose|k: int|
            lowest_group(known->0.shards, k) && (same_node(own, (#[trigger] known->0.shards[k]).node_url) || names(
                known->0.shards[k].replica_urls,
                node(own),
            ));
        if k != i {
            assert(!text_before(endpoint(s[i].node_url), endpoint(s[k].node_url)));
        }
    }
    if node(own) == node(s[i].node_url) || names(s[i].replica_urls, node(own)) {
        assert(lowest_group(known->0.shards, i) && same_node(own, known->0.shards[i].node_url) || names(
            known->0.shards[i].replica_urls,
            node(own),
        ));
        assert(coordinates(known, own));
    }
}

/// A target counts as settled once it has been seen unchanged for the whole period, and not before.
pub proof fn law_a_target_settles_in_time(observed: Option<Observed>, target: HashRingView, now: u64, period: u64)
    ensures
        stable(observed, target, now, period) ==> seen_before(observed, target),
        seen_before(observed, target) && observed->0.since <= now ==> (stable(observed, target, now, period) <==> now - observed->0.since
            >= period),
        observed is None ==> !seen_before(observed, target),
{
}

proof fn lemma_refused_names()
    ensures
        "enabled"@ != "error"@,
{
    reveal_strlit("enabled");
    assert("enabled"@.len() == 7);
    reveal_strlit("error");
    assert("error"@.len() == 5);
}

/// The status of a plan that cannot be derived says why; otherwise it is that of the plan, with what
/// would move where that is known.
pub proof fn law_a_status_is_that_of_the_plan(
    view: ClusterMetadataView,
    own: Seq<char>,
    cfg: RebalanceConfig,
    d: Result<Option<HashRing>, String>,
    movement: Option<MovementReport>,
)
    ensures
        ({
            let r = status_of(view, own, cfg, d, movement);
            match d {
                Err(why) => r.status == 409 && r.body is Json && (r.body->Json_0).member("error"@) == Some(JsonView::Str(why@)) && (
                r.body->Json_0).member("enabled"@) == Some(JsonView::Bool(cfg.enabled)),
                Ok(d) => {
                    let b = r.body->Json_0;
                    &&& r.status == 200 && r.body is Json
                    &&& b.member("coordinator"@) == Some(JsonView::Bool(coordinates(view.ring, own)))
                    &&& b.member("in_progress"@) == Some(JsonView::Bool(view.migration is Some))
                    &&& b.member("current_shards"@) == Some(primaries_json(view.ring))
                    &&& b.member("desired_shards"@) == Some(primaries_json(wanted_view(d)))
                    &&& movement is Some ==> b.member("moved_fraction"@) == Some(movement->0.moved_fraction@) && b.member("transfers"@)
                        == Some(movement->0.transfers@)
                    &&& movement is None ==> b.member("moved_fraction"@) == Some(JsonView::Null) && b.member("transfers"@) == Some(
                        JsonView::Null,
                    )
                },
            }
        }),
{
    match d {
        Err(why) => {
            let pairs = seq![("enabled"@, JsonView::Bool(cfg.enabled)), ("error"@, JsonView::Str(why@))];
            lemma_refused_names();
            law_the_last_of_one_key_is_kept(pairs, "enabled"@, 0);
            law_the_last_of_one_key_is_kept(pairs, "error"@, 1);
        },
        Ok(d) => {
            law_the_status_says_everything(
                cfg,
                coordinates(view.ring, own),
                view.migration is Some,
                view.ring,
                wanted_view(d),
                or_null(match movement {
                    Some(m) => Some(m.moved_fraction@),
                    None => None,
                }),
                or_null(match movement {
                    Some(m) => Some(m.transfers@),
                    None => None,
                }),
            );
        },
    }
}

/// A replica belongs with whom it follows, and one that follows nobody with the primary that the ring
/// has it under; nobody else belongs anywhere.
pub proof fn law_where_a_replica_belongs(v: Seq<MemberView>, shards: Seq<RingShardView>, p: Seq<char>, e: Seq<char>)
    ensures
        replica_at(v, e) is None ==> !placed_with(v, shards, p, e),
        replica_at(v, e) is Some && replica_at(v, e)->0.follows is Some ==> (placed_with(v, shards, p, e) <==> endpoint(
            replica_at(v, e)->0.follows->0,
        ) == p),
        replica_at(v, e) is Some && replica_at(v, e)->0.follows is None ==> (placed_with(v, shards, p, e) <==> exists|i: int, j: int|
            0 <= i < shards.len() && endpoint(shards[i].node_url) == p && 0 <= j < shards[i].replica_urls.len() && endpoint(
                #[trigger] shards[i].replica_urls[j],
            ) == e),
{
}

/// A move begins only on a leader of the coordinating group, towards another ring than the one in force,
/// after that has been seen for the whole period, and never while one is under way.
pub proof fn law_when_a_move_begins(
    is_leader: bool,
    view: ClusterMetadataView,
    own: Seq<char>,
    before: Option<Observed>,
    after: Option<Observed>,
    now: u64,
    stabilization: u64,
    step: RebalanceStep,
)
    requires
        round_ok(is_leader, view, own, before, after, now, stabilization, step),
    ensures
        !is_leader ==> step is Idle && after == before,
        is_leader && view.migration is Some ==> step is Recover && step->coordinate == coordinates(view.ring, own),
        step is Recover ==> is_leader && view.migration is Some,
        step is Begin ==> {
            &&& is_leader && view.migration is None && coordinates(view.ring, own)
            &&& view.ring != Some(step->Begin_0@)
            &&& before is Some && super::metadata::groups_view(before->0.target@) == signature(step->Begin_0@)
            &&& since(now, before->0.since) >= stabilization
        },
        step is NotOurs ==> is_leader && view.migration is None && !coordinates(view.ring, own),
        step is Balanced ==> after is None,
        step is Begin || step is NotOurs || step is Blocked ==> after == before,
        step is Observing ==> after is Some && (after == before || after->0.since == now),
{
}

} // verus!
