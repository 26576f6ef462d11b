//! Who is allowed to hold a key, decided from the node's own view of the ring. Views converge rather
//! than switch together, so a shard refusing keys it does not own is what makes the window harmless.

use super::metadata::{ClusterMetadata, ClusterMetadataView, MigrationPhase};
use crate::endpoint::{list_names, names, node, same_endpoint, same_node};
use crate::ring::{
    built_from, groups, hash_key, key_hash, law_a_built_ring_owns_every_hash, BuiltRing, BuiltRingView, HashRingView,
    RingShard, RingShardView,
};
use vstd::prelude::*;

verus! {

#[derive(Debug, PartialEq, Eq)]
pub enum Ownership {
    /// This node's group owns the key, or the cluster has no ring and every node owns everything.
    Ours,
    /// Another group owns it. The URL is where the caller should have gone.
    Elsewhere(String),
    /// Ours today, but a migration in flight hands it to `to`. Writes wait rather than land on a
    /// node that is about to stop being the owner.
    Moving { to: String },
}

pub ghost enum OwnershipView {
    Ours,
    Elsewhere(Seq<char>),
    Moving { to: Seq<char> },
}

impl View for Ownership {
    type V = OwnershipView;

    open spec fn view(&self) -> OwnershipView {
        match *self {
            Ownership::Ours => OwnershipView::Ours,
            Ownership::Elsewhere(u) => OwnershipView::Elsewhere(u@),
            Ownership::Moving { to } => OwnershipView::Moving { to: to@ },
        }
    }
}

/// Whether a ring entry names a node, as its primary or as a replica.
pub open spec fn entry_names(s: RingShardView, n: Seq<char>) -> bool {
    node(s.node_url) == n || names(s.replica_urls, n)
}

/// The first entry that names a node.
pub open spec fn entry_of(shards: Seq<RingShardView>, n: Seq<char>) -> Option<RingShardView>
    decreases shards.len(),
{
    if shards.len() == 0 {
        None
    } else if entry_names(shards[0], n) {
        Some(shards[0])
    } else {
        entry_of(shards.skip(1), n)
    }
}

/// A ring entry belongs to a whole group, not one process: after a failover the node answering is a
/// replica URL, and it owns exactly what the entry it belongs to owns.
pub fn entry_for<'a>(shards: &'a Vec<RingShard>, node_url: &str) -> (r: Option<&'a RingShard>)
    ensures
        match r {
            Some(s) => entry_of(groups(shards@), node(node_url@)) == Some(s@),
            None => entry_of(groups(shards@), node(node_url@)) is None,
        },
{
    let ghost all = groups(shards@);
    let mut i: usize = 0;
    assert(all.skip(0) =~= all);
    while i < shards.len()
        invariant
            all == groups(shards@),
            i <= shards@.len(),
            entry_of(all, node(node_url@)) == entry_of(all.skip(i as int), node(node_url@)),
        decreases shards@.len() - i,
    {
        assert(all.skip(i as int)[0] == all[i as int]);
        assert(all.skip(i as int).skip(1) =~= all.skip(i + 1));
        if same_endpoint(shards[i].node_url.as_str(), node_url) || list_names(shards[i].replica_urls.as_slice(), node_url) {
            return Some(&shards[i]);
        }
        i += 1;
    }
    None
}

/// The primary of the group that a node belongs to.
pub fn group_owner(built: &BuiltRing, own_url: &str) -> (r: Option<String>)
    ensures
        match r {
            Some(u) => ({
                let e = entry_of(built@.shards, node(own_url@));
                e is Some && u@ == e->0.node_url
            }),
            None => entry_of(built@.shards, node(own_url@)) is None,
        },
{
    match entry_for(built.shards(), own_url) {
        Some(e) => Some(e.node_url.clone()),
        None => None,
    }
}

/// Whether a group owns a key.
pub fn group_owns(built: &BuiltRing, group: &str, collection: &str, key: &str) -> (r: bool)
    ensures
        r == ({
            let o = built@.owner(key_hash(collection@, key@));
            o is Some && same_node(o->0.node_url, group@)
        }),
{
    match built.owner(hash_key(collection, key)) {
        Some(o) => same_endpoint(o.node_url.as_str(), group),
        None => false,
    }
}

/// Who owns a key, as `own` sees it on a ring and, while a handover is being finalized, on the ring
/// that comes next.
pub open spec fn classified(
    ring: BuiltRingView,
    finalizing: bool,
    target: Option<BuiltRingView>,
    own: Seq<char>,
    h: u64,
) -> Option<OwnershipView> {
    match ring.owner(h) {
        None => None,
        Some(owner) => {
            let mine = entry_of(ring.shards, node(own));
            if mine is None || !same_node(owner.node_url, mine->0.node_url) {
                Some(OwnershipView::Elsewhere(owner.node_url))
            } else if finalizing && target is Some && target->0.owner(h) is Some
                && !same_node(target->0.owner(h)->0.node_url, mine->0.node_url) {
                Some(OwnershipView::Moving { to: target->0.owner(h)->0.node_url })
            } else {
                Some(OwnershipView::Ours)
            }
        },
    }
}

/// Whether a view is finalizing a handover.
pub open spec fn finalizing(v: ClusterMetadataView) -> bool {
    v.migration is Some && v.migration->0.phase == MigrationPhase::Finalizing
}

/// A built ring that may be absent, by its contents.
pub open spec fn opt_built(b: Option<&BuiltRing>) -> Option<BuiltRingView> {
    match b {
        Some(b) => Some(b@),
        None => None,
    }
}

/// `None` only when the ring has no owner for anything; a node outside an existing ring owns nothing
/// and redirects. `built` and `built_target` are the rings of the view and of its migration.
pub fn classify(
    view: &ClusterMetadata,
    built: &BuiltRing,
    built_target: Option<&BuiltRing>,
    own_url: &str,
    collection: &str,
    key: &str,
) -> (r: Option<Ownership>)
    ensures
        (match r {
            Some(o) => Some(o@),
            None => None,
        }) == classified(built@, finalizing(view@), opt_built(built_target), own_url@, key_hash(collection@, key@)),
{
    let h = hash_key(collection, key);
    let owner = match built.owner(h) {
        Some(o) => o.node_url.clone(),
        None => {
            return None;
        },
    };
    let mine = match entry_for(built.shards(), own_url) {
        Some(e) => e,
        None => {
            return Some(Ownership::Elsewhere(owner));
        },
    };
    if !same_endpoint(owner.as_str(), mine.node_url.as_str()) {
        return Some(Ownership::Elsewhere(owner));
    }
    // The final pass requires a stable source before ownership flips.
    let last_pass = match &view.migration {
        Some(m) => m.phase == MigrationPhase::Finalizing,
        None => false,
    };
    if last_pass {
        if let Some(t) = built_target {
            if let Some(next) = t.owner(h) {
                if !same_endpoint(next.node_url.as_str(), mine.node_url.as_str()) {
                    return Some(Ownership::Moving { to: next.node_url.clone() });
                }
            }
        }
    }
    Some(Ownership::Ours)
}

/// Two nodes of different groups never both take a key for their own.
pub proof fn law_a_key_has_one_owning_group(
    ring: BuiltRingView,
    a_finalizing: bool,
    b_finalizing: bool,
    a_target: Option<BuiltRingView>,
    b_target: Option<BuiltRingView>,
    a: Seq<char>,
    b: Seq<char>,
    h: u64,
)
    requires
        classified(ring, a_finalizing, a_target, a, h) == Some(OwnershipView::Ours),
        classified(ring, b_finalizing, b_target, b, h) == Some(OwnershipView::Ours),
    ensures
        ({
            let x = entry_of(ring.shards, node(a));
            let y = entry_of(ring.shards, node(b));
            x is Some && y is Some && same_node(x->0.node_url, y->0.node_url)
        }),
{
}

/// While a handover only copies, it changes nobody's ownership.
pub proof fn law_copying_freezes_nothing(ring: BuiltRingView, target: Option<BuiltRingView>, own: Seq<char>, h: u64)
    ensures
        classified(ring, false, target, own, h) == classified(ring, false, None, own, h),
{
}

/// A handover being finalized holds up only the keys that it moves away from here.
pub proof fn law_finalizing_freezes_only_what_moves(ring: BuiltRingView, target: BuiltRingView, own: Seq<char>, h: u64)
    requires
        ({
            let mine = entry_of(ring.shards, node(own));
            mine is Some && target.owner(h) is Some && same_node(target.owner(h)->0.node_url, mine->0.node_url)
        }),
    ensures
        classified(ring, true, Some(target), own, h) == classified(ring, false, None, own, h),
{
}

/// No node stands in the entries of two groups.
pub open spec fn in_one_group_each(shards: Seq<RingShardView>) -> bool {
    forall|i: int, j: int, n: Seq<char>|
        0 <= i < shards.len() && 0 <= j < shards.len() && #[trigger] entry_names(shards[i], n) && #[trigger] entry_names(shards[j], n)
            ==> same_node(shards[i].node_url, shards[j].node_url)
}

proof fn lemma_entry_of(shards: Seq<RingShardView>, n: Seq<char>, i: int) -> (k: int)
    requires
        0 <= i < shards.len(),
        entry_names(shards[i], n),
    ensures
        0 <= k < shards.len(),
        entry_names(shards[k], n),
        entry_of(shards, n) == Some(shards[k]),
    decreases shards.len(),
{
    if entry_names(shards[0], n) {
        0
    } else {
        let rest = shards.skip(1);
        assert(rest[i - 1] == shards[i]);
        let k = lemma_entry_of(rest, n, i - 1);
        assert(shards[k + 1] == rest[k]);
        k + 1
    }
}

/// A redirect names the owner: where no node stands in two groups, the node that a refusal names, and
/// every replica of its group, takes the key for its own on the same ring.
pub proof fn law_a_redirect_reaches_the_owner(
    ring: HashRingView,
    b: BuiltRingView,
    finalizing: bool,
    target: Option<BuiltRingView>,
    own: Seq<char>,
    h: u64,
    there: Seq<char>,
)
    requires
        built_from(ring, b),
        ring.fault() is None,
        in_one_group_each(b.shards),
        classified(b, finalizing, target, own, h) is Some,
        classified(b, finalizing, target, own, h)->0 is Elsewhere,
        entry_names(b.owner(h)->0, node(there)),
    ensures
        classified(b, finalizing, target, own, h)->0 == OwnershipView::Elsewhere(b.owner(h)->0.node_url),
        classified(b, false, None, there, h) == Some(OwnershipView::Ours),
{
    law_a_built_ring_owns_every_hash(ring, b, h);
    let i = b.owner_at(h)->0;
    let k = lemma_entry_of(b.shards, node(there), i);
    assert(same_node(b.shards[i].node_url, b.shards[k].node_url));
}

/// A router and a shard that hold one ring agree: where no node stands in two groups, the group that
/// a key is routed to takes it for its own.
pub proof fn law_a_key_is_accepted_where_it_is_routed(ring: HashRingView, b: BuiltRingView, h: u64, there: Seq<char>)
    requires
        built_from(ring, b),
        ring.fault() is None,
        in_one_group_each(b.shards),
        entry_names(b.owner(h)->0, node(there)),
    ensures
        b.owner(h) is Some,
        classified(b, false, None, there, h) == Some(OwnershipView::Ours),
{
    law_a_built_ring_owns_every_hash(ring, b, h);
    let i = b.owner_at(h)->0;
    let k = lemma_entry_of(b.shards, node(there), i);
    assert(same_node(b.shards[i].node_url, b.shards[k].node_url));
}

/// A node belongs to the first entry of a ring that has it as its primary or as a replica.
pub proof fn law_a_node_belongs_to_the_first_entry_naming_it(shards: Seq<RingShardView>, n: Seq<char>, i: int)
    requires
        0 <= i < shards.len(),
        node(shards[i].node_url) == n || names(shards[i].replica_urls, n),
        forall|j: int| 0 <= j < i ==> node((#[trigger] shards[j]).node_url) != n && !names(shards[j].replica_urls, n),
    ensures
        entry_of(shards, n) == Some(shards[i]),
    decreases shards.len(),
{
    if i > 0 {
        let rest = shards.skip(1);
        assert(rest[i - 1] == shards[i]);
        assert forall|j: int| 0 <= j < i - 1 implies node((#[trigger] rest[j]).node_url) != n && !names(rest[j].replica_urls, n) by {
            assert(rest[j] == shards[j + 1]);
        }
        law_a_node_belongs_to_the_first_entry_naming_it(rest, n, i - 1);
    }
}

/// A node that no entry of a ring names belongs to none.
pub proof fn law_a_node_outside_the_ring_belongs_to_no_entry(shards: Seq<RingShardView>, n: Seq<char>)
    requires
        forall|j: int| 0 <= j < shards.len() ==> node((#[trigger] shards[j]).node_url) != n && !names(shards[j].replica_urls, n),
    ensures
        entry_of(shards, n) is None,
    decreases shards.len(),
{
    if shards.len() > 0 {
        let rest = shards.skip(1);
        assert forall|j: int| 0 <= j < rest.len() implies node((#[trigger] rest[j]).node_url) != n && !names(rest[j].replica_urls, n) by {
            assert(rest[j] == shards[j + 1]);
        }
        law_a_node_outside_the_ring_belongs_to_no_entry(rest, n);
    }
}

} // verus!
