//! Versioned cluster topology: the runtime source of truth for routing and membership.

use super::indexes::{
    addressable, agree, catalogue, copy_catalog, copy_specs, merge_catalog, merged, same_specs, sanitize_catalog,
    specs, taken, CatalogView, CollectionIndexes, CollectionIndexesView, IndexCatalog, IndexChange, IndexChangeView,
    MAX_CATALOG_COLLECTIONS,
};
use crate::config::{normalize_self_url, with_scheme, NodeConfig, NodeConfigView};
use crate::consensus::config::one_per_node;
use crate::consensus::state::{LoadError, Stored};
use crate::endpoint::{list_names, names, node, node_key, nodes, same_endpoint, same_node};
use crate::lists::{lemma_joined_hold, lemma_take_all, lemma_take_grows};
use crate::name_map::{increasing, NameMap};
use crate::ring::{
    complaint, copy_ranges, fault_text, groups, hash_of, hash_text, partitions, ranges, validate_shard_ring, HashRing,
    HashRingView, RangeFault, RingShardView, ShardInfo, ShardInfoView,
};
use crate::sorting::{join_texts, joined, law_sorting_forgets_the_order, sort_texts, sorted};
use crate::text::{
    cat2, cat3, cat4, cat5, comes_before, copy_list, copy_opt, decimal, decimal_of, law_decimal_says_the_number,
    lemma_text_before_transitive, lemma_text_order, opt_is, opt_text, same_text, text_before, texts, trim, trimmed,
};
use vstd::prelude::*;

verus! {

pub const CLUSTER_FILE: &'static str = "cluster.meta";

pub const CLUSTER_TMP: &'static str = "cluster.meta.tmp";

/// A node the cluster knows about. Identity is `url`; `node_id` is informational.
#[derive(Debug, PartialEq, Eq)]
pub struct Member {
    pub url: String,
    pub node_id: Option<String>,
    pub role: String,
    pub shard_role: Option<String>,
    /// Counted toward election and commit quorums. Runtime-added nodes are never voting: the view
    /// converges rather than being agreed, and a quorum computed from disagreeing views can be two
    /// disjoint majorities.
    pub voting: bool,
    /// For a learner, the primary whose group it is catching up with. A leader ships frames only to
    /// learners naming it, so one cluster-wide list can serve several shard groups.
    pub follows: Option<String>,
}

pub ghost struct MemberView {
    pub url: Seq<char>,
    pub node_id: Option<Seq<char>>,
    pub role: Seq<char>,
    pub shard_role: Option<Seq<char>>,
    pub voting: bool,
    pub follows: Option<Seq<char>>,
}

impl View for Member {
    type V = MemberView;

    open spec fn view(&self) -> MemberView {
        MemberView {
            url: self.url@,
            node_id: opt_text(self.node_id),
            role: self.role@,
            shard_role: opt_text(self.shard_role),
            voting: self.voting,
            follows: opt_text(self.follows),
        }
    }
}

impl Clone for Member {
    fn clone(&self) -> (r: Self)
        ensures
            r@ == self@,
    {
        Member {
            url: self.url.clone(),
            node_id: copy_opt(&self.node_id),
            role: self.role.clone(),
            shard_role: copy_opt(&self.shard_role),
            voting: self.voting,
            follows: copy_opt(&self.follows),
        }
    }
}

/// The contents of a member list.
pub open spec fn members_of(v: Seq<Member>) -> Seq<MemberView> {
    Seq::new(v.len(), |i: int| v[i]@)
}

/// A copy of a member list.
pub fn copy_members(v: &Vec<Member>) -> (r: Vec<Member>)
    ensures
        members_of(r@) == members_of(v@),
{
    let mut out: Vec<Member> = Vec::new();
    let mut i: usize = 0;
    while i < v.len()
        invariant
            i <= v@.len(),
            out@.len() == i,
            forall|j: int| 0 <= j < i ==> (#[trigger] out@[j])@ == v@[j]@,
        decreases v@.len() - i,
    {
        out.push(v[i].clone());
        i += 1;
    }
    assert(members_of(out@) =~= members_of(v@));
    out
}

#[derive(Clone, Copy, Debug, PartialEq, Eq, Structural)]
pub enum MigrationPhase {
    Copy,
    Finalizing,
}

impl Default for MigrationPhase {
    fn default() -> (r: Self)
        ensures
            r == MigrationPhase::Copy,
    {
        MigrationPhase::Copy
    }
}

/// The plan, not the progress. Progress is per node and lives in memory: a half-copied shard is not
/// a fact about the cluster, and putting it in the view would make every batch a publish.
#[derive(Debug, PartialEq, Eq)]
pub struct Migration {
    pub id: String,
    pub target: HashRing,
    pub started_by: String,
    pub phase: MigrationPhase,
}

pub ghost struct MigrationView {
    pub id: Seq<char>,
    pub target: HashRingView,
    pub started_by: Seq<char>,
    pub phase: MigrationPhase,
}

impl View for Migration {
    type V = MigrationView;

    open spec fn view(&self) -> MigrationView {
        MigrationView { id: self.id@, target: self.target@, started_by: self.started_by@, phase: self.phase }
    }
}

impl Clone for Migration {
    fn clone(&self) -> (r: Self)
        ensures
            r@ == self@,
    {
        Migration {
            id: self.id.clone(),
            target: self.target.clone(),
            started_by: self.started_by.clone(),
            phase: self.phase,
        }
    }
}

/// A migration that may be absent, by its contents.
pub open spec fn opt_migration(m: Option<Migration>) -> Option<MigrationView> {
    match m {
        Some(m) => Some(m@),
        None => None,
    }
}

/// A ring that may be absent, by its contents.
pub open spec fn opt_ring(r: Option<HashRing>) -> Option<HashRingView> {
    match r {
        Some(r) => Some(r@),
        None => None,
    }
}

/// The whole topology as one versioned value. Replacing it wholesale rather than patching fields
/// keeps the ring validatable as a unit: a half-applied update is a routing hole.
#[derive(Debug, PartialEq, Eq)]
pub struct ClusterMetadata {
    pub version: u64,
    pub updated_by: String,
    /// Derived from one node's config rather than decided by the cluster. Every node seeds at
    /// version 1 with different content, so seeds are not comparable views and must never travel.
    pub seeded: bool,
    pub members: Vec<Member>,
    /// Explicit ranges. Superseded by `ring` when both are present, and kept rather than cleared so
    /// a cluster can be published back onto ranges if a ring change goes wrong.
    pub shards: Vec<ShardInfo>,
    /// Consistent-hash ownership. Takes precedence over `shards` wherever a key is routed.
    pub ring: Option<HashRing>,
    /// A handover in flight. `ring` stays authoritative for routing throughout; this only says where
    /// the keys are going.
    pub migration: Option<Migration>,
    /// What indexes each collection has, cluster-wide. Merged rather than replaced when views meet.
    pub index_catalog: IndexCatalog,
}

#[verifier::ext_equal]
pub ghost struct ClusterMetadataView {
    pub version: u64,
    pub updated_by: Seq<char>,
    pub seeded: bool,
    pub members: Seq<MemberView>,
    pub shards: Seq<ShardInfoView>,
    pub ring: Option<HashRingView>,
    pub migration: Option<MigrationView>,
    pub index_catalog: CatalogView,
}

impl View for ClusterMetadata {
    type V = ClusterMetadataView;

    open spec fn view(&self) -> ClusterMetadataView {
        ClusterMetadataView {
            version: self.version,
            updated_by: self.updated_by@,
            seeded: self.seeded,
            members: members_of(self.members@),
            shards: ranges(self.shards@),
            ring: opt_ring(self.ring),
            migration: opt_migration(self.migration),
            index_catalog: catalogue(self.index_catalog),
        }
    }
}

impl Clone for ClusterMetadata {
    fn clone(&self) -> (r: Self)
        ensures
            r@ == self@,
    {
        ClusterMetadata {
            version: self.version,
            updated_by: self.updated_by.clone(),
            seeded: self.seeded,
            members: copy_members(&self.members),
            shards: copy_ranges(&self.shards),
            ring: match &self.ring {
                Some(r) => Some(r.clone()),
                None => None,
            },
            migration: match &self.migration {
                Some(m) => Some(m.clone()),
                None => None,
            },
            index_catalog: copy_catalog(&self.index_catalog),
        }
    }
}

// ---- Which view wins ----

/// The three fields the total order over views is computed from. A heartbeat advertises this rather
/// than the version alone: a poller that looks at the version will not fetch a peer whose view wins
/// the tiebreak at the same version, so two nodes that published concurrently would stay split.
#[derive(Debug, PartialEq, Eq)]
pub struct ViewId {
    pub version: u64,
    /// `None` from a peer that does not advertise it. Equal versions are unorderable then, so the
    /// comparison falls back to strictly greater rather than guessing a winner.
    pub updated_by: Option<String>,
    pub seeded: bool,
}

pub ghost struct ViewIdView {
    pub version: u64,
    pub updated_by: Option<Seq<char>>,
    pub seeded: bool,
}

impl View for ViewId {
    type V = ViewIdView;

    open spec fn view(&self) -> ViewIdView {
        ViewIdView { version: self.version, updated_by: opt_text(self.updated_by), seeded: self.seeded }
    }
}

impl Default for ViewId {
    fn default() -> (r: Self)
        ensures
            r@ == (ViewIdView { version: 0, updated_by: None, seeded: false }),
    {
        ViewId { version: 0, updated_by: None, seeded: false }
    }
}

impl Clone for ViewId {
    fn clone(&self) -> (r: Self)
        ensures
            r@ == self@,
    {
        ViewId { version: self.version, updated_by: copy_opt(&self.updated_by), seeded: self.seeded }
    }
}

impl ViewIdView {
    /// A seed loses to everything and wins against nothing; between published views the version
    /// decides, then the name of who published, where both are known.
    pub open spec fn supersedes(self, other: ViewIdView) -> bool {
        if self.seeded {
            false
        } else if other.seeded {
            true
        } else if self.updated_by is Some && other.updated_by is Some {
            self.version > other.version
                || (self.version == other.version && text_before(other.updated_by->0, self.updated_by->0))
        } else {
            self.version > other.version
        }
    }
}

impl ViewId {
    /// A shard seeds an empty ring. Letting that outrank a router's seeded ring on a tiebreak would
    /// route every key nowhere, so a seed loses to everything and wins against nothing.
    pub fn supersedes(&self, other: &ViewId) -> (r: bool)
        ensures
            r == self@.supersedes(other@),
    {
        if self.seeded {
            return false;
        }
        if other.seeded {
            return true;
        }
        match (&self.updated_by, &other.updated_by) {
            (Some(mine), Some(theirs)) => self.version > other.version
                || (self.version == other.version && comes_before(theirs.as_str(), mine.as_str())),
            _ => self.version > other.version,
        }
    }
}

impl ClusterMetadataView {
    /// Everything the total order reads.
    pub open spec fn id(self) -> ViewIdView {
        ViewIdView { version: self.version, updated_by: Some(self.updated_by), seeded: self.seeded }
    }

    pub open spec fn supersedes(self, other: ClusterMetadataView) -> bool {
        self.id().supersedes(other.id())
    }

    /// A decision of `by`: one version on, and no longer a guess.
    pub open spec fn bumped(self, by: Seq<char>) -> ClusterMetadataView {
        ClusterMetadataView { version: (self.version + 1) as u64, updated_by: by, seeded: false, ..self }
    }
}

/// Winning is a strict order on views: no view wins over itself, no two win over each other, and
/// winning over a winner is winning over the loser.
pub proof fn law_winning_is_a_strict_order(a: ClusterMetadataView, b: ClusterMetadataView, c: ClusterMetadataView)
    ensures
        !a.supersedes(a),
        a.supersedes(b) ==> !b.supersedes(a),
        a.supersedes(b) && b.supersedes(c) ==> a.supersedes(c),
{
    lemma_text_order(a.updated_by, a.updated_by);
    lemma_text_order(a.updated_by, b.updated_by);
    if text_before(c.updated_by, b.updated_by) && text_before(b.updated_by, a.updated_by) {
        lemma_text_before_transitive(c.updated_by, b.updated_by, a.updated_by);
    }
}

/// Of two published views one wins, unless they are one version by one writer.
pub proof fn law_published_views_are_comparable(a: ClusterMetadataView, b: ClusterMetadataView)
    requires
        !a.seeded,
        !b.seeded,
    ensures
        a.supersedes(b) || b.supersedes(a) || (a.version == b.version && a.updated_by == b.updated_by),
{
    lemma_text_order(a.updated_by, b.updated_by);
}

/// A seed displaces nothing, and gives way to everything that is none, whatever versions they claim.
pub proof fn law_a_seed_never_wins(a: ClusterMetadataView, b: ClusterMetadataView)
    requires
        a.seeded,
    ensures
        !a.supersedes(b),
        b.supersedes(a) <==> !b.seeded,
{
}

/// Where either of two published views does not say who published it, the version alone decides.
pub proof fn law_an_unnamed_writer_leaves_it_to_the_version(a: ViewIdView, b: ViewIdView)
    requires
        !a.seeded,
        !b.seeded,
        a.updated_by is None || b.updated_by is None,
    ensures
        a.supersedes(b) <==> a.version > b.version,
{
}

// ---- Seeding ----

/// The members of a list, each node once: a URL that is empty, or names a node already listed, is
/// left out.
pub open spec fn enrolled(v: Seq<MemberView>) -> Seq<MemberView>
    decreases v.len(),
{
    if v.len() == 0 {
        Seq::empty()
    } else {
        let before = enrolled(v.drop_last());
        if v.last().url.len() == 0 || names(urls_of(before), node(v.last().url)) { before } else { before.push(v.last()) }
    }
}

/// The URLs of members.
pub open spec fn urls_of(v: Seq<MemberView>) -> Seq<Seq<char>> {
    Seq::new(v.len(), |i: int| v[i].url)
}

/// A node that a configuration names. Everything a config names is a full member: the quorum of the
/// config is the one in force before any view is decided.
pub open spec fn named(url: Seq<char>, role: Seq<char>, shard_role: Option<Seq<char>>, node_id: Option<Seq<char>>) -> MemberView {
    MemberView { url, node_id, role, shard_role, voting: role == "shard"@, follows: None }
}

/// The shard nodes at some URLs.
pub open spec fn shards_at(urls: Seq<Seq<char>>, shard_role: Option<Seq<char>>) -> Seq<MemberView> {
    Seq::new(urls.len(), |i: int| named(urls[i], "shard"@, shard_role, None))
}

/// A primary with its replicas.
pub open spec fn group_at(primary: Seq<char>, replicas: Seq<Seq<char>>) -> Seq<MemberView> {
    seq![named(primary, "shard"@, Some("primary"@), None)] + shards_at(replicas, Some("replica"@))
}

/// The nodes of the first `n` ranges.
pub open spec fn range_nodes(map: Seq<ShardInfoView>, n: int) -> Seq<MemberView>
    decreases n,
{
    if n <= 0 {
        Seq::empty()
    } else {
        range_nodes(map, n - 1) + group_at(map[n - 1].node_url, map[n - 1].replica_urls)
    }
}

/// The nodes of the first `n` groups of a ring.
pub open spec fn ring_nodes(shards: Seq<RingShardView>, n: int) -> Seq<MemberView>
    decreases n,
{
    if n <= 0 {
        Seq::empty()
    } else {
        ring_nodes(shards, n - 1) + group_at(shards[n - 1].node_url, shards[n - 1].replica_urls)
    }
}

/// Every mention of a node in a configuration, this node first.
pub open spec fn mentions(cfg: NodeConfigView) -> Seq<MemberView> {
    seq![named(with_scheme(cfg.listen_addr), cfg.role, cfg.shard_role, Some(cfg.node_id))] + (match cfg.primary_addr {
        Some(p) => seq![named(p, "shard"@, Some("primary"@), None)],
        None => Seq::empty(),
    }) + shards_at(cfg.replicas, Some("replica"@)) + shards_at(cfg.peers, None) + range_nodes(
        cfg.shard_map,
        cfg.shard_map.len() as int,
    ) + (match cfg.ring {
        Some(r) => ring_nodes(r.shards, r.shards.len() as int),
        None => Seq::empty(),
    })
}

/// The view that a configuration gives.
pub open spec fn seeded_view(cfg: NodeConfigView) -> ClusterMetadataView {
    ClusterMetadataView {
        version: 1,
        updated_by: cfg.node_id,
        seeded: true,
        members: enrolled(mentions(cfg)),
        shards: cfg.shard_map,
        ring: cfg.ring,
        migration: None,
        index_catalog: Map::empty(),
    }
}

/// Whether a member list names the node of `url`.
fn lists_node(members: &Vec<Member>, url: &str) -> (r: bool)
    ensures
        r == names(urls_of(members_of(members@)), node(url@)),
{
    let ghost us = urls_of(members_of(members@));
    let mut i: usize = 0;
    while i < members.len()
        invariant
            us == urls_of(members_of(members@)),
            i <= members@.len(),
            forall|j: int| 0 <= j < i ==> node(#[trigger] us[j]) != node(url@),
        decreases members@.len() - i,
    {
        if same_endpoint(members[i].url.as_str(), url) {
            assert(node(us[i as int]) == node(url@));
            return true;
        }
        i += 1;
    }
    false
}

/// Enrolls one more mention of a node.
fn enroll(
    members: &mut Vec<Member>,
    url: &str,
    role: &str,
    shard_role: Option<String>,
    node_id: Option<String>,
    Ghost(so_far): Ghost<Seq<MemberView>>,
)
    requires
        members_of(old(members)@) == enrolled(so_far),
    ensures
        members_of(final(members)@) == enrolled(so_far.push(named(url@, role@, opt_text(shard_role), opt_text(node_id)))),
{
    let ghost m = named(url@, role@, opt_text(shard_role), opt_text(node_id));
    assert(so_far.push(m).drop_last() =~= so_far);
    if url.is_empty() || lists_node(members, url) {
        return;
    }
    let voting = same_text(role, "shard");
    let ghost before = members_of(members@);
    members.push(Member { url: url.to_owned(), node_id, role: role.to_owned(), shard_role, voting, follows: None });
    assert(members_of(members@) =~= before.push(m));
}

/// Enrolls shard nodes.
fn enroll_shards(members: &mut Vec<Member>, urls: &Vec<String>, shard_role: &Option<String>, Ghost(so_far): Ghost<Seq<MemberView>>)
    requires
        members_of(old(members)@) == enrolled(so_far),
    ensures
        members_of(final(members)@) == enrolled(so_far + shards_at(texts(urls@), opt_text(*shard_role))),
{
    let ghost more = shards_at(texts(urls@), opt_text(*shard_role));
    let mut i: usize = 0;
    assert(so_far + more.take(0) =~= so_far);
    while i < urls.len()
        invariant
            more == shards_at(texts(urls@), opt_text(*shard_role)),
            i <= urls@.len(),
            members_of(members@) == enrolled(so_far + more.take(i as int)),
        decreases urls@.len() - i,
    {
        enroll(members, urls[i].as_str(), "shard", copy_opt(shard_role), None, Ghost(so_far + more.take(i as int)));
        proof {
            lemma_take_grows(more, i as int);
            assert((so_far + more.take(i as int)).push(more[i as int]) =~= so_far + more.take(i + 1));
        }
        i += 1;
    }
    proof {
        lemma_take_all(more);
    }
}

/// Enrolls a primary with its replicas.
fn enroll_group(members: &mut Vec<Member>, primary: &str, replicas: &Vec<String>, Ghost(so_far): Ghost<Seq<MemberView>>)
    requires
        members_of(old(members)@) == enrolled(so_far),
    ensures
        members_of(final(members)@) == enrolled(so_far + group_at(primary@, texts(replicas@))),
{
    let ghost first = named(primary@, "shard"@, Some("primary"@), None);
    enroll(members, primary, "shard", Some("primary".to_owned()), None, Ghost(so_far));
    enroll_shards(members, replicas, &Some("replica".to_owned()), Ghost(so_far.push(first)));
    assert(so_far.push(first) + shards_at(texts(replicas@), Some("replica"@)) =~= so_far + group_at(primary@, texts(replicas@)));
}

impl ClusterMetadata {
    /// The bootstrap view, used only when no durable copy exists. Config is a seed, not an
    /// authority: once version 1 is on disk, later config edits no longer move the cluster.
    pub fn seed_from_config(cfg: &NodeConfig) -> (r: Self)
        ensures
            r@ == seeded_view(cfg@),
    {
        let mut members: Vec<Member> = Vec::new();
        let own = normalize_self_url(cfg.listen_addr.as_str());
        assert(members_of(members@) =~= enrolled(Seq::empty()));
        enroll(
            &mut members,
            own.as_str(),
            cfg.role.as_str(),
            copy_opt(&cfg.shard_role),
            Some(cfg.node_id.clone()),
            Ghost(Seq::empty()),
        );
        let ghost mut so_far: Seq<MemberView> = seq![
            named(with_scheme(cfg@.listen_addr), cfg@.role, cfg@.shard_role, Some(cfg@.node_id)),
        ];
        assert(Seq::<MemberView>::empty().push(so_far[0]) =~= so_far);
        match &cfg.primary_addr {
            Some(primary) => {
                enroll(&mut members, primary.as_str(), "shard", Some("primary".to_owned()), None, Ghost(so_far));
                proof {
                    let p = named(primary@, "shard"@, Some("primary"@), None);
                    assert(so_far.push(p) =~= so_far + seq![p]);
                    so_far = so_far + seq![p];
                }
            },
            None => {
                proof {
                    assert(so_far + Seq::<MemberView>::empty() =~= so_far);
                }
            },
        }
        enroll_shards(&mut members, &cfg.replicas, &Some("replica".to_owned()), Ghost(so_far));
        proof {
            so_far = so_far + shards_at(cfg@.replicas, Some("replica"@));
        }
        enroll_shards(&mut members, &cfg.peers, &None, Ghost(so_far));
        proof {
            so_far = so_far + shards_at(cfg@.peers, None);
        }
        let mut i: usize = 0;
        assert(so_far + range_nodes(cfg@.shard_map, 0) =~= so_far);
        while i < cfg.shard_map.len()
            invariant
                i <= cfg.shard_map@.len(),
                members_of(members@) == enrolled(so_far + range_nodes(cfg@.shard_map, i as int)),
            decreases cfg.shard_map@.len() - i,
        {
            enroll_group(
                &mut members,
                cfg.shard_map[i].node_url.as_str(),
                &cfg.shard_map[i].replica_urls,
                Ghost(so_far + range_nodes(cfg@.shard_map, i as int)),
            );
            proof {
                assert(cfg@.shard_map[i as int] == cfg.shard_map@[i as int]@);
                assert(so_far + range_nodes(cfg@.shard_map, i as int) + group_at(
                    cfg@.shard_map[i as int].node_url,
                    cfg@.shard_map[i as int].replica_urls,
                ) =~= so_far + range_nodes(cfg@.shard_map, i + 1));
            }
            i += 1;
        }
        proof {
            so_far = so_far + range_nodes(cfg@.shard_map, cfg@.shard_map.len() as int);
        }
        match &cfg.ring {
            Some(ring) => {
                let mut i: usize = 0;
                assert(so_far + ring_nodes(ring@.shards, 0) =~= so_far);
                while i < ring.shards.len()
                    invariant
                        i <= ring.shards@.len(),
                        members_of(members@) == enrolled(so_far + ring_nodes(ring@.shards, i as int)),
                    decreases ring.shards@.len() - i,
                {
                    enroll_group(
                        &mut members,
                        ring.shards[i].node_url.as_str(),
                        &ring.shards[i].replica_urls,
                        Ghost(so_far + ring_nodes(ring@.shards, i as int)),
                    );
                    proof {
                        assert(ring@.shards[i as int] == ring.shards@[i as int]@);
                        assert(so_far + ring_nodes(ring@.shards, i as int) + group_at(
                            ring@.shards[i as int].node_url,
                            ring@.shards[i as int].replica_urls,
                        ) =~= so_far + ring_nodes(ring@.shards, i + 1));
                    }
                    i += 1;
                }
            },
            None => {
                proof {
                    assert(so_far + Seq::<MemberView>::empty() =~= so_far);
                }
            },
        }
        let index_catalog: IndexCatalog = NameMap::new();
        assert(catalogue(index_catalog) =~= Map::empty());
        ClusterMetadata {
            version: 1,
            updated_by: cfg.node_id.clone(),
            seeded: true,
            members,
            shards: copy_ranges(&cfg.shard_map),
            ring: match &cfg.ring {
                Some(r) => Some(r.clone()),
                None => None,
            },
            migration: None,
            index_catalog,
        }
    }

    /// Everything the total order reads, and nothing else, so a peer can be asked whether fetching
    /// its view would gain anything without fetching it.
    pub fn view_id(&self) -> (r: ViewId)
        ensures
            r@ == self@.id(),
    {
        ViewId { version: self.version, updated_by: Some(self.updated_by.clone()), seeded: self.seeded }
    }

    /// Total order over views, so every node converges on the same one. The tiebreak makes equal
    /// versions converge instead of splitting the cluster's routing view. It does so by discarding
    /// one of two concurrent updates: nothing here makes concurrent updates safe, only deterministic.
    pub fn supersedes(&self, other: &Self) -> (r: bool)
        ensures
            r == self@.supersedes(other@),
    {
        self.view_id().supersedes(&other.view_id())
    }
}

// ---- Validity ----

/// The complaint about the first of `n` members that has one.
pub open spec fn member_fault(v: Seq<MemberView>, n: int) -> Option<Seq<char>>
    decreases n,
{
    if n <= 0 {
        None
    } else if member_fault(v, n - 1) is Some {
        member_fault(v, n - 1)
    } else if trim(v[n - 1].url).len() == 0 {
        Some("member url must not be empty"@)
    } else if names(urls_of(v).take(n - 1), node(v[n - 1].url)) {
        Some("member "@ + v[n - 1].url + " appears more than once"@)
    } else if v[n - 1].role != "shard"@ && v[n - 1].role != "router"@ {
        Some("member "@ + v[n - 1].url + " has unknown role '"@ + v[n - 1].role + "'"@)
    } else {
        None
    }
}

proof fn lemma_member_fault_stays(v: Seq<MemberView>, i: int, n: int)
    requires
        0 <= i <= n,
        member_fault(v, i) is Some,
    ensures
        member_fault(v, n) == member_fault(v, i),
    decreases n - i,
{
    if i < n {
        lemma_member_fault_stays(v, i, n - 1);
    }
}

impl ClusterMetadataView {
    /// Whether `c` is what validation says of this view: `None` for a usable one. The first rule
    /// that is broken is reported.
    pub open spec fn judged(self, c: Option<Seq<char>>) -> bool {
        if self.version == 0 {
            c == Some("cluster metadata version must be at least 1"@)
        } else if self.ring is Some && self.ring->0.fault() is Some {
            c == self.ring->0.fault()
        } else if self.migration is Some && self.migration->0.target.fault() is Some {
            c == Some("migration target: "@ + self.migration->0.target.fault()->0)
        } else if self.migration is Some && self.ring is None {
            c == Some("a migration needs a ring to move away from"@)
        } else if self.shards.len() > 0 && !partitions(self.shards) {
            c is Some && exists|f: RangeFault| f.of(self.shards) && c->0 == #[trigger] fault_text(f, self.shards)
        } else if self.index_catalog.dom().len() > MAX_CATALOG_COLLECTIONS {
            c == Some("index catalogue names more than "@ + decimal_of(MAX_CATALOG_COLLECTIONS as nat) + " collections"@)
        } else {
            c == member_fault(self.members, self.members.len() as int)
        }
    }

    /// Whether the view can be used.
    pub open spec fn valid(self) -> bool {
        self.judged(None)
    }
}

impl ClusterMetadata {
    /// Whether the view can be used. Ranges are checked even when a ring supersedes them, so a
    /// rollback publish cannot restore a bad map.
    pub fn validate(&self) -> (r: Result<(), String>)
        ensures
            self@.judged(complaint(r)),
            r is Ok <==> self@.valid(),
    {
        if self.version == 0 {
            return Err("cluster metadata version must be at least 1".to_owned());
        }
        match &self.ring {
            Some(ring) => match ring.validate() {
                Err(e) => {
                    return Err(e);
                },
                Ok(()) => {},
            },
            None => {},
        }
        match &self.migration {
            Some(migration) => {
                match migration.target.validate() {
                    Err(e) => {
                        return Err(cat2("migration target: ", e.as_str()));
                    },
                    Ok(()) => {},
                }
                if self.ring.is_none() {
                    return Err("a migration needs a ring to move away from".to_owned());
                }
            },
            None => {},
        }
        if self.shards.len() > 0 {
            match validate_shard_ring(self.shards.as_slice()) {
                Err(e) => {
                    return Err(e);
                },
                Ok(()) => {},
            }
        }
        match self.validate_catalog() {
            Err(e) => {
                return Err(e);
            },
            Ok(()) => {},
        }
        let ghost v = members_of(self.members@);
        let ghost us = urls_of(v);
        let mut seen: NameMap<bool> = NameMap::new();
        let mut i: usize = 0;
        while i < self.members.len()
            invariant
                v == members_of(self.members@),
                us == urls_of(v),
                i <= self.members@.len(),
                member_fault(v, i as int) is None,
                forall|n: Seq<char>| #[trigger] seen@.dom().contains(n) <==> names(us.take(i as int), n),
                forall|c: Option<Seq<char>>| self@.judged(c) <==> c == member_fault(v, v.len() as int),
            decreases self.members@.len() - i,
        {
            let m = &self.members[i];
            assert(v[i as int] == m@);
            if trimmed(m.url.as_str()).as_str().is_empty() {
                proof {
                    lemma_member_fault_stays(v, i + 1, v.len() as int);
                }
                return Err("member url must not be empty".to_owned());
            }
            let key = node_key(m.url.as_str());
            if seen.holds(key.as_str()) {
                proof {
                    lemma_member_fault_stays(v, i + 1, v.len() as int);
                }
                return Err(cat3("member ", m.url.as_str(), " appears more than once"));
            }
            if !same_text(m.role.as_str(), "shard") && !same_text(m.role.as_str(), "router") {
                proof {
                    lemma_member_fault_stays(v, i + 1, v.len() as int);
                }
                return Err(cat5("member ", m.url.as_str(), " has unknown role '", m.role.as_str(), "'"));
            }
            proof {
                assert(us.take(i + 1) =~= us.take(i as int).push(us[i as int]));
                crate::endpoint::lemma_nodes_push(us.take(i as int), us[i as int]);
                assert forall|n: Seq<char>| names(us.take(i + 1), n) <==> names(us.take(i as int), n) || n == key@ by {
                    assert(nodes(us.take(i + 1)).contains(n) <==> nodes(us.take(i as int)).insert(key@).contains(n));
                }
            }
            seen.insert(key, true);
            i += 1;
        }
        Ok(())
    }

    /// The size bound only. Per-entry shape belongs to the check that drops the entry rather than
    /// failing the document; how many entries ride every view is a fact about the document.
    fn validate_catalog(&self) -> (r: Result<(), String>)
        ensures
            complaint(r) == (if self@.index_catalog.dom().len() > MAX_CATALOG_COLLECTIONS {
                Some("index catalogue names more than "@ + decimal_of(MAX_CATALOG_COLLECTIONS as nat) + " collections"@)
            } else {
                None
            }),
    {
        let n = self.index_catalog.len();
        assert(self@.index_catalog.dom() =~= self.index_catalog@.dom());
        if n > MAX_CATALOG_COLLECTIONS {
            return Err(
                cat3(
                    "index catalogue names more than ",
                    decimal(MAX_CATALOG_COLLECTIONS as u64).as_str(),
                    " collections",
                ),
            );
        }
        Ok(())
    }
}

/// A view that is valid names each of its members once.
pub proof fn law_a_valid_view_names_a_node_once(v: ClusterMetadataView)
    requires
        v.valid(),
    ensures
        one_per_node(urls_of(v.members)),
{
    let us = urls_of(v.members);
    assert forall|i: int, j: int| 0 <= i < j < us.len() implies node(#[trigger] us[i]) != node(#[trigger] us[j]) by {
        lemma_no_fault(v.members, j + 1, v.members.len() as int);
        if node(us[i]) == node(us[j]) {
            assert(us.take(j)[i] == us[i]);
            assert(names(us.take(j), node(us[j])));
        }
    }
}

proof fn lemma_no_fault(v: Seq<MemberView>, i: int, n: int)
    requires
        0 <= i <= n,
        member_fault(v, n) is None,
    ensures
        member_fault(v, i) is None,
{
    if member_fault(v, i) is Some {
        lemma_member_fault_stays(v, i, n);
    }
}

// ---- Durable copy ----

/// The view with only the catalogue entries that can be acted on.
pub open spec fn cleaned(v: ClusterMetadataView) -> ClusterMetadataView {
    ClusterMetadataView { index_catalog: addressable(v.index_catalog), ..v }
}

/// Why a file that exists cannot be used.
pub open spec fn unusable(s: Stored<ClusterMetadata>, why: Seq<char>) -> bool {
    match s {
        Stored::Corrupt(e) => why == e@,
        Stored::Read(m) => !cleaned(m@).valid() && cleaned(m@).judged(Some(why)),
        _ => false,
    }
}

/// The message for a durable view that neither file holds in a usable form.
pub open spec fn unusable_text(name: Seq<char>, why: Seq<char>) -> Seq<char> {
    name + " is unusable ("@ + why + "); delete it to re-seed the topology from config"@
}

/// One file, cleaned and checked.
enum Checked {
    Usable(ClusterMetadata),
    Unusable(String),
    Absent,
    Failed(String),
}

fn check_file(file: Stored<ClusterMetadata>) -> (r: Checked)
    ensures
        match r {
            Checked::Usable(m) => file is Read && m@ == cleaned(file->Read_0@) && m@.valid(),
            Checked::Unusable(why) => unusable(file, why@),
            Checked::Absent => file is Absent,
            Checked::Failed(e) => file is Failed && e@ == file->Failed_0@,
        },
{
    match file {
        Stored::Absent => Checked::Absent,
        Stored::Failed(e) => Checked::Failed(e),
        Stored::Corrupt(why) => Checked::Unusable(why),
        Stored::Read(meta) => {
            let mut meta = meta;
            let ghost before = meta@;
            let _dropped = sanitize_catalog(&mut meta.index_catalog);
            assert(meta@ == cleaned(before));
            match meta.validate() {
                Ok(()) => Checked::Usable(meta),
                Err(why) => Checked::Unusable(why),
            }
        },
    }
}

/// What loading the durable view gives.
pub open spec fn view_loaded(
    file: Stored<ClusterMetadata>,
    staging: Stored<ClusterMetadata>,
    r: Result<Option<ClusterMetadata>, LoadError>,
) -> bool {
    if file is Read && cleaned(file->Read_0@).valid() {
        r is Ok && r->Ok_0 is Some && r->Ok_0->0@ == cleaned(file->Read_0@)
    } else if file is Failed {
        r is Err && r->Err_0 is Io && r->Err_0->Io_0@ == file->Failed_0@
    } else if staging is Read && cleaned(staging->Read_0@).valid() {
        r is Ok && r->Ok_0 is Some && r->Ok_0->0@ == cleaned(staging->Read_0@)
    } else if staging is Failed {
        r is Err && r->Err_0 is Io && r->Err_0->Io_0@ == staging->Failed_0@
    } else if staging is Absent && file is Absent {
        r is Ok && r->Ok_0 is None
    } else if staging is Absent {
        r is Err && r->Err_0 is Invalid && exists|why: Seq<char>| unusable(file, why)
            && r->Err_0->Invalid_0@ == #[trigger] unusable_text(CLUSTER_FILE@, why)
    } else {
        r is Err && r->Err_0 is Invalid && exists|why: Seq<char>| unusable(staging, why)
            && r->Err_0->Invalid_0@ == #[trigger] unusable_text(CLUSTER_TMP@, why)
    }
}

/// What becomes of a save of a view.
pub enum ViewSave {
    /// The durable copy is no older, and holds every definition already.
    Keep,
    /// This view is written.
    WriteThis,
    /// The durable copy keeps its topology and takes this view's newer definitions.
    WriteMerged(ClusterMetadata),
}

impl ClusterMetadata {
    /// `Ok(None)` is a node that has never been seeded. Unusable is an error: falling back to a
    /// config-derived map would route keys by a topology the cluster has already moved past.
    /// Deleting the file is the way to force a re-seed from config.
    pub fn load(file: Stored<ClusterMetadata>, staging: Stored<ClusterMetadata>) -> (r: Result<Option<Self>, LoadError>)
        ensures
            view_loaded(file, staging, r),
    {
        let mut corrupt: Option<(&'static str, String)> = None;
        match check_file(file) {
            Checked::Usable(meta) => {
                return Ok(Some(meta));
            },
            Checked::Failed(e) => {
                return Err(LoadError::Io(e));
            },
            Checked::Unusable(why) => {
                corrupt = Some((CLUSTER_FILE, why));
            },
            Checked::Absent => {},
        }
        match check_file(staging) {
            Checked::Usable(meta) => {
                return Ok(Some(meta));
            },
            Checked::Failed(e) => {
                return Err(LoadError::Io(e));
            },
            Checked::Unusable(why) => {
                corrupt = Some((CLUSTER_TMP, why));
            },
            Checked::Absent => {},
        }
        match corrupt {
            Some((name, why)) => {
                let text = cat4(name, " is unusable (", why.as_str(), "); delete it to re-seed the topology from config");
                assert(text@ == unusable_text(name@, why@));
                Err(LoadError::Invalid(text))
            },
            None => Ok(None),
        }
    }

    /// Adoption decides under the in-memory lock and persists after releasing it, so saves can
    /// arrive out of order. The durable view must move the same direction as the in-memory one. A
    /// view that loses on topology can still carry a definition the durable copy has not got.
    /// `existing` is the durable copy as it was loaded, if it could be.
    pub fn save(&self, existing: Option<ClusterMetadata>) -> (r: ViewSave)
        ensures
            match existing {
                None => r is WriteThis,
                Some(e) => if self@.supersedes(e@) {
                    r is WriteThis
                } else if exists|k: Seq<char>| taken(e@.index_catalog, self@.index_catalog, k) {
                    r is WriteMerged && r->WriteMerged_0@ == (ClusterMetadataView {
                        index_catalog: merged(e@.index_catalog, self@.index_catalog),
                        ..e@
                    })
                } else {
                    r is Keep
                },
            },
    {
        match existing {
            None => ViewSave::WriteThis,
            Some(e) => {
                if self.supersedes(&e) {
                    return ViewSave::WriteThis;
                }
                let mut e = e;
                if !merge_catalog(&mut e.index_catalog, &self.index_catalog) {
                    return ViewSave::Keep;
                }
                ViewSave::WriteMerged(e)
            },
        }
    }
}

// ---- Members ----

/// The first member at a node.
pub open spec fn member_at(v: Seq<MemberView>, n: Seq<char>) -> Option<MemberView>
    decreases v.len(),
{
    if v.len() == 0 {
        None
    } else if member_at(v.drop_last(), n) is Some {
        member_at(v.drop_last(), n)
    } else if node(v.last().url) == n {
        Some(v.last())
    } else {
        None
    }
}

/// A member list names a node exactly where it has a member there.
pub proof fn lemma_member_at(v: Seq<MemberView>, n: Seq<char>)
    ensures
        member_at(v, n) is Some <==> names(urls_of(v), n),
        member_at(v, n) is Some ==> node(member_at(v, n)->0.url) == n,
    decreases v.len(),
{
    if v.len() > 0 {
        let rest = v.drop_last();
        lemma_member_at(rest, n);
        assert(urls_of(v) =~= urls_of(rest).push(v.last().url));
        crate::endpoint::lemma_nodes_push(urls_of(rest), v.last().url);
        assert(nodes(urls_of(v)).contains(n) <==> nodes(urls_of(rest)).insert(node(v.last().url)).contains(n));
    }
}

/// The URLs of the members that `pick` holds of.
pub open spec fn picked_urls(v: Seq<MemberView>, pick: spec_fn(MemberView) -> bool) -> Seq<Seq<char>>
    decreases v.len(),
{
    if v.len() == 0 {
        Seq::empty()
    } else {
        let before = picked_urls(v.drop_last(), pick);
        if pick(v.last()) { before.push(v.last().url) } else { before }
    }
}

/// The members at other nodes.
pub open spec fn members_without(v: Seq<MemberView>, n: Seq<char>) -> Seq<MemberView>
    decreases v.len(),
{
    if v.len() == 0 {
        Seq::empty()
    } else {
        let before = members_without(v.drop_last(), n);
        if node(v.last().url) == n { before } else { before.push(v.last()) }
    }
}

impl MemberView {
    /// A shard node that follows `primary` without a vote.
    pub open spec fn learns_from(self, primary: Seq<char>) -> bool {
        !self.voting && self.role == "shard"@ && self.follows is Some && same_node(self.follows->0, primary)
    }

    /// A shard node with a vote.
    pub open spec fn votes(self) -> bool {
        self.voting && self.role == "shard"@
    }
}

fn keep_others(v: &Vec<Member>, url: &str) -> (r: Vec<Member>)
    ensures
        members_of(r@) == members_without(members_of(v@), node(url@)),
{
    let ghost all = members_of(v@);
    let mut out: Vec<Member> = Vec::new();
    let mut i: usize = 0;
    assert(all.take(0) =~= Seq::empty());
    assert(members_of(out@) =~= members_without(all.take(0), node(url@)));
    while i < v.len()
        invariant
            all == members_of(v@),
            i <= v@.len(),
            members_of(out@) == members_without(all.take(i as int), node(url@)),
        decreases v@.len() - i,
    {
        proof {
            lemma_take_grows(all, i as int);
        }
        let ghost before = members_of(out@);
        if !same_endpoint(v[i].url.as_str(), url) {
            out.push(v[i].clone());
            assert(members_of(out@) =~= before.push(all[i as int]));
        }
        i += 1;
    }
    proof {
        lemma_take_all(all);
    }
    out
}

impl ClusterMetadata {
    pub fn member(&self, url: &str) -> (r: Option<&Member>)
        ensures
            match r {
                Some(m) => member_at(self@.members, node(url@)) == Some(m@),
                None => member_at(self@.members, node(url@)) is None,
            },
    {
        let ghost all = self@.members;
        let mut i: usize = 0;
        assert(all.take(0) =~= Seq::empty());
        while i < self.members.len()
            invariant
                all == members_of(self.members@),
                all == self@.members,
                i <= self.members@.len(),
                member_at(all.take(i as int), node(url@)) is None,
            decreases self.members@.len() - i,
        {
            proof {
                lemma_take_grows(all, i as int);
            }
            if same_endpoint(self.members[i].url.as_str(), url) {
                proof {
                    lemma_first_member(all, node(url@), i + 1);
                }
                return Some(&self.members[i]);
            }
            i += 1;
        }
        proof {
            lemma_take_all(all);
        }
        None
    }

    /// Shard nodes catching up with `primary`, which are exactly the members that receive frames but
    /// are absent from every quorum computation.
    pub fn learners_following(&self, primary: &str) -> (r: Vec<String>)
        ensures
            texts(r@) == picked_urls(self@.members, |m: MemberView| m.learns_from(primary@)),
    {
        let ghost pick = |m: MemberView| m.learns_from(primary@);
        let ghost all = self@.members;
        let mut out: Vec<String> = Vec::new();
        let mut i: usize = 0;
        assert(all.take(0) =~= Seq::empty());
        assert(texts(out@) =~= picked_urls(all.take(0), pick));
        while i < self.members.len()
            invariant
                pick == (|m: MemberView| m.learns_from(primary@)),
                all == members_of(self.members@),
                i <= self.members@.len(),
                texts(out@) == picked_urls(all.take(i as int), pick),
            decreases self.members@.len() - i,
        {
            proof {
                lemma_take_grows(all, i as int);
            }
            let m = &self.members[i];
            assert(all[i as int] == m@);
            let follows = match &m.follows {
                Some(f) => same_endpoint(f.as_str(), primary),
                None => false,
            };
            let ghost before = texts(out@);
            if !m.voting && same_text(m.role.as_str(), "shard") && follows {
                out.push(m.url.clone());
                assert(texts(out@) =~= before.push(m@.url));
            }
            i += 1;
        }
        proof {
            lemma_take_all(all);
        }
        out
    }

    /// The members a quorum is computed over. Routers never vote, and a learner is shipped frames
    /// without being counted, so neither belongs here.
    pub fn voting_shards(&self) -> (r: Vec<String>)
        ensures
            texts(r@) == picked_urls(self@.members, |m: MemberView| m.votes()),
    {
        let ghost pick = |m: MemberView| m.votes();
        let ghost all = self@.members;
        let mut out: Vec<String> = Vec::new();
        let mut i: usize = 0;
        assert(all.take(0) =~= Seq::empty());
        assert(texts(out@) =~= picked_urls(all.take(0), pick));
        while i < self.members.len()
            invariant
                pick == (|m: MemberView| m.votes()),
                all == members_of(self.members@),
                i <= self.members@.len(),
                texts(out@) == picked_urls(all.take(i as int), pick),
            decreases self.members@.len() - i,
        {
            proof {
                lemma_take_grows(all, i as int);
            }
            let m = &self.members[i];
            assert(all[i as int] == m@);
            let ghost before = texts(out@);
            if m.voting && same_text(m.role.as_str(), "shard") {
                out.push(m.url.clone());
                assert(texts(out@) =~= before.push(m@.url));
            }
            i += 1;
        }
        proof {
            lemma_take_all(all);
        }
        out
    }

    /// True only for a node that is present and explicitly non-voting. An unknown node is not a
    /// learner: a node missing from the view must keep behaving as its config says, or a view that
    /// has not reached it yet would silently strip its vote.
    pub fn is_learner(&self, url: &str) -> (r: bool)
        ensures
            r == ({
                let m = member_at(self@.members, node(url@));
                m is Some && !m->0.voting && m->0.role == "shard"@
            }),
    {
        match self.member(url) {
            Some(m) => !m.voting && same_text(m.role.as_str(), "shard"),
            None => false,
        }
    }

    pub fn bump(&mut self, by: &str)
        requires
            old(self).version < u64::MAX,
        ensures
            final(self)@ == old(self)@.bumped(by@),
    {
        self.version = self.version + 1;
        self.updated_by = by.to_owned();
        // The result is a decision, not a guess, however it was derived.
        self.seeded = false;
    }

    /// Next version of this view with `member` added or replaced. Returns a value rather than
    /// mutating, so a rejected change never half-applies.
    pub fn with_member(&self, by: &str, member: Member) -> (r: Self)
        requires
            self.version < u64::MAX,
        ensures
            r@ == (ClusterMetadataView {
                members: members_without(self@.members, node(member@.url)).push(member@),
                ..self@
            }).bumped(by@),
    {
        let mut next = self.clone();
        next.members = keep_others(&self.members, member.url.as_str());
        let ghost kept = members_of(next.members@);
        next.members.push(member);
        assert(members_of(next.members@) =~= kept.push(member@));
        next.bump(by);
        next
    }

    pub fn without_member(&self, by: &str, url: &str) -> (r: Self)
        requires
            self.version < u64::MAX,
        ensures
            r@ == (ClusterMetadataView { members: members_without(self@.members, node(url@)), ..self@ }).bumped(by@),
    {
        let mut next = self.clone();
        next.members = keep_others(&self.members, url);
        next.bump(by);
        next
    }

    /// Next version of this view with `ring` in force. Clears any migration: the ring landing is
    /// what completing one means, and leaving the plan behind would freeze the keys it named.
    pub fn with_ring(&self, by: &str, ring: HashRing) -> (r: Self)
        requires
            self.version < u64::MAX,
        ensures
            r@ == (ClusterMetadataView { ring: Some(ring@), migration: None, ..self@ }).bumped(by@),
    {
        let mut next = self.clone();
        next.ring = Some(ring);
        next.migration = None;
        next.bump(by);
        next
    }

    pub fn with_migration(&self, by: &str, migration: Option<Migration>) -> (r: Self)
        requires
            self.version < u64::MAX,
        ensures
            r@ == (ClusterMetadataView { migration: opt_migration(migration), ..self@ }).bumped(by@),
    {
        let mut next = self.clone();
        next.migration = migration;
        next.bump(by);
        next
    }
}

proof fn lemma_first_member(v: Seq<MemberView>, n: Seq<char>, i: int)
    requires
        0 <= i <= v.len(),
        member_at(v.take(i), n) is Some,
    ensures
        member_at(v, n) == member_at(v.take(i), n),
    decreases v.len() - i,
{
    if i < v.len() {
        lemma_take_grows(v, i);
        lemma_first_member(v, n, i + 1);
    } else {
        lemma_take_all(v);
    }
}

// ---- Fingerprints ----

/// One range with its owner, as the fingerprint has it.
pub open spec fn range_part(s: ShardInfoView) -> Seq<char> {
    decimal_of(s.start_hash as nat) + "-"@ + decimal_of(s.end_hash as nat) + "@"@ + node(s.node_url)
}

/// What maps a key to an owner: the tokens' number and the owning nodes of a ring, or the ranges
/// and the nodes owning them, with the plan of a migration in flight.
pub open spec fn ownership_parts(v: ClusterMetadataView) -> Seq<Seq<char>> {
    (match v.ring {
        Some(r) => seq!["vnodes="@ + decimal_of(r.vnodes as nat)] + Seq::new(r.shards.len(), |i: int| node(r.shards[i].node_url)),
        None => Seq::new(v.shards.len(), |i: int| range_part(v.shards[i])),
    }) + (match v.migration {
        Some(m) => seq!["->"@ + m.id],
        None => Seq::empty(),
    })
}

/// One entry of a catalogue, as the fingerprint has it.
pub open spec fn entry_part(name: Seq<char>, e: CollectionIndexesView) -> Seq<char> {
    name + "@"@ + decimal_of(e.version as nat) + ":"@ + e.updated_by
}

/// The entries of a catalogue under some keys.
pub open spec fn entry_parts(c: CatalogView, ks: Seq<Seq<char>>) -> Seq<Seq<char>> {
    Seq::new(ks.len(), |i: int| entry_part(ks[i], c[ks[i]]))
}

/// The hash of some parts, however they were ordered.
pub open spec fn print_of(parts: Seq<Seq<char>>) -> u64 {
    hash_of(joined(sorted(parts), "|"@))
}

fn fingerprint(parts: Vec<String>) -> (r: u64)
    ensures
        r == print_of(texts(parts@)),
{
    let s = sort_texts(parts);
    hash_text(join_texts(&s, "|").as_str())
}

impl ClusterMetadata {
    /// Fingerprint of what maps a key to an owner: the ranges and the endpoints owning them, plus
    /// the target of a migration in flight, since that moves keys too. Replicas are deliberately out
    /// of it: one joining or leaving moves no key, and a scan must not be disturbed by it.
    pub fn partition_fingerprint(&self) -> (r: u64)
        ensures
            r == print_of(ownership_parts(self@)),
    {
        let mut parts: Vec<String> = Vec::new();
        match &self.ring {
            Some(ring) => {
                parts.push(cat2("vnodes=", decimal(ring.vnodes as u64).as_str()));
                let ghost rs = ring@.shards;
                let mut i: usize = 0;
                while i < ring.shards.len()
                    invariant
                        rs == groups(ring.shards@),
                        i <= ring.shards@.len(),
                        parts@.len() == i + 1,
                        parts@[0]@ == "vnodes="@ + decimal_of(ring.vnodes as nat),
                        forall|j: int| 0 < j <= i ==> (#[trigger] parts@[j])@ == node(rs[j - 1].node_url),
                    decreases ring.shards@.len() - i,
                {
                    parts.push(node_key(ring.shards[i].node_url.as_str()));
                    i += 1;
                }
                proof {
                    assert(texts(parts@) =~= seq!["vnodes="@ + decimal_of(ring@.vnodes as nat)] + Seq::new(
                        rs.len(),
                        |i: int| node(rs[i].node_url),
                    ));
                }
            },
            None => {
                let ghost ss = self@.shards;
                let mut i: usize = 0;
                while i < self.shards.len()
                    invariant
                        ss == ranges(self.shards@),
                        i <= self.shards@.len(),
                        parts@.len() == i,
                        forall|j: int| 0 <= j < i ==> (#[trigger] parts@[j])@ == range_part(ss[j]),
                    decreases self.shards@.len() - i,
                {
                    let sh = &self.shards[i];
                    parts.push(
                        cat5(
                            decimal(sh.start_hash).as_str(),
                            "-",
                            decimal(sh.end_hash).as_str(),
                            "@",
                            node_key(sh.node_url.as_str()).as_str(),
                        ),
                    );
                    i += 1;
                }
                assert(texts(parts@) =~= Seq::new(ss.len(), |i: int| range_part(ss[i])));
            },
        }
        let ghost before = texts(parts@);
        match &self.migration {
            Some(m) => {
                parts.push(cat2("->", m.id.as_str()));
                assert(texts(parts@) =~= before + seq!["->"@ + m@.id]);
            },
            None => {
                assert(before =~= before + Seq::<Seq<char>>::empty());
            },
        }
        fingerprint(parts)
    }

    /// "Do we hold the same definitions?", in one number. What the gossip loop hands a peer its view
    /// back over, so two nodes already in step exchange nothing further.
    pub fn catalog_fingerprint(&self) -> (r: u64)
        ensures
            exists|ks: Seq<Seq<char>>| increasing(ks) && ks.to_set() == self@.index_catalog.dom()
                && r == print_of(#[trigger] entry_parts(self@.index_catalog, ks)),
    {
        let n = self.index_catalog.len();
        let ghost ks = self.index_catalog.keys();
        let ghost c = self@.index_catalog;
        let mut parts: Vec<String> = Vec::new();
        let mut i: usize = 0;
        while i < n
            invariant
                ks == self.index_catalog.keys(),
                n == ks.len(),
                c == catalogue(self.index_catalog),
                i <= n,
                parts@.len() == i,
                forall|j: int| 0 <= j < i ==> (#[trigger] parts@[j])@ == entry_part(ks[j], c[ks[j]]),
            decreases n - i,
        {
            let name = self.index_catalog.key_at(i);
            let e = self.index_catalog.value_at(i);
            parts.push(cat5(name.as_str(), "@", decimal(e.version).as_str(), ":", e.updated_by.as_str()));
            i += 1;
        }
        proof {
            assert(texts(parts@) =~= entry_parts(c, ks));
            assert(c.dom() =~= self.index_catalog@.dom());
        }
        fingerprint(parts)
    }
}

/// Listing the same ranges, or the same groups, in another order leaves the fingerprint alone.
pub proof fn law_the_fingerprint_ignores_order(a: ClusterMetadataView, b: ClusterMetadataView)
    requires
        ownership_parts(a).to_multiset() == ownership_parts(b).to_multiset(),
    ensures
        print_of(ownership_parts(a)) == print_of(ownership_parts(b)),
{
    law_sorting_forgets_the_order(ownership_parts(a), ownership_parts(b));
}

/// The fingerprint is about owners alone: two views with the same ranges at the same nodes, the same
/// ring of nodes and the same plan have one fingerprint, whatever their replicas, members, versions
/// and spellings of a node.
pub proof fn law_the_fingerprint_is_about_owners(a: ClusterMetadataView, b: ClusterMetadataView)
    requires
        a.ring is None && b.ring is None,
        a.shards.len() == b.shards.len(),
        forall|i: int| 0 <= i < a.shards.len() ==> (#[trigger] a.shards[i]).start_hash == b.shards[i].start_hash
            && a.shards[i].end_hash == b.shards[i].end_hash && same_node(a.shards[i].node_url, b.shards[i].node_url),
        a.migration == b.migration,
    ensures
        print_of(ownership_parts(a)) == print_of(ownership_parts(b)),
{
    assert(ownership_parts(a) =~= ownership_parts(b));
}

// ---- Groups ----

/// A shard group: its primary and its replicas.
pub type GroupView = (Seq<char>, Seq<Seq<char>>);

/// The groups of the model in force, one for each mention of an owner.
pub open spec fn mentioned_groups(v: ClusterMetadataView) -> Seq<GroupView> {
    match v.ring {
        Some(r) => Seq::new(r.shards.len(), |i: int| (r.shards[i].node_url, r.shards[i].replica_urls)),
        None => Seq::new(v.shards.len(), |i: int| (v.shards[i].node_url, v.shards[i].replica_urls)),
    }
}

/// The first group of each owner.
pub open spec fn one_each(g: Seq<GroupView>) -> Seq<GroupView>
    decreases g.len(),
{
    if g.len() == 0 {
        Seq::empty()
    } else {
        let before = one_each(g.drop_last());
        if exists|i: int| 0 <= i < before.len() && (#[trigger] before[i]).0 == g.last().0 { before } else { before.push(g.last()) }
    }
}

/// The groups that `v` records.
pub open spec fn owners(v: ClusterMetadataView) -> Seq<GroupView> {
    one_each(mentioned_groups(v))
}

/// The contents of a list of groups.
pub open spec fn groups_view(v: Seq<(String, Vec<String>)>) -> Seq<GroupView> {
    Seq::new(v.len(), |i: int| (v[i].0@, texts(v[i].1@)))
}

/// Whether a group names a node.
pub open spec fn group_names(g: GroupView, n: Seq<char>) -> bool {
    node(g.0) == n || names(g.1, n)
}

/// The first group that names a node.
pub open spec fn group_with(g: Seq<GroupView>, n: Seq<char>) -> Option<GroupView>
    decreases g.len(),
{
    if g.len() == 0 {
        None
    } else if group_names(g[0], n) {
        Some(g[0])
    } else {
        group_with(g.skip(1), n)
    }
}

/// The node that places `url` in a group: its own, or for a learner outside every group that of the
/// primary it follows.
pub open spec fn anchor(v: ClusterMetadataView, url: Seq<char>) -> Seq<char> {
    let m = member_at(v.members, node(url));
    if m is Some && m->0.follows is Some && group_with(owners(v), node(url)) is None {
        node(m->0.follows->0)
    } else {
        node(url)
    }
}

fn push_group(out: &mut Vec<(String, Vec<String>)>, url: &String, replicas: &Vec<String>, Ghost(so_far): Ghost<Seq<GroupView>>)
    requires
        groups_view(old(out)@) == one_each(so_far),
    ensures
        groups_view(final(out)@) == one_each(so_far.push((url@, texts(replicas@)))),
{
    let ghost g = (url@, texts(replicas@));
    assert(so_far.push(g).drop_last() =~= so_far);
    let ghost before = groups_view(out@);
    let mut i: usize = 0;
    while i < out.len()
        invariant
            before == groups_view(out@),
            before == one_each(so_far),
            g == (url@, texts(replicas@)),
            so_far.push(g).drop_last() == so_far,
            i <= out@.len(),
            forall|j: int| 0 <= j < i ==> (#[trigger] before[j]).0 != url@,
        decreases out@.len() - i,
    {
        if same_text(out[i].0.as_str(), url.as_str()) {
            assert(before[i as int].0 == url@);
            return;
        }
        i += 1;
    }
    out.push((url.clone(), copy_list(replicas)));
    assert(groups_view(out@) =~= before.push(g));
}

fn in_group(g: &(String, Vec<String>), url: &str) -> (r: bool)
    ensures
        r == group_names((g.0@, texts(g.1@)), node(url@)),
{
    same_endpoint(g.0.as_str(), url) || list_names(g.1.as_slice(), url)
}

fn find_group(g: &Vec<(String, Vec<String>)>, url: &str) -> (r: Option<usize>)
    ensures
        match r {
            Some(i) => i < g@.len() && group_with(groups_view(g@), node(url@)) == Some(groups_view(g@)[i as int]),
            None => group_with(groups_view(g@), node(url@)) is None,
        },
{
    let ghost all = groups_view(g@);
    let mut i: usize = 0;
    assert(all.skip(0) =~= all);
    while i < g.len()
        invariant
            all == groups_view(g@),
            i <= g@.len(),
            group_with(all, node(url@)) == group_with(all.skip(i as int), node(url@)),
        decreases g@.len() - i,
    {
        assert(all.skip(i as int)[0] == all[i as int]);
        assert(all.skip(i as int).skip(1) =~= all.skip(i + 1));
        if in_group(&g[i], url) {
            return Some(i);
        }
        i += 1;
    }
    None
}

impl ClusterMetadata {
    /// Owners in the model actually in force, so fan-out and probing never disagree with routing.
    pub fn shard_owners(&self) -> (r: Vec<(String, Vec<String>)>)
        ensures
            groups_view(r@) == owners(self@),
    {
        let ghost all = mentioned_groups(self@);
        let mut out: Vec<(String, Vec<String>)> = Vec::new();
        let mut i: usize = 0;
        assert(all.take(0) =~= Seq::empty());
        assert(groups_view(out@) =~= one_each(all.take(0)));
        match &self.ring {
            Some(ring) => {
                while i < ring.shards.len()
                    invariant
                        self.ring == Some(*ring),
                        all == mentioned_groups(self@),
                        i <= ring.shards@.len(),
                        groups_view(out@) == one_each(all.take(i as int)),
                    decreases ring.shards@.len() - i,
                {
                    proof {
                        lemma_take_grows(all, i as int);
                        assert(self@.ring->0.shards[i as int] == ring.shards@[i as int]@);
                    }
                    push_group(&mut out, &ring.shards[i].node_url, &ring.shards[i].replica_urls, Ghost(all.take(i as int)));
                    i += 1;
                }
            },
            None => {
                while i < self.shards.len()
                    invariant
                        self.ring is None,
                        all == mentioned_groups(self@),
                        i <= self.shards@.len(),
                        groups_view(out@) == one_each(all.take(i as int)),
                    decreases self.shards@.len() - i,
                {
                    proof {
                        lemma_take_grows(all, i as int);
                        assert(self@.shards[i as int] == self.shards@[i as int]@);
                    }
                    push_group(&mut out, &self.shards[i].node_url, &self.shards[i].replica_urls, Ghost(all.take(i as int)));
                    i += 1;
                }
            },
        }
        proof {
            lemma_take_all(all);
        }
        out
    }

    /// Whether this view records shard groups at all. Neither model present means one group, and then
    /// every shard member is in it, which is what a single-group deployment looks like.
    pub fn groups_known(&self) -> (r: bool)
        ensures
            r == (self@.ring is Some || self@.shards.len() > 0),
    {
        self.ring.is_some() || self.shards.len() > 0
    }

    /// The nodes sharing a shard group with `url`, `url` included. The member list is one flat list
    /// across every group, so the ring (or the range map) is the only record of who belongs with
    /// whom.
    ///
    /// `None` when nothing in force names this node: either no groups are recorded, or one is and
    /// this node is outside all of them. Callers must not treat the second as licence to fall back to
    /// the whole cluster.
    pub fn shard_group(&self, url: &str) -> (r: Option<Vec<String>>)
        ensures
            match r {
                Some(g) => ({
                    let found = group_with(owners(self@), anchor(self@, url@));
                    found is Some && texts(g@) == seq![(found->0).0] + (found->0).1
                }),
                None => group_with(owners(self@), anchor(self@, url@)) is None,
            },
    {
        let groups = self.shard_owners();
        let mine = find_group(&groups, url);
        let found: Option<usize> = match mine {
            Some(i) => Some(i),
            None => match self.member(url) {
                Some(m) => match &m.follows {
                    Some(f) => find_group(&groups, f.as_str()),
                    None => None,
                },
                None => None,
            },
        };
        match found {
            Some(i) => {
                let mut out: Vec<String> = Vec::new();
                out.push(groups[i].0.clone());
                let mut more = copy_list(&groups[i].1);
                let ghost rest = texts(more@);
                out.append(&mut more);
                assert(texts(out@) =~= seq![groups@[i as int].0@] + rest);
                Some(out)
            },
            None => None,
        }
    }
}

/// Each owner stands once among the groups of a view.
pub proof fn law_each_owner_stands_once(g: Seq<GroupView>, i: int, j: int)
    requires
        0 <= i < j < one_each(g).len(),
    ensures
        one_each(g)[i].0 != one_each(g)[j].0,
    decreases g.len(),
{
    if g.len() > 0 {
        let before = one_each(g.drop_last());
        if j < before.len() {
            law_each_owner_stands_once(g.drop_last(), i, j);
        } else {
            assert(one_each(g)[i] == before[i]);
        }
    }
}

// ---- Definitions ----

impl ClusterMetadataView {
    /// The indexes recorded for a collection.
    pub open spec fn indexes_of(self, collection: Seq<char>) -> Seq<super::indexes::IndexSpecView> {
        if self.index_catalog.dom().contains(collection) { self.index_catalog[collection].indexes } else { Seq::empty() }
    }

    /// The version of a collection's entry; 0 where there is none.
    pub open spec fn entry_version(self, collection: Seq<char>) -> u64 {
        if self.index_catalog.dom().contains(collection) { self.index_catalog[collection].version } else { 0 }
    }

    /// Whether a change to a collection's indexes is worth recording: it changes what is recorded,
    /// and a collection not recorded yet gets its first index while there is room.
    pub open spec fn records(self, collection: Seq<char>, change: IndexChangeView) -> bool {
        let known = self.index_catalog.dom().contains(collection);
        let next = change.applied(self.indexes_of(collection));
        &&& known ==> self.index_catalog[collection].indexes != next
        &&& !known ==> next.len() > 0 && self.index_catalog.dom().len() < MAX_CATALOG_COLLECTIONS
    }

    /// With a collection's entry moved on.
    pub open spec fn with_entry(self, by: Seq<char>, collection: Seq<char>, indexes: Seq<super::indexes::IndexSpecView>) -> ClusterMetadataView {
        ClusterMetadataView {
            index_catalog: self.index_catalog.insert(
                collection,
                CollectionIndexesView {
                    version: (self.entry_version(collection) + 1) as u64,
                    updated_by: by,
                    indexes,
                },
            ),
            ..self
        }
    }
}

impl ClusterMetadata {
    /// Records `change` against this collection's entry. Returns whether anything moved: a create
    /// naming a definition already there is not a version, or the fan-out that reaches every group
    /// would bump one per group for a single client request.
    ///
    /// Deliberately no new version of the view: the topology version is a decision about routing, and
    /// a schema change is not one.
    pub fn record_index_change(&mut self, by: &str, collection: &str, change: &IndexChange) -> (r: bool)
        requires
            old(self)@.records(collection@, change@) ==> old(self)@.entry_version(collection@) < u64::MAX,
        ensures
            r == old(self)@.records(collection@, change@),
            final(self)@ == (if r {
                old(self)@.with_entry(by@, collection@, change@.applied(old(self)@.indexes_of(collection@)))
            } else {
                old(self)@
            }),
    {
        let ghost before = self@;
        let (known, version, current): (bool, u64, Vec<super::indexes::IndexSpec>) = match self.index_catalog.get(collection) {
            Some(e) => (true, e.version, copy_specs(&e.indexes)),
            None => (false, 0, Vec::new()),
        };
        assert(specs(current@) =~= before.indexes_of(collection@));
        let mut indexes = copy_specs(&current);
        change.apply_to(&mut indexes);
        assert(specs(indexes@) == change@.applied(before.indexes_of(collection@)));
        assert(specs(indexes@).len() == indexes@.len());
        if known && same_specs(&current, &indexes) {
            return false;
        }
        // A drop naming an index of a collection the catalogue has never recorded changes nothing,
        // and an entry would say more than that: an empty entry licenses reconciliation to remove
        // whatever a group holds.
        if !known && indexes.len() == 0 {
            return false;
        }
        let n = self.index_catalog.len();
        assert(before.index_catalog.dom() =~= self.index_catalog@.dom());
        if !known && n >= MAX_CATALOG_COLLECTIONS {
            return false;
        }
        assert(before.records(collection@, change@));
        self.index_catalog.insert(
            collection.to_owned(),
            CollectionIndexes { version: version + 1, updated_by: by.to_owned(), indexes },
        );
        proof {
            let want = before.with_entry(by@, collection@, change@.applied(before.indexes_of(collection@)));
            assert(catalogue(self.index_catalog) =~= want.index_catalog);
        }
        true
    }

    /// A dropped collection keeps its entry, emptied. Removing it would let a copy held by a node
    /// that missed the drop win the merge and put the definitions back on whoever recreates it.
    pub fn forget_collection_indexes(&mut self, by: &str, collection: &str) -> (r: bool)
        requires
            old(self)@.indexes_of(collection@).len() > 0 ==> old(self)@.entry_version(collection@) < u64::MAX,
        ensures
            r == (old(self)@.indexes_of(collection@).len() > 0),
            final(self)@ == (if r { old(self)@.with_entry(by@, collection@, Seq::empty()) } else { old(self)@ }),
    {
        let ghost before = self@;
        let version: u64 = match self.index_catalog.get(collection) {
            Some(e) => {
                assert(specs(e.indexes@).len() == e.indexes@.len());
                if e.indexes.len() == 0 {
                    return false;
                }
                e.version
            },
            None => {
                return false;
            },
        };
        let none: Vec<super::indexes::IndexSpec> = Vec::new();
        assert(specs(none@) =~= Seq::empty());
        self.index_catalog.insert(
            collection.to_owned(),
            CollectionIndexes { version: version + 1, updated_by: by.to_owned(), indexes: none },
        );
        proof {
            let want = before.with_entry(by@, collection@, Seq::empty());
            assert(catalogue(self.index_catalog) =~= want.index_catalog);
        }
        true
    }
}

/// Recording a definition moves no topology.
pub proof fn law_a_definition_moves_no_topology(
    v: ClusterMetadataView,
    by: Seq<char>,
    collection: Seq<char>,
    indexes: Seq<super::indexes::IndexSpecView>,
)
    ensures
        v.with_entry(by, collection, indexes).id() == v.id(),
        v.with_entry(by, collection, indexes).members == v.members,
        v.with_entry(by, collection, indexes).shards == v.shards,
        v.with_entry(by, collection, indexes).ring == v.ring,
        v.with_entry(by, collection, indexes).migration == v.migration,
{
}

/// What was just recorded is not recorded again: one request is one version however many groups it
/// reached.
pub proof fn law_a_change_is_recorded_once(v: ClusterMetadataView, by: Seq<char>, collection: Seq<char>, change: IndexChangeView)
    requires
        v.records(collection, change),
    ensures
        !v.with_entry(by, collection, change.applied(v.indexes_of(collection))).records(collection, change),
{
    let next = change.applied(v.indexes_of(collection));
    let after = v.with_entry(by, collection, next);
    assert(after.indexes_of(collection) == next);
    lemma_applied_twice(v.indexes_of(collection), change);
}

/// Applying a change to what it gave changes nothing more.
pub proof fn lemma_applied_twice(v: Seq<super::indexes::IndexSpecView>, change: IndexChangeView)
    ensures
        change.applied(change.applied(v)) == change.applied(v),
{
    match change {
        IndexChangeView::Create { spec } => {
            let once = change.applied(v);
            if super::indexes::has_index(v, spec.name) {
                let i = choose|i: int| 0 <= i < v.len() && (#[trigger] v[i]).name == spec.name;
                assert(once[i].name == spec.name);
            } else {
                assert(once[v.len() as int].name == spec.name);
                assert forall|i: int| 0 <= i < v.len() implies (#[trigger] v[i]).name != spec.name by {}
            }
            assert(super::indexes::has_index(once, spec.name));
            assert(super::indexes::redefined(once, spec) =~= once);
        },
        IndexChangeView::Drop { name } => {
            lemma_dropped_twice(v, name);
        },
    }
}

proof fn lemma_dropped_twice(v: Seq<super::indexes::IndexSpecView>, name: Seq<char>)
    ensures
        super::indexes::without_index(super::indexes::without_index(v, name), name) == super::indexes::without_index(v, name),
    decreases v.len(),
{
    if v.len() > 0 {
        lemma_dropped_twice(v.drop_last(), name);
        let before = super::indexes::without_index(v.drop_last(), name);
        if v.last().name != name {
            assert(before.push(v.last()).drop_last() =~= before);
        }
    }
}

/// A dropped collection's entry outranks every copy of what it replaced: merging the catalogue as it was
/// brings nothing back.
pub proof fn law_an_emptied_entry_wins_the_merge(v: ClusterMetadataView, by: Seq<char>, collection: Seq<char>)
    requires
        v.index_catalog.dom().contains(collection),
        v.entry_version(collection) < u64::MAX,
    ensures
        ({
            let dropped = v.with_entry(by, collection, Seq::empty()).index_catalog;
            &&& dropped[collection].supersedes(v.index_catalog[collection])
            &&& super::indexes::merged(dropped, v.index_catalog) == dropped
        }),
{
    let dropped = v.with_entry(by, collection, Seq::empty()).index_catalog;
    assert forall|k: Seq<char>| #[trigger] v.index_catalog.dom().contains(k) implies dropped.dom().contains(k)
        && !v.index_catalog[k].supersedes(dropped[k]) by {
        super::indexes::law_newer_is_a_strict_order(v.index_catalog[k], dropped[k], v.index_catalog[k]);
    }
    assert(super::indexes::merged(dropped, v.index_catalog) =~= dropped);
}

// ---- Adoption ----

/// Outcome of offering a view to a node, kept distinct so callers can tell "already current" from
/// "refused as invalid": the first is the steady state, the second needs an operator.
#[derive(Debug, PartialEq, Eq)]
pub enum Adoption {
    Adopted { from: u64, to: u64 },
    Stale { current: u64 },
    Rejected(String),
}

/// The view a node holds after a usable one is offered. Definitions are merged whoever wins on
/// topology.
pub open spec fn after_offer(current: ClusterMetadataView, incoming: ClusterMetadataView) -> ClusterMetadataView {
    ClusterMetadataView {
        index_catalog: merged(current.index_catalog, incoming.index_catalog),
        ..if incoming.supersedes(current) { incoming } else { current }
    }
}

/// Validates before comparing: a malformed view must not win on version alone, or one bad push would
/// take routing down cluster-wide and outrank every correction that follows. A catalogue entry no
/// node can act on is dropped first, never a reason to refuse the topology it rode in on.
pub fn adopt(current: &mut ClusterMetadata, incoming: ClusterMetadata) -> (r: Adoption)
    ensures
        match r {
            Adoption::Rejected(why) => !cleaned(incoming@).valid() && cleaned(incoming@).judged(Some(why@))
                && final(current)@ == old(current)@,
            Adoption::Stale { current: v } => cleaned(incoming@).valid() && !incoming@.supersedes(old(current)@)
                && v == old(current)@.version && final(current)@ == after_offer(old(current)@, cleaned(incoming@)),
            Adoption::Adopted { from, to } => cleaned(incoming@).valid() && incoming@.supersedes(old(current)@)
                && from == old(current)@.version && to == incoming@.version
                && final(current)@ == after_offer(old(current)@, cleaned(incoming@)),
        },
{
    let ghost before = current@;
    let ghost offered = incoming@;
    let mut incoming = incoming;
    let _dropped = sanitize_catalog(&mut incoming.index_catalog);
    assert(incoming@ == cleaned(offered));
    match incoming.validate() {
        Err(why) => {
            return Adoption::Rejected(why);
        },
        Ok(()) => {},
    }
    let mut catalog = copy_catalog(&current.index_catalog);
    merge_catalog(&mut catalog, &incoming.index_catalog);
    if !incoming.supersedes(current) {
        current.index_catalog = catalog;
        return Adoption::Stale { current: current.version };
    }
    let from = current.version;
    let to = incoming.version;
    *current = incoming;
    current.index_catalog = catalog;
    Adoption::Adopted { from, to }
}

/// A node never goes back on topology: what it holds after an offer is what it held, or wins over
/// that.
pub proof fn law_adoption_never_goes_back(current: ClusterMetadataView, incoming: ClusterMetadataView)
    ensures
        after_offer(current, incoming).id() == current.id() || after_offer(current, incoming).supersedes(current),
        !current.supersedes(after_offer(current, incoming)),
{
    law_winning_is_a_strict_order(current, incoming, current);
}

/// A view that was offered once is stale from then on.
pub proof fn law_an_offer_is_taken_once(current: ClusterMetadataView, incoming: ClusterMetadataView)
    ensures
        after_offer(after_offer(current, incoming), incoming) == after_offer(current, incoming),
{
    let once = after_offer(current, incoming);
    law_winning_is_a_strict_order(incoming, incoming, current);
    super::indexes::law_a_merge_is_idempotent(current.index_catalog, incoming.index_catalog);
    assert(!incoming.supersedes(once));
}

/// Two views arrive at every node in some order, and every node ends with the same one: arrival order
/// does not decide the surviving view, whether or not the node was still running on a seed.
pub proof fn law_arrival_order_does_not_decide(current: ClusterMetadataView, a: ClusterMetadataView, b: ClusterMetadataView)
    requires
        a.seeded || b.seeded || a.version != b.version || a.updated_by != b.updated_by,
        agree(a.index_catalog, b.index_catalog),
    ensures
        after_offer(after_offer(current, a), b) == after_offer(after_offer(current, b), a),
{
    super::indexes::law_the_order_of_merges_is_immaterial(current.index_catalog, a.index_catalog, b.index_catalog);
    law_winning_is_a_strict_order(a, b, current);
    law_winning_is_a_strict_order(b, a, current);
    law_winning_is_a_strict_order(a, current, b);
    law_winning_is_a_strict_order(b, current, a);
    if !a.seeded && !b.seeded {
        law_published_views_are_comparable(a, b);
    }
    if !current.seeded && !a.seeded {
        law_published_views_are_comparable(current, a);
    }
    if !current.seeded && !b.seeded {
        law_published_views_are_comparable(current, b);
    }
    lemma_same_id(current, a, b);
    lemma_same_id(current, b, a);
}

/// Views with one version and one writer stand alike to every other.
proof fn lemma_same_id(x: ClusterMetadataView, y: ClusterMetadataView, z: ClusterMetadataView)
    ensures
        x.id() == y.id() ==> x.supersedes(z) == y.supersedes(z) && z.supersedes(x) == z.supersedes(y),
{
}

// ---- Planned changes ----

/// What an operator asked for. `voting` is there only so that asking for it fails loudly.
#[derive(Debug, PartialEq, Eq)]
pub struct JoinRequest {
    pub url: String,
    pub node_id: Option<String>,
    pub role: Option<String>,
    pub shard_role: Option<String>,
    pub follows: Option<String>,
    pub voting: Option<bool>,
}

pub ghost struct JoinRequestView {
    pub url: Seq<char>,
    pub node_id: Option<Seq<char>>,
    pub role: Option<Seq<char>>,
    pub shard_role: Option<Seq<char>>,
    pub follows: Option<Seq<char>>,
    pub voting: Option<bool>,
}

impl View for JoinRequest {
    type V = JoinRequestView;

    open spec fn view(&self) -> JoinRequestView {
        JoinRequestView {
            url: self.url@,
            node_id: opt_text(self.node_id),
            role: opt_text(self.role),
            shard_role: opt_text(self.shard_role),
            follows: opt_text(self.follows),
            voting: self.voting,
        }
    }
}

impl JoinRequestView {
    /// The role asked for; a shard where none is named.
    pub open spec fn asked_role(self) -> Seq<char> {
        match self.role {
            Some(r) => r,
            None => "shard"@,
        }
    }

    /// The shard role asked for; a replica where a shard names none.
    pub open spec fn asked_shard_role(self) -> Option<Seq<char>> {
        if self.shard_role is None && self.asked_role() == "shard"@ { Some("replica"@) } else { self.shard_role }
    }

    /// The member that the request makes.
    pub open spec fn member(self, leader: Seq<char>) -> MemberView {
        MemberView {
            url: self.url,
            node_id: self.node_id,
            role: self.asked_role(),
            shard_role: self.asked_shard_role(),
            voting: false,
            follows: if self.asked_shard_role() == Some("replica"@) {
                Some(match self.follows {
                    Some(f) => f,
                    None => leader,
                })
            } else {
                None
            },
        }
    }

    /// Why the request is refused before the next view is looked at, if it is.
    pub open spec fn refusal(self, current: ClusterMetadataView, leader: Seq<char>) -> Option<Seq<char>> {
        let existing = member_at(current.members, node(self.url));
        if trim(self.url).len() == 0 {
            Some("url is required"@)
        } else if self.voting == Some(true) {
            Some(
                "a node cannot join as voting; it joins as a learner and replicates immediately, and POST /cluster/configuration promotes it through joint consensus once it has caught up"@,
            )
        } else if self.asked_role() != "shard"@ && self.asked_role() != "router"@ {
            Some("unknown role '"@ + self.asked_role() + "'"@)
        } else if self.asked_shard_role() != Some("replica"@) && self.follows is Some {
            Some("only a shard replica may name a primary to follow"@)
        } else if same_node(self.url, leader) {
            Some("a leader cannot add itself as a learner"@)
        } else if self.follows is Some && same_node(self.url, self.follows->0) {
            Some("a replica cannot follow itself"@)
        } else if existing is Some && existing->0.voting {
            Some(self.url + " is already a voting member; demoting it would shrink the quorum"@)
        } else {
            None
        }
    }
}

/// A planned view where it is usable, or what is wrong with it.
pub open spec fn planned(next: ClusterMetadataView, r: Result<ClusterMetadata, String>) -> bool {
    match r {
        Ok(v) => v@ == next && next.valid(),
        Err(e) => !next.valid() && next.judged(Some(e@)),
    }
}

fn checked(next: ClusterMetadata) -> (r: Result<ClusterMetadata, String>)
    ensures
        planned(next@, r),
{
    match next.validate() {
        Ok(()) => Ok(next),
        Err(e) => Err(e),
    }
}

/// Builds the next view for a join. `leader_url` is the node accepting the change, and the default
/// group for a shard that did not name one. Re-adding a voter as a learner would drop it out of the
/// quorum it is already in, so that is refused.
pub fn plan_join(current: &ClusterMetadata, by: &str, leader_url: &str, req: &JoinRequest) -> (r: Result<ClusterMetadata, String>)
    requires
        current.version < u64::MAX,
    ensures
        match req@.refusal(current@, leader_url@) {
            Some(why) => r is Err && r->Err_0@ == why,
            None => planned(
                (ClusterMetadataView {
                    members: members_without(current@.members, node(req@.url)).push(req@.member(leader_url@)),
                    ..current@
                }).bumped(by@),
                r,
            ),
        },
{
    let url = req.url.as_str();
    if trimmed(url).as_str().is_empty() {
        return Err("url is required".to_owned());
    }
    if let Some(v) = req.voting {
        if v {
            return Err(
                "a node cannot join as voting; it joins as a learner and replicates immediately, and POST /cluster/configuration promotes it through joint consensus once it has caught up".to_owned(),
            );
        }
    }
    let role: String = match &req.role {
        Some(r) => r.clone(),
        None => "shard".to_owned(),
    };
    let is_shard = same_text(role.as_str(), "shard");
    if !is_shard && !same_text(role.as_str(), "router") {
        return Err(cat3("unknown role '", role.as_str(), "'"));
    }
    let shard_role: Option<String> = match &req.shard_role {
        Some(r) => Some(r.clone()),
        None => if is_shard { Some("replica".to_owned()) } else { None },
    };
    let replica = opt_is(&shard_role, "replica");
    if !replica && req.follows.is_some() {
        return Err("only a shard replica may name a primary to follow".to_owned());
    }
    if same_endpoint(url, leader_url) {
        return Err("a leader cannot add itself as a learner".to_owned());
    }
    if let Some(f) = &req.follows {
        if same_endpoint(url, f.as_str()) {
            return Err("a replica cannot follow itself".to_owned());
        }
    }
    if let Some(existing) = current.member(url) {
        if existing.voting {
            return Err(cat2(url, " is already a voting member; demoting it would shrink the quorum"));
        }
    }
    let follows: Option<String> = if replica {
        Some(match &req.follows {
            Some(f) => f.clone(),
            None => leader_url.to_owned(),
        })
    } else {
        None
    };
    let member = Member {
        url: req.url.clone(),
        node_id: copy_opt(&req.node_id),
        role,
        shard_role,
        voting: false,
        follows,
    };
    checked(current.with_member(by, member))
}

/// A member once a configuration is in force. One whose vote changes follows the leader if it lost
/// its vote, and nobody otherwise.
pub open spec fn reconfigured(m: MemberView, leader: Seq<char>, voters: Seq<Seq<char>>) -> MemberView {
    let voting = names(voters, node(m.url));
    if m.role != "shard"@ || voting == m.voting {
        m
    } else {
        MemberView {
            voting,
            follows: if !voting && !same_node(m.url, leader) { Some(leader) } else { None },
            ..m
        }
    }
}

/// A voter that was no member before.
pub open spec fn new_voter(url: Seq<char>, leader: Seq<char>) -> MemberView {
    MemberView {
        url,
        node_id: None,
        role: "shard"@,
        shard_role: Some(if same_node(url, leader) { "primary"@ } else { "replica"@ }),
        voting: true,
        follows: None,
    }
}

/// Members with those of the first `n` voters added that are no members yet.
pub open spec fn with_voters(v: Seq<MemberView>, leader: Seq<char>, voters: Seq<Seq<char>>, n: int) -> Seq<MemberView>
    decreases n,
{
    if n <= 0 {
        v
    } else {
        let before = with_voters(v, leader, voters, n - 1);
        if member_at(before, node(voters[n - 1])) is None { before.push(new_voter(voters[n - 1], leader)) } else { before }
    }
}

/// The members of a view that has caught up with a configuration.
pub open spec fn configured_members(v: Seq<MemberView>, leader: Seq<char>, voters: Seq<Seq<char>>) -> Seq<MemberView> {
    with_voters(Seq::new(v.len(), |i: int| reconfigured(v[i], leader, voters)), leader, voters, voters.len() as int)
}

/// The view caught up with a committed configuration. Descriptive, not decisive: the log is what
/// moved the quorum, and this only records where it moved to. A demoted node stays a member as a
/// learner rather than being dropped; a voter admitted straight from config may never have been one.
pub fn plan_configuration(current: &ClusterMetadata, by: &str, leader_url: &str, voters: &[String]) -> (r: Result<ClusterMetadata, String>)
    requires
        current.version < u64::MAX,
    ensures
        planned(
            (ClusterMetadataView {
                members: configured_members(current@.members, leader_url@, texts(voters@)),
                ..current@
            }).bumped(by@),
            r,
        ),
{
    let ghost before = current@.members;
    let ghost vs = texts(voters@);
    let mut next = current.clone();
    let mut members: Vec<Member> = Vec::new();
    let mut i: usize = 0;
    while i < current.members.len()
        invariant
            before == members_of(current.members@),
            vs == texts(voters@),
            i <= current.members@.len(),
            members@.len() == i,
            forall|j: int| 0 <= j < i ==> (#[trigger] members@[j])@ == reconfigured(before[j], leader_url@, vs),
        decreases current.members@.len() - i,
    {
        let mut m = current.members[i].clone();
        assert(m@ == before[i as int]);
        if same_text(m.role.as_str(), "shard") {
            let voting = list_names(voters, m.url.as_str());
            if voting != m.voting {
                m.voting = voting;
                m.follows = if !voting && !same_endpoint(m.url.as_str(), leader_url) {
                    Some(leader_url.to_owned())
                } else {
                    None
                };
            }
        }
        members.push(m);
        i += 1;
    }
    let ghost moved = Seq::new(before.len(), |i: int| reconfigured(before[i], leader_url@, vs));
    assert(members_of(members@) =~= moved);
    next.members = members;
    let ghost start = next@;
    let mut k: usize = 0;
    while k < voters.len()
        invariant
            vs == texts(voters@),
            k <= voters@.len(),
            next@ == (ClusterMetadataView { members: with_voters(moved, leader_url@, vs, k as int), ..start }),
        decreases voters@.len() - k,
    {
        let voter = voters[k].as_str();
        assert(vs[k as int] == voter@);
        if next.member(voter).is_none() {
            let role = if same_endpoint(voter, leader_url) { "primary" } else { "replica" };
            let ghost so_far = members_of(next.members@);
            next.members.push(
                Member {
                    url: voter.to_owned(),
                    node_id: None,
                    role: "shard".to_owned(),
                    shard_role: Some(role.to_owned()),
                    voting: true,
                    follows: None,
                },
            );
            assert(members_of(next.members@) =~= so_far.push(new_voter(voter@, leader_url@)));
        }
        k += 1;
    }
    next.bump(by);
    checked(next)
}

/// Builds the next view without a member. Dropping a voter from the view is not what shrinks the
/// quorum, the log is, but a member the log still counts and the view cannot name is a voter nothing
/// can route to, so a voter is refused.
pub fn plan_leave(current: &ClusterMetadata, by: &str, url: &str) -> (r: Result<ClusterMetadata, String>)
    requires
        current.version < u64::MAX,
    ensures
        match member_at(current@.members, node(url@)) {
            None => r is Err && r->Err_0@ == url@ + " is not a member"@,
            Some(m) => if m.voting {
                r is Err && r->Err_0@ == url@
                    + " is a voting member; demote it with POST /cluster/configuration first, then remove it"@
            } else {
                planned(
                    (ClusterMetadataView { members: members_without(current@.members, node(url@)), ..current@ }).bumped(by@),
                    r,
                )
            },
        },
{
    match current.member(url) {
        None => Err(cat2(url, " is not a member")),
        Some(m) => if m.voting {
            Err(cat2(url, " is a voting member; demote it with POST /cluster/configuration first, then remove it"))
        } else {
            checked(current.without_member(by, url))
        },
    }
}

/// Taking a node out of a member list leaves every other node's member where it was.
pub proof fn lemma_without(v: Seq<MemberView>, n: Seq<char>, q: Seq<char>)
    ensures
        member_at(members_without(v, n), q) == (if q == n { None } else { member_at(v, q) }),
    decreases v.len(),
{
    if v.len() > 0 {
        let rest = v.drop_last();
        lemma_without(rest, n, q);
        lemma_member_at(rest, q);
        let before = members_without(rest, n);
        if node(v.last().url) != n {
            assert(before.push(v.last()).drop_last() =~= before);
        }
    }
}

/// A join moves no voter: who votes after it is who voted before.
pub proof fn law_a_join_leaves_the_quorum_alone(
    current: ClusterMetadataView,
    by: Seq<char>,
    leader: Seq<char>,
    req: JoinRequestView,
    q: Seq<char>,
)
    requires
        req.refusal(current, leader) is None,
    ensures
        ({
            let next = (ClusterMetadataView {
                members: members_without(current.members, node(req.url)).push(req.member(leader)),
                ..current
            }).bumped(by);
            let before = member_at(current.members, q);
            let after = member_at(next.members, q);
            (after is Some && after->0.votes()) == (before is Some && before->0.votes())
        }),
{
    let kept = members_without(current.members, node(req.url));
    lemma_without(current.members, node(req.url), q);
    assert(kept.push(req.member(leader)).drop_last() =~= kept);
}

/// Joining a node and then taking it out again leaves everybody else's membership as it was.
pub proof fn law_a_learner_can_be_taken_out_again(v: Seq<MemberView>, m: MemberView, q: Seq<char>)
    ensures
        member_at(members_without(members_without(v, node(m.url)).push(m), node(m.url)), q) == (if q == node(m.url) {
            None
        } else {
            member_at(v, q)
        }),
{
    let joined = members_without(v, node(m.url)).push(m);
    lemma_without(joined, node(m.url), q);
    lemma_without(v, node(m.url), q);
    assert(joined.drop_last() =~= members_without(v, node(m.url)));
}

proof fn lemma_named_among(v: Seq<MemberView>, n: Seq<char>)
    ensures
        names(urls_of(v), n) <==> exists|m: MemberView| v.contains(m) && node(#[trigger] m.url) == n,
{
    if names(urls_of(v), n) {
        let i = choose|i: int| 0 <= i < urls_of(v).len() && node(#[trigger] urls_of(v)[i]) == n;
        assert(v.contains(v[i]) && node(v[i].url) == n);
    }
    if exists|m: MemberView| v.contains(m) && node(#[trigger] m.url) == n {
        let m = choose|m: MemberView| v.contains(m) && node(#[trigger] m.url) == n;
        let i = choose|i: int| 0 <= i < v.len() && v[i] == m;
        assert(urls_of(v)[i] == m.url);
    }
}

/// Whether a list mentions a member at a position, and its node, under a URL, nowhere before.
pub open spec fn first_mention(v: Seq<MemberView>, i: int, m: MemberView) -> bool {
    &&& 0 <= i < v.len() && v[i] == m && m.url.len() > 0
    &&& forall|j: int| 0 <= j < i && (#[trigger] v[j]).url.len() > 0 ==> node(v[j].url) != node(m.url)
}

/// Of all mentions of nodes, the first of each node stands in the list as it was made, whichever
/// node it names; nothing else does.
pub proof fn law_the_first_mention_of_a_node_stands(v: Seq<MemberView>, m: MemberView)
    ensures
        enrolled(v).contains(m) <==> exists|i: int| first_mention(v, i, m),
    decreases v.len(),
{
    lemma_joined_hold::<MemberView>();
    if v.len() > 0 {
        let rest = v.drop_last();
        let before = enrolled(rest);
        law_the_first_mention_of_a_node_stands(rest, m);
        assert(v =~= rest.push(v.last()));
        lemma_named_among(before, node(v.last().url));
        if before.contains(m) {
            let i = choose|i: int| first_mention(rest, i, m);
            assert(v[i] == m);
            assert forall|j: int| 0 <= j < i && (#[trigger] v[j]).url.len() > 0 implies node(v[j].url) != node(m.url) by {
                assert(rest[j] == v[j]);
            }
            assert(first_mention(v, i, m));
        } else if enrolled(v).contains(m) {
            let last = v.len() - 1;
            assert(v[last] == m);
            assert forall|j: int| 0 <= j < last && (#[trigger] v[j]).url.len() > 0 implies node(v[j].url) != node(m.url) by {
                if node(v[j].url) == node(m.url) {
                    lemma_mentioned_is_enrolled(rest, j);
                    lemma_named_among(before, node(m.url));
                }
            }
            assert(first_mention(v, last, m));
        }
        if exists|i: int| first_mention(v, i, m) {
            let i = choose|i: int| first_mention(v, i, m);
            if i < rest.len() {
                assert(rest[i] == m);
                assert forall|j: int| 0 <= j < i && (#[trigger] rest[j]).url.len() > 0 implies node(rest[j].url) != node(m.url) by {
                    assert(rest[j] == v[j]);
                }
                assert(first_mention(rest, i, m));
            } else {
                if names(urls_of(before), node(m.url)) {
                    let o = choose|o: MemberView| before.contains(o) && node(#[trigger] o.url) == node(m.url);
                    law_the_first_mention_of_a_node_stands(rest, o);
                    let j = choose|j: int| first_mention(rest, j, o);
                    assert(v[j] == rest[j]);
                }
            }
        }
    }
}

proof fn lemma_mentioned_is_enrolled(v: Seq<MemberView>, i: int)
    requires
        0 <= i < v.len(),
        v[i].url.len() > 0,
    ensures
        names(urls_of(enrolled(v)), node(v[i].url)),
    decreases v.len(),
{
    lemma_joined_hold::<MemberView>();
    let rest = v.drop_last();
    let before = enrolled(rest);
    lemma_named_among(before, node(v[i].url));
    lemma_named_among(enrolled(v), node(v[i].url));
    if i < rest.len() {
        lemma_mentioned_is_enrolled(rest, i);
        assert(rest[i] == v[i]);
        let o = choose|o: MemberView| before.contains(o) && node(#[trigger] o.url) == node(v[i].url);
        assert(enrolled(v).contains(o));
    } else if !names(urls_of(before), node(v[i].url)) {
        assert(enrolled(v).contains(v[i]));
    }
}

/// Whether a group of shard nodes mentions a member: its primary, or one of its replicas.
pub open spec fn of_group(primary: Seq<char>, replicas: Seq<Seq<char>>, m: MemberView) -> bool {
    &&& m.role == "shard"@ && m.voting && m.node_id is None && m.follows is None
    &&& (m.url == primary && m.shard_role == Some("primary"@)) || (replicas.contains(m.url) && m.shard_role == Some("replica"@))
}

proof fn lemma_shards_at(urls: Seq<Seq<char>>, shard_role: Option<Seq<char>>, m: MemberView)
    ensures
        shards_at(urls, shard_role).contains(m) <==> urls.contains(m.url) && m.role == "shard"@ && m.voting && m.node_id is None
            && m.follows is None && m.shard_role == shard_role,
{
    let v = shards_at(urls, shard_role);
    if v.contains(m) {
        let i = choose|i: int| 0 <= i < v.len() && v[i] == m;
        assert(urls[i] == m.url);
    }
    if urls.contains(m.url) && m == named(m.url, "shard"@, shard_role, None) {
        let i = choose|i: int| 0 <= i < urls.len() && urls[i] == m.url;
        assert(v[i] == m);
    }
}

proof fn lemma_group_at(primary: Seq<char>, replicas: Seq<Seq<char>>, m: MemberView)
    ensures
        group_at(primary, replicas).contains(m) <==> of_group(primary, replicas, m),
{
    let first = seq![named(primary, "shard"@, Some("primary"@), None)];
    lemma_joined_hold::<MemberView>();
    lemma_shards_at(replicas, Some("replica"@), m);
    assert(first =~= Seq::<MemberView>::empty().push(named(primary, "shard"@, Some("primary"@), None)));
    assert(group_at(primary, replicas).contains(m) <==> first.contains(m) || shards_at(replicas, Some("replica"@)).contains(m));
    if of_group(primary, replicas, m) && m.url == primary && m.shard_role == Some("primary"@) {
        assert(m == named(primary, "shard"@, Some("primary"@), None));
    }
}

proof fn lemma_range_nodes(map: Seq<ShardInfoView>, n: int, m: MemberView)
    requires
        0 <= n <= map.len(),
    ensures
        range_nodes(map, n).contains(m) <==> exists|i: int| 0 <= i < n && of_group((#[trigger] map[i]).node_url, map[i].replica_urls, m),
    decreases n,
{
    lemma_joined_hold::<MemberView>();
    if n > 0 {
        lemma_range_nodes(map, n - 1, m);
        lemma_group_at(map[n - 1].node_url, map[n - 1].replica_urls, m);
    }
}

proof fn lemma_ring_nodes(v: Seq<RingShardView>, n: int, m: MemberView)
    requires
        0 <= n <= v.len(),
    ensures
        ring_nodes(v, n).contains(m) <==> exists|i: int| 0 <= i < n && of_group((#[trigger] v[i]).node_url, v[i].replica_urls, m),
    decreases n,
{
    lemma_joined_hold::<MemberView>();
    if n > 0 {
        lemma_ring_nodes(v, n - 1, m);
        lemma_group_at(v[n - 1].node_url, v[n - 1].replica_urls, m);
    }
}

/// Whether a configuration says of a node that it is this member.
pub open spec fn configured_as(cfg: NodeConfigView, m: MemberView) -> bool {
    ||| {
        &&& m.url == with_scheme(cfg.listen_addr) && m.node_id == Some(cfg.node_id) && m.role == cfg.role
        &&& m.shard_role == cfg.shard_role && m.voting == (cfg.role == "shard"@) && m.follows is None
    }
    ||| {
        &&& m.role == "shard"@ && m.voting && m.node_id is None && m.follows is None
        &&& {
            ||| cfg.primary_addr == Some(m.url) && m.shard_role == Some("primary"@)
            ||| cfg.replicas.contains(m.url) && m.shard_role == Some("replica"@)
            ||| cfg.peers.contains(m.url) && m.shard_role is None
        }
    }
    ||| exists|i: int| 0 <= i < cfg.shard_map.len() && of_group((#[trigger] cfg.shard_map[i]).node_url, cfg.shard_map[i].replica_urls, m)
    ||| cfg.ring is Some && exists|i: int|
        0 <= i < cfg.ring->0.shards.len() && of_group(
            (#[trigger] cfg.ring->0.shards[i]).node_url,
            cfg.ring->0.shards[i].replica_urls,
            m,
        )
}

proof fn lemma_mentions(cfg: NodeConfigView, m: MemberView)
    ensures
        mentions(cfg).contains(m) <==> configured_as(cfg, m),
{
    let own = named(with_scheme(cfg.listen_addr), cfg.role, cfg.shard_role, Some(cfg.node_id));
    let a = seq![own];
    let b = match cfg.primary_addr {
        Some(p) => seq![named(p, "shard"@, Some("primary"@), None)],
        None => Seq::empty(),
    };
    let c = shards_at(cfg.replicas, Some("replica"@));
    let d = shards_at(cfg.peers, None);
    let e = range_nodes(cfg.shard_map, cfg.shard_map.len() as int);
    let f = match cfg.ring {
        Some(r) => ring_nodes(r.shards, r.shards.len() as int),
        None => Seq::empty(),
    };
    lemma_joined_hold::<MemberView>();
    assert(a =~= Seq::<MemberView>::empty().push(own));
    assert(a.contains(m) <==> m == own);
    assert(mentions(cfg) == a + b + c + d + e + f);
    assert(mentions(cfg).contains(m) <==> (a + b + c + d + e).contains(m) || f.contains(m));
    assert((a + b + c + d + e).contains(m) <==> (a + b + c + d).contains(m) || e.contains(m));
    assert((a + b + c + d).contains(m) <==> (a + b + c).contains(m) || d.contains(m));
    assert((a + b + c).contains(m) <==> (a + b).contains(m) || c.contains(m));
    assert((a + b).contains(m) <==> a.contains(m) || b.contains(m));
    lemma_shards_at(cfg.replicas, Some("replica"@), m);
    lemma_shards_at(cfg.peers, None, m);
    lemma_range_nodes(cfg.shard_map, cfg.shard_map.len() as int, m);
    if cfg.primary_addr is Some {
        let p = named(cfg.primary_addr->0, "shard"@, Some("primary"@), None);
        assert(b =~= Seq::<MemberView>::empty().push(p));
        assert(b.contains(m) <==> m == p);
    }
    if cfg.ring is Some {
        lemma_ring_nodes(cfg.ring->0.shards, cfg.ring->0.shards.len() as int, m);
    }
}

/// A node begins with every node that its configuration names, whichever setting names it, each
/// once, and with nobody else.
pub proof fn law_a_configuration_seeds_every_node(cfg: NodeConfigView, m: MemberView)
    ensures
        seeded_view(cfg).members.contains(m) ==> configured_as(cfg, m) && m.url.len() > 0,
        configured_as(cfg, m) && m.url.len() > 0 ==> exists|o: MemberView|
            seeded_view(cfg).members.contains(o) && configured_as(cfg, o) && node(#[trigger] o.url) == node(m.url),
        one_per_node(urls_of(seeded_view(cfg).members)),
        seeded_view(cfg).shards == cfg.shard_map && seeded_view(cfg).ring == cfg.ring,
{
    let all = mentions(cfg);
    let kept = enrolled(all);
    lemma_mentions(cfg, m);
    if kept.contains(m) {
        law_the_first_mention_of_a_node_stands(all, m);
    }
    if configured_as(cfg, m) && m.url.len() > 0 {
        let i = choose|i: int| 0 <= i < all.len() && all[i] == m;
        lemma_mentioned_is_enrolled(all, i);
        lemma_named_among(kept, node(m.url));
        let o = choose|o: MemberView| kept.contains(o) && node(#[trigger] o.url) == node(m.url);
        law_the_first_mention_of_a_node_stands(all, o);
        lemma_mentions(cfg, o);
    }
    lemma_enrolled_once(all);
}

proof fn lemma_enrolled_once(v: Seq<MemberView>)
    ensures
        one_per_node(urls_of(enrolled(v))),
    decreases v.len(),
{
    if v.len() > 0 {
        let before = enrolled(v.drop_last());
        lemma_enrolled_once(v.drop_last());
        let us = urls_of(enrolled(v));
        assert forall|i: int, j: int| 0 <= i < j < us.len() implies node(#[trigger] us[i]) != node(#[trigger] us[j]) by {
            assert(us[i] == urls_of(before)[i]);
            if j < before.len() {
                assert(us[j] == urls_of(before)[j]);
            }
        }
    }
}

/// A node is looked up as the first member at it.
pub proof fn law_a_member_is_found_at_its_node(v: Seq<MemberView>, i: int)
    requires
        0 <= i < v.len(),
        forall|j: int| 0 <= j < i ==> node((#[trigger] v[j]).url) != node(v[i].url),
    ensures
        member_at(v, node(v[i].url)) == Some(v[i]),
    decreases v.len(),
{
    let n = node(v[i].url);
    let rest = v.drop_last();
    if i < rest.len() {
        assert(rest[i] == v[i]);
        assert forall|j: int| 0 <= j < i implies node((#[trigger] rest[j]).url) != node(rest[i].url) by {
            assert(rest[j] == v[j]);
        }
        law_a_member_is_found_at_its_node(rest, i);
    } else {
        lemma_member_at(rest, n);
        if names(urls_of(rest), n) {
            let j = choose|j: int| 0 <= j < urls_of(rest).len() && node(#[trigger] urls_of(rest)[j]) == n;
            assert(v[j].url == urls_of(rest)[j]);
        }
    }
}

/// Taking a node out leaves every member at another node, as it was.
pub proof fn law_taking_a_node_out_keeps_the_others(v: Seq<MemberView>, n: Seq<char>, m: MemberView)
    ensures
        members_without(v, n).contains(m) <==> v.contains(m) && node(m.url) != n,
    decreases v.len(),
{
    lemma_joined_hold::<MemberView>();
    if v.len() > 0 {
        law_taking_a_node_out_keeps_the_others(v.drop_last(), n, m);
        assert(v =~= v.drop_last().push(v.last()));
    }
}

/// The URLs picked are those of the members that are picked.
pub proof fn lemma_picked(v: Seq<MemberView>, pick: spec_fn(MemberView) -> bool, url: Seq<char>)
    ensures
        picked_urls(v, pick).contains(url) <==> exists|m: MemberView| #[trigger] v.contains(m) && pick(m) && m.url == url,
    decreases v.len(),
{
    lemma_joined_hold::<Seq<char>>();
    lemma_joined_hold::<MemberView>();
    if v.len() > 0 {
        let rest = v.drop_last();
        lemma_picked(rest, pick, url);
        assert(v =~= rest.push(v.last()));
        if picked_urls(rest, pick).contains(url) {
            let m = choose|m: MemberView| #[trigger] rest.contains(m) && pick(m) && m.url == url;
            assert(v.contains(m));
        }
        if pick(v.last()) && v.last().url == url {
            assert(v.contains(v.last()));
        }
        if exists|m: MemberView| #[trigger] v.contains(m) && pick(m) && m.url == url {
            let m = choose|m: MemberView| #[trigger] v.contains(m) && pick(m) && m.url == url;
            if m != v.last() {
                assert(rest.contains(m));
            }
        }
    }
}

/// The voters are all shard nodes with a vote, and the learners of a primary are all shard nodes
/// without one that name it, however they spell it.
pub proof fn law_voters_and_learners_are_all_listed(v: Seq<MemberView>, primary: Seq<char>, url: Seq<char>)
    ensures
        picked_urls(v, |m: MemberView| m.votes()).contains(url) <==> exists|m: MemberView|
            #[trigger] v.contains(m) && m.url == url && m.voting && m.role == "shard"@,
        picked_urls(v, |m: MemberView| m.learns_from(primary)).contains(url) <==> exists|m: MemberView|
            #[trigger] v.contains(m) && m.url == url && !m.voting && m.role == "shard"@ && m.follows is Some && node(m.follows->0)
                == node(primary),
{
    let votes = |m: MemberView| m.votes();
    let learns = |m: MemberView| m.learns_from(primary);
    lemma_picked(v, votes, url);
    lemma_picked(v, learns, url);
    if picked_urls(v, votes).contains(url) {
        let m = choose|m: MemberView| #[trigger] v.contains(m) && votes(m) && m.url == url;
        assert(v.contains(m) && m.url == url && m.voting && m.role == "shard"@);
    }
    if exists|m: MemberView| #[trigger] v.contains(m) && m.url == url && m.voting && m.role == "shard"@ {
        let m = choose|m: MemberView| #[trigger] v.contains(m) && m.url == url && m.voting && m.role == "shard"@;
        assert(v.contains(m) && votes(m) && m.url == url);
    }
    if picked_urls(v, learns).contains(url) {
        let m = choose|m: MemberView| #[trigger] v.contains(m) && learns(m) && m.url == url;
        assert(v.contains(m) && m.url == url && !m.voting && m.role == "shard"@ && node(m.follows->0) == node(primary));
    }
    if exists|m: MemberView|
        #[trigger] v.contains(m) && m.url == url && !m.voting && m.role == "shard"@ && m.follows is Some && node(m.follows->0) == node(
            primary,
        ) {
        let m = choose|m: MemberView|
            #[trigger] v.contains(m) && m.url == url && !m.voting && m.role == "shard"@ && m.follows is Some && node(m.follows->0)
                == node(primary);
        assert(v.contains(m) && learns(m) && m.url == url);
    }
}

/// The members of a view are in order exactly where each has a URL and a known role and no node
/// stands twice.
pub proof fn law_members_are_judged_one_by_one(v: Seq<MemberView>, n: int)
    requires
        0 <= n <= v.len(),
    ensures
        member_fault(v, n) is None <==> {
            &&& forall|i: int| 0 <= i < n ==> trim((#[trigger] v[i]).url).len() > 0
            &&& forall|i: int| 0 <= i < n ==> (#[trigger] v[i]).role == "shard"@ || v[i].role == "router"@
            &&& forall|i: int, j: int| 0 <= i < j < n ==> node((#[trigger] v[i]).url) != node((#[trigger] v[j]).url)
        },
    decreases n,
{
    if n > 0 {
        law_members_are_judged_one_by_one(v, n - 1);
        let us = urls_of(v).take(n - 1);
        if names(us, node(v[n - 1].url)) {
            let i = choose|i: int| 0 <= i < us.len() && node(#[trigger] us[i]) == node(v[n - 1].url);
            assert(us[i] == v[i].url);
        } else {
            assert forall|i: int| 0 <= i < n - 1 implies node((#[trigger] v[i]).url) != node(v[n - 1].url) by {
                assert(us[i] == v[i].url);
            }
        }
    }
}

/// Whether a list has a group at a position, and its owner nowhere before.
pub open spec fn first_group(g: Seq<GroupView>, i: int, x: GroupView) -> bool {
    0 <= i < g.len() && g[i] == x && forall|j: int| 0 <= j < i ==> (#[trigger] g[j]).0 != x.0
}

/// Every owner that the model in force mentions has a group, with the replicas of its first mention.
pub proof fn law_every_owner_has_its_group(g: Seq<GroupView>, x: GroupView)
    ensures
        one_each(g).contains(x) <==> exists|i: int| first_group(g, i, x),
    decreases g.len(),
{
    lemma_joined_hold::<GroupView>();
    if g.len() > 0 {
        let rest = g.drop_last();
        let before = one_each(rest);
        law_every_owner_has_its_group(rest, x);
        assert(g =~= rest.push(g.last()));
        if before.contains(x) {
            let i = choose|i: int| first_group(rest, i, x);
            assert(g[i] == x);
            assert forall|j: int| 0 <= j < i implies (#[trigger] g[j]).0 != x.0 by {
                assert(rest[j] == g[j]);
            }
            assert(first_group(g, i, x));
        } else if one_each(g).contains(x) {
            let last = g.len() - 1;
            assert(g[last] == x);
            assert forall|j: int| 0 <= j < last implies (#[trigger] g[j]).0 != x.0 by {
                if g[j].0 == x.0 {
                    assert(rest[j] == g[j]);
                    let k = lemma_owner_kept(rest, j);
                    assert(before[k].0 == x.0);
                }
            }
            assert(first_group(g, last, x));
        }
        if exists|i: int| first_group(g, i, x) {
            let i = choose|i: int| first_group(g, i, x);
            if i < rest.len() {
                assert(rest[i] == x);
                assert forall|j: int| 0 <= j < i implies (#[trigger] rest[j]).0 != x.0 by {
                    assert(rest[j] == g[j]);
                }
                assert(first_group(rest, i, x));
            } else if exists|k: int| 0 <= k < before.len() && (#[trigger] before[k]).0 == x.0 {
                let k = choose|k: int| 0 <= k < before.len() && (#[trigger] before[k]).0 == x.0;
                law_every_owner_has_its_group(rest, before[k]);
                assert(before.contains(before[k]));
                let j = choose|j: int| first_group(rest, j, before[k]);
                assert(g[j] == rest[j]);
            }
        }
    }
}

proof fn lemma_owner_kept(g: Seq<GroupView>, i: int) -> (k: int)
    requires
        0 <= i < g.len(),
    ensures
        0 <= k < one_each(g).len(),
        one_each(g)[k].0 == g[i].0,
    decreases g.len(),
{
    let rest = g.drop_last();
    let before = one_each(rest);
    if i < rest.len() {
        let k = lemma_owner_kept(rest, i);
        assert(rest[i] == g[i]);
        assert(one_each(g)[k] == before[k]);
        k
    } else if exists|k: int| 0 <= k < before.len() && (#[trigger] before[k]).0 == g.last().0 {
        choose|k: int| 0 <= k < before.len() && (#[trigger] before[k]).0 == g.last().0
    } else {
        before.len() as int
    }
}

/// The model in force is the ring where there is one, and the ranges otherwise; each of its entries
/// is mentioned, in order, with its owner and its replicas.
pub proof fn law_the_model_in_force_is_told_whole(v: ClusterMetadataView, i: int)
    ensures
        v.ring is Some ==> mentioned_groups(v).len() == v.ring->0.shards.len(),
        v.ring is Some && 0 <= i < v.ring->0.shards.len() ==> mentioned_groups(v)[i].0 == v.ring->0.shards[i].node_url
            && mentioned_groups(v)[i].1 == v.ring->0.shards[i].replica_urls,
        v.ring is None ==> mentioned_groups(v).len() == v.shards.len(),
        v.ring is None && 0 <= i < v.shards.len() ==> mentioned_groups(v)[i].0 == v.shards[i].node_url && mentioned_groups(v)[i].1
            == v.shards[i].replica_urls,
{
}

/// A node belongs to the first group that has it as its primary or as a replica, and to none exactly
/// where no group has.
pub proof fn law_a_node_belongs_to_the_first_group_naming_it(g: Seq<GroupView>, n: Seq<char>)
    ensures
        group_with(g, n) is None <==> forall|i: int| 0 <= i < g.len() ==> node((#[trigger] g[i]).0) != n && !names(g[i].1, n),
        group_with(g, n) is Some ==> exists|i: int|
            0 <= i < g.len() && #[trigger] g[i] == group_with(g, n)->0 && (node(g[i].0) == n || names(g[i].1, n)) && forall|j: int|
                0 <= j < i ==> node((#[trigger] g[j]).0) != n && !names(g[j].1, n),
    decreases g.len(),
{
    if g.len() > 0 && !group_names(g[0], n) {
        let rest = g.skip(1);
        law_a_node_belongs_to_the_first_group_naming_it(rest, n);
        if group_with(rest, n) is Some {
            let k = choose|i: int|
                0 <= i < rest.len() && #[trigger] rest[i] == group_with(rest, n)->0 && (node(rest[i].0) == n || names(rest[i].1, n))
                    && forall|j: int| 0 <= j < i ==> node((#[trigger] rest[j]).0) != n && !names(rest[j].1, n);
            assert(g[k + 1] == rest[k]);
            assert forall|j: int| 0 <= j < k + 1 implies node((#[trigger] g[j]).0) != n && !names(g[j].1, n) by {
                if j > 0 {
                    assert(rest[j - 1] == g[j]);
                }
            }
        } else {
            assert forall|i: int| 0 <= i < g.len() implies node((#[trigger] g[i]).0) != n && !names(g[i].1, n) by {
                if i > 0 {
                    assert(rest[i - 1] == g[i]);
                }
            }
        }
    } else if g.len() > 0 {
        assert(g[0] == group_with(g, n)->0);
    }
}

/// A learner outside every group is placed by the primary it follows; everybody else by itself.
pub proof fn law_who_places_a_node(v: ClusterMetadataView, i: int)
    requires
        0 <= i < v.members.len(),
        forall|j: int| 0 <= j < i ==> node((#[trigger] v.members[j]).url) != node(v.members[i].url),
    ensures
        group_with(owners(v), node(v.members[i].url)) is Some || v.members[i].follows is None ==> anchor(v, v.members[i].url) == node(
            v.members[i].url,
        ),
        group_with(owners(v), node(v.members[i].url)) is None && v.members[i].follows is Some ==> anchor(v, v.members[i].url)
            == node(v.members[i].follows->0),
{
    law_a_member_is_found_at_its_node(v.members, i);
}

proof fn lemma_with_voters(v: Seq<MemberView>, leader: Seq<char>, voters: Seq<Seq<char>>, n: int)
    requires
        0 <= n <= voters.len(),
    ensures
        with_voters(v, leader, voters, n).len() >= v.len(),
        forall|i: int| 0 <= i < v.len() ==> #[trigger] with_voters(v, leader, voters, n)[i] == v[i],
        forall|i: int|
            v.len() <= i < with_voters(v, leader, voters, n).len() ==> exists|j: int|
                0 <= j < n && #[trigger] with_voters(v, leader, voters, n)[i] == new_voter(#[trigger] voters[j], leader)
                    && !names(urls_of(v), node(voters[j])),
        forall|j: int| 0 <= j < n ==> member_at(with_voters(v, leader, voters, n), node(#[trigger] voters[j])) is Some,
    decreases n,
{
    if n > 0 {
        lemma_with_voters(v, leader, voters, n - 1);
        let before = with_voters(v, leader, voters, n - 1);
        let after = with_voters(v, leader, voters, n);
        let last = voters[n - 1];
        lemma_member_at(before, node(last));
        if member_at(before, node(last)) is None {
            if names(urls_of(v), node(last)) {
                let i = choose|i: int| 0 <= i < urls_of(v).len() && node(#[trigger] urls_of(v)[i]) == node(last);
                assert(before[i] == v[i]);
                assert(urls_of(before)[i] == urls_of(v)[i]);
            }
            assert(after.drop_last() =~= before);
            assert forall|i: int| v.len() <= i < after.len() implies exists|j: int|
                0 <= j < n && #[trigger] after[i] == new_voter(#[trigger] voters[j], leader) && !names(urls_of(v), node(voters[j])) by {
                if i < before.len() {
                    assert(after[i] == before[i]);
                } else {
                    assert(after[i] == new_voter(voters[n - 1], leader));
                }
            }
            assert forall|i: int| 0 <= i < v.len() implies #[trigger] after[i] == v[i] by {
                assert(after[i] == before[i]);
            }
        }
    }
}

/// A view that has caught up with a configuration gives the vote to the voters and to nobody else
/// among the shard nodes, and takes nobody out.
pub proof fn law_a_configuration_moves_the_votes(v: Seq<MemberView>, leader: Seq<char>, voters: Seq<Seq<char>>)
    ensures
        forall|i: int|
            0 <= i < configured_members(v, leader, voters).len() && (#[trigger] configured_members(v, leader, voters)[i]).role
                == "shard"@ ==> configured_members(v, leader, voters)[i].voting == names(
                voters,
                node(configured_members(v, leader, voters)[i].url),
            ),
        forall|j: int| 0 <= j < voters.len() ==> names(urls_of(configured_members(v, leader, voters)), node(#[trigger] voters[j])),
{
    let moved = Seq::new(v.len(), |i: int| reconfigured(v[i], leader, voters));
    let all = configured_members(v, leader, voters);
    lemma_with_voters(moved, leader, voters, voters.len() as int);
    assert forall|i: int| 0 <= i < all.len() && (#[trigger] all[i]).role == "shard"@ implies all[i].voting == names(
        voters,
        node(all[i].url),
    ) by {
        if i < moved.len() {
            assert(all[i] == moved[i]);
        } else {
            let j = choose|j: int|
                0 <= j < voters.len() && all[i] == new_voter(#[trigger] voters[j], leader) && !names(urls_of(moved), node(voters[j]));
            assert(all[i].url == voters[j]);
            assert(names(voters, node(voters[j])));
        }
    }
    assert forall|j: int| 0 <= j < voters.len() implies names(urls_of(all), node(#[trigger] voters[j])) by {
        lemma_member_at(all, node(voters[j]));
    }
}

/// Whoever was a member before a configuration is one after it: the same node with the same roles. A
/// member whose vote stays is left as it was; one that loses its vote follows the leader, unless it
/// is the leader; one that gains it follows nobody.
pub proof fn law_a_configuration_keeps_every_member(v: Seq<MemberView>, leader: Seq<char>, voters: Seq<Seq<char>>, i: int)
    requires
        0 <= i < v.len(),
    ensures
        ({
            let m = configured_members(v, leader, voters)[i];
            let voting = names(voters, node(v[i].url));
            &&& configured_members(v, leader, voters).len() >= v.len()
            &&& m.url == v[i].url && m.node_id == v[i].node_id && m.role == v[i].role && m.shard_role == v[i].shard_role
            &&& v[i].role != "shard"@ || v[i].voting == voting ==> m == v[i]
            &&& v[i].role == "shard"@ && !v[i].voting && voting ==> m.follows is None
            &&& v[i].role == "shard"@ && v[i].voting && !voting && node(v[i].url) != node(leader) ==> m.follows == Some(leader)
            &&& v[i].role == "shard"@ && v[i].voting && !voting && node(v[i].url) == node(leader) ==> m.follows is None
        }),
{
    let moved = Seq::new(v.len(), |k: int| reconfigured(v[k], leader, voters));
    lemma_with_voters(moved, leader, voters, voters.len() as int);
    assert(configured_members(v, leader, voters)[i] == moved[i]);
}

/// Whoever a configuration brings in is a voter that was no member: a shard node that follows
/// nobody, the primary where it is the leader and a replica otherwise.
pub proof fn law_a_configuration_brings_in_voters_alone(v: Seq<MemberView>, leader: Seq<char>, voters: Seq<Seq<char>>, i: int)
    requires
        v.len() <= i < configured_members(v, leader, voters).len(),
    ensures
        ({
            let m = configured_members(v, leader, voters)[i];
            &&& voters.contains(m.url)
            &&& !names(urls_of(v), node(m.url))
            &&& m.voting && m.role == "shard"@ && m.follows is None && m.node_id is None
            &&& m.shard_role == (if node(m.url) == node(leader) { Some("primary"@) } else { Some("replica"@) })
        }),
{
    let moved = Seq::new(v.len(), |k: int| reconfigured(v[k], leader, voters));
    let all = configured_members(v, leader, voters);
    lemma_with_voters(moved, leader, voters, voters.len() as int);
    let j = choose|j: int|
        0 <= j < voters.len() && all[i] == new_voter(#[trigger] voters[j], leader) && !names(urls_of(moved), node(voters[j]));
    assert(all[i].url == voters[j]);
    assert(urls_of(moved) =~= urls_of(v));
}

/// A node that joins is recorded as it asked: under its own URL, id and role, without a vote. A shard
/// that names no shard role is a replica; a replica follows whom it names, and else the leader.
pub proof fn law_a_join_is_recorded_as_asked(req: JoinRequestView, leader: Seq<char>)
    ensures
        ({
            let m = req.member(leader);
            let role = if req.role is Some { req.role->0 } else { "shard"@ };
            &&& m.url == req.url && m.node_id == req.node_id && m.role == role && !m.voting
            &&& req.shard_role is Some ==> m.shard_role == req.shard_role
            &&& req.shard_role is None && role == "shard"@ ==> m.shard_role == Some("replica"@)
            &&& req.shard_role is None && role != "shard"@ ==> m.shard_role is None
            &&& m.shard_role == Some("replica"@) && req.follows is Some ==> m.follows == req.follows
            &&& m.shard_role == Some("replica"@) && req.follows is None ==> m.follows == Some(leader)
            &&& m.shard_role != Some("replica"@) ==> m.follows is None
        }),
{
}

/// A join is let through exactly where it names a node, asks for no vote, has a known role, follows
/// only as a replica and only somebody else, is not the leader's own, and takes no vote away.
pub proof fn law_when_a_join_is_let_through(req: JoinRequestView, current: ClusterMetadataView, leader: Seq<char>)
    ensures
        req.refusal(current, leader) is None <==> {
            &&& trim(req.url).len() > 0
            &&& req.voting != Some(true)
            &&& req.role is None || req.role == Some("shard"@) || req.role == Some("router"@)
            &&& req.follows is Some ==> req.member(leader).shard_role == Some("replica"@) && node(req.follows->0) != node(req.url)
            &&& node(req.url) != node(leader)
            &&& member_at(current.members, node(req.url)) is Some ==> !member_at(current.members, node(req.url))->0.voting
        },
{
}

proof fn lemma_number_first(a: nat, b: nat, x: Seq<char>, y: Seq<char>)
    requires
        x.len() > 0,
        y.len() > 0,
        !('0' <= x[0] && x[0] <= '9'),
        !('0' <= y[0] && y[0] <= '9'),
        decimal_of(a) + x == decimal_of(b) + y,
    ensures
        a == b,
        x == y,
{
    let (d, e) = (decimal_of(a), decimal_of(b));
    law_decimal_says_the_number(a);
    law_decimal_says_the_number(b);
    let both = d + x;
    if d.len() < e.len() {
        assert(both[d.len() as int] == x[0]);
        assert((e + y)[d.len() as int] == e[d.len() as int]);
    } else if e.len() < d.len() {
        assert(both[e.len() as int] == d[e.len() as int]);
        assert((e + y)[e.len() as int] == y[0]);
    }
    assert(d =~= both.take(d.len() as int));
    assert(e =~= (e + y).take(e.len() as int));
    assert(x =~= both.skip(d.len() as int));
    assert(y =~= (e + y).skip(e.len() as int));
}

/// Two ranges are one part of a fingerprint only if they are the same range of the same node.
pub proof fn law_a_range_is_known_by_its_bounds_and_node(a: ShardInfoView, b: ShardInfoView)
    ensures
        range_part(a) == range_part(b) <==> a.start_hash == b.start_hash && a.end_hash == b.end_hash && node(a.node_url) == node(b.node_url),
{
    reveal_strlit("-");
    reveal_strlit("@");
    if range_part(a) == range_part(b) {
        let (p, q) = ("@"@ + node(a.node_url), "@"@ + node(b.node_url));
        let (x, y) = ("-"@ + (decimal_of(a.end_hash as nat) + p), "-"@ + (decimal_of(b.end_hash as nat) + q));
        assert(range_part(a) =~= decimal_of(a.start_hash as nat) + x);
        assert(range_part(b) =~= decimal_of(b.start_hash as nat) + y);
        assert(x[0] == '-' && y[0] == '-' && p[0] == '@' && q[0] == '@');
        lemma_number_first(a.start_hash as nat, b.start_hash as nat, x, y);
        assert(x.skip(1) =~= decimal_of(a.end_hash as nat) + p);
        assert(y.skip(1) =~= decimal_of(b.end_hash as nat) + q);
        lemma_number_first(a.end_hash as nat, b.end_hash as nat, p, q);
        assert(p.skip(1) =~= node(a.node_url));
        assert(q.skip(1) =~= node(b.node_url));
    }
}

/// The parts of an ownership say everything that maps a key to an owner: two views with the same parts
/// in the same order have the same ranges at the same nodes, or the same number of tokens and the same
/// nodes on the ring, and the same plan.
pub proof fn law_an_ownership_is_known_by_its_parts(a: ClusterMetadataView, b: ClusterMetadataView)
    requires
        ownership_parts(a) == ownership_parts(b),
        a.ring is Some == b.ring is Some,
        a.migration is Some == b.migration is Some,
    ensures
        a.ring is Some ==> {
            &&& a.ring->0.vnodes == b.ring->0.vnodes
            &&& a.ring->0.shards.len() == b.ring->0.shards.len()
            &&& forall|i: int| 0 <= i < a.ring->0.shards.len() ==> node((#[trigger] a.ring->0.shards[i]).node_url) == node(b.ring->0.shards[i].node_url)
        },
        a.ring is None ==> {
            &&& a.shards.len() == b.shards.len()
            &&& forall|i: int| 0 <= i < a.shards.len() ==> {
                &&& (#[trigger] a.shards[i]).start_hash == b.shards[i].start_hash
                &&& a.shards[i].end_hash == b.shards[i].end_hash
                &&& node(a.shards[i].node_url) == node(b.shards[i].node_url)
            }
        },
        a.migration is Some ==> a.migration->0.id == b.migration->0.id,
{
    let (p, q) = (ownership_parts(a), ownership_parts(b));
    if a.ring is Some {
        let (r, s) = (a.ring->0, b.ring->0);
        assert(r.shards.len() == s.shards.len());
        assert(p[0] == "vnodes="@ + decimal_of(r.vnodes as nat));
        assert(q[0] == "vnodes="@ + decimal_of(s.vnodes as nat));
        let k = "vnodes="@.len() as int;
        assert(p[0].skip(k) =~= decimal_of(r.vnodes as nat));
        assert(q[0].skip(k) =~= decimal_of(s.vnodes as nat));
        law_decimal_says_the_number(r.vnodes as nat);
        law_decimal_says_the_number(s.vnodes as nat);
        assert forall|i: int| 0 <= i < r.shards.len() implies node((#[trigger] r.shards[i]).node_url) == node(s.shards[i].node_url) by {
            assert(p[i + 1] == node(r.shards[i].node_url));
            assert(q[i + 1] == node(s.shards[i].node_url));
        }
    } else {
        assert(a.shards.len() == b.shards.len());
        assert forall|i: int| 0 <= i < a.shards.len() implies (#[trigger] a.shards[i]).start_hash == b.shards[i].start_hash
            && a.shards[i].end_hash == b.shards[i].end_hash && node(a.shards[i].node_url) == node(b.shards[i].node_url) by {
            assert(p[i] == range_part(a.shards[i]));
            assert(q[i] == range_part(b.shards[i]));
            law_a_range_is_known_by_its_bounds_and_node(a.shards[i], b.shards[i]);
        }
    }
    if a.migration is Some {
        let n = p.len() - 1;
        assert(p[n] == "->"@ + a.migration->0.id);
        assert(q[n] == "->"@ + b.migration->0.id);
        let k = "->"@.len() as int;
        assert(p[n].skip(k) =~= a.migration->0.id);
        assert(q[n].skip(k) =~= b.migration->0.id);
    }
}

/// An entry of a catalogue is one part of its fingerprint: its collection, its version and its writer.
pub proof fn law_an_entry_is_known_by_its_writer(name: Seq<char>, a: CollectionIndexesView, b: CollectionIndexesView)
    ensures
        entry_part(name, a) == entry_part(name, b) <==> a.version == b.version && a.updated_by == b.updated_by,
{
    reveal_strlit(":");
    reveal_strlit("@");
    if entry_part(name, a) == entry_part(name, b) {
        let (x, y) = (":"@ + a.updated_by, ":"@ + b.updated_by);
        let (p, q) = (decimal_of(a.version as nat) + x, decimal_of(b.version as nat) + y);
        assert(entry_part(name, a) =~= name + "@"@ + p);
        assert(entry_part(name, b) =~= name + "@"@ + q);
        let k = name.len() as int + 1;
        assert(entry_part(name, a).skip(k) =~= p);
        assert(entry_part(name, b).skip(k) =~= q);
        assert(x[0] == ':' && y[0] == ':');
        lemma_number_first(a.version as nat, b.version as nat, x, y);
        assert(x.skip(1) =~= a.updated_by);
        assert(y.skip(1) =~= b.updated_by);
    }
}

/// A durable view is never passed over: none is found only where neither file is there, the staging
/// copy serves only where the file is not usable, and what is loaded is valid and was stored.
pub proof fn law_a_durable_view_is_never_overlooked(
    file: Stored<ClusterMetadata>,
    staging: Stored<ClusterMetadata>,
    r: Result<Option<ClusterMetadata>, LoadError>,
)
    requires
        view_loaded(file, staging, r),
    ensures
        r is Ok && r->Ok_0 is None <==> file is Absent && staging is Absent,
        r is Ok && r->Ok_0 is Some ==> r->Ok_0->0@.valid(),
        r is Ok && r->Ok_0 is Some ==> (file is Read && r->Ok_0->0@ == cleaned(file->Read_0@)) || (staging is Read && r->Ok_0->0@ == cleaned(
            staging->Read_0@,
        ) && !(file is Failed) && !(file is Read && cleaned(file->Read_0@).valid())),
        file is Read && cleaned(file->Read_0@).valid() ==> r is Ok && r->Ok_0 is Some && r->Ok_0->0@ == cleaned(file->Read_0@),
        !(file is Read) && !(file is Failed) && staging is Read && cleaned(staging->Read_0@).valid() ==> r is Ok && r->Ok_0 is Some,
        file is Failed ==> r is Err,
{
}

/// Cleaning a view touches its catalogue alone.
pub proof fn law_cleaning_touches_the_catalogue_alone(v: ClusterMetadataView)
    ensures
        cleaned(v).members == v.members && cleaned(v).shards == v.shards && cleaned(v).ring == v.ring,
        cleaned(v).migration == v.migration && cleaned(v).version == v.version && cleaned(v).updated_by == v.updated_by,
        cleaned(v).seeded == v.seeded,
        cleaned(v).index_catalog == addressable(v.index_catalog),
{
}

/// Of two decided views the higher version wins, and of two with one version the later writer by name.
pub proof fn law_the_higher_version_wins(a: ViewIdView, b: ViewIdView)
    requires
        !a.seeded && !b.seeded,
    ensures
        a.version > b.version ==> a.supersedes(b),
        a.version < b.version ==> !a.supersedes(b),
        a.version == b.version && a.updated_by is Some && b.updated_by is Some ==> (a.supersedes(b) <==> text_before(
            b.updated_by->0,
            a.updated_by->0,
        )),
        a.version == b.version && (a.updated_by is None || b.updated_by is None) ==> !a.supersedes(b),
{
}

/// A decision wins over the view that it was made on, and touches nothing but who decided and when.
pub proof fn law_a_decision_wins(v: ClusterMetadataView, by: Seq<char>)
    requires
        v.version < u64::MAX,
    ensures
        v.bumped(by).supersedes(v),
        v.bumped(by).version == v.version + 1 && v.bumped(by).updated_by == by && !v.bumped(by).seeded,
        v.bumped(by).members == v.members && v.bumped(by).shards == v.shards && v.bumped(by).ring == v.ring,
        v.bumped(by).migration == v.migration && v.bumped(by).index_catalog == v.index_catalog,
{
}

} // verus!
