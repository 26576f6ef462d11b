//! Node configuration, boot validation, and non-fatal misconfiguration warnings.

use crate::cluster::migration::DataMovementConfig;
use crate::cluster::rebalance::RebalanceConfig;
use crate::endpoint::{after_scheme, lemma_after_scheme, list_names, names, node, same_endpoint, same_node};
use crate::lists::{lemma_joined_hold, lemma_take_grows};
use crate::logging::LoggingConfig;
use crate::maintenance::MaintenanceConfig;
use crate::name_map::NameMap;
use crate::ring::{
    complaint, fault_text, partitions, ranges, validate_shard_ring, HashRing, HashRingView, RangeFault, ShardInfo,
    ShardInfoView,
};
use crate::text::{
    cat2, cat3, cat4, cat5, first_at, has_part, law_the_first_place_is_found, opt_is, opt_text, same_lists, same_text,
    stands_at, texts, trim, trimmed,
};
use vstd::prelude::*;

verus! {

/// Bounds on how far the leader lets replication fall behind before it stops accepting writes.
/// Without `max_uncommitted_frames` a leader that lost quorum stages frames forever: the buffer
/// drains on commit. 0 disables that bound.
#[derive(Clone, Copy, Debug, PartialEq, Eq, Structural)]
pub struct FlowControlConfig {
    pub max_uncommitted_frames: usize,
    pub max_inflight_requests: usize,
    pub drive_interval_ms: u64,
}

impl Default for FlowControlConfig {
    fn default() -> (r: Self)
        ensures
            r == (FlowControlConfig { max_uncommitted_frames: 4096, max_inflight_requests: 16, drive_interval_ms: 500 }),
    {
        Self { max_uncommitted_frames: 4096, max_inflight_requests: 16, drive_interval_ms: 500 }
    }
}

pub const MEMBERSHIP_LEARNER: &'static str = "learner";

pub struct NodeConfig {
    pub node_id: String,
    pub role: String,
    pub listen_addr: String,
    pub shard_map: Vec<ShardInfo>,
    /// Consistent-hash ownership, as an alternative to `shard_map`.
    pub ring: Option<HashRing>,
    pub shard_role: Option<String>,
    /// `voter` or `learner`. A learner never campaigns, even with no peers in sight. Set in the
    /// configuration rather than learned, because the window this closes is the one before any view
    /// arrives.
    pub membership_mode: String,
    pub primary_addr: Option<String>,
    pub replicas: Vec<String>,
    pub peers: Vec<String>,
    pub heartbeat_timeout_secs: u64,
    pub election_delay_ms: u64,
    pub flow_control: FlowControlConfig,
    pub maintenance: MaintenanceConfig,
    pub rebalance: RebalanceConfig,
    pub data_movement: DataMovementConfig,
    pub logging: LoggingConfig,
    pub data_dir: String,
    /// Development only: lets a ring change reassign ownership on a cluster that already holds data,
    /// leaving those keys unreadable at their new owners.
    pub allow_unsafe_ring_changes: bool,
}

/// What the checks and the warnings read of a configuration.
pub ghost struct NodeConfigView {
    pub node_id: Seq<char>,
    pub role: Seq<char>,
    pub listen_addr: Seq<char>,
    pub shard_map: Seq<ShardInfoView>,
    pub ring: Option<HashRingView>,
    pub shard_role: Option<Seq<char>>,
    pub membership_mode: Seq<char>,
    pub primary_addr: Option<Seq<char>>,
    pub replicas: Seq<Seq<char>>,
    pub peers: Seq<Seq<char>>,
    pub heartbeat_timeout_secs: u64,
    pub election_delay_ms: u64,
    pub flow_control: FlowControlConfig,
    pub maintenance: MaintenanceConfig,
    pub rebalance: RebalanceConfig,
    pub data_movement: DataMovementConfig,
    pub logging: LoggingConfig,
    pub data_dir: Seq<char>,
    pub allow_unsafe_ring_changes: bool,
}

impl View for NodeConfig {
    type V = NodeConfigView;

    open spec fn view(&self) -> NodeConfigView {
        NodeConfigView {
            node_id: self.node_id@,
            role: self.role@,
            listen_addr: self.listen_addr@,
            shard_map: ranges(self.shard_map@),
            ring: match self.ring {
                Some(r) => Some(r@),
                None => None,
            },
            shard_role: opt_text(self.shard_role),
            membership_mode: self.membership_mode@,
            primary_addr: opt_text(self.primary_addr),
            replicas: texts(self.replicas@),
            peers: texts(self.peers@),
            heartbeat_timeout_secs: self.heartbeat_timeout_secs,
            election_delay_ms: self.election_delay_ms,
            flow_control: self.flow_control,
            maintenance: self.maintenance,
            rebalance: self.rebalance,
            data_movement: self.data_movement,
            logging: self.logging,
            data_dir: self.data_dir@,
            allow_unsafe_ring_changes: self.allow_unsafe_ring_changes,
        }
    }
}

/// An address with a scheme: as it is where it has one, plain HTTP otherwise.
pub open spec fn with_scheme(addr: Seq<char>) -> Seq<char> {
    if first_at(addr, "://"@, 0) is Some { addr } else { "http://"@ + addr }
}

/// A bind address as a URL; peers and shard maps always carry a scheme.
pub fn normalize_self_url(listen_addr: &str) -> (r: String)
    ensures
        r@ == with_scheme(listen_addr@),
{
    if has_part(listen_addr, "://") {
        listen_addr.to_owned()
    } else {
        cat2("http://", listen_addr)
    }
}

impl NodeConfigView {
    pub open spec fn learner(self) -> bool {
        self.membership_mode == MEMBERSHIP_LEARNER@
    }

    /// Whether `c` is what boot validation says of this configuration: `None` for a usable one. The
    /// first rule that is broken is reported. `outside` is what the sections checked elsewhere
    /// reported; they come last.
    pub open spec fn judged(self, outside: Option<Seq<char>>, c: Option<Seq<char>>) -> bool {
        if self.role != "shard"@ && self.role != "router"@ {
            c == Some("role must be 'shard' or 'router', got '"@ + self.role + "'"@)
        } else if self.role == "shard"@ && self.shard_role is Some && self.shard_role->0 != "primary"@
            && self.shard_role->0 != "replica"@ {
            c == Some("shard_role must be 'primary' or 'replica', got '"@ + self.shard_role->0 + "'"@)
        } else if self.ring is Some && self.ring->0.fault() is Some {
            c == self.ring->0.fault()
        } else if self.ring is Some && self.shard_map.len() > 0 {
            c == Some("set either shard_map or ring, not both; ring would silently win"@)
        } else if self.ring is None && self.role == "router"@ && !partitions(self.shard_map) {
            c is Some && exists|f: RangeFault| f.of(self.shard_map) && c->0 == #[trigger] fault_text(f, self.shard_map)
        } else if trim(self.data_dir).len() == 0 {
            c == Some("data_dir must not be empty"@)
        } else if self.membership_mode != "voter"@ && !self.learner() {
            c == Some("membership_mode must be 'voter' or 'learner', got '"@ + self.membership_mode + "'"@)
        } else if self.learner() && self.shard_role == Some("primary"@) {
            c == Some("membership_mode 'learner' cannot be combined with shard_role 'primary'; a learner is never a leader"@)
        } else if self.heartbeat_timeout_secs == 0 {
            c == Some("heartbeat_timeout_secs must be at least 1"@)
        } else if self.maintenance.fault() is Some {
            c == self.maintenance.fault()
        } else if self.rebalance.fault() is Some {
            c == self.rebalance.fault()
        } else if self.data_movement.fault() is Some {
            c == self.data_movement.fault()
        } else if self.rebalance.enabled && self.role != "shard"@ {
            c == Some("automatic rebalancing may only run on shard nodes"@)
        } else if self.logging.fault() is Some {
            c == self.logging.fault()
        } else {
            c == outside
        }
    }
}

impl NodeConfig {
    /// A node with every optional setting left out.
    pub fn with_defaults(node_id: &str, role: &str, listen_addr: &str) -> (r: NodeConfig)
        ensures
            r.node_id@ == node_id@,
            r.role@ == role@,
            r.listen_addr@ == listen_addr@,
            r.shard_map@.len() == 0,
            r.ring is None,
            r.shard_role is None,
            r.membership_mode@ == "voter"@,
            r.primary_addr is None,
            r.replicas@.len() == 0,
            r.peers@.len() == 0,
            r.heartbeat_timeout_secs == 6,
            r.election_delay_ms == 2000,
            r.flow_control == (FlowControlConfig { max_uncommitted_frames: 4096, max_inflight_requests: 16, drive_interval_ms: 500 }),
            r.rebalance == (RebalanceConfig { enabled: false, interval_secs: 10, stabilization_secs: 30 }),
            r.maintenance.enabled && r.maintenance.interval_secs == 60 && r.maintenance.compaction_dead_ratio.within_unit,
            r.maintenance.compaction_dead_ratio.shown@ == "0.4"@,
            r.maintenance.compaction_min_wal_bytes == 8 * 1024 * 1024,
            r.maintenance.snapshot_interval_secs == 300 && r.maintenance.wal_retention_bytes == 64 * 1024 * 1024,
            r.data_movement == (DataMovementConfig { batch_size: 64, batch_delay_ms: 5 }),
            r.logging.level@ == "info"@ && r.logging.format@ == "text"@,
            r.data_dir@ == "./data"@,
            !r.allow_unsafe_ring_changes,
    {
        NodeConfig {
            node_id: node_id.to_owned(),
            role: role.to_owned(),
            listen_addr: listen_addr.to_owned(),
            shard_map: Vec::new(),
            ring: None,
            shard_role: None,
            membership_mode: "voter".to_owned(),
            primary_addr: None,
            replicas: Vec::new(),
            peers: Vec::new(),
            heartbeat_timeout_secs: 6,
            election_delay_ms: 2000,
            flow_control: FlowControlConfig::default(),
            maintenance: MaintenanceConfig::default(),
            rebalance: RebalanceConfig::default(),
            data_movement: DataMovementConfig::default(),
            logging: LoggingConfig::default(),
            data_dir: "./data".to_owned(),
            allow_unsafe_ring_changes: false,
        }
    }

    pub fn own_url(&self) -> (r: String)
        ensures
            r@ == with_scheme(self@.listen_addr),
    {
        normalize_self_url(self.listen_addr.as_str())
    }

    /// Whether the node may boot with this configuration. Every role check downstream is for one of
    /// the two roles, so a typo would boot as neither; a zero heartbeat timeout would make contact
    /// permanently lost, so every poll would campaign. `outside` is what the checks of the sections
    /// kept elsewhere gave; they are reported last.
    pub fn validate(&self, outside: Result<(), String>) -> (r: Result<(), String>)
        ensures
            self@.judged(complaint(outside), complaint(r)),
    {
        let is_shard = same_text(self.role.as_str(), "shard");
        let is_router = same_text(self.role.as_str(), "router");
        if !is_shard && !is_router {
            return Err(cat3("role must be 'shard' or 'router', got '", self.role.as_str(), "'"));
        }
        if is_shard {
            match &self.shard_role {
                Some(other) => if !same_text(other.as_str(), "primary") && !same_text(other.as_str(), "replica") {
                    return Err(cat3("shard_role must be 'primary' or 'replica', got '", other.as_str(), "'"));
                },
                None => {},
            }
        }
        match &self.ring {
            Some(ring) => {
                match ring.validate() {
                    Err(e) => {
                        return Err(e);
                    },
                    Ok(()) => {},
                }
                if self.shard_map.len() > 0 {
                    return Err("set either shard_map or ring, not both; ring would silently win".to_owned());
                }
            },
            None => if is_router {
                match validate_shard_ring(self.shard_map.as_slice()) {
                    Err(e) => {
                        return Err(e);
                    },
                    Ok(()) => {},
                }
            },
        }
        if trimmed(self.data_dir.as_str()).as_str().is_empty() {
            return Err("data_dir must not be empty".to_owned());
        }
        let learner = self.is_learner();
        if !same_text(self.membership_mode.as_str(), "voter") && !learner {
            return Err(cat3("membership_mode must be 'voter' or 'learner', got '", self.membership_mode.as_str(), "'"));
        }
        if learner && opt_is(&self.shard_role, "primary") {
            return Err(
                "membership_mode 'learner' cannot be combined with shard_role 'primary'; a learner is never a leader".to_owned(),
            );
        }
        if self.heartbeat_timeout_secs == 0 {
            return Err("heartbeat_timeout_secs must be at least 1".to_owned());
        }
        match self.maintenance.validate() {
            Err(e) => {
                return Err(e);
            },
            Ok(()) => {},
        }
        match self.rebalance.validate() {
            Err(e) => {
                return Err(e);
            },
            Ok(()) => {},
        }
        match self.data_movement.validate() {
            Err(e) => {
                return Err(e);
            },
            Ok(()) => {},
        }
        if self.rebalance.enabled && !is_shard {
            return Err("automatic rebalancing may only run on shard nodes".to_owned());
        }
        match self.logging.validate() {
            Err(e) => {
                return Err(e);
            },
            Ok(()) => {},
        }
        outside
    }

    pub fn is_learner(&self) -> (r: bool)
        ensures
            r == self@.learner(),
    {
        same_text(self.membership_mode.as_str(), MEMBERSHIP_LEARNER)
    }

    /// Whether this node leads its shard at boot: a learner never leads, whatever the file says.
    pub fn runs_as_primary(&self) -> (r: bool)
        ensures
            r == (!self@.learner() && self@.shard_role == Some("primary"@)),
    {
        !self.is_learner() && opt_is(&self.shard_role, "primary")
    }

    /// The shard role this node runs as, as opposed to the one the file spells out. `None` on a
    /// router, which has no shard role.
    pub fn effective_shard_role(&self) -> (r: Option<&'static str>)
        ensures
            match r {
                None => self@.role != "shard"@,
                Some(role) => self@.role == "shard"@ && role@ == (if !self@.learner() && self@.shard_role == Some("primary"@) {
                    "primary"@
                } else {
                    "replica"@
                }),
            },
    {
        if !same_text(self.role.as_str(), "shard") {
            return None;
        }
        Some(if self.runs_as_primary() { "primary" } else { "replica" })
    }
}

// ---- Warnings ----

/// One warning, or none.
pub open spec fn when(cond: bool, text: Seq<char>) -> Seq<Seq<char>> {
    if cond { seq![text] } else { Seq::empty() }
}

/// The first of the earlier ranges with the same primary lists other replicas.
pub open spec fn other_replicas(map: Seq<ShardInfoView>, i: int) -> bool {
    exists|j: int| first_with(map, i, j) && map[j].replica_urls != map[i].replica_urls
}

/// Range `j` is the first before `i` with the primary of `i`.
pub open spec fn first_with(map: Seq<ShardInfoView>, i: int, j: int) -> bool {
    0 <= j < i && map[j].node_url == map[i].node_url && forall|k: int| 0 <= k < j ==> (#[trigger] map[k]).node_url != map[i].node_url
}

/// What is odd about the first `n` replicas of a range.
pub open spec fn replica_warnings(shard: ShardInfoView, n: int) -> Seq<Seq<char>>
    decreases n,
{
    if n <= 0 {
        Seq::empty()
    } else {
        let replica = shard.replica_urls[n - 1];
        replica_warnings(shard, n - 1) + when(
            shard.replica_urls.take(n - 1).contains(replica),
            "shard "@ + shard.node_url + " lists replica "@ + replica + " more than once"@,
        ) + when(
            same_node(replica, shard.node_url),
            "shard "@ + shard.node_url + " lists itself as its own replica"@,
        )
    }
}

/// What is odd about range `i` of a map.
pub open spec fn range_warnings(map: Seq<ShardInfoView>, i: int) -> Seq<Seq<char>> {
    let shard = map[i];
    when(
        other_replicas(map, i),
        "shard "@ + shard.node_url
            + " appears in multiple ranges with different replica_urls; router failover will use whichever range matched the key"@,
    ) + replica_warnings(shard, shard.replica_urls.len() as int) + when(
        shard.replica_urls.len() == 0,
        "shard "@ + shard.node_url + " has no replica_urls; reads and writes cannot fail over"@,
    )
}

/// What is odd about the first `n` ranges of a map.
pub open spec fn map_warnings(map: Seq<ShardInfoView>, n: int) -> Seq<Seq<char>>
    decreases n,
{
    if n <= 0 { Seq::empty() } else { map_warnings(map, n - 1) + range_warnings(map, n - 1) }
}

/// Ranges of another primary, among the first `n`, that have the primary of range `i` for a replica.
pub open spec fn crossed_with(map: Seq<ShardInfoView>, i: int, n: int) -> Seq<Seq<char>>
    decreases n,
{
    if n <= 0 {
        Seq::empty()
    } else {
        let (shard, other) = (map[i], map[n - 1]);
        crossed_with(map, i, n - 1) + when(
            other.node_url != shard.node_url && names(other.replica_urls, node(shard.node_url)),
            shard.node_url + " is a primary for one range and a replica of "@ + other.node_url
                + " for another; a failover there would promote a node that already serves writes"@,
        )
    }
}

/// The crossed ranges of the first `n` ranges of a map.
pub open spec fn crossings(map: Seq<ShardInfoView>, n: int) -> Seq<Seq<char>>
    decreases n,
{
    if n <= 0 { Seq::empty() } else { crossings(map, n - 1) + crossed_with(map, n - 1, map.len() as int) }
}

/// Replicas, among the first `n`, whose node an earlier one names.
pub open spec fn repeated_replicas(replicas: Seq<Seq<char>>, n: int) -> Seq<Seq<char>>
    decreases n,
{
    if n <= 0 {
        Seq::empty()
    } else {
        repeated_replicas(replicas, n - 1) + when(
            names(replicas.take(n - 1), node(replicas[n - 1])),
            "replicas lists "@ + replicas[n - 1] + " more than once"@,
        )
    }
}

/// Replicas, among the first `n`, that no peer entry names.
pub open spec fn voteless_replicas(replicas: Seq<Seq<char>>, peers: Seq<Seq<char>>, n: int) -> Seq<Seq<char>>
    decreases n,
{
    if n <= 0 {
        Seq::empty()
    } else {
        voteless_replicas(replicas, peers, n - 1) + when(
            peers.len() > 0 && !names(peers, node(replicas[n - 1])),
            "replica "@ + replicas[n - 1] + " is not listed in peers; it cannot vote in an election"@,
        )
    }
}

impl NodeConfigView {
    pub open spec fn router_warnings(self) -> Seq<Seq<char>> {
        map_warnings(self.shard_map, self.shard_map.len() as int) + crossings(self.shard_map, self.shard_map.len() as int)
    }

    pub open spec fn shard_warnings(self) -> Seq<Seq<char>> {
        when(
            !self.learner() && self.peers.len() == 0 && self.primary_addr is None && self.shard_role == Some("replica"@),
            "replica has no primary_addr and no peers, and membership_mode is 'voter'; it will elect itself once its heartbeat timeout expires. Set membership_mode to 'learner' if this node is meant to join an existing cluster"@,
        ) + when(
            self.learner() && self.peers.len() > 0,
            "membership_mode is 'learner' but peers is set; a learner never campaigns, so peers has no effect on it"@,
        ) + when(
            names(self.peers, node(self.listen_addr)),
            "peers contains this node's own address ("@ + self.listen_addr
                + "); peers must list only the other nodes, otherwise the majority threshold is computed against an inflated cluster size"@,
        ) + when(
            names(self.replicas, node(self.listen_addr)),
            "replicas contains this node's own address ("@ + self.listen_addr + ")"@,
        ) + repeated_replicas(self.replicas, self.replicas.len() as int) + when(
            self.primary_addr is Some && self.peers.len() > 0 && !names(self.peers, node(self.primary_addr->0)),
            "primary_addr "@ + self.primary_addr->0 + " is not listed in peers; it cannot be voted for"@,
        ) + voteless_replicas(self.replicas, self.peers, self.replicas.len() as int) + when(
            self.replicas.len() > 0 && self.peers.len() == 0,
            "replicas are configured but peers is empty; this node can never be replaced by an election"@,
        )
    }

    /// Everything worth telling an operator, in order.
    pub open spec fn warnings(self) -> Seq<Seq<char>> {
        if self.role == "router"@ {
            self.router_warnings()
        } else if self.role == "shard"@ {
            self.shard_warnings()
        } else {
            Seq::empty()
        }
    }
}

/// Adds a warning where it applies.
fn warn_when(out: &mut Vec<String>, cond: bool, text: String)
    ensures
        texts(final(out)@) == texts(old(out)@) + when(cond, text@),
{
    let ghost before = texts(out@);
    if cond {
        out.push(text);
        assert(texts(out@) =~= before + seq![text@]);
    } else {
        assert(before + Seq::<Seq<char>>::empty() =~= before);
    }
}

fn lists_other_replicas(map: &Vec<ShardInfo>, i: usize) -> (r: bool)
    requires
        i < map@.len(),
    ensures
        r == other_replicas(ranges(map@), i as int),
{
    let ghost m = ranges(map@);
    let mut j: usize = 0;
    while j < i
        invariant
            m == ranges(map@),
            j <= i < map@.len(),
            forall|k: int| 0 <= k < j ==> (#[trigger] m[k]).node_url != m[i as int].node_url,
        decreases i - j,
    {
        if same_text(map[j].node_url.as_str(), map[i].node_url.as_str()) {
            let same = same_lists(&map[j].replica_urls, &map[i].replica_urls);
            proof {
                assert(first_with(m, i as int, j as int));
                assert forall|k: int| first_with(m, i as int, k) implies k == j by {
                    if k > j {
                        assert(m[j as int].node_url != m[i as int].node_url);
                    }
                }
            }
            return !same;
        }
        j += 1;
    }
    false
}

fn warn_of_replicas(out: &mut Vec<String>, shard: &ShardInfo)
    ensures
        texts(final(out)@) == texts(old(out)@) + replica_warnings(shard@, shard@.replica_urls.len() as int),
{
    let ghost before = texts(out@);
    let ghost rs = shard@.replica_urls;
    let mut seen: NameMap<bool> = NameMap::new();
    let mut i: usize = 0;
    assert(before + Seq::<Seq<char>>::empty() =~= before);
    while i < shard.replica_urls.len()
        invariant
            rs == texts(shard.replica_urls@),
            rs == shard@.replica_urls,
            i <= shard.replica_urls@.len(),
            texts(out@) == before + replica_warnings(shard@, i as int),
            forall|s: Seq<char>| #[trigger] seen@.dom().contains(s) <==> rs.take(i as int).contains(s),
        decreases shard.replica_urls@.len() - i,
    {
        let replica = shard.replica_urls[i].as_str();
        let url = shard.node_url.as_str();
        let repeated = seen.holds(replica);
        proof {
            lemma_take_grows(rs, i as int);
            assert(rs[i as int] == replica@);
        }
        seen.insert(replica.to_owned(), true);
        warn_when(out, repeated, cat5("shard ", url, " lists replica ", replica, " more than once"));
        warn_when(out, same_endpoint(replica, url), cat3("shard ", url, " lists itself as its own replica"));
        i += 1;
        assert(texts(out@) =~= before + replica_warnings(shard@, i as int));
    }
}

fn warn_of_ranges(out: &mut Vec<String>, map: &Vec<ShardInfo>)
    ensures
        texts(final(out)@) == texts(old(out)@) + map_warnings(ranges(map@), map@.len() as int),
{
    let ghost before = texts(out@);
    let ghost m = ranges(map@);
    let mut i: usize = 0;
    assert(before + Seq::<Seq<char>>::empty() =~= before);
    while i < map.len()
        invariant
            m == ranges(map@),
            i <= map@.len(),
            texts(out@) == before + map_warnings(m, i as int),
        decreases map@.len() - i,
    {
        let url = map[i].node_url.as_str();
        let differs = lists_other_replicas(map, i);
        warn_when(
            out,
            differs,
            cat3(
                "shard ",
                url,
                " appears in multiple ranges with different replica_urls; router failover will use whichever range matched the key",
            ),
        );
        warn_of_replicas(out, &map[i]);
        warn_when(
            out,
            map[i].replica_urls.len() == 0,
            cat3("shard ", url, " has no replica_urls; reads and writes cannot fail over"),
        );
        i += 1;
        assert(texts(out@) =~= before + map_warnings(m, i as int));
    }
}

fn warn_of_crossings(out: &mut Vec<String>, map: &Vec<ShardInfo>)
    ensures
        texts(final(out)@) == texts(old(out)@) + crossings(ranges(map@), map@.len() as int),
{
    let ghost before = texts(out@);
    let ghost m = ranges(map@);
    let mut i: usize = 0;
    assert(before + Seq::<Seq<char>>::empty() =~= before);
    while i < map.len()
        invariant
            m == ranges(map@),
            i <= map@.len(),
            texts(out@) == before + crossings(m, i as int),
        decreases map@.len() - i,
    {
        let ghost mid = texts(out@);
        let shard = map[i].node_url.as_str();
        let mut k: usize = 0;
        assert(mid + Seq::<Seq<char>>::empty() =~= mid);
        while k < map.len()
            invariant
                m == ranges(map@),
                i < map@.len(),
                shard@ == m[i as int].node_url,
                k <= map@.len(),
                texts(out@) == mid + crossed_with(m, i as int, k as int),
            decreases map@.len() - k,
        {
            let other = map[k].node_url.as_str();
            let crossed = !same_text(other, shard) && list_names(map[k].replica_urls.as_slice(), shard);
            warn_when(
                out,
                crossed,
                cat4(
                    shard,
                    " is a primary for one range and a replica of ",
                    other,
                    " for another; a failover there would promote a node that already serves writes",
                ),
            );
            k += 1;
            assert(texts(out@) =~= mid + crossed_with(m, i as int, k as int));
        }
        i += 1;
        assert(texts(out@) =~= before + crossings(m, i as int));
    }
}

fn warn_of_repeats(out: &mut Vec<String>, replicas: &Vec<String>)
    ensures
        texts(final(out)@) == texts(old(out)@) + repeated_replicas(texts(replicas@), replicas@.len() as int),
{
    let ghost before = texts(out@);
    let ghost rs = texts(replicas@);
    let mut seen: Vec<String> = Vec::new();
    let mut i: usize = 0;
    assert(before + Seq::<Seq<char>>::empty() =~= before);
    assert(texts(seen@) =~= rs.take(0));
    while i < replicas.len()
        invariant
            rs == texts(replicas@),
            i <= replicas@.len(),
            texts(seen@) == rs.take(i as int),
            texts(out@) == before + repeated_replicas(rs, i as int),
        decreases replicas@.len() - i,
    {
        let replica = replicas[i].as_str();
        let repeated = list_names(seen.as_slice(), replica);
        warn_when(out, repeated, cat3("replicas lists ", replica, " more than once"));
        proof {
            lemma_take_grows(rs, i as int);
        }
        let ghost so_far = texts(seen@);
        seen.push(replica.to_owned());
        assert(texts(seen@) =~= so_far.push(replica@));
        i += 1;
        assert(texts(out@) =~= before + repeated_replicas(rs, i as int));
    }
}

fn warn_of_voteless(out: &mut Vec<String>, replicas: &Vec<String>, peers: &Vec<String>)
    ensures
        texts(final(out)@) == texts(old(out)@) + voteless_replicas(texts(replicas@), texts(peers@), replicas@.len() as int),
{
    let ghost before = texts(out@);
    let ghost rs = texts(replicas@);
    let mut i: usize = 0;
    assert(before + Seq::<Seq<char>>::empty() =~= before);
    while i < replicas.len()
        invariant
            rs == texts(replicas@),
            i <= replicas@.len(),
            texts(out@) == before + voteless_replicas(rs, texts(peers@), i as int),
        decreases replicas@.len() - i,
    {
        let replica = replicas[i].as_str();
        let voteless = peers.len() > 0 && !list_names(peers.as_slice(), replica);
        warn_when(out, voteless, cat3("replica ", replica, " is not listed in peers; it cannot vote in an election"));
        i += 1;
        assert(texts(out@) =~= before + voteless_replicas(rs, texts(peers@), i as int));
    }
}

/// Everything worth telling an operator about a configuration that is usable.
pub fn config_warnings(cfg: &NodeConfig) -> (r: Vec<String>)
    ensures
        texts(r@) == cfg@.warnings(),
{
    let mut out: Vec<String> = Vec::new();
    assert(texts(out@) =~= Seq::empty());
    if same_text(cfg.role.as_str(), "router") {
        warn_of_ranges(&mut out, &cfg.shard_map);
        warn_of_crossings(&mut out, &cfg.shard_map);
        assert(texts(out@) =~= cfg@.router_warnings());
        return out;
    }
    if same_text(cfg.role.as_str(), "shard") {
        let learner = cfg.is_learner();
        let own = cfg.listen_addr.as_str();
        // A node with no peers reaches a majority of one. Left a voter it elects itself over an
        // empty log the moment its timeout expires, whatever the operator intended.
        warn_when(
            &mut out,
            !learner && cfg.peers.len() == 0 && cfg.primary_addr.is_none() && opt_is(&cfg.shard_role, "replica"),
            "replica has no primary_addr and no peers, and membership_mode is 'voter'; it will elect itself once its heartbeat timeout expires. Set membership_mode to 'learner' if this node is meant to join an existing cluster".to_owned(),
        );
        warn_when(
            &mut out,
            learner && cfg.peers.len() > 0,
            "membership_mode is 'learner' but peers is set; a learner never campaigns, so peers has no effect on it".to_owned(),
        );
        warn_when(
            &mut out,
            list_names(cfg.peers.as_slice(), own),
            cat3(
                "peers contains this node's own address (",
                own,
                "); peers must list only the other nodes, otherwise the majority threshold is computed against an inflated cluster size",
            ),
        );
        warn_when(
            &mut out,
            list_names(cfg.replicas.as_slice(), own),
            cat3("replicas contains this node's own address (", own, ")"),
        );
        warn_of_repeats(&mut out, &cfg.replicas);
        match &cfg.primary_addr {
            Some(primary) => {
                let unlisted = cfg.peers.len() > 0 && !list_names(cfg.peers.as_slice(), primary.as_str());
                warn_when(
                    &mut out,
                    unlisted,
                    cat3("primary_addr ", primary.as_str(), " is not listed in peers; it cannot be voted for"),
                );
            },
            None => {
                assert(texts(out@) + Seq::<Seq<char>>::empty() =~= texts(out@));
            },
        }
        warn_of_voteless(&mut out, &cfg.replicas, &cfg.peers);
        warn_when(
            &mut out,
            cfg.replicas.len() > 0 && cfg.peers.len() == 0,
            "replicas are configured but peers is empty; this node can never be replaced by an election".to_owned(),
        );
        assert(texts(out@) =~= cfg@.shard_warnings());
    }
    out
}

// ---- Laws ----

/// An address names the same node once it has a scheme, has one then, and is given no second one.
pub proof fn law_a_scheme_changes_no_node(addr: Seq<char>)
    ensures
        node(with_scheme(addr)) == node(addr),
        first_at(with_scheme(addr), "://"@, 0) is Some,
        with_scheme(with_scheme(addr)) == with_scheme(addr),
{
    let sep = seq![':', '/', '/'];
    reveal_strlit("://");
    reveal_strlit("http://");
    assert("://"@ =~= sep);
    if first_at(addr, sep, 0) is None {
        let scheme = seq!['h', 't', 't', 'p'];
        let url = with_scheme(addr);
        assert("http://"@ =~= scheme + sep);
        assert(url == scheme + sep + addr);
        lemma_after_scheme(scheme, addr);
        assert(after_scheme(addr) == addr);
        assert(url.subrange(4, 7) =~= sep);
        assert(stands_at(url, sep, 4));
        law_the_first_place_is_found(url, sep, 0, 4);
    }
}

proof fn lemma_when(cond: bool, text: Seq<char>, x: Seq<char>)
    ensures
        (cond && x == text) <==> when(cond, text).contains(x),
        !cond <==> when(cond, text).len() == 0,
{
    if cond {
        assert(when(cond, text)[0] == text);
    }
}

proof fn lemma_joined(a: Seq<Seq<char>>, b: Seq<Seq<char>>, x: Seq<char>)
    ensures
        (a + b).contains(x) <==> a.contains(x) || b.contains(x),
        (a + b).len() == 0 <==> a.len() == 0 && b.len() == 0,
{
    lemma_joined_hold::<Seq<char>>();
}

proof fn lemma_replica_warnings(shard: ShardInfoView, n: int, x: Seq<char>)
    requires
        0 <= n <= shard.replica_urls.len(),
    ensures
        replica_warnings(shard, n).contains(x) <==> {
            ||| exists|k: int|
                0 <= k < n && shard.replica_urls.take(k).contains(#[trigger] shard.replica_urls[k]) && x == "shard "@ + shard.node_url
                    + " lists replica "@ + shard.replica_urls[k] + " more than once"@
            ||| exists|k: int|
                0 <= k < n && node(#[trigger] shard.replica_urls[k]) == node(shard.node_url) && x == "shard "@ + shard.node_url
                    + " lists itself as its own replica"@
        },
        replica_warnings(shard, n).len() == 0 <==> forall|k: int|
            0 <= k < n ==> !shard.replica_urls.take(k).contains(#[trigger] shard.replica_urls[k]) && node(shard.replica_urls[k]) != node(
                shard.node_url,
            ),
    decreases n,
{
    if n > 0 {
        lemma_replica_warnings(shard, n - 1, x);
        let replica = shard.replica_urls[n - 1];
        let before = replica_warnings(shard, n - 1);
        let (c, t) = (
            shard.replica_urls.take(n - 1).contains(replica),
            "shard "@ + shard.node_url + " lists replica "@ + replica + " more than once"@,
        );
        let (d, u) = (same_node(replica, shard.node_url), "shard "@ + shard.node_url + " lists itself as its own replica"@);
        lemma_when(c, t, x);
        lemma_when(d, u, x);
        lemma_joined(before, when(c, t), x);
        lemma_joined(before + when(c, t), when(d, u), x);
    }
}

/// What is amiss with one range of a map.
pub open spec fn range_amiss(map: Seq<ShardInfoView>, i: int, x: Seq<char>) -> bool {
    let shard = map[i];
    ||| {
        &&& exists|j: int| first_with(map, i, j) && map[j].replica_urls != shard.replica_urls
        &&& x == "shard "@ + shard.node_url
            + " appears in multiple ranges with different replica_urls; router failover will use whichever range matched the key"@
    }
    ||| exists|k: int|
        0 <= k < shard.replica_urls.len() && shard.replica_urls.take(k).contains(#[trigger] shard.replica_urls[k]) && x == "shard "@
            + shard.node_url + " lists replica "@ + shard.replica_urls[k] + " more than once"@
    ||| exists|k: int|
        0 <= k < shard.replica_urls.len() && node(#[trigger] shard.replica_urls[k]) == node(shard.node_url) && x == "shard "@
            + shard.node_url + " lists itself as its own replica"@
    ||| shard.replica_urls.len() == 0 && x == "shard "@ + shard.node_url + " has no replica_urls; reads and writes cannot fail over"@
}

proof fn lemma_range_warnings(map: Seq<ShardInfoView>, i: int, x: Seq<char>)
    requires
        0 <= i < map.len(),
    ensures
        range_warnings(map, i).contains(x) <==> range_amiss(map, i, x),
{
    let shard = map[i];
    let t = "shard "@ + shard.node_url
        + " appears in multiple ranges with different replica_urls; router failover will use whichever range matched the key"@;
    let u = "shard "@ + shard.node_url + " has no replica_urls; reads and writes cannot fail over"@;
    let a = when(other_replicas(map, i), t);
    let b = replica_warnings(shard, shard.replica_urls.len() as int);
    let c = when(shard.replica_urls.len() == 0, u);
    lemma_when(other_replicas(map, i), t, x);
    lemma_when(shard.replica_urls.len() == 0, u, x);
    lemma_replica_warnings(shard, shard.replica_urls.len() as int, x);
    lemma_joined(a, b, x);
    lemma_joined(a + b, c, x);
}

proof fn lemma_map_warnings(map: Seq<ShardInfoView>, n: int, x: Seq<char>)
    requires
        0 <= n <= map.len(),
    ensures
        map_warnings(map, n).contains(x) <==> exists|i: int| 0 <= i < n && #[trigger] range_amiss(map, i, x),
    decreases n,
{
    if n > 0 {
        lemma_map_warnings(map, n - 1, x);
        lemma_range_warnings(map, n - 1, x);
        lemma_joined(map_warnings(map, n - 1), range_warnings(map, n - 1), x);
    }
}

/// Whether one range's primary is a replica of another range's.
pub open spec fn crosses(map: Seq<ShardInfoView>, i: int, k: int, x: Seq<char>) -> bool {
    &&& map[k].node_url != map[i].node_url
    &&& names(map[k].replica_urls, node(map[i].node_url))
    &&& x == map[i].node_url + " is a primary for one range and a replica of "@ + map[k].node_url
        + " for another; a failover there would promote a node that already serves writes"@
}

proof fn lemma_crossed_with(map: Seq<ShardInfoView>, i: int, n: int, x: Seq<char>)
    requires
        0 <= n <= map.len(),
        0 <= i < map.len(),
    ensures
        crossed_with(map, i, n).contains(x) <==> exists|k: int| 0 <= k < n && #[trigger] crosses(map, i, k, x),
    decreases n,
{
    if n > 0 {
        lemma_crossed_with(map, i, n - 1, x);
        let (shard, other) = (map[i], map[n - 1]);
        let c = other.node_url != shard.node_url && names(other.replica_urls, node(shard.node_url));
        let t = shard.node_url + " is a primary for one range and a replica of "@ + other.node_url
            + " for another; a failover there would promote a node that already serves writes"@;
        lemma_when(c, t, x);
        lemma_joined(crossed_with(map, i, n - 1), when(c, t), x);
        assert(crosses(map, i, n - 1, x) <==> c && x == t);
        assert(crossed_with(map, i, n) == crossed_with(map, i, n - 1) + when(c, t));
    }
}

proof fn lemma_crossings(map: Seq<ShardInfoView>, n: int, x: Seq<char>)
    requires
        0 <= n <= map.len(),
    ensures
        crossings(map, n).contains(x) <==> exists|i: int, k: int| 0 <= i < n && 0 <= k < map.len() && #[trigger] crosses(map, i, k, x),
    decreases n,
{
    if n > 0 {
        lemma_crossings(map, n - 1, x);
        lemma_crossed_with(map, n - 1, map.len() as int, x);
        lemma_joined(crossings(map, n - 1), crossed_with(map, n - 1, map.len() as int), x);
    }
}

/// A router is warned of everything that is amiss with its map, range by range and between any two
/// ranges, and of nothing else.
pub proof fn law_a_router_is_warned_of_every_range(cfg: NodeConfigView, x: Seq<char>)
    ensures
        cfg.role == "router"@ ==> (cfg.warnings().contains(x) <==> {
            ||| exists|i: int| 0 <= i < cfg.shard_map.len() && #[trigger] range_amiss(cfg.shard_map, i, x)
            ||| exists|i: int, k: int|
                0 <= i < cfg.shard_map.len() && 0 <= k < cfg.shard_map.len() && #[trigger] crosses(cfg.shard_map, i, k, x)
        }),
{
    let map = cfg.shard_map;
    lemma_map_warnings(map, map.len() as int, x);
    lemma_crossings(map, map.len() as int, x);
    lemma_joined(map_warnings(map, map.len() as int), crossings(map, map.len() as int), x);
}

proof fn lemma_repeated(replicas: Seq<Seq<char>>, n: int, x: Seq<char>)
    requires
        0 <= n <= replicas.len(),
    ensures
        repeated_replicas(replicas, n).contains(x) <==> exists|k: int|
            0 <= k < n && names(replicas.take(k), node(#[trigger] replicas[k])) && x == "replicas lists "@ + replicas[k] + " more than once"@,
    decreases n,
{
    if n > 0 {
        lemma_repeated(replicas, n - 1, x);
        let c = names(replicas.take(n - 1), node(replicas[n - 1]));
        let t = "replicas lists "@ + replicas[n - 1] + " more than once"@;
        lemma_when(c, t, x);
        lemma_joined(repeated_replicas(replicas, n - 1), when(c, t), x);
    }
}

proof fn lemma_voteless(replicas: Seq<Seq<char>>, peers: Seq<Seq<char>>, n: int, x: Seq<char>)
    requires
        0 <= n <= replicas.len(),
    ensures
        voteless_replicas(replicas, peers, n).contains(x) <==> exists|k: int|
            0 <= k < n && peers.len() > 0 && !names(peers, node(#[trigger] replicas[k])) && x == "replica "@ + replicas[k]
                + " is not listed in peers; it cannot vote in an election"@,
    decreases n,
{
    if n > 0 {
        lemma_voteless(replicas, peers, n - 1, x);
        let c = peers.len() > 0 && !names(peers, node(replicas[n - 1]));
        let t = "replica "@ + replicas[n - 1] + " is not listed in peers; it cannot vote in an election"@;
        lemma_when(c, t, x);
        lemma_joined(voteless_replicas(replicas, peers, n - 1), when(c, t), x);
    }
}

/// A shard node is warned of everything that is amiss with its peers and replicas, one by one, and of
/// nothing else.
pub proof fn law_a_shard_is_warned_of_everything_amiss(cfg: NodeConfigView, x: Seq<char>)
    ensures
        cfg.role == "shard"@ ==> (cfg.warnings().contains(x) <==> {
            ||| {
                &&& !cfg.learner() && cfg.peers.len() == 0 && cfg.primary_addr is None && cfg.shard_role == Some("replica"@)
                &&& x
                    == "replica has no primary_addr and no peers, and membership_mode is 'voter'; it will elect itself once its heartbeat timeout expires. Set membership_mode to 'learner' if this node is meant to join an existing cluster"@
            }
            ||| {
                &&& cfg.learner() && cfg.peers.len() > 0
                &&& x == "membership_mode is 'learner' but peers is set; a learner never campaigns, so peers has no effect on it"@
            }
            ||| {
                &&& names(cfg.peers, node(cfg.listen_addr))
                &&& x == "peers contains this node's own address ("@ + cfg.listen_addr
                    + "); peers must list only the other nodes, otherwise the majority threshold is computed against an inflated cluster size"@
            }
            ||| {
                &&& names(cfg.replicas, node(cfg.listen_addr))
                &&& x == "replicas contains this node's own address ("@ + cfg.listen_addr + ")"@
            }
            ||| exists|k: int|
                0 <= k < cfg.replicas.len() && names(cfg.replicas.take(k), node(#[trigger] cfg.replicas[k])) && x == "replicas lists "@
                    + cfg.replicas[k] + " more than once"@
            ||| {
                &&& cfg.primary_addr is Some && cfg.peers.len() > 0 && !names(cfg.peers, node(cfg.primary_addr->0))
                &&& x == "primary_addr "@ + cfg.primary_addr->0 + " is not listed in peers; it cannot be voted for"@
            }
            ||| exists|k: int|
                0 <= k < cfg.replicas.len() && cfg.peers.len() > 0 && !names(cfg.peers, node(#[trigger] cfg.replicas[k])) && x
                    == "replica "@ + cfg.replicas[k] + " is not listed in peers; it cannot vote in an election"@
            ||| {
                &&& cfg.replicas.len() > 0 && cfg.peers.len() == 0
                &&& x == "replicas are configured but peers is empty; this node can never be replaced by an election"@
            }
        }),
{
    if cfg.role == "shard"@ {
        reveal_strlit("shard");
        reveal_strlit("router");
        assert("shard"@.len() == 5 && "router"@.len() == 6);
        let c1 = !cfg.learner() && cfg.peers.len() == 0 && cfg.primary_addr is None && cfg.shard_role == Some("replica"@);
        let t1 = "replica has no primary_addr and no peers, and membership_mode is 'voter'; it will elect itself once its heartbeat timeout expires. Set membership_mode to 'learner' if this node is meant to join an existing cluster"@;
        let c2 = cfg.learner() && cfg.peers.len() > 0;
        let t2 = "membership_mode is 'learner' but peers is set; a learner never campaigns, so peers has no effect on it"@;
        let c3 = names(cfg.peers, node(cfg.listen_addr));
        let t3 = "peers contains this node's own address ("@ + cfg.listen_addr
            + "); peers must list only the other nodes, otherwise the majority threshold is computed against an inflated cluster size"@;
        let c4 = names(cfg.replicas, node(cfg.listen_addr));
        let t4 = "replicas contains this node's own address ("@ + cfg.listen_addr + ")"@;
        let r5 = repeated_replicas(cfg.replicas, cfg.replicas.len() as int);
        let c6 = cfg.primary_addr is Some && cfg.peers.len() > 0 && !names(cfg.peers, node(cfg.primary_addr->0));
        let t6 = "primary_addr "@ + cfg.primary_addr->0 + " is not listed in peers; it cannot be voted for"@;
        let r7 = voteless_replicas(cfg.replicas, cfg.peers, cfg.replicas.len() as int);
        let c8 = cfg.replicas.len() > 0 && cfg.peers.len() == 0;
        let t8 = "replicas are configured but peers is empty; this node can never be replaced by an election"@;
        let (s1, s2, s3, s4, s6, s8) = (when(c1, t1), when(c2, t2), when(c3, t3), when(c4, t4), when(c6, t6), when(c8, t8));
        lemma_when(c1, t1, x);
        lemma_when(c2, t2, x);
        lemma_when(c3, t3, x);
        lemma_when(c4, t4, x);
        lemma_repeated(cfg.replicas, cfg.replicas.len() as int, x);
        lemma_when(c6, t6, x);
        lemma_voteless(cfg.replicas, cfg.peers, cfg.replicas.len() as int, x);
        lemma_when(c8, t8, x);
        lemma_joined(s1, s2, x);
        lemma_joined(s1 + s2, s3, x);
        lemma_joined(s1 + s2 + s3, s4, x);
        lemma_joined(s1 + s2 + s3 + s4, r5, x);
        lemma_joined(s1 + s2 + s3 + s4 + r5, s6, x);
        lemma_joined(s1 + s2 + s3 + s4 + r5 + s6, r7, x);
        lemma_joined(s1 + s2 + s3 + s4 + r5 + s6 + r7, s8, x);
    }
}

/// A configuration is in order exactly where each of its parts is.
pub proof fn law_when_a_configuration_is_in_order(cfg: NodeConfigView)
    ensures
        cfg.judged(None, None) <==> {
            &&& cfg.role == "shard"@ || cfg.role == "router"@
            &&& cfg.role == "shard"@ && cfg.shard_role is Some ==> cfg.shard_role == Some("primary"@) || cfg.shard_role == Some("replica"@)
            &&& cfg.ring is Some ==> cfg.ring->0.fault() is None && cfg.shard_map.len() == 0
            &&& cfg.ring is None && cfg.role == "router"@ ==> partitions(cfg.shard_map)
            &&& trim(cfg.data_dir).len() > 0
            &&& cfg.membership_mode == "voter"@ || cfg.membership_mode == MEMBERSHIP_LEARNER@
            &&& cfg.membership_mode == MEMBERSHIP_LEARNER@ ==> cfg.shard_role != Some("primary"@)
            &&& cfg.heartbeat_timeout_secs > 0
            &&& cfg.maintenance.fault() is None && cfg.rebalance.fault() is None && cfg.data_movement.fault() is None
            &&& cfg.rebalance.enabled ==> cfg.role == "shard"@
            &&& cfg.logging.fault() is None
        },
{
}

} // verus!
