//! What a node decides when it starts.

use crate::cluster::metadata::{seeded_view, ClusterMetadata};
use crate::config::{NodeConfig, NodeConfigView};
use crate::ring::{ranges, ShardInfo};
use crate::text::{opt_is, same_lists, same_opt, same_text, texts};
use vstd::prelude::*;

verus! {

/// The cluster view that a node starts with.
pub struct BootView {
    pub view: ClusterMetadata,
    /// The view was seeded from the configuration and is to be saved.
    pub seeded: bool,
    /// The configured shard map differs from the stored view, which is authoritative.
    pub differs: bool,
}

fn same_ranges(a: &Vec<ShardInfo>, b: &Vec<ShardInfo>) -> (r: bool)
    ensures
        r == (ranges(a@) == ranges(b@)),
{
    if a.len() != b.len() {
        assert(ranges(a@).len() != ranges(b@).len());
        return false;
    }
    let mut i: usize = 0;
    while i < a.len()
        invariant
            a@.len() == b@.len(),
            i <= a@.len(),
            forall|k: int| 0 <= k < i ==> (#[trigger] a@[k])@ == b@[k]@,
        decreases a@.len() - i,
    {
        let same = a[i].start_hash == b[i].start_hash && a[i].end_hash == b[i].end_hash && same_text(
            a[i].node_url.as_str(),
            b[i].node_url.as_str(),
        ) && same_lists(&a[i].replica_urls, &b[i].replica_urls);
        if !same {
            assert(ranges(a@)[i as int] != ranges(b@)[i as int]);
            return false;
        }
        i += 1;
    }
    assert(ranges(a@) =~= ranges(b@));
    true
}

/// The stored view wins over the configuration, which is a bootstrap seed: an edit to it after the
/// first boot is ignored, and said to be.
pub fn load_cluster_view(stored: Option<ClusterMetadata>, config: &NodeConfig) -> (r: BootView)
    ensures
        match stored {
            Some(v) => r.view@ == v@ && !r.seeded && r.differs == (v@.shards != seeded_view(config@).shards),
            None => r.view@ == seeded_view(config@) && r.seeded && !r.differs,
        },
{
    let from_config = ClusterMetadata::seed_from_config(config);
    match stored {
        Some(view) => {
            let same = same_ranges(&view.shards, &from_config.shards);
            BootView { view, seeded: false, differs: !same }
        },
        None => BootView { view: from_config, seeded: true, differs: false },
    }
}

/// What a node starts.
#[derive(Clone, Copy, Debug, PartialEq, Eq, Structural)]
pub struct BootTasks {
    /// Storage, and the tasks of a shard.
    pub shard: bool,
    /// Catch up from the leader before serving.
    pub resync: bool,
    pub rebalance: bool,
    /// Watch for a leader.
    pub heartbeat: bool,
    /// Watch who leads the shard groups.
    pub probe: bool,
    pub maintenance: bool,
}

/// What a node starts. A shard that leads watches for no leader, and only a router probes.
pub fn boot_tasks(config: &NodeConfig, is_leader: bool) -> (r: BootTasks)
    ensures
        r == (BootTasks {
            shard: config@.role == "shard"@,
            resync: config@.shard_role == Some("replica"@),
            rebalance: config@.role == "shard"@ && config@.rebalance.enabled,
            heartbeat: config@.role == "shard"@ && !is_leader,
            probe: config@.role == "router"@,
            maintenance: config@.role == "shard"@ && config@.maintenance.enabled,
        }),
{
    let shard = same_text(config.role.as_str(), "shard");
    let probe = same_text(config.role.as_str(), "router");
    let resync = opt_is(&config.shard_role, "replica");
    BootTasks {
        shard,
        resync,
        rebalance: shard && config.rebalance.enabled,
        heartbeat: shard && !is_leader,
        probe,
        maintenance: shard && config.maintenance.enabled,
    }
}

/// What a node warns about the keys it is given, in order.
pub open spec fn key_warnings(shard: bool, internal_secret: bool, public_locked: bool, admin_locked: bool) -> Seq<Seq<char>> {
    let first = if !internal_secret && shard {
        seq!["auth.internal_secret is not set; /internal/* endpoints accept unauthenticated requests"@]
    } else {
        Seq::empty()
    };
    let second = if !public_locked {
        seq!["auth.api_keys is empty; the public API accepts unauthenticated requests"@]
    } else {
        Seq::empty()
    };
    let third = if admin_locked && !public_locked {
        seq!["auth.admin_keys is set but auth.api_keys is empty; only /cluster/* and collection drops need a key"@]
    } else if !admin_locked && public_locked {
        seq!["auth.admin_keys is empty; any auth.api_keys entry can change cluster topology and drop collections"@]
    } else {
        Seq::empty()
    };
    first + second + third
}

/// What a node warns about the keys it is given.
pub fn auth_warnings(shard: bool, internal_secret: bool, public_locked: bool, admin_locked: bool) -> (r: Vec<String>)
    ensures
        texts(r@) == key_warnings(shard, internal_secret, public_locked, admin_locked),
{
    let mut out: Vec<String> = Vec::new();
    if !internal_secret && shard {
        out.push("auth.internal_secret is not set; /internal/* endpoints accept unauthenticated requests".to_owned());
    }
    if !public_locked {
        out.push("auth.api_keys is empty; the public API accepts unauthenticated requests".to_owned());
    }
    if admin_locked {
        if !public_locked {
            out.push(
                "auth.admin_keys is set but auth.api_keys is empty; only /cluster/* and collection drops need a key".to_owned(),
            );
        }
    } else if public_locked {
        out.push(
            "auth.admin_keys is empty; any auth.api_keys entry can change cluster topology and drop collections".to_owned(),
        );
    }
    assert(texts(out@) =~= key_warnings(shard, internal_secret, public_locked, admin_locked));
    out
}

/// The fields of the line that says which node this is and where its state lives.
pub open spec fn identity(cfg: NodeConfigView, shard_role: Option<Seq<char>>) -> Seq<(Seq<char>, Seq<char>)> {
    seq![("node_id"@, cfg.node_id), ("role"@, cfg.role)] + (match shard_role {
        Some(r) => seq![("shard_role"@, r)],
        None => Seq::empty(),
    }) + seq![("listen_addr"@, cfg.listen_addr), ("data_dir"@, cfg.data_dir)]
}

/// The role that a shard runs as; a router has none.
pub open spec fn runs_as(cfg: NodeConfigView) -> Option<Seq<char>> {
    if cfg.role != "shard"@ {
        None
    } else if !cfg.learner() && cfg.shard_role == Some("primary"@) {
        Some("primary"@)
    } else {
        Some("replica"@)
    }
}

/// The fields of the line that says which node this is and where its state lives. Every shard reports
/// the role it runs as, also one whose configuration leaves it out. No secret is among them.
pub fn log_listening(config: &NodeConfig) -> (r: Vec<(String, String)>)
    ensures
        Seq::new(r@.len(), |i: int| (r@[i].0@, r@[i].1@)) == identity(config@, runs_as(config@)),
{
    let mut out: Vec<(String, String)> = Vec::new();
    out.push(("node_id".to_owned(), config.node_id.clone()));
    out.push(("role".to_owned(), config.role.clone()));
    if let Some(role) = config.effective_shard_role() {
        out.push(("shard_role".to_owned(), role.to_owned()));
    }
    out.push(("listen_addr".to_owned(), config.listen_addr.clone()));
    out.push(("data_dir".to_owned(), config.data_dir.clone()));
    assert(Seq::new(out@.len(), |i: int| (out@[i].0@, out@[i].1@)) =~= identity(config@, runs_as(config@)));
    out
}

/// The keys of a node that are wired into its outbound clients at boot.
#[derive(Debug, PartialEq, Eq)]
pub struct WiredKeys {
    pub internal_secret: Option<String>,
    pub upstream_api_key: Option<String>,
}

/// What a look at the configuration file comes to.
#[derive(Debug, PartialEq, Eq)]
pub enum ReloadStep {
    /// The file is as it was.
    Wait,
    /// The file cannot be used. The keys in force are left alone: a half-written file must not unlock
    /// the API.
    Keep(String),
    /// The client keys in the file take force. Where the wired keys changed too, that is said: they
    /// need a restart.
    Rotate { wired_changed: bool },
}

/// What a look at the configuration file comes to. `reread` is what it holds now, or why it cannot be
/// used.
pub fn auth_reload(unchanged: bool, current: &WiredKeys, reread: Result<WiredKeys, String>) -> (r: ReloadStep)
    ensures
        if unchanged {
            r is Wait
        } else {
            match reread {
                Ok(next) => r == (ReloadStep::Rotate {
                    wired_changed: crate::text::opt_text(next.internal_secret) != crate::text::opt_text(current.internal_secret)
                        || crate::text::opt_text(next.upstream_api_key) != crate::text::opt_text(current.upstream_api_key),
                }),
                Err(e) => r == ReloadStep::Keep(e),
            }
        },
{
    if unchanged {
        return ReloadStep::Wait;
    }
    match reread {
        Ok(next) => {
            let same = same_opt(&next.internal_secret, &current.internal_secret) && same_opt(
                &next.upstream_api_key,
                &current.upstream_api_key,
            );
            ReloadStep::Rotate { wired_changed: !same }
        },
        Err(e) => ReloadStep::Keep(e),
    }
}

/// Each thing that is left open is warned of, whatever else is.
pub proof fn law_everything_left_open_is_warned_of(shard: bool, internal_secret: bool, public_locked: bool, admin_locked: bool)
    ensures
        ({
            let w = key_warnings(shard, internal_secret, public_locked, admin_locked);
            &&& shard && !internal_secret ==> w.contains(
                "auth.internal_secret is not set; /internal/* endpoints accept unauthenticated requests"@,
            )
            &&& !public_locked ==> w.contains("auth.api_keys is empty; the public API accepts unauthenticated requests"@)
            &&& admin_locked && !public_locked ==> w.contains(
                "auth.admin_keys is set but auth.api_keys is empty; only /cluster/* and collection drops need a key"@,
            )
            &&& !admin_locked && public_locked ==> w.contains(
                "auth.admin_keys is empty; any auth.api_keys entry can change cluster topology and drop collections"@,
            )
            &&& w.len() == (if shard && !internal_secret { 1int } else { 0 }) + (if public_locked { 0int } else { 1 }) + (if admin_locked
                != public_locked { 1int } else { 0 })
        }),
{
    let w = key_warnings(shard, internal_secret, public_locked, admin_locked);
    let first = if shard && !internal_secret { 1int } else { 0 };
    if shard && !internal_secret {
        assert(w[0] == "auth.internal_secret is not set; /internal/* endpoints accept unauthenticated requests"@);
    }
    if !public_locked {
        assert(w[first] == "auth.api_keys is empty; the public API accepts unauthenticated requests"@);
        if admin_locked {
            assert(w[first + 1] == "auth.admin_keys is set but auth.api_keys is empty; only /cluster/* and collection drops need a key"@);
        }
    } else if !admin_locked {
        assert(w[first] == "auth.admin_keys is empty; any auth.api_keys entry can change cluster topology and drop collections"@);
    }
}

/// A node says who it is, what it runs as, where it listens and where it keeps its data.
pub proof fn law_a_node_says_who_it_is(cfg: NodeConfigView, shard_role: Option<Seq<char>>)
    ensures
        ({
            let said = identity(cfg, shard_role);
            &&& said.contains(("node_id"@, cfg.node_id)) && said.contains(("role"@, cfg.role))
            &&& said.contains(("listen_addr"@, cfg.listen_addr)) && said.contains(("data_dir"@, cfg.data_dir))
            &&& shard_role is Some ==> said.contains(("shard_role"@, shard_role->0)) && said.len() == 5
            &&& shard_role is None ==> said.len() == 4
        }),
{
    let said = identity(cfg, shard_role);
    let k = if shard_role is Some { 1int } else { 0 };
    assert(said[0] == ("node_id"@, cfg.node_id));
    assert(said[1] == ("role"@, cfg.role));
    if shard_role is Some {
        assert(said[2] == ("shard_role"@, shard_role->0));
    }
    assert(said[2 + k] == ("listen_addr"@, cfg.listen_addr));
    assert(said[3 + k] == ("data_dir"@, cfg.data_dir));
}

/// A learner never starts as a primary, and neither does a shard that is not configured as one; a
/// router has no shard role.
pub proof fn law_what_a_node_starts_as(cfg: NodeConfigView)
    ensures
        runs_as(cfg) is None <==> cfg.role != "shard"@,
        runs_as(cfg) == Some("primary"@) <==> cfg.role == "shard"@ && !cfg.learner() && cfg.shard_role == Some("primary"@),
        runs_as(cfg) is Some ==> runs_as(cfg) == Some("primary"@) || runs_as(cfg) == Some("replica"@),
{
    reveal_strlit("primary");
    reveal_strlit("replica");
    assert("primary"@[0] != "replica"@[0]);
}

} // verus!
