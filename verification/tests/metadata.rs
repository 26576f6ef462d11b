use dewdb::cluster::indexes::{
    merge_catalog, sanitize_catalog, CollectionIndexes, IndexChange, IndexSpec, MAX_CATALOG_COLLECTIONS, MAX_INDEXES_PER_COLLECTION,
};
use dewdb::cluster::metadata::{
    adopt, plan_configuration, plan_join, plan_leave, Adoption, ClusterMetadata, JoinRequest, Member, Migration, MigrationPhase, ViewSave,
};
use dewdb::config::NodeConfig;
use dewdb::consensus::state::{LoadError, Stored};
use dewdb::name_map::NameMap;
use dewdb::ring::{HashRing, RingShard, ShardInfo};

const HALF: u64 = 9223372036854775808;

fn shard(start: u64, end: u64, url: &str, replicas: &[&str]) -> ShardInfo {
    ShardInfo {
        start_hash: start,
        end_hash: end,
        node_url: url.to_string(),
        replica_urls: replicas.iter().map(|r| r.to_string()).collect(),
    }
}

fn view(version: u64, by: &str, shards: Vec<ShardInfo>) -> ClusterMetadata {
    ClusterMetadata {
        version, updated_by: by.to_string(), seeded: false, members: Vec::new(), shards,
        ring: None, migration: None, index_catalog: NameMap::new(),
    }
}

fn cfg(node_id: &str, role: &str, listen_addr: &str) -> NodeConfig {
    NodeConfig::with_defaults(node_id, role, listen_addr)
}

/// The view as it would stand on disk.
struct Disk {
    file: Option<ClusterMetadata>,
}

impl Disk {
    fn load(&self) -> Result<Option<ClusterMetadata>, LoadError> {
        let file = match &self.file {
            Some(v) => Stored::Read(v.clone()),
            None => Stored::Absent,
        };
        ClusterMetadata::load(file, Stored::Absent)
    }

    fn save(&mut self, v: ClusterMetadata) {
        match v.save(self.load().unwrap()) {
            ViewSave::Keep => {},
            ViewSave::WriteThis => self.file = Some(v),
            ViewSave::WriteMerged(m) => self.file = Some(m),
        }
    }
}

#[test]
fn a_shard_group_comes_from_the_ring_never_from_the_member_list() {
    let group = |url: &str, replicas: &[&str]| RingShard {
        node_url: url.to_string(),
        replica_urls: replicas.iter().map(|r| r.to_string()).collect(),
    };
    let member = |url: &str, follows: Option<&str>| Member {
        url: url.to_string(), node_id: None, role: "shard".to_string(),
        shard_role: None, voting: follows.is_none(),
        follows: follows.map(str::to_string),
    };

    let mut v = view(2, "op", Vec::new());
    // Every node in one flat list, which is what the member list always is.
    v.members = ["http://a", "http://b1", "http://b2", "http://b3"]
        .iter().map(|u| member(u, None)).collect();
    v.members.push(member("http://learner", Some("http://b1")));

    assert!(!v.groups_known(), "no ring and no shard map is one group, not zero");
    assert_eq!(v.shard_group("http://b2"), None);

    v.ring = Some(HashRing {
        vnodes: 128,
        shards: vec![group("http://a", &[]), group("http://b1", &["http://b2", "http://b3"])],
    });

    assert!(v.groups_known());
    assert_eq!(v.shard_group("http://a"), Some(vec!["http://a".to_string()]));
    assert_eq!(v.shard_group("http://b2"), Some(vec![
        "http://b1".to_string(), "http://b2".to_string(), "http://b3".to_string(),
    ]), "a replica's group is the shard that names it, not every shard node in the cluster");
    assert_eq!(v.shard_group("http://learner"), v.shard_group("http://b1"),
        "a learner is not in the ring; the primary it follows is what places it");
    assert_eq!(v.shard_group("http://nobody"), None,
        "a node no shard names has no group -- which is not the same as having them all");
}

#[test]
fn a_view_is_adopted_only_when_it_is_strictly_newer() {
    let mut current = view(3, "n1", vec![shard(0, 0, "http://a", &[])]);

    assert_eq!(adopt(&mut current, view(2, "n1", vec![shard(0, 0, "http://b", &[])])),
        Adoption::Stale { current: 3 });
    assert_eq!(current.shards[0].node_url, "http://a", "an older view must not overwrite");

    assert_eq!(adopt(&mut current, view(3, "n1", vec![shard(0, 0, "http://b", &[])])),
        Adoption::Stale { current: 3 },
        "the same version from the same writer is a retransmit, not an update");

    assert_eq!(adopt(&mut current, view(4, "n1", vec![shard(0, 0, "http://b", &[])])),
        Adoption::Adopted { from: 3, to: 4 });
    assert_eq!(current.shards[0].node_url, "http://b");
}

#[test]
fn equal_versions_converge_on_one_view_rather_than_splitting() {
    // Two nodes independently publish version 5. Every node must land on the same one,
    // whichever it is, or two routers send the same key to different shards.
    let a = view(5, "alpha", vec![shard(0, 0, "http://a", &[])]);
    let b = view(5, "bravo", vec![shard(0, 0, "http://b", &[])]);

    let mut saw_a_first = view(1, "seed", vec![]);
    adopt(&mut saw_a_first, a.clone());
    adopt(&mut saw_a_first, b.clone());

    let mut saw_b_first = view(1, "seed", vec![]);
    adopt(&mut saw_b_first, b);
    adopt(&mut saw_b_first, a);

    assert_eq!(saw_a_first, saw_b_first, "arrival order must not decide the surviving view");
    assert_eq!(saw_a_first.updated_by, "bravo", "the tiebreak is total and deterministic");
}

#[test]
fn an_invalid_view_is_refused_however_new_it_claims_to_be() {
    let mut current = view(1, "n1", vec![shard(0, 0, "http://a", &[])]);

    let gap = view(99, "n1", vec![shard(0, HALF, "http://a", &[])]);
    match adopt(&mut current, gap) {
        Adoption::Rejected(why) => assert!(why.contains("uncovered"), "got: {}", why),
        other => panic!("a ring with a hole must not be adopted: {:?}", other),
    }
    assert_eq!(current.version, 1, "the refused view must not take effect");

    let overlap = view(99, "n1", vec![shard(0, HALF + 100, "http://a", &[]), shard(HALF, 0, "http://b", &[])]);
    assert!(matches!(adopt(&mut current, overlap), Adoption::Rejected(_)));

    let mut dupes = view(99, "n1", vec![]);
    dupes.members = vec![
        Member { url: "http://a".into(), node_id: None, role: "shard".into(), shard_role: None, voting: true, follows: None },
        Member { url: "http://a/".into(), node_id: None, role: "shard".into(), shard_role: None, voting: true, follows: None },
    ];
    match adopt(&mut current, dupes) {
        Adoption::Rejected(why) => assert!(why.contains("more than once"), "got: {}", why),
        other => panic!("the same endpoint twice is not a membership list: {:?}", other),
    }

    let mut bad_role = view(99, "n1", vec![]);
    bad_role.members = vec![
        Member { url: "http://a".into(), node_id: None, role: "coordinator".into(), shard_role: None, voting: true, follows: None },
    ];
    assert!(matches!(adopt(&mut current, bad_role), Adoption::Rejected(_)));

    assert!(matches!(adopt(&mut current, view(0, "n1", vec![])), Adoption::Rejected(_)),
        "version 0 means unseeded and must never be published");
}

#[test]
fn seeding_from_config_captures_every_node_the_config_names() {
    let mut router_cfg = cfg("r1", "router", "127.0.0.1:9500");
    router_cfg.shard_map = vec![shard(0, HALF, "http://a", &["http://a2"]), shard(HALF, 0, "http://b", &["http://b2"])];
    let router = ClusterMetadata::seed_from_config(&router_cfg);

    assert_eq!(router.version, 1);
    assert_eq!(router.shards.len(), 2);
    router.validate().expect("a seed from a valid config must itself be valid");

    let urls: Vec<&str> = router.members.iter().map(|m| m.url.as_str()).collect();
    assert!(urls.contains(&"http://127.0.0.1:9500"), "the router itself is a member: {:?}", urls);
    for expected in ["http://a", "http://a2", "http://b", "http://b2"] {
        assert!(urls.contains(&expected), "{} missing from {:?}", expected, urls);
    }
    assert_eq!(router.members.iter().find(|m| m.url.contains("9500")).unwrap().role, "router");

    let mut shard_cfg = cfg("n1", "shard", "127.0.0.1:9501");
    shard_cfg.shard_role = Some("primary".to_string());
    shard_cfg.replicas = vec!["http://127.0.0.1:9502".to_string()];
    shard_cfg.peers = vec!["http://127.0.0.1:9502".to_string(), "http://127.0.0.1:9503".to_string()];
    let shard = ClusterMetadata::seed_from_config(&shard_cfg);

    assert_eq!(shard.members.len(), 3, "self, the replica, and the third peer: {:?}", shard.members);
    assert!(shard.shards.is_empty(), "a shard node carries no ring");
    shard.validate().unwrap();

    let listed_twice = shard.members.iter().filter(|m| m.url.contains("9502")).count();
    assert_eq!(listed_twice, 1, "a node in both replicas and peers is one member, not two");
}

#[test]
fn metadata_survives_a_restart_and_never_rewinds_on_disk() {
    let mut disk = Disk { file: None };

    assert!(disk.load().unwrap().is_none(), "an unseeded node has no view");

    disk.save(view(4, "n1", vec![shard(0, 0, "http://a", &[])]));
    let back = disk.load().unwrap().expect("must persist");
    assert_eq!(back.version, 4);
    assert_eq!(back.shards[0].node_url, "http://a");

    disk.save(view(2, "n1", vec![shard(0, 0, "http://old", &[])]));
    assert_eq!(disk.load().unwrap().unwrap().version, 4,
        "a late save from an older view must not rewind the durable topology");

    disk.save(view(5, "n1", vec![shard(0, 0, "http://b", &[])]));
    assert_eq!(disk.load().unwrap().unwrap().shards[0].node_url, "http://b");
}

#[test]
fn an_unreadable_view_fails_the_boot_instead_of_silently_reverting_to_config() {
    match ClusterMetadata::load(Stored::Corrupt("key must be a string".to_string()), Stored::Absent).unwrap_err() {
        LoadError::Invalid(why) => assert!(why.contains("delete it"), "the operator needs the way out: {}", why),
        other => panic!("not a reading failure: {:?}", other),
    }

    // A file that parses but describes an impossible ring is just as unusable.
    let holed = view(3, "n1", vec![shard(0, HALF, "http://a", &[])]);
    assert!(ClusterMetadata::load(Stored::Read(holed), Stored::Absent).is_err(),
        "a validated file must be validated on the way in too");
    assert_eq!(ClusterMetadata::load(Stored::Failed("denied".to_string()), Stored::Absent),
        Err(LoadError::Io("denied".to_string())));
}

#[test]
fn a_staging_file_left_by_a_crash_is_read_back() {
    let staged = view(9, "n1", vec![shard(0, 0, "http://a", &[])]);
    let back = ClusterMetadata::load(Stored::Absent, Stored::Read(staged)).unwrap()
        .expect("the staging file is complete once fsynced");
    assert_eq!(back.version, 9);
}

fn spec(name: &str, field: &str) -> IndexSpec {
    IndexSpec { name: name.to_string(), field: field.to_string() }
}

fn created(name: &str, field: &str) -> IndexChange {
    IndexChange::Create { spec: spec(name, field) }
}

#[test]
fn a_definition_is_recorded_once_however_many_groups_the_request_reached() {
    let mut v = view(4, "n1", vec![]);
    assert!(v.record_index_change("n1", "t", &created("by_age", "age")));
    assert_eq!(v.index_catalog.get("t").unwrap().version, 1);
    assert!(!v.record_index_change("n1", "t", &created("by_age", "age")),
        "a fan-out that reaches three groups is one client request, not three versions");
    assert_eq!(v.index_catalog.get("t").unwrap().version, 1);

    assert!(v.record_index_change("n1", "t", &created("by_age", "score")),
        "the same name over a different field is a different definition");
    assert_eq!(v.index_catalog.get("t").unwrap().version, 2);
}

/// The catalogue is a schema change, and routing must not move because one happened: a bumped
/// topology version on a shard's seeded view would outrank a router's seeded ring.
#[test]
fn recording_a_definition_moves_no_topology_version() {
    let mut v = ClusterMetadata::seed_from_config(&cfg("n1", "shard", "127.0.0.1:1"));
    assert!(v.seeded && v.version == 1);
    assert!(v.record_index_change("n1", "t", &created("i", "age")));
    assert_eq!((v.version, v.seeded), (1, true));
}

#[test]
fn a_drop_naming_a_collection_the_catalogue_never_recorded_records_nothing() {
    let mut v = view(4, "n1", vec![]);
    assert!(!v.record_index_change("n1", "t", &IndexChange::Drop { name: "i".into() }));
    assert!(v.index_catalog.len() == 0,
        "an empty entry says the collection has no indexes, which licenses a group to drop \
         what it holds; a stray request must not say that");
}

#[test]
fn a_dropped_collection_keeps_an_emptied_entry_rather_than_losing_it() {
    let mut v = view(4, "n1", vec![]);
    v.record_index_change("n1", "t", &created("i", "age"));
    assert!(v.forget_collection_indexes("n1", "t"));
    let entry = v.index_catalog.get("t").unwrap();
    assert!(entry.indexes.is_empty());
    assert_eq!(entry.version, 2, "a node that missed the drop must lose the merge");
    assert!(!v.forget_collection_indexes("n1", "t"), "and dropping it twice is not a version");
    assert!(!v.forget_collection_indexes("n1", "never_indexed"));
}

#[test]
fn merging_takes_the_newer_entry_per_collection_in_both_directions() {
    let mut a = view(4, "n1", vec![]);
    a.record_index_change("n1", "orders", &created("i", "age"));
    let mut b = view(4, "n2", vec![]);
    b.record_index_change("n2", "users", &created("j", "email"));

    assert!(merge_catalog(&mut a.index_catalog, &b.index_catalog));
    assert_eq!(a.index_catalog.len(), 2, "neither node knew about the other's collection");
    assert!(!merge_catalog(&mut a.index_catalog, &b.index_catalog),
        "a second round has nothing to hand over");

    // A newer entry for the same collection replaces the older one whole.
    let mut newer = a.clone();
    newer.record_index_change("n3", "orders", &IndexChange::Drop { name: "i".into() });
    assert!(merge_catalog(&mut a.index_catalog, &newer.index_catalog));
    assert!(a.index_catalog.get("orders").unwrap().indexes.is_empty());
}

/// The half of this that a topology-only merge would miss: a shard behind a router never adopts
/// anyone's view, so a catalogue carried only by the winner would never reach it.
#[test]
fn a_view_that_loses_on_topology_still_hands_over_its_definitions() {
    let mut current = view(9, "n1", vec![]);
    let mut behind = view(2, "n2", vec![]);
    behind.record_index_change("n2", "t", &created("i", "age"));

    assert_eq!(adopt(&mut current, behind), Adoption::Stale { current: 9 });
    assert_eq!(current.version, 9, "the topology it lost with must not travel");
    assert_eq!(current.index_catalog.get("t").unwrap().indexes, vec![spec("i", "age")]);
}

#[test]
fn a_view_that_wins_on_topology_does_not_take_away_definitions_it_never_had() {
    let mut current = view(2, "n1", vec![]);
    current.record_index_change("n1", "t", &created("i", "age"));
    let ahead = view(9, "n2", vec![]);

    assert_eq!(adopt(&mut current, ahead), Adoption::Adopted { from: 2, to: 9 });
    assert_eq!(current.version, 9);
    assert_eq!(current.index_catalog.get("t").unwrap().indexes, vec![spec("i", "age")],
        "a ring change is not a schema change and must not read as one");
}

fn entry(indexes: Vec<IndexSpec>) -> CollectionIndexes {
    CollectionIndexes { version: 1, updated_by: "n1".into(), indexes }
}

#[test]
fn a_malformed_catalogue_entry_is_dropped_rather_than_kept() {
    let cases = [
        ("t", entry(vec![spec("ok", "a..b")]), "a field path off the wire is stored by every node"),
        ("../escape", entry(vec![spec("i", "a")]), "and the name is what becomes a directory"),
        ("t", entry(vec![spec("i", "a"), spec("i", "b")]), "one name cannot index two fields"),
        ("t", entry((0..MAX_INDEXES_PER_COLLECTION + 1)
            .map(|i| spec(&format!("i{}", i), "a")).collect()), "an unbounded entry"),
    ];
    for (collection, entry, why) in cases {
        let mut catalog = NameMap::new();
        catalog.insert(collection.into(), entry);
        assert_eq!(sanitize_catalog(&mut catalog).len(), 1, "{}", why);
        assert!(catalog.len() == 0, "{}", why);
    }
}

#[test]
fn a_catalogue_naming_more_collections_than_the_bound_is_refused() {
    let mut v = view(4, "n1", vec![]);
    for i in 0..MAX_CATALOG_COLLECTIONS + 1 {
        v.index_catalog.insert(format!("c{}", i), entry(vec![spec("i", "a")]));
    }
    assert!(v.validate().is_err(), "the size bound is a fact about the document");
}

/// the collection-name rule narrowed after these documents were written, and a view
/// that fails to validate is refused whole -- routing included.
#[test]
fn a_name_a_newer_rule_rejects_costs_its_entry_and_not_the_view() {
    let mut incoming = view(9, "n2", vec![]);
    incoming.index_catalog.insert("Legacy.Name".into(), entry(vec![spec("i", "a")]));
    incoming.index_catalog.insert("users".into(), entry(vec![spec("j", "email")]));

    let mut current = view(4, "n1", vec![]);
    assert_eq!(adopt(&mut current, incoming), Adoption::Adopted { from: 4, to: 9 });
    assert_eq!(current.version, 9, "an old peer's push must not take routing down");
    assert!(!current.index_catalog.holds("Legacy.Name"));
    assert_eq!(current.index_catalog.get("users").unwrap().indexes, vec![spec("j", "email")],
        "the rest of the catalogue still travels");
}

#[test]
fn a_dropped_entry_leaves_the_fingerprint_where_a_node_that_never_saw_it_stands() {
    let mut theirs = view(9, "n2", vec![]);
    theirs.index_catalog.insert("Legacy.Name".into(), entry(vec![spec("i", "a")]));
    theirs.record_index_change("n2", "users", &created("j", "email"));

    let mut ours = view(4, "n1", vec![]);
    adopt(&mut ours, theirs.clone());

    sanitize_catalog(&mut theirs.index_catalog);
    assert_eq!(ours.catalog_fingerprint(), theirs.catalog_fingerprint(),
        "or every gossip round reads the dropped entry as something still to exchange");
}

#[test]
fn a_catalogue_that_cannot_be_addressed_is_read_back_rather_than_called_corrupt() {
    let mut written = view(5, "n1", vec![]);
    written.index_catalog.insert("Legacy.Name".into(), entry(vec![spec("i", "a")]));
    written.record_index_change("n1", "users", &created("j", "email"));

    let back = Disk { file: Some(written) }.load().unwrap().expect("the topology is still readable");
    assert_eq!(back.version, 5);
    assert!(!back.index_catalog.holds("Legacy.Name"));
    assert!(back.index_catalog.holds("users"));
}

#[test]
fn a_merge_never_takes_an_entry_no_node_could_act_on() {
    let mut from = NameMap::new();
    from.insert("Legacy.Name".into(), entry(vec![spec("i", "a")]));
    let mut into = NameMap::new();
    assert!(!merge_catalog(&mut into, &from), "nothing moved, so nothing is worth persisting");
    assert_eq!(into.len(), 0);
}

#[test]
fn the_fingerprint_moves_with_the_catalogue_and_with_nothing_else() {
    let mut v = view(4, "n1", vec![]);
    let empty = v.catalog_fingerprint();
    v.record_index_change("n1", "t", &created("i", "age"));
    let defined = v.catalog_fingerprint();
    assert_ne!(empty, defined);

    let mut moved = v.clone();
    moved.bump("n2");
    assert_eq!(moved.catalog_fingerprint(), defined,
        "a topology change is not something to exchange catalogues over");
}

#[test]
fn the_catalogue_is_persisted_and_survives_a_view_that_does_not_supersede() {
    let mut disk = Disk { file: None };

    let mut current = view(5, "n1", vec![]);
    current.record_index_change("n1", "t", &created("i", "age"));
    disk.save(current);

    // An older view carrying a definition this one has not got: its topology is refused and
    // its catalogue is kept, which is the same rule `adopt` follows in memory.
    let mut older = view(2, "n2", vec![]);
    older.record_index_change("n2", "users", &created("j", "email"));
    disk.save(older);

    let back = disk.load().unwrap().unwrap();
    assert_eq!(back.version, 5, "the durable topology must never rewind");
    assert_eq!(back.index_catalog.len(), 2);
}

#[test]
fn a_config_seed_never_overrides_another_nodes_view() {
    let mut router_cfg = cfg("r1", "router", "127.0.0.1:9500");
    router_cfg.shard_map = vec![shard(0, 0, "http://a", &[])];
    let router_seed = ClusterMetadata::seed_from_config(&router_cfg);
    let mut shard_cfg = cfg("zz", "shard", "127.0.0.1:9501");
    shard_cfg.shard_role = Some("primary".to_string());
    let shard_seed = ClusterMetadata::seed_from_config(&shard_cfg);

    assert!(router_seed.seeded && shard_seed.seeded);
    assert!(shard_seed.shards.is_empty());
    assert!(shard_seed.version == router_seed.version, "every node seeds at the same version");
    assert!("zz" > "r1", "the tiebreak alone would hand this to the shard");

    let mut router = router_seed.clone();
    assert_eq!(adopt(&mut router, shard_seed.clone()), Adoption::Stale { current: 1 });
    assert_eq!(router.shards.len(), 1,
        "a shard's empty ring must not displace a router's; every key would route nowhere");

    // A published view outranks any seed, whatever the versions say.
    let published = view(1, "aaa", vec![shard(0, 0, "http://b", &[])]);
    let mut router = router_seed.clone();
    assert_eq!(adopt(&mut router, published), Adoption::Adopted { from: 1, to: 1 });
    assert_eq!(router.shards[0].node_url, "http://b");
    assert!(!router.seeded, "once a decision arrives the node is no longer running on a guess");

    let mut decided = view(2, "n1", vec![shard(0, 0, "http://b", &[])]);
    assert_eq!(adopt(&mut decided, router_seed), Adoption::Stale { current: 2 },
        "a node restarting into its own config seed must not undo a published view");
}

fn join(url: &str) -> JoinRequest {
    JoinRequest {
        url: url.to_string(), node_id: None, role: None,
        shard_role: None, follows: None, voting: None,
    }
}

fn cluster_of(voters: &[&str]) -> ClusterMetadata {
    let mut v = view(1, "n1", vec![]);
    v.members = voters.iter().map(|u| Member {
        url: u.to_string(), node_id: None, role: "shard".into(),
        shard_role: None, voting: true, follows: None,
    }).collect();
    v
}

#[test]
fn a_node_joins_as_a_learner_and_the_quorum_set_is_untouched() {
    let current = cluster_of(&["http://n1", "http://n2", "http://n3"]);
    let next = plan_join(&current, "n1", "http://n1", &join("http://n4")).unwrap();

    assert_eq!(next.version, 2, "a membership change publishes a new version");
    assert!(!next.seeded, "a decision is not a guess");

    let added = next.member("http://n4").expect("the node must be in the view");
    assert!(!added.voting, "admitting a voter at runtime can split the quorum");
    assert_eq!(added.follows.as_deref(), Some("http://n1"), "defaults to the leader that admitted it");
    assert_eq!(added.shard_role.as_deref(), Some("replica"));

    let voters = next.members.iter().filter(|m| m.voting).count();
    assert_eq!(voters, 3, "the quorum set must be the same size as before the join");
    assert_eq!(next.learners_following("http://n1"), vec!["http://n4".to_string()]);
    assert!(next.is_learner("http://n4"));
    assert!(!next.is_learner("http://n2"));
}

#[test]
fn a_learner_belongs_to_the_group_it_named() {
    let current = cluster_of(&["http://a", "http://b"]);
    let mut req = join("http://new");
    req.follows = Some("http://b".into());
    let next = plan_join(&current, "a", "http://a", &req).unwrap();

    assert!(next.learners_following("http://a").is_empty(),
        "a leader must not ship frames to a learner catching up with another group");
    assert_eq!(next.learners_following("http://b"), vec!["http://new".to_string()]);
}

#[test]
fn only_replicas_may_name_a_primary() {
    let current = cluster_of(&["http://a", "http://b"]);
    let mut primary = join("http://new");
    primary.shard_role = Some("primary".into());
    primary.follows = Some("http://a".into());
    assert!(plan_join(&current, "a", "http://a", &primary).is_err());

    let mut router = join("http://router");
    router.role = Some("router".into());
    router.follows = Some("http://a".into());
    assert!(plan_join(&current, "a", "http://a", &router).is_err());

    let mut own_follower = join("http://new");
    own_follower.follows = Some("http://new".into());
    assert!(plan_join(&current, "a", "http://a", &own_follower).is_err());
}

#[test]
fn membership_changes_that_would_move_the_quorum_are_refused() {
    let current = cluster_of(&["http://n1", "http://n2", "http://n3"]);

    let mut voting = join("http://n4");
    voting.voting = Some(true);
    let err = plan_join(&current, "n1", "http://n1", &voting).unwrap_err();
    assert!(err.contains("/cluster/configuration"),
        "the refusal must name what would make it safe: {}", err);

    let err = plan_join(&current, "n1", "http://n1", &join("http://n2")).unwrap_err();
    assert!(err.contains("already a voting member"),
        "re-adding a voter as a learner would quietly drop it from the quorum: {}", err);

    let err = plan_join(&current, "n1", "http://n1", &join("http://n1")).unwrap_err();
    assert!(err.contains("itself"), "got: {}", err);

    let err = plan_leave(&current, "n1", "http://n2").unwrap_err();
    assert!(err.contains("demote it"), "got: {}", err);

    let err = plan_leave(&current, "n1", "http://nobody").unwrap_err();
    assert!(err.contains("not a member"), "got: {}", err);

    let mut odd = join("http://n4");
    odd.role = Some("coordinator".into());
    assert!(plan_join(&current, "n1", "http://n1", &odd).is_err());
    assert!(plan_join(&current, "n1", "http://n1", &join("  ")).is_err());

    assert_eq!(current.version, 1, "no refusal may have moved the view");
}

#[test]
fn a_learner_can_be_removed_again() {
    let current = cluster_of(&["http://n1", "http://n2"]);
    let joined = plan_join(&current, "n1", "http://n1", &join("http://n3")).unwrap();
    assert_eq!(joined.members.len(), 3);

    let left = plan_leave(&joined, "n1", "http://n3").unwrap();
    assert_eq!(left.version, 3, "each change is its own version");
    assert!(left.member("http://n3").is_none());
    assert!(left.learners_following("http://n1").is_empty());
    assert_eq!(left.members.iter().filter(|m| m.voting).count(), 2);
}

#[test]
fn re_joining_a_learner_updates_it_in_place() {
    let current = cluster_of(&["http://a", "http://b"]);
    let once = plan_join(&current, "a", "http://a", &join("http://c")).unwrap();

    let mut moved = join("http://c");
    moved.follows = Some("http://b".into());
    let twice = plan_join(&once, "a", "http://a", &moved).unwrap();

    assert_eq!(twice.members.len(), 3, "the same node must not appear twice: {:?}", twice.members);
    assert_eq!(twice.member("http://c").unwrap().follows.as_deref(), Some("http://b"));
    twice.validate().expect("a duplicate would have failed validation");
}

/// an unsorted cursor's positions only mean anything against the layout they were taken
/// against, so the fingerprint has to move when ownership moves and stay put when it does not.
#[test]
fn the_partition_fingerprint_tracks_ownership_and_nothing_else() {
    let range = |start: u64, end: u64, url: &str, replicas: Vec<&str>| ShardInfo {
        start_hash: start,
        end_hash: end,
        node_url: url.to_string(),
        replica_urls: replicas.into_iter().map(str::to_string).collect(),
    };
    let split = |at: u64, replicas: Vec<&str>| view(1, "t", vec![
        range(0, at, "http://a", replicas.clone()),
        range(at, 0, "http://b", Vec::new()),
    ]);

    let base = split(100, Vec::new()).partition_fingerprint();
    assert_eq!(split(100, Vec::new()).partition_fingerprint(), base, "the same layout twice");
    assert_eq!(split(100, vec!["http://r1"]).partition_fingerprint(), base,
        "a replica joining moves no key and must not invalidate a scan");
    assert_ne!(split(200, Vec::new()).partition_fingerprint(), base, "a moved boundary moves keys");

    let mut reordered = split(100, Vec::new());
    reordered.shards.reverse();
    assert_eq!(reordered.partition_fingerprint(), base, "the same ranges listed the other way");

    let mut renamed = split(100, Vec::new());
    renamed.shards[1].node_url = "http://c".to_string();
    assert_ne!(renamed.partition_fingerprint(), base, "a different owner for the same range");

    let mut trailing_slash = split(100, Vec::new());
    trailing_slash.shards[0].node_url = "http://a/".to_string();
    assert_eq!(trailing_slash.partition_fingerprint(), base, "endpoints, not raw URLs");

    let ringed = ClusterMetadata {
        ring: Some(HashRing { vnodes: 8, shards: vec![
            RingShard { node_url: "http://a".to_string(), replica_urls: Vec::new() },
        ]}),
        ..view(2, "t", Vec::new())
    };
    let mut migrating = ringed.clone();
    migrating.migration = Some(Migration {
        id: "m1".to_string(),
        target: HashRing { vnodes: 8, shards: vec![
            RingShard { node_url: "http://a".to_string(), replica_urls: Vec::new() },
            RingShard { node_url: "http://b".to_string(), replica_urls: Vec::new() },
        ]},
        started_by: "t".to_string(),
        phase: MigrationPhase::default(),
    });
    assert_ne!(migrating.partition_fingerprint(), ringed.partition_fingerprint(),
        "keys are moving while a handover is in flight");
}

#[test]
fn shard_owners_dedupes_a_node_that_owns_several_ranges() {
    let meta = view(1, "n1", vec![
        shard(0, 1000, "http://a", &["http://a2"]),
        shard(1000, HALF, "http://a", &["http://a2"]),
        shard(HALF, 0, "http://b", &["http://b2"]),
    ]);
    let owners = meta.shard_owners();
    assert_eq!(owners.len(), 2, "two nodes own the ring between them: {:?}", owners);
    assert_eq!(owners[0].0, "http://a");
    assert_eq!(owners[1].0, "http://b");
}

#[test]
fn a_committed_configuration_is_written_into_the_view() {
    let mut current = cluster_of(&["http://n1", "http://n2"]);
    current = plan_join(&current, "n1", "http://n1", &join("http://n3")).unwrap();
    let voters = vec!["http://n1".to_string(), "http://n3".to_string(), "http://n4".to_string()];
    let next = plan_configuration(&current, "n1", "http://n1", &voters).unwrap();
    assert_eq!(next.version, 3);
    assert_eq!(next.voting_shards(), voters, "demoted nodes stay as learners, and new voters are members");
    assert!(next.is_learner("http://n2"));
    assert_eq!(next.member("http://n2").unwrap().follows.as_deref(), Some("http://n1"));
    assert_eq!(next.member("http://n4").unwrap().shard_role.as_deref(), Some("replica"));
}

#[test]
fn a_ring_and_a_handover_are_each_a_new_version() {
    let current = view(4, "n1", vec![]);
    let ring = HashRing { vnodes: 8, shards: vec![RingShard { node_url: "http://a".to_string(), replica_urls: Vec::new() }] };
    let ringed = current.with_ring("op", ring.clone());
    assert_eq!((ringed.version, ringed.updated_by.as_str(), ringed.ring.as_ref()), (5, "op", Some(&ring)));
    let moving = ringed.with_migration("op", Some(Migration {
        id: "m1".to_string(), target: ring.clone(), started_by: "op".to_string(), phase: MigrationPhase::Copy,
    }));
    assert_eq!(moving.version, 6);
    assert!(moving.migration.is_some());
    assert!(moving.with_migration("op", None).migration.is_none());
}

#[test]
fn a_seed_gives_way_to_every_decision_whatever_the_versions() {
    let mut seed = view(9, "z", vec![]);
    seed.seeded = true;
    let decided = view(1, "a", vec![]);
    assert!(decided.supersedes(&seed), "a guess of any version loses");
    assert!(!seed.supersedes(&decided));
    let mut other = view(1, "b", vec![]);
    other.seeded = true;
    assert!(!seed.supersedes(&other) && !other.supersedes(&seed), "a seed wins against nothing");
}

#[test]
fn a_change_that_records_nothing_is_taken_at_the_last_version() {
    let mut v = view(4, "n1", vec![]);
    assert!(v.record_index_change("n1", "t", &created("i", "age")));
    let mut entry = v.index_catalog.remove("t").unwrap();
    entry.version = u64::MAX;
    v.index_catalog.insert("t".to_string(), entry);
    assert!(!v.record_index_change("n1", "t", &created("i", "age")), "the definition is there already");
    assert_eq!(v.index_catalog.get("t").unwrap().version, u64::MAX);
}
