use dewdb::cluster::catalog::{
    accept_view, describe, diff, gossip_catalog, gossip_targets, hand_back, reconcile_local_indexes, Heard,
};
use dewdb::cluster::indexes::{copy_catalog, CollectionIndexes, IndexChange, IndexSpec};
use dewdb::cluster::metadata::{ClusterMetadata, Member};
use dewdb::name_map::NameMap;
use dewdb::ring::{HashRing, RingShard};

fn spec(name: &str, field: &str) -> IndexSpec {
    IndexSpec { name: name.to_string(), field: field.to_string() }
}

#[test]
fn a_group_holding_what_the_catalogue_names_has_nothing_to_do() {
    let want = vec![spec("a", "x"), spec("b", "y")];
    let (create, drop) = diff(&want, &[spec("b", "y"), spec("a", "x")]);
    assert!(create.is_empty(), "order is not a difference");
    assert!(drop.is_empty());
}

#[test]
fn a_group_that_missed_a_definition_appends_it_and_one_that_missed_a_drop_removes_it() {
    let (create, drop) = diff(&[spec("a", "x")], &[]);
    assert_eq!(create, vec![spec("a", "x")]);
    assert!(drop.is_empty());

    let (create, drop) = diff(&[], &[spec("a", "x")]);
    assert!(create.is_empty());
    assert_eq!(drop, vec!["a".to_string()]);
}

/// A create on an existing name replaces it, so the same name over a different field is a
/// definition this group does not have -- not one it already holds.
#[test]
fn a_redefinition_elsewhere_is_a_create_here() {
    let (create, drop) = diff(&[spec("a", "score")], &[spec("a", "age")]);
    assert_eq!(create, vec![spec("a", "score")]);
    assert!(drop.is_empty(), "the create replaces it; dropping it first would lose the name");
}


#[test]
fn a_leader_appends_what_is_missing_before_it_drops_what_is_surplus() {
    let entry = CollectionIndexes { version: 3, updated_by: "n1".into(), indexes: vec![spec("a", "x"), spec("b", "y")] };
    let have = vec![spec("b", "y"), spec("c", "z")];
    assert_eq!(
        reconcile_local_indexes(true, "users", &entry, Some(&have)),
        vec![IndexChange::Create { spec: spec("a", "x") }, IndexChange::Drop { name: "c".into() }]
    );
    assert!(reconcile_local_indexes(false, "users", &entry, Some(&have)).is_empty(), "only the leader appends");
    assert!(reconcile_local_indexes(true, "_config", &entry, Some(&have)).is_empty());
    assert!(reconcile_local_indexes(true, "users", &entry, None).is_empty(), "a collection it does not hold");
}

#[test]
fn a_change_is_described_by_what_it_does() {
    assert_eq!(describe(&IndexChange::Create { spec: spec("by_age", "age") }), "create by_age on age");
    assert_eq!(describe(&IndexChange::Drop { name: "by_age".into() }), "drop by_age");
}

fn member(url: &str) -> Member {
    Member { url: url.into(), node_id: None, role: "shard".into(), shard_role: None, voting: true, follows: None }
}

fn view(version: u64, by: &str) -> ClusterMetadata {
    ClusterMetadata {
        version,
        updated_by: by.to_string(),
        seeded: false,
        members: Vec::new(),
        shards: Vec::new(),
        ring: None,
        migration: None,
        index_catalog: NameMap::new(),
    }
}

#[test]
fn gossip_reaches_every_node_once_and_never_itself() {
    let group = |url: &str, replicas: &[&str]| RingShard {
        node_url: url.to_string(),
        replica_urls: replicas.iter().map(|r| r.to_string()).collect(),
    };
    let mut v = view(1, "n1");
    v.members = vec![member("http://b"), member("http://d")];
    v.ring = Some(HashRing { vnodes: 4, shards: vec![group("http://a", &["http://b"]), group("http://c", &["http://c2"])] });
    let mut overrides = NameMap::new();
    assert_eq!(gossip_targets(&v, &overrides, "http://a/"), vec!["http://b", "http://d", "http://c", "http://c2"]);
    overrides.insert("http://c".to_string(), "http://c2".to_string());
    assert_eq!(gossip_targets(&v, &overrides, "http://a/"), vec!["http://b", "http://d", "http://c2"],
        "a group is asked at who is taken for its primary now");
}

#[test]
fn a_round_takes_every_definition_and_adopts_the_best_view() {
    let mut catalog = NameMap::new();
    let ours = view(4, "n1");
    let mut first = view(5, "n2");
    first.record_index_change("n2", "users", &IndexChange::Create { spec: spec("i", "age") });
    let mut second = view(9, "n3");
    second.record_index_change("n3", "orders", &IndexChange::Create { spec: spec("j", "total") });
    let third = view(2, "n4");
    let heard = vec![
        Heard { target: "http://n2".into(), view: first },
        Heard { target: "http://n3".into(), view: second },
        Heard { target: "http://n4".into(), view: third },
    ];
    let round = gossip_catalog(&mut catalog, &ours.view_id(), &heard);
    assert!(round.moved);
    assert_eq!(round.winner, Some(1));
    assert_eq!(catalog.len(), 2);
    let again = gossip_catalog(&mut catalog, &view(9, "n3").view_id(), &heard);
    assert!(!again.moved, "a second round has nothing to hand over");
    assert_eq!(again.winner, None);

    let mut held = view(9, "n3");
    held.index_catalog = copy_catalog(&catalog);
    assert_eq!(
        hand_back(&heard, &again.fingerprints, held.catalog_fingerprint()),
        vec!["http://n2", "http://n3", "http://n4"],
        "none of them holds both definitions"
    );
    assert!(accept_view(Some(view(0, "n1"))).is_none(), "an invalid view is not heard");
    assert_eq!(accept_view(Some(view(3, "n1"))).unwrap().version, 3);
}
