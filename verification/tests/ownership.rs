use dewdb::cluster::metadata::{ClusterMetadata, Migration, MigrationPhase};
use dewdb::cluster::ownership::{classify, group_owner, group_owns, Ownership};
use dewdb::name_map::NameMap;
use dewdb::ring::{hash_key, HashRing, RingShard};

fn ring(entries: &[(&str, &[&str])]) -> HashRing {
    HashRing {
        vnodes: 128,
        shards: entries.iter().map(|(url, replicas)| RingShard {
            node_url: url.to_string(),
            replica_urls: replicas.iter().map(|r| r.to_string()).collect(),
        }).collect(),
    }
}

/// Builds the view's rings, then classifies against them.
fn classify_view(v: &ClusterMetadata, own_url: &str, col: &str, key: &str) -> Option<Ownership> {
    let built = v.ring.as_ref()?.build();
    let target = v.migration.as_ref().map(|m| m.target.build());
    classify(v, &built, target.as_ref(), own_url, col, key)
}

fn view(r: Option<HashRing>, migration: Option<HashRing>) -> ClusterMetadata {
    ClusterMetadata {
        version: 2,
        updated_by: "op".into(),
        seeded: false,
        members: Vec::new(),
        shards: Vec::new(),
        ring: r,
        migration: migration.map(|target| Migration {
            id: "m1".into(), target, started_by: "op".into(), phase: MigrationPhase::Copy,
        }),
        index_catalog: NameMap::new(),
    }
}

/// A key each of the two shards owns, so the cases below are about the rules and not about
/// which side of the ring a particular string happens to land on.
fn key_owned_by(r: &HashRing, url: &str) -> String {
    let built = r.build();
    (0..10_000)
        .map(|i| format!("k{}", i))
        .find(|k| built.owner(hash_key("t", k)).unwrap().node_url == url)
        .expect("the ring must give each shard some keys")
}

#[test]
fn a_node_dropped_from_the_ring_redirects_instead_of_answering() {
    let two = ring(&[("http://a", &[]), ("http://b", &[])]);
    let v = view(Some(two.clone()), None);
    let key = key_owned_by(&two, "http://a");

    // The shape a shard has just after a handover removed it: still holding data, no longer an
    // owner. Answering from here would serve a stale value or a 404 to a router behind the ring.
    assert_eq!(classify_view(&v, "http://departed", "t", &key),
        Some(Ownership::Elsewhere("http://a".into())));

    assert_eq!(classify_view(&view(None, None), "http://a", "t", "k1"), None,
        "a cluster with no ring has no ownership to enforce, and must not gain one");
}

#[test]
fn keys_are_accepted_by_their_owner_and_refused_elsewhere() {
    let two = ring(&[("http://a", &[]), ("http://b", &[])]);
    let mine = key_owned_by(&two, "http://a");
    let theirs = key_owned_by(&two, "http://b");
    let v = view(Some(two), None);

    assert_eq!(classify_view(&v, "http://a", "t", &mine), Some(Ownership::Ours));
    assert_eq!(classify_view(&v, "http://a", "t", &theirs),
        Some(Ownership::Elsewhere("http://b".into())),
        "the refusal must name where the caller should have gone");
    assert_eq!(classify_view(&v, "http://b", "t", &theirs), Some(Ownership::Ours));
}

#[test]
fn a_failed_over_replica_owns_what_its_group_owns() {
    let two = ring(&[("http://a", &["http://a2"]), ("http://b", &[])]);
    let mine = key_owned_by(&two, "http://a");
    let v = view(Some(two), None);

    assert_eq!(classify_view(&v, "http://a2", "t", &mine), Some(Ownership::Ours),
        "after a failover the node answering is a replica url; refusing there would take the \
         shard down for every key it legitimately owns");
}

#[test]
fn a_key_on_its_way_out_is_neither_ours_nor_elsewhere() {
    let two = ring(&[("http://a", &[]), ("http://b", &[])]);
    let three = ring(&[("http://a", &[]), ("http://b", &[]), ("http://c", &[])]);

    // A key that a owns now and c owns after the move.
    let built_now = two.build();
    let built_next = three.build();
    let moving = (0..10_000)
        .map(|i| format!("k{}", i))
        .find(|k| {
            let h = hash_key("t", k);
            built_now.owner(h).unwrap().node_url == "http://a"
                && built_next.owner(h).unwrap().node_url == "http://c"
        })
        .expect("adding a shard must take some of a's keys");

    let staying = (0..10_000)
        .map(|i| format!("k{}", i))
        .find(|k| {
            let h = hash_key("t", k);
            built_now.owner(h).unwrap().node_url == "http://a"
                && built_next.owner(h).unwrap().node_url == "http://a"
        })
        .expect("a must keep most of its keys");

    let mut v = view(Some(two), Some(three));
    assert_eq!(classify_view(&v, "http://a", "t", &moving), Some(Ownership::Ours),
        "bulk copying must not freeze foreground writes");

    v.migration.as_mut().unwrap().phase = MigrationPhase::Finalizing;
    assert_eq!(classify_view(&v, "http://a", "t", &moving),
        Some(Ownership::Moving { to: "http://c".into() }),
        "finalization must freeze writes before the last copy");
    assert_eq!(classify_view(&v, "http://a", "t", &staying), Some(Ownership::Ours),
        "a migration must not stall writes to keys it does not touch");
}

#[test]
fn a_node_belongs_to_the_group_that_names_it() {
    let two = ring(&[("http://a", &["http://a2"]), ("http://b", &[])]);
    let built = two.build();
    assert_eq!(group_owner(&built, "http://a2/").as_deref(), Some("http://a"));
    assert_eq!(group_owner(&built, "http://x"), None);
    let key = key_owned_by(&two, "http://b");
    assert!(group_owns(&built, "http://b", "t", &key));
    assert!(!group_owns(&built, "http://a", "t", &key));
}
