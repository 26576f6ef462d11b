use dewdb::cluster::metadata::{ClusterMetadata, Member};
use dewdb::cluster::rebalance::{
    desired_ring, is_coordinator, note_launch, rebalance_status_handler, rebalance_task, target_signature, Launch, Observed, RebalanceConfig,
    RebalanceStep,
};
use dewdb::cluster::router::{Body, Reply};
use dewdb::endpoint::same_endpoint;
use dewdb::json::Json;
use dewdb::name_map::NameMap;
use dewdb::ring::{HashRing, RingShard};
use dewdb::wire::read_json;

fn view() -> ClusterMetadata {
    ClusterMetadata {
        version: 4,
        updated_by: "n1".into(),
        seeded: false,
        members: vec![
            Member {
                url: "http://c".into(),
                node_id: None,
                role: "shard".into(),
                shard_role: Some("primary".into()),
                voting: false,
                follows: None,
            },
            Member {
                url: "http://a".into(),
                node_id: None,
                role: "shard".into(),
                shard_role: Some("primary".into()),
                voting: true,
                follows: None,
            },
            Member {
                url: "http://a2".into(),
                node_id: None,
                role: "shard".into(),
                shard_role: Some("replica".into()),
                voting: true,
                follows: None,
            },
            Member {
                url: "http://router".into(),
                node_id: None,
                role: "router".into(),
                shard_role: None,
                voting: false,
                follows: None,
            },
        ],
        shards: Vec::new(),
        ring: Some(HashRing {
            vnodes: 64,
            shards: vec![RingShard {
                node_url: "http://a".into(),
                replica_urls: vec!["http://a2".into()],
            }],
        }),
        migration: None,
        index_catalog: NameMap::new(),
    }
}

#[test]
fn membership_produces_a_stable_target_and_preserves_existing_replicas() {
    let target = desired_ring(&view()).unwrap().unwrap();
    assert_eq!(target.vnodes, 64);
    assert_eq!(
        target
            .shards
            .iter()
            .map(|s| s.node_url.as_str())
            .collect::<Vec<_>>(),
        vec!["http://a", "http://c"],
        "member order must not alter the derived ring"
    );
    assert_eq!(target.shards[0].replica_urls, vec!["http://a2"]);
    assert!(
        target.shards[1].replica_urls.is_empty(),
        "no placement is invented for a group that has none"
    );
}

#[test]
fn follower_affinity_moves_live_replicas_and_drops_departed_ones() {
    let mut view = view();
    view.ring.as_mut().unwrap().shards[0].replica_urls = vec![
        "http://a2".into(),
        "http://gone".into(),
    ];
    view.members
        .iter_mut()
        .find(|member| same_endpoint(&member.url, "http://a2"))
        .unwrap()
        .follows = Some("http://c".into());
    view.members.push(Member {
        url: "http://a3".into(),
        node_id: None,
        role: "shard".into(),
        shard_role: Some("replica".into()),
        voting: false,
        follows: Some("http://a".into()),
    });

    let target = desired_ring(&view).unwrap().unwrap();
    assert_eq!(target.shards[0].node_url, "http://a");
    assert_eq!(target.shards[0].replica_urls, vec!["http://a3"]);
    assert_eq!(target.shards[1].node_url, "http://c");
    assert_eq!(target.shards[1].replica_urls, vec!["http://a2"]);
}

#[test]
fn no_ring_is_a_noop_and_no_primary_is_refused() {
    let mut v = view();
    v.ring = None;
    assert!(desired_ring(&v).unwrap().is_none());

    v.ring = view().ring;
    v.members
        .retain(|m| m.shard_role.as_deref() != Some("primary"));
    assert!(
        desired_ring(&v).unwrap_err().contains("at least one"),
        "an incomplete membership list must not automatically empty the ring"
    );
}

#[test]
fn config_is_opt_in_and_rejects_a_spinning_scheduler() {
    let default = RebalanceConfig::default();
    assert!(!default.enabled);
    assert!(default.validate().is_ok());

    let bad = RebalanceConfig {
        enabled: true,
        interval_secs: 0,
        stabilization_secs: 0,
    };
    assert!(bad.validate().is_err());
}


const SEC: u64 = 1_000_000_000;

#[test]
fn a_target_has_to_stand_still_before_a_handover_begins() {
    let v = view();
    let mut seen = None;
    let step = |seen: &mut Option<Observed>, now: u64| rebalance_task(true, &v, "http://a", seen, now, 30 * SEC);

    assert!(matches!(rebalance_task(false, &v, "http://a", &mut seen, 0, 30 * SEC), RebalanceStep::Idle));
    assert!(matches!(step(&mut seen, 100 * SEC), RebalanceStep::Observing));
    assert!(matches!(step(&mut seen, 129 * SEC), RebalanceStep::Observing));
    assert!(seen.is_some());
    match step(&mut seen, 130 * SEC) {
        RebalanceStep::Begin(ring) => assert_eq!(ring.shards.len(), 2),
        _ => panic!("a stable target starts a handover"),
    }
    assert!(matches!(rebalance_task(true, &v, "http://c", &mut seen, 130 * SEC, 30 * SEC), RebalanceStep::NotOurs));

    note_launch(&mut seen, Launch::Refused);
    assert!(matches!(step(&mut seen, 131 * SEC), RebalanceStep::Begin(_)), "a handover that was refused is tried again");
    for launch in [Launch::Started, Launch::Applied] {
        let mut fresh = None;
        assert!(matches!(step(&mut fresh, 100 * SEC), RebalanceStep::Observing));
        note_launch(&mut fresh, launch);
        assert!(fresh.is_none());
        assert!(matches!(step(&mut fresh, 140 * SEC), RebalanceStep::Observing), "it is watched from the start again");
    }

    let mut balanced = view();
    balanced.ring = desired_ring(&balanced).unwrap();
    assert!(matches!(rebalance_task(true, &balanced, "http://a", &mut seen, 131 * SEC, 30 * SEC), RebalanceStep::Balanced));
    assert!(seen.is_none(), "a balanced ring forgets what was being watched");
}

#[test]
fn the_group_with_the_lowest_endpoint_coordinates() {
    let v = view();
    assert!(is_coordinator("http://a", &v));
    assert!(is_coordinator("http://a2/", &v), "a replica may be the one leading");
    assert!(!is_coordinator("http://c", &v));
    let mut none = view();
    none.ring = None;
    assert!(!is_coordinator("http://a", &none));
}

#[test]
fn a_signature_is_of_endpoints() {
    let ring = HashRing {
        vnodes: 8,
        shards: vec![RingShard { node_url: "http://a/".into(), replica_urls: vec!["http://b".into()] }],
    };
    assert_eq!(target_signature(&ring), vec![("a".to_string(), vec!["b".to_string()])]);
}

fn body(reply: Reply) -> Json {
    match reply.body {
        Body::Json(j) => j,
        Body::Text(t) => panic!("not JSON: {}", t),
    }
}

#[test]
fn the_status_reports_both_rings() {
    let v = view();
    let cfg = RebalanceConfig::default();
    let reply = rebalance_status_handler(&v, "http://a", &cfg, None);
    assert_eq!(reply.status, 200);
    assert_eq!(
        body(reply),
        read_json(r#"{
            "enabled": false, "interval_secs": 10, "stabilization_secs": 30, "coordinator": true, "in_progress": false,
            "balanced": false, "current_shards": ["http://a"], "desired_shards": ["http://a", "http://c"],
            "current_replica_placements": [{"primary": "http://a", "replicas": ["http://a2"]}],
            "desired_replica_placements": [
                {"primary": "http://a", "replicas": ["http://a2"]}, {"primary": "http://c", "replicas": []}],
            "moved_fraction": null, "transfers": null
        }"#).unwrap()
    );

    let mut none = view();
    none.members.clear();
    let refused = rebalance_status_handler(&none, "http://a", &cfg, None);
    assert_eq!(refused.status, 409);
    assert_eq!(
        body(refused),
        read_json(r#"{"enabled": false,
            "error": "automatic rebalancing needs at least one member with shard_role 'primary'"}"#).unwrap()
    );
}

#[test]
fn the_order_of_the_members_decides_nothing() {
    let v = view();
    let mut turned = view();
    turned.members.reverse();
    assert_eq!(desired_ring(&v), desired_ring(&turned));
}
