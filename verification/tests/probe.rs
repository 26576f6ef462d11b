use dewdb::cluster::metadata::ViewId;
use dewdb::cluster::probe::{
    best_cluster_source, parse_probe, parse_view_id, probe_targets, round_targets, router_probe_task, select_primary, OverrideStep,
    Probe, ProbeGroup,
};
use dewdb::json::Json;
use dewdb::metrics::NodeLoad;
use dewdb::wire::read_json;

fn json(text: &str) -> Json {
    read_json(text).unwrap()
}

fn probe(url: &str, role: &str, term: u64) -> (String, Option<Probe>) {
    (url.to_string(), Some(Probe {
        role: role.to_string(), term, cluster: ViewId::default(), load: None,
    }))
}

fn id(version: u64, updated_by: &str) -> ViewId {
    ViewId { version, updated_by: Some(updated_by.to_string()), seeded: false }
}

fn at_version(url: &str, cluster_version: u64) -> (String, Option<Probe>) {
    published(url, cluster_version, "op")
}

fn published(url: &str, version: u64, updated_by: &str) -> (String, Option<Probe>) {
    (url.to_string(), Some(Probe {
        role: "replica".to_string(), term: 1, cluster: id(version, updated_by), load: None,
    }))
}

#[test]
fn select_primary_picks_the_reachable_leader() {
    let probes = vec![
        probe("http://a", "replica", 5),
        probe("http://b", "primary", 5),
        probe("http://c", "replica", 5),
    ];
    assert_eq!(select_primary(&probes).as_deref(), Some("http://b"));
}

#[test]
fn select_primary_prefers_highest_term_on_split() {
    let probes = vec![
        probe("http://old", "primary", 4),
        probe("http://new", "primary", 6),
    ];
    assert_eq!(select_primary(&probes).as_deref(), Some("http://new"));
}

#[test]
fn select_primary_none_when_no_leader() {
    let probes = vec![
        probe("http://a", "replica", 5),
        ("http://b".to_string(), None),
    ];
    assert_eq!(select_primary(&probes), None);
}

#[test]
fn the_cluster_view_is_pulled_from_whoever_is_furthest_ahead() {
    let probes = vec![
        at_version("http://a", 4),
        at_version("http://b", 9),
        at_version("http://c", 7),
        ("http://down".to_string(), None),
    ];
    assert_eq!(best_cluster_source(&probes, &id(4, "op")).as_deref(), Some("http://b"),
        "a replica may hear an update before the primary this router is talking to");

    assert_eq!(best_cluster_source(&probes, &id(9, "op")), None,
        "already current: probing must not turn into a fetch every three seconds");
    assert_eq!(best_cluster_source(&probes, &id(20, "op")), None, "ahead of every peer");
    assert_eq!(best_cluster_source(&[], &id(0, "op")), None);
}

/// Adoption orders views by `(version, updated_by)`, and so does this gate: otherwise two nodes holding conflicting equal-version views would have no poll that fetches the winner.
#[test]
fn an_equal_version_conflict_is_fetched_and_converges_one_way() {
    let peers = vec![published("http://bravo", 5, "bravo")];
    assert_eq!(best_cluster_source(&peers, &id(5, "alpha")).as_deref(), Some("http://bravo"),
        "the tiebreak winner at the same version is exactly the view this node is missing");

    // The loser is not fetched back, so the two do not trade views forever.
    let winner = vec![published("http://alpha", 5, "alpha")];
    assert_eq!(best_cluster_source(&winner, &id(5, "bravo")), None);
    assert_eq!(best_cluster_source(&peers, &id(5, "bravo")), None, "already converged");

    // A higher version still outranks a tiebreak; the order is lexicographic on the pair.
    let mixed = vec![published("http://old", 6, "zulu"), published("http://new", 7, "alpha")];
    assert_eq!(best_cluster_source(&mixed, &id(5, "alpha")).as_deref(), Some("http://new"));
}

/// A seed loses to everything, so a node still on its config seed must fetch a real view
/// published at the same version rather than sit on the seed forever.
#[test]
fn a_seeded_view_is_replaced_by_a_published_one_at_the_same_version() {
    let seeded = ViewId { version: 1, updated_by: Some("n1".into()), seeded: true };
    let peers = vec![published("http://router", 1, "op")];
    assert_eq!(best_cluster_source(&peers, &seeded).as_deref(), Some("http://router"));

    let peer_seeded = vec![(
        "http://shard".to_string(),
        Some(Probe { role: "replica".into(), term: 1, cluster: seeded.clone(), load: None }),
    )];
    assert_eq!(best_cluster_source(&peer_seeded, &id(1, "op")), None,
        "a seed wins against nothing; adopting one would route every key nowhere");
}

/// The tiebreak rides in the heartbeat, so a peer that predates it must not be read as
/// advertising an empty `updated_by` that loses every comparison it should not enter.
#[test]
fn a_peer_that_does_not_advertise_the_tiebreak_falls_back_to_the_version() {
    let old = json(r#"{"role": "replica", "term": 2, "cluster_version": 7}"#);
    let advertised = parse_view_id(&old);
    assert_eq!(advertised.updated_by, None);
    assert!(!advertised.seeded);

    assert!(advertised.supersedes(&id(6, "zulu")), "a higher version still moves this node");
    assert!(!advertised.supersedes(&id(7, "alpha")),
        "an unorderable equal version is not a win: half-upgraded behaves as before");

    let current = json(r#"{ "role": "replica", "term": 2, "cluster_version": 7, "cluster_updated_by": "bravo", "cluster_seeded": false}"#);
    assert!(parse_view_id(&current).supersedes(&id(7, "alpha")));
}

#[test]
fn heartbeat_load_is_optional_during_a_rolling_upgrade() {
    let old = json(r#"{"role": "replica", "term": 2, "cluster_version": 7}"#);
    assert!(parse_probe(&old).unwrap().load.is_none());

    let current = json(r#"{ "role": "replica", "term": 2, "cluster_version": 7, "load": {"inflight": 3, "latency_ewma_us": 4500}}"#);
    assert_eq!(
        parse_probe(&current).unwrap().load,
        Some(NodeLoad { inflight: 3, latency_ewma_us: 4_500 }),
    );
}

#[test]
fn a_round_of_probes_moves_loads_overrides_and_the_view() {
    let groups = vec![
        ProbeGroup { original: "http://a".into(), replicas: vec!["http://b".into()], effective: "http://a".into() },
        ProbeGroup { original: "http://c".into(), replicas: vec![], effective: "http://d".into() },
        ProbeGroup { original: "http://e".into(), replicas: vec![], effective: "http://e".into() },
    ];
    assert_eq!(round_targets(&groups), vec!["http://a", "http://b", "http://c", "http://d", "http://e"]);
    let mut probes = vec![
        probe("http://a", "replica", 3),
        probe("http://b", "primary", 4),
        probe("http://c", "primary", 9),
        probe("http://d", "primary", 8),
        ("http://e".to_string(), None),
    ];
    probes[1].1 = Some(Probe {
        role: "primary".into(), term: 4, cluster: id(7, "op"), load: Some(NodeLoad { inflight: 2, latency_ewma_us: 9 }),
    });
    let round = router_probe_task(&groups, &probes, &id(5, "op"));
    assert_eq!(round.overrides, vec![OverrideStep::Point("http://b".into()), OverrideStep::Clear, OverrideStep::Keep]);
    assert_eq!(round.loads[0], None);
    assert_eq!(round.loads[1], Some(NodeLoad { inflight: 2, latency_ewma_us: 9 }));
    assert_eq!(round.fetch_from.as_deref(), Some("http://b"));
}

#[test]
fn a_groups_nodes_are_asked_once_each() {
    assert_eq!(
        probe_targets("http://a", &["http://b".to_string(), "http://a".to_string()]),
        vec!["http://a", "http://b"]
    );
}

#[test]
fn an_answer_without_a_role_is_no_answer() {
    assert_eq!(parse_probe(&json(r#"{"term": 2}"#)), None);
    assert_eq!(parse_probe(&json("[1]")), None);
}
