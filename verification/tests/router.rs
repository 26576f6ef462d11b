use dewdb::cluster::fanout::merge_index_listings;
use dewdb::cluster::router::{
    authoritative_write_status, forwarded_read_pref, parse_read_pref, read_targets, ReadPreference,
};
use dewdb::cluster::scan::shard_shares;
use dewdb::json::Json;
use dewdb::metrics::NodeLoad;
use dewdb::name_map::NameMap;
use dewdb::wire::read_json;

fn loads_of(pairs: &[(&str, NodeLoad)]) -> NameMap<NodeLoad> {
    let mut m = NameMap::new();
    for (n, l) in pairs {
        m.insert(n.to_string(), *l);
    }
    m
}

fn no_loads() -> NameMap<NodeLoad> {
    NameMap::new()
}

/// Shares that sum to `limit` make the trim unnecessary, which is the
/// point: a trimmed row is stranded behind the cursor its shard already returned.
#[test]
fn shard_shares_sum_to_the_limit() {
    assert_eq!(shard_shares(10, 3), vec![4, 3, 3], "ten over three, not four each");
    assert_eq!(shard_shares(9, 3), vec![3, 3, 3]);
    assert_eq!(shard_shares(100, 1), vec![100]);
    assert_eq!(shard_shares(5, 0), Vec::<usize>::new(), "no shards is a division by zero otherwise");

    // Fewer rows than shards: the tail gets nothing this page and is carried to the next.
    assert_eq!(shard_shares(1, 3), vec![1, 0, 0]);
    assert_eq!(shard_shares(2, 3), vec![1, 1, 0]);
    assert_eq!(shard_shares(0, 3), vec![0, 0, 0]);

    for (limit, shards) in [(10, 3), (1, 8), (7, 7), (0, 4), (usize::MAX, 4), (usize::MAX, 1)] {
        let shares = shard_shares(limit, shards);
        assert_eq!(shares.len(), shards);
        assert_eq!(shares.iter().fold(0usize, |a, s| a.saturating_add(*s)), limit,
            "{} rows over {} shards", limit, shards);
        assert!(shares.iter().max().unwrap_or(&0) - shares.iter().min().unwrap_or(&0) <= 1,
            "shares differ by at most one row");
    }
}

#[test]
fn read_targets_primary_prefers_leader() {
    let replicas = vec!["http://r1".to_string(), "http://r2".to_string()];
    let t = read_targets(&ReadPreference::Primary, "http://p", &replicas, 0, &no_loads());
    assert_eq!(t, vec!["http://p", "http://r1", "http://r2"]);
}

#[test]
fn read_targets_replica_prefers_replicas_and_spreads() {
    let replicas = vec!["http://r1".to_string(), "http://r2".to_string()];

    let t0 = read_targets(&ReadPreference::Replica, "http://p", &replicas, 0, &no_loads());
    assert_eq!(t0, vec!["http://r1", "http://r2", "http://p"]);

    let t1 = read_targets(&ReadPreference::Replica, "http://p", &replicas, 1, &no_loads());
    assert_eq!(t1, vec!["http://r2", "http://r1", "http://p"], "round-robin rotates the starting replica");

    let t2 = read_targets(&ReadPreference::Replica, "http://p", &replicas, 2, &no_loads());
    assert_eq!(t2, vec!["http://r1", "http://r2", "http://p"], "rotation wraps");
}

#[test]
fn read_targets_replica_falls_back_to_primary_when_no_replicas() {
    let t = read_targets(&ReadPreference::Replica, "http://p", &[], 0, &no_loads());
    assert_eq!(t, vec!["http://p"]);
}

#[test]
fn read_targets_dedupes_when_override_points_at_a_replica() {
    let replicas = vec!["http://r1".to_string(), "http://r2".to_string()];
    let t = read_targets(&ReadPreference::Primary, "http://r1", &replicas, 0, &no_loads());
    assert_eq!(t, vec!["http://r1", "http://r2"], "promoted replica isn't tried twice");
}

#[test]
fn replica_reads_prefer_the_lowest_estimated_queue_time() {
    let replicas = vec!["http://busy".to_string(), "http://slow".to_string(), "http://free".to_string()];
    let loads = loads_of(&[
        ("busy", NodeLoad { inflight: 8, latency_ewma_us: 1_000 }),
        ("slow", NodeLoad { inflight: 0, latency_ewma_us: 20_000 }),
        ("free", NodeLoad { inflight: 0, latency_ewma_us: 2_000 }),
    ]);

    let targets = read_targets(&ReadPreference::Replica, "http://p", &replicas, 0, &loads);
    assert_eq!(targets, vec!["http://free", "http://busy", "http://slow", "http://p"]);
}

#[test]
fn telemetry_ties_still_rotate() {
    let replicas = vec!["http://r1".to_string(), "http://r2".to_string()];
    let loads = loads_of(&[
        ("r1", NodeLoad { inflight: 1, latency_ewma_us: 1_000 }),
        ("r2", NodeLoad { inflight: 1, latency_ewma_us: 1_000 }),
    ]);

    assert_eq!(
        read_targets(&ReadPreference::Replica, "http://p", &replicas, 1, &loads),
        vec!["http://r2", "http://r1", "http://p"],
    );
}

#[test]
fn a_cold_replica_uses_the_groups_measured_latency() {
    let replicas = vec!["http://warm".to_string(), "http://cold".to_string()];
    let loads = loads_of(&[
        ("warm", NodeLoad { inflight: 0, latency_ewma_us: 2_000 }),
        ("cold", NodeLoad { inflight: 0, latency_ewma_us: 0 }),
    ]);

    assert_eq!(
        read_targets(&ReadPreference::Replica, "http://p", &replicas, 1, &loads),
        vec!["http://cold", "http://warm", "http://p"],
    );
}

/// An unasked-for preference and an explicit `primary` are not the same value.
#[test]
fn a_read_preference_is_distinguishable_from_no_preference() {
    assert!(matches!(parse_read_pref(None), Ok(ReadPreference::Any)));
    assert!(matches!(parse_read_pref(Some("primary")), Ok(ReadPreference::Primary)));
    assert!(matches!(parse_read_pref(Some("quorum")), Ok(ReadPreference::Quorum)));
    assert!(matches!(parse_read_pref(Some("replica")), Ok(ReadPreference::Replica)));
    assert!(matches!(parse_read_pref(Some("garbage")), Err(ref e) if e.contains("quorum")),
        "the error has to name every preference, or a client cannot discover this one");

    assert!(parse_read_pref(Some("garbage")).is_err());
    assert!(parse_read_pref(Some("Primary")).is_err());
    assert!(parse_read_pref(Some("")).is_err());
}

#[test]
fn only_an_explicit_primary_read_is_forwarded_for_enforcement() {
    assert_eq!(forwarded_read_pref(&ReadPreference::Primary), Some("primary"));
    assert_eq!(forwarded_read_pref(&ReadPreference::Any), None, "no preference forwards nothing");
    assert_eq!(forwarded_read_pref(&ReadPreference::Replica), None);
}

/// A promoted replica has to be findable either way; each candidate is asked to prove it leads
/// before its answer is used.
#[test]
fn read_targets_no_preference_matches_primary_preferred_order() {
    let replicas = vec!["http://r1".to_string(), "http://r2".to_string()];
    assert_eq!(
        read_targets(&ReadPreference::Any, "http://p", &replicas, 0, &no_loads()),
        read_targets(&ReadPreference::Primary, "http://p", &replicas, 0, &no_loads()),
    );
}

#[test]
fn router_treats_client_errors_as_authoritative() {
    assert!(authoritative_write_status(200));
    assert!(authoritative_write_status(201));
    assert!(authoritative_write_status(202));
    assert!(authoritative_write_status(404), "a PATCH 404 must not trigger shard failover");
    assert!(authoritative_write_status(400));

    assert!(!authoritative_write_status(403), "a replica rejecting writes must trigger failover");
    assert!(!authoritative_write_status(500));
    assert!(!authoritative_write_status(502));
    assert!(!authoritative_write_status(503));
}

fn json(text: &str) -> Json {
    read_json(text).unwrap()
}

fn listing(rows: Vec<String>) -> (u16, Json) {
    (200, json(&format!("{{\"indexes\": [{}]}}", rows.join(","))))
}

fn row(name: &str, state: &str, documents: u64) -> String {
    format!("{{\"name\": \"{}\", \"field\": \"age\", \"state\": \"{}\", \"documents\": {}, \"values\": 1}}", name, state, documents)
}

#[test]
fn a_cluster_wide_listing_sums_the_groups_and_takes_the_weaker_state() {
    let merged = merge_index_listings(&vec![
        listing(vec![row("i", "ready", 10)]),
        listing(vec![row("i", "building", 4)]),
    ]).expect("both groups answered");

    assert_eq!(merged.len(), 1);
    assert_eq!(merged[0].get("documents").and_then(|d| d.as_u64()), Some(14));
    assert_eq!(merged[0].get("state").and_then(|s| s.as_str()), Some("building"),
        "a query only uses the index on the group that finished building it");
}

/// A group that gained the collection after the index was
/// defined has no definition at all, and a listing that called that "ready" would report a
/// cluster-wide index while half the fan-out was still scanning.
#[test]
fn an_index_a_group_has_not_got_yet_reads_as_building() {
    let merged = merge_index_listings(&vec![
        listing(vec![row("i", "ready", 10)]),
        listing(vec![]),
    ]).expect("both groups answered");

    assert_eq!(merged.len(), 1);
    assert_eq!(merged[0].get("state").and_then(|s| s.as_str()), Some("building"));
}

#[test]
fn a_group_holding_none_of_the_collection_is_not_a_group_that_lacks_the_index() {
    let merged = merge_index_listings(&vec![
        listing(vec![row("i", "ready", 10)]),
        (404, Json::Null),
    ]).expect("one group answered");
    assert_eq!(merged[0].get("state").and_then(|s| s.as_str()), Some("ready"));

    assert!(merge_index_listings(&vec![
        (404, Json::Null),
    ]).is_none(), "nowhere at all is the client's error");
}
