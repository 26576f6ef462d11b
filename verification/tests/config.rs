use dewdb::config::{config_warnings, normalize_self_url, FlowControlConfig, NodeConfig};
use dewdb::ring::{HashRing, RingShard, ShardInfo};

/// The settings in a file, each left out one at its default.
fn parse(text: &str) -> NodeConfig {
    let v: serde_json::Value = serde_json::from_str(text).unwrap();
    let text_of = |k: &str| v.get(k).and_then(|s| s.as_str()).map(|s| s.to_string());
    let texts_of = |x: Option<&serde_json::Value>| -> Vec<String> {
        x.and_then(|l| l.as_array()).map(|l| l.iter().map(|s| s.as_str().unwrap().to_string()).collect()).unwrap_or_default()
    };
    let mut c = NodeConfig::with_defaults(&text_of("node_id").unwrap(), &text_of("role").unwrap(), &text_of("listen_addr").unwrap());
    c.shard_role = text_of("shard_role");
    c.primary_addr = text_of("primary_addr");
    if let Some(m) = text_of("membership_mode") {
        c.membership_mode = m;
    }
    if let Some(d) = text_of("data_dir") {
        c.data_dir = d;
    }
    if let Some(n) = v.get("heartbeat_timeout_secs").and_then(|n| n.as_u64()) {
        c.heartbeat_timeout_secs = n;
    }
    c.replicas = texts_of(v.get("replicas"));
    c.peers = texts_of(v.get("peers"));
    for s in v.get("shard_map").and_then(|m| m.as_array()).into_iter().flatten() {
        c.shard_map.push(ShardInfo {
            start_hash: s.get("start_hash").and_then(|n| n.as_u64()).unwrap(),
            end_hash: s.get("end_hash").and_then(|n| n.as_u64()).unwrap(),
            node_url: s.get("node_url").and_then(|u| u.as_str()).unwrap().to_string(),
            replica_urls: texts_of(s.get("replica_urls")),
        });
    }
    c
}

fn warn_cfg(json: &str) -> Vec<String> {
    config_warnings(&parse(json))
}

fn validate(c: &NodeConfig) -> Result<(), String> {
    c.validate(Ok(()))
}

/// Nothing downstream matches a third role, so `db` stays `None`, the public routes are
/// registered anyway, and the first read unwraps it.
#[test]
fn an_unknown_role_fails_at_boot_instead_of_on_the_first_read() {
    let cfg = parse(r#"{"node_id":"n1","role":"shrad","listen_addr":"127.0.0.1:9602"}"#);
    assert!(validate(&cfg).unwrap_err().contains("role"), "an unknown role validated");

    let bad_shard_role = parse(r#"{"node_id":"n1","role":"shard","listen_addr":"127.0.0.1:9603",
        "shard_role":"leader"}"#);
    assert!(validate(&bad_shard_role).unwrap_err().contains("shard_role"));

    let ok = parse(r#"{"node_id":"n1","role":"shard","listen_addr":"127.0.0.1:9604",
        "shard_role":"primary"}"#);
    assert!(validate(&ok).is_ok());
}

#[test]
fn warns_when_peers_includes_this_node() {
    let w = warn_cfg(r#"{"node_id":"n1","role":"shard","listen_addr":"127.0.0.1:9501",
        "peers":["http://127.0.0.1:9501","http://127.0.0.1:9502"]}"#);
    assert!(w.iter().any(|m| m.contains("own address")), "got {:?}", w);

    let clean = warn_cfg(r#"{"node_id":"n1","role":"shard","listen_addr":"127.0.0.1:9501",
        "peers":["http://127.0.0.1:9502"]}"#);
    assert!(!clean.iter().any(|m| m.contains("own address")), "got {:?}", clean);
}

#[test]
fn warns_when_replicas_and_peers_disagree() {
    let w = warn_cfg(r#"{"node_id":"n1","role":"shard","listen_addr":"127.0.0.1:9501",
        "replicas":["http://127.0.0.1:9502"],"peers":["http://127.0.0.1:9503"]}"#);
    assert!(w.iter().any(|m| m.contains("9502") && m.contains("cannot vote")), "got {:?}", w);

    let orphaned = warn_cfg(r#"{"node_id":"n1","role":"shard","listen_addr":"127.0.0.1:9501",
        "replicas":["http://127.0.0.1:9502"]}"#);
    assert!(orphaned.iter().any(|m| m.contains("peers is empty")), "got {:?}", orphaned);

    let dup = warn_cfg(r#"{"node_id":"n1","role":"shard","listen_addr":"127.0.0.1:9501",
        "replicas":["http://127.0.0.1:9502","http://127.0.0.1:9502"],
        "peers":["http://127.0.0.1:9502"]}"#);
    assert!(dup.iter().any(|m| m.contains("more than once")), "got {:?}", dup);
}

#[test]
fn warns_when_a_replica_never_appears_in_the_shard_map_consistently() {
    let w = warn_cfg(r#"{"node_id":"r","role":"router","listen_addr":"127.0.0.1:9500",
        "shard_map":[
          {"start_hash":0,"end_hash":9223372036854775808,"node_url":"http://a","replica_urls":["http://x"]},
          {"start_hash":9223372036854775808,"end_hash":0,"node_url":"http://a","replica_urls":["http://y"]}]}"#);
    assert!(w.iter().any(|m| m.contains("different replica_urls")), "got {:?}", w);

    let cross = warn_cfg(r#"{"node_id":"r","role":"router","listen_addr":"127.0.0.1:9500",
        "shard_map":[
          {"start_hash":0,"end_hash":9223372036854775808,"node_url":"http://a","replica_urls":["http://b"]},
          {"start_hash":9223372036854775808,"end_hash":0,"node_url":"http://b","replica_urls":["http://a"]}]}"#);
    assert!(cross.iter().any(|m| m.contains("already serves writes")), "got {:?}", cross);

    let bare = warn_cfg(r#"{"node_id":"r","role":"router","listen_addr":"127.0.0.1:9500",
        "shard_map":[{"start_hash":0,"end_hash":0,"node_url":"http://a"}]}"#);
    assert!(bare.iter().any(|m| m.contains("cannot fail over")), "got {:?}", bare);
}

#[test]
fn membership_mode_defaults_to_voter_and_is_checked_at_boot() {
    let default = parse(r#"{"node_id":"n","role":"shard","listen_addr":"127.0.0.1:1"}"#);
    assert_eq!(default.membership_mode, "voter",
        "an existing config must keep behaving exactly as it did");
    assert!(!default.is_learner());
    assert!(validate(&default).is_ok());

    let learner = parse(r#"{"node_id":"n","role":"shard","shard_role":"replica",
        "listen_addr":"127.0.0.1:1","membership_mode":"learner"}"#);
    assert!(learner.is_learner());
    assert!(validate(&learner).is_ok());

    let typo = parse(r#"{"node_id":"n","role":"shard","listen_addr":"127.0.0.1:1",
        "membership_mode":"observer"}"#);
    assert!(validate(&typo).is_err(),
        "a misspelled mode must fail the boot, not silently fall back to voter");

    let contradiction = parse(r#"{"node_id":"n","role":"shard","shard_role":"primary",
        "listen_addr":"127.0.0.1:1","membership_mode":"learner"}"#);
    assert!(validate(&contradiction).is_err(), "a learner is never a primary");
}

#[test]
fn a_lone_voter_that_will_elect_itself_is_called_out() {
    let w = warn_cfg(r#"{"node_id":"n","role":"shard","shard_role":"replica",
        "listen_addr":"127.0.0.1:9501"}"#);
    assert!(w.iter().any(|m| m.contains("elect itself") && m.contains("learner")),
        "the warning must name the fix, not just the symptom: {:?}", w);

    let fixed = warn_cfg(r#"{"node_id":"n","role":"shard","shard_role":"replica",
        "listen_addr":"127.0.0.1:9501","membership_mode":"learner"}"#);
    assert!(!fixed.iter().any(|m| m.contains("elect itself")), "got {:?}", fixed);

    let pointless = warn_cfg(r#"{"node_id":"n","role":"shard","shard_role":"replica",
        "listen_addr":"127.0.0.1:9501","membership_mode":"learner",
        "peers":["http://127.0.0.1:9502"]}"#);
    assert!(pointless.iter().any(|m| m.contains("peers has no effect")), "got {:?}", pointless);
}

#[test]
fn data_dir_defaults_and_is_configurable() {
    let default = parse(r#"{"node_id":"n","role":"shard","listen_addr":"127.0.0.1:1"}"#);
    assert_eq!(default.data_dir, "./data");
    assert!(validate(&default).is_ok());

    let custom = parse(r#"{"node_id":"n","role":"shard","listen_addr":"127.0.0.1:1","data_dir":"/var/lib/dewdb"}"#);
    assert_eq!(custom.data_dir, "/var/lib/dewdb");
    assert!(validate(&custom).is_ok());

    let blank = parse(r#"{"node_id":"n","role":"shard","listen_addr":"127.0.0.1:1","data_dir":"  "}"#);
    assert!(validate(&blank).is_err(), "a blank data_dir would write into the process cwd");
}

/// At 0 this knob turns `leader_contact_task` into `sleep(ZERO)` on every shard node and makes
/// `contact_lost` permanently true -- not a slow setting but a different program.
#[test]
fn a_zero_heartbeat_timeout_is_refused_at_boot() {
    let cfg = |secs: u64| -> Result<(), String> {
        let mut c = parse(r#"{"node_id": "n1", "role": "shard", "shard_role": "primary",
            "listen_addr": "127.0.0.1:1", "data_dir": "/tmp/x"}"#);
        c.heartbeat_timeout_secs = secs;
        validate(&c)
    };
    assert!(cfg(0).is_err(), "0 pins a core for the life of the process");
    assert!(cfg(1).is_ok());
}

#[test]
fn settings_of_another_section_are_checked_too() {
    let c = parse(r#"{"node_id":"n","role":"shard","listen_addr":"127.0.0.1:1"}"#);
    assert_eq!(c.validate(Err("auth.api_keys holds a blank".to_string())), Err("auth.api_keys holds a blank".to_string()));
    let mut loud = parse(r#"{"node_id":"n","role":"shard","listen_addr":"127.0.0.1:1"}"#);
    loud.logging.level = "loud".to_string();
    assert_eq!(validate(&loud).unwrap_err(), "logging.level must be one of trace|debug|info|warn|error, got 'loud'");
    loud.logging.level = "WARN".to_string();
    assert!(validate(&loud).is_ok(), "names of levels have no case");
    loud.logging.level = "4".to_string();
    assert!(validate(&loud).is_ok(), "levels have numbers too");
    loud.logging.format = "xml".to_string();
    assert_eq!(validate(&loud).unwrap_err(), "logging.format must be 'text' or 'json', got 'xml'");
}

#[test]
fn a_routers_ring_is_checked_at_boot() {
    let mut c = parse(r#"{"node_id":"r","role":"router","listen_addr":"127.0.0.1:9500",
        "shard_map":[{"start_hash":0,"end_hash":5,"node_url":"http://a","replica_urls":[]}]}"#);
    assert!(validate(&c).is_err(), "a shard map with a hole");
    c.shard_map.clear();
    c.ring = Some(HashRing { vnodes: 8, shards: vec![RingShard { node_url: "http://a".to_string(), replica_urls: vec![] }] });
    assert!(validate(&c).is_ok());
}

#[test]
fn a_node_names_itself_by_where_it_listens() {
    assert_eq!(normalize_self_url("127.0.0.1:9500"), "http://127.0.0.1:9500");
    assert_eq!(normalize_self_url("https://n1"), "https://n1");
    assert_eq!(parse(r#"{"node_id":"n","role":"shard","listen_addr":"127.0.0.1:1"}"#).own_url(), "http://127.0.0.1:1");
    assert_eq!(FlowControlConfig::default().max_uncommitted_frames, 4096);
}
