use dewdb::boot::{auth_reload, auth_warnings, boot_tasks, load_cluster_view, log_listening, ReloadStep, WiredKeys};
use dewdb::cluster::metadata::ClusterMetadata;
use dewdb::config::NodeConfig;
use dewdb::json::Json;
use dewdb::logging::{json_event, text_event, EventFields};
use dewdb::ring::ShardInfo;
use dewdb::wire::read_json;

/// The settings in a file, each left out one at its default.
fn parse(text: &str) -> NodeConfig {
    let v: serde_json::Value = serde_json::from_str(text).unwrap();
    let text_of = |k: &str| v.get(k).and_then(|s| s.as_str()).map(|s| s.to_string());
    let texts_of = |x: Option<&serde_json::Value>| -> Vec<String> {
        x.and_then(|l| l.as_array()).map(|l| l.iter().map(|s| s.as_str().unwrap().to_string()).collect()).unwrap_or_default()
    };
    let mut c = NodeConfig::with_defaults(&text_of("node_id").unwrap(), &text_of("role").unwrap(), &text_of("listen_addr").unwrap());
    c.shard_role = text_of("shard_role");
    c.primary_addr = text_of("primary_addr");
    if let Some(m) = text_of("membership_mode") {
        c.membership_mode = m;
    }
    if let Some(d) = text_of("data_dir") {
        c.data_dir = d;
    }
    if let Some(n) = v.get("heartbeat_timeout_secs").and_then(|n| n.as_u64()) {
        c.heartbeat_timeout_secs = n;
    }
    c.replicas = texts_of(v.get("replicas"));
    c.peers = texts_of(v.get("peers"));
    for s in v.get("shard_map").and_then(|m| m.as_array()).into_iter().flatten() {
        c.shard_map.push(ShardInfo {
            start_hash: s.get("start_hash").and_then(|n| n.as_u64()).unwrap(),
            end_hash: s.get("end_hash").and_then(|n| n.as_u64()).unwrap(),
            node_url: s.get("node_url").and_then(|u| u.as_str()).unwrap().to_string(),
            replica_urls: texts_of(s.get("replica_urls")),
        });
    }
    c
}

fn config_from(json: &str) -> NodeConfig {
    let config = parse(json);
    config.validate(Ok(())).expect("a config the node would accept");
    config
}

/// A value as JSON text.
fn written(j: &Json) -> String {
    match j {
        Json::Null => "null".to_string(),
        Json::Bool(b) => b.to_string(),
        Json::Number(n) => format!("{:?}", n),
        Json::Str(s) => serde_json::to_string(s).unwrap(),
        Json::Array(v) => format!("[{}]", v.iter().map(written).collect::<Vec<_>>().join(",")),
        Json::Object(m) => format!("{{{}}}", m.iter()
            .map(|(k, v)| format!("{}:{}", serde_json::to_string(k).unwrap(), written(v))).collect::<Vec<_>>().join(",")),
    }
}

fn rendered(format: &str, json: &str) -> String {
    let config = config_from(json);
    let mut fields = EventFields::new();
    fields.push("message", &serde_json::Value::String("listening".to_string()));
    for (name, value) in log_listening(&config) {
        fields.push(&name, &serde_json::Value::String(value));
    }
    if format == "json" {
        let mut event = json_event(0, "INFO", &config.node_id, "boot", &fields);
        if let Json::Object(m) = &mut event {
            m.retain(|(k, _)| k != "ts_ms");
        }
        format!("{}\n", written(&event))
    } else {
        format!("2024-01-01T00:00:00Z{}\n", text_event("INFO", &config.node_id, "boot", &fields))
    }
}

fn text<'a>(j: &'a Json, key: &str) -> Option<&'a str> {
    j.get(key).and_then(|v| v.as_str())
}

/// The wrong-node mistake: two apps on one machine, one default port, and the second one seeding
/// its collections into the first one's database. This line is what makes that visible at a
/// glance, so it has to carry the identity and the storage location as separate greppable fields.
#[test]
fn the_startup_line_names_the_node_and_where_its_state_lives() {
    let line = rendered("text", r#"{"node_id":"kanban-1","role":"shard","shard_role":"primary",
        "listen_addr":"127.0.0.1:18081","data_dir":"./data"}"#);

    assert_eq!(line.lines().count(), 1, "one event, not several: {:?}", line);
    assert!(line.contains(" listening "), "the word to grep for: {}", line);
    for field in ["node_id=kanban-1", "role=shard", "shard_role=primary",
                  "listen_addr=127.0.0.1:18081", "data_dir=./data"] {
        assert!(line.contains(field), "missing {:?} in {:?}", field, line);
    }
    assert!(line.contains("[boot]"), "it belongs to the boot target: {}", line);
}

/// `logging.format = "json"` has to keep them as fields rather than one preformatted string,
/// which is the whole reason they are recorded as fields and not interpolated into the message.
#[test]
fn the_startup_line_stays_structured_under_json_logging() {
    let line = rendered("json", r#"{"node_id":"kanban-1","role":"shard","shard_role":"primary",
        "listen_addr":"127.0.0.1:18081","data_dir":"./data"}"#);
    assert_eq!(line.lines().count(), 1, "one event, not several: {:?}", line);

    let event = read_json(line.trim()).expect("one JSON object");
    assert_eq!(text(&event, "message"), Some("listening"));
    assert_eq!(text(&event, "node_id"), Some("kanban-1"));
    assert_eq!(text(&event, "role"), Some("shard"));
    assert_eq!(text(&event, "shard_role"), Some("primary"));
    assert_eq!(text(&event, "listen_addr"), Some("127.0.0.1:18081"));
    assert_eq!(text(&event, "data_dir"), Some("./data"));
    assert_eq!(text(&event, "target"), Some("boot"));
    assert_eq!(text(&event, "level"), Some("INFO"));
}

/// Every shard says which role it runs as; a router has none to say.
///
/// The omitted case is the point: `shard_role` is optional, and an operator reading the log wants
/// to know which node is leading, not which fields someone typed. The expected value is not
/// hardcoded here -- it is read back from `runs_as_primary`, the same call the boot path leads
/// with, so if that default ever changes this test follows it instead of pinning the old answer.
#[test]
fn every_shard_reports_the_role_it_runs_as_and_a_router_reports_none() {
    let shard = |json: &str| -> Json {
        let line = rendered("json", json);
        assert_eq!(line.lines().count(), 1, "one event, not several: {:?}", line);
        read_json(line.trim()).expect("one JSON object")
    };
    let runtime_role = |json: &str| -> &'static str {
        let config = config_from(json);
        assert_eq!(config.role, "shard");
        if config.runs_as_primary() { "primary" } else { "replica" }
    };

    const PRIMARY: &str = r#"{"node_id":"s1","role":"shard","shard_role":"primary",
        "listen_addr":"127.0.0.1:8081","data_dir":"./data"}"#;
    const REPLICA: &str = r#"{"node_id":"s2","role":"shard","shard_role":"replica",
        "listen_addr":"127.0.0.1:8082","data_dir":"./data","primary_addr":"http://127.0.0.1:8081"}"#;
    const OMITTED: &str = r#"{"node_id":"s3","role":"shard",
        "listen_addr":"127.0.0.1:8083","data_dir":"./data"}"#;

    assert_eq!(text(&shard(PRIMARY), "shard_role"), Some("primary"));
    assert_eq!(text(&shard(REPLICA), "shard_role"), Some("replica"));

    // Omitted is a replica because leadership says so, not because the logger decided it is.
    assert_eq!(runtime_role(OMITTED), "replica",
        "the runtime default for an omitted shard_role is what the line must report");
    assert_eq!(text(&shard(OMITTED), "shard_role"), Some(runtime_role(OMITTED)));
    assert_eq!(text(&shard(OMITTED), "shard_role"), Some("replica"));
    assert!(!config_from(OMITTED).runs_as_primary(),
        "a shard that names no shard_role does not lead, so it is not logged as one");

    // And the logged value is the runtime's answer for each of the three, not a parallel reading.
    for json in [PRIMARY, REPLICA, OMITTED] {
        assert_eq!(text(&shard(json), "shard_role"), Some(runtime_role(json)), "config: {}", json);
        assert_eq!(config_from(json).effective_shard_role(), Some(runtime_role(json)));
    }

    let router = rendered("json", r#"{"node_id":"r1","role":"router","listen_addr":"127.0.0.1:8080",
        "data_dir":"./data","shard_map":[{"start_hash":0,"end_hash":0,
        "node_url":"http://127.0.0.1:8081","replica_urls":[]}]}"#);
    let event = read_json(router.trim()).unwrap();
    assert_eq!(text(&event, "role"), Some("router"));
    assert!(event.get("shard_role").is_none(), "a router has no shard role at all: {}", router);
    assert_eq!(text(&event, "data_dir"), Some("./data"), "a router still says where its cluster view lives");
}

/// The line is built from four config fields by name. If it ever grows to log the config itself,
/// this is what fails.
#[test]
fn the_startup_line_carries_no_credentials() {
    let line = rendered("json", r#"{"node_id":"n1","role":"shard","shard_role":"primary",
        "listen_addr":"127.0.0.1:8081","data_dir":"./data",
        "auth":{"api_keys":["public-key-value"],"admin_keys":["admin-key-value"],
                "internal_secret":"internal-secret-value","upstream_api_key":"upstream-key-value"}}"#);
    for secret in ["public-key-value", "admin-key-value", "internal-secret-value",
                   "upstream-key-value", "api_keys", "internal_secret"] {
        assert!(!line.contains(secret), "{:?} must never be logged: {}", secret, line);
    }
    match read_json(line.trim()).expect("one JSON object") {
        Json::Object(m) => assert_eq!(m.iter().map(|(k, _)| k.as_str()).collect::<Vec<_>>(),
            vec!["data_dir", "level", "listen_addr", "message", "node_id", "role", "shard_role", "target"],
            "the line is made of these fields and of nothing else of the configuration"),
        other => panic!("an event is an object: {:?}", other),
    }
}


#[test]
fn an_event_is_one_line_of_text() {
    let mut fields = EventFields::new();
    fields.push("count", &serde_json::Value::from(3u64));
    fields.push("message", &serde_json::Value::Bool(true));
    fields.push("who", &serde_json::Value::String("n 1".to_string()));
    assert_eq!(text_event("WARN", "n1", "boot", &fields), "  WARN node=n1 [boot] true count=3 who=n 1");
    assert_eq!(text_event("ERROR", "n1", "boot", &EventFields::new()), " ERROR node=n1 [boot]");
    assert_eq!(
        json_event(17, "WARN", "n1", "boot", &fields),
        read_json(r#"{"ts_ms":17,"level":"WARN","node_id":"n1","target":"boot","message":"true","count":3,"who":"n 1"}"#).unwrap()
    );
}

#[test]
fn a_field_is_shown_as_it_is_written() {
    let mut fields = EventFields::new();
    fields.push("share", &serde_json::Value::from(0.5));
    fields.push("ports", &serde_json::Value::from(vec![1u64, 2]));
    assert_eq!(text_event("INFO", "n1", "boot", &fields), "  INFO node=n1 [boot] share=0.5 ports=[1,2]");

    let mut said = EventFields::new();
    said.push_shown("message", Json::Null, "nothing".to_string());
    said.push_shown("message", Json::Str("last".to_string()), "unused".to_string());
    assert_eq!(said.message.as_deref(), Some("last"));
}

#[test]
fn the_stored_view_wins_over_the_configuration() {
    let mut config = parse(r#"{"node_id":"r1","role":"router","listen_addr":"127.0.0.1:9500",
        "shard_map":[{"start_hash":0,"end_hash":0,"node_url":"http://a","replica_urls":[]}]}"#);
    let fresh = load_cluster_view(None, &config);
    assert!(fresh.seeded && !fresh.differs);
    assert_eq!(fresh.view, ClusterMetadata::seed_from_config(&config));

    let same = load_cluster_view(Some(fresh.view.clone()), &config);
    assert!(!same.seeded && !same.differs);
    config.shard_map[0].node_url = "http://b".to_string();
    let edited = load_cluster_view(Some(fresh.view), &config);
    assert!(edited.differs, "an edit after the first boot is ignored, and said to be");
    assert_eq!(edited.view.shards[0].node_url, "http://a");
}

#[test]
fn a_node_starts_what_its_role_asks_for() {
    let mut shard = parse(r#"{"node_id":"n","role":"shard","shard_role":"replica","listen_addr":"127.0.0.1:1"}"#);
    let t = boot_tasks(&shard, false);
    assert!(t.shard && t.resync && t.heartbeat && t.maintenance && !t.rebalance && !t.probe);
    shard.rebalance.enabled = true;
    shard.maintenance.enabled = false;
    let t = boot_tasks(&shard, true);
    assert!(t.rebalance && !t.heartbeat && !t.maintenance);
    let router = boot_tasks(&parse(r#"{"node_id":"r","role":"router","listen_addr":"127.0.0.1:1"}"#), false);
    assert!(router.probe && !router.shard && !router.heartbeat && !router.maintenance);
}

#[test]
fn open_endpoints_are_called_out() {
    assert_eq!(auth_warnings(true, true, true, true), Vec::<String>::new());
    assert_eq!(auth_warnings(true, false, false, false), vec![
        "auth.internal_secret is not set; /internal/* endpoints accept unauthenticated requests",
        "auth.api_keys is empty; the public API accepts unauthenticated requests",
    ]);
    assert_eq!(auth_warnings(false, false, false, true), vec![
        "auth.api_keys is empty; the public API accepts unauthenticated requests",
        "auth.admin_keys is set but auth.api_keys is empty; only /cluster/* and collection drops need a key",
    ]);
    assert_eq!(auth_warnings(false, false, true, false), vec![
        "auth.admin_keys is empty; any auth.api_keys entry can change cluster topology and drop collections",
    ]);
}

#[test]
fn a_credential_file_that_cannot_be_read_changes_nothing() {
    let wired = |s: &str| WiredKeys { internal_secret: Some(s.to_string()), upstream_api_key: None };
    assert_eq!(auth_reload(true, &wired("s"), Ok(wired("t"))), ReloadStep::Wait);
    assert_eq!(auth_reload(false, &wired("s"), Ok(wired("s"))), ReloadStep::Rotate { wired_changed: false });
    assert_eq!(auth_reload(false, &wired("s"), Ok(wired("t"))), ReloadStep::Rotate { wired_changed: true });
    assert_eq!(auth_reload(false, &wired("s"), Err("no JSON".to_string())), ReloadStep::Keep("no JSON".to_string()));
}
