use dewdb::cluster::fanout::{
    collection_url, listing_targets, maintenance_targets, node_result, router_fanout_drop, router_fanout_index,
    router_fanout_maintenance, router_list_indexes, OwnerStep, OwnerWrite,
};
use dewdb::cluster::metadata::ClusterMetadata;
use dewdb::cluster::router::{
    bulk_body, bulk_router_forward, document_path, document_route, forward_reply, name_docs, passthrough, plan_bulk, read_path, refusal_response, route_key,
    Body, BulkItem, BulkOutcome, DocRead, Forward, ForwardAction, ForwardEvent, NamedDoc, ReadNext, ReadPreference, Reply, Route,
    ShardReply,
};
use dewdb::json::Json;
use dewdb::model::BulkDoc;
use dewdb::name_map::NameMap;
use dewdb::ring::{hash_key, HashRing, RingShard, ShardInfo};
use dewdb::wire::read_json;

fn json(text: &str) -> Json {
    read_json(text).unwrap()
}

fn parts(r: Reply) -> (u16, bool, Json) {
    match r.body {
        Body::Json(j) => (r.status, r.retry_after, j),
        Body::Text(t) => (r.status, r.retry_after, Json::Str(t)),
    }
}

fn shard_reply(status: u16, body: &str) -> ShardReply {
    ShardReply { status, body: body.to_string() }
}

#[test]
fn a_conflict_that_names_an_owner_is_a_redirect() {
    assert_eq!(shard_reply(409, r#"{"owner":"http://b"}"#).redirect().as_deref(), Some("http://b"));
    assert_eq!(shard_reply(409, r#"{"owner":3}"#).redirect(), None);
    assert_eq!(shard_reply(409, "conflict").redirect(), None);
    assert_eq!(shard_reply(404, r#"{"owner":"http://b"}"#).redirect(), None);
}

#[test]
fn a_reply_is_passed_on_as_it_came() {
    assert_eq!(parts(passthrough(shard_reply(404, r#"{"b":1,"a":[null,true,-2.5]}"#))),
        (404, false, json(r#"{"a":[null,true,-2.5],"b":1}"#)));
    assert_eq!(parts(passthrough(shard_reply(200, "plain"))), (200, false, Json::Str("plain".to_string())));
    assert_eq!(parts(refusal_response(Some(shard_reply(503, "\"later\"")))), (503, true, Json::Str("later".to_string())));
    assert_eq!(parts(refusal_response(None)),
        (503, true, json(r#"{"error":"no reachable primary for this shard; retry, or ask for read=replica"}"#)));
}

#[test]
fn a_key_stays_one_segment_of_the_path() {
    assert_eq!(document_path("c", "a?x=1", ""), "/collections/c/docs/a%3Fx%3D1");
    assert_eq!(document_path("c", "a/b#f", "?w=1"), "/collections/c/docs/a%2Fb%23f?w=1");
    assert_eq!(read_path("c", "k", &ReadPreference::Quorum), "/collections/c/docs/k?read=quorum");
    assert_eq!(read_path("c", "k", &ReadPreference::Replica), "/collections/c/docs/k");
}

fn route() -> Route {
    Route {
        effective: "http://e".to_string(),
        original: "http://o".to_string(),
        replicas: vec!["http://r1".to_string(), "http://r2".to_string()],
    }
}

fn sent_to(a: ForwardAction) -> String {
    match a {
        ForwardAction::Send(n) => n,
        ForwardAction::ForgetAndSend(n) => format!("forget {}", n),
        ForwardAction::Refresh => "refresh".to_string(),
        ForwardAction::Answer { primary } => format!("answer {:?}", primary),
        ForwardAction::AnswerFirst => "answer first".to_string(),
        ForwardAction::Unreachable { forget } => format!("unreachable {}", forget),
    }
}

fn status(status: u16) -> ForwardEvent {
    ForwardEvent::Replied { status, redirect: None }
}

#[test]
fn an_answer_from_an_override_confirms_it() {
    let (mut f, a) = Forward::begin(route());
    assert_eq!(sent_to(a), "http://e");
    assert_eq!(sent_to(f.router_forward_write(status(404))), "answer Some(\"http://e\")");

    let mut own = route();
    own.effective = "http://o".to_string();
    let (mut f, _) = Forward::begin(own);
    assert_eq!(sent_to(f.router_forward_write(status(200))), "answer None");
}

#[test]
fn a_redirected_write_is_retried_once_at_the_owner() {
    let to = |s: u16| ForwardEvent::Replied { status: s, redirect: Some("http://x".to_string()) };
    let (mut f, _) = Forward::begin(route());
    assert_eq!(sent_to(f.router_forward_write(to(409))), "http://x");
    assert_eq!(sent_to(f.router_forward_write(status(201))), "answer None");

    let (mut f, _) = Forward::begin(route());
    f.router_forward_write(to(409));
    assert_eq!(sent_to(f.router_forward_write(to(409))), "answer first", "a second redirect is not followed");
    let (mut f, _) = Forward::begin(route());
    f.router_forward_write(to(409));
    assert_eq!(sent_to(f.router_forward_write(ForwardEvent::Unreachable)), "answer first");
}

#[test]
fn an_unreachable_primary_is_looked_up_again_before_the_replicas_are_tried() {
    let (mut f, _) = Forward::begin(route());
    assert_eq!(sent_to(f.router_forward_write(ForwardEvent::Unreachable)), "refresh");
    assert_eq!(sent_to(f.router_forward_write(ForwardEvent::Refreshed { latest: Some("http://n".to_string()) })), "http://n");
    assert_eq!(sent_to(f.router_forward_write(status(503))), "forget http://r1");
    assert_eq!(sent_to(f.router_forward_write(status(403))), "http://r2");
    assert_eq!(sent_to(f.router_forward_write(status(200))), "answer Some(\"http://r2\")");

    let (mut f, _) = Forward::begin(route());
    f.router_forward_write(status(500));
    assert_eq!(sent_to(f.router_forward_write(ForwardEvent::Refreshed { latest: Some("http://e".to_string()) })), "forget http://r1");
    f.router_forward_write(ForwardEvent::Unreachable);
    assert_eq!(sent_to(f.router_forward_write(ForwardEvent::Unreachable)), "unreachable false");

    let mut alone = route();
    alone.replicas.clear();
    let (mut f, _) = Forward::begin(alone);
    f.router_forward_write(ForwardEvent::Unreachable);
    assert_eq!(sent_to(f.router_forward_write(ForwardEvent::Refreshed { latest: None })), "unreachable true");
}

#[test]
fn a_bulk_part_goes_straight_to_the_replicas() {
    let (mut f, _) = Forward::begin(route());
    assert_eq!(sent_to(f.router_forward_bulk(status(503))), "forget http://r1");
    assert_eq!(sent_to(f.router_forward_bulk(ForwardEvent::Unreachable)), "http://r2");
    assert_eq!(sent_to(f.router_forward_bulk(status(201))), "answer Some(\"http://r2\")");
    let (mut f, _) = Forward::begin(route());
    assert_eq!(sent_to(f.router_forward_bulk(status(201))), "answer Some(\"http://e\")");
}

fn read(pref: ReadPreference) -> DocRead {
    let targets = vec!["http://e".to_string(), "http://r1".to_string()];
    DocRead::begin(&pref, targets, "http://e".to_string()).0
}

fn asked(n: ReadNext) -> String {
    match n {
        ReadNext::Ask(u) => u,
        ReadNext::Answer(r) => format!("answered {}", r.status),
    }
}

#[test]
fn a_read_goes_on_until_a_node_has_the_answer() {
    let mut d = read(ReadPreference::Any);
    let step = d.router_read_doc(None);
    assert_eq!(step.forget_load.as_deref(), Some("http://e"));
    assert_eq!(asked(step.next), "http://r1");
    assert_eq!(asked(d.router_read_doc(Some(shard_reply(404, "{}"))).next), "answered 404");

    let mut d = read(ReadPreference::Any);
    d.router_read_doc(Some(shard_reply(503, "{}")));
    match d.router_read_doc(Some(shard_reply(500, "{}"))).next {
        ReadNext::Answer(r) => assert_eq!(parts(r), (502, false, Json::Str("No shard node could serve the read".to_string()))),
        _ => panic!("nobody is left"),
    }
}

#[test]
fn a_read_follows_a_redirect_once_per_node() {
    let mut d = read(ReadPreference::Primary);
    let step = d.router_read_doc(Some(shard_reply(409, r#"{"owner":"http://x"}"#)));
    assert_eq!((step.forget_load, asked(step.next)), (None, "http://x".to_string()));
    let step = d.router_read_doc(Some(shard_reply(500, "")));
    assert_eq!((step.forget_load, asked(step.next)), (None, "http://r1".to_string()));
    assert_eq!(asked(d.router_read_doc(Some(shard_reply(200, "1"))).next), "answered 200");
}

#[test]
fn a_refused_read_is_answered_with_the_primarys_own_refusal() {
    let mut d = read(ReadPreference::Quorum);
    d.router_read_doc(Some(shard_reply(503, r#"{"error":"term too new"}"#)));
    match d.router_read_doc(Some(shard_reply(503, r#"{"error":"not the leader"}"#))).next {
        ReadNext::Answer(r) => assert_eq!(parts(r), (503, true, json(r#"{"error":"term too new"}"#))),
        _ => panic!("nobody is left"),
    }
}

fn ranged() -> ClusterMetadata {
    let half = 9223372036854775808u64;
    let shard = |start: u64, end: u64, url: &str| ShardInfo {
        start_hash: start, end_hash: end, node_url: url.to_string(), replica_urls: vec![format!("{}r", url)],
    };
    ClusterMetadata {
        version: 1,
        updated_by: "n1".to_string(),
        seeded: false,
        members: Vec::new(),
        shards: vec![shard(0, half, "http://a"), shard(half, 0, "http://b")],
        ring: None,
        migration: None,
        index_catalog: NameMap::new(),
    }
}

#[test]
fn a_key_goes_to_the_range_that_holds_it() {
    let view = ranged();
    let mut overrides = NameMap::new();
    overrides.insert("http://b".to_string(), "http://br".to_string());
    let low = route_key(&view, None, &overrides, 5).unwrap();
    assert_eq!((low.effective.as_str(), low.original.as_str()), ("http://a", "http://a"));
    let high = route_key(&view, None, &overrides, u64::MAX).unwrap();
    assert_eq!((high.effective.as_str(), high.original.as_str(), high.replicas[0].as_str()), ("http://br", "http://b", "http://br"));

    let ring = HashRing { vnodes: 4, shards: vec![RingShard { node_url: "http://c".to_string(), replica_urls: vec![] }] };
    assert_eq!(route_key(&view, Some(&ring.build()), &overrides, 5).unwrap().original, "http://c");
    let mut empty = ranged();
    empty.shards.clear();
    assert!(route_key(&empty, None, &overrides, 5).is_none());
    assert_eq!(parts(document_route(&empty, None, &overrides, "c", "k").err().unwrap()),
        (400, false, Json::Str("Key not owned by any shard".to_string())));
    assert_eq!(document_route(&view, Some(&ring.build()), &overrides, "c", "k").ok().unwrap().original, "http://c");
}

#[test]
fn documents_without_an_id_get_a_fresh_one() {
    let docs = name_docs(vec![
        BulkDoc { id: Some("k".to_string()), value: Json::Bool(true) },
        BulkDoc { id: None, value: Json::Null },
        BulkDoc { id: None, value: Json::Null },
    ]);
    assert_eq!(docs[0].id, "k");
    assert_eq!(docs[0].value, Json::Bool(true));
    assert_eq!(docs[1].id.len(), 36);
    for (i, c) in docs[1].id.chars().enumerate() {
        match i {
            8 | 13 | 18 | 23 => assert_eq!(c, '-'),
            14 => assert_eq!(c, '4'),
            19 => assert!("89ab".contains(c)),
            _ => assert!("0123456789abcdef".contains(c), "{}", docs[1].id),
        }
    }
    assert_ne!(docs[1].id, docs[2].id);
}

fn named(id: &str) -> NamedDoc {
    NamedDoc { id: id.to_string(), value: Json::Str(id.to_string()) }
}

#[test]
fn a_bulk_write_is_split_by_owner_and_put_back_in_order() {
    let view = ranged();
    let docs: Vec<NamedDoc> = (0..20).map(|i| named(&format!("k{}", i))).collect();
    let groups = plan_bulk(&view, None, &NameMap::new(), "c", &docs).ok().unwrap();
    assert_eq!(groups.len(), 2, "twenty keys reach both halves");
    let mut seen = 0;
    for g in &groups {
        for item in &g.items {
            assert_eq!(item.id, format!("k{}", item.at));
            let own = if hash_key("c", &item.id) < 9223372036854775808 { "http://a" } else { "http://b" };
            assert_eq!(g.route.original, own);
            seen += 1;
        }
    }
    assert_eq!(seen, 20);

    let mut nowhere = ranged();
    nowhere.shards.clear();
    assert_eq!(parts(plan_bulk(&nowhere, None, &NameMap::new(), "c", &docs).err().unwrap()),
        (400, false, json(r#"{"error":"Key k0 not owned by any shard"}"#)));
}

fn item(at: usize, id: &str) -> BulkItem {
    BulkItem { at, id: id.to_string(), value: Json::Null }
}

#[test]
fn the_results_of_a_bulk_write_stand_where_their_documents_stood() {
    let ok = BulkOutcome::Replied(Some(json(r#"{"results":[{"id":"b","status":"created"},{"id":"a","status":"created"}]}"#)));
    let all = vec![(vec![item(1, "b"), item(0, "a")], ok)];
    assert_eq!(parts(bulk_router_forward(2, &all)),
        (201, false, json(r#"{"results":[{"id":"a","status":"created"},{"id":"b","status":"created"}]}"#)));

    let some = vec![
        (vec![item(0, "a")], BulkOutcome::Unreachable),
        (vec![item(1, "b"), item(2, "c")], BulkOutcome::Replied(Some(json(r#"{"results":[{"status":"created"}]}"#)))),
        (vec![item(3, "d")], BulkOutcome::Replied(Some(json(r#"{"results":[{"status":"created","warning":"w"}]}"#)))),
        (vec![item(4, "e")], BulkOutcome::Replied(None)),
    ];
    assert_eq!(parts(bulk_router_forward(5, &some)), (207, false, json(r#"{"results":[
        {"id":"a","status":"error","error":"All shard nodes unreachable"},
        {"id":"b","status":"error","error":"malformed shard response"},
        {"id":"c","status":"error","error":"malformed shard response"},
        {"status":"created","warning":"w"},
        {"id":"e","status":"error","error":"malformed shard response"}]}"#)));
    let warned = vec![(vec![item(0, "d")], BulkOutcome::Replied(Some(json(r#"{"results":[{"status":"created","warning":"w"}]}"#))))];
    assert_eq!(bulk_router_forward(1, &warned).status, 207, "a write that did not meet its concern is not a success");
    assert_eq!(bulk_body(&vec![item(0, "a")]), json(r#"[{"id":"a","value":null}]"#));
}

// ---- Requests to every group ----

fn groups() -> Vec<(String, Vec<String>)> {
    vec![
        ("http://b".to_string(), vec!["http://b2".to_string()]),
        ("http://a".to_string(), vec!["http://b2".to_string(), "http://a2".to_string()]),
    ]
}

#[test]
fn maintenance_goes_to_every_node_and_compaction_to_primaries() {
    let mut overrides = NameMap::new();
    overrides.insert("http://a".to_string(), "http://a2".to_string());
    assert_eq!(maintenance_targets(&groups(), &overrides, "snapshot"), vec!["http://a2", "http://b", "http://b2"]);
    assert_eq!(maintenance_targets(&groups(), &overrides, "compact"), vec!["http://a2", "http://b"]);
    assert_eq!(listing_targets(&groups(), &NameMap::new()), vec!["http://a", "http://b"]);
    assert_eq!(collection_url("http://a", "my col", "/indexes", "?w=1"), "http://a/collections/my%20col/indexes?w=1");
}

#[test]
fn a_node_that_does_not_hold_the_collection_is_no_partial_failure() {
    let ok = || node_result("http://a", Some((200, Json::Null)));
    let gone = || node_result("http://b", Some((404, Json::Null)));
    let down = || node_result("http://c", None);
    assert_eq!(down(), json(r#"{"node":"http://c","status":null,"error":"unreachable"}"#));
    assert_eq!(ok(), json(r#"{"node":"http://a","status":200,"response":null}"#));

    assert_eq!(router_fanout_maintenance("c", vec![ok(), gone()]).status, 200);
    assert_eq!(router_fanout_maintenance("c", vec![ok(), down()]).status, 207);
    assert_eq!(parts(router_fanout_maintenance("c", vec![gone(), down()])),
        (404, false, json(r#"{"error":"collection 'c' does not exist"}"#)));
    let (status, _, body) = parts(router_fanout_index("c", vec![ok(), gone()]));
    assert_eq!(status, 200);
    assert!(body.get("shards").is_some());
    assert_eq!(router_fanout_drop(vec![ok(), ok()]).status, 200);
    assert_eq!(router_fanout_drop(vec![ok(), gone()]).status, 207);
}

#[test]
fn a_replicated_write_is_tried_at_each_candidate() {
    let replicas = vec!["http://e".to_string(), "http://r".to_string()];
    let (mut w, step) = OwnerWrite::begin("http://o", "http://e", &replicas);
    assert!(matches!(step, OwnerStep::Send(ref n) if n == "http://e"));
    assert_eq!(w.candidates, vec!["http://e", "http://o", "http://r"]);
    assert!(matches!(w.fanout_to_owners(None), OwnerStep::Send(ref n) if n == "http://o"));
    assert!(matches!(w.fanout_to_owners(Some((503, Json::Null))), OwnerStep::Send(ref n) if n == "http://r"));
    match w.fanout_to_owners(Some((201, Json::Bool(true)))) {
        OwnerStep::Done { primary, row } => {
            assert_eq!(primary.as_deref(), Some("http://r"));
            assert_eq!(row, json(r#"{"node":"http://r","status":201,"response":true}"#));
        },
        _ => panic!("an answer ends it"),
    }
    let (mut w, _) = OwnerWrite::begin("http://o", "http://o", &vec![]);
    match w.fanout_to_owners(None) {
        OwnerStep::Done { primary, row } => {
            assert_eq!(primary, None);
            assert_eq!(row, json(r#"{"node":"http://o","status":null,"error":"unreachable"}"#));
        },
        _ => panic!("nobody is left"),
    }
}

#[test]
fn a_listing_is_answered_for_the_cluster() {
    let rows = json(r#"{"indexes":[{"name":"j","state":"ready","documents":1,"values":2},{"state":"ready"}]}"#);
    let more = json(r#"{"indexes":[{"name":"i","state":"ready"},{"name":"j","state":"ready","documents":3}]}"#);
    assert_eq!(parts(router_list_indexes("c", &vec![(200, rows), (500, Json::Null), (200, more)])), (200, false, json(
        r#"{"collection":"c","indexes":[{"name":"i","state":"building"},{"name":"j","state":"ready","documents":4,"values":2}]}"#)));
    assert_eq!(router_list_indexes("c", &vec![(404, Json::Null)]).status, 404);
    assert_eq!(parts(router_list_indexes("c", &vec![])), (200, false, json(r#"{"collection":"c","indexes":[]}"#)));
}

#[test]
fn a_write_is_answered_with_the_reply_that_ended_it() {
    let replies = || vec![shard_reply(409, r#"{"owner":"http://x"}"#), shard_reply(201, r#"{"ok":true}"#)];
    let answer = |a: ForwardAction, r: Vec<ShardReply>| forward_reply(&a, r).map(parts);
    assert_eq!(answer(ForwardAction::Answer { primary: None }, replies()), Some((201, false, json(r#"{"ok":true}"#))));
    assert_eq!(answer(ForwardAction::AnswerFirst, replies()), Some((409, false, json(r#"{"owner":"http://x"}"#))));
    let unreachable = Some((502, false, Json::Str("All shard nodes unreachable".to_string())));
    assert_eq!(answer(ForwardAction::Unreachable { forget: true }, replies()), unreachable);
    assert_eq!(answer(ForwardAction::Refresh, replies()), None, "the write goes on");
}
