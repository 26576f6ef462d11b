use dewdb::cluster::router::{Body, ReadPreference, Reply, ShardReply};
use dewdb::cluster::scan::{
    aggregate_query, finish_sorted, gather_sorted, plan_query, router_aggregate, router_query, GroupNext, GroupRead, NodeEvent,
    ShardAggregateOutcome, ShardCursor, ShardQueryOutcome, SortedRow,
};
use dewdb::escape::encode_token;
use dewdb::json::Json;
use dewdb::model::{AggregateParams, KeyMode, QueryPage, QueryParams};
use dewdb::name_map::NameMap;
use dewdb::wire::read_json;

fn json(text: &str) -> Json {
    read_json(text).unwrap()
}

fn params() -> QueryParams {
    QueryParams {
        max_docs: None, start: None, end: None, limit: None, filter: None, read: None, cursor: None, sort: None, fields: None,
        keys: None,
    }
}

fn owners() -> Vec<(String, Vec<String>)> {
    vec![("http://a".to_string(), vec!["http://a2".to_string()]), ("http://b".to_string(), vec![]), ("http://c".to_string(), vec![])]
}

fn cursor(ring: u64, positions: &[(&str, Option<&str>)]) -> ShardCursor {
    let mut m = NameMap::new();
    for (g, p) in positions {
        m.insert(g.to_string(), p.map(|s| s.to_string()));
    }
    ShardCursor { ring, positions: m }
}

fn pairs(q: &[(&str, &str)]) -> Vec<(String, String)> {
    q.iter().map(|(a, b)| (a.to_string(), b.to_string())).collect()
}

#[test]
fn a_scan_cursor_round_trips_through_its_token() {
    let c = cursor(9, &[("http://a", Some("k7")), ("http://b", None)]);
    let token = c.encode();
    assert_eq!(ShardCursor::decode(&token), Some(c));
    assert_eq!(ShardCursor::decode(&encode_token(br#"{"ring":9,"positions":{"a":3}}"#)), None);
    assert_eq!(ShardCursor::decode(&encode_token(br#"{"ring":9}"#)), None);
    assert_eq!(ShardCursor::decode("???"), None);
    assert_eq!(ShardCursor::decode(&encode_token(br#"[9,{"a":"k"}]"#)), Some(cursor(9, &[("a", Some("k"))])), "a list of the two");
}

#[test]
fn the_first_page_asks_every_shard_for_its_share() {
    let mut p = params();
    p.start = Some("a".to_string());
    p.filter = Some("{}".to_string());
    p.keys = Some(KeyMode::Parallel);
    let plan = plan_query(&p, 10, false, 77, &owners(), &ReadPreference::Primary).ok().unwrap();
    assert_eq!(plan.asks.len(), 3);
    assert_eq!(plan.asks[0].original, "http://a");
    assert_eq!(plan.asks[0].replicas, vec!["http://a2"]);
    assert_eq!(plan.asks[0].query,
        pairs(&[("limit", "4"), ("start", "a"), ("filter", "{}"), ("read", "primary"), ("keys", "true")]));
    assert_eq!(plan.asks[2].query[0], ("limit".to_string(), "3".to_string()));
    assert_eq!(plan.carried.len(), 0);
}

#[test]
fn a_later_page_asks_only_the_shards_that_have_more() {
    let mut p = params();
    p.cursor = Some(cursor(77, &[("http://b", Some("k3")), ("http://c", None)]).encode());
    let plan = plan_query(&p, 1, false, 77, &owners(), &ReadPreference::Any).ok().unwrap();
    assert_eq!(plan.asks.len(), 1, "one row, one shard");
    assert_eq!(plan.asks[0].original, "http://b");
    assert_eq!(plan.asks[0].query, pairs(&[("limit", "1"), ("cursor", "k3")]));
    assert_eq!(plan.carried.get("http://c"), Some(&None), "carried, not dropped");
    assert_eq!(plan.carried.len(), 1);
}

#[test]
fn a_cursor_of_another_layout_is_refused() {
    let refused = |c: &str| {
        let mut p = params();
        p.cursor = Some(c.to_string());
        parts(plan_query(&p, 10, false, 77, &owners(), &ReadPreference::Any).err().unwrap())
    };
    assert_eq!(refused(&cursor(78, &[]).encode()),
        (409, json(r#"{"error":"cursor was issued against a different shard layout; restart the scan"}"#)));
    assert_eq!(refused("garbage"), (400, json(r#"{"error":"cursor does not belong to this query"}"#)));
}

#[test]
fn a_sorted_query_asks_each_shard_for_the_whole_page() {
    let mut p = params();
    p.sort = Some("age".to_string());
    p.cursor = Some("opaque".to_string());
    let plan = plan_query(&p, 10, true, 77, &owners(), &ReadPreference::Replica).ok().unwrap();
    assert_eq!(plan.asks.len(), 3);
    for ask in &plan.asks {
        assert_eq!(ask.query, pairs(&[("limit", "10"), ("sort", "age"), ("keys", "true"), ("cursor", "opaque")]));
    }
}

fn parts(r: Reply) -> (u16, Json) {
    match r.body {
        Body::Json(j) => (r.status, j),
        Body::Text(t) => (r.status, Json::Str(t)),
    }
}

fn reply(status: u16, body: &str) -> NodeEvent {
    NodeEvent::Replied(ShardReply { status, body: body.to_string() })
}

fn group_read(pref: ReadPreference, rejectable: bool) -> GroupRead {
    let targets = vec!["http://a".to_string(), "http://b".to_string()];
    GroupRead::begin(&pref, targets, "http://a".to_string(), rejectable).0
}

#[test]
fn one_shard_is_asked_until_something_settles_it() {
    let mut g = group_read(ReadPreference::Any, false);
    let step = g.step(NodeEvent::Unreachable);
    assert_eq!(step.forget_load.as_deref(), Some("http://a"));
    assert!(matches!(step.next, GroupNext::Ask(ref n) if n == "http://b"));
    assert!(matches!(g.step(NodeEvent::Answered).next, GroupNext::Answered));

    assert!(matches!(group_read(ReadPreference::Any, false).step(reply(404, "")).next, GroupNext::Absent));
    assert!(matches!(group_read(ReadPreference::Any, false).step(reply(400, "")).next, GroupNext::Ask(_)));
    assert!(matches!(group_read(ReadPreference::Any, true).step(reply(400, "bad")).next,
        GroupNext::Rejected(ref r) if r.body == "bad"), "wrong for every shard");

    let mut g = group_read(ReadPreference::Primary, false);
    assert!(matches!(g.step(reply(503, "own")).next, GroupNext::Ask(_)));
    assert!(matches!(g.step(reply(404, "")).next, GroupNext::NoPrimary(Some(ref r)) if r.body == "own"));
    let mut g = group_read(ReadPreference::Any, false);
    g.step(reply(503, ""));
    assert!(matches!(g.step(reply(200, "unreadable")).next, GroupNext::Failed));
}

fn page(items: &[&str], keys: &[&str], next: Option<&str>) -> ShardQueryOutcome {
    ShardQueryOutcome::Page(QueryPage {
        items: items.iter().map(|t| json(t)).collect(),
        keys: keys.iter().map(|k| k.to_string()).collect(),
        next_cursor: next.map(|n| n.to_string()),
    })
}

fn named(url: &str, o: ShardQueryOutcome) -> (String, ShardQueryOutcome) {
    (url.to_string(), o)
}

#[test]
fn a_page_is_put_together_from_the_shards() {
    let mut kept = NameMap::new();
    kept.insert("http://d".to_string(), None);
    let outcomes = vec![
        named("http://a", page(&[r#"{"x":1,"y":2}"#], &["k1"], Some("k1"))),
        named("http://b", ShardQueryOutcome::Absent),
        named("http://c", page(&[r#"{"x":3}"#], &["k2"], None)),
    ];
    let fields = vec!["x".to_string()];
    let p = router_query("c", &outcomes, kept, 77, &fields, KeyMode::Parallel).ok().unwrap();
    assert_eq!(p.items, vec![json(r#"{"x":1}"#), json(r#"{"x":3}"#)]);
    assert_eq!(p.keys, vec!["k1", "k2"]);
    assert_eq!(p.next, Some(cursor(77, &[("http://a", Some("k1")), ("http://d", None)])));

    let plain = router_query("c", &outcomes, NameMap::new(), 77, &[], KeyMode::Omitted).ok().unwrap();
    assert!(plain.keys.is_empty());
    let embedded = router_query("c", &outcomes, NameMap::new(), 77, &fields, KeyMode::Embedded).ok().unwrap();
    assert_eq!(embedded.items[0], json(r#"{"id":"k1","value":{"x":1}}"#));
    assert!(embedded.keys.is_empty());
}

/// A shard that holds none of the collection says nothing of the ones this page did not ask.
#[test]
fn an_absent_shard_preserves_unqueried_positions() {
    let absent = || vec![named("http://a", ShardQueryOutcome::Absent)];
    let mut kept = NameMap::new();
    kept.insert("http://b".to_string(), None);
    let p = router_query("c", &absent(), kept, 77, &[], KeyMode::Omitted).ok().unwrap();
    assert_eq!(p.next, Some(cursor(77, &[("http://b", None)])));
    assert_eq!(parts(router_query("c", &absent(), NameMap::new(), 77, &[], KeyMode::Omitted).err().unwrap()),
        (404, json(r#"{"error":"collection 'c' does not exist"}"#)));
}

#[test]
fn a_page_that_cannot_be_whole_is_an_error() {
    let fails = |o: ShardQueryOutcome| {
        let outcomes = vec![named("http://a", page(&["1"], &["k"], None)), named("http://b", o)];
        parts(router_query("c", &outcomes, NameMap::new(), 77, &[], KeyMode::Omitted).err().unwrap())
    };
    assert_eq!(fails(ShardQueryOutcome::Failed), (502, Json::Str("Shard query failed".to_string())));
    assert_eq!(fails(ShardQueryOutcome::Lost), (502, Json::Str("Shard query task failed".to_string())));
    assert_eq!(fails(ShardQueryOutcome::NoPrimary(None)).0, 503);
    let keyless = vec![named("http://a", page(&["1"], &[], None))];
    assert_eq!(parts(router_query("c", &keyless, NameMap::new(), 77, &[], KeyMode::Embedded).err().unwrap()),
        (502, Json::Str("Shard returned a page without keys".to_string())));
    assert_eq!(parts(gather_sorted("c", &keyless).err().unwrap()),
        (502, Json::Str("Shard returned a sorted page without keys".to_string())));
}

fn row(key: &str, value: &str) -> SortedRow {
    SortedRow { key: key.to_string(), value: json(value) }
}

#[test]
fn a_sorted_page_goes_on_while_rows_are_left() {
    let outcomes = vec![
        named("http://a", page(&["1", "3"], &["k1", "k3"], None)),
        named("http://b", page(&["2"], &["k2"], None)),
        named("http://c", ShardQueryOutcome::Absent),
    ];
    let all = gather_sorted("c", &outcomes).ok().unwrap();
    assert_eq!(all.lists, vec![vec![row("k1", "1"), row("k3", "3")], vec![row("k2", "2")]]);
    assert_eq!((all.received, all.shard_has_more), (3, false));

    let merged = vec![row("k1", "1"), row("k2", "2")];
    let p = finish_sorted(&merged, all.received, all.shard_has_more, &[], KeyMode::Parallel);
    assert!(p.goes_on, "a row lies past the cut");
    assert_eq!(p.keys, vec!["k1", "k2"]);
    assert_eq!(p.items, vec![json("1"), json("2")]);
    assert!(!finish_sorted(&merged, 2, false, &[], KeyMode::Omitted).goes_on);
    assert!(finish_sorted(&merged, 2, true, &[], KeyMode::Omitted).goes_on, "a shard has more");
    assert!(!finish_sorted(&vec![], 0, true, &[], KeyMode::Omitted).goes_on, "nothing to go on after");
    assert_eq!(gather_sorted("c", &vec![named("http://c", ShardQueryOutcome::Absent)]).err().unwrap().status, 404);
}

#[test]
fn an_aggregation_needs_every_shard() {
    let p = AggregateParams {
        start: None, end: Some("m".to_string()), filter: None, read: None, group: Some("g".to_string()),
        metrics: Some("sum:x".to_string()), max_docs: None, partial: None,
    };
    assert_eq!(aggregate_query(&p, &ReadPreference::Quorum),
        pairs(&[("end", "m"), ("group", "g"), ("metrics", "sum:x"), ("read", "quorum")]));
    let bounded = AggregateParams { max_docs: Some(5000), partial: Some(true), ..p };
    assert_eq!(aggregate_query(&bounded, &ReadPreference::Quorum), pairs(&[
        ("end", "m"), ("group", "g"), ("metrics", "sum:x"), ("max_docs", "5000"), ("partial", "true"), ("read", "quorum"),
    ]), "each shard walks within the budget, and stops at it where that was asked for");
    let strict = AggregateParams { partial: Some(false), ..bounded };
    assert!(aggregate_query(&strict, &ReadPreference::Quorum).contains(&("partial".to_string(), "false".to_string())));

    type Outcome = ShardAggregateOutcome<u32>;
    assert_eq!(router_aggregate("c", vec![Outcome::Result(4), Outcome::Absent, Outcome::Result(7)]).ok(), Some(vec![4, 7]));
    assert_eq!(router_aggregate("c", Vec::<Outcome>::new()).ok(), Some(vec![]));
    let fails = |o: Outcome| parts(router_aggregate("c", vec![Outcome::Result(4), o, Outcome::Failed]).err().unwrap());
    assert_eq!(fails(Outcome::Refused(ShardReply { status: 422, body: r#"{"error":"no"}"#.to_string() })),
        (400, json(r#"{"error":"no"}"#)));
    assert_eq!(fails(Outcome::Lost), (502, Json::Str("Shard aggregation task failed".to_string())));
    assert_eq!(fails(Outcome::Absent), (502, Json::Str("Shard aggregation failed".to_string())));
    assert_eq!(fails(Outcome::NoPrimary(None)).0, 503);
    assert_eq!(router_aggregate("c", vec![Outcome::Absent]).err().unwrap().status, 404);
}
