use dewdb::cluster::changestream::{
    asked_after, forwarded_params, group_query, open_cluster_stream, reader_start, run_group, stream_positions, subscribe_url, supervise, ChangeParams,
    ClusterChangeCursor, FrameStep, GroupAction, GroupFeed, GroupOpen, Merged, OpenStep, Pump, SseReader, Upstream,
    MAX_UPSTREAM_EVENT,
};
use dewdb::cluster::router::{Body, Reply, ShardReply};
use dewdb::escape::encode_token;
use dewdb::json::Json;
use dewdb::name_map::NameMap;
use dewdb::wire::read_json;

fn json(text: &str) -> Json {
    read_json(text).unwrap()
}

fn cursor(ring: u64, positions: &[(&str, u64)]) -> ClusterChangeCursor {
    let mut m = NameMap::new();
    for (g, p) in positions {
        m.insert(g.to_string(), *p);
    }
    ClusterChangeCursor { ring, positions: m }
}

/// The position is the whole fan-out's, so it has to survive a round trip through an SSE `id`
/// and come back naming the same groups at the same places.
#[test]
fn a_cluster_position_round_trips_through_its_event_id() {
    let token = cursor(77, &[("http://s1", 12), ("http://s2", 4)]).encode();
    assert!(!token.contains('\n'), "an SSE id cannot carry a newline");

    let back: ClusterChangeCursor = ClusterChangeCursor::decode(&token).expect("must decode");
    assert_eq!(back.ring, 77);
    assert_eq!(back.positions.get("http://s1"), Some(&12));
    assert_eq!(back.positions.get("http://s2"), Some(&4));
}

/// A shard's own single-log position is not one of these, and reading it as one would resume
/// every group from nowhere and call the result a continuation.
#[test]
fn a_position_from_another_endpoint_is_not_read_as_this_one() {
    assert!(ClusterChangeCursor::decode("412").is_none());
    assert!(ClusterChangeCursor::decode("!!!not base64 json!!!").is_none());
    assert!(ClusterChangeCursor::decode(&encode_token(br#"{"key":"k1"}"#)).is_none(),
        "a query cursor names no group positions");
}

#[test]
fn a_position_has_its_two_members_and_no_other() {
    let decode = |text: &str| ClusterChangeCursor::decode(&encode_token(text.as_bytes()));
    assert_eq!(decode(r#"{"ring":1,"positions":{"a":2}}"#), Some(cursor(1, &[("a", 2)])));
    assert_eq!(decode(r#"{"ring":1}"#), None);
    assert_eq!(decode(r#"{"ring":1,"positions":{},"extra":0}"#), None);
    assert_eq!(decode(r#"{"ring":-1,"positions":{}}"#), None);
    assert_eq!(decode(r#"{"ring":1,"positions":{"a":"b"}}"#), None);
    assert_eq!(decode(r#"{"ring":1,"positions":{"a":2}"#), None, "not JSON");
    assert_eq!(ClusterChangeCursor::decode(&encode_token(&[0xff, 0xfe])), None, "not text");
    assert_eq!(decode(r#"{"ring":18446744073709551615,"positions":{}}"#), Some(cursor(u64::MAX, &[])));
    assert_eq!(ClusterChangeCursor::default(), cursor(0, &[]));
}

fn feed(blocks: &[&str]) -> SseReader {
    let mut reader = SseReader::new();
    for block in blocks {
        reader.push(block.as_bytes());
    }
    reader
}

#[test]
fn the_reader_yields_whole_events_and_skips_keep_alives() {
    let mut reader = feed(&[
        "event: open\ndata: {\"position\":4}\n\n",
        ": keep-alive\n\n",
        "event: change\ndata: {\"lsn\":5}\n\n",
    ]);

    assert_eq!(reader.next_event().map(|(n, _)| n), Some("open".to_string()));
    let (name, data) = reader.next_event().expect("a keep-alive must not hide the event behind it");
    assert_eq!(name, "change");
    assert_eq!(data.get("lsn").and_then(|v| v.as_u64()), Some(5));
    assert!(reader.next_event().is_none());
}

/// Chunk boundaries are the network's, not the protocol's: an event split across two reads is
/// still one event, and a multi-byte character split across them is still that character.
#[test]
fn an_event_split_across_chunks_is_reassembled() {
    let mut reader = SseReader::new();
    let block = "event: change\ndata: {\"key\":\"café\"}\n\n".as_bytes();
    let (head, tail) = block.split_at(20);
    reader.push(head);
    assert!(reader.next_event().is_none(), "a partial block is not an event yet");

    reader.push(tail);
    let (name, data) = reader.next_event().expect("the whole block arrived");
    assert_eq!(name, "change");
    assert_eq!(data.get("key").and_then(|k| k.as_str()), Some("café"));
}

#[test]
fn a_character_split_across_chunks_is_still_that_character() {
    let block = "event: change\ndata: {\"key\":\"café\"}\n\n".as_bytes();
    for at in 0..block.len() {
        let mut reader = SseReader::new();
        reader.push(&block[..at]);
        assert!(reader.next_event().is_none());
        reader.push(&block[at..]);
        let (_, data) = reader.next_event().unwrap();
        assert_eq!(data.get("key").and_then(|k| k.as_str()), Some("café"), "split at {}", at);
    }
}

#[test]
fn the_lines_of_a_block_are_fields() {
    let mut reader = feed(&["event:  a \r\nevent: b\ndata: {\"x\":\ndata: 1}\nid: 9\nno colon\n\nevent: c\ndata: nonsense\n\n"]);
    assert_eq!(reader.next_block(), Some(("b".to_string(), "{\"x\":1}".to_string())), "the last name stands, data adds up");
    assert_eq!(reader.next_event(), Some(("c".to_string(), Json::Null)), "data that is no JSON is null");
    let mut bad = SseReader::new();
    bad.push(b"event: x\ndata: \xff\n\n");
    assert_eq!(bad.next_block(), Some(("x".to_string(), "\u{fffd}".to_string())));
}

#[test]
fn a_subscribers_filter_and_ops_reach_the_shards_untouched() {
    let params = ChangeParams {
        after: None,
        filter: Some(r#"{"status":"active"}"#.to_string()),
        ops: Some("insert,update".to_string()),
        read: None,
    };
    let q = forwarded_params(&params);

    assert!(q.contains(&("read".to_string(), "primary".to_string())),
        "a position is portable across a failover only if the group's own leader issued it");
    assert!(q.contains(&("filter".to_string(), r#"{"status":"active"}"#.to_string())));
    assert!(q.contains(&("ops".to_string(), "insert,update".to_string())));

    let bare = forwarded_params(&ChangeParams {
        after: None, filter: None, ops: None, read: None });
    assert_eq!(bare.len(), 1, "an absent filter is not an empty one: {:?}", bare);

    let resumed = group_query(&bare, Some(41));
    assert_eq!(resumed[1], ("after".to_string(), "41".to_string()));
    assert_eq!(group_query(&bare, None), bare);
    assert_eq!(subscribe_url("http://s1", "a b"), "http://s1/collections/a%20b/changes");
}

fn reply(status: u16, body: &str) -> Option<ShardReply> {
    Some(ShardReply { status, body: body.to_string() })
}

fn opening() -> GroupOpen {
    let targets = vec!["http://a".to_string(), "http://b".to_string()];
    let (open, step) = GroupOpen::begin("http://a".to_string(), "http://a".to_string(), targets);
    assert!(matches!(step, OpenStep::Ask(ref n) if n == "http://a"));
    open
}

#[test]
fn a_subscription_goes_to_whoever_leads() {
    let mut open = opening();
    assert!(matches!(open.open_group(None), OpenStep::Ask(ref n) if n == "http://b"));
    assert!(matches!(open.open_group(reply(200, "")),
        OpenStep::Done { primary: Some(ref p), upstream: Upstream::Live } if p == "http://b"));

    assert!(matches!(opening().open_group(reply(200, "")), OpenStep::Done { primary: None, upstream: Upstream::Live }));
    assert!(matches!(opening().open_group(reply(404, "")), OpenStep::Done { upstream: Upstream::Absent, .. }));
    assert!(matches!(opening().open_group(reply(410, "x")), OpenStep::Done { upstream: Upstream::Refused(_), .. }));

    let mut refused = opening();
    assert!(matches!(refused.open_group(reply(503, "not me")), OpenStep::Ask(_)));
    assert!(matches!(refused.open_group(None),
        OpenStep::Done { upstream: Upstream::NoPrimary(Some(ref r)), .. } if r.body == "not me"));

    let mut down = opening();
    assert!(matches!(down.open_group(None), OpenStep::Ask(_)));
    assert!(matches!(down.open_group(None), OpenStep::Done { upstream: Upstream::Failed, .. }));
}

fn group_feed(text: &str) -> GroupFeed {
    GroupFeed { group: "http://a".to_string(), reader: feed(&[text]), position: Some(3) }
}

#[test]
fn a_feed_hands_on_its_changes_and_nothing_else() {
    let mut f = group_feed(
        "event: open\ndata: {}\n\nevent: change\ndata: {\"no\":1}\n\nevent: change\ndata: {\"lsn\":5,\"key\":\"k\"}\n\nevent: ch");
    match f.pump() {
        Pump::Emit(Merged::Change { shard, lsn, payload }) => {
            assert_eq!((shard.as_str(), lsn), ("http://a", 5));
            assert_eq!(payload, json(r#"{"lsn":5,"key":"k"}"#));
        },
        _ => panic!("a change with a position is handed on"),
    }
    assert_eq!(f.position, Some(5));
    assert!(matches!(f.pump(), Pump::Read));
    assert_eq!(f.position, Some(5));
}

#[test]
fn a_floor_breaks_a_feed_and_any_other_error_reconnects_it() {
    match group_feed("event: error\ndata: {\"error\":\"gone\",\"resume_floor\":9}\n\n").pump() {
        Pump::Broken(Merged::Broken { shard, error, resume_floor }) =>
            assert_eq!((shard.as_str(), error.as_str(), resume_floor), ("http://a", "gone", Some(9))),
        _ => panic!("a reconnect cannot undo a floor"),
    }
    match group_feed("event: error\ndata: {\"resume_floor\":9}\n\n").pump() {
        Pump::Broken(Merged::Broken { error, .. }) => assert_eq!(error, "the shard feed ended"),
        _ => panic!("a reconnect cannot undo a floor"),
    }
    assert!(matches!(group_feed("event: error\ndata: {\"error\":\"stepped down\"}\n\n").pump(), Pump::Reconnect));
}

#[test]
fn an_event_larger_than_an_event_can_be_breaks_the_feed() {
    let mut f = group_feed("");
    assert!(f.receive(&vec![b'x'; MAX_UPSTREAM_EVENT]).is_none());
    match f.receive(b"y") {
        Some(Merged::Broken { error, resume_floor, .. }) => {
            assert_eq!(error, "the shard feed sent an event larger than this router will read");
            assert_eq!(resume_floor, None);
        },
        _ => panic!("too large"),
    }
}

#[test]
fn a_group_is_retried_until_it_refuses() {
    assert!(matches!(run_group("g", &Upstream::Live), GroupAction::Pump));
    assert!(matches!(run_group("g", &Upstream::Absent), GroupAction::Retry { forget_primary: false, after_ms: 1000 }));
    assert!(matches!(run_group("g", &Upstream::NoPrimary(None)), GroupAction::Retry { forget_primary: true, after_ms: 250 }));
    assert!(matches!(run_group("g", &Upstream::Failed), GroupAction::Retry { forget_primary: true, after_ms: 250 }));
    let body = r#"{"error":"too old","resume_floor":7}"#.to_string();
    match run_group("g", &Upstream::Refused(ShardReply { status: 410, body })) {
        GroupAction::Stop(Merged::Broken { shard, error, resume_floor }) =>
            assert_eq!((shard.as_str(), error.as_str(), resume_floor), ("g", "too old", Some(7))),
        _ => panic!("a refused position ends the feed"),
    }
    match run_group("g", &Upstream::Refused(ShardReply { status: 400, body: "oops".to_string() })) {
        GroupAction::Stop(Merged::Broken { error, resume_floor, .. }) =>
            assert_eq!((error.as_str(), resume_floor), ("the shard refused this position", None)),
        _ => panic!("a refused position ends the feed"),
    }
}

fn owners(names: &[&str]) -> Vec<(String, Vec<String>)> {
    names.iter().map(|n| (n.to_string(), vec![])).collect()
}

fn texts(names: &[&str]) -> Vec<String> {
    names.iter().map(|n| n.to_string()).collect()
}

#[test]
fn a_moved_shard_set_says_what_came_and_what_went() {
    assert!(supervise(4, 4, &owners(&["a"]), &texts(&["b"])).is_none());
    match supervise(4, 5, &owners(&["c", "a", "b"]), &texts(&["z", "a"])) {
        Some(Merged::Topology { ring, shards, added, removed }) => {
            assert_eq!(ring, 5);
            assert_eq!(shards, texts(&["a", "b", "c"]));
            assert_eq!(added, texts(&["b", "c"]));
            assert_eq!(removed, texts(&["z"]));
        },
        _ => panic!("a new layout is announced"),
    }
}

fn positions(pairs: &[(&str, u64)]) -> NameMap<u64> {
    cursor(0, pairs).positions
}

#[test]
fn a_stream_frames_what_its_groups_publish() {
    let opened = vec![("http://s2".to_string(), Upstream::Live), ("http://s1".to_string(), Upstream::Absent)];
    let mut s = open_cluster_stream("c", 77, positions(&[("http://s2", 4), ("http://s9", 1)]), &opened).ok().unwrap();
    match s.begin_frame() {
        FrameStep::Frame(f) => {
            assert_eq!(f.name, "open");
            assert_eq!(f.id, None);
            let position = f.body.get("position").and_then(|p| p.as_str()).unwrap().to_string();
            assert_eq!(ClusterChangeCursor::decode(&position), Some(cursor(77, &[("http://s2", 4), ("http://s9", 1)])));
            assert_eq!(f.body.get("shards"), Some(&json(r#"["http://s1","http://s2"]"#)));
            assert_eq!(f.body.get("collection").and_then(|c| c.as_str()), Some("c"));
        },
        _ => panic!("a stream opens with what it watches"),
    }
    assert!(matches!(s.begin_frame(), FrameStep::Receive));

    let change = s.next_frame(Some(Merged::Change { shard: "http://s1".to_string(), lsn: 8, payload: json(r#"{"lsn":8}"#) }));
    assert_eq!(change.name, "change");
    assert_eq!(change.body, json(r#"{"lsn":8,"shard":"http://s1"}"#));
    assert_eq!(ClusterChangeCursor::decode(&change.id.unwrap()),
        Some(cursor(77, &[("http://s1", 8), ("http://s2", 4), ("http://s9", 1)])));

    let moved = s.next_frame(Some(Merged::Topology {
        ring: 78, shards: texts(&["http://s1", "http://s3"]), added: texts(&["http://s3"]), removed: texts(&["http://s2"]),
    }));
    assert_eq!(moved.name, "topology");
    let position = moved.body.get("position").and_then(|p| p.as_str()).unwrap().to_string();
    assert_eq!(ClusterChangeCursor::decode(&position), Some(cursor(78, &[("http://s1", 8)])));
    assert_eq!(moved.body.get("added"), Some(&json(r#"["http://s3"]"#)));
    assert_eq!(moved.body.get("ring").and_then(|r| r.as_u64()), Some(78));

    let broken = s.next_frame(Some(Merged::Broken { shard: "http://s1".to_string(), error: "gone".to_string(), resume_floor: Some(3) }));
    assert_eq!(broken.name, "error");
    assert_eq!(broken.body, json(r#"{"error":"gone","shard":"http://s1","resume_floor":3}"#));
    assert!(matches!(s.begin_frame(), FrameStep::End), "nothing follows the end");
}

#[test]
fn a_stream_whose_supervisor_is_gone_says_so() {
    let opened = vec![("http://s1".to_string(), Upstream::Live)];
    let mut s = open_cluster_stream("c", 1, NameMap::new(), &opened).ok().unwrap();
    let end = s.next_frame(None);
    assert_eq!(end.body, json(r#"{"error":"this router stopped coordinating the stream; resubscribe"}"#));
    assert!(s.ended);
}

fn refused(r: Result<NameMap<u64>, Reply>) -> (u16, Json) {
    let reply = r.err().unwrap();
    match reply.body {
        Body::Json(j) => (reply.status, j),
        Body::Text(t) => (reply.status, Json::Str(t)),
    }
}

#[test]
fn a_position_from_another_layout_is_refused_before_anything_is_opened() {
    let token = cursor(77, &[("http://s1", 12)]).encode();
    assert_eq!(stream_positions(Some(&token), 77, 1).ok().unwrap().get("http://s1"), Some(&12));
    assert_eq!(stream_positions(None, 77, 1).ok().unwrap().len(), 0);
    assert_eq!(refused(stream_positions(Some(&token), 78, 1)),
        (409, json(r#"{"error":"position was issued against a different shard layout; resubscribe"}"#)));
    assert_eq!(refused(stream_positions(Some("412"), 77, 1)),
        (400, json(r#"{"error":"position does not belong to a cluster change stream"}"#)));
    assert_eq!(refused(stream_positions(None, 77, 0)).0, 503);
}

#[test]
fn a_stream_short_one_group_does_not_open() {
    let open = |u: Upstream| {
        let opened = vec![("http://s1".to_string(), Upstream::Live), ("http://s2".to_string(), u)];
        let r = open_cluster_stream("c", 1, NameMap::new(), &opened).err().unwrap();
        match r.body {
            Body::Json(j) => (r.status, r.retry_after, j),
            Body::Text(t) => (r.status, r.retry_after, Json::Str(t)),
        }
    };
    assert_eq!(open(Upstream::Refused(ShardReply { status: 410, body: r#"{"resume_floor":5}"#.to_string() })),
        (410, false, json(r#"{"resume_floor":5,"shard":"http://s2"}"#)));
    assert_eq!(open(Upstream::Refused(ShardReply { status: 400, body: "bad".to_string() })),
        (400, false, Json::Str("bad".to_string())));
    assert_eq!(open(Upstream::NoPrimary(Some(ShardReply { status: 503, body: "\"wait\"".to_string() }))),
        (503, true, Json::Str("wait".to_string())));
    assert_eq!(open(Upstream::Failed),
        (502, false, Json::Str("shard group http://s2 could not be reached for a change stream".to_string())));

    let nowhere = open_cluster_stream("ghost", 1, NameMap::new(), &vec![("http://s1".to_string(), Upstream::Absent)]).err().unwrap();
    assert_eq!(nowhere.status, 404);
}

#[test]
fn a_reader_starts_from_its_groups_own_position() {
    let mut positions = NameMap::new();
    positions.insert("http://s1".to_string(), 12u64);
    positions.insert("http://s2".to_string(), 4);
    assert_eq!(asked_after(&positions, "http://s1"), Some(12));
    assert_eq!(asked_after(&positions, "http://s3"), None);
    assert_eq!(reader_start(&positions, "http://s2", &Upstream::Live), Some(4));
    assert_eq!(reader_start(&positions, "http://s2", &Upstream::Absent), None, "it has published nothing to go on from");
    assert_eq!(reader_start(&positions, "http://s3", &Upstream::Live), None);
}

#[test]
fn a_position_written_as_a_list_is_read_too() {
    let token = encode_token(br#"[77,{"http://s1":12}]"#);
    let back = ClusterChangeCursor::decode(&token).expect("must decode");
    assert_eq!((back.ring, back.positions.get("http://s1")), (77, Some(&12)));
    assert_eq!(ClusterChangeCursor::decode(&encode_token(br#"[77,{"http://s1":12},0]"#)), None);
    assert_eq!(ClusterChangeCursor::decode(&encode_token(br#"[{"http://s1":12},77]"#)), None);
}
