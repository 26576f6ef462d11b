use dewdb::cluster::metadata::{Migration, MigrationPhase};
use dewdb::cluster::migration::{
    backoff, begin_push, ensure_running, forget, locks_kept, mark_reset_completed, note_pushed, pause_after_batch, progress, record_error,
    release_push, reset_completed, CompletedHandover, DataMovementConfig, MigrateDoc, MigrationMeta, MigrationRuns, Push,
    PushAction, PushEvent,
};
use dewdb::cluster::movement::{
    batch_answer, count_outgoing, destinations, found_docs, group_docs, handed_over_after_flip, handover_target, keys_not_ours,
    plan_batch, plan_outgoing, push_all, replicate_handover, reset_answer, reset_destinations, reset_requests, size_bounded_docs,
    source_group, BatchRead, BatchStep, HandoverRecord, KeyRead, KeyScan, RecordAction, RecordEvent, RecordPhase, SizedDoc,
    MIGRATE_BATCH_BYTES,
};
use dewdb::consensus::config::Configuration;
use dewdb::consensus::reconfigure::LogFound;
use dewdb::key_set::KeySet;
use dewdb::name_map::NameMap;
use dewdb::ring::{hash_key, HashRing, RingShard};

fn docs_of(sizes: &[usize]) -> Vec<MigrateDoc> {
    sizes.iter().enumerate().map(|(i, n)| {
        let pad = ("pad".to_string(), serde_json::Value::String("x".repeat(*n)));
        MigrateDoc { key: format!("k{}", i), value: serde_json::Value::Object([pad].into_iter().collect()) }
    }).collect()
}

/// `batch_size` bounds the count only, and a handover of documents near the write limit has to fit in
/// a request the destination takes. One over the budget goes alone.
#[test]
fn a_handover_batch_is_bounded_by_bytes_as_well_as_by_count() {
    // Short of an exact third: `docs_of` wraps the padding in a key and a field name, and the
    // budget counts those too.
    let third = MIGRATE_BATCH_BYTES / 3 - 1024;
    let groups = size_bounded_docs(docs_of(&[third, third, third, third]));
    assert_eq!(groups.iter().map(|g| g.len()).collect::<Vec<_>>(), vec![3, 1]);

    let solo = size_bounded_docs(docs_of(&[16, MIGRATE_BATCH_BYTES + 1, 16]));
    assert_eq!(solo.iter().map(|g| g.len()).collect::<Vec<_>>(), vec![1, 1, 1]);
    assert_eq!(solo[1][0].key, "k1", "the oversized document is sent, not skipped");

    assert!(size_bounded_docs(Vec::new()).is_empty());
}

/// `{"pad":""}` is ten bytes, and a key of two counts with it.
#[test]
fn a_document_counts_with_its_key_and_its_written_value() {
    let fill = MIGRATE_BATCH_BYTES - 24;
    assert_eq!(size_bounded_docs(docs_of(&[fill, 0])).len(), 1, "exactly full");
    assert_eq!(size_bounded_docs(docs_of(&[fill + 1, 0])).len(), 2, "a byte too many");
    let quotes = vec![
        MigrateDoc { key: "k0".into(), value: serde_json::Value::String("\"".repeat(MIGRATE_BATCH_BYTES / 2)) },
        MigrateDoc { key: "k1".into(), value: serde_json::Value::Null },
    ];
    assert_eq!(size_bounded_docs(quotes).len(), 2, "an escaped character counts as it is written");

    let sized = |sizes: &[u128]| -> Vec<usize> {
        let docs = sizes.iter().map(|n| SizedDoc {
            doc: MigrateDoc { key: "k".into(), value: serde_json::Value::Null },
            size: *n,
        }).collect();
        group_docs(docs).iter().map(|g| g.len()).collect()
    };
    let half = MIGRATE_BATCH_BYTES as u128 / 2;
    assert_eq!(sized(&[half, half, 1, half]), vec![2, 2]);
    assert_eq!(sized(&[1, 2 * half, 1]), vec![1, 1, 1]);
}

#[test]
fn movement_batches_are_bounded_and_existing_configs_get_defaults() {
    let default = DataMovementConfig::default();
    assert_eq!(default.batch_size, 64);
    assert_eq!(default.batch_delay_ms, 5);
    assert!(default.validate().is_ok());

    let zero = DataMovementConfig { batch_size: 0, ..DataMovementConfig::default() };
    assert!(zero.validate().is_err());

    let oversized = DataMovementConfig { batch_size: 1025, ..DataMovementConfig::default() };
    assert!(oversized.validate().is_err());
}

fn keys(pairs: &[(&str, &str)]) -> KeySet {
    let mut s = KeySet::new();
    for (a, b) in pairs {
        s.insert(a, b);
    }
    s
}

fn resets(id: &str, source: &str) -> NameMap<NameMap<bool>> {
    let mut sources = NameMap::new();
    sources.insert(source.to_string(), true);
    let mut m = NameMap::new();
    m.insert(id.to_string(), sources);
    m
}

#[test]
fn a_completed_handover_round_trips_through_disk() {
    assert!(MigrationRuns::restored(MigrationMeta::load(None)).current.is_none(),
        "no file means no handover to finish, not an error");

    let target = HashRing { vnodes: 128, shards: Vec::new() };
    let meta = MigrationMeta {
        completed: Some(CompletedHandover {
            id: "m1".into(),
            phase: MigrationPhase::Finalizing,
            target: target.clone(),
            handed_over: keys(&[("t", "k1"), ("t", "k2")]),
        }),
        completed_resets: resets("m1", "127.0.0.1:1"),
    };

    let runs = MigrationRuns::restored(MigrationMeta::load(Some(meta)));
    assert!(runs.completed_resets.get("m1").is_some_and(|s| s.holds("127.0.0.1:1")));
    assert!(runs.coordinating.is_none(), "a coordinator loop is per process, never restored");
    let again = MigrationRuns::restored(runs.persist());
    let current = runs.current.expect("a completed handover must come back");
    assert_eq!(current.id, "m1");
    assert_eq!(current.phase, MigrationPhase::Finalizing);
    assert_eq!(current.target, target,
        "cleanup compares this against the live ring before deleting anything");
    assert!(current.done, "only a finished handover is ever written, so it is done by definition");
    assert_eq!(current.handed_over.len(), 2);
    assert!(current.handed_over.contains("t", "k2"));
    assert_eq!(again.current.expect("writing it again loses nothing").handed_over.len(), 2);
}

#[test]
fn a_migration_starts_with_the_bulk_copy_phase() {
    assert_eq!(MigrationPhase::default(), MigrationPhase::Copy);
}

fn ring(names: &[&str]) -> HashRing {
    HashRing {
        vnodes: 64,
        shards: names.iter().map(|n| RingShard { node_url: format!("http://{}", n), replica_urls: vec![format!("http://{}r", n)] }).collect(),
    }
}

fn plan(id: &str, phase: MigrationPhase) -> Migration {
    Migration { id: id.into(), target: ring(&["a", "b"]), started_by: "op".into(), phase }
}

fn fresh() -> MigrationRuns {
    MigrationRuns::restored(MigrationMeta::load(None))
}

#[test]
fn one_push_runs_at_a_time() {
    let mut runs = fresh();
    let m = plan("m1", MigrationPhase::Copy);
    assert!(!ensure_running(&mut runs, &m, false, true), "nothing to push without storage");
    assert!(!ensure_running(&mut runs, &m, true, false), "nor without leading");
    assert!(ensure_running(&mut runs, &m, true, true));
    assert!(!ensure_running(&mut runs, &m, true, true), "it is running already");
    assert!(!begin_push(&mut runs, &m, 3));
    assert!(begin_push(&mut fresh(), &m, 0), "a copy with nothing to move is done at once");
    assert_eq!(progress(&runs).unwrap().total, 3);
    assert_eq!(note_pushed(&mut runs, "m1", MigrationPhase::Copy, 2, "t", &vec!["k1".into(), "k2".into()]), Ok(()));
    assert_eq!(progress(&runs).unwrap().pushed, 2);
    assert_eq!(note_pushed(&mut runs, "m2", MigrationPhase::Copy, 2, "t", &vec![]),
        Err("migration was replaced while copying".to_string()));
    record_error(&mut runs, "m1", MigrationPhase::Copy, "http://b refused".into());
    assert_eq!(progress(&runs).unwrap().error.as_deref(), Some("http://b refused"));
    release_push(&mut runs, "m1", MigrationPhase::Copy);
    assert!(runs.pushing.is_none());

    mark_reset_completed(&mut runs, "m1", "http://a");
    assert!(reset_completed(&runs, "m1", "http://a"));
    forget(&mut runs, "m1");
    assert!(!reset_completed(&runs, "m1", "http://a"));
    assert!(progress(&runs).is_none());
}

#[test]
fn a_push_runs_to_the_end_and_backs_off_when_it_cannot() {
    assert_eq!([0u32, 1, 2, 3, 4, 40].map(backoff), [200, 400, 800, 1600, 3200, 3200]);
    assert_eq!(pause_after_batch(MigrationPhase::Finalizing, 5), 0, "foreground writes are waiting");
    assert_eq!(pause_after_batch(MigrationPhase::Copy, 5), 5);

    let mut runs = fresh();
    let m = plan("m1", MigrationPhase::Finalizing);
    assert!(ensure_running(&mut runs, &m, true, true));
    begin_push(&mut runs, &m, 2);
    let mut p = Push::begin("m1".into(), MigrationPhase::Finalizing);
    assert_eq!(p.push_until_done(&mut runs, PushEvent::Looked { planned: true, is_leader: true }), PushAction::DrainWrites);
    assert_eq!(p.push_until_done(&mut runs, PushEvent::Drained { planned: true }), PushAction::Plan);
    assert_eq!(p.push_until_done(&mut runs, PushEvent::Planned { total: Ok(2) }), PushAction::ResetDestinations);
    assert_eq!(p.push_until_done(&mut runs, PushEvent::Reset { outcome: Err("down".into()) }), PushAction::Backoff(200));
    assert_eq!(progress(&runs).unwrap().error.as_deref(), Some("down"));
    p.push_until_done(&mut runs, PushEvent::Looked { planned: true, is_leader: true });
    p.push_until_done(&mut runs, PushEvent::Drained { planned: true });
    p.push_until_done(&mut runs, PushEvent::Planned { total: Ok(2) });
    assert_eq!(p.push_until_done(&mut runs, PushEvent::Reset { outcome: Ok(()) }), PushAction::PushAll);
    assert_eq!(p.push_until_done(&mut runs, PushEvent::Pushed { outcome: Ok(()), is_leader: true }), PushAction::Finish);
    assert!(progress(&runs).unwrap().done);

    let mut p = Push::begin("m1".into(), MigrationPhase::Copy);
    assert_eq!(p.push_until_done(&mut runs, PushEvent::Looked { planned: true, is_leader: false }), PushAction::Stop);
}

#[test]
fn only_the_keys_that_change_hands_move() {
    let now = ring(&["a", "b"]);
    let next = ring(&["a", "b", "c"]);
    let scan: Vec<(String, String)> = (0..300).map(|i| ("t".to_string(), format!("k{}", i))).collect();
    let out = plan_outgoing(&Some(now.clone()), &next, "http://ar", &KeyScan::Keys(scan.clone())).ok().unwrap();
    let (built_now, built_next) = (now.build(), next.build());
    let expected = scan.iter().filter(|(c, k)| {
        let h = hash_key(c, k);
        built_now.owner(h).unwrap().node_url == "http://a" && built_next.owner(h).unwrap().node_url == "http://c"
    }).count();
    assert!(expected > 0);
    assert_eq!(count_outgoing(&out), expected);
    let refused = |ring: Option<HashRing>, own: &str, scan: KeyScan| plan_outgoing(&ring, &next, own, &scan).err().unwrap();
    assert_eq!(refused(None, "http://a", KeyScan::NoDatabase), "no database");
    assert_eq!(refused(None, "http://a", KeyScan::Keys(scan.clone())), "no ring to move away from");
    assert_eq!(refused(Some(now.clone()), "http://x", KeyScan::Failed("gone".into())), "this node is not in the ring");
    assert_eq!(refused(Some(now.clone()), "http://a", KeyScan::Failed("gone".into())), "gone");

    assert_eq!(source_group(&now, "http://ar").as_deref(), Some("http://a"));
    assert_eq!(source_group(&now, "http://x"), None);
    assert_eq!(destinations(&built_now, &built_next, "http://a"), vec!["http://c"]);

    let plan = reset_destinations(Some(&now), "http://ar", &next).ok().unwrap();
    assert_eq!((plan.source.as_str(), &plan.destinations), ("http://a", &vec!["http://c".to_string()]));
    let resets = reset_requests(&plan, "m1", MigrationPhase::Finalizing);
    assert_eq!(resets.len(), 1);
    assert_eq!(resets[0].url, "http://c/internal/migrate-reset");
    assert_eq!((resets[0].reset.migration_id.as_str(), resets[0].reset.source.as_str()), ("m1", "http://a"));
    assert_eq!(resets[0].reset.phase, MigrationPhase::Finalizing);
    assert_eq!(reset_destinations(None, "http://a", &next).err().as_deref(), Some("no ring to move away from"));
    assert_eq!(reset_destinations(Some(&now), "http://x", &next).err().as_deref(), Some("this node is not in the ring"));
    assert_eq!(reset_answer("http://c", Ok((200, "200 OK".into()))), Ok(()));
    assert_eq!(reset_answer("http://c", Ok((503, "503 Service Unavailable".into()))),
        Err("http://c refused final reset: 503 Service Unavailable".to_string()));
    assert_eq!(reset_answer("http://c", Err("refused".into())), Err("http://c unreachable: refused".to_string()));
}

#[test]
fn keys_are_pushed_in_batches_of_one_collection() {
    let keys: Vec<(String, String)> = [("t", "a"), ("t", "b"), ("t", "c"), ("u", "d")]
        .iter().map(|(c, k)| (c.to_string(), k.to_string())).collect();
    let batches = push_all(&keys, 2);
    let shape: Vec<(String, usize)> = batches.iter().map(|b| (b.collection.clone(), b.keys.len())).collect();
    assert_eq!(shape, vec![("t".to_string(), 2), ("t".to_string(), 1), ("u".to_string(), 1)]);
}

#[test]
fn copies_left_behind_are_found_by_the_ring() {
    let now = ring(&["a", "b"]);
    let scan: Vec<(String, String)> = (0..50).map(|i| ("t".to_string(), format!("k{}", i))).collect();
    let left = keys_not_ours(&now, "http://a", &scan);
    let built = now.build();
    for (c, k) in &scan {
        assert_eq!(left.contains(c, k), built.owner(hash_key(c, k)).unwrap().node_url == "http://b");
    }
    let record = Some(HandoverRecord { id: "m1".into(), target: now.clone() });
    assert_eq!(handover_target(&record, &fresh(), "m1"), Some(now.clone()));
    assert_eq!(handover_target(&record, &fresh(), "m2"), None);
    assert_eq!(handed_over_after_flip(&Some(now.clone()), &Some(now.clone()), "http://a", &scan).len(), left.len());
    assert_eq!(handed_over_after_flip(&Some(ring(&["a"])), &Some(now), "http://a", &scan).len(), 0,
        "a ring that is not the target deletes nothing");
}

#[test]
fn a_handover_record_that_is_not_held_is_warned_about() {
    let (p, a) = replicate_handover(RecordPhase::Opening, RecordEvent::Opened { log: LogFound::Open });
    assert_eq!(a, RecordAction::Append);
    assert_eq!(replicate_handover(p, RecordEvent::Appended { lsn: Err("full".into()) }).1,
        RecordAction::Done { warnings: vec!["Could not append the handover record: full".into()] });
    let (p, a) = replicate_handover(p, RecordEvent::Appended { lsn: Ok(9) });
    assert_eq!(a, RecordAction::Replicate { lsn: 9 });
    let names = |v: &[&str]| v.iter().map(|n| format!("http://{}", n)).collect::<Vec<_>>();
    let held = |h: &[&str], durable: Result<(), String>| replicate_handover(p, RecordEvent::Replicated {
        holders: names(h), quorum: Configuration::simple(names(&["a", "b", "c"])), durable,
    }).1;
    assert_eq!(held(&["a", "b"], Ok(())), RecordAction::Done { warnings: vec![] });
    assert_eq!(held(&["a"], Err("io".into())), RecordAction::Done { warnings: vec![
        "Handover record did not reach a quorum; a leader change before cleanup strands the copies".into(),
        "Handover record was not made durable here: io".into(),
    ] });
    assert_eq!(replicate_handover(RecordPhase::Opening, RecordEvent::Opened { log: LogFound::Unusable("gone".into()) }).1,
        RecordAction::Done { warnings: vec!["Could not open the config log for the handover record: gone".into()] });
}

#[test]
fn forgetting_a_plan_drops_the_locks_of_its_resets_alone() {
    let locks: Vec<String> = ["migration-reset:m1:127.0.0.1:1", "migration-reset:m11:x", "migration-reset:m2:x", "users", "a:migration-reset:m1:x"]
        .iter().map(|s| s.to_string()).collect();
    assert_eq!(locks_kept(locks, "m1"), vec!["migration-reset:m11:x", "migration-reset:m2:x", "users", "a:migration-reset:m1:x"]);
}

fn read(key: &str, read: Result<Option<u64>, &str>) -> KeyRead {
    KeyRead {
        key: key.to_string(),
        read: read.map(|v| v.map(serde_json::Value::from)).map_err(|e| e.to_string()),
    }
}

#[test]
fn a_batch_sends_the_documents_that_are_still_there() {
    let plan = |read: BatchRead| plan_batch("http://c", "m1", MigrationPhase::Copy, "t", read);
    match plan(BatchRead::Keys(vec![read("a", Ok(Some(1))), read("b", Ok(None)), read("c", Ok(Some(3)))])) {
        BatchStep::Send { url, sent, requests } => {
            assert_eq!((url.as_str(), sent, requests.len()), ("http://c/internal/migrate", 2, 1));
            let batch = &requests[0];
            assert_eq!((batch.migration_id.as_str(), batch.phase, batch.collection.as_str()), ("m1", MigrationPhase::Copy, "t"));
            assert_eq!(batch.docs.iter().map(|d| d.key.as_str()).collect::<Vec<_>>(), vec!["a", "c"]);
            assert_eq!(batch.docs[1].value, serde_json::Value::from(3u64));
        },
        _ => panic!("two documents are to be sent"),
    }
    assert!(matches!(plan(BatchRead::Keys(vec![read("a", Ok(None))])), BatchStep::Skip), "nothing is left to send");
    assert!(matches!(plan(BatchRead::Keys(Vec::new())), BatchStep::Skip));
    let failed = |read: BatchRead| match plan(read) {
        BatchStep::Fail(e) => e,
        _ => panic!("the batch fails"),
    };
    assert_eq!(failed(BatchRead::NoDatabase), "no database");
    assert_eq!(failed(BatchRead::Unusable("locked".into())), "locked");
    assert_eq!(failed(BatchRead::Keys(vec![read("a", Ok(Some(1))), read("b", Err("torn")), read("c", Err("late"))])), "reading t/b: torn");
    assert_eq!(found_docs("t", vec![read("a", Ok(Some(1)))]).ok().unwrap().len(), 1);

    let large = |key: &str| KeyRead {
        key: key.to_string(),
        read: Ok(Some(serde_json::Value::String("x".repeat(MIGRATE_BATCH_BYTES / 2 + 1)))),
    };
    match plan(BatchRead::Keys(vec![large("a"), large("b")])) {
        BatchStep::Send { sent, requests, .. } => assert_eq!((sent, requests.len()), (2, 2), "one request each"),
        _ => panic!("two documents are to be sent"),
    }
}

#[test]
fn a_batch_that_was_not_taken_says_by_whom() {
    assert_eq!(batch_answer("http://c", Ok((200, "200 OK".into()))), Ok(()));
    assert_eq!(batch_answer("http://c", Ok((409, "409 Conflict".into()))), Err("http://c refused the batch: 409 Conflict".to_string()));
    assert_eq!(batch_answer("http://c", Err("timed out".into())), Err("http://c unreachable: timed out".to_string()));
}

#[test]
fn a_handover_record_that_cannot_be_made_is_warned_about() {
    let warnings = |phase: RecordPhase, event: RecordEvent| match replicate_handover(phase, event) {
        (RecordPhase::Over, RecordAction::Done { warnings }) => warnings,
        _ => panic!("it ends there"),
    };
    assert!(warnings(RecordPhase::Opening, RecordEvent::Opened { log: LogFound::NoStorage }).is_empty());
    assert_eq!(warnings(RecordPhase::Appending, RecordEvent::AppendLost { why: "cancelled".into() }),
        vec!["Handover record append task failed: cancelled"]);
    assert_eq!(warnings(RecordPhase::Appending, RecordEvent::Appended { lsn: Err("full".into()) }),
        vec!["Could not append the handover record: full"]);
}
