use dewdb::consensus::progress::{Cursors, Progress, ProgressMeta};
use dewdb::consensus::state::Stored;
use dewdb::name_map::NameMap;
use std::collections::BTreeMap;

fn urls(n: usize) -> Vec<String> {
    (0..n).map(|i| format!("http://r{}", i)).collect()
}

#[test]
fn a_lone_leader_commits_its_own_writes() {
    let mut p = Progress::new();
    assert_eq!(p.advance("c", 7, &[]), 7, "majority of one is itself");
}

#[test]
fn two_of_three_is_a_quorum() {
    let r = urls(2);
    let mut p = Progress::new();

    assert_eq!(p.advance("c", 10, &r), 0, "leader alone is not a majority of three");

    p.observe_ack(&r[0], "c", 10);
    assert_eq!(p.advance("c", 10, &r), 10, "leader plus one replica is two of three");

    p.observe_ack(&r[1], "c", 10);
    assert_eq!(p.advance("c", 10, &r), 10);
}

#[test]
fn commits_the_highest_lsn_a_majority_holds_not_the_highest_seen() {
    let r = urls(4);
    let mut p = Progress::new();
    p.observe_ack(&r[0], "c", 9);
    p.observe_ack(&r[1], "c", 5);
    p.observe_ack(&r[2], "c", 5);
    p.observe_ack(&r[3], "c", 1);

    // sorted: 20, 9, 5, 5, 1 -> majority of five is the 3rd
    assert_eq!(p.advance("c", 20, &r), 5,
        "one fast replica must not carry an entry the majority lacks");
}

#[test]
fn the_watermark_never_moves_backwards() {
    let r = urls(2);
    let mut p = Progress::new();
    p.observe_ack(&r[0], "c", 10);
    assert_eq!(p.advance("c", 10, &r), 10);

    // a replica wiped and resynced reports less than it did before
    p.matched.clear();
    assert_eq!(p.advance("c", 10, &r), 10, "already-committed entries stay committed");
}

#[test]
fn collections_commit_independently() {
    let r = urls(2);
    let mut p = Progress::new();
    p.observe_ack(&r[0], "alpha", 4);
    p.observe_ack(&r[1], "alpha", 4);

    assert_eq!(p.advance("alpha", 4, &r), 4);
    assert_eq!(p.advance("beta", 6, &r), 0,
        "an ack for alpha must not commit beta, whose frames nobody has");
    assert_eq!(p.committed("alpha"), 4);
    assert_eq!(p.max_committed(), 4);
}

#[test]
fn acks_only_ratchet_up() {
    let mut p = Progress::new();
    p.observe_ack("http://a", "c", 9);
    p.observe_ack("http://a", "c", 4);
    assert_eq!(p.matched("http://a", "c"), 9, "a late lower ack must not rewind");
}

fn owned(pairs: &[(&str, u64)]) -> NameMap<u64> {
    let mut m = NameMap::new();
    for (n, l) in pairs {
        m.insert(n.to_string(), *l);
    }
    m
}

fn hint(replica: &str, pairs: &[(&str, u64)]) -> Cursors {
    let mut h = NameMap::new();
    h.insert(replica.to_string(), owned(pairs));
    h
}

#[test]
fn a_fresh_leader_seeds_each_cursor_at_its_own_tail() {
    let r = urls(2);
    let mut p = Progress::new();
    p.reinit_as_leader(&r, &owned(&[("users", 10), ("orders", 4)]), &NameMap::new());

    assert_eq!(p.sent_through(&r[0], "users"), Some(10));
    assert_eq!(p.sent_through(&r[1], "orders"), Some(4));
    assert_eq!(p.sent_through(&r[0], "absent"), None, "collections we do not hold get no cursor");
}

#[test]
fn a_persisted_hint_may_only_lower_the_cursor() {
    let r = urls(1);

    let mut p = Progress::new();
    p.reinit_as_leader(&r, &owned(&[("users", 10)]), &hint(&r[0], &[("users", 6)]));
    assert_eq!(p.sent_through(&r[0], "users"), Some(6),
        "a lower hint saves probing back down to where the replica actually is");

    let mut p = Progress::new();
    p.reinit_as_leader(&r, &owned(&[("users", 10)]), &hint(&r[0], &[("users", 99)]));
    assert_eq!(p.sent_through(&r[0], "users"), Some(10),
        "a hint above our own tail must be clamped; trusting it would skip frames \
         the replica lacks and leave the chain check to catch what we should not have sent");
}

#[test]
fn a_restored_cursor_is_never_quorum_evidence() {
    let r = urls(2);
    let mut p = Progress::new();

    p.observe_ack(&r[0], "users", 10);
    p.observe_ack(&r[1], "users", 10);
    assert_eq!(p.advance("users", 10, &r), 10);

    p.reinit_as_leader(&r, &owned(&[("users", 10)]), &hint(&r[0], &[("users", 10)]));

    assert_eq!(p.matched(&r[0], "users"), 0, "a new term starts with no match evidence");
    assert_eq!(p.committed("users"), 0);
    assert_eq!(p.advance("users", 10, &r), 0,
        "a cursor restored from disk says where to resume sending, never that a replica holds it");
}

#[test]
fn cursors_ratchet_up_but_rewind_on_demand() {
    let mut p = Progress::new();
    p.note_sent("http://a", "users", 7);
    p.note_sent("http://a", "users", 4);
    assert_eq!(p.sent_through("http://a", "users"), Some(7), "a late lower send must not rewind");

    p.rewind_to("http://a", "users", 2);
    assert_eq!(p.sent_through("http://a", "users"), Some(2),
        "a refusal must rewind, or the leader keeps sending past what the replica has");
}

#[test]
fn reset_clears_the_cursors_too() {
    let mut p = Progress::new();
    p.note_sent("http://a", "users", 7);
    p.reset();
    assert_eq!(p.sent_through("http://a", "users"), None);
}

type Rows = BTreeMap<String, BTreeMap<String, u64>>;

/// A record as a file holds it.
fn saved(meta: &ProgressMeta) -> String {
    let mut rows = Rows::new();
    for i in 0..meta.sent_through.len() {
        let cursors = meta.sent_through.value_at(i);
        let row = (0..cursors.len()).map(|k| (cursors.key_at(k).clone(), *cursors.value_at(k))).collect();
        rows.insert(meta.sent_through.key_at(i).clone(), row);
    }
    serde_json::to_string(&BTreeMap::from([("sent_through", rows)])).unwrap()
}

/// What reading a file brings; `None` is no file.
fn stored(file: Option<&str>) -> Stored<ProgressMeta> {
    let text = match file {
        Some(text) => text,
        None => return Stored::Absent,
    };
    match serde_json::from_str::<BTreeMap<String, Rows>>(text) {
        Ok(read) => {
            let mut sent_through = NameMap::new();
            for (url, row) in &read["sent_through"] {
                let mut cursors = NameMap::new();
                for (collection, lsn) in row {
                    cursors.insert(collection.clone(), *lsn);
                }
                sent_through.insert(url.clone(), cursors);
            }
            Stored::Read(ProgressMeta { sent_through })
        },
        Err(e) => Stored::Corrupt(e.to_string()),
    }
}

#[test]
fn progress_meta_round_trips_and_tolerates_absence() {
    assert_eq!(ProgressMeta::load(stored(None)).sent_through.len(), 0, "no file is a normal cold start, not an error");

    let meta = ProgressMeta { sent_through: hint("http://a", &[("users", 12)]) };
    let back = ProgressMeta::load(stored(Some(&saved(&meta))));
    assert_eq!(back.sent_through, meta.sent_through);
    assert_eq!(back.sent_through.get("http://a").and_then(|m| m.get("users")), Some(&12));

    assert_eq!(ProgressMeta::load(stored(Some("{ truncated"))).sent_through.len(), 0,
        "an unreadable hint costs a probe, so it must not block startup");
    assert_eq!(ProgressMeta::load(Stored::Failed("no permission".to_string())).sent_through.len(), 0);
}

#[test]
fn reset_forgets_everything_from_the_previous_term() {
    let r = urls(2);
    let mut p = Progress::new();
    p.observe_ack(&r[0], "c", 10);
    p.advance("c", 10, &r);

    p.reset();
    assert_eq!(p.matched(&r[0], "c"), 0);
    assert_eq!(p.committed("c"), 0);
    assert_eq!(p.advance("c", 10, &r), 0, "a new leader must re-earn its quorum");
}
