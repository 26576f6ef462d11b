use dewdb::config::NodeConfig;
use dewdb::consensus::progress::Progress;
use dewdb::maintenance::{
    maintenance_task, retention_for, should_compact, snapshot_step, DeadRatio, MaintenanceConfig, Retention, SavedAt, SnapshotStep,
    SpaceUsage, Turn, TurnAction, TurnEvent, TurnPhase,
};

fn ratio(r: f64) -> DeadRatio {
    DeadRatio { within_unit: (0.0..=1.0).contains(&r), shown: r.to_string() }
}

fn maint(r: f64, min_bytes: u64) -> MaintenanceConfig {
    MaintenanceConfig {
        enabled: true,
        interval_secs: 60,
        compaction_dead_ratio: ratio(r),
        compaction_min_wal_bytes: min_bytes,
        snapshot_interval_secs: 300,
        wal_retention_bytes: 64 * 1024 * 1024,
    }
}

fn dead_ratio(u: &SpaceUsage) -> f64 {
    if u.total_bytes == 0 {
        return 0.0;
    }
    u.total_bytes.saturating_sub(u.live_bytes) as f64 / u.total_bytes as f64
}

fn compacts(u: &SpaceUsage, threshold: f64, min_bytes: u64, is_leader: bool) -> bool {
    should_compact(u, &maint(threshold, min_bytes), is_leader, dead_ratio(u) >= threshold)
}

#[test]
fn compaction_trigger_respects_both_ratio_and_floor() {
    let mostly_dead_but_tiny = SpaceUsage { total_bytes: 900, live_bytes: 10, live_keys: 1 };
    assert!(!compacts(&mostly_dead_but_tiny, 0.4, 1000, true),
        "a log under the byte floor must not be compacted no matter how dead it is");

    let big_but_fresh = SpaceUsage { total_bytes: 10_000, live_bytes: 9_000, live_keys: 10 };
    assert!(!compacts(&big_but_fresh, 0.4, 1000, true), "10% dead is below the 40% threshold");

    let big_and_dead = SpaceUsage { total_bytes: 10_000, live_bytes: 6_000, live_keys: 10 };
    assert!(compacts(&big_and_dead, 0.4, 1000, true), "exactly at the threshold must trigger");

    let empty = SpaceUsage { total_bytes: 0, live_bytes: 0, live_keys: 0 };
    assert_eq!(dead_ratio(&empty), 0.0, "an empty log must not divide by zero");
    assert!(!compacts(&empty, 0.4, 1000, true));
}

#[test]
fn a_replica_never_compacts_however_dead_its_log() {
    let past_every_threshold = SpaceUsage { total_bytes: 10_000_000, live_bytes: 1, live_keys: 1 };

    assert!(compacts(&past_every_threshold, 0.4, 1000, true));
    assert!(!compacts(&past_every_threshold, 0.4, 1000, false),
        "compaction drops superseded frames, which breaks the chain repair streams over");
}

#[test]
fn maintenance_config_defaults_and_validation() {
    let cfg = MaintenanceConfig::default();
    assert!(cfg.enabled);
    assert!(cfg.validate().is_ok());

    let parsed = || NodeConfig::with_defaults("n", "shard", "127.0.0.1:1");
    assert!(parsed().maintenance.enabled, "maintenance must default on when the block is absent");
    assert_eq!(parsed().maintenance.compaction_dead_ratio, ratio(0.4));

    let mut partial = parsed();
    partial.maintenance.compaction_dead_ratio = ratio(0.75);
    assert_eq!(partial.maintenance.compaction_dead_ratio.shown, "0.75");
    assert_eq!(partial.maintenance.snapshot_interval_secs, 300, "unspecified knobs keep their defaults");
    assert!(partial.validate(Ok(())).is_ok());

    let mut bad = parsed();
    bad.maintenance.compaction_dead_ratio = ratio(1.5);
    assert!(bad.validate(Ok(())).is_err(), "an out-of-range ratio must be rejected at boot");

    let mut zero = parsed();
    zero.maintenance.interval_secs = 0;
    assert!(zero.validate(Ok(())).is_err(), "a zero interval would spin the scheduler");
}

#[test]
fn the_floor_is_the_furthest_behind_replication_target() {
    let targets = vec!["http://ahead".to_string(), "http://behind".to_string()];
    let mut p = Progress::new();
    p.observe_ack("http://ahead", "c", 900);
    p.observe_ack("http://behind", "c", 12);
    let cfg = maint(0.4, 8 << 20);

    let r = retention_for(&targets, &p, "c", &cfg, true);
    assert_eq!(r.above_lsn, 12, "the replica at 900 needs nothing the one at 12 does not");
    assert_eq!(r.max_bytes, cfg.wal_retention_bytes);
    assert_eq!(r.min_reclaim_bytes, cfg.compaction_min_wal_bytes);
    assert_eq!(retention_for(&targets, &p, "never-written", &cfg, true).above_lsn, 0);
    assert_eq!(retention_for(&targets, &p, "c", &cfg, false).min_reclaim_bytes, 0,
        "an operator asking for the space back gets the rewrite either way");
}

#[test]
fn a_node_with_no_replication_target_retains_nothing() {
    let r = retention_for(&[], &Progress::new(), "c", &maint(0.4, 8 << 20), true);
    assert_eq!(r.max_bytes, 0, "nothing downstream to protect");
    assert_eq!(r.min_reclaim_bytes, 0, "and so nothing to weigh a rewrite against either");
    assert_eq!(r, Retention::none());
}

const SECOND: u64 = 1_000_000_000;

#[test]
fn an_index_is_saved_when_it_is_due_and_has_changed() {
    let last = Some(SavedAt { at: 100 * SECOND, lsn: 7 });
    assert_eq!(snapshot_step(None, 0, 300, false, 7), SnapshotStep::Save);
    assert_eq!(snapshot_step(last, 399 * SECOND, 300, false, 9), SnapshotStep::Wait);
    assert_eq!(snapshot_step(last, 400 * SECOND, 300, false, 7), SnapshotStep::NoteUnchanged);
    assert_eq!(snapshot_step(last, 400 * SECOND, 300, false, 8), SnapshotStep::Save);
    assert_eq!(snapshot_step(last, 101 * SECOND, 300, true, 7), SnapshotStep::Save, "a compaction always brings one");

    let late = Some(SavedAt { at: 900_000_000, lsn: 7 });
    assert_eq!(snapshot_step(late, 300_100_000_000, 300, false, 8), SnapshotStep::Wait, "299.2 s are 299 whole seconds");
    assert_eq!(snapshot_step(late, 300_900_000_000, 300, false, 8), SnapshotStep::Save);
}

/// One collection's turn with this event, on a node with one replica that holds up to 12.
fn turn_with(turn: Turn, cfg: &MaintenanceConfig, event: TurnEvent) -> (Turn, TurnAction) {
    let mut p = Progress::new();
    p.observe_ack("http://behind", "c", 12);
    maintenance_task(turn, cfg, &["http://behind".to_string()], &p, "c", event)
}

#[test]
fn a_collections_turn_measures_compacts_and_saves() {
    let cfg = maint(0.4, 1000);
    let dead = SpaceUsage { total_bytes: 10_000, live_bytes: 6_000, live_keys: 10 };
    let start = Turn { phase: TurnPhase::Start, last: None };
    let (t, a) = turn_with(start, &cfg, TurnEvent::Begun { released: false });
    assert_eq!(a, TurnAction::Measure);
    let (t, a) = turn_with(t, &cfg, TurnEvent::Measured { usage: dead, ratio_reached: true, is_leader: true, now: 10 * SECOND, lsn: 4 });
    assert_eq!(a, TurnAction::Compact(Retention { above_lsn: 12, max_bytes: 64 * 1024 * 1024, min_reclaim_bytes: 1000 }));
    let (t, a) = turn_with(t, &cfg, TurnEvent::Compacted { ran: true, now: 11 * SECOND, lsn: 4 });
    assert_eq!(a, TurnAction::SaveIndex);
    let (t, a) = turn_with(t, &cfg, TurnEvent::Saved { now: 12 * SECOND, lsn: 4 });
    assert_eq!((t.last, a), (Some(SavedAt { at: 12 * SECOND, lsn: 4 }), TurnAction::Done));

    let (t, a) = turn_with(Turn { phase: TurnPhase::Start, last: t.last }, &cfg, TurnEvent::Begun { released: true });
    assert_eq!((t.last, a), (None, TurnAction::Done), "a released collection is forgotten");
}

/// The decision can be right while the scheduler hands it a constant, so this drives the scheduler on
/// a replica and on a leader over the same log.
#[test]
fn the_scheduler_compacts_only_where_it_leads_but_snapshots_everywhere() {
    let mut cfg = maint(0.1, 0);
    cfg.interval_secs = 1;
    cfg.snapshot_interval_secs = 0;
    let churned = SpaceUsage { total_bytes: 2_000, live_bytes: 100, live_keys: 1 };

    let tick = |is_leader: bool| {
        let (mut compacted, mut saved) = (false, false);
        let mut turn = Turn { phase: TurnPhase::Start, last: None };
        let mut event = TurnEvent::Begun { released: false };
        loop {
            let (next, action) = turn_with(turn, &cfg, event);
            turn = next;
            event = match action {
                TurnAction::Measure => TurnEvent::Measured {
                    usage: churned,
                    ratio_reached: dead_ratio(&churned) >= 0.1,
                    is_leader,
                    now: SECOND,
                    lsn: 20,
                },
                TurnAction::Compact(_) => {
                    compacted = true;
                    TurnEvent::Compacted { ran: true, now: SECOND, lsn: 20 }
                },
                TurnAction::SaveIndex => {
                    saved = true;
                    TurnEvent::Saved { now: SECOND, lsn: 20 }
                },
                TurnAction::Done => return (compacted, saved),
            };
        }
    };

    assert_eq!(tick(true), (true, true), "the leader's scheduler must reclaim the dead bytes");
    assert_eq!(tick(false), (false, true), "a replica must leave the log alone, but it must still snapshot");
}

#[test]
fn a_failed_step_ends_the_turn_and_keeps_what_was_remembered() {
    let cfg = maint(0.4, 1000);
    let last = Some(SavedAt { at: SECOND, lsn: 3 });
    let measuring = Turn { phase: TurnPhase::Measuring, last };
    assert_eq!(turn_with(measuring, &cfg, TurnEvent::MeasureFailed), (Turn { phase: TurnPhase::Over, last }, TurnAction::Done));
    let saving = Turn { phase: TurnPhase::Saving, last };
    assert_eq!(turn_with(saving, &cfg, TurnEvent::SaveFailed), (Turn { phase: TurnPhase::Over, last }, TurnAction::Done));
}
