//! When a collection is compacted, what a compaction must keep, and when its index is saved.

use crate::consensus::lease::since;
use crate::consensus::progress::{Progress, ProgressView};
use crate::ring::complaint;
use crate::text::{cat2, texts};
use vstd::prelude::*;

verus! {

/// The configured share of dead bytes, as far as a check reads it: whether it lies between 0 and 1,
/// and how it is written.
#[derive(Debug, PartialEq, Eq)]
pub struct DeadRatio {
    pub within_unit: bool,
    pub shown: String,
}

#[derive(Debug, PartialEq, Eq)]
pub struct MaintenanceConfig {
    pub enabled: bool,
    pub interval_secs: u64,
    pub compaction_dead_ratio: DeadRatio,
    pub compaction_min_wal_bytes: u64,
    pub snapshot_interval_secs: u64,
    pub wal_retention_bytes: u64,
}

impl Default for MaintenanceConfig {
    fn default() -> (r: Self)
        ensures
            r.enabled,
            r.interval_secs == 60,
            r.compaction_dead_ratio.within_unit,
            r.compaction_dead_ratio.shown@ == "0.4"@,
            r.compaction_min_wal_bytes == 8 * 1024 * 1024,
            r.snapshot_interval_secs == 300,
            r.wal_retention_bytes == 64 * 1024 * 1024,
    {
        Self {
            enabled: true,
            interval_secs: 60,
            compaction_dead_ratio: DeadRatio { within_unit: true, shown: "0.4".to_owned() },
            compaction_min_wal_bytes: 8 * 1024 * 1024,
            snapshot_interval_secs: 300,
            // A little over one log rotation, so a replica lagging by up to a whole rotation still
            // repairs from frames. Past it the tail costs more to carry than the snapshot it saves.
            wal_retention_bytes: 64 * 1024 * 1024,
        }
    }
}

impl MaintenanceConfig {
    /// Why the settings cannot be used, if they cannot.
    pub open spec fn fault(self) -> Option<Seq<char>> {
        if !self.compaction_dead_ratio.within_unit {
            Some("maintenance.compaction_dead_ratio must be between 0.0 and 1.0, got "@ + self.compaction_dead_ratio.shown@)
        } else if self.enabled && self.interval_secs == 0 {
            Some("maintenance.interval_secs must be greater than zero"@)
        } else {
            None
        }
    }

    pub fn validate(&self) -> (r: Result<(), String>)
        ensures
            complaint(r) == self.fault(),
    {
        if !self.compaction_dead_ratio.within_unit {
            return Err(cat2(
                "maintenance.compaction_dead_ratio must be between 0.0 and 1.0, got ",
                self.compaction_dead_ratio.shown.as_str(),
            ));
        }
        if self.enabled && self.interval_secs == 0 {
            return Err("maintenance.interval_secs must be greater than zero".to_owned());
        }
        Ok(())
    }
}

/// What a log occupies.
#[derive(Clone, Copy, Debug, PartialEq, Eq, Structural)]
pub struct SpaceUsage {
    pub total_bytes: u64,
    pub live_bytes: u64,
    pub live_keys: u64,
}

/// Whether a log is worth compacting here.
pub open spec fn compacts(usage: SpaceUsage, cfg: MaintenanceConfig, is_leader: bool, ratio_reached: bool) -> bool {
    is_leader && usage.total_bytes >= cfg.compaction_min_wal_bytes && ratio_reached
}

/// Compaction drops superseded frames, which breaks a replica's chain and forces the leader into a
/// full snapshot resync on the next repair, so only a leader compacts. A mostly dead but tiny log is
/// not worth rewriting, so the share and the floor must both hold. `ratio_reached` says whether the
/// dead share of `usage` is at least the configured one.
pub fn should_compact(usage: &SpaceUsage, cfg: &MaintenanceConfig, is_leader: bool, ratio_reached: bool) -> (r: bool)
    ensures
        r == compacts(*usage, *cfg, is_leader, ratio_reached),
{
    is_leader && usage.total_bytes >= cfg.compaction_min_wal_bytes && ratio_reached
}

/// What a compaction must not destroy.
#[derive(Clone, Copy, Debug, PartialEq, Eq, Structural)]
pub struct Retention {
    /// Frames above this LSN are still needed downstream.
    pub above_lsn: u64,
    /// How much of them is kept at most.
    pub max_bytes: u64,
    /// A rewrite that reclaims less than this is not worth it.
    pub min_reclaim_bytes: u64,
}

impl Retention {
    /// Nothing downstream to protect.
    pub fn none() -> (r: Self)
        ensures
            r == (Retention { above_lsn: 0, max_bytes: 0, min_reclaim_bytes: 0 }),
    {
        Retention { above_lsn: 0, max_bytes: 0, min_reclaim_bytes: 0 }
    }
}

/// `r` is the least that any of the targets holds of a collection.
pub open spec fn least_held(p: ProgressView, targets: Seq<Seq<char>>, collection: Seq<char>, r: u64) -> bool {
    &&& forall|i: int| 0 <= i < targets.len() ==> r <= p.holds(#[trigger] targets[i], collection)
    &&& exists|i: int| 0 <= i < targets.len() && r == p.holds(#[trigger] targets[i], collection)
}

/// The least that any of the targets holds of a collection.
pub open spec fn least(p: ProgressView, targets: Seq<Seq<char>>, collection: Seq<char>) -> u64
    decreases targets.len(),
{
    if targets.len() == 0 {
        0
    } else {
        let last = p.holds(targets.last(), collection);
        let others = least(p, targets.drop_last(), collection);
        if targets.len() == 1 || last < others { last } else { others }
    }
}

proof fn lemma_least(p: ProgressView, targets: Seq<Seq<char>>, collection: Seq<char>)
    requires
        targets.len() > 0,
    ensures
        least_held(p, targets, collection, least(p, targets, collection)),
    decreases targets.len(),
{
    let n = targets.len() - 1;
    let others = targets.drop_last();
    let r = least(p, targets, collection);
    assert(r == p.holds(targets[n], collection) || targets.len() > 1);
    if targets.len() > 1 {
        lemma_least(p, others, collection);
        let i = choose|i: int| 0 <= i < others.len() && least(p, others, collection) == p.holds(#[trigger] others[i], collection);
        assert(targets[i] == others[i]);
        assert forall|j: int| 0 <= j < targets.len() implies r <= p.holds(#[trigger] targets[j], collection) by {
            if j < n {
                assert(others[j] == targets[j]);
            }
        }
    }
}

/// What a compaction must keep: nothing where there are no targets, and else what the target that is
/// furthest behind still needs.
pub open spec fn retained(p: ProgressView, targets: Seq<Seq<char>>, collection: Seq<char>, cfg: MaintenanceConfig, scheduled: bool) -> Retention {
    if targets.len() == 0 {
        Retention { above_lsn: 0, max_bytes: 0, min_reclaim_bytes: 0 }
    } else {
        Retention {
            above_lsn: least(p, targets, collection),
            max_bytes: cfg.wal_retention_bytes,
            min_reclaim_bytes: if scheduled { cfg.compaction_min_wal_bytes } else { 0 },
        }
    }
}

/// What a compaction of this collection must not destroy: the frames the furthest-behind
/// replication target still needs. A target this node has heard nothing from for the collection
/// counts as needing everything, which `max_bytes` is what bounds.
///
/// `min_reclaim_bytes` is the scheduler's guard and not an operator's: an operator asks for the
/// space back and gets the rewrite whether or not the tail leaves much to reclaim.
pub fn retention_for(
    targets: &[String],
    progress: &Progress,
    collection: &str,
    cfg: &MaintenanceConfig,
    scheduled: bool,
) -> (r: Retention)
    ensures
        r == retained(progress@, texts(targets@), collection@, *cfg, scheduled),
        targets@.len() > 0 ==> least_held(progress@, texts(targets@), collection@, r.above_lsn),
{
    if targets.len() == 0 {
        return Retention::none();
    }
    let ghost ts = texts(targets@);
    let mut lowest: u64 = progress.matched(targets[0].as_str(), collection);
    let mut i: usize = 1;
    assert(ts[0] == targets@[0]@);
    assert(ts.take(1).last() == ts[0]);
    while i < targets.len()
        invariant
            ts == texts(targets@),
            1 <= i <= targets@.len(),
            lowest == least(progress@, ts.take(i as int), collection@),
        decreases targets@.len() - i,
    {
        let held: u64 = progress.matched(targets[i].as_str(), collection);
        proof {
            assert(ts[i as int] == targets@[i as int]@);
            assert(ts.take(i + 1).drop_last() =~= ts.take(i as int));
        }
        if held < lowest {
            lowest = held;
        }
        i += 1;
    }
    proof {
        assert(ts.take(i as int) =~= ts);
        lemma_least(progress@, ts, collection@);
    }
    Retention {
        above_lsn: lowest,
        max_bytes: cfg.wal_retention_bytes,
        min_reclaim_bytes: if scheduled { cfg.compaction_min_wal_bytes } else { 0 },
    }
}

/// When a collection's index was last saved, in nanoseconds of a monotonic clock, and at which LSN.
#[derive(Clone, Copy, Debug, PartialEq, Eq, Structural)]
pub struct SavedAt {
    pub at: u64,
    pub lsn: u64,
}

/// What the scheduler does about a collection's index.
#[derive(Clone, Copy, Debug, PartialEq, Eq, Structural)]
pub enum SnapshotStep {
    /// Not due yet.
    Wait,
    /// Due, but nothing was written since the last one: only the time is noted.
    NoteUnchanged,
    Save,
}

/// Whether as many whole seconds have passed since the last snapshot as lie between two, or there was
/// none.
pub open spec fn is_due(last: Option<SavedAt>, now: u64, interval_secs: u64) -> bool {
    last is None || since(now, last->0.at) / 1_000_000_000 >= interval_secs
}

/// Index snapshots are not gated on leadership: they add a file and remove nothing, and a replica
/// that never snapshots replays every log at boot. A compaction always brings one; otherwise one is
/// due when the interval has passed, or when there has been none.
pub fn snapshot_step(
    last: Option<SavedAt>,
    now: u64,
    snapshot_interval_secs: u64,
    compacted: bool,
    current_lsn: u64,
) -> (r: SnapshotStep)
    ensures
        r == (if !is_due(last, now, snapshot_interval_secs) && !compacted {
            SnapshotStep::Wait
        } else if !compacted && last is Some && last->0.lsn == current_lsn {
            SnapshotStep::NoteUnchanged
        } else {
            SnapshotStep::Save
        }),
{
    let due = match last {
        Some(s) => now.saturating_sub(s.at) / 1_000_000_000 >= snapshot_interval_secs,
        None => true,
    };
    if !(due || compacted) {
        return SnapshotStep::Wait;
    }
    let unchanged = match last {
        Some(s) => s.lsn == current_lsn,
        None => false,
    };
    if !compacted && unchanged {
        return SnapshotStep::NoteUnchanged;
    }
    SnapshotStep::Save
}

/// What one collection's turn in the scheduler is waiting for.
#[derive(Clone, Copy, Debug, PartialEq, Eq, Structural)]
pub enum TurnPhase {
    Start,
    Measuring,
    Compacting,
    Saving,
    Over,
}

/// One collection's turn in the scheduler. `last` is what is remembered of its last snapshot.
#[derive(Clone, Copy, Debug, PartialEq, Eq, Structural)]
pub struct Turn {
    pub phase: TurnPhase,
    pub last: Option<SavedAt>,
}

/// What happened outside.
#[derive(Clone, Copy, Debug, PartialEq, Eq, Structural)]
pub enum TurnEvent {
    /// The turn begins; whether the collection has been released meanwhile.
    Begun { released: bool },
    /// The log was measured: whether its dead share is at least the configured one, and whether this
    /// node leads.
    Measured { usage: SpaceUsage, ratio_reached: bool, is_leader: bool, now: u64, lsn: u64 },
    MeasureFailed,
    /// The compaction ended; whether it ran to the end.
    Compacted { ran: bool, now: u64, lsn: u64 },
    Saved { now: u64, lsn: u64 },
    SaveFailed,
}

/// What to do next for the collection.
#[derive(Clone, Copy, Debug, PartialEq, Eq, Structural)]
pub enum TurnAction {
    Measure,
    Compact(Retention),
    SaveIndex,
    Done,
}

impl Turn {
    pub open spec fn to(self, phase: TurnPhase, last: Option<SavedAt>) -> Turn {
        Turn { phase, last }
    }

    /// After the compaction was skipped or has ended.
    pub open spec fn settle(self, interval_secs: u64, compacted: bool, now: u64, lsn: u64) -> (Turn, TurnAction) {
        if !is_due(self.last, now, interval_secs) && !compacted {
            (self.to(TurnPhase::Over, self.last), TurnAction::Done)
        } else if !compacted && self.last is Some && self.last->0.lsn == lsn {
            (self.to(TurnPhase::Over, Some(SavedAt { at: now, lsn })), TurnAction::Done)
        } else {
            (self.to(TurnPhase::Saving, self.last), TurnAction::SaveIndex)
        }
    }

    /// The state and the action after an event, where a compaction would have to keep `keep`. An event
    /// that the turn is not waiting for ends it.
    pub open spec fn next(self, cfg: MaintenanceConfig, keep: Retention, event: TurnEvent) -> (Turn, TurnAction) {
        let interval = cfg.snapshot_interval_secs;
        match (self.phase, event) {
            (TurnPhase::Start, TurnEvent::Begun { released }) => if released {
                (self.to(TurnPhase::Over, None), TurnAction::Done)
            } else {
                (self.to(TurnPhase::Measuring, self.last), TurnAction::Measure)
            },
            (TurnPhase::Measuring, TurnEvent::Measured { usage, ratio_reached, is_leader, now, lsn }) => if compacts(
                usage,
                cfg,
                is_leader,
                ratio_reached,
            ) {
                (self.to(TurnPhase::Compacting, self.last), TurnAction::Compact(keep))
            } else {
                self.settle(interval, false, now, lsn)
            },
            (TurnPhase::Compacting, TurnEvent::Compacted { ran, now, lsn }) => self.settle(interval, ran, now, lsn),
            (TurnPhase::Saving, TurnEvent::Saved { now, lsn }) => (
                self.to(TurnPhase::Over, Some(SavedAt { at: now, lsn })),
                TurnAction::Done,
            ),
            _ => (self.to(TurnPhase::Over, self.last), TurnAction::Done),
        }
    }
}

fn settled(turn: Turn, interval_secs: u64, compacted: bool, now: u64, lsn: u64) -> (r: (Turn, TurnAction))
    ensures
        r == turn.settle(interval_secs, compacted, now, lsn),
{
    match snapshot_step(turn.last, now, interval_secs, compacted, lsn) {
        SnapshotStep::Wait => (Turn { phase: TurnPhase::Over, last: turn.last }, TurnAction::Done),
        SnapshotStep::NoteUnchanged => (
            Turn { phase: TurnPhase::Over, last: Some(SavedAt { at: now, lsn }) },
            TurnAction::Done,
        ),
        SnapshotStep::Save => (Turn { phase: TurnPhase::Saving, last: turn.last }, TurnAction::SaveIndex),
    }
}

/// One step of the scheduler for one collection, whose replication targets and their progress are
/// those that a compaction must keep frames for.
pub fn maintenance_task(
    turn: Turn,
    cfg: &MaintenanceConfig,
    targets: &[String],
    progress: &Progress,
    collection: &str,
    event: TurnEvent,
) -> (r: (Turn, TurnAction))
    ensures
        r == turn.next(*cfg, retained(progress@, texts(targets@), collection@, *cfg, true), event),
{
    let interval = cfg.snapshot_interval_secs;
    match (turn.phase, event) {
        (TurnPhase::Start, TurnEvent::Begun { released }) => if released {
            (Turn { phase: TurnPhase::Over, last: None }, TurnAction::Done)
        } else {
            (Turn { phase: TurnPhase::Measuring, last: turn.last }, TurnAction::Measure)
        },
        (TurnPhase::Measuring, TurnEvent::Measured { usage, ratio_reached, is_leader, now, lsn }) => if should_compact(
            &usage,
            cfg,
            is_leader,
            ratio_reached,
        ) {
            let keep = retention_for(targets, progress, collection, cfg, true);
            (Turn { phase: TurnPhase::Compacting, last: turn.last }, TurnAction::Compact(keep))
        } else {
            settled(turn, interval, false, now, lsn)
        },
        (TurnPhase::Compacting, TurnEvent::Compacted { ran, now, lsn }) => settled(turn, interval, ran, now, lsn),
        (TurnPhase::Saving, TurnEvent::Saved { now, lsn }) => (
            Turn { phase: TurnPhase::Over, last: Some(SavedAt { at: now, lsn }) },
            TurnAction::Done,
        ),
        _ => (Turn { phase: TurnPhase::Over, last: turn.last }, TurnAction::Done),
    }
}

/// A compaction is asked for exactly where a measured log is worth one and this node leads, and a
/// compaction that ran is always followed by a snapshot.
pub proof fn law_a_compaction_brings_a_snapshot(turn: Turn, cfg: MaintenanceConfig, keep: Retention, event: TurnEvent)
    ensures
        turn.next(cfg, keep, event).1 is Compact <==> turn.phase == TurnPhase::Measuring && event is Measured && compacts(
            event->usage,
            cfg,
            event->is_leader,
            event->ratio_reached,
        ),
        turn.next(cfg, keep, event).1 is Compact ==> turn.next(cfg, keep, event).1 == TurnAction::Compact(keep),
        turn.phase == TurnPhase::Compacting && event is Compacted && event->ran
            ==> turn.next(cfg, keep, event).1 == TurnAction::SaveIndex,
{
}

/// A replica never compacts, whatever its log holds, and still saves an index that is due and has
/// changed.
pub proof fn law_a_replica_snapshots_but_never_compacts(turn: Turn, cfg: MaintenanceConfig, keep: Retention, event: TurnEvent)
    requires
        event is Measured,
        !event->is_leader,
    ensures
        !(turn.next(cfg, keep, event).1 is Compact),
        turn.phase == TurnPhase::Measuring && is_due(turn.last, event->Measured_now, cfg.snapshot_interval_secs) && (turn.last is None
            || turn.last->0.lsn != event->Measured_lsn) ==> turn.next(cfg, keep, event).1 == TurnAction::SaveIndex,
{
}

/// The least that anybody holds is held by one of them, and nobody holds less.
pub proof fn law_the_least_is_over_everybody(p: ProgressView, targets: Seq<Seq<char>>, collection: Seq<char>)
    requires
        targets.len() > 0,
    ensures
        forall|i: int| 0 <= i < targets.len() ==> least(p, targets, collection) <= p.holds(#[trigger] targets[i], collection),
        exists|i: int| 0 <= i < targets.len() && least(p, targets, collection) == p.holds(#[trigger] targets[i], collection),
    decreases targets.len(),
{
    let rest = targets.drop_last();
    assert(targets.last() == targets[targets.len() - 1]);
    if rest.len() > 0 {
        law_the_least_is_over_everybody(p, rest, collection);
        assert forall|i: int| 0 <= i < targets.len() implies least(p, targets, collection) <= p.holds(#[trigger] targets[i], collection) by {
            if i < rest.len() {
                assert(rest[i] == targets[i]);
            }
        }
        let k = choose|i: int| 0 <= i < rest.len() && least(p, rest, collection) == p.holds(#[trigger] rest[i], collection);
        assert(targets[k] == rest[k]);
    }
}

/// What a lagging replica still needs is kept: nothing above what the slowest holds is given up, within
/// the configured bounds; a node that sends to nobody keeps nothing for anybody.
pub proof fn law_what_a_replica_needs_is_kept(
    p: ProgressView,
    targets: Seq<Seq<char>>,
    collection: Seq<char>,
    cfg: MaintenanceConfig,
    scheduled: bool,
)
    ensures
        ({
            let r = retained(p, targets, collection, cfg, scheduled);
            &&& forall|i: int| 0 <= i < targets.len() ==> r.above_lsn <= p.holds(#[trigger] targets[i], collection)
            &&& targets.len() > 0 ==> r.max_bytes == cfg.wal_retention_bytes
            &&& targets.len() > 0 && scheduled ==> r.min_reclaim_bytes == cfg.compaction_min_wal_bytes
            &&& targets.len() == 0 || !scheduled ==> r.min_reclaim_bytes == 0
            &&& targets.len() == 0 ==> r.above_lsn == 0 && r.max_bytes == 0
        }),
{
    if targets.len() > 0 {
        law_the_least_is_over_everybody(p, targets, collection);
    }
}

/// An index is saved when it is due and has changed since; saving starts the interval anew, and so does
/// finding that nothing has changed.
pub proof fn law_an_index_is_saved_when_due_and_changed(turn: Turn, cfg: MaintenanceConfig, keep: Retention, event: TurnEvent)
    requires
        turn.phase == TurnPhase::Compacting && event is Compacted && !event->ran,
    ensures
        ({
            let (after, action) = turn.next(cfg, keep, event);
            let due = is_due(turn.last, event->Compacted_now, cfg.snapshot_interval_secs);
            let changed = turn.last is None || turn.last->0.lsn != event->Compacted_lsn;
            &&& action == TurnAction::SaveIndex <==> due && changed
            &&& !due ==> after.last == turn.last
            &&& due && !changed ==> after.last is Some && after.last->0.at == event->Compacted_now && after.last->0.lsn == event->Compacted_lsn
        }),
{
}

/// What was saved is remembered, with when and how far.
pub proof fn law_a_save_is_remembered(turn: Turn, cfg: MaintenanceConfig, keep: Retention, event: TurnEvent)
    requires
        turn.phase == TurnPhase::Saving && event is Saved,
    ensures
        turn.next(cfg, keep, event).0.last is Some,
        turn.next(cfg, keep, event).0.last->0.at == event->Saved_now,
        turn.next(cfg, keep, event).0.last->0.lsn == event->Saved_lsn,
{
}

/// Only a leader compacts, and only a log that is large enough and dead enough.
pub proof fn law_when_a_log_is_compacted(usage: SpaceUsage, cfg: MaintenanceConfig, is_leader: bool, ratio_reached: bool)
    ensures
        compacts(usage, cfg, is_leader, ratio_reached) ==> is_leader && ratio_reached && usage.total_bytes >= cfg.compaction_min_wal_bytes,
        is_leader && ratio_reached && usage.total_bytes >= cfg.compaction_min_wal_bytes ==> compacts(usage, cfg, is_leader, ratio_reached),
{
}

} // verus!
