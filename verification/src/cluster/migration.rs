//! Online shard handover with a bulk copy and a brief finalization barrier. Sources drive idempotent
//! batches while cluster metadata coordinates cutover.

use super::metadata::{Migration, MigrationPhase};
use crate::endpoint::{node, node_key};
use crate::json::JsonView;
use crate::key_set::{copy_rows, pairs, KeySet};
use crate::lists::{lemma_take_all, lemma_take_grows};
use crate::name_map::NameMap;
use crate::ring::{complaint, HashRing, HashRingView};
use crate::text::{cat3, char_match, chars_of, copy_opt, opt_text, same_text, stands_at, texts};
use crate::wire::held;
use vstd::prelude::*;

verus! {

#[derive(Clone, Copy, Debug, PartialEq, Eq, Structural)]
pub struct DataMovementConfig {
    pub batch_size: usize,
    pub batch_delay_ms: u64,
}

impl Default for DataMovementConfig {
    fn default() -> (r: Self)
        ensures
            r == (DataMovementConfig { batch_size: 64, batch_delay_ms: 5 }),
    {
        Self { batch_size: 64, batch_delay_ms: 5 }
    }
}

impl DataMovementConfig {
    /// Why the settings cannot be used, if they cannot.
    pub open spec fn fault(self) -> Option<Seq<char>> {
        if 1 <= self.batch_size <= 1024 {
            None
        } else {
            Some("data_movement.batch_size must be between 1 and 1024"@)
        }
    }

    pub fn validate(&self) -> (r: Result<(), String>)
        ensures
            complaint(r) == self.fault(),
    {
        if self.batch_size == 0 || self.batch_size > 1024 {
            return Err("data_movement.batch_size must be between 1 and 1024".to_owned());
        }
        Ok(())
    }
}

// ---- Records ----

/// A document on its way to another group.
pub struct MigrateDoc {
    pub key: String,
    pub value: serde_json::Value,
}

pub ghost struct MigrateDocView {
    pub key: Seq<char>,
    pub value: JsonView,
}

impl View for MigrateDoc {
    type V = MigrateDocView;

    open spec fn view(&self) -> MigrateDocView {
        MigrateDocView { key: self.key@, value: held(self.value) }
    }
}

pub struct MigrateBatch {
    pub migration_id: String,
    pub phase: MigrationPhase,
    pub collection: String,
    pub docs: Vec<MigrateDoc>,
}

pub struct MigrateReset {
    pub migration_id: String,
    pub phase: MigrationPhase,
    pub source: String,
}

/// How far this node's part of a handover is.
pub struct MigrationProgress {
    pub id: String,
    pub phase: MigrationPhase,
    /// The ring this handover was for. Cleanup compares it against the live ring: a plan that was
    /// abandoned rather than completed must never be treated as licence to delete.
    pub target: HashRing,
    pub pushed: usize,
    pub total: usize,
    pub done: bool,
    pub error: Option<String>,
    /// Keys handed over.
    pub handed_over: KeySet,
}

pub ghost struct MigrationProgressView {
    pub id: Seq<char>,
    pub phase: MigrationPhase,
    pub target: HashRingView,
    pub pushed: usize,
    pub total: usize,
    pub done: bool,
    pub error: Option<Seq<char>>,
    pub handed_over: Set<(Seq<char>, Seq<char>)>,
}

impl View for MigrationProgress {
    type V = MigrationProgressView;

    open spec fn view(&self) -> MigrationProgressView {
        MigrationProgressView {
            id: self.id@,
            phase: self.phase,
            target: self.target@,
            pushed: self.pushed,
            total: self.total,
            done: self.done,
            error: opt_text(self.error),
            handed_over: self.handed_over@,
        }
    }
}

impl Clone for MigrationProgress {
    fn clone(&self) -> (r: Self)
        ensures
            r@ == self@,
    {
        MigrationProgress {
            id: self.id.clone(),
            phase: self.phase,
            target: self.target.clone(),
            pushed: self.pushed,
            total: self.total,
            done: self.done,
            error: copy_opt(&self.error),
            handed_over: self.handed_over.copied(),
        }
    }
}

impl MigrationProgressView {
    /// Whether this is the record of a phase of a plan.
    pub open spec fn is_of(self, id: Seq<char>, phase: MigrationPhase) -> bool {
        self.id == id && self.phase == phase
    }
}

/// Sources that a node has reset for, by plan.
pub type Resets = NameMap<NameMap<bool>>;

/// What this node does about handovers.
pub struct MigrationRuns {
    pub current: Option<MigrationProgress>,
    /// The phase a push is alive for right now. `current` cannot stand in for it: a push that ends
    /// because leadership moved leaves its record behind.
    pub pushing: Option<(String, MigrationPhase)>,
    /// Prevents duplicate coordinator loops after recovery.
    pub coordinating: Option<String>,
    /// Sources the coordinator here is still waiting on.
    pub waiting_on: Vec<String>,
    pub completed_resets: Resets,
}

pub ghost struct MigrationRunsView {
    pub current: Option<MigrationProgressView>,
    pub pushing: Option<(Seq<char>, MigrationPhase)>,
    pub coordinating: Option<Seq<char>>,
    pub waiting_on: Seq<Seq<char>>,
    pub completed_resets: Set<(Seq<char>, Seq<char>)>,
}

/// A record that may be absent, by its contents.
pub open spec fn opt_progress(p: Option<MigrationProgress>) -> Option<MigrationProgressView> {
    match p {
        Some(p) => Some(p@),
        None => None,
    }
}

impl View for MigrationRuns {
    type V = MigrationRunsView;

    open spec fn view(&self) -> MigrationRunsView {
        MigrationRunsView {
            current: opt_progress(self.current),
            pushing: match self.pushing {
                Some((id, phase)) => Some((id@, phase)),
                None => None,
            },
            coordinating: opt_text(self.coordinating),
            waiting_on: texts(self.waiting_on@),
            completed_resets: pairs(self.completed_resets),
        }
    }
}

/// What a node handed over, once that is complete.
pub struct CompletedHandover {
    pub id: String,
    pub phase: MigrationPhase,
    pub target: HashRing,
    pub handed_over: KeySet,
}

pub ghost struct CompletedHandoverView {
    pub id: Seq<char>,
    pub phase: MigrationPhase,
    pub target: HashRingView,
    pub handed_over: Set<(Seq<char>, Seq<char>)>,
}

/// The part of a handover that has to outlive the process: what this node handed over, and which
/// sources it has already reset for. Both drive a deletion, and a lost record leaves a stale copy that
/// shadows the live one if the node comes back into the ring.
pub struct MigrationMeta {
    pub completed: Option<CompletedHandover>,
    pub completed_resets: Resets,
}

pub ghost struct MigrationMetaView {
    pub completed: Option<CompletedHandoverView>,
    pub completed_resets: Set<(Seq<char>, Seq<char>)>,
}

impl View for MigrationMeta {
    type V = MigrationMetaView;

    open spec fn view(&self) -> MigrationMetaView {
        MigrationMetaView {
            completed: match self.completed {
                Some(c) => Some(
                    CompletedHandoverView { id: c.id@, phase: c.phase, target: c.target@, handed_over: c.handed_over@ },
                ),
                None => None,
            },
            completed_resets: pairs(self.completed_resets),
        }
    }
}

/// A number of pairs, as far as a machine word can say.
pub open spec fn counted(s: Set<(Seq<char>, Seq<char>)>) -> int {
    if s.len() > usize::MAX { usize::MAX as int } else { s.len() as int }
}

impl MigrationMeta {
    /// What was read back, or nothing where there was nothing to read.
    pub fn load(read: Option<MigrationMeta>) -> (r: MigrationMeta)
        ensures
            match read {
                Some(m) => r == m,
                None => r@ == (MigrationMetaView { completed: None, completed_resets: Set::empty() }),
            },
    {
        match read {
            Some(m) => m,
            None => {
                let completed_resets: Resets = NameMap::new();
                assert(pairs(completed_resets) =~= Set::empty());
                MigrationMeta { completed: None, completed_resets }
            },
        }
    }
}

impl MigrationRuns {
    /// A node's handovers as its durable record has them: a completed one stays known, so that its
    /// copies can be cleaned up, and nothing is running.
    pub fn restored(meta: MigrationMeta) -> (r: Self)
        ensures
            r@.pushing is None,
            r@.coordinating is None,
            r@.waiting_on.len() == 0,
            r@.completed_resets == meta@.completed_resets,
            match meta@.completed {
                None => r@.current is None,
                Some(c) => r@.current is Some && ({
                    let p = r@.current->0;
                    &&& p.id == c.id
                    &&& p.phase == c.phase
                    &&& p.target == c.target
                    &&& p.handed_over == c.handed_over
                    &&& p.pushed == counted(c.handed_over)
                    &&& p.total == counted(c.handed_over)
                    &&& p.done
                    &&& p.error is None
                }),
            },
    {
        let current = match meta.completed {
            Some(c) => {
                let n = c.handed_over.len();
                Some(
                    MigrationProgress {
                        id: c.id,
                        phase: c.phase,
                        target: c.target,
                        pushed: n,
                        total: n,
                        done: true,
                        error: None,
                        handed_over: c.handed_over,
                    },
                )
            },
            None => None,
        };
        MigrationRuns {
            current,
            pushing: None,
            coordinating: None,
            waiting_on: Vec::new(),
            completed_resets: meta.completed_resets,
        }
    }

    /// What is to be made durable. Written when a phase finishes, not per batch: an unfinished record
    /// is never read back, since a restart in the middle of a copy plans anew from the view.
    pub fn persist(&self) -> (r: MigrationMeta)
        ensures
            r@ == (MigrationMetaView {
                completed: if self@.current is Some && self@.current->0.done {
                    let p = self@.current->0;
                    Some(CompletedHandoverView { id: p.id, phase: p.phase, target: p.target, handed_over: p.handed_over })
                } else {
                    None
                },
                completed_resets: self@.completed_resets,
            }),
    {
        let completed = match &self.current {
            Some(p) => if p.done {
                Some(
                    CompletedHandover {
                        id: p.id.clone(),
                        phase: p.phase,
                        target: p.target.clone(),
                        handed_over: p.handed_over.copied(),
                    },
                )
            } else {
                None
            },
            None => None,
        };
        MigrationMeta { completed, completed_resets: copy_rows(&self.completed_resets) }
    }
}

// ---- Starting a push ----

impl MigrationRunsView {
    /// Whether a phase of a plan is running here, or done.
    pub open spec fn has(self, id: Seq<char>, phase: MigrationPhase) -> bool {
        ||| self.pushing == Some((id, phase))
        ||| self.current is Some && self.current->0.is_of(id, phase) && self.current->0.done
    }
}

/// Claims the push of a phase unless this node is already running it, has finished it, holds no
/// storage, or does not lead: replicas receive moved keys through their own leader's replication. An
/// unfinished record is no evidence that anything is still pushing it. Claimed before the keyspace is
/// scanned, so two adoptions racing here cannot both push; keyed by phase, so the next phase can start
/// while the last one's push is still winding down.
pub fn ensure_running(runs: &mut MigrationRuns, migration: &Migration, has_db: bool, is_leader: bool) -> (r: bool)
    ensures
        r == (!old(runs)@.has(migration@.id, migration@.phase) && has_db && is_leader),
        final(runs)@ == (if r {
            MigrationRunsView { pushing: Some((migration@.id, migration@.phase)), ..old(runs)@ }
        } else {
            old(runs)@
        }),
{
    let pushing = match &runs.pushing {
        Some((id, phase)) => same_text(id.as_str(), migration.id.as_str()) && *phase == migration.phase,
        None => false,
    };
    let finished = match &runs.current {
        Some(p) => same_text(p.id.as_str(), migration.id.as_str()) && p.phase == migration.phase && p.done,
        None => false,
    };
    if pushing || finished || !has_db || !is_leader {
        return false;
    }
    runs.pushing = Some((migration.id.clone(), migration.phase));
    true
}

/// Records a push that begins, with how many keys it has to move. Returns whether it is done at once:
/// a copy with nothing to move is.
pub fn begin_push(runs: &mut MigrationRuns, migration: &Migration, total: usize) -> (r: bool)
    ensures
        r == (total == 0 && migration@.phase == MigrationPhase::Copy),
        final(runs)@ == (MigrationRunsView {
            current: Some(
                MigrationProgressView {
                    id: migration@.id,
                    phase: migration@.phase,
                    target: migration@.target,
                    pushed: 0,
                    total,
                    done: r,
                    error: None,
                    handed_over: Set::empty(),
                },
            ),
            ..old(runs)@
        }),
{
    let done = total == 0 && migration.phase == MigrationPhase::Copy;
    runs.current = Some(
        MigrationProgress {
            id: migration.id.clone(),
            phase: migration.phase,
            target: migration.target.clone(),
            pushed: 0,
            total,
            done,
            error: None,
            handed_over: KeySet::new(),
        },
    );
    done
}

/// Gives up the claim on a push however it ended, so a phase whose pusher stopped early can be
/// restarted.
pub fn release_push(runs: &mut MigrationRuns, id: &str, phase: MigrationPhase)
    ensures
        final(runs)@ == (if old(runs)@.pushing == Some((id@, phase)) {
            MigrationRunsView { pushing: None, ..old(runs)@ }
        } else {
            old(runs)@
        }),
{
    let mine = match &runs.pushing {
        Some((i, p)) => same_text(i.as_str(), id) && *p == phase,
        None => false,
    };
    if mine {
        runs.pushing = None;
    }
}

impl MigrationRunsView {
    /// With an error noted against a phase of a plan, where it is the current one.
    pub open spec fn errored(self, id: Seq<char>, phase: MigrationPhase, error: Seq<char>) -> MigrationRunsView {
        if self.current is Some && self.current->0.is_of(id, phase) {
            MigrationRunsView {
                current: Some(MigrationProgressView { done: false, error: Some(error), ..self.current->0 }),
                ..self
            }
        } else {
            self
        }
    }

    /// With a phase of a plan complete, where it is the current one.
    pub open spec fn completed(self, id: Seq<char>, phase: MigrationPhase) -> MigrationRunsView {
        if self.current is Some && self.current->0.is_of(id, phase) {
            MigrationRunsView {
                current: Some(MigrationProgressView { done: true, error: None, ..self.current->0 }),
                ..self
            }
        } else {
            self
        }
    }

    /// With a fresh count of what there is to move.
    pub open spec fn replanned(self, total: usize) -> MigrationRunsView {
        MigrationRunsView { current: Some(MigrationProgressView { total, pushed: 0, ..self.current->0 }), ..self }
    }

    /// Whether a phase of a plan is the current one.
    pub open spec fn on(self, id: Seq<char>, phase: MigrationPhase) -> bool {
        self.current is Some && self.current->0.is_of(id, phase)
    }
}

/// Takes the current record out where it is that of a phase of a plan.
fn take_current(runs: &mut MigrationRuns, id: &str, phase: MigrationPhase) -> (r: Option<MigrationProgress>)
    ensures
        old(runs)@.on(id@, phase) ==> r is Some && r->0@ == old(runs)@.current->0 && final(runs)@ == (MigrationRunsView {
            current: None,
            ..old(runs)@
        }),
        !old(runs)@.on(id@, phase) ==> r is None && final(runs)@ == old(runs)@,
{
    let here = match &runs.current {
        Some(p) => same_text(p.id.as_str(), id) && p.phase == phase,
        None => false,
    };
    if !here {
        return None;
    }
    let mut taken: Option<MigrationProgress> = None;
    std::mem::swap(&mut runs.current, &mut taken);
    taken
}

pub fn record_error(runs: &mut MigrationRuns, id: &str, phase: MigrationPhase, error: String)
    ensures
        final(runs)@ == old(runs)@.errored(id@, phase, error@),
{
    if let Some(p) = take_current(runs, id, phase) {
        let mut p = p;
        p.done = false;
        p.error = Some(error);
        runs.current = Some(p);
    }
}

fn mark_done(runs: &mut MigrationRuns, id: &str, phase: MigrationPhase)
    ensures
        final(runs)@ == old(runs)@.completed(id@, phase),
{
    if let Some(p) = take_current(runs, id, phase) {
        let mut p = p;
        p.done = true;
        p.error = None;
        runs.current = Some(p);
    }
}

fn replan(runs: &mut MigrationRuns, id: &str, phase: MigrationPhase, total: usize) -> (r: bool)
    ensures
        r == old(runs)@.on(id@, phase),
        final(runs)@ == (if r { old(runs)@.replanned(total) } else { old(runs)@ }),
{
    match take_current(runs, id, phase) {
        Some(p) => {
            let mut p = p;
            p.total = total;
            p.pushed = 0;
            runs.current = Some(p);
            true
        },
        None => false,
    }
}

/// How long to wait before another attempt, in milliseconds: quick at first so a destination that is
/// merely a moment behind costs almost nothing, then wide enough that a node that is down does not turn
/// into a busy loop against it.
pub open spec fn backoff_ms(attempt: u32) -> u64 {
    if attempt == 0 { 200 } else if attempt == 1 { 400 } else if attempt == 2 { 800 } else if attempt == 3 { 1600 } else { 3200 }
}

pub fn backoff(attempt: u32) -> (r: u64)
    ensures
        r == backoff_ms(attempt),
{
    if attempt == 0 { 200 } else if attempt == 1 { 400 } else if attempt == 2 { 800 } else if attempt == 3 { 1600 } else { 3200 }
}

// ---- Pushing ----

/// What a push is waiting for.
#[derive(Clone, Copy, Debug, PartialEq, Eq, Structural)]
pub enum PushPhase {
    Looking,
    Draining,
    Planning,
    Resetting,
    Pushing,
    Over,
}

/// A push of one phase of a plan.
pub struct Push {
    pub id: String,
    pub phase: MigrationPhase,
    pub at: PushPhase,
    pub attempt: u32,
}

pub ghost struct PushView {
    pub id: Seq<char>,
    pub phase: MigrationPhase,
    pub at: PushPhase,
    pub attempt: u32,
}

impl View for Push {
    type V = PushView;

    open spec fn view(&self) -> PushView {
        PushView { id: self.id@, phase: self.phase, at: self.at, attempt: self.attempt }
    }
}

/// What happened outside.
pub enum PushEvent {
    /// Whether the plan and its phase are still in the view, and whether this node leads.
    Looked { planned: bool, is_leader: bool },
    /// Writes that began before the view changed have finished; whether the plan still stands.
    Drained { planned: bool },
    /// How many keys there are to move, or why that cannot be said.
    Planned { total: Result<usize, String> },
    /// Whether every destination was reset.
    Reset { outcome: Result<(), String> },
    /// Whether everything was pushed, and whether this node leads.
    Pushed { outcome: Result<(), String>, is_leader: bool },
}

/// What to do next.
#[derive(Clone, Copy, Debug, PartialEq, Eq, Structural)]
pub enum PushAction {
    /// Let the writes finish that decided under the view before, then go on.
    DrainWrites,
    /// Go on at once.
    GoOn,
    Plan,
    ResetDestinations,
    PushAll,
    /// Wait so many milliseconds, then look again.
    Backoff(u64),
    /// Complete: make it durable and put the handover in the group's log.
    Finish,
    Stop,
}

impl PushView {
    pub open spec fn to(self, at: PushPhase) -> PushView {
        PushView { at, ..self }
    }

    pub open spec fn moved_on(self) -> Seq<char> {
        "leadership changed during migration"@
    }

    /// After an attempt that failed.
    pub open spec fn failed(self, runs: MigrationRunsView, why: Seq<char>) -> (PushView, MigrationRunsView, PushAction) {
        (
            PushView {
                at: PushPhase::Looking,
                attempt: if self.attempt < u32::MAX { (self.attempt + 1) as u32 } else { u32::MAX },
                ..self
            },
            runs.errored(self.id, self.phase, why),
            PushAction::Backoff(backoff_ms(self.attempt)),
        )
    }

    /// The push, what is recorded of it, and the action after an event. An event that the push is not
    /// waiting for ends it.
    pub open spec fn next(self, runs: MigrationRunsView, event: PushEvent) -> (PushView, MigrationRunsView, PushAction) {
        match (self.at, event) {
            (PushPhase::Looking, PushEvent::Looked { planned, is_leader }) => if !planned {
                (self.to(PushPhase::Over), runs, PushAction::Stop)
            } else if !is_leader {
                (self.to(PushPhase::Over), runs.errored(self.id, self.phase, self.moved_on()), PushAction::Stop)
            } else if self.phase == MigrationPhase::Finalizing {
                (self.to(PushPhase::Draining), runs, PushAction::DrainWrites)
            } else {
                (self.to(PushPhase::Draining), runs, PushAction::GoOn)
            },
            (PushPhase::Draining, PushEvent::Drained { planned }) => if planned {
                (self.to(PushPhase::Planning), runs, PushAction::Plan)
            } else {
                (self.to(PushPhase::Over), runs, PushAction::Stop)
            },
            (PushPhase::Planning, PushEvent::Planned { total }) => match total {
                Err(why) => self.failed(runs, why@),
                Ok(n) => if !runs.on(self.id, self.phase) {
                    (self.to(PushPhase::Over), runs, PushAction::Stop)
                } else if self.phase == MigrationPhase::Finalizing {
                    (self.to(PushPhase::Resetting), runs.replanned(n), PushAction::ResetDestinations)
                } else {
                    (self.to(PushPhase::Pushing), runs.replanned(n), PushAction::PushAll)
                },
            },
            (PushPhase::Resetting, PushEvent::Reset { outcome }) => match outcome {
                Err(why) => self.failed(runs, why@),
                Ok(_) => (self.to(PushPhase::Pushing), runs, PushAction::PushAll),
            },
            (PushPhase::Pushing, PushEvent::Pushed { outcome, is_leader }) => match outcome {
                Err(why) => self.failed(runs, why@),
                Ok(_) => if !is_leader {
                    (self.to(PushPhase::Over), runs.errored(self.id, self.phase, self.moved_on()), PushAction::Stop)
                } else {
                    (self.to(PushPhase::Over), runs.completed(self.id, self.phase), PushAction::Finish)
                },
            },
            _ => (self.to(PushPhase::Over), runs, PushAction::Stop),
        }
    }
}

impl Push {
    /// A push at its start.
    pub fn begin(id: String, phase: MigrationPhase) -> (r: Push)
        ensures
            r@ == (PushView { id: id@, phase, at: PushPhase::Looking, attempt: 0 }),
    {
        Push { id, phase, at: PushPhase::Looking, attempt: 0 }
    }

    fn fail(&mut self, runs: &mut MigrationRuns, why: String) -> (r: PushAction)
        ensures
            (final(self)@, final(runs)@, r) == old(self)@.failed(old(runs)@, why@),
    {
        record_error(runs, self.id.as_str(), self.phase, why);
        let wait = backoff(self.attempt);
        self.at = PushPhase::Looking;
        self.attempt = if self.attempt < u32::MAX { self.attempt + 1 } else { u32::MAX };
        PushAction::Backoff(wait)
    }

    /// The next thing to do, given what happened. Retries for as long as the plan is in the view: a
    /// destination that is briefly down, or has not yet adopted the plan and so refuses the batch, is
    /// the normal case rather than a failure. Writes are drained rather than held while a handover is
    /// finalized: every write that starts afterwards sees that the key is moving and is refused, so
    /// the scan and the round trips cannot be overtaken.
    pub fn push_until_done(&mut self, runs: &mut MigrationRuns, event: PushEvent) -> (r: PushAction)
        ensures
            (final(self)@, final(runs)@, r) == old(self)@.next(old(runs)@, event),
    {
        match (self.at, event) {
            (PushPhase::Looking, PushEvent::Looked { planned, is_leader }) => {
                if !planned {
                    self.at = PushPhase::Over;
                    return PushAction::Stop;
                }
                if !is_leader {
                    record_error(runs, self.id.as_str(), self.phase, "leadership changed during migration".to_owned());
                    self.at = PushPhase::Over;
                    return PushAction::Stop;
                }
                self.at = PushPhase::Draining;
                if self.phase == MigrationPhase::Finalizing { PushAction::DrainWrites } else { PushAction::GoOn }
            },
            (PushPhase::Draining, PushEvent::Drained { planned }) => if planned {
                self.at = PushPhase::Planning;
                PushAction::Plan
            } else {
                self.at = PushPhase::Over;
                PushAction::Stop
            },
            (PushPhase::Planning, PushEvent::Planned { total }) => match total {
                Err(why) => self.fail(runs, why),
                Ok(n) => {
                    if !replan(runs, self.id.as_str(), self.phase, n) {
                        self.at = PushPhase::Over;
                        return PushAction::Stop;
                    }
                    if self.phase == MigrationPhase::Finalizing {
                        self.at = PushPhase::Resetting;
                        PushAction::ResetDestinations
                    } else {
                        self.at = PushPhase::Pushing;
                        PushAction::PushAll
                    }
                },
            },
            (PushPhase::Resetting, PushEvent::Reset { outcome }) => match outcome {
                Err(why) => self.fail(runs, why),
                Ok(_) => {
                    self.at = PushPhase::Pushing;
                    PushAction::PushAll
                },
            },
            (PushPhase::Pushing, PushEvent::Pushed { outcome, is_leader }) => match outcome {
                Err(why) => self.fail(runs, why),
                Ok(_) => {
                    self.at = PushPhase::Over;
                    if !is_leader {
                        record_error(runs, self.id.as_str(), self.phase, "leadership changed during migration".to_owned());
                        return PushAction::Stop;
                    }
                    mark_done(runs, self.id.as_str(), self.phase);
                    PushAction::Finish
                },
            },
            _ => {
                self.at = PushPhase::Over;
                PushAction::Stop
            },
        }
    }
}

/// Notes a batch that a destination took. Refused where the plan is no longer the current one.
pub fn note_pushed(runs: &mut MigrationRuns, id: &str, phase: MigrationPhase, sent: usize, collection: &str, chunk: &Vec<String>) -> (r: Result<(), String>)
    ensures
        r is Ok <==> old(runs)@.on(id@, phase),
        r is Err ==> r->Err_0@ == "migration was replaced while copying"@ && final(runs)@ == old(runs)@,
        r is Ok ==> final(runs)@.current is Some && final(runs)@ == (MigrationRunsView { current: final(runs)@.current, ..old(runs)@ })
            && ({
            let (p, q) = (old(runs)@.current->0, final(runs)@.current->0);
            &&& q == (MigrationProgressView { pushed: q.pushed, handed_over: q.handed_over, ..p })
            &&& q.pushed as int == if p.pushed + sent <= usize::MAX { p.pushed + sent } else { usize::MAX as int }
            &&& forall|c: Seq<char>, k: Seq<char>| #[trigger] q.handed_over.contains((c, k)) <==> p.handed_over.contains((c, k))
                || (c == collection@ && texts(chunk@).contains(k))
        }),
{
    match take_current(runs, id, phase) {
        None => Err("migration was replaced while copying".to_owned()),
        Some(p) => {
            let mut p = p;
            let ghost before = p.handed_over@;
            let ghost ks = texts(chunk@);
            p.pushed = p.pushed.saturating_add(sent);
            let mut i: usize = 0;
            let ghost rest = p@;
            while i < chunk.len()
                invariant
                    ks == texts(chunk@),
                    i <= chunk@.len(),
                    p@ == (MigrationProgressView { handed_over: p@.handed_over, ..rest }),
                    forall|c: Seq<char>, k: Seq<char>| #[trigger] p@.handed_over.contains((c, k)) <==> before.contains((c, k))
                        || (c == collection@ && ks.take(i as int).contains(k)),
                decreases chunk@.len() - i,
            {
                proof {
                    lemma_take_grows(ks, i as int);
                }
                let ghost so_far = p.handed_over@;
                p.handed_over.insert(collection, chunk[i].as_str());
                proof {
                    assert forall|c: Seq<char>, k: Seq<char>| #[trigger] p@.handed_over.contains((c, k)) <==> before.contains((c, k))
                        || (c == collection@ && ks.take(i + 1).contains(k)) by {
                        assert(p@.handed_over == so_far.insert((collection@, ks[i as int])));
                        assert((c, k) == (collection@, ks[i as int]) <==> c == collection@ && k == ks[i as int]);
                        assert(ks.take(i + 1).contains(k) <==> ks.take(i as int).contains(k) || k == ks[i as int]);
                    }
                }
                i += 1;
            }
            proof {
                lemma_take_all(ks);
            }
            runs.current = Some(p);
            Ok(())
        },
    }
}

/// How long to pause after a batch, in milliseconds. A final pass does not pause.
pub fn pause_after_batch(phase: MigrationPhase, batch_delay_ms: u64) -> (r: u64)
    ensures
        r == (if phase == MigrationPhase::Finalizing { 0 } else { batch_delay_ms }),
{
    if phase == MigrationPhase::Finalizing { 0 } else { batch_delay_ms }
}

// ---- Bookkeeping ----

/// How far this node's part of a handover is.
pub fn progress(runs: &MigrationRuns) -> (r: Option<MigrationProgress>)
    ensures
        opt_progress(r) == runs@.current,
{
    match &runs.current {
        Some(p) => Some(p.clone()),
        None => None,
    }
}

/// Whether this node has reset for a source under a plan.
pub fn reset_completed(runs: &MigrationRuns, id: &str, source: &str) -> (r: bool)
    ensures
        r == runs@.completed_resets.contains((id@, node(source@))),
{
    match runs.completed_resets.get(id) {
        Some(inner) => inner.holds(node_key(source).as_str()),
        None => false,
    }
}

/// Notes that this node has reset for a source under a plan.
pub fn mark_reset_completed(runs: &mut MigrationRuns, id: &str, source: &str)
    ensures
        final(runs)@ == (MigrationRunsView {
            completed_resets: old(runs)@.completed_resets.insert((id@, node(source@))),
            ..old(runs)@
        }),
{
    let ghost before = runs@;
    let mut inner = match runs.completed_resets.remove(id) {
        Some(inner) => inner,
        None => NameMap::new(),
    };
    inner.insert(node_key(source), true);
    runs.completed_resets.insert(id.to_owned(), inner);
    assert(pairs(runs.completed_resets) =~= before.completed_resets.insert((id@, node(source@))));
}

/// Forgets everything about a plan.
pub fn forget(runs: &mut MigrationRuns, id: &str)
    ensures
        final(runs)@ == (MigrationRunsView {
            current: if old(runs)@.current is Some && old(runs)@.current->0.id == id@ { None } else { old(runs)@.current },
            completed_resets: old(runs)@.completed_resets.filter(|p: (Seq<char>, Seq<char>)| p.0 != id@),
            ..old(runs)@
        }),
{
    let ghost before = runs@;
    let same = match &runs.current {
        Some(p) => same_text(p.id.as_str(), id),
        None => false,
    };
    if same {
        runs.current = None;
    }
    let _gone = runs.completed_resets.remove(id);
    assert(pairs(runs.completed_resets) =~= before.completed_resets.filter(|p: (Seq<char>, Seq<char>)| p.0 != id@));
}

/// Whether a lock guards a reset for a plan.
pub open spec fn guards_reset(lock: Seq<char>, id: Seq<char>) -> bool {
    stands_at(lock, "migration-reset:"@ + id + ":"@, 0)
}

/// The locks that stay once a plan is forgotten: all but those of its resets, in their order.
pub fn locks_kept(locks: Vec<String>, id: &str) -> (r: Vec<String>)
    ensures
        texts(r@) == texts(locks@).filter(|l: Seq<char>| !guards_reset(l, id@)),
{
    let prefix = chars_of(cat3("migration-reset:", id, ":").as_str());
    let ghost all = texts(locks@);
    let ghost stays = |l: Seq<char>| !guards_reset(l, id@);
    let mut out: Vec<String> = Vec::new();
    let mut i: usize = 0;
    assert(texts(out@) =~= all.take(0).filter(stays)) by {
        reveal(Seq::filter);
    }
    while i < locks.len()
        invariant
            all == texts(locks@),
            prefix@ == "migration-reset:"@ + id@ + ":"@,
            stays == (|l: Seq<char>| !guards_reset(l, id@)),
            i <= locks@.len(),
            texts(out@) == all.take(i as int).filter(stays),
        decreases locks@.len() - i,
    {
        let ghost before = texts(out@);
        proof {
            lemma_take_grows(all, i as int);
            assert(all.take(i + 1).drop_last() =~= all.take(i as int));
            reveal(Seq::filter);
        }
        let lock = chars_of(locks[i].as_str());
        if !char_match(&lock, &prefix, 0) {
            out.push(locks[i].clone());
            assert(texts(out@) =~= before.push(locks@[i as int]@));
        }
        i += 1;
    }
    proof {
        lemma_take_all(all);
    }
    out
}

// ---- Laws ----

/// A claim keeps every other claim out until it is released.
pub proof fn law_a_phase_is_pushed_once(runs: MigrationRunsView, id: Seq<char>, phase: MigrationPhase)
    ensures
        (MigrationRunsView { pushing: Some((id, phase)), ..runs }).has(id, phase),
{
}

/// A push reports success only for a phase that was pushed whole while this node led, and the record
/// says so.
pub proof fn law_a_finished_push_is_recorded(p: PushView, runs: MigrationRunsView, event: PushEvent)
    requires
        p.next(runs, event).2 == PushAction::Finish,
        runs.on(p.id, p.phase),
    ensures
        event is Pushed && event->Pushed_outcome is Ok && event->Pushed_is_leader,
        p.next(runs, event).1.current->0.done,
        p.next(runs, event).1.has(p.id, p.phase),
{
}

/// A push that stops or fails leaves no record that says it is done.
pub proof fn law_a_failed_push_is_never_done(p: PushView, runs: MigrationRunsView, event: PushEvent)
    requires
        runs.on(p.id, p.phase),
        p.next(runs, event).2 is Backoff,
    ensures
        !p.next(runs, event).1.current->0.done,
        p.next(runs, event).1.current->0.error is Some,
{
}

/// What is restored from a record is what was recorded, and a phase that was complete is not pushed
/// again.
pub proof fn law_a_completed_phase_survives_a_restart(before: MigrationRunsView, after: MigrationRunsView)
    requires
        before.current is Some && before.current->0.done,
        after.current is Some && after.current->0.done,
        after.current->0.id == before.current->0.id,
        after.current->0.phase == before.current->0.phase,
    ensures
        after.has(before.current->0.id, before.current->0.phase),
{
}

/// What is noted of a phase changes the record of that phase alone: how far it is and why it failed,
/// never what it moves, where to, or what was handed over.
pub proof fn law_a_note_is_about_its_own_phase(runs: MigrationRunsView, id: Seq<char>, phase: MigrationPhase, error: Seq<char>, total: usize)
    ensures
        !runs.on(id, phase) ==> runs.errored(id, phase, error) == runs && runs.completed(id, phase) == runs,
        runs.on(id, phase) ==> {
            let (e, c, n) = (runs.errored(id, phase, error), runs.completed(id, phase), runs.replanned(total));
            &&& e.on(id, phase) && c.on(id, phase) && n.on(id, phase)
            &&& !e.current->0.done && e.current->0.error == Some(error)
            &&& c.current->0.done && c.current->0.error is None
            &&& n.current->0.total == total && n.current->0.pushed == 0 && n.current->0.done == runs.current->0.done
            &&& e.current->0.pushed == runs.current->0.pushed && e.current->0.total == runs.current->0.total
            &&& c.current->0.pushed == runs.current->0.pushed && c.current->0.total == runs.current->0.total
            &&& e.current->0.handed_over == runs.current->0.handed_over && c.current->0.handed_over == runs.current->0.handed_over
            &&& n.current->0.handed_over == runs.current->0.handed_over
            &&& e.current->0.target == runs.current->0.target && c.current->0.target == runs.current->0.target
            &&& n.current->0.target == runs.current->0.target
            &&& e.pushing == runs.pushing && c.pushing == runs.pushing && n.pushing == runs.pushing
            &&& e.completed_resets == runs.completed_resets && c.completed_resets == runs.completed_resets
            &&& n.completed_resets == runs.completed_resets
        },
{
}

/// A push goes through its steps in order: it looks, it stops writes before the last phase, it plans,
/// it clears the destinations before the last phase, and it pushes. A step that fails is begun anew
/// after a pause, with the reason noted.
pub proof fn law_a_push_takes_its_steps_in_order(p: PushView, runs: MigrationRunsView, event: PushEvent)
    ensures
        ({
            let (after, noted, action) = p.next(runs, event);
            let last = p.phase == MigrationPhase::Finalizing;
            &&& after.id == p.id && after.phase == p.phase
            &&& action is DrainWrites ==> p.at is Looking && last && event is Looked
            &&& action is Plan ==> p.at is Draining && event is Drained
            &&& action is ResetDestinations ==> p.at is Planning && last && event is Planned && event->Planned_total is Ok
            &&& action is PushAll ==> (p.at is Planning && !last && event is Planned && event->Planned_total is Ok) || (p.at is Resetting
                && event is Reset && event->Reset_outcome is Ok)
            &&& action is Finish ==> p.at is Pushing && event is Pushed
            &&& p.at is Planning && event is Planned && event->Planned_total is Err ==> action is Backoff && noted == runs.errored(
                p.id,
                p.phase,
                event->Planned_total->Err_0@,
            )
            &&& p.at is Resetting && event is Reset && event->Reset_outcome is Err ==> action is Backoff && noted == runs.errored(
                p.id,
                p.phase,
                event->Reset_outcome->Err_0@,
            )
            &&& p.at is Pushing && event is Pushed && event->Pushed_outcome is Err ==> action is Backoff && noted == runs.errored(
                p.id,
                p.phase,
                event->Pushed_outcome->Err_0@,
            )
            &&& action is Backoff ==> after.at is Looking && (p.attempt < u32::MAX ==> after.attempt == p.attempt + 1)
            &&& p.at is Looking && event is Looked && event->Looked_planned && event->Looked_is_leader && last ==> action is DrainWrites
            &&& p.at is Looking && event is Looked && event->Looked_planned && event->Looked_is_leader && !last ==> action is GoOn
                && after.at is Draining
            &&& p.at is Planning && event is Planned && event->Planned_total is Ok && runs.on(p.id, p.phase) ==> noted.current->0.total
                == event->Planned_total->Ok_0 && (last ==> action is ResetDestinations) && (!last ==> action is PushAll)
        }),
{
}

/// The pause before another attempt doubles, up to a bound.
pub proof fn law_pauses_double(attempt: u32)
    requires
        attempt < u32::MAX,
    ensures
        backoff_ms(0) == 200,
        attempt < 4 ==> backoff_ms((attempt + 1) as u32) == 2 * backoff_ms(attempt),
        attempt >= 4 ==> backoff_ms((attempt + 1) as u32) == backoff_ms(attempt),
{
}

/// A lock of a reset is recognised by its plan, whatever it says after that; a lock that does not
/// begin so guards no reset of that plan.
pub proof fn law_a_reset_lock_names_its_plan(id: Seq<char>, rest: Seq<char>, lock: Seq<char>)
    ensures
        guards_reset("migration-reset:"@ + id + ":"@ + rest, id),
        guards_reset(lock, id) ==> lock.len() >= id.len() + 17 && lock.subrange(16, id.len() + 16int) == id,
{
    let prefix = "migration-reset:"@ + id + ":"@;
    reveal_strlit("migration-reset:");
    reveal_strlit(":");
    assert("migration-reset:"@.len() == 16 && ":"@.len() == 1);
    assert((prefix + rest).subrange(0, prefix.len() as int) =~= prefix);
    if guards_reset(lock, id) {
        assert(lock.subrange(0, prefix.len() as int) == prefix);
        assert(lock.subrange(16, id.len() + 16int) =~= prefix.subrange(16, id.len() + 16int)) by {
            assert forall|i: int| 0 <= i < id.len() implies #[trigger] lock[16 + i] == prefix[16 + i] by {
                assert(lock.subrange(0, prefix.len() as int)[16 + i] == lock[16 + i]);
            }
        }
        assert(prefix.subrange(16, id.len() + 16int) =~= id);
    }
}

/// A push stops where its plan is gone, where this node leads no more, which is noted, or where its
/// record is another's by now.
pub proof fn law_when_a_push_stops(p: PushView, runs: MigrationRunsView, event: PushEvent)
    ensures
        ({
            let (after, noted, action) = p.next(runs, event);
            let moved = runs.errored(p.id, p.phase, "leadership changed during migration"@);
            &&& p.at is Looking && event is Looked && !event->Looked_planned ==> action is Stop && noted == runs
            &&& p.at is Looking && event is Looked && event->Looked_planned && !event->Looked_is_leader ==> action is Stop && noted == moved
            &&& p.at is Draining && event is Drained && !event->Drained_planned ==> action is Stop && noted == runs
            &&& p.at is Draining && event is Drained && event->Drained_planned ==> action is Plan && after.at is Planning && noted == runs
            &&& p.at is Planning && event is Planned && event->Planned_total is Ok && !runs.on(p.id, p.phase) ==> action is Stop && noted
                == runs
            &&& p.at is Pushing && event is Pushed && event->Pushed_outcome is Ok && !event->Pushed_is_leader ==> action is Stop && noted
                == moved
            &&& p.at is Pushing && event is Pushed && event->Pushed_outcome is Ok && event->Pushed_is_leader ==> action is Finish && noted
                == runs.completed(p.id, p.phase)
            &&& action is Stop || action is Finish ==> after.at is Over
        }),
{
}


/// A phase is begun anew unless it is that very phase of that very plan that is being pushed or is done;
/// one that stopped short can be begun again.
pub proof fn law_which_phases_are_begun_anew(runs: MigrationRunsView, id: Seq<char>, phase: MigrationPhase)
    ensures
        runs.has(id, phase) <==> (runs.pushing is Some && (runs.pushing->0).0 == id && (runs.pushing->0).1 == phase) || (runs.current is Some
            && runs.current->0.id == id && runs.current->0.phase == phase && runs.current->0.done),
{
}

} // verus!
