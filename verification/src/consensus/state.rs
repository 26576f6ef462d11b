//! Durable term and vote, and the transitions that move them.

use super::progress::{Progress, ProgressView};
use crate::name_map::NameMap;
use crate::text::{cat4, copy_opt, opt_text, texts};
use vstd::prelude::*;

verus! {

pub const META_FILE: &'static str = "replication.meta";

pub const META_TMP: &'static str = "replication.meta.tmp";

/// What reading one file of a record brought.
pub enum Stored<T> {
    /// There is no such file.
    Absent,
    /// The file could not be read.
    Failed(String),
    /// The file was read and its contents make no sense, with the reason.
    Corrupt(String),
    Read(T),
}

/// Why a record could not be loaded.
#[derive(Debug, PartialEq, Eq)]
pub enum LoadError {
    Io(String),
    Invalid(String),
}

/// Term and vote. Written only as a pair: a term without its vote permits a double vote.
#[derive(Debug, PartialEq, Eq)]
pub struct ReplicationMeta {
    pub term: u64,
    pub is_leader: bool,
    pub voted_for: Option<String>,
}

/// What becomes of a save.
#[derive(Clone, Copy, Debug, PartialEq, Eq, Structural)]
pub enum SaveStep {
    /// The record on disk is of a later term and stays.
    Keep,
    /// The record is to be written.
    Write,
}

/// The message for a record that neither file holds in a readable form.
pub open spec fn unreadable_record(name: Seq<char>, why: Seq<char>) -> Seq<char> {
    name + " is unreadable ("@ + why + "); refusing to continue with a forgotten term and vote"@
}

/// What loading gives for what the file and the staging file held: the first that can be read, the
/// failure to read either, or the last corruption met. No record at all is no history.
pub open spec fn loaded<T>(file: Stored<T>, staging: Stored<T>) -> Result<Option<T>, (Seq<char>, Seq<char>)> {
    match (file, staging) {
        (Stored::Read(m), _) => Ok(Some(m)),
        (Stored::Failed(e), _) => Err((Seq::empty(), e@)),
        (_, Stored::Read(m)) => Ok(Some(m)),
        (_, Stored::Failed(e)) => Err((Seq::empty(), e@)),
        (_, Stored::Corrupt(why)) => Err((META_TMP@, why@)),
        (Stored::Corrupt(why), Stored::Absent) => Err((META_FILE@, why@)),
        (Stored::Absent, Stored::Absent) => Ok(None),
    }
}

impl ReplicationMeta {
    /// `Ok(None)` is no consensus history; unreadable is an error, not a fresh start. Booting at
    /// term 0 would re-enable a vote this node has already cast.
    ///
    /// The staging file exists only if the node died between its fsync and the rename: complete,
    /// and no older.
    pub fn load(file: Stored<ReplicationMeta>, staging: Stored<ReplicationMeta>) -> (r: Result<Option<Self>, LoadError>)
        ensures
            match loaded(file, staging) {
                Ok(m) => r == Ok::<Option<Self>, LoadError>(m),
                Err((name, why)) => match r {
                    Err(LoadError::Io(e)) => name.len() == 0 && e@ == why,
                    Err(LoadError::Invalid(e)) => name.len() > 0 && e@ == unreadable_record(name, why),
                    Ok(_) => false,
                },
            },
    {
        proof {
            reveal_strlit("replication.meta");
            reveal_strlit("replication.meta.tmp");
        }
        let mut corrupt: Option<(&'static str, String)> = None;
        match file {
            Stored::Read(meta) => {
                return Ok(Some(meta));
            },
            Stored::Failed(e) => {
                return Err(LoadError::Io(e));
            },
            Stored::Corrupt(why) => {
                corrupt = Some((META_FILE, why));
            },
            Stored::Absent => {},
        }
        match staging {
            Stored::Read(meta) => {
                return Ok(Some(meta));
            },
            Stored::Failed(e) => {
                return Err(LoadError::Io(e));
            },
            Stored::Corrupt(why) => {
                corrupt = Some((META_TMP, why));
            },
            Stored::Absent => {},
        }
        match corrupt {
            Some((name, why)) => Err(LoadError::Invalid(cat4(
                name,
                " is unreadable (",
                why.as_str(),
                "); refusing to continue with a forgotten term and vote",
            ))),
            None => Ok(None),
        }
    }

    /// Terms are decided under the replication lock and persisted after releasing it, so saves can
    /// arrive out of order, and the durable term must never rewind. `stored` is what loading gave.
    pub fn save(&self, stored: &Result<Option<ReplicationMeta>, LoadError>) -> (r: SaveStep)
        ensures
            r == save_step(*self, *stored),
    {
        match stored {
            Ok(Some(existing)) => if self.term < existing.term { SaveStep::Keep } else { SaveStep::Write },
            _ => SaveStep::Write,
        }
    }
}

/// What becomes of saving a record over what loading gave: a later term on disk stays.
pub open spec fn save_step(saved: ReplicationMeta, stored: Result<Option<ReplicationMeta>, LoadError>) -> SaveStep {
    if stored is Ok && stored->Ok_0 is Some && saved.term < stored->Ok_0->0.term { SaveStep::Keep } else { SaveStep::Write }
}

/// The record on disk after a save.
pub open spec fn after_save(saved: ReplicationMeta, stored: Option<ReplicationMeta>) -> Option<ReplicationMeta> {
    match save_step(saved, Ok(stored)) {
        SaveStep::Keep => stored,
        SaveStep::Write => Some(saved),
    }
}

/// The term on disk after a save lies neither below the one before it nor below the one saved, and a
/// record of the term on disk replaces the one before it.
pub proof fn law_the_durable_term_never_rewinds(saved: ReplicationMeta, stored: Option<ReplicationMeta>)
    ensures
        after_save(saved, stored) is Some,
        stored is Some ==> stored->0.term <= after_save(saved, stored)->0.term,
        saved.term <= after_save(saved, stored)->0.term,
        stored is Some && stored->0.term == saved.term ==> after_save(saved, stored) == Some(saved),
{
}

/// What a shard node knows of its group. Instants are monotonic nanoseconds.
pub struct ReplicationState {
    pub term: u64,
    pub is_leader: bool,
    pub voted_for: Option<String>,
    pub last_heartbeat: Option<u64>,
    pub was_receiving_replication: bool,
    pub last_replication: Option<u64>,
    pub heartbeat_running: bool,
    pub primary_addr: Option<String>,
    pub replicas: Vec<String>,
    pub last_known_primary_position: Option<u64>,
    /// Leader side: what each replica holds, and what a quorum has committed.
    pub progress: Progress,
    /// Follower side: the commit watermark the leader last told us, per collection.
    pub leader_committed: NameMap<u64>,
}

pub ghost struct ReplicationStateView {
    pub term: u64,
    pub is_leader: bool,
    pub voted_for: Option<Seq<char>>,
    pub last_heartbeat: Option<u64>,
    pub was_receiving_replication: bool,
    pub last_replication: Option<u64>,
    pub heartbeat_running: bool,
    pub primary_addr: Option<Seq<char>>,
    pub replicas: Seq<Seq<char>>,
    pub last_known_primary_position: Option<u64>,
    pub progress: ProgressView,
    pub leader_committed: Map<Seq<char>, u64>,
}

impl View for ReplicationState {
    type V = ReplicationStateView;

    open spec fn view(&self) -> ReplicationStateView {
        ReplicationStateView {
            term: self.term,
            is_leader: self.is_leader,
            voted_for: opt_text(self.voted_for),
            last_heartbeat: self.last_heartbeat,
            was_receiving_replication: self.was_receiving_replication,
            last_replication: self.last_replication,
            heartbeat_running: self.heartbeat_running,
            primary_addr: opt_text(self.primary_addr),
            replicas: texts(self.replicas@),
            last_known_primary_position: self.last_known_primary_position,
            progress: self.progress@,
            leader_committed: self.leader_committed@,
        }
    }
}

impl ReplicationStateView {
    /// A follower at a higher term: no vote cast in it, no quorum evidence, the contact clock
    /// started anew.
    pub open spec fn demoted(self, new_term: u64, now: u64) -> ReplicationStateView {
        ReplicationStateView {
            term: new_term,
            voted_for: None,
            is_leader: false,
            progress: ProgressView::nothing(),
            last_heartbeat: Some(now),
            last_replication: None,
            was_receiving_replication: false,
            heartbeat_running: true,
            ..self
        }
    }
}

/// Strictly higher only: on equal terms a peer bounces the leader with every message. Returns
/// whether the heartbeat poll has to be started.
pub fn apply_demotion(repl: &mut ReplicationState, new_term: u64, now: u64) -> (r: Option<bool>)
    ensures
        new_term <= old(repl)@.term ==> r is None && final(repl)@ == old(repl)@,
        new_term > old(repl)@.term ==> r == Some(!old(repl)@.heartbeat_running)
            && final(repl)@ == old(repl)@.demoted(new_term, now),
{
    if new_term <= repl.term {
        return None;
    }
    repl.term = new_term;
    repl.voted_for = None;
    repl.is_leader = false;
    // Quorum evidence belongs to the term it was gathered in. Kept, it goes on being served as a
    // commit watermark by a node that no longer has the standing to have one.
    repl.progress.reset();
    repl.last_heartbeat = Some(now);
    repl.last_replication = None;
    repl.was_receiving_replication = false;
    let restart = !repl.heartbeat_running;
    repl.heartbeat_running = true;
    Some(restart)
}

/// How a node starts out in its group.
pub struct BootRole {
    pub term: u64,
    pub is_leader: bool,
    pub voted_for: Option<String>,
}

/// A former leader rejoins as a follower unless it is alone: the cluster may have moved on. Without
/// a record the configured role decides.
pub fn boot_role(meta: &Option<ReplicationMeta>, runs_as_primary: bool, has_peers: bool) -> (r: BootRole)
    ensures
        match *meta {
            Some(m) => r.term == m.term && r.is_leader == (runs_as_primary && !has_peers)
                && opt_text(r.voted_for) == opt_text(m.voted_for),
            None => r.term == 0 && r.is_leader == runs_as_primary && r.voted_for is None,
        },
{
    match meta {
        Some(m) => BootRole {
            term: m.term,
            is_leader: runs_as_primary && !has_peers,
            voted_for: copy_opt(&m.voted_for),
        },
        None => BootRole { term: 0, is_leader: runs_as_primary, voted_for: None },
    }
}

/// Nothing is taken for a first start but the absence of both records: one that can be read is read,
/// the file before its staging copy, and one that cannot be read is told of.
pub proof fn law_a_record_is_never_overlooked<T>(file: Stored<T>, staging: Stored<T>)
    ensures
        loaded(file, staging) == Ok::<Option<T>, (Seq<char>, Seq<char>)>(None) <==> file is Absent && staging is Absent,
        file is Read ==> loaded(file, staging) == Ok::<Option<T>, (Seq<char>, Seq<char>)>(Some(file->Read_0)),
        (file is Absent || file is Corrupt) && staging is Read ==> loaded(file, staging) == Ok::<Option<T>, (Seq<char>, Seq<char>)>(
            Some(staging->Read_0),
        ),
        file is Failed ==> loaded(file, staging) is Err,
        !(file is Read) && (staging is Failed || staging is Corrupt) ==> loaded(file, staging) is Err,
        file is Corrupt && staging is Absent ==> loaded(file, staging) is Err,
{
}

/// Whoever steps down keeps no quorum evidence, no vote and no office, and everything else that it
/// knows.
pub proof fn law_stepping_down_keeps_what_is_known(s: ReplicationStateView, new_term: u64, now: u64)
    ensures
        ({
            let d = s.demoted(new_term, now);
            &&& d.term == new_term && d.voted_for is None && !d.is_leader
            &&& d.progress.matched.dom() =~= Set::empty() && d.progress.committed.dom() =~= Set::empty() && d.progress.sent.dom()
                =~= Set::empty()
            &&& d.last_heartbeat == Some(now) && d.last_replication is None && !d.was_receiving_replication && d.heartbeat_running
            &&& d.primary_addr == s.primary_addr && d.replicas == s.replicas
            &&& d.last_known_primary_position == s.last_known_primary_position && d.leader_committed == s.leader_committed
        }),
{
}

} // verus!
