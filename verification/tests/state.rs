use dewdb::consensus::progress::Progress;
use dewdb::consensus::state::{
    apply_demotion, boot_role, LoadError, ReplicationMeta, ReplicationState, SaveStep, Stored,
};
use dewdb::name_map::NameMap;

fn meta(term: u64, is_leader: bool, voted_for: Option<&str>) -> ReplicationMeta {
    ReplicationMeta { term, is_leader, voted_for: voted_for.map(|v| v.to_string()) }
}

/// The record as it would stand on disk.
struct Disk {
    file: Option<(u64, bool, Option<String>)>,
}

impl Disk {
    fn load(&self) -> Result<Option<ReplicationMeta>, LoadError> {
        let file = match &self.file {
            Some((term, is_leader, voted_for)) =>
                Stored::Read(ReplicationMeta { term: *term, is_leader: *is_leader, voted_for: voted_for.clone() }),
            None => Stored::Absent,
        };
        ReplicationMeta::load(file, Stored::Absent)
    }

    fn save(&mut self, m: ReplicationMeta) {
        if m.save(&self.load()) == SaveStep::Write {
            self.file = Some((m.term, m.is_leader, m.voted_for));
        }
    }
}

#[test]
fn term_and_vote_survive_a_reload() {
    let mut disk = Disk { file: None };
    disk.save(meta(7, false, Some("n2")));
    let back = disk.load().unwrap().expect("record must be there");

    assert_eq!(back.term, 7);
    assert_eq!(back.voted_for.as_deref(), Some("n2"), "the vote is useless if only the term survives");
    assert!(!back.is_leader);
}

#[test]
fn an_absent_record_reads_as_a_fresh_node() {
    assert!(ReplicationMeta::load(Stored::Absent, Stored::Absent).unwrap().is_none());
}

#[test]
fn an_unreadable_record_is_an_error_not_a_fresh_node() {
    let err = ReplicationMeta::load(Stored::Corrupt("EOF while parsing".to_string()), Stored::Absent).expect_err(
        "a truncated record must not read as term 0; that would let this node \
         vote a second time in a term it already voted in");
    assert_eq!(err, LoadError::Invalid(
        "replication.meta is unreadable (EOF while parsing); refusing to continue with a forgotten term and vote".to_string()));

    let staged = ReplicationMeta::load(Stored::Corrupt("a".to_string()), Stored::Corrupt("b".to_string()));
    assert_eq!(staged, Err(LoadError::Invalid(
        "replication.meta.tmp is unreadable (b); refusing to continue with a forgotten term and vote".to_string())));
    assert_eq!(ReplicationMeta::load(Stored::Failed("denied".to_string()), Stored::Absent),
        Err(LoadError::Io("denied".to_string())));
}

#[test]
fn a_crash_before_the_rename_recovers_from_the_staging_file() {
    let back = ReplicationMeta::load(Stored::Absent, Stored::Read(meta(4, false, Some("n3")))).unwrap()
        .expect("a record fsynced but not yet renamed is still a complete record");
    assert_eq!(back.term, 4);
    assert_eq!(back.voted_for.as_deref(), Some("n3"));
}

#[test]
fn the_durable_term_never_rewinds() {
    let mut disk = Disk { file: None };
    disk.save(meta(6, false, Some("n1")));
    disk.save(meta(5, false, Some("n2")));

    let back = disk.load().unwrap().unwrap();
    assert_eq!(back.term, 6, "a save decided at an older term must not overwrite a newer one");
    assert_eq!(back.voted_for.as_deref(), Some("n1"),
        "term and vote move together, so the stale vote must not land either");

    disk.save(meta(6, true, Some("n1")));
    assert!(disk.load().unwrap().unwrap().is_leader,
        "the same term must still be updatable, or winning an election could not be recorded");
}

const NOW: u64 = 77_000_000_000;

fn leader_state(term: u64) -> ReplicationState {
    ReplicationState {
        term,
        is_leader: true,
        voted_for: None,
        last_heartbeat: None,
        was_receiving_replication: true,
        last_replication: Some(NOW),
        heartbeat_running: false,
        primary_addr: None,
        replicas: vec![],
        last_known_primary_position: None,
        progress: Progress::new(),
        leader_committed: NameMap::new(),
    }
}

#[test]
fn demotion_transitions_leader_to_follower() {
    let mut r = leader_state(2);

    assert_eq!(apply_demotion(&mut r, 2, NOW), None, "equal term is not a demotion");
    assert!(r.is_leader);
    assert_eq!(apply_demotion(&mut r, 1, NOW), None, "lower term is not a demotion");
    assert!(r.is_leader);

    assert_eq!(apply_demotion(&mut r, 5, NOW), Some(true), "higher term demotes and needs poll restart");
    assert!(!r.is_leader);
    assert_eq!(r.term, 5);
    assert!(r.heartbeat_running);
    assert!(!r.was_receiving_replication);

    assert_eq!(apply_demotion(&mut r, 7, NOW), Some(false), "already-following node adopts term without restarting poll");
    assert_eq!(r.term, 7);
    assert!(!r.is_leader);
}

#[test]
fn a_demotion_forgets_the_terms_evidence() {
    let mut r = leader_state(2);
    r.progress.observe_ack("http://a", "users", 9);
    apply_demotion(&mut r, 3, NOW + 5);
    assert_eq!(r.progress.matched("http://a", "users"), 0);
    assert_eq!(r.last_heartbeat, Some(NOW + 5));
    assert_eq!(r.last_replication, None);
}

#[test]
fn a_former_leader_rejoins_as_a_follower_unless_it_is_alone() {
    let was = Some(meta(4, true, Some("n1")));
    let role = boot_role(&was, true, true);
    assert!(!role.is_leader);
    assert_eq!(role.term, 4);
    assert_eq!(role.voted_for.as_deref(), Some("n1"));
    assert!(boot_role(&was, true, false).is_leader);
    assert!(boot_role(&None, true, true).is_leader);
    assert_eq!(boot_role(&None, true, true).term, 0);
    assert!(!boot_role(&None, false, false).is_leader);
}
