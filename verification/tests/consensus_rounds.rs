use dewdb::cluster::metadata::{ClusterMetadata, Member};
use dewdb::consensus::campaign::{round_deadline_ms, Campaign, CampaignAction, CampaignEvent};
use dewdb::consensus::config::Configuration;
use dewdb::consensus::election::{
    ask_peers, become_leader, election_jitter, local_log_tails, peer_answer, publish_inherited_tails, seed_leader_progress, stand,
    try_local_log_tails, vote_request, Ballot, BarrierStep, CollectionTail, LogTail, PeerReply, Promotion, VoteResponse,
};
use dewdb::consensus::failover::{
    adopt_existing_leader, apply_heartbeat, begin_resync, boot_resync, contact_interval, demote, discover_leader, discovery_targets,
    end_resync, follow_after_demotion, heartbeat_poll_task,
    leader_claim, leader_contact_task, maybe_follow_new_leader, poll_promise, probe_replica, progress_flush_task,
    step_down_without_quorum, BootStep, ContactStep, Hints, LeaderFound, PollAction, PollEvent, PollPhase, PollSettings,
};
use dewdb::consensus::lease::Leases;
use dewdb::consensus::progress::Progress;
use dewdb::consensus::read_index::{
    confirm_leadership, confirm_read, confirm_with_quorum, heartbeat_answer, index_is_complete, read_index, Answer, Confirmation, IndexSample, ReadAction,
    ReadEvent, ReadPhase, ReadRefusal,
};
use dewdb::consensus::reconfigure::{
    append_and_commit, begin_change, change_membership, change_step, hand_over_first, joining_members, pending_change, require_leader, resume_change, resumes,
    successor_for, validate, AppendAction, AppendEvent, AppendPhase, ChangeAction, ChangeError, ChangePhase, LogFound,
    ChangePlan, Standing,
};
use dewdb::consensus::recovery::{history_peers, may_recover, recover_histories, ElectionHistories, PeerHistories, RecoveryPlan};
use dewdb::consensus::state::ReplicationState;
use dewdb::consensus::transfer::{
    best_target, choose_target, eligible_targets, transfer_target, Transfer, TransferAction, TransferError, TransferEvent, TransferPhase,
};
use dewdb::name_map::NameMap;
use dewdb::ring::{HashRing, RingShard};
use dewdb::wire::read_json;

fn urls(names: &[&str]) -> Vec<String> {
    names.iter().map(|n| format!("http://{}", n)).collect()
}

fn simple(names: &[&str]) -> Configuration {
    Configuration::simple(urls(names))
}

fn tail(last_term: u64, last_lsn: u64) -> LogTail {
    LogTail { last_term, last_lsn }
}

fn tails(pairs: &[(&str, u64, u64)]) -> NameMap<LogTail> {
    let mut m = NameMap::new();
    for (n, t, l) in pairs {
        m.insert(n.to_string(), tail(*t, *l));
    }
    m
}

// ---- Elections ----

fn replied(replies: &[(&str, u64, bool)]) -> Vec<(String, PeerReply)> {
    replies.iter()
        .map(|(p, term, granted)| (format!("http://{}", p), PeerReply::Answered(VoteResponse { term: *term, vote_granted: *granted })))
        .collect()
}

fn tails_read(voters: &[&str], term: u64) -> CampaignEvent {
    CampaignEvent::TailsRead { quorum: simple(voters), term, logs: tails(&[("users", 3, 9)]), tail: tail(3, 9) }
}

#[test]
fn a_timeout_election_asks_before_it_stands() {
    let (mut c, a) = Campaign::begin("n1", "http://a", None);
    assert!(matches!(a, CampaignAction::Wait));
    assert!(matches!(c.run_election(CampaignEvent::Waited), CampaignAction::Inspect));
    assert!(matches!(c.run_election(CampaignEvent::Inspected { is_leader: false, in_quorum: true }), CampaignAction::SearchLeader));
    assert!(matches!(c.run_election(CampaignEvent::Searched { found: false }), CampaignAction::ReadTails));
    match c.run_election(tails_read(&["a", "b", "c"], 4)) {
        CampaignAction::PreVote { peers, request } => {
            assert_eq!((peers, request.term), (urls(&["b", "c"]), 5));
            assert_eq!((request.candidate_id.as_str(), request.candidate_url.as_deref()), ("n1", Some("http://a")));
            assert_eq!((request.last_term, request.last_lsn, request.logs.get("users")), (3, 9, Some(&tail(3, 9))));
        },
        _ => panic!("a candidate asks first"),
    }
    let willing = vec![("http://b".to_string(), PeerReply::NotFound), ("http://c".to_string(), PeerReply::Failed)];
    assert!(matches!(c.run_election(CampaignEvent::PreVoted { replies: willing, term: 4 }), CampaignAction::Stand),
        "a peer without the endpoint is willing");
    match c.run_election(CampaignEvent::Stood { persisted: true, term: 5 }) {
        CampaignAction::Vote { peers, request } => assert_eq!((peers, request.term, request.transfer_from), (urls(&["b", "c"]), 5, None)),
        _ => panic!("a candidate that stands asks for votes"),
    }
    assert!(matches!(c.run_election(CampaignEvent::Voted { replies: replied(&[("b", 5, true)]) }), CampaignAction::Lead { term: 5 }));
}

/// A candidate that cannot win stops before any term moves.
#[test]
fn a_refused_pre_vote_moves_no_term() {
    let start = || {
        let (mut c, _) = Campaign::begin("n1", "http://a", None);
        c.run_election(CampaignEvent::Waited);
        c.run_election(CampaignEvent::Inspected { is_leader: false, in_quorum: true });
        c.run_election(CampaignEvent::Searched { found: false });
        c.run_election(tails_read(&["a", "b", "c"], 4));
        c
    };
    assert!(matches!(start().run_election(CampaignEvent::PreVoted { replies: replied(&[("b", 4, false)]), term: 4 }), CampaignAction::Recover));
    assert!(matches!(start().run_election(CampaignEvent::PreVoted { replies: Vec::new(), term: 4 }), CampaignAction::Recover));
    assert!(matches!(start().run_election(CampaignEvent::PreVoted { replies: replied(&[("b", 9, false)]), term: 4 }),
        CampaignAction::Demote { term: 9 }));
}

#[test]
fn a_handover_stands_at_once_and_says_by_whom() {
    let (mut c, a) = Campaign::begin("n1", "http://a", Some("http://b".into()));
    assert!(matches!(a, CampaignAction::Inspect));
    c.run_election(CampaignEvent::Inspected { is_leader: false, in_quorum: true });
    assert!(matches!(c.run_election(tails_read(&["a", "b", "c"], 4)), CampaignAction::Stand));
    match c.run_election(CampaignEvent::Stood { persisted: true, term: 5 }) {
        CampaignAction::Vote { request, .. } => assert_eq!(request.transfer_from.as_deref(), Some("http://b")),
        _ => panic!("it asks for votes"),
    }
    let absent = vec![("http://b".to_string(), PeerReply::NotFound), ("http://c".to_string(), PeerReply::Unreadable)];
    assert!(matches!(c.run_election(CampaignEvent::Voted { replies: absent }), CampaignAction::Stop), "no vote was cast");
}

#[test]
fn a_lone_voter_elects_itself() {
    let (mut c, a) = Campaign::begin("n1", "http://a", Some("http://b".into()));
    assert!(matches!(a, CampaignAction::Inspect));
    assert!(matches!(c.run_election(CampaignEvent::Inspected { is_leader: false, in_quorum: true }), CampaignAction::ReadTails));
    assert!(matches!(c.run_election(tails_read(&["a"], 1)), CampaignAction::Stand));
    assert!(matches!(c.run_election(CampaignEvent::Stood { persisted: true, term: 2 }), CampaignAction::Lead { term: 2 }));

    let (mut c, _) = Campaign::begin("n1", "http://a", Some("http://b".into()));
    c.run_election(CampaignEvent::Inspected { is_leader: false, in_quorum: true });
    c.run_election(tails_read(&["a"], 1));
    assert!(matches!(c.run_election(CampaignEvent::Stood { persisted: false, term: 2 }), CampaignAction::Stop),
        "a vote that is not durable is not a vote");
}

#[test]
fn standing_is_a_vote_for_itself_in_the_next_term() {
    let mut r = follower(4);
    let record = stand(&mut r, "n1");
    assert_eq!((r.term, r.voted_for.as_deref()), (5, Some("n1")));
    assert_eq!((record.term, record.is_leader, record.voted_for.as_deref()), (5, false, Some("n1")));
}

#[test]
fn a_peer_without_the_endpoint_grants_a_pre_vote_only() {
    assert_eq!(peer_answer(&PeerReply::Answered(VoteResponse { term: 7, vote_granted: true }), false), (true, 7));
    assert_eq!(peer_answer(&PeerReply::NotFound, true), (true, 0));
    assert_eq!(peer_answer(&PeerReply::NotFound, false), (false, 0));
    assert_eq!(peer_answer(&PeerReply::Failed, true), (false, 0));
}

#[test]
fn votes_are_counted_until_they_carry() {
    let ballot = |p: &str, g: bool, t: u64| Ballot { voter: format!("http://{}", p), granted: g, term: t };
    let t = ask_peers("http://a", &simple(&["a", "b", "c"]), &vec![ballot("b", false, 8), ballot("c", true, 3)]);
    assert_eq!(t.granted, urls(&["a", "c"]));
    assert_eq!(t.highest_term, 8);
}

#[test]
fn a_delay_stays_under_its_bound() {
    for seed in [0, 1, 77, u64::MAX] {
        assert!(election_jitter(seed, 500) <= 500);
    }
    assert_eq!(election_jitter(123, 0), 0);
}

#[test]
fn a_collection_that_cannot_be_read_fails_the_tails() {
    let listing = vec![
        CollectionTail { name: "users".into(), tail: Ok((2, 9)) },
        CollectionTail { name: "orders".into(), tail: Err("io".into()) },
    ];
    assert_eq!(try_local_log_tails(Some(Ok(listing))).err().as_deref(), Some("io"));
    let fine = try_local_log_tails(Some(Ok(vec![CollectionTail { name: "users".into(), tail: Ok((2, 9)) }]))).ok().unwrap();
    assert_eq!(fine.get("users"), Some(&tail(2, 9)));
    assert_eq!(try_local_log_tails(None).ok().unwrap().len(), 0);
}

// ---- Recovery ----

fn peer(name: &str, term: u64, logs: &[(&str, u64, u64)]) -> PeerHistories {
    PeerHistories { peer: format!("http://{}", name), histories: ElectionHistories { term, logs: tails(logs) } }
}

#[test]
fn missing_histories_are_fetched_from_whoever_is_freshest() {
    let local = tails(&[("users", 3, 10), ("orders", 3, 5)]);
    let peers = vec![peer("b", 3, &[("users", 3, 12), ("_config", 1, 1)]), peer("c", 4, &[("users", 3, 15), ("orders", 2, 50)])];
    match recover_histories(4, &local, &peers) {
        RecoveryPlan::Fetch(v) => {
            let got: Vec<(&str, &str, LogTail)> = v.iter().map(|s| (s.name.as_str(), s.peer.as_str(), s.tail)).collect();
            assert_eq!(got, vec![("_config", "http://b", tail(1, 1)), ("users", "http://c", tail(3, 15))]);
        },
        _ => panic!("nobody is ahead"),
    }
    assert!(matches!(recover_histories(3, &local, &peers), RecoveryPlan::Demote(4)));
    assert!(may_recover(false, 3, 3, &simple(&["a", "b"]), &simple(&["a", "b"])));
    assert!(!may_recover(true, 3, 3, &simple(&["a", "b"]), &simple(&["a", "b"])));
    assert!(!may_recover(false, 4, 3, &simple(&["a", "b"]), &simple(&["a", "b"])));
    assert!(!may_recover(false, 3, 3, &simple(&["a", "b"]), &simple(&["a", "c"])), "the electorate changed meanwhile");
}

// ---- Reads ----

fn answer(v: &str, said: Option<(u64, bool)>) -> Answer {
    Answer { voter: format!("http://{}", v), said }
}

#[test]
fn a_quorum_of_followers_confirms_a_leader() {
    let q = simple(&["a", "b", "c"]);
    assert_eq!(confirm_with_quorum(&q, "http://a", 5, &vec![answer("b", Some((5, false))), answer("c", None)]), Confirmation::Confirmed);
    assert_eq!(confirm_with_quorum(&q, "http://a", 5, &vec![answer("b", Some((5, true))), answer("c", None)]),
        Confirmation::Unconfirmed, "a voter claiming our own term is not a confirmation");
    assert_eq!(confirm_with_quorum(&q, "http://a", 5, &vec![answer("b", Some((6, false)))]), Confirmation::Deposed(6));
    assert_eq!(confirm_with_quorum(&simple(&["a"]), "http://a", 5, &vec![]), Confirmation::Confirmed, "its own quorum");

    assert_eq!(confirm_leadership(true, Confirmation::Unconfirmed, true), Ok(()), "a lease needs no round");
    assert_eq!(confirm_leadership(false, Confirmation::Confirmed, true), Ok(()));
    assert_eq!(confirm_leadership(false, Confirmation::Unconfirmed, true), Err(ReadRefusal::Unconfirmed));
    assert!(confirm_leadership(false, Confirmation::Deposed(9), true).is_err());
}

#[test]
fn a_linearizable_read_waits_for_its_index() {
    assert!(index_is_complete(0, false) && index_is_complete(3, true) && !index_is_complete(3, false));
    let asked = |is_leader: bool, sample: IndexSample| read_index(ReadPhase::Start, ReadEvent::Asked { is_leader, sample });
    assert_eq!(asked(false, IndexSample::NoCollection).1, ReadAction::Answer(Err(ReadRefusal::NotLeader)));
    assert_eq!(asked(true, IndexSample::Log { pending_len: 2, current_term_commit: false, committed: 3 }).1, ReadAction::Answer(Err(ReadRefusal::TermTooNew)));

    let (p, a) = asked(true, IndexSample::Log { pending_len: 2, current_term_commit: true, committed: 3 });
    assert_eq!(a, ReadAction::ConfirmLeadership);
    let (p, a) = read_index(p, ReadEvent::Confirmed { outcome: Ok(()), is_leader: true, now: 10 });
    assert_eq!(a, ReadAction::LookApplied);
    let (p, a) = read_index(p, ReadEvent::Looked { applied_lsn: 2, now: 11, is_leader: true });
    assert_eq!(a, ReadAction::LookApplied);
    assert_eq!(read_index(p, ReadEvent::Looked { applied_lsn: 3, now: 12, is_leader: true }).1, ReadAction::Answer(Ok(3)));
    assert_eq!(read_index(p, ReadEvent::Looked { applied_lsn: 3, now: 12, is_leader: false }).1,
        ReadAction::Answer(Err(ReadRefusal::NotLeader)));
    assert_eq!(read_index(p, ReadEvent::Looked { applied_lsn: 2, now: 10 + 2_000_000_000, is_leader: true }).1,
        ReadAction::Answer(Err(ReadRefusal::ApplyTimeout)));
    assert_eq!(ReadRefusal::Unconfirmed.message(), "could not confirm leadership with a quorum; retry");
}

// ---- Membership ----

#[test]
fn a_retry_of_the_change_in_flight_is_not_a_second_change() {
    let joint = Configuration::joint(urls(&["a", "b"]), urls(&["a", "b", "c"]));

    assert!(resumes(&joint, &urls(&["a", "b", "c"])),
        "the same target has to be allowed through, or the retry that finishes it is refused");
    assert!(resumes(&joint, &urls(&["c", "a", "b"])), "order is not identity");
    assert!(!resumes(&joint, &urls(&["a", "b", "d"])),
        "a different target while joint is a second concurrent change");
    assert!(!resumes(&Configuration::simple(urls(&["a", "b"])), &urls(&["a", "b"])),
        "nothing to resume when no change is in flight");
}

fn view_of(names: &[&str]) -> ClusterMetadata {
    ClusterMetadata {
        version: 1,
        updated_by: "n1".into(),
        seeded: false,
        members: urls(names).into_iter().map(|url| Member {
            url, node_id: None, role: "shard".into(), shard_role: None, voting: true, follows: None,
        }).collect(),
        shards: Vec::new(),
        ring: None,
        migration: None,
        index_catalog: NameMap::new(),
    }
}

#[test]
fn a_change_is_checked_before_anything_is_appended() {
    let current = simple(&["a", "b"]);
    let view = view_of(&["a", "b", "c"]);
    assert_eq!(validate(&current, false, &view, &urls(&["a", "b", "c"])), Ok(()));
    assert_eq!(validate(&current, false, &view, &[]), Err(ChangeError::Refused("a configuration needs at least one voter".into())));
    assert_eq!(validate(&current, false, &view, &urls(&["a", "a"])),
        Err(ChangeError::Refused("http://a appears more than once; each node counts once toward a majority".into())));
    assert_eq!(validate(&current, true, &view, &urls(&["a", "c"])),
        Err(ChangeError::Refused("the previous configuration entry has not committed yet; retry".into())));
    assert!(validate(&current, false, &view, &urls(&["a", "z"])).is_err(), "a node nobody has heard of");
    let joint = Configuration::joint(urls(&["a"]), urls(&["a", "b"]));
    assert_eq!(validate(&joint, false, &view, &urls(&["a", "c"])), Err(ChangeError::Refused(
        "a change to [\"http://a\", \"http://b\"] is already in flight; finish or retry that one first".into())));
    assert!(require_leader(true, 4, 4, true).is_ok());
    assert!(require_leader(true, 5, 4, true).is_err());
}

const LEADING: Standing = Standing { is_leader: true, current_term: 4, in_quorum: true };

/// The change of this configuration to these voters, made by the leader at a in a group of a, b and c.
fn change(current: &Configuration, next: &[&str]) -> Result<ChangePlan, ChangeError> {
    change_membership(LEADING, 4, current, false, &view_of(&["a", "b", "c"]), urls(next), "http://a")
}

#[test]
fn a_change_is_made_only_by_the_leader_of_the_term() {
    let (current, view) = (simple(&["a", "b"]), view_of(&["a", "b", "c"]));
    for standing in [
        Standing { is_leader: false, ..LEADING },
        Standing { current_term: 5, ..LEADING },
        Standing { in_quorum: false, ..LEADING },
    ] {
        match change_membership(standing, 4, &current, false, &view, urls(&["a", "c"]), "http://a") {
            Err(e) => assert_eq!(e, ChangeError::Refused("leadership changed; send the change to the current leader".into())),
            Ok(_) => panic!("a node that does not lead the term changes nothing"),
        }
    }
    match change_membership(LEADING, 4, &current, true, &view, urls(&["a", "c"]), "http://a") {
        Err(e) => assert_eq!(e.why(), "the previous configuration entry has not committed yet; retry"),
        Ok(_) => panic!("a second change waits for the first"),
    }
    assert!(matches!(change(&current, &[]), Err(ChangeError::Refused(_))));
    assert!(matches!(change(&current, &["a", "z"]), Err(ChangeError::Refused(_))));
}

#[test]
fn the_target_is_appended_once_the_joint_entry_has_committed() {
    let current = simple(&["a", "b"]);
    let start = || match change(&current, &["a", "c"]) {
        Ok(plan) => begin_change(plan, &current),
        Err(e) => panic!("{}", e.why()),
    };
    let (phase, action) = start();
    assert!(matches!(action, ChangeAction::Append(c) if c == Configuration::joint(urls(&["a", "b"]), urls(&["a", "c"]))));
    let (phase, action) = change_step(phase, AppendAction::LookCommitted);
    assert!(matches!(action, ChangeAction::Continue));
    let (phase, action) = change_step(phase, AppendAction::Done(7));
    assert!(matches!(action, ChangeAction::Append(c) if c == simple(&["a", "c"])));
    let (phase, action) = change_step(phase, AppendAction::Done(8));
    assert!(matches!(action, ChangeAction::Done(c) if c == simple(&["a", "c"])));
    assert!(matches!(change_step(phase, AppendAction::Done(9)), (ChangePhase::Over, ChangeAction::Fail(ChangeError::Stalled(_)))));

    let (phase, _) = start();
    match change_step(phase, AppendAction::Fail(ChangeError::Stalled("late".into()))) {
        (ChangePhase::Over, ChangeAction::Fail(e)) => assert_eq!(e, ChangeError::Stalled("late".into())),
        _ => panic!("nothing is appended above an entry that did not commit"),
    }
    match change(&current, &["b", "a"]) {
        Ok(plan) => assert!(matches!(begin_change(plan, &current).1, ChangeAction::Done(c) if c == current)),
        Err(e) => panic!("{}", e.why()),
    }
    match change(&current, &["b", "c"]) {
        Ok(plan) => assert!(matches!(begin_change(plan, &current).1, ChangeAction::HandOver)),
        Err(e) => panic!("{}", e.why()),
    }
}

#[test]
fn a_change_passes_through_a_joint_configuration() {
    match change(&simple(&["a", "b"]), &["a", "c"]) {
        Ok(ChangePlan::Enter { joint, target }) => {
            assert_eq!(joint, Configuration::joint(urls(&["a", "b"]), urls(&["a", "c"])));
            assert_eq!(target, simple(&["a", "c"]));
            assert_eq!(joining_members(&joint, &simple(&["a", "b"])), urls(&["c"]));
        },
        _ => panic!("a new voter enters through a joint entry"),
    }
    assert!(matches!(change(&simple(&["a", "b"]), &["b", "a"]), Ok(ChangePlan::Unchanged)));
    assert!(matches!(change(&simple(&["a", "b"]), &["b", "c"]), Ok(ChangePlan::HandOver)));
    let joint = Configuration::joint(urls(&["a", "b"]), urls(&["a", "c"]));
    assert!(matches!(change(&joint, &["a", "c"]), Ok(ChangePlan::Finish { .. })));

    assert_eq!(resume_change(true, 3, 3, &Some(joint.clone()), &joint, false), Some(urls(&["a", "c"])));
    assert_eq!(resume_change(true, 3, 3, &Some(joint.clone()), &joint, true), None);
    assert_eq!(resume_change(true, 4, 3, &Some(joint.clone()), &joint, false), None);
    assert_eq!(resume_change(true, 3, 3, &Some(simple(&["a"])), &simple(&["a"]), false), None);
    assert_eq!(pending_change(Some(joint.clone()), &Some(simple(&["a", "b"]))), Some(joint));
    assert_eq!(pending_change(Some(simple(&["a"])), &Some(simple(&["a"]))), None);
}

#[test]
fn an_entry_that_landed_is_never_called_refused() {
    let s = Standing { is_leader: true, current_term: 4, in_quorum: true };
    let (p, _) = append_and_commit(AppendPhase::Start, 4, AppendEvent::Opened { standing: s, log: LogFound::Open });
    assert!(matches!(append_and_commit(p, 4, AppendEvent::Appended { lsn: Err("full".into()) }).1,
        AppendAction::Fail(ChangeError::Refused(_))));
    let (p, _) = append_and_commit(p, 4, AppendEvent::Appended { lsn: Ok(12) });
    let (p, _) = append_and_commit(p, 4, AppendEvent::Shipped { durable: Ok(()), now: 0 });
    let (p, a) = append_and_commit(p, 4, AppendEvent::Looked { committed_lsn: 11, is_leader: true, current_term: 4, now: 5 });
    assert!(matches!(a, AppendAction::LookCommitted));
    match append_and_commit(p, 4, AppendEvent::Looked { committed_lsn: 11, is_leader: false, current_term: 4, now: 6 }).1 {
        AppendAction::Fail(e) => assert_eq!(e.why(), "configuration entry 12 is durable but did not reach a quorum"),
        _ => panic!("a deposed leader cannot commit it"),
    }
    let (p, a) = append_and_commit(p, 4, AppendEvent::Looked { committed_lsn: 12, is_leader: true, current_term: 4, now: 6 });
    assert!(matches!(a, AppendAction::Apply));
    assert!(matches!(append_and_commit(p, 4, AppendEvent::Applied { outcome: Ok(()), standing: s }).1, AppendAction::Done(12)));
}

// ---- Handing over ----

#[test]
fn only_a_voter_of_every_half_can_take_over() {
    let joint = Configuration::joint(urls(&["a", "b", "c"]), urls(&["a", "b", "d"]));
    assert_eq!(eligible_targets(&joint, "http://a", &urls(&["a", "b", "c", "d"])), urls(&["b"]));

    let mut p = Progress::new();
    p.observe_ack("http://b", "users", 9);
    p.observe_ack("http://b", "orders", 1);
    p.observe_ack("http://c", "users", 7);
    p.observe_ack("http://c", "orders", 6);
    let ends = vec![("users".to_string(), 10), ("orders".to_string(), 8)];
    assert_eq!(best_target(&urls(&["b", "c"]), Some(&ends), &p).as_deref(), Some("http://c"),
        "least behind on the worst collection");
    assert_eq!(best_target(&[], Some(&ends), &p), None);

    let able = urls(&["b", "c"]);
    assert_eq!(choose_target(true, true, false, Some("http://c/".into()), &able, None), Ok("http://c".to_string()));
    assert_eq!(choose_target(true, true, false, Some("http://z".into()), &able, None), Err(TransferError::Refused(
        "http://z is not a voter that could take over; eligible: [\"http://b\", \"http://c\"]".into())));
    assert_eq!(choose_target(true, true, false, None, &able, None),
        Err(TransferError::Refused("no other voter to hand to; this node is the whole quorum".into())));
    assert!(choose_target(false, true, false, None, &able, None).is_err());
    assert!(choose_target(true, false, false, None, &able, None).is_err());
    assert!(choose_target(true, true, true, None, &able, None).is_err());
    let three = simple(&["a", "b", "c"]);
    assert_eq!(successor_for(&three, "http://a", &urls(&["b", "c"]), Some(&ends), &p), Ok("http://c".to_string()));
    assert_eq!(successor_for(&three, "http://a", &urls(&["b"]), Some(&ends), &p), Ok("http://b".to_string()), "the change keeps b alone");
    assert_eq!(successor_for(&three, "http://a", &urls(&["d"]), Some(&ends), &p).unwrap_err().why(),
        "this change removes the leader and names no other current voter to hand office to; add one as a voter first");
    assert_eq!(hand_over_first(Ok("http://b".into())), ChangeError::Redirect("http://b".into()));
    assert_eq!(hand_over_first(Err(TransferError::Failed("late".into()))).why(),
        "this change removes the leader and leadership could not be handed over: late");
}

#[test]
fn a_handover_waits_for_the_target_to_take_office() {
    let mut t = Transfer::begin("http://b".into(), 4);
    assert!(matches!(t.transfer_leadership(TransferEvent::Drained { is_leader: true, current_term: 4, pending: false, now: 0 }),
        TransferAction::CatchUp));
    assert!(matches!(t.transfer_leadership(TransferEvent::CaughtUp { done: false, is_leader: true, current_term: 4, now: 1 }),
        TransferAction::PauseThenCatchUp));
    assert!(matches!(t.transfer_leadership(TransferEvent::CaughtUp { done: true, is_leader: true, current_term: 4, now: 2 }),
        TransferAction::AskTarget));
    assert!(matches!(t.transfer_leadership(TransferEvent::AskedOk), TransferAction::PauseThenLook));
    assert!(matches!(t.transfer_leadership(TransferEvent::Looked { is_leader: true, current_term: 4, now: 3 }),
        TransferAction::PauseThenLook));
    assert!(matches!(t.transfer_leadership(TransferEvent::Looked { is_leader: false, current_term: 5, now: 4 }),
        TransferAction::Done(ref n) if n == "http://b"));

    let mut t = Transfer::begin("http://b".into(), 4);
    match t.transfer_leadership(TransferEvent::DrainTimedOut) {
        TransferAction::Fail(e) => assert_eq!(e.why(), "writes did not drain within 2s; nothing was handed over"),
        _ => panic!("nothing was handed over"),
    }
}

// ---- Following ----

fn follower(term: u64) -> ReplicationState {
    ReplicationState {
        term,
        is_leader: false,
        voted_for: Some("n2".into()),
        last_heartbeat: None,
        was_receiving_replication: false,
        last_replication: None,
        heartbeat_running: true,
        primary_addr: Some("http://a".into()),
        replicas: vec![],
        last_known_primary_position: None,
        progress: Progress::new(),
        leader_committed: NameMap::new(),
    }
}

#[test]
fn a_heartbeat_raises_the_term_and_counts_only_from_a_leader() {
    let beat = |text: &str| read_json(text).unwrap();
    let mut r = follower(4);
    let b = apply_heartbeat(&mut r, &beat(r#"{"role":"primary","term":5,"commit_index":9,"committed":{"users":7},"cluster_version":3}"#), 100, 2);
    assert_eq!(b.adopted, Some(5));
    assert!(b.trusted && b.fetch_view);
    assert_eq!(b.committed, vec![("users".to_string(), 7)]);
    assert_eq!((r.term, r.voted_for.clone(), r.last_heartbeat, r.last_known_primary_position), (5, None, Some(100), Some(9)));

    let b = apply_heartbeat(&mut r, &beat(r#"{"role":"primary","term":4}"#), 200, 2);
    assert!(!b.trusted, "a deposed leader keeps answering with the term it held");
    assert_eq!(r.last_heartbeat, Some(100));
    assert_eq!(leader_claim(&beat(r#"{"role":"replica","term":9}"#)), None);
    assert_eq!(leader_claim(&beat(r#"{"role":"primary","term":9}"#)), Some(9));
    assert_eq!(probe_replica(Some(&beat(r#"{"term":9}"#)), 8), Some(9));
    assert_eq!(probe_replica(Some(&beat(r#"{"term":8}"#)), 8), None);
    assert_eq!(probe_replica(None, 8), None);
}

#[test]
fn the_highest_claim_at_our_term_or_above_leads() {
    let claims = vec![("http://a".to_string(), Some(4)), ("http://b".to_string(), Some(6)), ("http://c".to_string(), None)];
    assert_eq!(discover_leader(&claims, 5).as_deref(), Some("http://b"));
    assert_eq!(discover_leader(&claims, 7), None);

    let mut r = follower(5);
    assert!(!maybe_follow_new_leader(&mut r, Some("http://a".into()), "http://a", 9), "the one already followed");
    assert!(maybe_follow_new_leader(&mut r, Some("http://b".into()), "http://a", 9));
    assert_eq!(r.primary_addr.as_deref(), Some("http://b"));
    assert!(matches!(adopt_existing_leader(&mut r, None, 10), LeaderFound::Nobody));
    assert!(matches!(adopt_existing_leader(&mut r, Some("http://b".into()), 10), LeaderFound::Same));
    assert!(matches!(adopt_existing_leader(&mut r, Some("http://c".into()), 10), LeaderFound::Changed));
    let stale = vec![("http://a".to_string(), Some(4))];
    assert_eq!(boot_resync(&mut r, &stale, 5, 10), BootStep::Retry);
    assert_eq!(boot_resync(&mut r, &stale, 10, 10), BootStep::KeepLocal, "a superseded leader is no source");
    assert_eq!(boot_resync(&mut r, &claims, 5, 10), BootStep::Sync("http://b".into()));
    assert_eq!((r.primary_addr.as_deref(), r.last_heartbeat), (Some("http://b"), Some(5)));

    let mut deposed = follower(5);
    deposed.last_heartbeat = Some(3);
    assert_eq!(follow_after_demotion(&mut deposed, &stale), None);
    assert_eq!(follow_after_demotion(&mut deposed, &claims).as_deref(), Some("http://b"));
    assert_eq!((deposed.primary_addr.as_deref(), deposed.last_heartbeat), (Some("http://b"), Some(3)));
}

#[test]
fn a_leader_without_a_majority_steps_down() {
    assert_eq!(leader_contact_task(false, false), ContactStep::Idle);
    assert_eq!(leader_contact_task(true, true), ContactStep::Stay);
    assert_eq!(leader_contact_task(true, false), ContactStep::StepDown);
    assert!(contact_interval(6_000_000_000) < 6_000_000_000);

    let mut r = follower(4);
    assert!(step_down_without_quorum(&mut r, 1).is_none(), "it does not lead");
    r.is_leader = true;
    r.heartbeat_running = false;
    let down = step_down_without_quorum(&mut r, 1).unwrap();
    assert!(down.restart && !r.is_leader);
    assert_eq!(down.record.term, 4);
    let raised = demote(&mut r, 6, 2).unwrap();
    assert_eq!((raised.restart, raised.record.term), (false, 6));
    assert!(demote(&mut r, 6, 3).is_none());
}

#[test]
fn a_poll_stands_for_election_only_when_its_leader_is_quiet() {
    let poll = PollSettings { own: "http://me".into(), timeout: 6_000_000_000, started: 0 };
    let mut r = follower(4);
    r.heartbeat_running = true;
    r.primary_addr = Some("http://p".into());
    let step = heartbeat_poll_task(PollPhase::Sleeping, &mut r, &poll, 1, PollEvent::Woke, 500_000_000);
    let asked = |novote: &str| PollAction::AskPrimary {
        to: "http://p".into(),
        query: vec![("from".into(), "http://me".into()), ("term".into(), "4".into()), ("novote_ms".into(), novote.into())],
    };
    assert_eq!(step.action, asked("0"), "nothing is owed to a leader never heard from");

    let hb = read_json(r#"{"role":"primary","term":5,"committed":{"users":7},"cluster_version":2}"#).unwrap();
    let step = heartbeat_poll_task(step.phase, &mut r, &poll, 1, PollEvent::Answered { hb: Some(hb) }, 1_000_000_000);
    let beat = step.beat.unwrap();
    assert_eq!((beat.adopted, beat.trusted, beat.fetch_view), (Some(5), true, true));
    assert_eq!((r.term, r.last_heartbeat), (5, Some(1_000_000_000)));
    let step = heartbeat_poll_task(step.phase, &mut r, &poll, 2, PollEvent::Settled, 1_000_000_000);
    assert_eq!((step.phase, step.action), (PollPhase::Sleeping, PollAction::Sleep));

    let step = heartbeat_poll_task(PollPhase::Sleeping, &mut r, &poll, 2, PollEvent::Woke, 1_000_000_000);
    assert!(matches!(&step.action, PollAction::AskPrimary { query, .. } if query[2].1 == "2062"), "{:?}", step.action);
    let step = heartbeat_poll_task(step.phase, &mut r, &poll, 2, PollEvent::Unreachable, 7_000_000_000);
    let step = heartbeat_poll_task(step.phase, &mut r, &poll, 2, PollEvent::Settled, 7_000_000_000);
    assert_eq!((&step.phase, step.action), (&PollPhase::Adopting, PollAction::LookForLeader));
    let behind = || PollEvent::LookedForLeader { answers: vec![("http://old".into(), Some(4))] };
    let step = heartbeat_poll_task(step.phase, &mut r, &poll, 2, behind(), 7_000_000_000);
    assert_eq!(step.action, PollAction::StandForElection, "a leader of an earlier term is none");
    let step = heartbeat_poll_task(step.phase, &mut r, &poll, 2, PollEvent::Stood, 7_000_000_000);
    assert_eq!(step.action, PollAction::Sleep, "the election was lost");

    let found = || PollEvent::LookedForLeader { answers: vec![("http://q".into(), Some(6))] };
    let step = heartbeat_poll_task(PollPhase::Adopting, &mut r, &poll, 2, found(), 8_000_000_000);
    assert_eq!((step.action, step.resync.as_deref()), (PollAction::Sleep, Some("http://q")));
    assert_eq!((r.primary_addr.as_deref(), r.last_heartbeat), (Some("http://q"), Some(8_000_000_000)));
    let step = heartbeat_poll_task(PollPhase::Adopting, &mut r, &poll, 2, found(), 9_000_000_000);
    assert_eq!((step.action, step.resync), (PollAction::Sleep, None), "it is followed already");

    r.is_leader = true;
    assert_eq!(heartbeat_poll_task(PollPhase::Electing, &mut r, &poll, 2, PollEvent::Stood, 0).action, PollAction::Stop);
    assert_eq!(heartbeat_poll_task(PollPhase::Sleeping, &mut r, &poll, 2, PollEvent::Woke, 0).action, PollAction::Stop);
}

#[test]
fn a_primary_that_answers_badly_is_looked_past() {
    let poll = PollSettings { own: "http://me".into(), timeout: 6_000_000_000, started: 0 };
    let mut r = follower(4);
    r.primary_addr = Some("http://p".into());
    let asking = || PollPhase::Asking { primary: "http://p".into() };
    let step = heartbeat_poll_task(asking(), &mut r, &poll, 1, PollEvent::AnsweredBadly, 5);
    assert_eq!(step.action, PollAction::LookForLeader);
    let same = PollEvent::LookedForLeader { answers: vec![("http://p".into(), Some(4))] };
    let kept = heartbeat_poll_task(PollPhase::Following { primary: "http://p".into() }, &mut r, &poll, 1, same, 5);
    assert_eq!((kept.action, kept.resync), (PollAction::CheckContact, None));
    let other = PollEvent::LookedForLeader { answers: vec![("http://q".into(), Some(4))] };
    let moved = heartbeat_poll_task(step.phase, &mut r, &poll, 1, other, 6);
    assert_eq!((moved.action, moved.resync.as_deref()), (PollAction::CheckContact, Some("http://q")));
    assert_eq!(r.primary_addr.as_deref(), Some("http://q"));
    let plain = heartbeat_poll_task(asking(), &mut r, &poll, 1, PollEvent::Answered { hb: None }, 7);
    assert!(plain.beat.is_none() && plain.action == PollAction::CheckContact);
}

#[test]
fn an_inherited_tail_is_published_once() {
    assert_eq!(publish_inherited_tails(Some(9), 7, false, true, 4, 4), BarrierStep::Append);
    assert_eq!(publish_inherited_tails(Some(7), 7, false, true, 4, 4), BarrierStep::Skip, "nothing is stranded");
    assert_eq!(publish_inherited_tails(None, 0, false, true, 4, 4), BarrierStep::Skip);
    assert_eq!(publish_inherited_tails(Some(9), 7, true, true, 4, 4), BarrierStep::Skip);
    assert_eq!(publish_inherited_tails(Some(9), 7, false, false, 4, 4), BarrierStep::Stop);
    assert_eq!(publish_inherited_tails(Some(9), 7, false, true, 5, 4), BarrierStep::Stop);
}

#[test]
fn office_is_taken_only_in_the_term_that_was_won() {
    let mut r = follower(4);
    let mut leases = Leases::default();
    let q = simple(&["a", "b"]);
    let logs = tails(&[("users", 3, 9)]);
    let hints = NameMap::new();
    let mut won = |term: u64, id: &str, in_quorum: bool| become_leader(&mut r, &mut leases, term, id, in_quorum, &q, "http://a", &logs, &hints);
    assert_eq!(won(4, "n1", true), Promotion::Moved, "the vote went to another");
    assert_eq!(won(4, "n2", false), Promotion::NonVoting);
    assert_eq!(won(5, "n2", true), Promotion::Moved);
    assert!(matches!(won(4, "n2", true), Promotion::Promoted(record) if record.term == 4 && record.is_leader
        && record.voted_for.as_deref() == Some("n2")));
    assert!(r.is_leader && !r.heartbeat_running);
    assert_eq!(r.replicas, urls(&["b"]), "the other voters that the election counted");
    assert_eq!(r.primary_addr, None);
    assert_eq!(r.progress.sent_through("http://b", "users"), Some(9), "from this node's own tail");
}

#[test]
fn a_collection_is_resynced_by_one_task_at_a_time() {
    let mut busy = NameMap::new();
    assert!(begin_resync(&mut busy, "users"));
    assert!(!begin_resync(&mut busy, "users"));
    assert!(begin_resync(&mut busy, "orders"));
    end_resync(&mut busy, "users");
    assert!(begin_resync(&mut busy, "users"));
}

#[test]
fn a_leader_is_looked_for_in_the_own_group() {
    let mut view = view_of(&["a", "b", "c", "d"]);
    let hints = Hints {
        config_replicas: urls(&["b"]),
        config_peers: urls(&["b", "e"]),
        primary_addr: Some("http://f".into()),
        replicas: vec![],
    };
    assert_eq!(discovery_targets(&view, "http://a", "a", &hints), urls(&["b", "c", "d", "e", "f"]),
        "a view without groups is one group");
    view.ring = Some(HashRing { vnodes: 8, shards: vec![
        RingShard { node_url: "http://a".into(), replica_urls: urls(&["b"]) },
        RingShard { node_url: "http://c".into(), replica_urls: urls(&["d"]) },
    ] });
    assert_eq!(discovery_targets(&view, "http://a", "a", &hints), urls(&["b", "e", "f"]),
        "another group's primary is never adopted");
}

#[test]
fn a_candidate_sends_what_it_holds() {
    let logs = tails(&[("users", 4, 9)]);
    let r = vote_request(5, "n1", &logs, tail(4, 9), "http://a", Some("http://b".into()));
    assert_eq!((r.term, r.candidate_id.as_str(), r.last_term, r.last_lsn), (5, "n1", 4, 9));
    assert_eq!(r.logs, logs);
    assert_eq!((r.candidate_url.as_deref(), r.transfer_from.as_deref()), (Some("http://a"), Some("http://b")));
    assert_eq!(local_log_tails(Err("io".into())).len(), 0);
    assert_eq!(local_log_tails(Ok(tails(&[("users", 4, 9)]))), logs);
    assert_eq!((round_deadline_ms(0), round_deadline_ms(2000)), (3000, 4000));
}

#[test]
fn a_new_leader_starts_with_cursors_and_no_evidence() {
    let mut r = follower(4);
    r.replicas = urls(&["b"]);
    r.progress.observe_ack("http://b", "users", 9);
    let mut leases = Leases::default();
    leases.note_promise("http://b", 0, 0, 60_000_000_000);
    seed_leader_progress(&mut r, &mut leases, &tails(&[("users", 4, 7)]), &NameMap::new());
    assert_eq!(r.progress.matched("http://b", "users"), 0);
    assert_eq!(r.progress.sent_through("http://b", "users"), Some(7));
    assert!(!leases.held(&simple(&["a", "b"]), "http://a", 1, 1), "a promise made to a follower is not kept");
    let sent = r.progress.cursor_snapshot();
    assert_eq!(sent.get("http://b").and_then(|m| m.get("users")), Some(&7));
    assert!(progress_flush_task(&sent, &NameMap::new()), "cursors that moved are written");
    assert!(!progress_flush_task(&sent, &r.progress.cursor_snapshot()));
    r.progress.advance("users", 7, &[]);
    assert_eq!(r.progress.all_committed(), vec![("users".to_string(), 7)]);
}

#[test]
fn a_poll_promises_what_is_left_of_the_silence() {
    let mut r = follower(4);
    assert_eq!(poll_promise(&r, 10_000_000_000, 50), (4, 0), "nothing is owed to nobody");
    r.last_heartbeat = Some(50);
    let (term, promise) = poll_promise(&r, 10_000_000_000, 50);
    assert_eq!(term, 4);
    assert!(promise > 0 && promise < 10_000_000_000);
}

#[test]
fn only_the_other_voters_are_asked_for_their_histories() {
    let q = simple(&["a", "b", "c"]);
    assert_eq!(history_peers(false, true, &q, "http://a/"), urls(&["b", "c"]));
    assert!(history_peers(true, true, &q, "http://a").is_empty(), "a leader has nothing to recover");
    assert!(history_peers(false, false, &q, "http://z").is_empty(), "a node outside the quorum asks nobody");
}

#[test]
fn a_read_is_confirmed_by_the_voters_themselves() {
    let q = simple(&["a", "b", "c"]);
    let body = |text: &str| read_json(text).unwrap();
    let says = |term: u64, role: &str| heartbeat_answer("http://b".into(), Some(&body(&format!(r#"{{"term":{},"role":"{}"}}"#, term, role))));
    let silent = || heartbeat_answer("http://c".into(), None);
    assert_eq!(heartbeat_answer("http://b".into(), Some(&body(r#"{"role":"replica"}"#))).said, None, "no term is no answer");

    let confirmed = |lease: bool, b: Answer, is_leader: bool| match confirm_read(lease, &q, "http://a", 5, &vec![b, silent()], is_leader, 0) {
        ReadEvent::Confirmed { outcome, .. } => outcome,
        _ => panic!("a confirmation"),
    };
    assert_eq!(confirmed(false, says(5, "replica"), true), Ok(()));
    assert_eq!(confirmed(false, says(5, "replica"), false), Err(ReadRefusal::NotLeader));
    assert_eq!(confirmed(false, says(6, "replica"), true), Err(ReadRefusal::NotLeader));
    assert_eq!(confirmed(false, says(5, "primary"), true), Err(ReadRefusal::Unconfirmed), "two leaders of one term");
    assert_eq!(confirmed(true, silent(), true), Ok(()), "a lease needs no round");
}

#[test]
fn a_handover_goes_to_the_readiest_voter_of_the_configuration() {
    let mut p = Progress::new();
    p.observe_ack("http://b", "users", 9);
    p.observe_ack("http://c", "users", 4);
    p.observe_ack("http://d", "users", 10);
    let ends = vec![("users".to_string(), 10)];
    let q = simple(&["a", "b", "c"]);
    let target = |to: Option<&str>| transfer_target(true, true, false, to.map(|t| t.to_string()), &q, "http://a", Some(&ends), &p);
    assert_eq!(target(None), Ok("http://b".to_string()), "d is ahead, and no voter");
    assert_eq!(target(Some("http://C/")), Ok("http://c".to_string()));
    assert_eq!(target(Some("http://d")), Err(TransferError::Refused(
        "http://d is not a voter that could take over; eligible: [\"http://b\", \"http://c\"]".into())));
    let joint = Configuration::joint(urls(&["a", "b", "c"]), urls(&["a", "c"]));
    assert_eq!(transfer_target(true, true, false, None, &joint, "http://a", Some(&ends), &p), Ok("http://c".to_string()),
        "a voter of one half cannot win");
    assert_eq!(transfer_target(true, true, false, None, &q, "http://a", None, &p), Ok("http://b".to_string()), "nothing to measure by");

    let started = Transfer::start(true, true, false, None, &q, "http://a", Some(&ends), &p, 7).ok().unwrap();
    assert_eq!((started.target.as_str(), started.term, started.phase), ("http://b", 7, TransferPhase::Draining));
    assert_eq!(Transfer::start(true, true, false, None, &simple(&["a"]), "http://a", Some(&ends), &p, 7).err().unwrap().why(),
        "no other voter to hand to; this node is the whole quorum");
    assert!(Transfer::start(true, false, false, None, &q, "http://a", Some(&ends), &p, 7).is_err());
}

#[test]
fn a_node_without_storage_appends_nothing() {
    let refused = |log: LogFound| match append_and_commit(AppendPhase::Start, 4, AppendEvent::Opened { standing: LEADING, log }).1 {
        AppendAction::Fail(e) => e,
        _ => panic!("nothing is appended"),
    };
    assert_eq!(refused(LogFound::NoStorage), ChangeError::Refused("this node has no storage".into()));
    assert_eq!(refused(LogFound::Unusable("torn".into())), ChangeError::Refused("torn".into()));
}
