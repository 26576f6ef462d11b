use dewdb::consensus::config::{majority, Configuration};
use dewdb::consensus::election::{decide_pre_vote, decide_vote, log_summary, LogTail, VoteRequest};
use dewdb::name_map::NameMap;

// No `logs`, so these exercise the scalar fallback.
fn vote_req(term: u64, candidate: &str, last_term: u64, last_lsn: u64) -> VoteRequest {
    VoteRequest {
        term,
        candidate_id: candidate.to_string(),
        last_term,
        last_lsn,
        logs: NameMap::new(),
        candidate_url: None,
        transfer_from: None,
    }
}

fn tails(pairs: &[(&str, u64, u64)]) -> NameMap<LogTail> {
    let mut m = NameMap::new();
    for (n, t, l) in pairs {
        m.insert(n.to_string(), LogTail { last_term: *t, last_lsn: *l });
    }
    m
}

fn per_log_req(term: u64, candidate: &str, pairs: &[(&str, u64, u64)]) -> VoteRequest {
    let logs = tails(pairs);
    let summary = log_summary(&logs, None);
    VoteRequest {
        term,
        candidate_id: candidate.to_string(),
        last_term: summary.last_term,
        last_lsn: pairs.iter().map(|(_, _, l)| *l).max().unwrap_or(0),
        logs,
        candidate_url: None,
        transfer_from: None,
    }
}

fn scalar(last_term: u64, last_lsn: u64) -> LogTail {
    LogTail { last_term, last_lsn }
}

#[test]
fn majority_math() {
    assert_eq!(majority(1), 1);
    assert_eq!(majority(2), 2);
    assert_eq!(majority(3), 2);
    assert_eq!(majority(4), 3);
    assert_eq!(majority(5), 3);
}

#[test]
fn vote_granted_for_fresh_higher_term_when_up_to_date() {
    let d = decide_vote(2, &None, &NameMap::new(), scalar(2, 100), None, &vote_req(3, "n1", 2, 100), false);
    assert!(d.granted);
    assert_eq!(d.term, 3);
    assert_eq!(d.voted_for.as_deref(), Some("n1"));
}

#[test]
fn vote_denied_for_stale_candidate_term() {
    let d = decide_vote(5, &None, &NameMap::new(), scalar(5, 100), None, &vote_req(4, "n1", 5, 100), false);
    assert!(!d.granted);
    assert_eq!(d.term, 5);
    assert_eq!(d.voted_for, None);
}

#[test]
fn vote_at_most_once_per_term() {
    let d1 = decide_vote(3, &None, &NameMap::new(), scalar(1, 50), None, &vote_req(3, "n1", 1, 50), false);
    assert!(d1.granted);
    assert_eq!(d1.voted_for.as_deref(), Some("n1"));

    let d2 = decide_vote(3, &d1.voted_for, &NameMap::new(), scalar(1, 50), None, &vote_req(3, "n2", 1, 50), false);
    assert!(!d2.granted, "must not vote for a second candidate in the same term");
    assert_eq!(d2.voted_for.as_deref(), Some("n1"));

    let d3 = decide_vote(3, &d1.voted_for, &NameMap::new(), scalar(1, 50), None, &vote_req(3, "n1", 1, 50), false);
    assert!(d3.granted, "re-voting for the same candidate is idempotent");
}

#[test]
fn vote_denied_when_candidate_log_behind() {
    let behind_lsn = decide_vote(3, &None, &NameMap::new(), scalar(2, 100), None, &vote_req(4, "n1", 2, 99), false);
    assert!(!behind_lsn.granted, "candidate with lower lsn at same log term must lose");

    let behind_term = decide_vote(3, &None, &NameMap::new(), scalar(2, 100), None, &vote_req(4, "n1", 1, 500), false);
    assert!(!behind_term.granted, "candidate with lower last log term must lose even with higher lsn");

    let ahead = decide_vote(3, &None, &NameMap::new(), scalar(2, 100), None, &vote_req(4, "n1", 3, 1), false);
    assert!(ahead.granted, "higher last log term wins regardless of lsn");
}

#[test]
fn higher_term_vote_resets_prior_vote() {
    let prior = Some("n2".to_string());
    let d = decide_vote(3, &prior, &NameMap::new(), scalar(1, 50), None, &vote_req(4, "n1", 1, 50), false);
    assert!(d.granted, "a higher term clears the old vote, so n1 can win");
    assert_eq!(d.term, 4);
    assert_eq!(d.voted_for.as_deref(), Some("n1"));
}

#[test]
fn a_candidate_behind_on_one_collection_is_refused() {
    let mine = tails(&[("users", 4, 10), ("orders", 4, 3)]);
    let summary = scalar(4, 10);

    // Same global max LSN and same term, but the two logs are swapped.
    let swapped = per_log_req(5, "n1", &[("users", 4, 3), ("orders", 4, 10)]);
    assert_eq!(swapped.last_lsn, 10, "the global summary cannot tell these two apart");

    let d = decide_vote(4, &None, &mine, summary, None, &swapped, false);
    assert!(!d.granted,
        "the candidate is missing users 4..10; electing it would drop entries a quorum may hold");
    assert_eq!(d.term, 5, "the term still advances even though the vote is refused");
}

#[test]
fn a_higher_term_on_one_collection_does_not_excuse_a_stale_other() {
    let mine = tails(&[("users", 4, 10), ("orders", 4, 11)]);

    let d = decide_vote(4, &None, &mine, scalar(4, 11), None,
        &per_log_req(5, "n1", &[("users", 4, 5), ("orders", 5, 12)]), false);
    assert!(!d.granted,
        "a newer term on orders says nothing about users, where this candidate is behind");
}

#[test]
fn a_candidate_current_on_every_collection_wins() {
    let mine = tails(&[("users", 4, 10), ("orders", 4, 11)]);

    let equal = decide_vote(4, &None, &mine, scalar(4, 11), None,
        &per_log_req(5, "n1", &[("users", 4, 10), ("orders", 4, 11)]), false);
    assert!(equal.granted, "matching every log is up to date");

    let ahead = decide_vote(4, &None, &mine, scalar(4, 11), None,
        &per_log_req(5, "n2", &[("users", 5, 20), ("orders", 4, 11)]), false);
    assert!(ahead.granted, "ahead on one log and level on the rest is up to date");
}

#[test]
fn a_collection_the_candidate_has_never_seen_makes_it_stale() {
    let mine = tails(&[("users", 4, 10), ("orders", 4, 3)]);

    let d = decide_vote(4, &None, &mine, scalar(4, 10), None,
        &per_log_req(5, "n1", &[("users", 4, 10)]), false);
    assert!(!d.granted, "a log absent from the candidate is one it holds nothing of");

    let empty_too = tails(&[("users", 4, 10), ("orders", 0, 0)]);
    let d = decide_vote(4, &None, &empty_too, scalar(4, 10), None,
        &per_log_req(5, "n2", &[("users", 4, 10)]), false);
    assert!(d.granted, "but an empty collection dir costs the candidate nothing");
}

#[test]
fn collections_the_candidate_alone_holds_do_not_block_it() {
    let mine = tails(&[("users", 4, 10)]);

    let d = decide_vote(4, &None, &mine, scalar(4, 10), None,
        &per_log_req(5, "n1", &[("users", 4, 10), ("audit", 4, 99)]), false);
    assert!(d.granted, "only logs this voter holds can be lost, so extras are irrelevant");
}

#[test]
fn a_voter_holding_no_log_grants_freely() {
    let d = decide_vote(0, &None, &NameMap::new(), LogTail::default(), None,
        &per_log_req(1, "n1", &[("users", 3, 40)]), false);
    assert!(d.granted, "a node with nothing to lose has no grounds to refuse");
}

#[test]
fn a_peer_that_sends_no_summaries_falls_back_to_the_scalar_compare() {
    let mine = tails(&[("users", 4, 10), ("orders", 4, 3)]);

    let current = decide_vote(4, &None, &mine, scalar(4, 10), None, &vote_req(5, "n1", 4, 10), false);
    assert!(current.granted, "a pre-`logs` peer is still judged on the summary it does send");

    let behind = decide_vote(4, &None, &mine, scalar(4, 10), None, &vote_req(5, "n2", 4, 9), false);
    assert!(!behind.granted);

    let nothing = decide_vote(4, &None, &mine, scalar(4, 10), None, &vote_req(5, "n3", 0, 0), false);
    assert!(!nothing.granted, "an empty log must lose to a voter that holds entries");
}

#[test]
fn a_candidate_the_voters_configuration_does_not_name_is_refused() {
    let config = Configuration::simple(vec!["http://a".into(), "http://b".into()]);
    let mut req = vote_req(5, "n3", 4, 10);

    req.candidate_url = Some("http://c".to_string());
    let d = decide_vote(4, &None, &NameMap::new(), LogTail::default(), Some(&config), &req, false);
    assert!(!d.granted,
        "a demoted node that has not heard about its demotion goes on campaigning, and this \
         vote would hand it a leadership over a set the cluster has left");
    assert_eq!(d.term, 5, "the term still advances; only the grant is withheld");

    req.candidate_url = Some("http://b".to_string());
    assert!(decide_vote(4, &None, &NameMap::new(), LogTail::default(), Some(&config), &req, false).granted);

    // Both directions of not knowing: no url from the peer, or no configuration here.
    req.candidate_url = None;
    assert!(decide_vote(4, &None, &NameMap::new(), LogTail::default(), Some(&config), &req, false).granted,
        "a peer that predates configuration entries must still be able to win an election");
    req.candidate_url = Some("http://c".to_string());
    assert!(decide_vote(4, &None, &NameMap::new(), LogTail::default(), None, &req, false).granted,
        "and a voter holding no configuration has nothing to judge the candidate against");
}

/// The promise a leader's lease is built on: withholding survives a higher term, a longer log,
/// and an unspent vote, or the leases handed out on it are not leases.
#[test]
fn a_voter_with_fresh_leader_contact_withholds_its_vote_but_still_takes_the_term() {
    let req = vote_req(9, "n1", 4, 500);
    let mine: NameMap<LogTail> = NameMap::new();

    let withheld = decide_vote(4, &None, &mine, scalar(4, 10), None, &req, true);
    assert!(!withheld.granted,
        "a read is being answered on this node's promise not to vote for the next candidate");
    assert_eq!(withheld.term, 9, "refusing is not following: the term still advances");
    assert_eq!(withheld.voted_for, None, "and the term it advances to has its vote unspent");

    assert!(decide_vote(4, &None, &mine, scalar(4, 10), None, &req, false).granted,
        "the same request wins once the leader has gone quiet, which is the whole liveness story");
}

#[test]
fn a_pre_vote_answers_the_same_question_the_real_vote_would() {
    let mine: NameMap<LogTail> = NameMap::new();

    assert!(decide_pre_vote(4, &mine, scalar(4, 100), None, &vote_req(5, "n1", 4, 100), false));
    assert!(!decide_pre_vote(4, &mine, scalar(4, 100), None, &vote_req(5, "n1", 4, 99), false),
        "a candidate that would lose the real vote on its log is not worth encouraging to stand");

    let config = Configuration::simple(vec!["http://a".into(), "http://b".into()]);
    let mut stranger = vote_req(5, "n3", 4, 100);
    stranger.candidate_url = Some("http://c".to_string());
    assert!(!decide_pre_vote(4, &mine, scalar(4, 100), Some(&config), &stranger, false),
        "nor one this voter's configuration does not name");
}

#[test]
fn a_pre_vote_at_or_below_our_own_term_is_refused() {
    let mine: NameMap<LogTail> = NameMap::new();

    assert!(!decide_pre_vote(5, &mine, scalar(4, 100), None, &vote_req(5, "n1", 4, 100), false),
        "our own term may already hold this node's vote, so there is nothing to pre-approve");
    assert!(!decide_pre_vote(5, &mine, scalar(4, 100), None, &vote_req(4, "n1", 4, 100), false));
    assert!(decide_pre_vote(5, &mine, scalar(4, 100), None, &vote_req(6, "n1", 4, 100), false),
        "and a term above ours is the one a candidate would actually stand at");
}

/// The refusal a leader's lease rests on happens before any term moves, so a candidate that cannot
/// win does not cost the group an election every cycle.
#[test]
fn a_voter_that_owes_a_leader_silence_refuses_the_pre_vote() {
    let mine: NameMap<LogTail> = NameMap::new();
    let req = vote_req(9, "n1", 9, 500);

    assert!(decide_pre_vote(4, &mine, scalar(4, 10), None, &req, false),
        "a fresher candidate takes this outright once the leader has gone quiet");
    assert!(!decide_pre_vote(4, &mine, scalar(4, 10), None, &req, true));
}

#[test]
fn log_tails_order_by_term_before_lsn() {
    assert!(LogTail { last_term: 5, last_lsn: 1 } > LogTail { last_term: 4, last_lsn: 900 },
        "field order in LogTail is the comparison order; reordering it silently inverts this");
}


#[test]
fn a_summary_is_the_freshest_tail_and_an_empty_node_has_an_empty_one() {
    assert_eq!(log_summary(&NameMap::new(), None), LogTail::default());
    assert_eq!(
        log_summary(&tails(&[("users", 4, 900), ("orders", 7, 2), ("audit", 7, 1)]), None),
        LogTail { last_term: 7, last_lsn: 2 }
    );
}
