use dewdb::consensus::config::Configuration;
use dewdb::consensus::lease::{accept_promise, contact_age, promise, refusal_window, withholds_vote, Leases};

const OWN: &str = "http://own";
const TIMEOUT: u64 = 10 * SEC;
const SEC: u64 = 1_000_000_000;
const MS: u64 = 1_000_000;
const NOW: u64 = 500_000 * SEC;
const WALL: u64 = 1_700_000_000 * SEC;

fn config(others: &[&str]) -> Configuration {
    let mut voters = vec![OWN.to_string()];
    voters.extend(others.iter().map(|s| s.to_string()));
    Configuration::simple(voters)
}

/// Up long enough to be out of every window under test.
fn booted() -> u64 {
    TIMEOUT * 10
}

#[test]
fn a_promise_is_what_is_left_of_the_window_and_never_all_of_it() {
    let window = refusal_window(TIMEOUT);
    assert!(window < TIMEOUT, "a voter must be free to vote before it stands for election");

    let fresh = promise(Some(0), TIMEOUT);
    assert!(fresh > 0 && fresh < window,
        "the margin covers the flight the leader cannot measure, so it is never the whole window");
    assert!(promise(Some(window), TIMEOUT) == 0, "a voter at the edge owes nothing");
    assert!(promise(None, TIMEOUT) == 0);
}

#[test]
fn anything_a_voter_promises_it_is_still_withholding_a_vote_over() {
    for ms in [0, 100, 1000, 4000, 4500, 20_000] {
        let age = Some(ms * MS);
        assert!(promise(age, TIMEOUT) == 0 || withholds_vote(age, booted(), TIMEOUT),
            "a promise the voter would not honour at age {}ms is a stale read", ms);
    }
}

#[test]
fn a_promise_longer_than_our_own_window_is_taken_as_our_own_window() {
    let window = refusal_window(TIMEOUT);
    assert_eq!(accept_promise(3600 * SEC, TIMEOUT), window,
        "a voter with a broken timeout must not be able to hand out an unbounded lease");
    assert_eq!(accept_promise(window / 2, TIMEOUT), window / 2);
}

/// The restart hole: a leader can still be counting a promise the process before this one made,
/// and nothing on disk says whether it did.
#[test]
fn a_node_that_has_just_booted_withholds_even_though_it_has_heard_from_nobody() {
    let window = refusal_window(TIMEOUT);
    assert!(withholds_vote(None, 0, TIMEOUT),
        "the promise a restart forgot is one a leader is entitled to still be holding");
    assert!(withholds_vote(None, window - 1 * MS, TIMEOUT));
    assert!(!withholds_vote(None, window, TIMEOUT), "and it is a window, not a state");
    assert!(window < TIMEOUT,
        "a candidate only asks after the whole contact timeout, so a cold start waits on nothing");
}

#[test]
fn contact_is_the_newer_of_the_two_signals() {
    let old = NOW - 5 * SEC;
    let recent = NOW;
    assert!(contact_age(Some(old), Some(recent), NOW).unwrap() < 1 * SEC);
    assert!(contact_age(Some(recent), Some(old), NOW).unwrap() < 1 * SEC);
    assert!(contact_age(None, None, NOW).is_none());
}

#[test]
fn a_majority_of_promises_is_a_lease_and_a_minority_is_not() {
    let (now, wall) = (NOW, WALL);
    let mut leases = Leases::default();
    let config = config(&["http://a", "http://b", "http://c", "http://d"]);

    assert!(!leases.held(&config, OWN, now, wall), "one of five is not a majority");
    leases.note_promise("http://a", now, wall, 3 * SEC);
    assert!(!leases.held(&config, OWN, now, wall));
    leases.note_promise("http://b", now, wall, 3 * SEC);
    assert!(leases.held(&config, OWN, now, wall), "three of five, one of them itself");

    let later = 4 * SEC;
    assert!(!leases.held(&config, OWN, now + later, wall + later),
        "an expired promise is not a promise");
    leases.clear();
    assert!(!leases.held(&config, OWN, now, wall));
}

#[test]
fn a_promise_from_a_node_the_configuration_dropped_counts_for_nothing() {
    let (now, wall) = (NOW, WALL);
    let mut leases = Leases::default();
    leases.note_promise("http://gone", now, wall, 30 * SEC);
    leases.note_promise("http://a", now, wall, 30 * SEC);

    // Three of four, if the dropped node counted. Two of four otherwise.
    assert!(!leases.held(&config(&["http://a", "http://b", "http://c"]), OWN, now, wall),
        "a removed member cannot go on voting, so it cannot go on promising not to either");
}

#[test]
fn a_lease_over_one_half_of_a_joint_configuration_is_not_a_lease() {
    let (now, wall) = (NOW, WALL);
    let mut leases = Leases::default();
    let joint = Configuration::joint(
        vec![OWN.to_string(), "http://a".into(), "http://b".into()],
        vec![OWN.to_string(), "http://c".into(), "http://d".into()],
    );

    leases.note_promise("http://c", now, wall, 30 * SEC);
    assert!(!leases.held(&joint, OWN, now, wall),
        "the outgoing half can still elect a leader, so it still has to promise not to");
    leases.note_promise("http://a", now, wall, 30 * SEC);
    assert!(leases.held(&joint, OWN, now, wall));
}

#[test]
fn a_later_poll_promising_less_does_not_shorten_the_lease() {
    let (now, wall) = (NOW, WALL);
    let mut leases = Leases::default();
    let config = config(&["http://a", "http://b"]);

    leases.note_promise("http://a", now, wall, 4 * SEC);
    leases.note_promise("http://a", now, wall, 1 * SEC);
    let later = 3 * SEC;
    assert!(leases.held(&config, OWN, now + later, wall + later));
}

/// A suspended host, from the leader's side: the wall clock kept time across it and `Instant`
/// did not, so `until` is a deadline in a clock that stopped.
#[test]
fn a_promise_whose_monotonic_clock_stalled_is_retired_rather_than_trusted() {
    let (now, wall) = (NOW, WALL);
    let mut leases = Leases::default();
    let config = config(&["http://a", "http://b"]);

    leases.note_promise("http://a", now, wall - 3600 * SEC,
        30 * SEC);
    assert!(!leases.held(&config, OWN, now, wall),
        "an hour of wall time against no monotonic time is a stall, and the lease goes with it");

    leases.note_promise("http://a", now, wall, 30 * SEC);
    assert!(leases.held(&config, OWN, now, wall), "and the same promise stands on a live clock");
}

#[test]
fn a_wall_clock_stepped_backwards_does_not_retire_a_promise() {
    let (now, wall) = (NOW, WALL);
    let mut leases = Leases::default();
    let config = config(&["http://a", "http://b"]);

    leases.note_promise("http://a", now, wall + 600 * SEC,
        30 * SEC);
    assert!(leases.held(&config, OWN, now, wall),
        "a backwards step says nothing about the monotonic clock, which is what times the lease");
}
