use dewdb::consensus::failover::contact_lost;

const SEC: u64 = 1_000_000_000;
const NOW: u64 = 900_000 * SEC;

fn ago(ms: u64) -> u64 {
    NOW - ms * 1_000_000
}

#[test]
fn contact_lost_fires_once_the_leader_goes_quiet() {
    let timeout = 3 * SEC;

    assert!(!contact_lost(Some(ago(500)), None, 60 * SEC, timeout, NOW),
        "a fresh heartbeat means the leader is alive");
    assert!(contact_lost(Some(ago(4000)), None, 60 * SEC, timeout, NOW),
        "a stale heartbeat must trigger an election");

    assert!(!contact_lost(None, Some(ago(500)), 60 * SEC, timeout, NOW),
        "recent replication counts as leader contact even with no heartbeat");
    assert!(contact_lost(None, Some(ago(4000)), 60 * SEC, timeout, NOW),
        "stale replication must not hold off an election");
}

#[test]
fn a_dead_leader_silences_heartbeat_and_replication_together() {
    let timeout = 3 * SEC;

    assert!(contact_lost(Some(ago(4000)), Some(ago(4000)), 60 * SEC, timeout, NOW),
        "when a leader dies both signals go stale at once; this must still elect. \
         Requiring replication to be FRESH while the heartbeat is STALE can never hold.");

    assert!(!contact_lost(Some(ago(4000)), Some(ago(100)), 60 * SEC, timeout, NOW),
        "replication still arriving means the leader lives, whatever the heartbeat poll saw");
    assert!(!contact_lost(Some(ago(100)), Some(ago(4000)), 60 * SEC, timeout, NOW),
        "the most recent of the two signals wins");
}

#[test]
fn a_node_that_never_heard_from_anyone_still_elects() {
    let timeout = 3 * SEC;

    assert!(!contact_lost(None, None, 500 * 1_000_000, timeout, NOW),
        "a freshly started node waits out the timeout before standing");
    assert!(contact_lost(None, None, 4 * SEC, timeout, NOW),
        "a node with no contact at all must eventually stand, or a cluster that \
         never replicated could never elect a leader");
}
