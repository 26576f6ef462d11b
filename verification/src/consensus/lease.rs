//! Leader leases: what a voter promises when it polls, and the round it saves the leader.
//!
//! Confirming leadership per read costs a heartbeat round. The round asks whether any voter could
//! have elected someone else; a voter that has heard from a leader recently answers that in advance
//! by refusing to grant a vote, and its poll already carries the answer. A majority of those
//! promises is a window in which no election can complete, which is a lease.
//!
//! Times are nanoseconds: monotonic instants since some fixed origin, wall-clock instants since the
//! epoch, and durations.

use super::config::{Configuration, ConfigurationView};
use crate::endpoint::{names, node, nodes, same_endpoint};
use crate::name_map::NameMap;
use crate::text::texts;
use vstd::prelude::*;

verus! {

pub const NANOS_PER_MILLI: u64 = 1_000_000;

/// Between two polls of the leader, in milliseconds.
pub const HEARTBEAT_POLL_INTERVAL_MS: u64 = 500;

/// The poll interval in nanoseconds.
pub const HEARTBEAT_POLL_INTERVAL: u64 = 500_000_000;

/// How far the wall clock may run ahead of the monotonic one before a promise is retired. Well above
/// clock slew over a window this short, well below any suspend, which is seconds at least.
pub const STALL_TOLERANCE: u64 = 250_000_000;

/// Time from `from` to `to`, or 0 where `to` is earlier.
pub open spec fn since(to: u64, from: u64) -> u64 {
    if from <= to { (to - from) as u64 } else { 0 }
}

/// Half of what the contact timeout has left after one poll interval.
pub open spec fn window_of(heartbeat_timeout: u64) -> u64 {
    (since(heartbeat_timeout, HEARTBEAT_POLL_INTERVAL) / 2) as u64
}

/// A voter withholds its vote while its leader contact is newer than this, and promises the leader
/// whatever is left of the window. Half of what the contact timeout has after one poll interval of
/// skew, so every voter is free to vote well before any of them times out and stands.
pub fn refusal_window(heartbeat_timeout: u64) -> (r: u64)
    ensures
        r == window_of(heartbeat_timeout),
{
    heartbeat_timeout.saturating_sub(HEARTBEAT_POLL_INTERVAL) / 2
}

/// The later of two instants that may be absent.
pub open spec fn latest(a: Option<u64>, b: Option<u64>) -> Option<u64> {
    match (a, b) {
        (Some(x), Some(y)) => Some(if x < y { y } else { x }),
        (Some(x), None) => Some(x),
        (None, y) => y,
    }
}

pub fn newest(a: Option<u64>, b: Option<u64>) -> (r: Option<u64>)
    ensures
        r == latest(a, b),
{
    match (a, b) {
        (Some(x), Some(y)) => Some(if x < y { y } else { x }),
        (Some(x), None) => Some(x),
        (None, y) => y,
    }
}

/// Age of the newest evidence that a leader this node accepts is alive. `None` is a node that has
/// heard from nobody, which promises nothing.
pub fn contact_age(last_heartbeat: Option<u64>, last_replication: Option<u64>, now: u64) -> (r: Option<u64>)
    ensures
        r == (match latest(last_heartbeat, last_replication) {
            Some(t) => Some(since(now, t)),
            None => None,
        }),
{
    match newest(last_heartbeat, last_replication) {
        Some(t) => Some(now.saturating_sub(t)),
        None => None,
    }
}

/// Whether a voter owes silence: it booted, or heard from a leader, less than a window ago.
pub open spec fn owes_silence(contact: Option<u64>, since_boot: u64, heartbeat_timeout: u64) -> bool {
    since_boot < window_of(heartbeat_timeout) || (contact is Some && contact->0 < window_of(heartbeat_timeout))
}

/// The other half of the lease, and sound only because it is kept: everything below rests on a voter
/// with fresh contact not voting, whatever term the candidate offers.
///
/// Boot counts the same as contact. A restart destroys the knowledge of whether this node was
/// vote-eligible a moment ago, while a leader can still be counting the promise the process before
/// it made, so a node that has just come up has to assume it owes that silence.
pub fn withholds_vote(contact: Option<u64>, since_boot: u64, heartbeat_timeout: u64) -> (r: bool)
    ensures
        r == owes_silence(contact, since_boot, heartbeat_timeout),
{
    let window = refusal_window(heartbeat_timeout);
    since_boot < window || match contact {
        Some(age) => age < window,
        None => false,
    }
}

/// What is left of the window at this age, less a quarter of the window.
pub open spec fn promised(age: Option<u64>, heartbeat_timeout: u64) -> u64 {
    match age {
        Some(a) => since(since(window_of(heartbeat_timeout), a), (window_of(heartbeat_timeout) / 4) as u64),
        None => 0,
    }
}

/// What a poller may promise: the rest of its refusal window, less a margin for the request's
/// flight. The leader starts the window when the request lands, which is after the age was read, so
/// the margin is what keeps starting it late conservative rather than short.
pub fn promise(age: Option<u64>, heartbeat_timeout: u64) -> (r: u64)
    ensures
        r == promised(age, heartbeat_timeout),
{
    let window = refusal_window(heartbeat_timeout);
    match age {
        Some(age) => window.saturating_sub(age).saturating_sub(window / 4),
        None => 0,
    }
}

/// A promise is worth no more than our own window: nothing an honest voter with the same contact
/// timeout computes exceeds it, and a misconfigured one must not be able to hand out an unbounded
/// lease. A voter with a longer timeout loses some of its promise, which costs a round, not a read.
pub fn accept_promise(claimed: u64, heartbeat_timeout: u64) -> (r: u64)
    ensures
        r == (if claimed < window_of(heartbeat_timeout) { claimed } else { window_of(heartbeat_timeout) }),
{
    let window = refusal_window(heartbeat_timeout);
    if claimed < window { claimed } else { window }
}

/// One voter's promise: how long it stands, and what both clocks read when it was made.
#[derive(Clone, Copy, Debug, PartialEq, Eq)]
pub struct Promise {
    pub until: u64,
    pub at: u64,
    pub at_wall: u64,
}

impl Promise {
    /// Still running by the monotonic clock, and the wall clock has not run ahead of it.
    pub open spec fn stands(self, now: u64, wall_now: u64) -> bool {
        &&& now < self.until
        &&& since(wall_now, self.at_wall) <= since(now, self.at) + STALL_TOLERANCE
    }

    /// A lease is a claim about real time and a monotonic clock is not: it does not advance while
    /// the host is suspended, so a resumed leader would read a deadline measured in a clock that
    /// stopped. The wall clock keeps time across that, so the two diverging retires the promise,
    /// which costs a round. A wall clock stepped backwards proves nothing here.
    pub fn live(&self, now: u64, wall_now: u64) -> (r: bool)
        ensures
            r == self.stands(now, wall_now),
    {
        if self.until <= now {
            return false;
        }
        let monotonic = now.saturating_sub(self.at);
        let wall = wall_now.saturating_sub(self.at_wall);
        wall.saturating_sub(STALL_TOLERANCE) <= monotonic
    }
}

/// Promises a leader is holding, by voter. Quorum evidence like match state, so it is dropped on
/// every leadership transition rather than reasoned about across one.
pub struct Leases {
    promises: NameMap<Promise>,
}

impl View for Leases {
    type V = Map<Seq<char>, Promise>;

    closed spec fn view(&self) -> Map<Seq<char>, Promise> {
        self.promises@
    }
}

/// This node, and every voter whose promise stands.
pub open spec fn silent_nodes(promises: Map<Seq<char>, Promise>, own: Seq<char>, now: u64, wall_now: u64) -> Set<Seq<char>> {
    Set::new(|n: Seq<char>| n == node(own) || exists|v: Seq<char>| #[trigger] promises.dom().contains(v)
        && promises[v].stands(now, wall_now) && node(v) == n)
}

impl Default for Leases {
    fn default() -> (r: Self)
        ensures
            r@ == Map::<Seq<char>, Promise>::empty(),
    {
        Leases { promises: NameMap::new() }
    }
}

impl Leases {
    pub fn clear(&mut self)
        ensures
            final(self)@ == Map::<Seq<char>, Promise>::empty(),
    {
        self.promises.clear();
    }

    /// `until` extends only: a poll promising less than one still outstanding says the voter's
    /// contact aged, not that it withdrew anything. The clock pair is always the newest poll's:
    /// the request arriving is fresh evidence that both clocks are running.
    pub fn note_promise(&mut self, voter: &str, now: u64, wall_now: u64, promise: u64)
        requires
            now + promise <= u64::MAX,
        ensures
            final(self)@ == old(self)@.insert(voter@, Promise {
                until: if old(self)@.dom().contains(voter@) && old(self)@[voter@].until > now + promise {
                    old(self)@[voter@].until
                } else {
                    (now + promise) as u64
                },
                at: now,
                at_wall: wall_now,
            }),
    {
        let offered: u64 = now + promise;
        let until: u64 = match self.promises.get(voter) {
            Some(held) => if held.until > offered { held.until } else { offered },
            None => offered,
        };
        self.promises.insert(voter.to_owned(), Promise { until, at: now, at_wall: wall_now });
    }

    /// Whether a majority still owes this node silence, and so whether a read needs no round.
    /// Counting itself is sound because granting a vote steps a leader down, which the read path
    /// checks on its own. A promise from a node the configuration has dropped counts for nothing.
    pub fn held(&self, config: &Configuration, own_url: &str, now: u64, wall_now: u64) -> (r: bool)
        ensures
            r == config@.decided(silent_nodes(self@, own_url@, now, wall_now)),
    {
        let mut promised: Vec<String> = Vec::new();
        promised.push(own_url.to_owned());
        let n = self.promises.len();
        let ghost ks = self.promises.keys();
        let mut i: usize = 0;
        assert(texts(promised@)[0] == own_url@);
        while i < n
            invariant
                ks == self.promises.keys(),
                n == ks.len(),
                self.promises.keyed(),
                i <= n,
                promised@.len() >= 1,
                promised@[0]@ == own_url@,
                forall|j: int| 1 <= j < promised@.len() ==> self@.dom().contains(#[trigger] texts(promised@)[j])
                    && self@[texts(promised@)[j]].stands(now, wall_now),
                forall|j: int| 0 <= j < i && self@[ks[j]].stands(now, wall_now) ==> names(texts(promised@), node(#[trigger] ks[j])),
            decreases n - i,
        {
            let voter = self.promises.key_at(i);
            let p = self.promises.value_at(i);
            let ghost before = texts(promised@);
            if p.live(now, wall_now) && !same_endpoint(voter.as_str(), own_url) {
                promised.push(voter.clone());
                proof {
                    assert(texts(promised@) =~= before.push(voter@));
                    assert forall|j: int| 0 <= j < i && self@[ks[j]].stands(now, wall_now) implies names(texts(promised@), node(#[trigger] ks[j])) by {
                        let t = choose|t: int| 0 <= t < before.len() && node(#[trigger] before[t]) == node(ks[j]);
                        assert(texts(promised@)[t] == before[t]);
                    }
                    assert(texts(promised@)[before.len() as int] == voter@);
                    assert(names(texts(promised@), node(ks[i as int])));
                }
            } else {
                proof {
                    if self@[ks[i as int]].stands(now, wall_now) {
                        assert(node(texts(promised@)[0]) == node(ks[i as int]));
                    }
                }
            }
            i += 1;
        }
        proof {
            let want = silent_nodes(self@, own_url@, now, wall_now);
            assert forall|m: Seq<char>| nodes(texts(promised@)).contains(m) <==> want.contains(m) by {
                if names(texts(promised@), m) {
                    let t = choose|t: int| 0 <= t < texts(promised@).len() && node(#[trigger] texts(promised@)[t]) == m;
                    if t == 0 {
                    } else {
                        assert(self@.dom().contains(texts(promised@)[t]));
                    }
                }
                if m == node(own_url@) {
                    assert(node(texts(promised@)[0]) == m);
                }
                if exists|v: Seq<char>| #[trigger] self@.dom().contains(v) && self@[v].stands(now, wall_now) && node(v) == m {
                    let v = choose|v: Seq<char>| #[trigger] self@.dom().contains(v) && self@[v].stands(now, wall_now) && node(v) == m;
                    assert(ks.to_set().contains(v));
                    let j = choose|j: int| 0 <= j < ks.len() && ks[j] == v;
                    assert(names(texts(promised@), node(ks[j])));
                }
            }
            assert(nodes(texts(promised@)) =~= want);
        }
        config.has_quorum(promised.as_slice())
    }
}

/// A voter that promises anything is withholding its vote, and goes on withholding it for as long
/// as it promised.
pub proof fn law_a_promise_is_kept(age: u64, elapsed: u64, since_boot: u64, heartbeat_timeout: u64)
    requires
        elapsed < promised(Some(age), heartbeat_timeout),
        age + elapsed <= u64::MAX,
    ensures
        owes_silence(Some((age + elapsed) as u64), since_boot, heartbeat_timeout),
{
}

/// A promise is always shorter than the window it is taken from, and at least a quarter of that
/// window is kept back wherever anything is promised.
pub proof fn law_a_promise_keeps_a_margin(age: Option<u64>, heartbeat_timeout: u64)
    ensures
        promised(age, heartbeat_timeout) > 0 ==> promised(age, heartbeat_timeout)
            + window_of(heartbeat_timeout) / 4 <= window_of(heartbeat_timeout),
{
}

/// Every voter is free to vote again before any contact timeout expires.
pub proof fn law_silence_ends_before_the_timeout(heartbeat_timeout: u64)
    requires
        heartbeat_timeout > 0,
    ensures
        window_of(heartbeat_timeout) < heartbeat_timeout,
{
}

/// A lease rests on a majority of each half: while it holds, every quorum that could elect someone
/// else includes a node that owes silence.
pub proof fn law_a_lease_blocks_every_election(
    config: ConfigurationView,
    promises: Map<Seq<char>, Promise>,
    own: Seq<char>,
    now: u64,
    wall_now: u64,
    electors: Set<Seq<char>>,
) -> (n: Seq<char>)
    requires
        nodes(config.voters).len() > 0,
        config.decided(silent_nodes(promises, own, now, wall_now)),
        config.decided(electors),
    ensures
        electors.contains(n),
        n == node(own) || exists|v: Seq<char>| #[trigger] promises.dom().contains(v)
            && promises[v].stands(now, wall_now) && node(v) == n,
{
    super::config::law_quorums_meet(config, silent_nodes(promises, own, now, wall_now), electors)
}

/// The latest of two contacts is one of them and not before either.
pub proof fn law_the_latest_contact_counts(a: Option<u64>, b: Option<u64>)
    ensures
        latest(a, b) is None <==> a is None && b is None,
        latest(a, b) == a || latest(a, b) == b,
        a is Some ==> latest(a, b)->0 >= a->0,
        b is Some ==> latest(a, b)->0 >= b->0,
        latest(a, b) == latest(b, a),
{
}

/// A node owes silence after it started and after each contact, for the whole window, and at no other
/// time.
pub proof fn law_when_silence_is_owed(contact: Option<u64>, since_boot: u64, heartbeat_timeout: u64)
    ensures
        since_boot < window_of(heartbeat_timeout) ==> owes_silence(contact, since_boot, heartbeat_timeout),
        contact is Some && contact->0 < window_of(heartbeat_timeout) ==> owes_silence(contact, since_boot, heartbeat_timeout),
        since_boot >= window_of(heartbeat_timeout) && (contact is Some ==> contact->0 >= window_of(heartbeat_timeout)) ==> !owes_silence(
            contact,
            since_boot,
            heartbeat_timeout,
        ),
{
}

/// A promise stands until its time is up, unless the wall clock shows that this node slept meanwhile.
pub proof fn law_a_promise_ends_with_a_stall(p: Promise, now: u64, wall_now: u64)
    requires
        p.at <= now,
        p.at_wall <= wall_now,
    ensures
        p.stands(now, wall_now) <==> now < p.until && wall_now - p.at_wall <= now - p.at + STALL_TOLERANCE,
{
}

/// This node is silent towards itself, and so is everybody whose promise stands; nobody else counts.
pub proof fn law_who_is_silent(promises: Map<Seq<char>, Promise>, own: Seq<char>, now: u64, wall_now: u64, v: Seq<char>)
    ensures
        silent_nodes(promises, own, now, wall_now).contains(node(own)),
        promises.dom().contains(v) && promises[v].stands(now, wall_now) ==> silent_nodes(promises, own, now, wall_now).contains(node(v)),
        silent_nodes(promises, own, now, wall_now).contains(v) && v != node(own) ==> exists|w: Seq<char>|
            #[trigger] promises.dom().contains(w) && promises[w].stands(now, wall_now) && node(w) == v,
{
}

} // verus!
