//! Which keys move between groups, where they go, and in what batches.

use super::metadata::MigrationPhase;
use super::migration::{MigrateBatch, MigrateDoc, MigrateDocView, MigrateReset, MigrationRuns};
use super::ownership::{entry_for, entry_of};
use super::router::is_success;
use crate::consensus::config::{is_system_collection, system_name, Configuration};
use crate::consensus::reconfigure::LogFound;
use crate::endpoint::{list_names, names, node, nodes, same_endpoint, same_node};
use crate::json::JsonView;
use crate::key_set::KeySet;
use crate::lists::{lemma_joined_hold, lemma_take_all, lemma_take_grows};
use crate::name_map::NameMap;
use crate::ring::{
    built_from, complaint, first_at_or_above, groups, hash_key, in_token_order, is_first, key_hash, same_ring,
    BuiltRing, BuiltRingView, HashRing, HashRingView,
};
use crate::text::{cat2, cat3, cat4, same_text, texts};
use crate::wire::{held, written, written_text};
use vstd::prelude::*;
use vstd::utf8::encode_utf8;

verus! {

/// The primary of the group of a ring that a node belongs to.
pub fn source_group(ring: &HashRing, own: &str) -> (r: Option<String>)
    ensures
        match r {
            Some(u) => ({
                let e = entry_of(ring@.shards, node(own@));
                e is Some && u@ == e->0.node_url
            }),
            None => entry_of(ring@.shards, node(own@)) is None,
        },
{
    match entry_for(&ring.shards, own) {
        Some(e) => Some(e.node_url.clone()),
        None => None,
    }
}

// ---- Outgoing keys ----

/// Where a hash goes, if it leaves the group of `mine`: that group owns it now, and another will.
pub open spec fn leaves_for(now: BuiltRingView, next: BuiltRingView, mine: Seq<char>, h: u64) -> Option<Seq<char>> {
    let owner = match now.owner(h) {
        Some(o) => o.node_url,
        None => Seq::empty(),
    };
    if same_node(owner, mine) && next.owner(h) is Some && !same_node(next.owner(h)->0.node_url, mine) {
        Some(next.owner(h)->0.node_url)
    } else {
        None
    }
}

/// A collection with a key.
pub type KeyView = (Seq<char>, Seq<char>);

/// The contents of a list of keys.
pub open spec fn key_list(v: Seq<(String, String)>) -> Seq<KeyView> {
    Seq::new(v.len(), |i: int| (v[i].0@, v[i].1@))
}

/// The keys of a list that go to `to`, in order.
pub open spec fn bound_for(now: BuiltRingView, next: BuiltRingView, mine: Seq<char>, keys: Seq<KeyView>, to: Seq<char>) -> Seq<KeyView>
    decreases keys.len(),
{
    if keys.len() == 0 {
        Seq::empty()
    } else {
        let before = bound_for(now, next, mine, keys.drop_last(), to);
        let k = keys.last();
        if leaves_for(now, next, mine, key_hash(k.0, k.1)) == Some(to) { before.push(k) } else { before }
    }
}

/// Keys by where they go.
pub type Outgoing = NameMap<Vec<(String, String)>>;

/// What is to go to a destination.
pub open spec fn cargo(m: Outgoing, to: Seq<char>) -> Seq<KeyView> {
    if m@.dom().contains(to) { key_list(m@[to]@) } else { Seq::empty() }
}

fn route(now: &BuiltRing, next: &BuiltRing, mine: &str, h: u64) -> (r: Option<String>)
    ensures
        (match r {
            Some(u) => Some(u@),
            None => None,
        }) == leaves_for(now@, next@, mine@, h),
{
    let empty: String = String::new();
    let owned = match now.owner(h) {
        Some(o) => same_endpoint(o.node_url.as_str(), mine),
        None => {
            assert(empty@ =~= Seq::<char>::empty());
            same_endpoint(empty.as_str(), mine)
        },
    };
    if !owned {
        return None;
    }
    match next.owner(h) {
        Some(o) => if same_endpoint(o.node_url.as_str(), mine) { None } else { Some(o.node_url.clone()) },
        None => None,
    }
}

fn outgoing(now: &BuiltRing, next: &BuiltRing, mine: &str, scan: &Vec<(String, String)>) -> (r: Outgoing)
    ensures
        forall|to: Seq<char>| #[trigger] cargo(r, to) == bound_for(now@, next@, mine@, key_list(scan@), to),
        forall|to: Seq<char>| #[trigger] r@.dom().contains(to) ==> cargo(r, to).len() > 0,
{
    let ghost keys = key_list(scan@);
    let mut out: Outgoing = NameMap::new();
    let mut i: usize = 0;
    proof {
        assert(keys.take(0) =~= Seq::empty());
        assert forall|to: Seq<char>| #[trigger] cargo(out, to) == bound_for(now@, next@, mine@, keys.take(0), to) by {
            assert(cargo(out, to) =~= Seq::empty());
        }
    }
    while i < scan.len()
        invariant
            keys == key_list(scan@),
            i <= scan@.len(),
            forall|to: Seq<char>| #[trigger] cargo(out, to) == bound_for(now@, next@, mine@, keys.take(i as int), to),
            forall|to: Seq<char>| #[trigger] out@.dom().contains(to) ==> cargo(out, to).len() > 0,
        decreases scan@.len() - i,
    {
        proof {
            lemma_take_grows(keys, i as int);
            assert(keys[i as int] == (scan@[i as int].0@, scan@[i as int].1@));
        }
        let h = hash_key(scan[i].0.as_str(), scan[i].1.as_str());
        let ghost before = out;
        match route(now, next, mine, h) {
            Some(to) => {
                let mut list = match out.remove(to.as_str()) {
                    Some(list) => list,
                    None => Vec::new(),
                };
                let ghost was = key_list(list@);
                assert(was =~= cargo(before, to@));
                list.push((scan[i].0.clone(), scan[i].1.clone()));
                assert(key_list(list@) =~= was.push(keys[i as int]));
                let ghost name = to@;
                out.insert(to, list);
                proof {
                    assert forall|q: Seq<char>| #[trigger] cargo(out, q) == bound_for(now@, next@, mine@, keys.take(i + 1), q) by {
                        assert(cargo(before, q) == bound_for(now@, next@, mine@, keys.take(i as int), q));
                        if q != name {
                            assert(cargo(out, q) =~= cargo(before, q));
                        }
                    }
                    assert forall|q: Seq<char>| #[trigger] out@.dom().contains(q) implies cargo(out, q).len() > 0 by {
                        if q != name {
                            assert(before@.dom().contains(q));
                            assert(cargo(out, q) =~= cargo(before, q));
                        }
                    }
                }
            },
            None => {
                proof {
                    assert forall|q: Seq<char>| #[trigger] cargo(out, q) == bound_for(now@, next@, mine@, keys.take(i + 1), q) by {
                        assert(cargo(before, q) == bound_for(now@, next@, mine@, keys.take(i as int), q));
                    }
                }
            },
        }
        i += 1;
    }
    proof {
        lemma_take_all(keys);
    }
    out
}

/// What a look through this node's collections brought.
#[derive(Debug, PartialEq, Eq)]
pub enum KeyScan {
    /// This node keeps none.
    NoDatabase,
    /// They could not be listed or opened, for this reason.
    Failed(String),
    /// Every key in them, with its collection.
    Keys(Vec<(String, String)>),
}

/// What planning gives: the refusal where there is no database or no ring, this node is in none of the
/// ring's groups, or its keys could not be read; otherwise the keys by where they go.
pub open spec fn plan_ok(
    ring: Option<HashRingView>,
    target: HashRingView,
    own: Seq<char>,
    scan: KeyScan,
    r: Result<Outgoing, String>,
) -> bool {
    if scan is NoDatabase {
        r is Err && r->Err_0@ == "no database"@
    } else if ring is None {
        r is Err && r->Err_0@ == "no ring to move away from"@
    } else if entry_of(ring->0.shards, node(own)) is None {
        r is Err && r->Err_0@ == "this node is not in the ring"@
    } else {
        match scan {
            KeyScan::Keys(keys) => r is Ok && planned(ring->0, target, entry_of(ring->0.shards, node(own))->0.node_url, key_list(keys@), r->Ok_0),
            KeyScan::Failed(e) => r is Err && r->Err_0@ == e@,
            KeyScan::NoDatabase => true,
        }
    }
}

/// Whether `out` has the keys that leave the group at `mine`, each by where it goes.
pub open spec fn planned(ring: HashRingView, target: HashRingView, mine: Seq<char>, scan: Seq<KeyView>, out: Outgoing) -> bool {
    &&& exists|now: BuiltRingView, next: BuiltRingView| #[trigger] built_from(ring, now) && #[trigger] built_from(target, next) && (forall|
        to: Seq<char>,
    | cargo(out, to) == bound_for(now, next, mine, scan, to))
    &&& forall|to: Seq<char>| #[trigger] out@.dom().contains(to) ==> cargo(out, to).len() > 0
}

/// Which of our keys go where. Grouped by destination so one connection carries many keys.
pub fn plan_outgoing(ring: &Option<HashRing>, target: &HashRing, own: &str, scan: &KeyScan) -> (r: Result<Outgoing, String>)
    ensures
        plan_ok(super::metadata::opt_ring(*ring), target@, own@, *scan, r),
{
    if let KeyScan::NoDatabase = scan {
        return Err("no database".to_owned());
    }
    let ring = match ring {
        Some(r) => r,
        None => {
            return Err("no ring to move away from".to_owned());
        },
    };
    let mine = match source_group(ring, own) {
        Some(m) => m,
        None => {
            return Err("this node is not in the ring".to_owned());
        },
    };
    let keys = match scan {
        KeyScan::Keys(keys) => keys,
        KeyScan::Failed(e) => {
            return Err(e.clone());
        },
        KeyScan::NoDatabase => {
            return Err("no database".to_owned());
        },
    };
    let now = ring.build();
    let next = target.build();
    let out = outgoing(&now, &next, mine.as_str(), keys);
    assert(built_from(ring@, now@) && built_from(target@, next@));
    Ok(out)
}

/// How many keys there are to move.
pub fn count_outgoing(m: &Outgoing) -> (r: usize)
    ensures
        r as int == (if total_of(m.keys(), *m, m.keys().len() as int) <= usize::MAX {
            total_of(m.keys(), *m, m.keys().len() as int)
        } else {
            usize::MAX as int
        }),
{
    let n = m.len();
    let ghost ks = m.keys();
    let mut sum: usize = 0;
    let mut i: usize = 0;
    while i < n
        invariant
            ks == m.keys(),
            n == ks.len(),
            i <= n,
            0 <= total_of(ks, *m, i as int),
            sum as int == (if total_of(ks, *m, i as int) <= usize::MAX { total_of(ks, *m, i as int) } else { usize::MAX as int }),
        decreases n - i,
    {
        let list = m.value_at(i);
        assert(key_list(list@).len() == list@.len());
        sum = sum.saturating_add(list.len());
        i += 1;
    }
    sum
}

/// The keys that go to the first `n` of some destinations, counted.
pub open spec fn total_of(ks: Seq<Seq<char>>, m: Outgoing, n: int) -> int
    decreases n,
{
    if n <= 0 { 0 } else { total_of(ks, m, n - 1) + cargo(m, ks[n - 1]).len() }
}

// ---- Destinations ----

/// Some hash leaves the group of `mine` for the group of `to`.
pub open spec fn receives(now: BuiltRingView, next: BuiltRingView, mine: Seq<char>, to: Seq<char>) -> bool {
    exists|h: u64| #[trigger] leaves_for(now, next, mine, h) == Some(to)
}

/// A hash and the first token at or above it, of any set of tokens that includes a ring's own, have one
/// owner on that ring. With no token above, the lowest of them all stands for it.
proof fn lemma_same_owner(b: BuiltRingView, all: Seq<u64>, h: u64, t: u64)
    requires
        in_token_order(b.tokens),
        forall|i: int| 0 <= i < b.tokens.len() ==> all.contains((#[trigger] b.tokens[i]).0),
        all.contains(t),
        (h <= t && forall|i: int| 0 <= i < all.len() && (#[trigger] all[i]) >= h ==> t <= all[i]) || (forall|i: int| 0 <= i < all.len()
            ==> (#[trigger] all[i]) < h && t <= all[i]),
    ensures
        b.owner(h) == b.owner(t),
{
    let ts = b.tokens;
    if ts.len() > 0 {
        if exists|i: int| is_first(ts, h, i) {
            let i = choose|i: int| is_first(ts, h, i);
            assert(all.contains(ts[i].0));
            let k = choose|k: int| 0 <= k < all.len() && all[k] == ts[i].0;
            assert(all[k] >= h);
            assert(is_first(ts, t, i)) by {
                assert(t <= ts[i].0);
                assert forall|j: int| 0 <= j < i implies (#[trigger] ts[j]).0 < t by {
                    assert(ts[j].0 < h);
                }
            }
            lemma_first_unique(ts, h, i);
            lemma_first_unique(ts, t, i);
        } else if h <= t && forall|i: int| 0 <= i < all.len() && (#[trigger] all[i]) >= h ==> t <= all[i] {
            assert forall|i: int| !is_first(ts, t, i) by {
                if is_first(ts, t, i) {
                    lemma_first_exists(ts, h, i);
                }
            }
        } else {
            assert(all.contains(ts[0].0));
            let k = choose|k: int| 0 <= k < all.len() && all[k] == ts[0].0;
            assert(t <= all[k]);
            assert(is_first(ts, t, 0));
            lemma_first_unique(ts, t, 0);
        }
    }
}

proof fn lemma_first_unique(ts: Seq<(u64, int)>, h: u64, i: int)
    requires
        is_first(ts, h, i),
    ensures
        first_at_or_above(ts, h) == i,
{
    let c = first_at_or_above(ts, h);
    assert(is_first(ts, h, c));
    if c < i {
        assert(ts[c].0 < h);
    } else if i < c {
        assert(ts[i].0 < h);
    }
}

/// Where some token is at or above `h`, there is a first one.
proof fn lemma_first_exists(ts: Seq<(u64, int)>, h: u64, k: int)
    requires
        0 <= k < ts.len(),
        ts[k].0 >= h,
    ensures
        exists|i: int| is_first(ts, h, i),
    decreases k,
{
    if forall|j: int| 0 <= j < k ==> (#[trigger] ts[j]).0 < h {
        assert(is_first(ts, h, k));
    } else {
        let j = choose|j: int| 0 <= j < k && !((#[trigger] ts[j]).0 < h);
        lemma_first_exists(ts, h, j);
    }
}

/// The first token at or above `h`, or the lowest of all.
proof fn lemma_representative(all: Seq<u64>, h: u64) -> (t: u64)
    requires
        all.len() > 0,
    ensures
        all.contains(t),
        (h <= t && forall|i: int| 0 <= i < all.len() && (#[trigger] all[i]) >= h ==> t <= all[i]) || (forall|i: int| 0 <= i < all.len()
            ==> (#[trigger] all[i]) < h && t <= all[i]),
    decreases all.len(),
{
    if all.len() == 1 {
        assert(all.contains(all[0]));
        all[0]
    } else {
        let rest = all.drop_last();
        let t = lemma_representative(rest, h);
        let x = all.last();
        let k = choose|k: int| 0 <= k < rest.len() && rest[k] == t;
        assert(all[k] == t);
        assert(all[all.len() - 1] == x);
        let above = h <= t && forall|i: int| 0 <= i < rest.len() && (#[trigger] rest[i]) >= h ==> t <= rest[i];
        let r = if above {
            if h <= x && x < t { x } else { t }
        } else if x >= h {
            x
        } else if x < t {
            x
        } else {
            t
        };
        if above {
            assert forall|i: int| 0 <= i < all.len() && (#[trigger] all[i]) >= h implies r <= all[i] by {
                if i < rest.len() {
                    assert(rest[i] == all[i]);
                }
            }
        } else if x >= h {
            assert forall|i: int| 0 <= i < all.len() && (#[trigger] all[i]) >= h implies r <= all[i] by {
                if i < rest.len() {
                    assert(rest[i] == all[i]);
                }
            }
        } else {
            assert forall|i: int| 0 <= i < all.len() implies (#[trigger] all[i]) < h && r <= all[i] by {
                if i < rest.len() {
                    assert(rest[i] == all[i]);
                }
            }
        }
        r
    }
}

fn all_tokens(a: &BuiltRing, b: &BuiltRing) -> (r: Vec<u64>)
    ensures
        forall|i: int| 0 <= i < a@.tokens.len() ==> r@.contains((#[trigger] a@.tokens[i]).0),
        forall|i: int| 0 <= i < b@.tokens.len() ==> r@.contains((#[trigger] b@.tokens[i]).0),
        in_token_order(a@.tokens),
        in_token_order(b@.tokens),
{
    let mut out = a.token_hashes();
    let mut more = b.token_hashes();
    let ghost x = out@;
    let ghost y = more@;
    out.append(&mut more);
    proof {
        assert forall|i: int| 0 <= i < a@.tokens.len() implies out@.contains((#[trigger] a@.tokens[i]).0) by {
            assert(x[i] == a@.tokens[i].0);
            assert(out@[i] == x[i]);
        }
        assert forall|i: int| 0 <= i < b@.tokens.len() implies out@.contains((#[trigger] b@.tokens[i]).0) by {
            assert(y[i] == b@.tokens[i].0);
            assert(out@[x.len() + i] == y[i]);
        }
    }
    out
}

/// Every group that some key of ours moves to, each node once. Between two tokens no ring changes its
/// owner, so a look at each token is a look at every hash.
pub fn destinations(now: &BuiltRing, next: &BuiltRing, mine: &str) -> (r: Vec<String>)
    ensures
        forall|i: int| 0 <= i < r@.len() ==> receives(now@, next@, mine@, #[trigger] texts(r@)[i]),
        forall|to: Seq<char>| receives(now@, next@, mine@, to) ==> #[trigger] names(texts(r@), node(to)),
        forall|i: int, j: int| 0 <= i < j < r@.len() ==> node(#[trigger] texts(r@)[i]) != node(#[trigger] texts(r@)[j]),
{
    let tokens = all_tokens(now, next);
    let mut out: Vec<String> = Vec::new();
    let mut i: usize = 0;
    while i < tokens.len()
        invariant
            i <= tokens@.len(),
            forall|k: int| 0 <= k < out@.len() ==> receives(now@, next@, mine@, #[trigger] texts(out@)[k]),
            forall|k: int| 0 <= k < i && (leaves_for(now@, next@, mine@, #[trigger] tokens@[k]) is Some) ==> names(
                texts(out@),
                node(leaves_for(now@, next@, mine@, tokens@[k])->0),
            ),
            forall|a: int, b: int| 0 <= a < b < out@.len() ==> node(#[trigger] texts(out@)[a]) != node(#[trigger] texts(out@)[b]),
        decreases tokens@.len() - i,
    {
        let ghost before = texts(out@);
        match route(now, next, mine, tokens[i]) {
            Some(to) => {
                assert(receives(now@, next@, mine@, to@)) by {
                    assert(leaves_for(now@, next@, mine@, tokens@[i as int]) == Some(to@));
                }
                let ghost name = to@;
                if !list_names(out.as_slice(), to.as_str()) {
                    out.push(to);
                    proof {
                        let after = texts(out@);
                        assert(after =~= before.push(name));
                        assert forall|k: int| 0 <= k < out@.len() implies receives(now@, next@, mine@, #[trigger] after[k]) by {
                            if k < before.len() {
                                assert(after[k] == before[k]);
                            }
                        }
                        assert forall|k: int| 0 <= k < i + 1 && (leaves_for(now@, next@, mine@, #[trigger] tokens@[k]) is Some) implies names(
                            after,
                            node(leaves_for(now@, next@, mine@, tokens@[k])->0),
                        ) by {
                            if k < i {
                                let n = node(leaves_for(now@, next@, mine@, tokens@[k])->0);
                                let q = choose|q: int| 0 <= q < before.len() && node(#[trigger] before[q]) == n;
                                assert(after[q] == before[q]);
                            } else {
                                assert(after[before.len() as int] == name);
                            }
                        }
                        assert forall|a: int, b: int| 0 <= a < b < out@.len() implies node(#[trigger] after[a]) != node(#[trigger] after[b]) by {
                            assert(after[a] == before[a]);
                            if b < before.len() {
                                assert(after[b] == before[b]);
                            }
                        }
                    }
                }
            },
            None => {},
        }
        i += 1;
    }
    proof {
        assert forall|to: Seq<char>| receives(now@, next@, mine@, to) implies #[trigger] names(texts(out@), node(to)) by {
            let h = choose|h: u64| #[trigger] leaves_for(now@, next@, mine@, h) == Some(to);
            assert(next@.owner(h) is Some);
            assert(next@.tokens.len() > 0);
            assert(tokens@.contains(next@.tokens[0].0));
            let t = lemma_representative(tokens@, h);
            lemma_same_owner(now@, tokens@, h, t);
            lemma_same_owner(next@, tokens@, h, t);
            let k = choose|k: int| 0 <= k < tokens@.len() && tokens@[k] == t;
            assert(leaves_for(now@, next@, mine@, tokens@[k]) == Some(to));
        }
    }
    out
}

/// Whom to tell that a handover starts over, and with what.
pub struct ResetPlan {
    pub source: String,
    pub destinations: Vec<String>,
}

/// Plans the reset of every group that this node's keys go to. `ring` is the one in force.
pub fn reset_destinations(ring: Option<&HashRing>, own: &str, target: &HashRing) -> (r: Result<ResetPlan, String>)
    ensures
        match r {
            Ok(plan) => ring is Some && ({
                let e = entry_of(ring->0@.shards, node(own@));
                e is Some && plan.source@ == e->0.node_url
            }) && (exists|now: BuiltRingView, next: BuiltRingView|
                #[trigger] built_from(ring->0@, now) && #[trigger] built_from(target@, next) && lists_receivers(
                    now,
                    next,
                    plan.source@,
                    texts(plan.destinations@),
                )),
            Err(e) => if ring is None {
                e@ == "no ring to move away from"@
            } else {
                entry_of(ring->0@.shards, node(own@)) is None && e@ == "this node is not in the ring"@
            },
        },
{
    let current = match ring {
        Some(r) => r,
        None => return Err("no ring to move away from".to_owned()),
    };
    let source = match source_group(current, own) {
        Some(s) => s,
        None => return Err("this node is not in the ring".to_owned()),
    };
    let now = current.build();
    let next = target.build();
    let all = destinations(&now, &next, source.as_str());
    Ok(ResetPlan { source, destinations: all })
}

/// Where a reset is sent, and what it says.
pub struct ResetRequest {
    pub url: String,
    pub reset: MigrateReset,
}

/// The resets of a plan, one for each destination and in their order.
pub fn reset_requests(plan: &ResetPlan, id: &str, phase: MigrationPhase) -> (r: Vec<ResetRequest>)
    ensures
        r@.len() == plan.destinations@.len(),
        forall|i: int| 0 <= i < r@.len() ==> {
            &&& (#[trigger] r@[i]).url@ == plan.destinations@[i]@ + "/internal/migrate-reset"@
            &&& r@[i].reset.migration_id@ == id@
            &&& r@[i].reset.phase == phase
            &&& r@[i].reset.source@ == plan.source@
        },
{
    let mut out: Vec<ResetRequest> = Vec::new();
    let mut i: usize = 0;
    while i < plan.destinations.len()
        invariant
            i <= plan.destinations@.len(),
            out@.len() == i,
            forall|k: int| 0 <= k < i ==> {
                &&& (#[trigger] out@[k]).url@ == plan.destinations@[k]@ + "/internal/migrate-reset"@
                &&& out@[k].reset.migration_id@ == id@
                &&& out@[k].reset.phase == phase
                &&& out@[k].reset.source@ == plan.source@
            },
        decreases plan.destinations@.len() - i,
    {
        out.push(
            ResetRequest {
                url: cat2(plan.destinations[i].as_str(), "/internal/migrate-reset"),
                reset: MigrateReset { migration_id: id.to_owned(), phase, source: plan.source.clone() },
            },
        );
        i += 1;
    }
    out
}

/// Whether a list has every group that some key moves to, each node once, and no other.
pub open spec fn lists_receivers(now: BuiltRingView, next: BuiltRingView, mine: Seq<char>, v: Seq<Seq<char>>) -> bool {
    &&& forall|i: int| 0 <= i < v.len() ==> receives(now, next, mine, #[trigger] v[i])
    &&& forall|to: Seq<char>| receives(now, next, mine, to) ==> #[trigger] names(v, node(to))
    &&& forall|i: int, j: int| 0 <= i < j < v.len() ==> node(#[trigger] v[i]) != node(#[trigger] v[j])
}

/// What the answer to a reset comes to. `reached` is the status with its text, or why the node could
/// not be reached.
pub fn reset_answer(destination: &str, reached: Result<(u16, String), String>) -> (r: Result<(), String>)
    ensures
        complaint(r) == (match reached {
            Err(e) => Some(destination@ + " unreachable: "@ + e@),
            Ok(s) => if is_success(s.0) { None } else { Some(destination@ + " refused final reset: "@ + s.1@) },
        }),
{
    match reached {
        Err(e) => Err(cat3(destination, " unreachable: ", e.as_str())),
        Ok((status, shown)) => if 200 <= status && status < 300 {
            Ok(())
        } else {
            Err(cat3(destination, " refused final reset: ", shown.as_str()))
        },
    }
}

// ---- Batches ----

/// Raw JSON bytes per request. The batch size bounds the count only, so a batch of large documents
/// could be one the destination refuses.
pub const MIGRATE_BATCH_BYTES: usize = 10 * 1024 * 1024;

/// A document with what it takes of a request.
pub struct SizedDoc {
    pub doc: MigrateDoc,
    pub size: u128,
}

pub ghost struct SizedDocView {
    pub doc: MigrateDocView,
    pub size: int,
}

impl View for SizedDoc {
    type V = SizedDocView;

    open spec fn view(&self) -> SizedDocView {
        SizedDocView { doc: self.doc@, size: self.size as int }
    }
}

/// What some documents take together.
pub open spec fn size_of(d: Seq<SizedDocView>) -> int
    decreases d.len(),
{
    if d.len() == 0 { 0 } else { size_of(d.drop_last()) + d.last().size }
}

/// Documents in groups: each joins the last group where it fits, and begins a new one where it does
/// not.
pub open spec fn grouped(d: Seq<SizedDocView>) -> Seq<Seq<SizedDocView>>
    decreases d.len(),
{
    if d.len() == 0 {
        Seq::empty()
    } else {
        let before = grouped(d.drop_last());
        if before.len() > 0 && size_of(before.last()) + d.last().size <= MIGRATE_BATCH_BYTES {
            before.drop_last().push(before.last().push(d.last()))
        } else {
            before.push(seq![d.last()])
        }
    }
}

/// The contents of a list of documents.
pub open spec fn doc_list(v: Seq<MigrateDoc>) -> Seq<MigrateDocView> {
    Seq::new(v.len(), |i: int| v[i]@)
}

/// The contents of groups of documents.
pub open spec fn doc_groups(v: Seq<Vec<MigrateDoc>>) -> Seq<Seq<MigrateDocView>> {
    Seq::new(v.len(), |i: int| doc_list(v[i]@))
}

/// The contents of a list of documents with their sizes.
pub open spec fn sized_list(v: Seq<SizedDoc>) -> Seq<SizedDocView> {
    Seq::new(v.len(), |i: int| v[i]@)
}

/// The contents of groups of documents with their sizes.
pub open spec fn sized_groups(v: Seq<Vec<SizedDoc>>) -> Seq<Seq<SizedDocView>> {
    Seq::new(v.len(), |i: int| sized_list(v[i]@))
}

proof fn lemma_size_nonneg(d: Seq<SizedDoc>)
    ensures
        size_of(sized_list(d)) >= 0,
    decreases d.len(),
{
    if d.len() > 0 {
        lemma_size_nonneg(d.drop_last());
        assert(sized_list(d).drop_last() =~= sized_list(d.drop_last()));
    }
}

/// Splits by size, under a count split that already happened. The first document of a group is always
/// taken: one over the budget still has to travel.
pub fn group_docs(docs: Vec<SizedDoc>) -> (r: Vec<Vec<SizedDoc>>)
    ensures
        sized_groups(r@) == grouped(sized_list(docs@)),
{
    let limit: u128 = MIGRATE_BATCH_BYTES as u128;
    let ghost all = sized_list(docs@);
    let mut groups: Vec<Vec<SizedDoc>> = Vec::new();
    let mut current: Vec<SizedDoc> = Vec::new();
    let mut bytes: u128 = 0;
    let mut rest = docs;
    let total = rest.len();
    let mut i: usize = 0;
    assert(all.take(0) =~= Seq::empty());
    assert(sized_groups(groups@) =~= Seq::empty());
    proof {
        assert(sized_list(current@) =~= Seq::empty());
    }
    for doc in it: rest
        invariant
            total == all.len(),
            it.seq().len() == total,
            forall|k: int| 0 <= k < total ==> (#[trigger] it.seq()[k])@ == all[k],
            i == it.index(),
            bytes == size_of(sized_list(current@)),
            limit == MIGRATE_BATCH_BYTES,
            current@.len() == 0 ==> it.index() == 0 && groups@.len() == 0,
            current@.len() > 0 ==> grouped(all.take(it.index())) == sized_groups(groups@).push(sized_list(current@)),
            it.index() > 0 ==> current@.len() > 0,
            i <= total,
    {
        let ghost at = it.index();
        let ghost d = doc@;
        proof {
            lemma_take_grows(all, at);
            lemma_size_nonneg(current@);
            assert(d == all[at]);
        }
        let size: u128 = doc.size;
        let ghost cur = sized_list(current@);
        let ghost done = sized_groups(groups@);
        let fits = current.len() > 0 && size <= limit && bytes <= limit - size;
        if fits {
            bytes = bytes + size;
            current.push(doc);
            proof {
                let next = sized_list(current@);
                assert(next =~= cur.push(d));
                assert(next.drop_last() =~= cur);
                let before = done.push(cur);
                assert(before.drop_last() =~= done);
                assert(before.last() == cur);
            }
        } else {
            let mut fresh: Vec<SizedDoc> = Vec::new();
            fresh.push(doc);
            proof {
                assert(sized_list(fresh@) =~= seq![d]);
                assert(seq![d].drop_last() =~= Seq::<SizedDocView>::empty());
                assert(size_of(Seq::<SizedDocView>::empty()) == 0);
                assert(size_of(seq![d]) == d.size);
            }
            std::mem::swap(&mut current, &mut fresh);
            bytes = size;
            if fresh.len() > 0 {
                groups.push(fresh);
                proof {
                    assert(sized_groups(groups@) =~= done.push(cur));
                    assert(done.push(cur).last() == cur);
                }
            } else {
                proof {
                    assert(all.take(0) =~= Seq::empty());
                    assert(grouped(all.take(at)) =~= Seq::empty());
                    assert(sized_groups(groups@) =~= Seq::empty());
                }
            }
        }
        i = i + 1;
    }
    proof {
        lemma_take_all(all);
    }
    if current.len() > 0 {
        let ghost done = sized_groups(groups@);
        let ghost cur = sized_list(current@);
        groups.push(current);
        assert(sized_groups(groups@) =~= done.push(cur));
    } else {
        assert(all =~= Seq::empty());
        assert(sized_groups(groups@) =~= Seq::empty());
    }
    groups
}

/// Splitting by size loses nothing and keeps the order.
pub proof fn law_groups_hold_every_document_in_order(d: Seq<SizedDocView>)
    ensures
        grouped(d).flatten() == d,
        forall|i: int| 0 <= i < grouped(d).len() ==> (#[trigger] grouped(d)[i]).len() > 0,
    decreases d.len(),
{
    if d.len() == 0 {
        assert(grouped(d).flatten() =~= d);
    } else {
        let rest = d.drop_last();
        let before = grouped(rest);
        law_groups_hold_every_document_in_order(rest);
        assert(d =~= rest.push(d.last()));
        let g = grouped(d);
        if before.len() > 0 && size_of(before.last()) + d.last().size <= MIGRATE_BATCH_BYTES {
            let head = before.drop_last();
            assert(before =~= head.push(before.last()));
            head.lemma_flatten_push(before.last());
            head.lemma_flatten_push(before.last().push(d.last()));
            assert(head.flatten() + before.last().push(d.last()) =~= (head.flatten() + before.last()).push(d.last()));
            assert forall|i: int| 0 <= i < g.len() implies (#[trigger] g[i]).len() > 0 by {
                if i < head.len() {
                    assert(g[i] == before[i]);
                }
            }
        } else {
            before.lemma_flatten_push(seq![d.last()]);
            assert(before.flatten() + seq![d.last()] =~= d);
            assert forall|i: int| 0 <= i < g.len() implies (#[trigger] g[i]).len() > 0 by {
                if i < before.len() {
                    assert(g[i] == before[i]);
                }
            }
        }
    }
}

/// A group of more than one document fits in a request.
pub proof fn law_a_group_fits_in_a_request(d: Seq<SizedDocView>, i: int)
    requires
        0 <= i < grouped(d).len(),
        grouped(d)[i].len() > 1,
    ensures
        size_of(grouped(d)[i]) <= MIGRATE_BATCH_BYTES,
    decreases d.len(),
{
    let rest = d.drop_last();
    let before = grouped(rest);
    let g = grouped(d);
    if before.len() > 0 && size_of(before.last()) + d.last().size <= MIGRATE_BATCH_BYTES {
        if i < before.len() - 1 {
            assert(g[i] == before[i]);
            law_a_group_fits_in_a_request(rest, i);
        } else {
            assert(g[i].drop_last() =~= before.last());
        }
    } else if i < before.len() {
        assert(g[i] == before[i]);
        law_a_group_fits_in_a_request(rest, i);
    }
}

/// A document with its key and its value, as they are written, counted.
pub open spec fn measured(d: MigrateDocView) -> SizedDocView {
    SizedDocView { doc: d, size: (encode_utf8(d.key).len() + encode_utf8(written(d.value)).len()) as int }
}

/// Some documents, each measured.
pub open spec fn all_measured(d: Seq<MigrateDocView>) -> Seq<SizedDocView> {
    Seq::new(d.len(), |i: int| measured(d[i]))
}

/// The documents of a list without their sizes.
pub open spec fn bare(d: Seq<SizedDocView>) -> Seq<MigrateDocView> {
    Seq::new(d.len(), |i: int| d[i].doc)
}

/// The documents of groups without their sizes.
pub open spec fn all_bare(g: Seq<Seq<SizedDocView>>) -> Seq<Seq<MigrateDocView>> {
    Seq::new(g.len(), |i: int| bare(g[i]))
}

fn measure_docs(docs: Vec<MigrateDoc>) -> (r: Vec<SizedDoc>)
    ensures
        sized_list(r@) == all_measured(doc_list(docs@)),
{
    let ghost all = doc_list(docs@);
    let mut out: Vec<SizedDoc> = Vec::new();
    for doc in it: docs
        invariant
            it.seq().len() == all.len(),
            forall|k: int| 0 <= k < all.len() ==> (#[trigger] it.seq()[k])@ == all[k],
            sized_list(out@) == all_measured(all).take(it.index()),
    {
        let ghost before = sized_list(out@);
        let text = written_text(&doc.value);
        let size: u128 = doc.key.as_str().as_bytes().len() as u128 + text.as_str().as_bytes().len() as u128;
        let ghost d = doc@;
        out.push(SizedDoc { doc, size });
        proof {
            assert(d == all[it.index()]);
            assert(sized_list(out@) =~= before.push(measured(d)));
            assert(sized_list(out@) =~= all_measured(all).take(it.index() + 1));
        }
    }
    assert(all_measured(all).take(all.len() as int) =~= all_measured(all));
    out
}

fn strip_sizes(docs: Vec<SizedDoc>) -> (r: Vec<MigrateDoc>)
    ensures
        doc_list(r@) == bare(sized_list(docs@)),
{
    let ghost all = sized_list(docs@);
    let mut out: Vec<MigrateDoc> = Vec::new();
    for doc in it: docs
        invariant
            it.seq().len() == all.len(),
            forall|k: int| 0 <= k < all.len() ==> (#[trigger] it.seq()[k])@ == all[k],
            doc_list(out@) == bare(all).take(it.index()),
    {
        let ghost before = doc_list(out@);
        let ghost d = doc@;
        out.push(doc.doc);
        proof {
            assert(d == all[it.index()]);
            assert(doc_list(out@) =~= before.push(d.doc));
            assert(doc_list(out@) =~= bare(all).take(it.index() + 1));
        }
    }
    assert(bare(all).take(all.len() as int) =~= bare(all));
    out
}

/// Splits by the bytes that each document's key and written value take of a request, under a count
/// split that already happened.
pub fn size_bounded_docs(docs: Vec<MigrateDoc>) -> (r: Vec<Vec<MigrateDoc>>)
    ensures
        doc_groups(r@) == all_bare(grouped(all_measured(doc_list(docs@)))),
{
    let groups = group_docs(measure_docs(docs));
    let ghost all = sized_groups(groups@);
    let mut out: Vec<Vec<MigrateDoc>> = Vec::new();
    for group in it: groups
        invariant
            it.seq().len() == all.len(),
            forall|k: int| 0 <= k < all.len() ==> sized_list((#[trigger] it.seq()[k])@) == all[k],
            doc_groups(out@) == all_bare(all).take(it.index()),
    {
        let ghost before = doc_groups(out@);
        let ghost g = sized_list(group@);
        out.push(strip_sizes(group));
        proof {
            assert(g == all[it.index()]);
            assert(doc_groups(out@) =~= before.push(bare(g)));
            assert(doc_groups(out@) =~= all_bare(all).take(it.index() + 1));
        }
    }
    assert(all_bare(all).take(all.len() as int) =~= all_bare(all));
    out
}

// ---- Sending a batch ----

/// A key of a batch with what reading its committed document brought: nothing where there is none any
/// more.
pub struct KeyRead {
    pub key: String,
    pub read: Result<Option<serde_json::Value>, String>,
}

pub ghost struct KeyReadView {
    pub key: Seq<char>,
    pub read: Result<Option<JsonView>, Seq<char>>,
}

impl View for KeyRead {
    type V = KeyReadView;

    open spec fn view(&self) -> KeyReadView {
        KeyReadView {
            key: self.key@,
            read: match self.read {
                Ok(Some(v)) => Ok(Some(held(v))),
                Ok(None) => Ok(None),
                Err(e) => Err(e@),
            },
        }
    }
}

/// The contents of a list of reads.
pub open spec fn read_list(v: Seq<KeyRead>) -> Seq<KeyReadView> {
    Seq::new(v.len(), |i: int| v[i]@)
}

/// What reading a batch's keys brought.
pub enum BatchRead {
    /// This node keeps no collections.
    NoDatabase,
    /// The collection could not be opened, for this reason.
    Unusable(String),
    /// The keys in their order, up to and with the first that could not be read.
    Keys(Vec<KeyRead>),
}

/// Why the first key that could not be read fails the batch, if there is one.
pub open spec fn read_fault(collection: Seq<char>, v: Seq<KeyReadView>) -> Option<Seq<char>>
    decreases v.len(),
{
    if v.len() == 0 {
        None
    } else {
        match v[0].read {
            Err(e) => Some("reading "@ + collection + "/"@ + v[0].key + ": "@ + e),
            Ok(_) => read_fault(collection, v.skip(1)),
        }
    }
}

/// The documents that were found, in the order of their keys.
pub open spec fn found(v: Seq<KeyReadView>) -> Seq<MigrateDocView>
    decreases v.len(),
{
    if v.len() == 0 {
        Seq::empty()
    } else {
        let before = found(v.drop_last());
        match v.last().read {
            Ok(Some(value)) => before.push(MigrateDocView { key: v.last().key, value }),
            _ => before,
        }
    }
}

/// The documents that were found, or why the batch fails.
pub fn found_docs(collection: &str, reads: Vec<KeyRead>) -> (r: Result<Vec<MigrateDoc>, String>)
    ensures
        match r {
            Ok(docs) => read_fault(collection@, read_list(reads@)) is None && doc_list(docs@) == found(read_list(reads@)),
            Err(e) => read_fault(collection@, read_list(reads@)) == Some(e@),
        },
{
    let ghost all = read_list(reads@);
    let mut out: Vec<MigrateDoc> = Vec::new();
    proof {
        assert(all.take(0) =~= Seq::empty());
        assert(all.skip(0) =~= all);
        assert(doc_list(out@) =~= Seq::empty());
    }
    for one in it: reads
        invariant
            all == read_list(reads@),
            it.seq().len() == all.len(),
            forall|k: int| 0 <= k < all.len() ==> (#[trigger] it.seq()[k])@ == all[k],
            read_fault(collection@, all) == read_fault(collection@, all.skip(it.index())),
            doc_list(out@) == found(all.take(it.index())),
    {
        let ghost at = it.index();
        let ghost before = doc_list(out@);
        let ghost view = one@;
        proof {
            assert(view == all[at]);
            lemma_take_grows(all, at);
            assert(all.skip(at)[0] == all[at]);
            assert(all.skip(at).skip(1) =~= all.skip(at + 1));
        }
        match one.read {
            Ok(Some(value)) => {
                out.push(MigrateDoc { key: one.key, value });
                assert(doc_list(out@) =~= before.push(MigrateDocView { key: view.key, value: view.read->Ok_0->0 }));
            },
            Ok(None) => {},
            Err(e) => {
                let place = cat4("reading ", collection, "/", one.key.as_str());
                return Err(cat3(place.as_str(), ": ", e.as_str()));
            },
        }
    }
    proof {
        lemma_take_all(all);
        assert(all.skip(all.len() as int) =~= Seq::empty());
    }
    Ok(out)
}

/// What becomes of a batch.
pub enum BatchStep {
    /// None of its documents is there any more: nothing is sent, and nothing is noted.
    Skip,
    /// These requests go to the destination, one after the other; `sent` documents are in them.
    Send { url: String, sent: usize, requests: Vec<MigrateBatch> },
    Fail(String),
}

pub ghost struct MigrateBatchView {
    pub migration_id: Seq<char>,
    pub phase: MigrationPhase,
    pub collection: Seq<char>,
    pub docs: Seq<MigrateDocView>,
}

impl View for MigrateBatch {
    type V = MigrateBatchView;

    open spec fn view(&self) -> MigrateBatchView {
        MigrateBatchView {
            migration_id: self.migration_id@,
            phase: self.phase,
            collection: self.collection@,
            docs: doc_list(self.docs@),
        }
    }
}

/// The contents of a list of requests.
pub open spec fn request_list(v: Seq<MigrateBatch>) -> Seq<MigrateBatchView> {
    Seq::new(v.len(), |i: int| v[i]@)
}

/// One request for each group of documents.
pub open spec fn requests_for(id: Seq<char>, phase: MigrationPhase, collection: Seq<char>, groups: Seq<Seq<MigrateDocView>>) -> Seq<MigrateBatchView> {
    Seq::new(groups.len(), |i: int| MigrateBatchView { migration_id: id, phase, collection, docs: groups[i] })
}

/// What is sent of one batch. A document that is gone by now is left out; where all are, nothing is sent.
pub fn plan_batch(destination: &str, id: &str, phase: MigrationPhase, collection: &str, read: BatchRead) -> (r: BatchStep)
    ensures
        match read {
            BatchRead::NoDatabase => r is Fail && r->Fail_0@ == "no database"@,
            BatchRead::Unusable(e) => r is Fail && r->Fail_0@ == e@,
            BatchRead::Keys(reads) => {
                let fault = read_fault(collection@, read_list(reads@));
                let docs = found(read_list(reads@));
                match r {
                    BatchStep::Fail(e) => fault == Some(e@),
                    BatchStep::Skip => fault is None && docs.len() == 0,
                    BatchStep::Send { url, sent, requests } => {
                        &&& fault is None && docs.len() > 0
                        &&& url@ == destination@ + "/internal/migrate"@
                        &&& sent == docs.len()
                        &&& request_list(requests@) == requests_for(id@, phase, collection@, all_bare(grouped(all_measured(docs))))
                    },
                }
            },
        },
{
    let reads = match read {
        BatchRead::NoDatabase => return BatchStep::Fail("no database".to_owned()),
        BatchRead::Unusable(e) => return BatchStep::Fail(e),
        BatchRead::Keys(reads) => reads,
    };
    let docs = match found_docs(collection, reads) {
        Ok(docs) => docs,
        Err(e) => return BatchStep::Fail(e),
    };
    assert(doc_list(docs@).len() == docs@.len());
    if docs.len() == 0 {
        return BatchStep::Skip;
    }
    let sent = docs.len();
    let groups = size_bounded_docs(docs);
    let ghost all = doc_groups(groups@);
    let mut requests: Vec<MigrateBatch> = Vec::new();
    assert(request_list(requests@) =~= requests_for(id@, phase, collection@, all).take(0));
    for group in it: groups
        invariant
            it.seq().len() == all.len(),
            forall|k: int| 0 <= k < all.len() ==> doc_list((#[trigger] it.seq()[k])@) == all[k],
            request_list(requests@) == requests_for(id@, phase, collection@, all).take(it.index()),
    {
        let ghost before = request_list(requests@);
        let ghost g = doc_list(group@);
        requests.push(MigrateBatch { migration_id: id.to_owned(), phase, collection: collection.to_owned(), docs: group });
        proof {
            assert(g == all[it.index()]);
            assert(request_list(requests@) =~= before.push(MigrateBatchView { migration_id: id@, phase, collection: collection@, docs: g }));
            assert(request_list(requests@) =~= requests_for(id@, phase, collection@, all).take(it.index() + 1));
        }
    }
    proof {
        let wanted = requests_for(id@, phase, collection@, all);
        assert(wanted.take(all.len() as int) =~= wanted);
    }
    BatchStep::Send { url: cat2(destination, "/internal/migrate"), sent, requests }
}

/// What the answer to one request of a batch comes to. `reached` is the status with its text, or why the
/// node could not be reached. A batch is pushed once every one of its requests was taken, and fails with
/// the first that was not.
pub fn batch_answer(destination: &str, reached: Result<(u16, String), String>) -> (r: Result<(), String>)
    ensures
        complaint(r) == (match reached {
            Err(e) => Some(destination@ + " unreachable: "@ + e@),
            Ok(s) => if is_success(s.0) { None } else { Some(destination@ + " refused the batch: "@ + s.1@) },
        }),
{
    match reached {
        Err(e) => Err(cat3(destination, " unreachable: ", e.as_str())),
        Ok((status, shown)) => if 200 <= status && status < 300 {
            Ok(())
        } else {
            Err(cat3(destination, " refused the batch: ", shown.as_str()))
        },
    }
}

/// The documents of some requests, one request after the other.
pub open spec fn carried(requests: Seq<MigrateBatchView>) -> Seq<MigrateDocView>
    decreases requests.len(),
{
    if requests.len() == 0 { Seq::empty() } else { carried(requests.drop_last()) + requests.last().docs }
}

/// The requests of a batch carry every document that was found, in order, and none of them is empty.
pub proof fn law_a_batch_carries_what_was_found(id: Seq<char>, phase: MigrationPhase, collection: Seq<char>, docs: Seq<MigrateDocView>)
    ensures
        ({
            let requests = requests_for(id, phase, collection, all_bare(grouped(all_measured(docs))));
            &&& carried(requests) == docs
            &&& forall|i: int| 0 <= i < requests.len() ==> (#[trigger] requests[i]).docs.len() > 0
        }),
{
    let sized = all_measured(docs);
    let groups = grouped(sized);
    let requests = requests_for(id, phase, collection, all_bare(groups));
    law_groups_hold_every_document_in_order(sized);
    lemma_carried(id, phase, collection, groups);
    assert(bare(sized) =~= docs);
    assert forall|i: int| 0 <= i < requests.len() implies (#[trigger] requests[i]).docs.len() > 0 by {
        assert(groups[i].len() > 0);
    }
}

proof fn lemma_carried(id: Seq<char>, phase: MigrationPhase, collection: Seq<char>, groups: Seq<Seq<SizedDocView>>)
    ensures
        carried(requests_for(id, phase, collection, all_bare(groups))) == bare(groups.flatten()),
    decreases groups.len(),
{
    let requests = requests_for(id, phase, collection, all_bare(groups));
    if groups.len() == 0 {
        assert(bare(groups.flatten()) =~= Seq::empty());
    } else {
        let rest = groups.drop_last();
        lemma_carried(id, phase, collection, rest);
        assert(requests.drop_last() =~= requests_for(id, phase, collection, all_bare(rest)));
        assert(groups =~= rest.push(groups.last()));
        rest.lemma_flatten_push(groups.last());
        assert(bare(groups.flatten()) =~= bare(rest.flatten()) + bare(groups.last()));
    }
}

/// The keys of one collection, in order.
pub open spec fn of_collection(keys: Seq<KeyView>, c: Seq<char>) -> Seq<Seq<char>>
    decreases keys.len(),
{
    if keys.len() == 0 {
        Seq::empty()
    } else {
        let before = of_collection(keys.drop_last(), c);
        if keys.last().0 == c { before.push(keys.last().1) } else { before }
    }
}

/// A list in pieces of `size`, the last one shorter where it does not come out even.
pub open spec fn in_pieces(v: Seq<Seq<char>>, size: int) -> Seq<Seq<Seq<char>>>
    decreases v.len(),
{
    if v.len() == 0 || size <= 0 {
        Seq::empty()
    } else if v.len() <= size {
        seq![v]
    } else {
        seq![v.take(size)] + in_pieces(v.skip(size), size)
    }
}

/// Keys of one collection that travel together.
pub struct KeyBatch {
    pub collection: String,
    pub keys: Vec<String>,
}

/// The contents of a list of batches.
pub open spec fn batch_list(v: Seq<KeyBatch>) -> Seq<(Seq<char>, Seq<Seq<char>>)> {
    Seq::new(v.len(), |i: int| (v[i].collection@, texts(v[i].keys@)))
}

/// Pieces with their collection.
pub open spec fn labelled(c: Seq<char>, pieces: Seq<Seq<Seq<char>>>) -> Seq<(Seq<char>, Seq<Seq<char>>)> {
    Seq::new(pieces.len(), |i: int| (c, pieces[i]))
}

/// The batches of the first `n` of some collections.
pub open spec fn batches_of(keys: Seq<KeyView>, cs: Seq<Seq<char>>, size: int, n: int) -> Seq<(Seq<char>, Seq<Seq<char>>)>
    decreases n,
{
    if n <= 0 {
        Seq::empty()
    } else {
        batches_of(keys, cs, size, n - 1) + labelled(cs[n - 1], in_pieces(of_collection(keys, cs[n - 1]), size))
    }
}

fn gather_keys(keys: &Vec<(String, String)>) -> (r: NameMap<Vec<String>>)
    ensures
        forall|c: Seq<char>| #[trigger] r@.dom().contains(c) ==> texts(r@[c]@) == of_collection(key_list(keys@), c),
        forall|c: Seq<char>| #[trigger] r@.dom().contains(c) <==> of_collection(key_list(keys@), c).len() > 0,
{
    let ghost all = key_list(keys@);
    let mut out: NameMap<Vec<String>> = NameMap::new();
    let mut i: usize = 0;
    assert(all.take(0) =~= Seq::empty());
    while i < keys.len()
        invariant
            all == key_list(keys@),
            i <= keys@.len(),
            forall|c: Seq<char>| #[trigger] out@.dom().contains(c) ==> texts(out@[c]@) == of_collection(all.take(i as int), c),
            forall|c: Seq<char>| #[trigger] out@.dom().contains(c) <==> of_collection(all.take(i as int), c).len() > 0,
        decreases keys@.len() - i,
    {
        proof {
            lemma_take_grows(all, i as int);
            assert(all[i as int] == (keys@[i as int].0@, keys@[i as int].1@));
        }
        let ghost before = out@;
        let c = keys[i].0.as_str();
        let mut list = match out.remove(c) {
            Some(list) => list,
            None => Vec::new(),
        };
        let ghost was = texts(list@);
        proof {
            assert(was =~= of_collection(all.take(i as int), c@));
        }
        list.push(keys[i].1.clone());
        assert(texts(list@) =~= was.push(all[i as int].1));
        out.insert(keys[i].0.clone(), list);
        proof {
            assert forall|q: Seq<char>| #[trigger] out@.dom().contains(q) implies texts(out@[q]@) == of_collection(all.take(i + 1), q) by {
                if q != c@ {
                    assert(before.dom().contains(q));
                }
            }
            assert forall|q: Seq<char>| #[trigger] out@.dom().contains(q) <==> of_collection(all.take(i + 1), q).len() > 0 by {
                assert(before.dom().contains(q) <==> of_collection(all.take(i as int), q).len() > 0);
            }
        }
        i += 1;
    }
    proof {
        lemma_take_all(all);
    }
    out
}

/// What is pushed to one destination, in batches: collection by collection, since the receiver writes
/// into one at a time, and no more than `batch_size` keys at once.
pub fn push_all(keys: &Vec<(String, String)>, batch_size: usize) -> (r: Vec<KeyBatch>)
    requires
        batch_size > 0,
    ensures
        exists|cs: Seq<Seq<char>>| crate::name_map::increasing(cs) && (forall|c: Seq<char>| cs.contains(c) <==> of_collection(
            key_list(keys@),
            c,
        ).len() > 0) && batch_list(r@) == #[trigger] batches_of(key_list(keys@), cs, batch_size as int, cs.len() as int),
{
    let ghost all = key_list(keys@);
    let grouped_keys = gather_keys(keys);
    let n = grouped_keys.len();
    let ghost cs = grouped_keys.keys();
    let mut out: Vec<KeyBatch> = Vec::new();
    let mut i: usize = 0;
    assert(batch_list(out@) =~= Seq::empty());
    while i < n
        invariant
            batch_size > 0,
            all == key_list(keys@),
            cs == grouped_keys.keys(),
            n == cs.len(),
            forall|c: Seq<char>| #[trigger] grouped_keys@.dom().contains(c) ==> texts(grouped_keys@[c]@) == of_collection(all, c),
            i <= n,
            batch_list(out@) == batches_of(all, cs, batch_size as int, i as int),
        decreases n - i,
    {
        let c = grouped_keys.key_at(i);
        let list = grouped_keys.value_at(i);
        let ghost v = of_collection(all, c@);
        assert(texts(list@) == v);
        let ghost before = batch_list(out@);
        let mut from: usize = 0;
        proof {
            assert(v.skip(0) =~= v);
            assert(before + labelled(c@, Seq::empty()) =~= before);
        }
        let ghost mut done: Seq<Seq<Seq<char>>> = Seq::empty();
        while from < list.len()
            invariant
                batch_size > 0,
                texts(list@) == v,
                from <= list@.len(),
                done + in_pieces(v.skip(from as int), batch_size as int) == in_pieces(v, batch_size as int),
                batch_list(out@) == before + labelled(c@, done),
            decreases list@.len() - from,
        {
            let left: usize = list.len() - from;
            let take: usize = if left < batch_size { left } else { batch_size };
            let mut piece: Vec<String> = Vec::new();
            let mut k: usize = 0;
            let len: usize = list.len();
            while k < take
                invariant
                    texts(list@) == v,
                    len == list@.len(),
                    from + take <= len,
                    k <= take,
                    piece@.len() == k,
                    forall|j: int| 0 <= j < k ==> (#[trigger] piece@[j])@ == v[from + j],
                decreases take - k,
            {
                assert(texts(list@)[from + k] == list@[from + k]@);
                piece.push(list[from + k].clone());
                k += 1;
            }
            let ghost rest = v.skip(from as int);
            let ghost p = texts(piece@);
            proof {
                assert(p =~= rest.take(take as int));
                if left <= batch_size {
                    assert(rest.take(take as int) =~= rest);
                    assert(v.skip(from + take) =~= Seq::empty());
                    assert(in_pieces(v.skip(from + take), batch_size as int) =~= Seq::empty());
                    assert(seq![rest] + Seq::<Seq<Seq<char>>>::empty() =~= seq![rest]);
                } else {
                    assert(rest.skip(take as int) =~= v.skip(from + take));
                }
                assert(in_pieces(rest, batch_size as int) == seq![p] + in_pieces(v.skip(from + take), batch_size as int));
                assert(done + (seq![p] + in_pieces(v.skip(from + take), batch_size as int)) =~= done.push(p) + in_pieces(
                    v.skip(from + take),
                    batch_size as int,
                ));
            }
            let ghost so_far = batch_list(out@);
            out.push(KeyBatch { collection: c.clone(), keys: piece });
            proof {
                assert(batch_list(out@) =~= so_far.push((c@, p)));
                assert(so_far.push((c@, p)) =~= before + labelled(c@, done.push(p)));
                done = done.push(p);
            }
            from += take;
        }
        proof {
            assert(v.skip(v.len() as int) =~= Seq::empty());
            assert(done + Seq::<Seq<Seq<char>>>::empty() =~= done);
        }
        i += 1;
    }
    proof {
        assert forall|c: Seq<char>| cs.contains(c) <==> of_collection(all, c).len() > 0 by {
            assert(cs.to_set().contains(c) <==> cs.contains(c));
            assert(grouped_keys@.dom().contains(c) <==> of_collection(all, c).len() > 0);
        }
    }
    out
}

/// Cutting into pieces loses nothing, and no piece is empty or too long.
pub proof fn law_pieces_hold_everything_in_order(v: Seq<Seq<char>>, size: int)
    requires
        size > 0,
    ensures
        in_pieces(v, size).flatten() == v,
        forall|i: int| 0 <= i < in_pieces(v, size).len() ==> 0 < (#[trigger] in_pieces(v, size)[i]).len() <= size,
    decreases v.len(),
{
    let p = in_pieces(v, size);
    if v.len() == 0 {
        assert(p.flatten() =~= v);
    } else if v.len() <= size {
        assert(p.drop_first() =~= Seq::empty());
        assert(p.drop_first().flatten() =~= Seq::empty());
        assert(p.flatten() =~= v);
    } else {
        let rest = in_pieces(v.skip(size), size);
        law_pieces_hold_everything_in_order(v.skip(size), size);
        assert(p.drop_first() =~= rest);
        assert(p.flatten() =~= v.take(size) + rest.flatten());
        assert(v.take(size) + v.skip(size) =~= v);
        assert forall|i: int| 0 <= i < p.len() implies 0 < (#[trigger] p[i]).len() <= size by {
            if i > 0 {
                assert(p[i] == rest[i - 1]);
            }
        }
    }
}

// ---- Cleaning up ----

/// Keys that `ring` gives to another group than that of `own`. A system log is a group's own state and
/// no part of the keyspace. A node the ring does not name owns nothing.
pub open spec fn foreign(ring: HashRingView, built: BuiltRingView, own: Seq<char>, k: KeyView) -> bool {
    let mine = entry_of(ring.shards, node(own));
    let owner = built.owner(key_hash(k.0, k.1));
    !system_name(k.0) && !(mine is Some && owner is Some && same_node(owner->0.node_url, mine->0.node_url))
}

/// `r` are the keys of a list that `ring` gives to another group than that of `own`.
pub open spec fn strays(ring: HashRingView, own: Seq<char>, keys: Seq<KeyView>, r: Set<KeyView>) -> bool {
    exists|built: BuiltRingView| #[trigger] built_from(ring, built) && forall|k: KeyView| #[trigger] r.contains(k) <==> keys.contains(k)
        && foreign(ring, built, own, k)
}

/// Every key this node holds that `ring` says belongs to another group. A shard dropped from the ring
/// is the one most likely to be sitting on a whole shard's worth of copies.
pub fn keys_not_ours(ring: &HashRing, own: &str, scan: &Vec<(String, String)>) -> (r: KeySet)
    ensures
        strays(ring@, own@, key_list(scan@), r@),
{
    let built = ring.build();
    let mine = source_group(ring, own);
    let ghost keys = key_list(scan@);
    let mut out = KeySet::new();
    let mut i: usize = 0;
    while i < scan.len()
        invariant
            keys == key_list(scan@),
            match mine {
                Some(u) => ({
                    let e = entry_of(ring@.shards, node(own@));
                    e is Some && u@ == e->0.node_url
                }),
                None => entry_of(ring@.shards, node(own@)) is None,
            },
            i <= scan@.len(),
            forall|k: KeyView| #[trigger] out@.contains(k) <==> keys.take(i as int).contains(k) && foreign(ring@, built@, own@, k),
        decreases scan@.len() - i,
    {
        proof {
            lemma_take_grows(keys, i as int);
            assert(keys[i as int] == (scan@[i as int].0@, scan@[i as int].1@));
        }
        let collection = scan[i].0.as_str();
        let key = scan[i].1.as_str();
        let h = hash_key(collection, key);
        let ours = match &mine {
            Some(m) => match built.owner(h) {
                Some(o) => same_endpoint(o.node_url.as_str(), m.as_str()),
                None => false,
            },
            None => false,
        };
        let theirs = !is_system_collection(collection) && !ours;
        assert(theirs == foreign(ring@, built@, own@, keys[i as int]));
        if theirs {
            out.insert(collection, key);
        }
        i += 1;
    }
    proof {
        lemma_take_all(keys);
        assert(built_from(ring@, built@));
    }
    out
}

/// A handover as it is recorded in the group's log.
pub struct HandoverRecord {
    pub id: String,
    pub target: HashRing,
}

/// The ring that keys moved for under a plan: from the replicated record where it is there, and from
/// this node's own complete run where it is not. Only the first survives the group electing someone
/// else.
pub fn handover_target(recorded: &Option<HandoverRecord>, runs: &MigrationRuns, id: &str) -> (r: Option<HashRing>)
    ensures
        super::metadata::opt_ring(r) == (if *recorded is Some && recorded->0.id@ == id@ {
            Some(recorded->0.target@)
        } else if runs@.current is Some && runs@.current->0.id == id@ && runs@.current->0.done {
            Some(runs@.current->0.target)
        } else {
            None
        }),
{
    if let Some(rec) = recorded {
        if same_text(rec.id.as_str(), id) {
            return Some(rec.target.clone());
        }
    }
    match &runs.current {
        Some(p) => if same_text(p.id.as_str(), id) && p.done { Some(p.target.clone()) } else { None },
        None => None,
    }
}

/// Keys this node handed over, but only once the ring it was handing them over *for* is the ring
/// actually in force. An abandoned plan leaves the same record behind, and acting on it would delete
/// keys this node still owns. Derived rather than remembered: the ring that moved the keys answers the
/// same question in one small record.
pub fn handed_over_after_flip(live: &Option<HashRing>, target: &Option<HashRing>, own: &str, scan: &Vec<(String, String)>) -> (r: KeySet)
    ensures
        ({
            let l = super::metadata::opt_ring(*live);
            let t = super::metadata::opt_ring(*target);
            if l is Some && t == l {
                strays(l->0, own@, key_list(scan@), r@)
            } else {
                r@ == Set::<KeyView>::empty()
            }
        }),
{
    match (live, target) {
        (Some(l), Some(t)) => if same_ring(t, l) { keys_not_ours(l, own, scan) } else { KeySet::new() },
        _ => KeySet::new(),
    }
}

// ---- Recording a handover ----

/// Per record, which is one per phase completion and small, in nanoseconds.
pub const HANDOVER_COMMIT_TIMEOUT: u64 = 10_000_000_000;

/// What recording a handover in the group's log is waiting for.
#[derive(Clone, Copy, Debug, PartialEq, Eq, Structural)]
pub enum RecordPhase {
    /// The log to be opened.
    Opening,
    /// The record to land in it.
    Appending,
    /// The record to be replicated and made durable.
    Replicating,
    Over,
}

/// What happened outside.
pub enum RecordEvent {
    /// The log was looked for.
    Opened { log: LogFound },
    Appended { lsn: Result<u64, String> },
    /// The append did not run to its end, for this reason.
    AppendLost { why: String },
    /// Who holds the record by now, the quorum in force, and whether it was made durable here.
    Replicated { holders: Vec<String>, quorum: Configuration, durable: Result<(), String> },
}

/// What to do next.
#[derive(Debug, PartialEq, Eq)]
pub enum RecordAction {
    Append,
    /// Ship the record and wait for a majority of the quorum.
    Replicate { lsn: u64 },
    /// Nothing more, after these warnings.
    Done { warnings: Vec<String> },
}

pub ghost enum RecordActionView {
    Append,
    Replicate { lsn: u64 },
    Done { warnings: Seq<Seq<char>> },
}

impl View for RecordAction {
    type V = RecordActionView;

    open spec fn view(&self) -> RecordActionView {
        match *self {
            RecordAction::Append => RecordActionView::Append,
            RecordAction::Replicate { lsn } => RecordActionView::Replicate { lsn },
            RecordAction::Done { warnings } => RecordActionView::Done { warnings: texts(warnings@) },
        }
    }
}

/// A warning with what it is about.
pub open spec fn warned(what: Seq<char>, why: Seq<char>) -> (RecordPhase, RecordActionView) {
    (RecordPhase::Over, RecordActionView::Done { warnings: seq![what + ": "@ + why] })
}

/// The state and the action after an event. A record that did not reach a quorum or this disk is
/// warned about and no more: the copies it was to account for stay where they are. An event that is
/// not waited for ends it.
pub open spec fn record_next(phase: RecordPhase, event: RecordEvent) -> (RecordPhase, RecordActionView) {
    match (phase, event) {
        (RecordPhase::Opening, RecordEvent::Opened { log }) => match log {
            LogFound::Open => (RecordPhase::Appending, RecordActionView::Append),
            LogFound::Unusable(e) => warned("Could not open the config log for the handover record"@, e@),
            LogFound::NoStorage => (RecordPhase::Over, RecordActionView::Done { warnings: Seq::empty() }),
        },
        (RecordPhase::Appending, RecordEvent::AppendLost { why }) => warned("Handover record append task failed"@, why@),
        (RecordPhase::Appending, RecordEvent::Appended { lsn }) => match lsn {
            Ok(lsn) => (RecordPhase::Replicating, RecordActionView::Replicate { lsn }),
            Err(e) => warned("Could not append the handover record"@, e@),
        },
        (RecordPhase::Replicating, RecordEvent::Replicated { holders, quorum, durable }) => {
            let first = if quorum@.decided(nodes(texts(holders@))) {
                Seq::empty()
            } else {
                seq!["Handover record did not reach a quorum; a leader change before cleanup strands the copies"@]
            };
            let second = match durable {
                Ok(_) => Seq::empty(),
                Err(e) => seq!["Handover record was not made durable here: "@ + e@],
            };
            (RecordPhase::Over, RecordActionView::Done { warnings: first + second })
        },
        _ => (RecordPhase::Over, RecordActionView::Done { warnings: Seq::empty() }),
    }
}

fn warn_one(what: &str, why: &str) -> (r: (RecordPhase, RecordAction))
    ensures
        (r.0, r.1@) == warned(what@, why@),
{
    let mut warnings: Vec<String> = Vec::new();
    warnings.push(cat3(what, ": ", why));
    assert(texts(warnings@) =~= seq![what@ + ": "@ + why@]);
    (RecordPhase::Over, RecordAction::Done { warnings })
}

/// One step of putting a finished handover in the group's log, from which a later leader knows what
/// this group no longer owns.
pub fn replicate_handover(phase: RecordPhase, event: RecordEvent) -> (r: (RecordPhase, RecordAction))
    ensures
        (r.0, r.1@) == record_next(phase, event),
{
    match (phase, event) {
        (RecordPhase::Opening, RecordEvent::Opened { log }) => match log {
            LogFound::Open => (RecordPhase::Appending, RecordAction::Append),
            LogFound::Unusable(e) => warn_one("Could not open the config log for the handover record", e.as_str()),
            LogFound::NoStorage => {
                let warnings: Vec<String> = Vec::new();
                assert(texts(warnings@) =~= Seq::empty());
                (RecordPhase::Over, RecordAction::Done { warnings })
            },
        },
        (RecordPhase::Appending, RecordEvent::AppendLost { why }) => warn_one("Handover record append task failed", why.as_str()),
        (RecordPhase::Appending, RecordEvent::Appended { lsn }) => match lsn {
            Ok(lsn) => (RecordPhase::Replicating, RecordAction::Replicate { lsn }),
            Err(e) => warn_one("Could not append the handover record", e.as_str()),
        },
        (RecordPhase::Replicating, RecordEvent::Replicated { holders, quorum, durable }) => {
            let mut warnings: Vec<String> = Vec::new();
            let ghost first: Seq<Seq<char>> = if quorum@.decided(nodes(texts(holders@))) {
                Seq::empty()
            } else {
                seq!["Handover record did not reach a quorum; a leader change before cleanup strands the copies"@]
            };
            if !quorum.has_quorum(holders.as_slice()) {
                warnings.push("Handover record did not reach a quorum; a leader change before cleanup strands the copies".to_owned());
            }
            assert(texts(warnings@) =~= first);
            match durable {
                Ok(_) => {
                    assert(first + Seq::<Seq<char>>::empty() =~= first);
                },
                Err(e) => {
                    warnings.push(cat2("Handover record was not made durable here: ", e.as_str()));
                    assert(texts(warnings@) =~= first + seq!["Handover record was not made durable here: "@ + e@]);
                },
            }
            (RecordPhase::Over, RecordAction::Done { warnings })
        },
        _ => {
            let warnings: Vec<String> = Vec::new();
            assert(texts(warnings@) =~= Seq::empty());
            (RecordPhase::Over, RecordAction::Done { warnings })
        },
    }
}

// ---- Laws ----

/// A key that is planned to go is owned here now and by the group it goes to afterwards.
pub proof fn law_a_key_goes_to_its_next_owner(now: BuiltRingView, next: BuiltRingView, mine: Seq<char>, keys: Seq<KeyView>, to: Seq<char>, i: int)
    requires
        0 <= i < bound_for(now, next, mine, keys, to).len(),
    ensures
        ({
            let k = bound_for(now, next, mine, keys, to)[i];
            &&& keys.contains(k)
            &&& next.owner(key_hash(k.0, k.1)) is Some
            &&& next.owner(key_hash(k.0, k.1))->0.node_url == to
            &&& !same_node(to, mine)
        }),
    decreases keys.len(),
{
    if keys.len() > 0 {
        let rest = keys.drop_last();
        let before = bound_for(now, next, mine, rest, to);
        let k = bound_for(now, next, mine, keys, to)[i];
        if i < before.len() {
            law_a_key_goes_to_its_next_owner(now, next, mine, rest, to, i);
            let j = choose|j: int| 0 <= j < rest.len() && rest[j] == k;
            assert(keys[j] == k);
        } else {
            assert(keys[keys.len() - 1] == k);
        }
    }
}

/// No key that a group owns on the ring in force is ever among those it cleans up.
pub proof fn law_cleanup_spares_what_is_owned(ring: HashRingView, built: BuiltRingView, own: Seq<char>, k: KeyView)
    requires
        ({
            let mine = entry_of(ring.shards, node(own));
            let owner = built.owner(key_hash(k.0, k.1));
            mine is Some && owner is Some && same_node(owner->0.node_url, mine->0.node_url)
        }),
    ensures
        !foreign(ring, built, own, k),
{
}

/// Every key that this group owns now and another group owns next is planned to go there, and no
/// other key is.
pub proof fn law_every_key_that_changes_owner_goes(
    now: BuiltRingView,
    next: BuiltRingView,
    mine: Seq<char>,
    keys: Seq<KeyView>,
    to: Seq<char>,
    k: KeyView,
)
    requires
        now.owner(key_hash(k.0, k.1)) is Some,
    ensures
        bound_for(now, next, mine, keys, to).contains(k) <==> {
            &&& keys.contains(k)
            &&& node(now.owner(key_hash(k.0, k.1))->0.node_url) == node(mine)
            &&& next.owner(key_hash(k.0, k.1)) is Some && next.owner(key_hash(k.0, k.1))->0.node_url == to
            &&& node(to) != node(mine)
        },
    decreases keys.len(),
{
    lemma_joined_hold::<KeyView>();
    if keys.len() > 0 {
        law_every_key_that_changes_owner_goes(now, next, mine, keys.drop_last(), to, k);
        assert(keys =~= keys.drop_last().push(keys.last()));
    }
}

/// What a plan moves in all are the keys for all its destinations together.
pub proof fn law_every_destination_counts(ks: Seq<Seq<char>>, m: Outgoing, n: int)
    requires
        0 <= n <= ks.len(),
    ensures
        total_of(ks, m, n) == Seq::new(n as nat, |i: int| cargo(m, ks[i])).flatten().len(),
    decreases n,
{
    let all = Seq::new(n as nat, |i: int| cargo(m, ks[i]));
    if n > 0 {
        let before = Seq::new((n - 1) as nat, |i: int| cargo(m, ks[i]));
        law_every_destination_counts(ks, m, n - 1);
        assert(all =~= before.push(cargo(m, ks[n - 1])));
        before.lemma_flatten_push(cargo(m, ks[n - 1]));
    } else {
        assert(all.flatten() =~= Seq::empty());
    }
}

/// One key that cannot be read fails the batch, and the first such key is named.
pub proof fn law_one_unreadable_key_fails_the_batch(collection: Seq<char>, v: Seq<KeyReadView>)
    ensures
        read_fault(collection, v) is None <==> forall|i: int| 0 <= i < v.len() ==> (#[trigger] v[i]).read is Ok,
        forall|i: int|
            0 <= i < v.len() && (#[trigger] v[i]).read is Err && (forall|j: int| 0 <= j < i ==> (#[trigger] v[j]).read is Ok)
                ==> read_fault(collection, v) == Some("reading "@ + collection + "/"@ + v[i].key + ": "@ + v[i].read->Err_0),
    decreases v.len(),
{
    if v.len() > 0 {
        let rest = v.skip(1);
        law_one_unreadable_key_fails_the_batch(collection, rest);
        if v[0].read is Ok {
            if read_fault(collection, v) is None {
                assert forall|i: int| 0 <= i < v.len() implies (#[trigger] v[i]).read is Ok by {
                    if i > 0 {
                        assert(rest[i - 1] == v[i]);
                    }
                }
            }
            if forall|i: int| 0 <= i < v.len() ==> (#[trigger] v[i]).read is Ok {
                assert forall|i: int| 0 <= i < rest.len() implies (#[trigger] rest[i]).read is Ok by {
                    assert(rest[i] == v[i + 1]);
                }
            }
            assert forall|i: int|
                0 <= i < v.len() && (#[trigger] v[i]).read is Err && (forall|j: int| 0 <= j < i ==> (#[trigger] v[j]).read is Ok) implies read_fault(
                collection,
                v,
            ) == Some("reading "@ + collection + "/"@ + v[i].key + ": "@ + v[i].read->Err_0) by {
                assert(rest[i - 1] == v[i]);
                assert forall|j: int| 0 <= j < i - 1 implies (#[trigger] rest[j]).read is Ok by {
                    assert(rest[j] == v[j + 1]);
                }
            }
        }
    }
}

/// Every key that is still there is carried with its own value, and nothing else is.
pub proof fn law_every_document_that_is_there_is_carried(v: Seq<KeyReadView>, d: MigrateDocView)
    ensures
        found(v).contains(d) <==> exists|i: int| 0 <= i < v.len() && (#[trigger] v[i]).key == d.key && v[i].read == Ok::<
            Option<JsonView>,
            Seq<char>,
        >(Some(d.value)),
    decreases v.len(),
{
    lemma_joined_hold::<MigrateDocView>();
    if v.len() > 0 {
        let rest = v.drop_last();
        law_every_document_that_is_there_is_carried(rest, d);
        assert(v =~= rest.push(v.last()));
        if found(rest).contains(d) {
            let i = choose|i: int| 0 <= i < rest.len() && (#[trigger] rest[i]).key == d.key && rest[i].read == Ok::<
                Option<JsonView>,
                Seq<char>,
            >(Some(d.value));
            assert(v[i] == rest[i]);
        }
        if exists|i: int| 0 <= i < v.len() && (#[trigger] v[i]).key == d.key && v[i].read == Ok::<Option<JsonView>, Seq<char>>(Some(d.value)) {
            let i = choose|i: int| 0 <= i < v.len() && (#[trigger] v[i]).key == d.key && v[i].read == Ok::<
                Option<JsonView>,
                Seq<char>,
            >(Some(d.value));
            if i < rest.len() {
                assert(rest[i] == v[i]);
            }
        }
        assert(v[v.len() - 1] == v.last());
    }
}

/// Every request of a batch is of its plan, its phase and its collection.
pub proof fn law_every_request_names_its_plan(
    id: Seq<char>,
    phase: MigrationPhase,
    collection: Seq<char>,
    groups: Seq<Seq<MigrateDocView>>,
    i: int,
)
    requires
        0 <= i < groups.len(),
    ensures
        requests_for(id, phase, collection, groups).len() == groups.len(),
        requests_for(id, phase, collection, groups)[i].migration_id == id,
        requests_for(id, phase, collection, groups)[i].phase == phase,
        requests_for(id, phase, collection, groups)[i].collection == collection,
        requests_for(id, phase, collection, groups)[i].docs == groups[i],
{
}

proof fn lemma_of_collection(keys: Seq<KeyView>, c: Seq<char>, key: Seq<char>)
    ensures
        of_collection(keys, c).contains(key) <==> keys.contains((c, key)),
    decreases keys.len(),
{
    lemma_joined_hold::<KeyView>();
    lemma_joined_hold::<Seq<char>>();
    if keys.len() > 0 {
        lemma_of_collection(keys.drop_last(), c, key);
        assert(keys =~= keys.drop_last().push(keys.last()));
        assert(keys.last() == (keys.last().0, keys.last().1));
    }
}

/// A list of pieces holds what its pieces hold.
proof fn lemma_pieces_hold(p: Seq<Seq<Seq<char>>>, x: Seq<char>)
    ensures
        p.flatten().contains(x) <==> exists|i: int| 0 <= i < p.len() && (#[trigger] p[i]).contains(x),
    decreases p.len(),
{
    lemma_joined_hold::<Seq<char>>();
    if p.len() > 0 {
        let rest = p.drop_last();
        lemma_pieces_hold(rest, x);
        assert(p =~= rest.push(p.last()));
        rest.lemma_flatten_push(p.last());
        if rest.flatten().contains(x) {
            let i = choose|i: int| 0 <= i < rest.len() && (#[trigger] rest[i]).contains(x);
            assert(p[i] == rest[i]);
        }
        assert(p[p.len() - 1] == p.last());
        if exists|i: int| 0 <= i < p.len() && (#[trigger] p[i]).contains(x) {
            let i = choose|i: int| 0 <= i < p.len() && (#[trigger] p[i]).contains(x);
            if i < rest.len() {
                assert(rest[i] == p[i]);
            }
        }
    }
}

/// Every key to move stands in a batch of its own collection, no batch holds anything else, and none
/// is empty or too long.
pub proof fn law_every_key_stands_in_a_batch(keys: Seq<KeyView>, cs: Seq<Seq<char>>, size: int, n: int, c: Seq<char>, key: Seq<char>)
    requires
        size > 0,
        0 <= n <= cs.len(),
    ensures
        (exists|i: int|
            0 <= i < batches_of(keys, cs, size, n).len() && (#[trigger] batches_of(keys, cs, size, n)[i]).0 == c && batches_of(
                keys,
                cs,
                size,
                n,
            )[i].1.contains(key)) <==> keys.contains((c, key)) && cs.take(n).contains(c),
        forall|i: int| 0 <= i < batches_of(keys, cs, size, n).len() ==> 0 < (#[trigger] batches_of(keys, cs, size, n)[i]).1.len() <= size,
    decreases n,
{
    let all = batches_of(keys, cs, size, n);
    if n > 0 {
        law_every_key_stands_in_a_batch(keys, cs, size, n - 1, c, key);
        lemma_take_grows(cs, n - 1);
        let before = batches_of(keys, cs, size, n - 1);
        let own = of_collection(keys, cs[n - 1]);
        let pieces = in_pieces(own, size);
        let more = labelled(cs[n - 1], pieces);
        law_pieces_hold_everything_in_order(own, size);
        lemma_pieces_hold(pieces, key);
        lemma_of_collection(keys, cs[n - 1], key);
        assert forall|i: int| 0 <= i < all.len() implies 0 < (#[trigger] all[i]).1.len() <= size by {
            if i < before.len() {
                assert(all[i] == before[i]);
            } else {
                assert(all[i].1 == pieces[i - before.len()]);
            }
        }
        if exists|i: int| 0 <= i < before.len() && (#[trigger] before[i]).0 == c && before[i].1.contains(key) {
            let i = choose|i: int| 0 <= i < before.len() && (#[trigger] before[i]).0 == c && before[i].1.contains(key);
            assert(all[i] == before[i]);
        }
        if c == cs[n - 1] && keys.contains((c, key)) {
            let i = choose|i: int| 0 <= i < pieces.len() && (#[trigger] pieces[i]).contains(key);
            assert(all[before.len() + i] == more[i]);
        }
        if exists|i: int| 0 <= i < all.len() && (#[trigger] all[i]).0 == c && all[i].1.contains(key) {
            let i = choose|i: int| 0 <= i < all.len() && (#[trigger] all[i]).0 == c && all[i].1.contains(key);
            if i < before.len() {
                assert(before[i] == all[i]);
            } else {
                assert(all[i] == more[i - before.len()]);
                assert(pieces[i - before.len()].contains(key));
            }
        }
    } else {
        assert(cs.take(n) =~= Seq::empty());
    }
}

/// A key is cleaned up exactly where it is of no system collection and this node's group is not its
/// owner.
pub proof fn law_cleanup_takes_what_others_own(ring: HashRingView, built: BuiltRingView, own: Seq<char>, k: KeyView)
    requires
        entry_of(ring.shards, node(own)) is Some,
        built.owner(key_hash(k.0, k.1)) is Some,
    ensures
        foreign(ring, built, own, k) <==> !system_name(k.0) && node(built.owner(key_hash(k.0, k.1))->0.node_url) != node(
            entry_of(ring.shards, node(own))->0.node_url,
        ),
{
}

/// A group grows until the next document would not fit: two neighbours are never apart that would
/// fit in one request.
pub proof fn law_groups_are_filled(d: Seq<SizedDocView>, i: int)
    requires
        0 <= i < grouped(d).len() - 1,
    ensures
        size_of(grouped(d)[i]) + grouped(d)[i + 1][0].size > MIGRATE_BATCH_BYTES,
    decreases d.len(),
{
    let rest = d.drop_last();
    let before = grouped(rest);
    let g = grouped(d);
    law_groups_hold_every_document_in_order(rest);
    if before.len() > 0 && size_of(before.last()) + d.last().size <= MIGRATE_BATCH_BYTES {
        law_groups_are_filled(rest, i);
        assert(g[i] == before[i]);
        if i + 1 == before.len() - 1 {
            assert(before[i + 1].len() > 0);
            assert(g[i + 1] == before.last().push(d.last()));
            assert(g[i + 1][0] == before[i + 1][0]);
        } else {
            assert(g[i + 1] == before[i + 1]);
        }
    } else {
        assert(g[i] == before[i]);
        if i + 1 < before.len() {
            law_groups_are_filled(rest, i);
            assert(g[i + 1] == before[i + 1]);
        } else {
            assert(before.last() == before[i]);
            assert(g[i + 1] == seq![d.last()]);
        }
    }
}

/// A handover record that no quorum holds and one that is not durable here are each warned of; one
/// that is held and durable is not.
pub proof fn law_a_weak_record_is_warned_of(holders: Vec<String>, quorum: Configuration, durable: Result<(), String>)
    ensures
        ({
            let done = record_next(RecordPhase::Replicating, RecordEvent::Replicated { holders, quorum, durable }).1;
            let held = quorum@.decided(nodes(texts(holders@)));
            done is Done && done->warnings.len() == (if held { 0int } else { 1 }) + (if durable is Ok { 0int } else { 1 })
        }),
{
}

/// A handover is recorded step by step: the log is opened, the record appended and then replicated; what
/// fails on the way is warned of, and a node without storage records nothing.
pub proof fn law_a_handover_is_recorded_step_by_step(phase: RecordPhase, event: RecordEvent)
    ensures
        ({
            let (after, action) = record_next(phase, event);
            let opened = phase is Opening && event is Opened;
            let appended = phase is Appending && event is Appended;
            &&& opened && event->log is Open ==> action is Append && after is Appending
            &&& opened && event->log is Unusable ==> action is Done && action->warnings.len() == 1
            &&& opened && event->log is NoStorage ==> action is Done && action->warnings.len() == 0
            &&& appended && event->Appended_lsn is Ok ==> action == (RecordActionView::Replicate { lsn: event->Appended_lsn->Ok_0 })
                && after is Replicating
            &&& appended && event->Appended_lsn is Err ==> action is Done && action->warnings.len() == 1
            &&& phase is Appending && event is AppendLost ==> action is Done && action->warnings.len() == 1
        }),
{
}

} // verus!
