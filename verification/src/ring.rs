//! Who owns a key: explicit hash ranges, or a consistent-hash ring.

use crate::endpoint::{names, node, node_key};
use crate::lists::{lemma_joined_hold, lemma_take_grows};
use crate::name_map::NameMap;
use crate::text::{cat2, cat3, cat5, copy_list, decimal, decimal_of, same_lists, same_text, texts, trim, trimmed};
use vstd::prelude::*;
use vstd::utf8::encode_utf8;

verus! {

/// The 64-bit xxHash of some bytes under a seed.
pub uninterp spec fn xxh64_of(input: Seq<u8>, seed: u64) -> u64;

/// `xxhash_rust::xxh64::xxh64`: a pure function of the bytes and the seed, the same on every
/// machine, defined for every input. Which number it gives is left to the name.
pub assume_specification[ xxhash_rust::xxh64::xxh64 ](input: &[u8], seed: u64) -> (r: u64)
    ensures
        r == xxh64_of(input@, seed),
;

/// The hash of a string.
pub open spec fn hash_of(s: Seq<char>) -> u64 {
    xxh64_of(encode_utf8(s), 0)
}

/// The hash of a string.
pub fn hash_text(s: &str) -> (r: u64)
    ensures
        r == hash_of(s@),
{
    xxhash_rust::xxh64::xxh64(s.as_bytes(), 0)
}

/// Where a document lies in the hash space.
pub open spec fn key_hash(collection: Seq<char>, key: Seq<char>) -> u64 {
    hash_of(collection + ":"@ + key)
}

/// Where a document lies in the hash space.
pub fn hash_key(collection: &str, key: &str) -> (r: u64)
    ensures
        r == key_hash(collection@, key@),
{
    hash_text(cat3(collection, ":", key).as_str())
}

// ---- Ranges ----

/// One range of the hash space with its owner. `end_hash` is exclusive; 0 is the top of the space.
#[derive(Debug, PartialEq, Eq)]
pub struct ShardInfo {
    pub start_hash: u64,
    pub end_hash: u64,
    pub node_url: String,
    pub replica_urls: Vec<String>,
}

pub ghost struct ShardInfoView {
    pub start_hash: u64,
    pub end_hash: u64,
    pub node_url: Seq<char>,
    pub replica_urls: Seq<Seq<char>>,
}

impl View for ShardInfo {
    type V = ShardInfoView;

    open spec fn view(&self) -> ShardInfoView {
        ShardInfoView {
            start_hash: self.start_hash,
            end_hash: self.end_hash,
            node_url: self.node_url@,
            replica_urls: texts(self.replica_urls@),
        }
    }
}

impl Clone for ShardInfo {
    fn clone(&self) -> (r: Self)
        ensures
            r@ == self@,
    {
        ShardInfo {
            start_hash: self.start_hash,
            end_hash: self.end_hash,
            node_url: self.node_url.clone(),
            replica_urls: copy_list(&self.replica_urls),
        }
    }
}

impl ShardInfoView {
    /// Whether a hash lies in the range.
    pub open spec fn covers(self, h: u64) -> bool {
        self.start_hash <= h && (self.end_hash == 0 || h < self.end_hash)
    }

    /// Whether the range runs backwards or holds nothing.
    pub open spec fn inverted(self) -> bool {
        self.end_hash != 0 && self.end_hash <= self.start_hash
    }
}

/// The contents of a list of ranges.
pub open spec fn ranges(v: Seq<ShardInfo>) -> Seq<ShardInfoView> {
    Seq::new(v.len(), |i: int| v[i]@)
}

/// A copy of a list of ranges.
pub fn copy_ranges(v: &Vec<ShardInfo>) -> (r: Vec<ShardInfo>)
    ensures
        ranges(r@) == ranges(v@),
{
    let mut out: Vec<ShardInfo> = Vec::new();
    let mut i: usize = 0;
    while i < v.len()
        invariant
            i <= v@.len(),
            out@.len() == i,
            forall|j: int| 0 <= j < i ==> (#[trigger] out@[j])@ == v@[j]@,
        decreases v@.len() - i,
    {
        out.push(v[i].clone());
        i += 1;
    }
    assert(ranges(out@) =~= ranges(v@));
    out
}

/// Some range covers `h`.
pub open spec fn covered(s: Seq<ShardInfoView>, h: u64) -> bool {
    exists|i: int| 0 <= i < s.len() && (#[trigger] s[i]).covers(h)
}

/// No hash lies in two ranges.
pub open spec fn disjoint(s: Seq<ShardInfoView>) -> bool {
    forall|i: int, j: int, h: u64| 0 <= i < j < s.len() ==> !((#[trigger] s[i]).covers(h) && #[trigger] s[j].covers(h))
}

/// No range runs backwards, and every hash lies in exactly one of them.
pub open spec fn partitions(s: Seq<ShardInfoView>) -> bool {
    &&& forall|i: int| 0 <= i < s.len() ==> !(#[trigger] s[i]).inverted()
    &&& disjoint(s)
    &&& forall|h: u64| covered(s, h)
}

/// What is wrong with a list of ranges.
#[derive(Clone, Copy, Debug, PartialEq, Eq, Structural)]
pub enum RangeFault {
    /// The range at this position runs backwards.
    Inverted(usize),
    /// The ranges at these positions overlap.
    Overlap(usize, usize),
    /// No range holds this hash.
    Uncovered(u64),
}

impl RangeFault {
    /// Whether the list has this fault.
    pub open spec fn of(self, s: Seq<ShardInfoView>) -> bool {
        match self {
            RangeFault::Inverted(i) => i < s.len() && s[i as int].inverted(),
            RangeFault::Overlap(i, j) => i < j < s.len()
                && exists|h: u64| s[i as int].covers(h) && #[trigger] s[j as int].covers(h),
            RangeFault::Uncovered(h) => !covered(s, h),
        }
    }
}

fn in_range(s: &ShardInfo, h: u64) -> (r: bool)
    ensures
        r == s@.covers(h),
{
    s.start_hash <= h && (s.end_hash == 0 || h < s.end_hash)
}

/// The position of the range that holds a hash.
pub fn range_owner(shards: &[ShardInfo], h: u64) -> (r: Option<usize>)
    ensures
        match r {
            Some(i) => i < shards@.len() && ranges(shards@)[i as int].covers(h)
                && forall|j: int| 0 <= j < i ==> !(#[trigger] ranges(shards@)[j]).covers(h),
            None => !covered(ranges(shards@), h),
        },
{
    let ghost s = ranges(shards@);
    let mut i: usize = 0;
    while i < shards.len()
        invariant
            s == ranges(shards@),
            i <= shards@.len(),
            forall|j: int| 0 <= j < i ==> !(#[trigger] s[j]).covers(h),
        decreases shards@.len() - i,
    {
        if in_range(&shards[i], h) {
            return Some(i);
        }
        i += 1;
    }
    None
}

/// Where 0 and the end of every range are covered, everything is.
proof fn lemma_covered_upward(s: Seq<ShardInfoView>, h: u64)
    requires
        covered(s, 0),
        forall|i: int| 0 <= i < s.len() && (#[trigger] s[i]).end_hash != 0 ==> covered(s, s[i].end_hash),
    ensures
        covered(s, h),
    decreases h,
{
    if h > 0 {
        let below = (h - 1) as u64;
        lemma_covered_upward(s, below);
        let i = choose|i: int| 0 <= i < s.len() && (#[trigger] s[i]).covers(below);
        if !s[i].covers(h) {
            assert(s[i].end_hash == h);
        } else {
            assert(s[i].covers(h));
        }
    }
}

/// Checks that ranges partition the hash space.
pub fn check_ranges(shards: &[ShardInfo]) -> (r: Result<(), RangeFault>)
    ensures
        r is Ok <==> partitions(ranges(shards@)),
        r is Err ==> r->Err_0.of(ranges(shards@)),
{
    let ghost s = ranges(shards@);
    let mut i: usize = 0;
    while i < shards.len()
        invariant
            s == ranges(shards@),
            i <= shards@.len(),
            forall|j: int| 0 <= j < i ==> !(#[trigger] s[j]).inverted(),
        decreases shards@.len() - i,
    {
        if shards[i].end_hash != 0 && shards[i].end_hash <= shards[i].start_hash {
            assert(s[i as int].inverted());
            return Err(RangeFault::Inverted(i));
        }
        i += 1;
    }
    i = 0;
    while i < shards.len()
        invariant
            s == ranges(shards@),
            i <= shards@.len(),
            forall|j: int| 0 <= j < s.len() ==> !(#[trigger] s[j]).inverted(),
            forall|j: int, k: int, h: u64| 0 <= j < i && j < k < s.len() ==> !((#[trigger] s[j]).covers(h) && #[trigger] s[k].covers(h)),
        decreases shards@.len() - i,
    {
        let mut k: usize = i + 1;
        while k < shards.len()
            invariant
                s == ranges(shards@),
                i < k <= shards@.len(),
                i < shards@.len(),
                forall|j: int| 0 <= j < s.len() ==> !(#[trigger] s[j]).inverted(),
                forall|q: int, h: u64| i < q < k ==> !(s[i as int].covers(h) && #[trigger] s[q].covers(h)),
            decreases shards@.len() - k,
        {
            let a: u64 = shards[i].start_hash;
            let b: u64 = shards[k].start_hash;
            proof {
                assert(!s[i as int].inverted() && !s[k as int].inverted());
            }
            if in_range(&shards[i], b) {
                assert(s[i as int].covers(b) && s[k as int].covers(b));
                assert(!disjoint(s));
                return Err(RangeFault::Overlap(i, k));
            }
            if in_range(&shards[k], a) {
                assert(s[i as int].covers(a) && s[k as int].covers(a));
                assert(!disjoint(s));
                return Err(RangeFault::Overlap(i, k));
            }
            assert forall|h: u64| !(s[i as int].covers(h) && #[trigger] s[k as int].covers(h)) by {}
            k += 1;
        }
        i += 1;
    }
    if range_owner(shards, 0).is_none() {
        assert(!covered(s, 0));
        return Err(RangeFault::Uncovered(0));
    }
    i = 0;
    while i < shards.len()
        invariant
            s == ranges(shards@),
            i <= shards@.len(),
            forall|j: int| 0 <= j < i && (#[trigger] s[j]).end_hash != 0 ==> covered(s, s[j].end_hash),
        decreases shards@.len() - i,
    {
        let end: u64 = shards[i].end_hash;
        if end != 0 && range_owner(shards, end).is_none() {
            assert(!covered(s, end));
            return Err(RangeFault::Uncovered(end));
        }
        i += 1;
    }
    proof {
        assert forall|h: u64| covered(s, h) by {
            lemma_covered_upward(s, h);
        }
    }
    Ok(())
}

/// What an operator is told of a fault.
pub open spec fn fault_text(f: RangeFault, s: Seq<ShardInfoView>) -> Seq<char> {
    match f {
        RangeFault::Inverted(i) => "shard "@ + s[i as int].node_url + " has a range that ends before it starts"@,
        RangeFault::Overlap(i, j) => "shards "@ + s[i as int].node_url + " and "@ + s[j as int].node_url + " overlap"@,
        RangeFault::Uncovered(h) => "the hash space is uncovered from "@ + decimal_of(h as nat),
    }
}

/// Checks that ranges partition the hash space.
pub fn validate_shard_ring(shards: &[ShardInfo]) -> (r: Result<(), String>)
    ensures
        r is Ok <==> partitions(ranges(shards@)),
        r is Err ==> exists|f: RangeFault| f.of(ranges(shards@)) && r->Err_0@ == #[trigger] fault_text(f, ranges(shards@)),
{
    let ghost s = ranges(shards@);
    match check_ranges(shards) {
        Ok(()) => Ok(()),
        Err(f) => {
            let text = match f {
                RangeFault::Inverted(i) => cat3("shard ", shards[i].node_url.as_str(), " has a range that ends before it starts"),
                RangeFault::Overlap(i, j) => cat5(
                    "shards ",
                    shards[i].node_url.as_str(),
                    " and ",
                    shards[j].node_url.as_str(),
                    " overlap",
                ),
                RangeFault::Uncovered(h) => cat2("the hash space is uncovered from ", decimal(h).as_str()),
            };
            assert(text@ == fault_text(f, s));
            Err(text)
        },
    }
}

/// In a valid map every key has one owner, and no other.
pub proof fn law_every_hash_has_one_owner(s: Seq<ShardInfoView>, h: u64) -> (i: int)
    requires
        partitions(s),
    ensures
        0 <= i < s.len() && s[i].covers(h),
        forall|j: int| 0 <= j < s.len() && (#[trigger] s[j]).covers(h) ==> j == i,
{
    assert(covered(s, h));
    let i = choose|i: int| 0 <= i < s.len() && (#[trigger] s[i]).covers(h);
    assert forall|j: int| 0 <= j < s.len() && (#[trigger] s[j]).covers(h) implies j == i by {
        if i < j {
            assert(!(s[i].covers(h) && s[j].covers(h)));
        } else if j < i {
            assert(!(s[j].covers(h) && s[i].covers(h)));
        }
    }
    i
}

// ---- The ring ----

/// One shard group of a ring: its primary and its replicas.
#[derive(Debug, PartialEq, Eq)]
pub struct RingShard {
    pub node_url: String,
    pub replica_urls: Vec<String>,
}

pub ghost struct RingShardView {
    pub node_url: Seq<char>,
    pub replica_urls: Seq<Seq<char>>,
}

impl View for RingShard {
    type V = RingShardView;

    open spec fn view(&self) -> RingShardView {
        RingShardView { node_url: self.node_url@, replica_urls: texts(self.replica_urls@) }
    }
}

impl Clone for RingShard {
    fn clone(&self) -> (r: Self)
        ensures
            r@ == self@,
    {
        RingShard { node_url: self.node_url.clone(), replica_urls: copy_list(&self.replica_urls) }
    }
}

/// The contents of a list of shard groups.
pub open spec fn groups(v: Seq<RingShard>) -> Seq<RingShardView> {
    Seq::new(v.len(), |i: int| v[i]@)
}

/// A copy of a list of shard groups.
pub fn copy_groups(v: &Vec<RingShard>) -> (r: Vec<RingShard>)
    ensures
        groups(r@) == groups(v@),
{
    let mut out: Vec<RingShard> = Vec::new();
    let mut i: usize = 0;
    while i < v.len()
        invariant
            i <= v@.len(),
            out@.len() == i,
            forall|j: int| 0 <= j < i ==> (#[trigger] out@[j])@ == v@[j]@,
        decreases v@.len() - i,
    {
        out.push(v[i].clone());
        i += 1;
    }
    assert(groups(out@) =~= groups(v@));
    out
}

/// Consistent-hash ownership: every group has `vnodes` tokens on the ring.
#[derive(Debug, PartialEq, Eq)]
pub struct HashRing {
    pub vnodes: usize,
    pub shards: Vec<RingShard>,
}

pub ghost struct HashRingView {
    pub vnodes: usize,
    pub shards: Seq<RingShardView>,
}

impl View for HashRing {
    type V = HashRingView;

    open spec fn view(&self) -> HashRingView {
        HashRingView { vnodes: self.vnodes, shards: groups(self.shards@) }
    }
}

impl Clone for HashRing {
    fn clone(&self) -> (r: Self)
        ensures
            r@ == self@,
    {
        HashRing { vnodes: self.vnodes, shards: copy_groups(&self.shards) }
    }
}

/// Whether two rings are written alike.
pub fn same_ring(a: &HashRing, b: &HashRing) -> (r: bool)
    ensures
        r == (a@ == b@),
{
    if a.vnodes != b.vnodes {
        return false;
    }
    if a.shards.len() != b.shards.len() {
        assert(a@.shards.len() != b@.shards.len());
        return false;
    }
    let mut i: usize = 0;
    while i < a.shards.len()
        invariant
            a.shards@.len() == b.shards@.len(),
            i <= a.shards@.len(),
            forall|j: int| 0 <= j < i ==> (#[trigger] a.shards@[j])@ == b.shards@[j]@,
        decreases a.shards@.len() - i,
    {
        if !same_text(a.shards[i].node_url.as_str(), b.shards[i].node_url.as_str())
            || !same_lists(&a.shards[i].replica_urls, &b.shards[i].replica_urls) {
            assert(a@.shards[i as int] != b@.shards[i as int]);
            return false;
        }
        i += 1;
    }
    assert(a@.shards =~= b@.shards);
    true
}

/// The URLs of the primaries.
pub open spec fn primaries(s: Seq<RingShardView>) -> Seq<Seq<char>> {
    Seq::new(s.len(), |i: int| s[i].node_url)
}

impl HashRingView {
    /// Why a ring cannot be used, if it cannot: the first of these that holds.
    pub open spec fn fault(self) -> Option<Seq<char>> {
        if self.vnodes == 0 {
            Some("ring vnodes must be at least 1"@)
        } else if self.shards.len() == 0 {
            Some("ring must name at least one shard"@)
        } else {
            shard_fault(self.shards, self.shards.len() as int)
        }
    }

    /// The token of one virtual node.
    pub open spec fn token(self, shard: int, vnode: int) -> u64 {
        hash_of(node(self.shards[shard].node_url) + "#"@ + decimal_of(vnode as nat))
    }

    /// Every token with the position of its group.
    pub open spec fn tokens(self) -> Seq<(u64, int)> {
        self.tokens_to(self.shards.len() as int)
    }

    /// The tokens of the first `n` groups.
    pub open spec fn tokens_to(self, n: int) -> Seq<(u64, int)>
        decreases n,
    {
        if n <= 0 {
            Seq::empty()
        } else {
            self.tokens_to(n - 1) + Seq::new(self.vnodes as nat, |v: int| (self.token(n - 1, v), n - 1))
        }
    }
}

/// The fault of the first of `n` groups that has one.
pub open spec fn shard_fault(s: Seq<RingShardView>, n: int) -> Option<Seq<char>>
    decreases n,
{
    if n <= 0 {
        None
    } else if shard_fault(s, n - 1) is Some {
        shard_fault(s, n - 1)
    } else if trim(s[n - 1].node_url).len() == 0 {
        Some("ring shard url must not be empty"@)
    } else if names(primaries(s).take(n - 1), node(s[n - 1].node_url)) {
        Some("ring names "@ + s[n - 1].node_url + " more than once"@)
    } else {
        None
    }
}

/// `None` for `Ok`, the message for `Err`.
pub open spec fn complaint(r: Result<(), String>) -> Option<Seq<char>> {
    match r {
        Ok(_) => None,
        Err(e) => Some(e@),
    }
}

impl HashRing {
    pub fn validate(&self) -> (r: Result<(), String>)
        ensures
            complaint(r) == self@.fault(),
    {
        if self.vnodes == 0 {
            return Err("ring vnodes must be at least 1".to_owned());
        }
        if self.shards.len() == 0 {
            return Err("ring must name at least one shard".to_owned());
        }
        let ghost s = self@.shards;
        let mut seen: NameMap<bool> = NameMap::new();
        let mut i: usize = 0;
        while i < self.shards.len()
            invariant
                s == groups(self.shards@),
                self@.shards == s,
                self.vnodes > 0,
                self.shards@.len() > 0,
                i <= self.shards@.len(),
                shard_fault(s, i as int) is None,
                forall|n: Seq<char>| #[trigger] seen@.dom().contains(n) <==> names(primaries(s).take(i as int), n),
            decreases self.shards@.len() - i,
        {
            let url = self.shards[i].node_url.as_str();
            assert(s[i as int].node_url == url@);
            if trimmed(url).as_str().is_empty() {
                proof {
                    lemma_first_fault(s, i as int);
                }
                return Err("ring shard url must not be empty".to_owned());
            }
            let key = node_key(url);
            if seen.holds(key.as_str()) {
                proof {
                    lemma_first_fault(s, i as int);
                }
                return Err(cat3("ring names ", url, " more than once"));
            }
            proof {
                let ps = primaries(s);
                assert(ps.take(i + 1) =~= ps.take(i as int).push(ps[i as int]));
                crate::endpoint::lemma_nodes_push(ps.take(i as int), ps[i as int]);
                assert forall|n: Seq<char>| names(ps.take(i + 1), n) <==> names(ps.take(i as int), n) || n == key@ by {
                    assert(crate::endpoint::nodes(ps.take(i + 1)).contains(n) <==> crate::endpoint::nodes(ps.take(i as int)).insert(key@).contains(n));
                }
            }
            seen.insert(key, true);
            i += 1;
        }
        Ok(())
    }

    /// Places every virtual node on the ring.
    pub fn build(&self) -> (r: BuiltRing)
        ensures
            built_from(self@, r@),
    {
        let ghost ring = self@;
        let mut tokens: Vec<(u64, usize)> = Vec::new();
        let mut i: usize = 0;
        proof {
            assert(positions(tokens@) =~= Seq::empty());
        }
        while i < self.shards.len()
            invariant
                ring == self@,
                i <= self.shards@.len(),
                positions(tokens@).to_multiset() == ring.tokens_to(i as int).to_multiset(),
                in_token_order(positions(tokens@)),
                forall|j: int| 0 <= j < tokens@.len() ==> (#[trigger] tokens@[j]).1 < i,
            decreases self.shards@.len() - i,
        {
            let key = node_key(self.shards[i].node_url.as_str());
            let ghost own = Seq::new(ring.vnodes as nat, |v: int| (ring.token(i as int, v), i as int));
            let mut v: usize = 0;
            proof {
                assert(own.take(0) =~= Seq::empty());
                assert(ring.tokens_to(i as int) + own.take(0) =~= ring.tokens_to(i as int));
            }
            while v < self.vnodes
                invariant
                    ring == self@,
                    i < self.shards@.len(),
                    key@ == node(ring.shards[i as int].node_url),
                    own == Seq::new(ring.vnodes as nat, |v: int| (ring.token(i as int, v), i as int)),
                    v <= self.vnodes,
                    positions(tokens@).to_multiset() == (ring.tokens_to(i as int) + own.take(v as int)).to_multiset(),
                    in_token_order(positions(tokens@)),
                    forall|j: int| 0 <= j < tokens@.len() ==> (#[trigger] tokens@[j]).1 <= i,
                decreases self.vnodes - v,
            {
                let t = hash_text(cat3(key.as_str(), "#", decimal(v as u64).as_str()).as_str());
                let ghost before = positions(tokens@);
                let ghost so_far = ring.tokens_to(i as int) + own.take(v as int);
                insert_token(&mut tokens, t, i);
                proof {
                    lemma_take_grows(own, v as int);
                    assert(own[v as int] == (t, i as int));
                    assert(ring.tokens_to(i as int) + own.take(v + 1) =~= so_far.push((t, i as int)));
                    vstd::seq_lib::to_multiset_build(so_far, (t, i as int));
                }
                v += 1;
            }
            proof {
                assert(own.take(own.len() as int) =~= own);
            }
            i += 1;
        }
        let shards = copy_groups(&self.shards);
        assert(groups(shards@).len() == groups(self.shards@).len());
        BuiltRing { tokens, shards }
    }
}

proof fn lemma_first_fault(s: Seq<RingShardView>, i: int)
    requires
        0 <= i < s.len(),
        shard_fault(s, i) is None,
        shard_fault(s, i + 1) is Some,
    ensures
        shard_fault(s, s.len() as int) == shard_fault(s, i + 1),
{
    lemma_fault_stays(s, i + 1, s.len() as int);
}

proof fn lemma_fault_stays(s: Seq<RingShardView>, i: int, n: int)
    requires
        0 <= i <= n,
        shard_fault(s, i) is Some,
    ensures
        shard_fault(s, n) == shard_fault(s, i),
    decreases n - i,
{
    if i < n {
        lemma_fault_stays(s, i, n - 1);
    }
}

/// `b` is a ring with every virtual node of `ring` in its place.
pub open spec fn built_from(ring: HashRingView, b: BuiltRingView) -> bool {
    &&& b.shards == ring.shards
    &&& b.tokens.to_multiset() == ring.tokens().to_multiset()
    &&& in_token_order(b.tokens)
}

/// A ring is built in one way only.
pub proof fn law_a_ring_is_built_in_one_way(ring: HashRingView, a: BuiltRingView, b: BuiltRingView)
    requires
        built_from(ring, a),
        built_from(ring, b),
    ensures
        a == b,
{
    let leq = |x: (u64, int), y: (u64, int)| token_le(x, y);
    assert(vstd::relations::sorted_by(a.tokens, leq));
    assert(vstd::relations::sorted_by(b.tokens, leq));
    assert(vstd::relations::total_ordering(leq)) by {
        assert forall|x: (u64, int), y: (u64, int)| #[trigger] leq(x, y) && #[trigger] leq(y, x) implies x == y by {}
        assert forall|x: (u64, int), y: (u64, int)| #[trigger] leq(x, y) || #[trigger] leq(y, x) by {}
        assert forall|x: (u64, int)| #[trigger] leq(x, x) by {}
        assert forall|x: (u64, int), y: (u64, int), z: (u64, int)| #[trigger] leq(x, y) && #[trigger] leq(y, z) implies leq(x, z) by {}
    }
    vstd::seq_lib::lemma_sorted_unique(a.tokens, b.tokens, leq);
}

/// Tokens with positions, by value.
pub open spec fn positions(t: Seq<(u64, usize)>) -> Seq<(u64, int)> {
    Seq::new(t.len(), |i: int| (t[i].0, t[i].1 as int))
}

/// One placed token comes no later than another: the token decides, then the group.
pub open spec fn token_le(a: (u64, int), b: (u64, int)) -> bool {
    a.0 < b.0 || (a.0 == b.0 && a.1 <= b.1)
}

/// Placed tokens from the bottom of the hash space up.
pub open spec fn in_token_order(t: Seq<(u64, int)>) -> bool {
    forall|i: int, j: int| 0 <= i < j < t.len() ==> token_le(#[trigger] t[i], #[trigger] t[j])
}

fn insert_token(tokens: &mut Vec<(u64, usize)>, t: u64, shard: usize)
    requires
        in_token_order(positions(old(tokens)@)),
        forall|j: int| 0 <= j < old(tokens)@.len() ==> (#[trigger] old(tokens)@[j]).1 <= shard,
    ensures
        in_token_order(positions(final(tokens)@)),
        positions(final(tokens)@).to_multiset() == positions(old(tokens)@).to_multiset().insert((t, shard as int)),
        forall|j: int| 0 <= j < final(tokens)@.len() ==> (#[trigger] final(tokens)@[j]).1 <= shard,
{
    let ghost p = positions(tokens@);
    let mut lo: usize = 0;
    let mut hi: usize = tokens.len();
    while lo < hi
        invariant
            p == positions(tokens@),
            *tokens == *old(tokens),
            in_token_order(p),
            forall|j: int| 0 <= j < tokens@.len() ==> (#[trigger] tokens@[j]).1 <= shard,
            lo <= hi <= tokens@.len(),
            forall|j: int| 0 <= j < lo ==> (#[trigger] p[j]).0 <= t,
            forall|j: int| hi <= j < p.len() ==> (#[trigger] p[j]).0 > t,
        decreases hi - lo,
    {
        let mid: usize = lo + (hi - lo) / 2;
        if tokens[mid].0 <= t {
            assert forall|j: int| 0 <= j < mid + 1 implies (#[trigger] p[j]).0 <= t by {
                if j < mid {
                    assert(token_le(p[j], p[mid as int]));
                }
            }
            lo = mid + 1;
        } else {
            assert forall|j: int| mid <= j < p.len() implies (#[trigger] p[j]).0 > t by {
                if j > mid {
                    assert(token_le(p[mid as int], p[j]));
                }
            }
            hi = mid;
        }
    }
    tokens.insert(lo, (t, shard));
    proof {
        let q = positions(tokens@);
        assert(q =~= p.insert(lo as int, (t, shard as int)));
        vstd::seq_lib::to_multiset_insert(p, lo as int, (t, shard as int));
        assert forall|i: int, j: int| 0 <= i < j < q.len() implies token_le(#[trigger] q[i], #[trigger] q[j]) by {
            if j == lo {
                assert(q[i] == p[i]);
                assert(old(tokens)@[i].1 <= shard);
            } else if i == lo {
                assert(q[j] == p[j - 1]);
            } else {
                let a = if i < lo { i } else { i - 1 };
                let b = if j < lo { j } else { j - 1 };
                assert(q[i] == p[a] && q[j] == p[b]);
            }
        }
        assert forall|j: int| 0 <= j < tokens@.len() implies (#[trigger] tokens@[j]).1 <= shard by {
            if j != lo {
                let a = if j < lo { j } else { j - 1 };
                assert(tokens@[j] == old(tokens)@[a]);
            }
        }
    }
}

/// A ring with its virtual nodes placed.
pub struct BuiltRing {
    tokens: Vec<(u64, usize)>,
    shards: Vec<RingShard>,
}

pub ghost struct BuiltRingView {
    pub tokens: Seq<(u64, int)>,
    pub shards: Seq<RingShardView>,
}

impl View for BuiltRing {
    type V = BuiltRingView;

    closed spec fn view(&self) -> BuiltRingView {
        BuiltRingView { tokens: positions(self.tokens@), shards: groups(self.shards@) }
    }
}

impl BuiltRingView {
    /// The position of the group that owns a hash: that of the first token at or above it, going
    /// round to the bottom past the last one.
    pub open spec fn owner_at(self, h: u64) -> Option<int> {
        if self.tokens.len() == 0 {
            None
        } else {
            Some(self.tokens[first_at_or_above(self.tokens, h)].1)
        }
    }

    /// The group that owns a hash.
    pub open spec fn owner(self, h: u64) -> Option<RingShardView> {
        match self.owner_at(h) {
            Some(i) => Some(self.shards[i]),
            None => None,
        }
    }
}

/// The first token at or above `h`, or the very first.
pub open spec fn first_at_or_above(t: Seq<(u64, int)>, h: u64) -> int {
    if exists|i: int| is_first(t, h, i) {
        choose|i: int| is_first(t, h, i)
    } else {
        0
    }
}

/// The token at `i` is the first at or above `h`.
pub open spec fn is_first(t: Seq<(u64, int)>, h: u64, i: int) -> bool {
    0 <= i < t.len() && t[i].0 >= h && forall|j: int| 0 <= j < i ==> (#[trigger] t[j]).0 < h
}

impl BuiltRing {
    #[verifier::type_invariant]
    spec fn placed(self) -> bool {
        &&& in_token_order(positions(self.tokens@))
        &&& forall|i: int| 0 <= i < self.tokens@.len() ==> (#[trigger] self.tokens@[i]).1 < self.shards@.len()
    }

    /// The group that owns a hash; `None` on a ring without tokens.
    pub fn owner(&self, h: u64) -> (r: Option<&RingShard>)
        ensures
            match r {
                Some(s) => self@.owner(h) == Some(s@),
                None => self@.owner(h) is None,
            },
    {
        let ghost t = self@.tokens;
        proof {
            use_type_invariant(self);
        }
        if self.tokens.len() == 0 {
            return None;
        }
        let mut lo: usize = 0;
        let mut hi: usize = self.tokens.len();
        while lo < hi
            invariant
                t == positions(self.tokens@),
                in_token_order(t),
                lo <= hi <= t.len(),
                forall|j: int| 0 <= j < lo ==> (#[trigger] t[j]).0 < h,
                forall|j: int| hi <= j < t.len() ==> (#[trigger] t[j]).0 >= h,
            decreases hi - lo,
        {
            let mid: usize = lo + (hi - lo) / 2;
            if self.tokens[mid].0 < h {
                assert forall|j: int| 0 <= j < mid + 1 implies (#[trigger] t[j]).0 < h by {
                    if j < mid {
                        assert(token_le(t[j], t[mid as int]));
                    }
                }
                lo = mid + 1;
            } else {
                assert forall|j: int| mid <= j < t.len() implies (#[trigger] t[j]).0 >= h by {
                    if j > mid {
                        assert(token_le(t[mid as int], t[j]));
                    }
                }
                hi = mid;
            }
        }
        let at: usize = if lo == self.tokens.len() { 0 } else { lo };
        proof {
            if lo < t.len() {
                assert(is_first(t, h, lo as int));
                let c = first_at_or_above(t, h);
                assert(is_first(t, h, c));
                if c < lo {
                    assert(t[c].0 < h);
                }
                if lo < c {
                    assert(t[lo as int].0 < h);
                }
            } else {
                assert forall|i: int| !is_first(t, h, i) by {
                    if 0 <= i < t.len() {
                        assert(t[i].0 < h);
                    }
                }
            }
        }
        Some(&self.shards[self.tokens[at].1])
    }

    /// The tokens, from the bottom of the hash space up.
    pub fn token_hashes(&self) -> (r: Vec<u64>)
        ensures
            r@.len() == self@.tokens.len(),
            forall|i: int| 0 <= i < r@.len() ==> #[trigger] r@[i] == self@.tokens[i].0,
            in_token_order(self@.tokens),
    {
        proof {
            use_type_invariant(self);
        }
        let mut out: Vec<u64> = Vec::new();
        let mut i: usize = 0;
        while i < self.tokens.len()
            invariant
                i <= self.tokens@.len(),
                out@.len() == i,
                forall|j: int| 0 <= j < i ==> #[trigger] out@[j] == self@.tokens[j].0,
            decreases self.tokens@.len() - i,
        {
            out.push(self.tokens[i].0);
            i += 1;
        }
        out
    }

    /// The groups of the ring.
    pub fn shards(&self) -> (r: &Vec<RingShard>)
        ensures
            groups(r@) == self@.shards,
    {
        &self.shards
    }
}

proof fn lemma_tokens(ring: HashRingView, n: int)
    requires
        0 <= n <= ring.shards.len(),
    ensures
        forall|i: int| 0 <= i < ring.tokens_to(n).len() ==> 0 <= (#[trigger] ring.tokens_to(n)[i]).1 < n,
        n > 0 && ring.vnodes > 0 ==> ring.tokens_to(n).len() > 0,
    decreases n,
{
    if n > 0 {
        lemma_tokens(ring, n - 1);
        let before = ring.tokens_to(n - 1);
        let last = Seq::new(ring.vnodes as nat, |v: int| (ring.token(n - 1, v), n - 1));
        let all = ring.tokens_to(n);
        assert(all == before + last);
        assert forall|i: int| 0 <= i < all.len() implies 0 <= (#[trigger] all[i]).1 < n by {
            if i < before.len() {
                assert(all[i] == before[i]);
            } else {
                assert(all[i] == last[i - before.len()]);
            }
        }
    }
}

/// On a ring that can be used every hash has an owner, which is one of its groups.
pub proof fn law_a_built_ring_owns_every_hash(ring: HashRingView, b: BuiltRingView, h: u64)
    requires
        built_from(ring, b),
        ring.fault() is None,
    ensures
        b.owner_at(h) is Some,
        0 <= b.owner_at(h)->0 < b.shards.len(),
        b.owner(h) == Some(b.shards[b.owner_at(h)->0]),
{
    let all = ring.tokens();
    lemma_tokens(ring, ring.shards.len() as int);
    all.to_multiset_ensures();
    b.tokens.to_multiset_ensures();
    assert(b.tokens.len() == all.len());
    let at = first_at_or_above(b.tokens, h);
    assert(0 <= at < b.tokens.len());
    let x = b.tokens[at];
    assert(b.tokens.contains(x));
    assert(b.tokens.to_multiset().contains(x));
    assert(all.to_multiset().contains(x));
    assert(all.contains(x));
    let k = choose|k: int| 0 <= k < all.len() && all[k] == x;
    assert(0 <= all[k].1 < ring.shards.len());
}

/// The groups of a ring are in order exactly where each has a primary and no node is the primary of
/// two.
pub proof fn law_groups_are_judged_one_by_one(s: Seq<RingShardView>, n: int)
    requires
        0 <= n <= s.len(),
    ensures
        shard_fault(s, n) is None <==> {
            &&& forall|i: int| 0 <= i < n ==> trim((#[trigger] s[i]).node_url).len() > 0
            &&& forall|i: int, j: int| 0 <= i < j < n ==> node((#[trigger] s[i]).node_url) != node((#[trigger] s[j]).node_url)
        },
    decreases n,
{
    if n > 0 {
        law_groups_are_judged_one_by_one(s, n - 1);
        let before = primaries(s).take(n - 1);
        if names(before, node(s[n - 1].node_url)) {
            let i = choose|i: int| 0 <= i < before.len() && node(#[trigger] before[i]) == node(s[n - 1].node_url);
            assert(before[i] == s[i].node_url);
        } else {
            assert forall|i: int| 0 <= i < n - 1 implies node((#[trigger] s[i]).node_url) != node(s[n - 1].node_url) by {
                assert(before[i] == s[i].node_url);
            }
        }
    }
}

/// Every group has each of its tokens on the ring, and nothing else is there.
pub proof fn law_every_group_has_all_its_tokens(ring: HashRingView, n: int, t: u64, shard: int)
    requires
        0 <= n <= ring.shards.len(),
    ensures
        ring.tokens_to(n).contains((t, shard)) <==> 0 <= shard < n && exists|v: int| 0 <= v < ring.vnodes && t == #[trigger] ring.token(shard, v),
        ring.tokens_to(n).len() == n * ring.vnodes,
    decreases n,
{
    lemma_joined_hold::<(u64, int)>();
    if n > 0 {
        law_every_group_has_all_its_tokens(ring, n - 1, t, shard);
        let own = Seq::new(ring.vnodes as nat, |v: int| (ring.token(n - 1, v), n - 1));
        assert(ring.tokens_to(n) == ring.tokens_to(n - 1) + own);
        assert(ring.tokens_to(n).contains((t, shard)) <==> ring.tokens_to(n - 1).contains((t, shard)) || own.contains((t, shard)));
        if own.contains((t, shard)) {
            let v = choose|v: int| 0 <= v < own.len() && own[v] == (t, shard);
            assert(t == ring.token(shard, v));
        }
        if shard == n - 1 && exists|v: int| 0 <= v < ring.vnodes && t == #[trigger] ring.token(shard, v) {
            let v = choose|v: int| 0 <= v < ring.vnodes && t == #[trigger] ring.token(shard, v);
            assert(own[v] == (t, shard));
        }
        assert(n * ring.vnodes == (n - 1) * ring.vnodes + ring.vnodes) by (nonlinear_arith);
    } else {
        assert(0 * ring.vnodes == 0);
    }
}

/// Where a group stands on a ring is a matter of which node leads it, not of how that is spelled or
/// of its replicas.
pub proof fn law_tokens_go_by_the_node(a: HashRingView, b: HashRingView, n: int)
    requires
        a.vnodes == b.vnodes,
        a.shards.len() == b.shards.len(),
        0 <= n <= a.shards.len(),
        forall|i: int| 0 <= i < a.shards.len() ==> node((#[trigger] a.shards[i]).node_url) == node(b.shards[i].node_url),
    ensures
        a.tokens_to(n) == b.tokens_to(n),
    decreases n,
{
    if n > 0 {
        law_tokens_go_by_the_node(a, b, n - 1);
        assert(node(a.shards[n - 1].node_url) == node(b.shards[n - 1].node_url));
        assert(Seq::new(a.vnodes as nat, |v: int| (a.token(n - 1, v), n - 1)) =~= Seq::new(
            b.vnodes as nat,
            |v: int| (b.token(n - 1, v), n - 1),
        ));
    }
}

/// A hash belongs to the next token on the ring at or above it, and past the last token to the
/// first.
pub proof fn law_a_hash_belongs_to_the_next_token(t: Seq<(u64, int)>, h: u64)
    requires
        t.len() > 0,
    ensures
        ({
            let i = first_at_or_above(t, h);
            &&& 0 <= i < t.len()
            &&& (exists|j: int| 0 <= j < t.len() && (#[trigger] t[j]).0 >= h) ==> t[i].0 >= h && forall|j: int| 0 <= j < i ==> (#[trigger] t[j]).0 < h
            &&& (forall|j: int| 0 <= j < t.len() ==> (#[trigger] t[j]).0 < h) ==> i == 0
        }),
{
    if exists|j: int| 0 <= j < t.len() && (#[trigger] t[j]).0 >= h {
        let j = choose|j: int| 0 <= j < t.len() && (#[trigger] t[j]).0 >= h;
        lemma_some_first(t, h, j);
    }
}

proof fn lemma_some_first(t: Seq<(u64, int)>, h: u64, j: int)
    requires
        0 <= j < t.len(),
        t[j].0 >= h,
    ensures
        exists|i: int| is_first(t, h, i),
    decreases j,
{
    if exists|k: int| 0 <= k < j && (#[trigger] t[k]).0 >= h {
        let k = choose|k: int| 0 <= k < j && (#[trigger] t[k]).0 >= h;
        lemma_some_first(t, h, k);
    } else {
        assert(is_first(t, h, j));
    }
}

} // verus!
