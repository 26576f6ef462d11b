//! Quorum arithmetic over a configuration, and the log it travels in.

use crate::endpoint::{lemma_nodes_push, list_names, names, node, nodes};
use crate::lists::lemma_joined_hold;
use crate::text::{chars_of, copy_list, finishes_with, has_suffix, lower, lowered, pieces, same_text, split, texts};
use vstd::prelude::*;
use vstd::utf8::encode_utf8;

verus! {

/// The collection whose log carries configuration entries: one per shard group, replicated and
/// committed on the ordinary path. Reserved, so `_`-prefixed names are refused on the public API.
pub const CONFIG_LOG: &'static str = "_config";

pub const MAX_COLLECTION_NAME_LEN: usize = 128;

/// More than half of `n`.
pub open spec fn majority_of(n: nat) -> nat {
    n / 2 + 1
}

/// How many votes a group of this size needs. The group counts this node: peers must exclude it,
/// or the threshold inflates.
pub fn majority(cluster_size: usize) -> (r: usize)
    ensures
        r == majority_of(cluster_size as nat),
{
    cluster_size / 2 + 1
}

// ---- Collection names ----

/// Whether a name belongs to the system rather than to a client.
pub open spec fn system_name(name: Seq<char>) -> bool {
    name.len() > 0 && name[0] == '_'
}

pub fn is_system_collection(name: &str) -> (r: bool)
    ensures
        r == system_name(name@),
{
    let chars = chars_of(name);
    chars.len() > 0 && chars[0] == '_'
}

/// A name that Win32 resolves to a device in any directory.
pub open spec fn device_name(s: Seq<char>) -> bool {
    ||| s == "con"@ || s == "prn"@ || s == "aux"@ || s == "nul"@
    ||| s == "com1"@ || s == "com2"@ || s == "com3"@ || s == "com4"@ || s == "com5"@
    ||| s == "com6"@ || s == "com7"@ || s == "com8"@ || s == "com9"@
    ||| s == "lpt1"@ || s == "lpt2"@ || s == "lpt3"@ || s == "lpt4"@ || s == "lpt5"@
    ||| s == "lpt6"@ || s == "lpt7"@ || s == "lpt8"@ || s == "lpt9"@
}

/// Win32 ignores the extension and the letter case, so the stem in lower case decides.
pub open spec fn windows_reserved(name: Seq<char>) -> bool {
    device_name(lower(pieces(name, '.')[0]))
}

fn is_windows_reserved(name: &str) -> (r: bool)
    ensures
        r == windows_reserved(name@),
{
    let parts = split(name, '.');
    assert(texts(parts@)[0] == parts@[0]@);
    let low = lowered(parts[0].as_str());
    let s = low.as_str();
    same_text(s, "con") || same_text(s, "prn") || same_text(s, "aux") || same_text(s, "nul")
        || same_text(s, "com1") || same_text(s, "com2") || same_text(s, "com3") || same_text(s, "com4")
        || same_text(s, "com5") || same_text(s, "com6") || same_text(s, "com7") || same_text(s, "com8")
        || same_text(s, "com9") || same_text(s, "lpt1") || same_text(s, "lpt2") || same_text(s, "lpt3")
        || same_text(s, "lpt4") || same_text(s, "lpt5") || same_text(s, "lpt6") || same_text(s, "lpt7")
        || same_text(s, "lpt8") || same_text(s, "lpt9")
}

/// The characters that a collection name is made of.
pub open spec fn name_char(c: char) -> bool {
    ('a' <= c && c <= 'z') || ('0' <= c && c <= '9') || c == '_' || c == '-' || c == '.'
}

/// Replicated identity and a directory name: lowercase only, so no two valid names alias on a
/// case-insensitive filesystem; `.`-prefixed and `.tmp` / `.old` read as staging, not collections.
pub open spec fn valid_name(name: Seq<char>) -> bool {
    &&& name.len() > 0
    &&& encode_utf8(name).len() <= MAX_COLLECTION_NAME_LEN
    &&& name[0] != '.'
    &&& name.last() != '.'
    &&& !finishes_with(name, ".tmp"@)
    &&& !finishes_with(name, ".old"@)
    &&& !windows_reserved(name)
    &&& forall|i: int| 0 <= i < name.len() ==> name_char(#[trigger] name[i])
}

fn all_name_chars(chars: &Vec<char>) -> (r: bool)
    ensures
        r == (forall|i: int| 0 <= i < chars@.len() ==> name_char(#[trigger] chars@[i])),
{
    let mut i: usize = 0;
    while i < chars.len()
        invariant
            i <= chars@.len(),
            forall|j: int| 0 <= j < i ==> name_char(#[trigger] chars@[j]),
        decreases chars@.len() - i,
    {
        let c: char = chars[i];
        if !(('a' <= c && c <= 'z') || ('0' <= c && c <= '9') || c == '_' || c == '-' || c == '.') {
            assert(!name_char(chars@[i as int]));
            return false;
        }
        i += 1;
    }
    true
}

pub fn valid_collection_name(name: &str) -> (r: bool)
    ensures
        r == valid_name(name@),
{
    let chars = chars_of(name);
    if chars.len() == 0 {
        return false;
    }
    name.as_bytes().len() <= MAX_COLLECTION_NAME_LEN
        && chars[0] != '.'
        && chars[chars.len() - 1] != '.'
        && !has_suffix(name, ".tmp")
        && !has_suffix(name, ".old")
        && !is_windows_reserved(name)
        && all_name_chars(&chars)
}

// ---- One entry per node ----

/// The URLs of a list, without those whose node an earlier one names.
pub open spec fn canon(urls: Seq<Seq<char>>) -> Seq<Seq<char>>
    decreases urls.len(),
{
    if urls.len() == 0 {
        Seq::empty()
    } else {
        let before = canon(urls.drop_last());
        if names(before, node(urls.last())) { before } else { before.push(urls.last()) }
    }
}

/// No two URLs of a list name one node.
pub open spec fn one_per_node(urls: Seq<Seq<char>>) -> bool {
    forall|i: int, j: int| 0 <= i < j < urls.len() ==> node(#[trigger] urls[i]) != node(#[trigger] urls[j])
}

/// Dropping repeated nodes keeps the nodes, each once.
pub proof fn law_canon_names_each_node_once(urls: Seq<Seq<char>>)
    ensures
        nodes(canon(urls)) == nodes(urls),
        one_per_node(canon(urls)),
        nodes(urls).finite(),
        nodes(urls).len() == canon(urls).len(),
        canon(urls).len() <= urls.len(),
    decreases urls.len(),
{
    if urls.len() == 0 {
        assert(nodes(urls) =~= Set::<Seq<char>>::empty());
    } else {
        let rest = urls.drop_last();
        let before = canon(rest);
        law_canon_names_each_node_once(rest);
        assert(urls =~= rest.push(urls.last()));
        lemma_nodes_push(rest, urls.last());
        lemma_nodes_push(before, urls.last());
        if names(before, node(urls.last())) {
            assert(nodes(rest).contains(node(urls.last())));
            assert(nodes(urls) =~= nodes(rest));
        } else {
            assert(!nodes(before).contains(node(urls.last())));
        }
    }
}

/// A list that names each node once is left as it is.
pub proof fn law_canon_is_idempotent(urls: Seq<Seq<char>>)
    ensures
        one_per_node(urls) ==> canon(urls) == urls,
        canon(canon(urls)) == canon(urls),
    decreases urls.len(),
{
    law_canon_names_each_node_once(urls);
    lemma_canon_keeps(urls);
    lemma_canon_keeps(canon(urls));
}

proof fn lemma_canon_keeps(urls: Seq<Seq<char>>)
    ensures
        one_per_node(urls) ==> canon(urls) == urls,
    decreases urls.len(),
{
    if urls.len() > 0 && one_per_node(urls) {
        let rest = urls.drop_last();
        assert(one_per_node(rest)) by {
            assert forall|i: int, j: int| 0 <= i < j < rest.len() implies node(#[trigger] rest[i]) != node(#[trigger] rest[j]) by {
                assert(rest[i] == urls[i] && rest[j] == urls[j]);
            }
        }
        lemma_canon_keeps(rest);
        if names(rest, node(urls.last())) {
            let i = choose|i: int| 0 <= i < rest.len() && node(#[trigger] rest[i]) == node(urls.last());
            assert(urls[i] == rest[i]);
            assert(urls[urls.len() - 1] == urls.last());
        }
        assert(rest.push(urls.last()) =~= urls);
    } else if urls.len() == 0 {
        assert(canon(urls) =~= urls);
    }
}

/// The physical nodes a voter slice names, first spelling of each kept. Two entries naming one node
/// would both count toward a threshold the second raised, letting one node satisfy it alone.
fn distinct(voters: &[String]) -> (r: Vec<String>)
    ensures
        texts(r@) == canon(texts(voters@)),
{
    let mut out: Vec<String> = Vec::new();
    let mut i: usize = 0;
    let ghost all = texts(voters@);
    assert(all.take(0) =~= Seq::empty());
    assert(texts(out@) =~= canon(all.take(0)));
    while i < voters.len()
        invariant
            all == texts(voters@),
            i <= voters@.len(),
            texts(out@) == canon(all.take(i as int)),
        decreases voters@.len() - i,
    {
        proof {
            assert(all.take(i + 1).drop_last() =~= all.take(i as int));
            assert(all.take(i + 1).last() == voters@[i as int]@);
        }
        let ghost before = texts(out@);
        if !list_names(out.as_slice(), voters[i].as_str()) {
            out.push(voters[i].clone());
            assert(texts(out@) =~= before.push(voters@[i as int]@));
        }
        i += 1;
    }
    assert(all.take(all.len() as int) =~= all);
    out
}

/// Physical nodes in one half. What `majority` is taken of, and what a client is told a write needs.
pub fn voter_count(voters: &[String]) -> (r: usize)
    ensures
        r == nodes(texts(voters@)).len(),
{
    let d = distinct(voters);
    proof {
        law_canon_names_each_node_once(texts(voters@));
        assert(texts(d@).len() == d@.len());
    }
    d.len()
}

/// One entry per physical node, first spelling kept.
pub(crate) fn canonical(voters: Vec<String>) -> (r: Vec<String>)
    ensures
        texts(r@) == canon(texts(voters@)),
{
    distinct(voters.as_slice())
}

// ---- What a majority holds ----

/// How many entries reach `v`.
pub open spec fn reached_by(held: Seq<u64>, v: u64) -> nat
    decreases held.len(),
{
    if held.len() == 0 {
        0
    } else {
        reached_by(held.drop_last(), v) + if held.last() >= v { 1nat } else { 0 }
    }
}

/// `r` is the highest value that a majority of the entries reaches; 0 where there are none.
pub open spec fn majority_reaches(held: Seq<u64>, r: u64) -> bool {
    if held.len() == 0 {
        r == 0
    } else {
        &&& reached_by(held, r) >= majority_of(held.len())
        &&& forall|v: u64| #[trigger] reached_by(held, v) >= majority_of(held.len()) ==> v <= r
    }
}

proof fn lemma_reached_zero(held: Seq<u64>)
    ensures
        reached_by(held, 0) == held.len(),
    decreases held.len(),
{
    if held.len() > 0 {
        lemma_reached_zero(held.drop_last());
    }
}

/// The smallest entry that reaches `v` is reached by as many entries as `v`.
proof fn lemma_reached_least(held: Seq<u64>, v: u64) -> (i: int)
    requires
        reached_by(held, v) > 0,
    ensures
        0 <= i < held.len(),
        held[i] >= v,
        reached_by(held, held[i]) == reached_by(held, v),
    decreases held.len(),
{
    let i = lemma_least(held, v);
    lemma_reached_same(held, v, held[i]);
    i
}

proof fn lemma_least(held: Seq<u64>, v: u64) -> (i: int)
    requires
        reached_by(held, v) > 0,
    ensures
        0 <= i < held.len(),
        held[i] >= v,
        forall|j: int| 0 <= j < held.len() && #[trigger] held[j] >= v ==> held[j] >= held[i],
    decreases held.len(),
{
    let rest = held.drop_last();
    if reached_by(rest, v) > 0 {
        let k = lemma_least(rest, v);
        let r = if held.last() >= v && held.last() < held[k] { held.len() - 1 } else { k };
        assert forall|j: int| 0 <= j < held.len() && #[trigger] held[j] >= v implies held[j] >= held[r] by {
            if j < rest.len() {
                assert(rest[j] == held[j]);
            }
        }
        r
    } else {
        lemma_none_reach(rest, v);
        assert forall|j: int| 0 <= j < held.len() && #[trigger] held[j] >= v implies held[j] >= held[held.len() - 1] by {
            if j < rest.len() {
                assert(rest[j] == held[j]);
            }
        }
        held.len() - 1
    }
}

proof fn lemma_none_reach(held: Seq<u64>, v: u64)
    requires
        reached_by(held, v) == 0,
    ensures
        forall|j: int| 0 <= j < held.len() ==> #[trigger] held[j] < v,
    decreases held.len(),
{
    if held.len() > 0 {
        lemma_none_reach(held.drop_last(), v);
        assert forall|j: int| 0 <= j < held.len() implies #[trigger] held[j] < v by {
            if j < held.len() - 1 {
                assert(held.drop_last()[j] == held[j]);
            }
        }
    }
}

proof fn lemma_reached_same(held: Seq<u64>, v: u64, w: u64)
    requires
        v <= w,
        forall|j: int| 0 <= j < held.len() && #[trigger] held[j] >= v ==> held[j] >= w,
    ensures
        reached_by(held, v) == reached_by(held, w),
    decreases held.len(),
{
    if held.len() > 0 {
        assert forall|j: int| 0 <= j < held.len() - 1 && #[trigger] held.drop_last()[j] >= v implies held.drop_last()[j] >= w by {
            assert(held.drop_last()[j] == held[j]);
        }
        assert(held[held.len() - 1] == held.last());
        lemma_reached_same(held.drop_last(), v, w);
    }
}

fn count_reaching(held: &Vec<u64>, v: u64) -> (r: usize)
    ensures
        r == reached_by(held@, v),
{
    let mut n: usize = 0;
    let mut i: usize = 0;
    assert(held@.take(0) =~= Seq::empty());
    while i < held.len()
        invariant
            i <= held@.len(),
            n == reached_by(held@.take(i as int), v),
            n <= i,
        decreases held@.len() - i,
    {
        assert(held@.take(i + 1).drop_last() =~= held@.take(i as int));
        if held[i] >= v {
            n += 1;
        }
        i += 1;
    }
    assert(held@.take(held@.len() as int) =~= held@);
    n
}

/// The highest value that a majority of the entries reaches.
pub fn majority_value(held: &Vec<u64>) -> (r: u64)
    ensures
        majority_reaches(held@, r),
{
    if held.len() == 0 {
        return 0;
    }
    let need = majority(held.len());
    let mut best: u64 = 0;
    let mut i: usize = 0;
    proof {
        lemma_reached_zero(held@);
    }
    while i < held.len()
        invariant
            held@.len() > 0,
            need == majority_of(held@.len()),
            i <= held@.len(),
            reached_by(held@, best) >= need,
            forall|j: int| 0 <= j < i ==> #[trigger] held@[j] <= best || reached_by(held@, held@[j]) < need,
        decreases held@.len() - i,
    {
        let v: u64 = held[i];
        if v > best && count_reaching(held, v) >= need {
            best = v;
        }
        i += 1;
    }
    proof {
        assert forall|v: u64| #[trigger] reached_by(held@, v) >= majority_of(held@.len()) implies v <= best by {
            let i = lemma_reached_least(held@, v);
            assert(held@[i] <= best);
        }
    }
    best
}

/// Only one value is the highest that a majority reaches.
pub proof fn law_majority_value_is_unique(held: Seq<u64>, a: u64, b: u64)
    requires
        majority_reaches(held, a),
        majority_reaches(held, b),
    ensures
        a == b,
{
    if held.len() > 0 {
        assert(reached_by(held, a) >= majority_of(held.len()));
        assert(reached_by(held, b) >= majority_of(held.len()));
    }
}

// ---- Configurations ----

/// Who decides. A simple configuration has one half; a joint one, in force while membership
/// changes, has an outgoing half as well, and nothing is decided without both.
#[derive(Debug, PartialEq, Eq)]
pub struct Configuration {
    pub voters: Vec<String>,
    pub outgoing: Option<Vec<String>>,
}

/// A configuration by the text of its URLs.
pub ghost struct ConfigurationView {
    pub voters: Seq<Seq<char>>,
    pub outgoing: Option<Seq<Seq<char>>>,
}

impl View for Configuration {
    type V = ConfigurationView;

    open spec fn view(&self) -> ConfigurationView {
        ConfigurationView {
            voters: texts(self.voters@),
            outgoing: match self.outgoing {
                Some(o) => Some(texts(o@)),
                None => None,
            },
        }
    }
}

/// More than half of the nodes of one half are among `granted`. An empty half decides nothing and
/// blocks nothing.
pub open spec fn half_decided(half: Set<Seq<char>>, granted: Set<Seq<char>>) -> bool {
    half.len() == 0 || half.intersect(granted).len() >= majority_of(half.len())
}

impl ConfigurationView {
    /// The URLs of both halves, the incoming half first.
    pub open spec fn all(self) -> Seq<Seq<char>> {
        match self.outgoing {
            Some(o) => self.voters + o,
            None => self.voters,
        }
    }

    /// A majority of each half is among `granted`.
    pub open spec fn decided(self, granted: Set<Seq<char>>) -> bool {
        &&& half_decided(nodes(self.voters), granted)
        &&& self.outgoing is Some ==> half_decided(nodes(self.outgoing->0), granted)
    }

    /// Each half with one entry per node.
    pub open spec fn canonicalized(self) -> ConfigurationView {
        ConfigurationView {
            voters: canon(self.voters),
            outgoing: match self.outgoing {
                Some(o) => Some(canon(o)),
                None => None,
            },
        }
    }

    /// Whether either half names the node of `url`.
    pub open spec fn has_member(self, url: Seq<char>) -> bool {
        names(self.all(), node(url))
    }
}

/// `held` may answer `lsn` for the node at `url`.
pub open spec fn answers<F: Fn(&str) -> u64>(held: F, url: Seq<char>, lsn: u64) -> bool {
    exists|s: &str| s@ == url && #[trigger] held.ensures((s,), lsn)
}

/// `r` is the highest LSN that a majority of one half holds, by the answers of `held`.
pub open spec fn half_holds<F: Fn(&str) -> u64>(half: Seq<Seq<char>>, held: F, r: u64) -> bool {
    exists|lsns: Seq<u64>| #[trigger] answered(half, held, lsns) && majority_reaches(lsns, r)
}

/// `lsns` are the answers of `held`, one for each node of a half.
pub open spec fn answered<F: Fn(&str) -> u64>(half: Seq<Seq<char>>, held: F, lsns: Seq<u64>) -> bool {
    &&& lsns.len() == canon(half).len()
    &&& forall|i: int| 0 <= i < lsns.len() ==> answers(held, canon(half)[i], #[trigger] lsns[i])
}

/// `r` is the highest LSN that a quorum holds: the lower of what the two halves hold while joint.
pub open spec fn quorum_holds<F: Fn(&str) -> u64>(c: ConfigurationView, held: F, r: u64) -> bool {
    match c.outgoing {
        Some(_) => exists|a: u64, b: u64| #[trigger] half_holds(c.voters, held, a)
            && #[trigger] half_holds(c.outgoing->0, held, b) && r == if a < b { a } else { b },
        None => half_holds(c.voters, held, r),
    }
}

/// Majority of one half, by endpoint. `held` answers for a member this node has evidence about.
fn half_quorum_lsn<F: Fn(&str) -> u64>(voters: &[String], held: &F) -> (r: u64)
    requires
        forall|s: &str| held.requires((s,)),
    ensures
        half_holds(texts(voters@), *held, r),
{
    let d = distinct(voters);
    let ghost half = texts(voters@);
    let mut lsns: Vec<u64> = Vec::new();
    let mut i: usize = 0;
    while i < d.len()
        invariant
            forall|s: &str| held.requires((s,)),
            texts(d@) == canon(half),
            i <= d@.len(),
            lsns@.len() == i,
            forall|j: int| 0 <= j < i ==> answers(*held, canon(half)[j], #[trigger] lsns@[j]),
        decreases d@.len() - i,
    {
        let s = d[i].as_str();
        let l: u64 = held(s);
        assert(texts(d@)[i as int] == s@);
        assert(answers(*held, canon(half)[i as int], l));
        lsns.push(l);
        i += 1;
    }
    assert(texts(d@).len() == d@.len());
    assert(answered(half, *held, lsns@));
    majority_value(&lsns)
}

fn half_has_quorum(voters: &[String], granted: &[String]) -> (r: bool)
    ensures
        r == half_decided(nodes(texts(voters@)), nodes(texts(granted@))),
{
    let d = distinct(voters);
    let ghost half = texts(voters@);
    let ghost yes = nodes(texts(granted@));
    proof {
        law_canon_names_each_node_once(half);
        assert(texts(d@).len() == d@.len());
    }
    let total = d.len();
    if total == 0 {
        return true;
    }
    let mut count: usize = 0;
    let mut i: usize = 0;
    proof {
        assert(nodes(canon(half).take(0)) =~= Set::empty());
        assert(nodes(canon(half).take(0)).intersect(yes) =~= Set::empty());
    }
    while i < total
        invariant
            total == d@.len(),
            texts(d@) == canon(half),
            one_per_node(canon(half)),
            yes == nodes(texts(granted@)),
            i <= total,
            count <= i,
            nodes(canon(half).take(i as int)).intersect(yes).finite(),
            count == nodes(canon(half).take(i as int)).intersect(yes).len(),
        decreases total - i,
    {
        let ghost c = canon(half);
        let ghost n = node(c[i as int]);
        proof {
            assert(texts(d@)[i as int] == d@[i as int]@);
            assert(c.take(i + 1) =~= c.take(i as int).push(c[i as int]));
            lemma_nodes_push(c.take(i as int), c[i as int]);
            assert(!nodes(c.take(i as int)).contains(n)) by {
                if names(c.take(i as int), n) {
                    let k = choose|k: int| 0 <= k < c.take(i as int).len() && node(#[trigger] c.take(i as int)[k]) == n;
                    assert(c[k] == c.take(i as int)[k]);
                    assert(node(c[k]) != node(c[i as int]));
                }
            }
        }
        if list_names(granted, d[i].as_str()) {
            proof {
                assert(nodes(c.take(i + 1)).intersect(yes) =~= nodes(c.take(i as int)).intersect(yes).insert(n));
            }
            count += 1;
        } else {
            proof {
                assert(nodes(c.take(i + 1)).intersect(yes) =~= nodes(c.take(i as int)).intersect(yes));
            }
        }
        i += 1;
    }
    assert(canon(half).take(total as int) =~= canon(half));
    count >= majority(total)
}

impl Configuration {
    pub fn simple(voters: Vec<String>) -> (r: Self)
        ensures
            r@ == (ConfigurationView { voters: canon(texts(voters@)), outgoing: None }),
    {
        Self { voters: canonical(voters), outgoing: None }
    }

    /// The transitional entry. Both halves decide together until it commits and `simple` replaces it.
    pub fn joint(outgoing: Vec<String>, voters: Vec<String>) -> (r: Self)
        ensures
            r@ == (ConfigurationView { voters: canon(texts(voters@)), outgoing: Some(canon(texts(outgoing@))) }),
    {
        Self { voters: canonical(voters), outgoing: Some(canonical(outgoing)) }
    }

    /// A configuration decoded from a log frame or a snapshot. Deduped on the way in, because a
    /// stored entry is a fact and cannot be refused.
    pub fn canonicalized(self) -> (r: Self)
        ensures
            r@ == self@.canonicalized(),
    {
        match self.outgoing {
            Some(outgoing) => Self::joint(outgoing, self.voters),
            None => Self::simple(self.voters),
        }
    }

    pub fn is_joint(&self) -> (r: bool)
        ensures
            r == (self@.outgoing is Some),
    {
        self.outgoing.is_some()
    }

    /// What this change is heading for: the entry a leader appends once the joint one commits.
    pub fn target(&self) -> (r: Self)
        ensures
            r@ == (ConfigurationView { voters: canon(self@.voters), outgoing: None }),
    {
        Self::simple(copy_list(&self.voters))
    }

    /// Everyone in either half. Who is asked for votes and who is shipped frames: a member of the
    /// outgoing half still decides, so it must still be reachable and still be sent entries.
    pub fn members(&self) -> (r: Vec<String>)
        ensures
            texts(r@) == canon(self@.all()),
    {
        let mut all = copy_list(&self.voters);
        match &self.outgoing {
            Some(old) => {
                let ghost first = texts(self.voters@);
                let mut more = copy_list(old);
                let ghost second = texts(old@);
                all.append(&mut more);
                assert(texts(all@) =~= first + second);
            },
            None => {},
        }
        canonical(all)
    }

    pub fn contains(&self, url: &str) -> (r: bool)
        ensures
            r == self@.has_member(url@),
    {
        let m = self.members();
        proof {
            law_canon_names_each_node_once(self@.all());
            assert(nodes(canon(self@.all())).contains(node(url@)) == nodes(self@.all()).contains(node(url@)));
        }
        list_names(m.as_slice(), url)
    }

    /// A majority of *each* half. Counting the union instead would let four old members and one new
    /// decide for a union of seven.
    pub fn has_quorum(&self, granted: &[String]) -> (r: bool)
        ensures
            r == self@.decided(nodes(texts(granted@))),
    {
        if !half_has_quorum(self.voters.as_slice(), granted) {
            return false;
        }
        match &self.outgoing {
            Some(old) => half_has_quorum(old.as_slice(), granted),
            None => true,
        }
    }

    /// Highest LSN a quorum holds. The lower of the two halves' majorities while joint, since an
    /// entry only one half holds is one the other half's next leader can still overwrite.
    pub fn quorum_lsn<F: Fn(&str) -> u64>(&self, held: F) -> (r: u64)
        requires
            forall|s: &str| held.requires((s,)),
        ensures
            quorum_holds(self@, held, r),
    {
        let new = half_quorum_lsn(self.voters.as_slice(), &held);
        match &self.outgoing {
            Some(old) => {
                let other = half_quorum_lsn(old.as_slice(), &held);
                assert(half_holds(self@.voters, held, new) && half_holds(self@.outgoing->0, held, other));
                if new < other { new } else { other }
            },
            None => new,
        }
    }
}

impl Clone for Configuration {
    fn clone(&self) -> (r: Self)
        ensures
            r@ == self@,
    {
        Self {
            voters: copy_list(&self.voters),
            outgoing: match &self.outgoing {
                Some(o) => Some(copy_list(o)),
                None => None,
            },
        }
    }
}

// ---- Laws ----

/// Two majorities of one half share a node.
pub proof fn law_majorities_of_a_half_meet(half: Set<Seq<char>>, a: Set<Seq<char>>, b: Set<Seq<char>>) -> (n: Seq<char>)
    requires
        half.finite(),
        half.len() > 0,
        half_decided(half, a),
        half_decided(half, b),
    ensures
        half.contains(n) && a.contains(n) && b.contains(n),
{
    let x = half.intersect(a);
    let y = half.intersect(b);
    vstd::set_lib::lemma_set_intersect_union_lens(x, y);
    vstd::set_lib::lemma_len_subset(x.union(y), half);
    assert(x.intersect(y).len() > 0);
    let n = x.intersect(y).choose();
    assert(x.intersect(y).contains(n));
    n
}

/// Any two quorums of a configuration share a voter: no two decisions are taken apart from each
/// other.
pub proof fn law_quorums_meet(c: ConfigurationView, a: Set<Seq<char>>, b: Set<Seq<char>>) -> (n: Seq<char>)
    requires
        nodes(c.voters).len() > 0,
        c.decided(a),
        c.decided(b),
    ensures
        names(c.all(), n),
        a.contains(n) && b.contains(n),
{
    law_canon_names_each_node_once(c.voters);
    let n = law_majorities_of_a_half_meet(nodes(c.voters), a, b);
    let i = choose|i: int| 0 <= i < c.voters.len() && node(#[trigger] c.voters[i]) == n;
    assert(c.all()[i] == c.voters[i]);
    n
}

/// A joint configuration is decided only with a majority of the configuration it leaves and one of
/// the configuration it heads for, so it shares a voter with every quorum of either.
pub proof fn law_a_joint_decision_binds_both_sides(
    old_voters: Seq<Seq<char>>,
    new_voters: Seq<Seq<char>>,
    granted: Set<Seq<char>>,
)
    ensures
        (ConfigurationView { voters: new_voters, outgoing: Some(old_voters) }).decided(granted) <==> (
            (ConfigurationView { voters: new_voters, outgoing: None }).decided(granted)
                && (ConfigurationView { voters: old_voters, outgoing: None }).decided(granted)),
{
}

/// Making each half name a node once changes no decision, and doing it twice changes nothing more.
pub proof fn law_canonicalizing_changes_no_decision(c: ConfigurationView, granted: Set<Seq<char>>)
    ensures
        c.canonicalized().decided(granted) == c.decided(granted),
        c.canonicalized().canonicalized() == c.canonicalized(),
{
    law_canon_names_each_node_once(c.voters);
    law_canon_is_idempotent(c.voters);
    if c.outgoing is Some {
        law_canon_names_each_node_once(c.outgoing->0);
        law_canon_is_idempotent(c.outgoing->0);
    }
}

/// A quorum stays one when more nodes grant.
pub proof fn law_a_quorum_stays_one_as_it_grows(c: ConfigurationView, a: Set<Seq<char>>, b: Set<Seq<char>>)
    requires
        a.subset_of(b),
        c.decided(a),
    ensures
        c.decided(b),
{
    law_canon_names_each_node_once(c.voters);
    vstd::set_lib::lemma_len_subset(nodes(c.voters).intersect(a), nodes(c.voters).intersect(b));
    if c.outgoing is Some {
        law_canon_names_each_node_once(c.outgoing->0);
        vstd::set_lib::lemma_len_subset(nodes(c.outgoing->0).intersect(a), nodes(c.outgoing->0).intersect(b));
    }
}

/// Of several spellings of one node the first stays, as it was written.
pub proof fn law_the_first_spelling_stays(urls: Seq<Seq<char>>, i: int)
    requires
        0 <= i < urls.len(),
    ensures
        (forall|j: int| 0 <= j < i ==> node(#[trigger] urls[j]) != node(urls[i])) ==> canon(urls).contains(urls[i]),
        canon(urls).contains(urls[i]) ==> exists|k: int|
            0 <= k <= i && urls[k] == urls[i] && forall|j: int| 0 <= j < k ==> node(#[trigger] urls[j]) != node(urls[i]),
    decreases urls.len(),
{
    lemma_joined_hold::<Seq<char>>();
    let rest = urls.drop_last();
    let before = canon(rest);
    law_canon_names_each_node_once(rest);
    assert(nodes(before).contains(node(urls[i])) <==> nodes(rest).contains(node(urls[i])));
    if i < rest.len() {
        law_the_first_spelling_stays(rest, i);
        assert(rest[i] == urls[i]);
        if forall|j: int| 0 <= j < i ==> node(#[trigger] urls[j]) != node(urls[i]) {
            assert forall|j: int| 0 <= j < i implies node(#[trigger] rest[j]) != node(rest[i]) by {
                assert(rest[j] == urls[j]);
            }
        }
        if canon(urls).contains(urls[i]) {
            if !before.contains(urls[i]) {
                assert(urls.last() == urls[i]);
                assert(node(rest[i]) == node(urls.last()));
                assert(names(rest, node(urls.last())));
            }
            let k = choose|k: int|
                0 <= k <= i && rest[k] == rest[i] && forall|j: int| 0 <= j < k ==> node(#[trigger] rest[j]) != node(rest[i]);
            assert(urls[k] == urls[i]);
            assert forall|j: int| 0 <= j < k implies node(#[trigger] urls[j]) != node(urls[i]) by {
                assert(rest[j] == urls[j]);
            }
        }
    } else {
        if forall|j: int| 0 <= j < i ==> node(#[trigger] urls[j]) != node(urls[i]) {
            if names(rest, node(urls[i])) {
                let j = choose|j: int| 0 <= j < rest.len() && node(#[trigger] rest[j]) == node(urls[i]);
                assert(urls[j] == rest[j]);
            }
        }
        if canon(urls).contains(urls[i]) {
            if before.contains(urls[i]) {
                lemma_canon_holds(rest, urls[i]);
                let k = choose|k: int|
                    0 <= k < rest.len() && rest[k] == urls[i] && forall|j: int| 0 <= j < k ==> node(#[trigger] rest[j]) != node(urls[i]);
                assert(urls[k] == urls[i]);
                assert forall|j: int| 0 <= j < k implies node(#[trigger] urls[j]) != node(urls[i]) by {
                    assert(rest[j] == urls[j]);
                }
            } else {
                assert forall|j: int| 0 <= j < i implies node(#[trigger] urls[j]) != node(urls[i]) by {
                    assert(rest[j] == urls[j]);
                    if node(urls[j]) == node(urls[i]) {
                        assert(names(rest, node(urls[i])));
                    }
                }
            }
        }
    }
}

proof fn lemma_canon_holds(urls: Seq<Seq<char>>, url: Seq<char>)
    requires
        canon(urls).contains(url),
    ensures
        exists|k: int|
            0 <= k < urls.len() && urls[k] == url && forall|j: int| 0 <= j < k ==> node(#[trigger] urls[j]) != node(url),
    decreases urls.len(),
{
    lemma_joined_hold::<Seq<char>>();
    let rest = urls.drop_last();
    let before = canon(rest);
    if before.contains(url) {
        lemma_canon_holds(rest, url);
        let k = choose|k: int|
            0 <= k < rest.len() && rest[k] == url && forall|j: int| 0 <= j < k ==> node(#[trigger] rest[j]) != node(url);
        assert(urls[k] == url);
        assert forall|j: int| 0 <= j < k implies node(#[trigger] urls[j]) != node(url) by {
            assert(rest[j] == urls[j]);
        }
    } else {
        law_canon_names_each_node_once(rest);
        assert(nodes(before).contains(node(url)) <==> nodes(rest).contains(node(url)));
        let k = urls.len() - 1;
        assert(urls[k] == url);
        assert forall|j: int| 0 <= j < k implies node(#[trigger] urls[j]) != node(url) by {
            assert(rest[j] == urls[j]);
            if node(urls[j]) == node(url) {
                assert(names(rest, node(url)));
            }
        }
    }
}

/// How many hold a position is the number of those who hold it or one beyond.
pub proof fn law_holders_are_counted_one_by_one(held: Seq<u64>, v: u64)
    ensures
        reached_by(held, v) == held.filter(|x: u64| x >= v).len(),
    decreases held.len(),
{
    reveal(Seq::filter);
    if held.len() > 0 {
        law_holders_are_counted_one_by_one(held.drop_last(), v);
    }
}

/// A majority is more than half, and no more than it takes.
pub proof fn law_a_majority_is_more_than_half(n: nat)
    ensures
        2 * majority_of(n) > n,
        2 * (majority_of(n) - 1) <= n,
{
}

/// A half is decided by more than half of its nodes, and one without voters by anybody.
pub proof fn law_a_half_is_decided_by_more_than_half(half: Set<Seq<char>>, granted: Set<Seq<char>>)
    ensures
        half_decided(half, granted) <==> half.len() == 0 || 2 * half.intersect(granted).len() > half.len(),
{
}

/// The members of a configuration are the voters of both of its halves.
pub proof fn law_both_halves_are_members(c: ConfigurationView, url: Seq<char>)
    ensures
        c.has_member(url) <==> names(c.voters, node(url)) || (c.outgoing is Some && names(c.outgoing->0, node(url))),
        c.all().contains(url) <==> c.voters.contains(url) || (c.outgoing is Some && c.outgoing->0.contains(url)),
{
    let all = c.all();
    let v = c.voters;
    let n = node(url);
    lemma_joined_hold::<Seq<char>>();
    if names(v, n) {
        let i = choose|i: int| 0 <= i < v.len() && node(#[trigger] v[i]) == n;
        assert(all[i] == v[i]);
    }
    if c.outgoing is Some {
        let o = c.outgoing->0;
        assert(all == v + o);
        if names(o, n) {
            let i = choose|i: int| 0 <= i < o.len() && node(#[trigger] o[i]) == n;
            assert(all[v.len() + i] == o[i]);
        }
        if names(all, n) {
            let i = choose|i: int| 0 <= i < all.len() && node(#[trigger] all[i]) == n;
            if i < v.len() {
                assert(v[i] == all[i]);
            } else {
                assert(o[i - v.len()] == all[i]);
            }
        }
    }
}

/// What a collection may be called: small letters, digits, underscores, hyphens and dots, with no dot at
/// either end, and nothing that a file system or a half-written file would take for its own.
pub proof fn law_what_a_collection_may_be_called(name: Seq<char>, i: int)
    requires
        valid_name(name),
        0 <= i < name.len(),
    ensures
        ('a' <= name[i] && name[i] <= 'z') || ('0' <= name[i] && name[i] <= '9') || name[i] == '_' || name[i] == '-' || name[i] == '.',
        name[i] == '.' ==> 0 < i < name.len() - 1,
        encode_utf8(name).len() <= MAX_COLLECTION_NAME_LEN,
        !finishes_with(name, ".tmp"@) && !finishes_with(name, ".old"@),
        !device_name(lower(pieces(name, '.')[0])),
{
}

} // verus!
