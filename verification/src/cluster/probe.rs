//! Which node answers as primary for each shard.

use super::metadata::{groups_view, owners, ClusterMetadata, ViewId, ViewIdView};
use crate::consensus::config::{canon, canonical};
use crate::endpoint::{list_names, names, node, same_endpoint};
use crate::json::{Json, JsonView};
use crate::lists::{lemma_joined_hold, lemma_take_all, lemma_take_grows};
use crate::metrics::NodeLoad;
use crate::text::{
    comes_before, lemma_text_before_transitive, lemma_text_order, list_holds, opt_text, same_text, text_before, texts,
};
use vstd::prelude::*;

verus! {

pub const ROUTER_PROBE_INTERVAL_SECS: u64 = 3;

/// What a node said of itself.
#[derive(Debug, PartialEq, Eq)]
pub struct Probe {
    pub role: String,
    pub term: u64,
    pub cluster: ViewId,
    pub load: Option<NodeLoad>,
}

pub ghost struct ProbeView {
    pub role: Seq<char>,
    pub term: u64,
    pub cluster: ViewIdView,
    pub load: Option<NodeLoad>,
}

impl View for Probe {
    type V = ProbeView;

    open spec fn view(&self) -> ProbeView {
        ProbeView { role: self.role@, term: self.term, cluster: self.cluster@, load: self.load }
    }
}

impl Clone for Probe {
    fn clone(&self) -> (r: Self)
        ensures
            r@ == self@,
    {
        Probe { role: self.role.clone(), term: self.term, cluster: self.cluster.clone(), load: self.load }
    }
}

/// A probe that may be absent, by its contents.
pub open spec fn opt_probe(p: Option<Probe>) -> Option<ProbeView> {
    match p {
        Some(p) => Some(p@),
        None => None,
    }
}

/// A copy of a probe that may be absent.
pub fn copy_probe(p: &Option<Probe>) -> (r: Option<Probe>)
    ensures
        opt_probe(r) == opt_probe(*p),
{
    match p {
        Some(p) => Some(p.clone()),
        None => None,
    }
}

// ---- Reading a heartbeat ----

/// A member's value as a number, or 0.
pub open spec fn number_or_zero(j: Option<JsonView>) -> u64 {
    match j {
        Some(v) => match v.number() {
            Some(n) => n,
            None => 0,
        },
        None => 0,
    }
}

/// The text of a member, if it is text.
pub open spec fn text_of_member(j: Option<JsonView>) -> Option<Seq<char>> {
    match j {
        Some(v) => v.text(),
        None => None,
    }
}

/// The view that a heartbeat advertises. A tiebreak that is absent stays absent.
pub open spec fn advertised(v: JsonView) -> ViewIdView {
    ViewIdView {
        version: number_or_zero(v.member("cluster_version"@)),
        updated_by: text_of_member(v.member("cluster_updated_by"@)),
        seeded: v.member("cluster_seeded"@) is Some && v.member("cluster_seeded"@)->0.truth() == Some(true),
    }
}

/// The load that a heartbeat reports; both numbers or nothing.
pub open spec fn reported_load(v: JsonView) -> Option<NodeLoad> {
    match v.member("load"@) {
        Some(load) => match (load.member("inflight"@), load.member("latency_ewma_us"@)) {
            (Some(a), Some(b)) => match (a.number(), b.number()) {
                (Some(inflight), Some(latency_ewma_us)) => Some(NodeLoad { inflight, latency_ewma_us }),
                _ => None,
            },
            _ => None,
        },
        None => None,
    }
}

/// What a heartbeat says; nothing where it names no role.
pub open spec fn heard(v: JsonView) -> Option<ProbeView> {
    match text_of_member(v.member("role"@)) {
        Some(role) => Some(
            ProbeView { role, term: number_or_zero(v.member("term"@)), cluster: advertised(v), load: reported_load(v) },
        ),
        None => None,
    }
}

/// The number under a key, or 0.
pub fn number_at(v: &Json, key: &str) -> (r: u64)
    requires
        v@.wf(),
    ensures
        r == number_or_zero(v@.member(key@)),
{
    match v.get(key) {
        Some(x) => match x.as_u64() {
            Some(n) => n,
            None => 0,
        },
        None => 0,
    }
}

/// The text under a key.
pub fn text_at(v: &Json, key: &str) -> (r: Option<String>)
    requires
        v@.wf(),
    ensures
        opt_text(r) == text_of_member(v@.member(key@)),
{
    match v.get(key) {
        Some(x) => match x.as_str() {
            Some(s) => Some(s.to_owned()),
            None => None,
        },
        None => None,
    }
}

/// The advertised ordering identity. The writer and the seed mark are absent from a peer that knows
/// nothing of them, which is treated as an unorderable equal version rather than a win.
pub fn parse_view_id(v: &Json) -> (r: ViewId)
    requires
        v@.wf(),
    ensures
        r@ == advertised(v@),
{
    let seeded = match v.get("cluster_seeded") {
        Some(x) => match x.as_bool() {
            Some(b) => b,
            None => false,
        },
        None => false,
    };
    ViewId { version: number_at(v, "cluster_version"), updated_by: text_at(v, "cluster_updated_by"), seeded }
}

fn parse_load(v: &Json) -> (r: Option<NodeLoad>)
    requires
        v@.wf(),
    ensures
        r == reported_load(v@),
{
    match v.get("load") {
        Some(load) => match (load.get("inflight"), load.get("latency_ewma_us")) {
            (Some(a), Some(b)) => match (a.as_u64(), b.as_u64()) {
                (Some(inflight), Some(latency_ewma_us)) => Some(NodeLoad { inflight, latency_ewma_us }),
                _ => None,
            },
            _ => None,
        },
        None => None,
    }
}

pub fn parse_probe(v: &Json) -> (r: Option<Probe>)
    requires
        v@.wf(),
    ensures
        opt_probe(r) == heard(v@),
{
    let load = parse_load(v);
    match text_at(v, "role") {
        Some(role) => Some(Probe { role, term: number_at(v, "term"), cluster: parse_view_id(v), load }),
        None => None,
    }
}

// ---- Choosing ----

/// Answers to probes, by URL.
pub type Probes = Vec<(String, Option<Probe>)>;

/// The contents of a list of answers.
pub open spec fn answers(v: Seq<(String, Option<Probe>)>) -> Seq<(Seq<char>, Option<ProbeView>)> {
    Seq::new(v.len(), |i: int| (v[i].0@, opt_probe(v[i].1)))
}

/// Whether the node at position `i` says that it leads.
pub open spec fn claims(a: Seq<(Seq<char>, Option<ProbeView>)>, i: int) -> bool {
    0 <= i < a.len() && a[i].1 is Some && a[i].1->0.role == "primary"@
}

/// Whether the node at position `i` is the one to believe: of those that say they lead it has the
/// highest term, and stands first among equals.
pub open spec fn believed(a: Seq<(Seq<char>, Option<ProbeView>)>, i: int) -> bool {
    &&& claims(a, i)
    &&& forall|j: int| #[trigger] claims(a, j) ==> a[j].1->0.term <= a[i].1->0.term
        && (j < i ==> a[j].1->0.term < a[i].1->0.term)
}

/// Highest term wins: a partitioned old primary must not reclaim traffic.
pub fn select_primary(probes: &[(String, Option<Probe>)]) -> (r: Option<String>)
    ensures
        match r {
            Some(u) => exists|i: int| believed(answers(probes@), i) && u@ == (#[trigger] answers(probes@)[i]).0,
            None => forall|i: int| !claims(answers(probes@), i),
        },
{
    let ghost a = answers(probes@);
    let mut best: Option<(u64, usize)> = None;
    let mut i: usize = 0;
    while i < probes.len()
        invariant
            a == answers(probes@),
            i <= probes@.len(),
            match best {
                Some((t, k)) => k < i && claims(a, k as int) && a[k as int].1->0.term == t
                    && forall|j: int| #[trigger] claims(a, j) && j < i ==> a[j].1->0.term <= t && (j < k ==> a[j].1->0.term < t),
                None => forall|j: int| j < i ==> !#[trigger] claims(a, j),
            },
        decreases probes@.len() - i,
    {
        if let Some(p) = &probes[i].1 {
            assert(a[i as int].1 == Some(p@));
            if same_text(p.role.as_str(), "primary") {
                assert(claims(a, i as int));
                match best {
                    Some((t, _)) => if p.term > t {
                        best = Some((p.term, i));
                    },
                    None => {
                        best = Some((p.term, i));
                    },
                }
            }
        }
        i += 1;
    }
    match best {
        Some((_, k)) => {
            assert(believed(a, k as int));
            assert(a[k as int].0 == probes@[k as int].0@);
            Some(probes[k].0.clone())
        },
        None => None,
    }
}

/// What peers that beat this node's view are compared by. An absent writer sorts lowest.
pub open spec fn order_of(id: ViewIdView) -> (u64, Seq<char>) {
    (id.version, match id.updated_by {
        Some(u) => u,
        None => Seq::empty(),
    })
}

/// The order of those pairs.
pub open spec fn pair_before(a: (u64, Seq<char>), b: (u64, Seq<char>)) -> bool {
    a.0 < b.0 || (a.0 == b.0 && text_before(a.1, b.1))
}

/// Whether the node at position `i` holds a view that wins over `ours`.
pub open spec fn ahead(a: Seq<(Seq<char>, Option<ProbeView>)>, ours: ViewIdView, i: int) -> bool {
    0 <= i < a.len() && a[i].1 is Some && a[i].1->0.cluster.supersedes(ours)
}

/// Whether the node at position `i` is furthest ahead, the last among equals.
pub open spec fn furthest(a: Seq<(Seq<char>, Option<ProbeView>)>, ours: ViewIdView, i: int) -> bool {
    &&& ahead(a, ours, i)
    &&& forall|j: int| #[trigger] ahead(a, ours, j) ==> !pair_before(order_of(a[i].1->0.cluster), order_of(a[j].1->0.cluster))
        && (j > i ==> pair_before(order_of(a[j].1->0.cluster), order_of(a[i].1->0.cluster)))
}

fn order_before(a: &ViewId, b: &ViewId) -> (r: bool)
    ensures
        r == pair_before(order_of(a@), order_of(b@)),
{
    let empty: String = String::new();
    let x: &str = match &a.updated_by {
        Some(u) => u.as_str(),
        None => empty.as_str(),
    };
    let y: &str = match &b.updated_by {
        Some(u) => u.as_str(),
        None => empty.as_str(),
    };
    a.version < b.version || (a.version == b.version && comes_before(x, y))
}

proof fn lemma_pair_order(a: (u64, Seq<char>), b: (u64, Seq<char>), c: (u64, Seq<char>))
    ensures
        !pair_before(a, a),
        pair_before(a, b) ==> !pair_before(b, a),
        pair_before(a, b) && pair_before(b, c) ==> pair_before(a, c),
        !pair_before(a, b) && !pair_before(b, a) ==> a == b,
{
    lemma_text_order(a.1, a.1);
    lemma_text_order(a.1, b.1);
    if text_before(a.1, b.1) && text_before(b.1, c.1) {
        lemma_text_before_transitive(a.1, b.1, c.1);
    }
}

/// Whoever is furthest ahead, so one pass converges even when only a replica heard the update.
/// Ordered by adoption's total order, not by version: a gate on the version never fetches a tiebreak
/// winner.
pub fn best_cluster_source(probes: &[(String, Option<Probe>)], ours: &ViewId) -> (r: Option<String>)
    ensures
        match r {
            Some(u) => exists|i: int| furthest(answers(probes@), ours@, i) && u@ == (#[trigger] answers(probes@)[i]).0,
            None => forall|i: int| !ahead(answers(probes@), ours@, i),
        },
{
    let ghost a = answers(probes@);
    let mut best: Option<usize> = None;
    let mut i: usize = 0;
    while i < probes.len()
        invariant
            a == answers(probes@),
            i <= probes@.len(),
            match best {
                Some(k) => k < i && ahead(a, ours@, k as int) && forall|j: int| #[trigger] ahead(a, ours@, j) && j < i
                    ==> !pair_before(order_of(a[k as int].1->0.cluster), order_of(a[j].1->0.cluster))
                    && (j > k ==> pair_before(order_of(a[j].1->0.cluster), order_of(a[k as int].1->0.cluster))),
                None => forall|j: int| j < i ==> !#[trigger] ahead(a, ours@, j),
            },
        decreases probes@.len() - i,
    {
        if let Some(p) = &probes[i].1 {
            assert(a[i as int].1 == Some(p@));
            if p.cluster.supersedes(ours) {
                assert(ahead(a, ours@, i as int));
                let take = match best {
                    Some(k) => match &probes[k].1 {
                        Some(q) => {
                            assert(a[k as int].1 == Some(q@));
                            !order_before(&p.cluster, &q.cluster)
                        },
                        None => true,
                    },
                    None => true,
                };
                proof {
                    if best is Some {
                        let k = best->0 as int;
                        let (x, y) = (order_of(a[i as int].1->0.cluster), order_of(a[k].1->0.cluster));
                        lemma_pair_order(x, y, y);
                        assert forall|j: int| #[trigger] ahead(a, ours@, j) && j < i && take implies !pair_before(x, order_of(a[j].1->0.cluster)) by {
                            let z = order_of(a[j].1->0.cluster);
                            lemma_pair_order(y, x, z);
                            lemma_pair_order(x, z, y);
                        }
                    }
                    lemma_pair_order(order_of(p@.cluster), order_of(p@.cluster), order_of(p@.cluster));
                }
                if take {
                    best = Some(i);
                }
            }
        }
        i += 1;
    }
    match best {
        Some(k) => {
            assert(furthest(a, ours@, k as int));
            assert(a[k as int].0 == probes@[k as int].0@);
            Some(probes[k].0.clone())
        },
        None => None,
    }
}

/// The shard groups of a view.
pub fn unique_shards(view: &ClusterMetadata) -> (r: Vec<(String, Vec<String>)>)
    ensures
        groups_view(r@) == owners(view@),
{
    view.shard_owners()
}

/// The strings of a list, each once, where it first stands.
pub open spec fn each_once(v: Seq<Seq<char>>) -> Seq<Seq<char>>
    decreases v.len(),
{
    if v.len() == 0 {
        Seq::empty()
    } else {
        let before = each_once(v.drop_last());
        if before.contains(v.last()) { before } else { before.push(v.last()) }
    }
}

/// The nodes of a group to ask: its recorded primary, then its replicas.
pub fn probe_targets(original: &str, replicas: &[String]) -> (r: Vec<String>)
    ensures
        texts(r@) == each_once(seq![original@] + texts(replicas@)),
{
    let ghost all = seq![original@] + texts(replicas@);
    let mut out: Vec<String> = Vec::new();
    out.push(original.to_owned());
    let mut i: usize = 0;
    proof {
        assert(all.take(1).drop_last() =~= Seq::empty());
        assert(each_once(all.take(1).drop_last()) =~= Seq::empty());
        assert(texts(out@) =~= each_once(all.take(1)));
    }
    while i < replicas.len()
        invariant
            all == seq![original@] + texts(replicas@),
            i <= replicas@.len(),
            texts(out@) == each_once(all.take(i + 1)),
        decreases replicas@.len() - i,
    {
        proof {
            lemma_take_grows(all, i + 1);
            assert(all[i + 1] == replicas@[i as int]@);
        }
        let ghost before = texts(out@);
        if !list_holds(&out, replicas[i].as_str()) {
            out.push(replicas[i].clone());
            assert(texts(out@) =~= before.push(replicas@[i as int]@));
        }
        i += 1;
    }
    proof {
        lemma_take_all(all);
    }
    out
}

// ---- One round of a router ----

/// A shard group as a router sees it: its recorded primary and replicas, and who it takes for the
/// primary now.
pub struct ProbeGroup {
    pub original: String,
    pub replicas: Vec<String>,
    pub effective: String,
}

pub ghost struct ProbeGroupView {
    pub original: Seq<char>,
    pub replicas: Seq<Seq<char>>,
    pub effective: Seq<char>,
}

impl View for ProbeGroup {
    type V = ProbeGroupView;

    open spec fn view(&self) -> ProbeGroupView {
        ProbeGroupView { original: self.original@, replicas: texts(self.replicas@), effective: self.effective@ }
    }
}

/// The contents of a list of groups.
pub open spec fn probe_groups(v: Seq<ProbeGroup>) -> Seq<ProbeGroupView> {
    Seq::new(v.len(), |i: int| v[i]@)
}

impl ProbeGroupView {
    /// The recorded nodes.
    pub open spec fn recorded(self) -> Seq<Seq<char>> {
        each_once(seq![self.original] + self.replicas)
    }

    /// The nodes that may answer for the group: the recorded ones, and the one taken for the primary
    /// where it is none of them.
    pub open spec fn candidates(self) -> Seq<Seq<char>> {
        if names(self.recorded(), node(self.effective)) { self.recorded() } else { self.recorded().push(self.effective) }
    }
}

/// Every node of the first `n` groups to ask.
pub open spec fn to_ask(g: Seq<ProbeGroupView>, n: int) -> Seq<Seq<char>>
    decreases n,
{
    if n <= 0 { Seq::empty() } else { to_ask(g, n - 1) + g[n - 1].recorded().push(g[n - 1].effective) }
}

/// Every node to probe in a round, each once.
pub fn round_targets(groups: &Vec<ProbeGroup>) -> (r: Vec<String>)
    ensures
        texts(r@) == canon(to_ask(probe_groups(groups@), groups@.len() as int)),
{
    let ghost g = probe_groups(groups@);
    let mut all: Vec<String> = Vec::new();
    let mut i: usize = 0;
    assert(texts(all@) =~= Seq::empty());
    while i < groups.len()
        invariant
            g == probe_groups(groups@),
            i <= groups@.len(),
            texts(all@) == to_ask(g, i as int),
        decreases groups@.len() - i,
    {
        let mut some = probe_targets(groups[i].original.as_str(), groups[i].replicas.as_slice());
        let ghost recorded = texts(some@);
        let ghost before = texts(all@);
        assert(g[i as int] == groups@[i as int]@);
        some.push(groups[i].effective.clone());
        assert(texts(some@) =~= recorded.push(groups@[i as int].effective@));
        let ghost more = texts(some@);
        all.append(&mut some);
        assert(texts(all@) =~= before + more);
        i += 1;
    }
    canonical(all)
}

/// What the last answer from a node said.
pub open spec fn answer_from(a: Seq<(Seq<char>, Option<ProbeView>)>, n: Seq<char>) -> Option<ProbeView>
    decreases a.len(),
{
    if a.len() == 0 {
        None
    } else if node(a.last().0) == n {
        a.last().1
    } else {
        answer_from(a.drop_last(), n)
    }
}

fn answer_of(probes: &Vec<(String, Option<Probe>)>, url: &str) -> (r: Option<Probe>)
    ensures
        opt_probe(r) == answer_from(answers(probes@), node(url@)),
{
    let ghost a = answers(probes@);
    let mut i: usize = probes.len();
    proof {
        lemma_take_all(a);
    }
    while i > 0
        invariant
            a == answers(probes@),
            i <= probes@.len(),
            answer_from(a, node(url@)) == answer_from(a.take(i as int), node(url@)),
        decreases i,
    {
        proof {
            lemma_take_grows(a, i - 1);
        }
        i -= 1;
        if same_endpoint(probes[i].0.as_str(), url) {
            return copy_probe(&probes[i].1);
        }
    }
    assert(a.take(0) =~= Seq::empty());
    None
}

/// What the candidates of a group said.
pub open spec fn group_answers(g: ProbeGroupView, a: Seq<(Seq<char>, Option<ProbeView>)>) -> Seq<(Seq<char>, Option<ProbeView>)> {
    Seq::new(g.candidates().len(), |i: int| (g.candidates()[i], answer_from(a, node(g.candidates()[i]))))
}

fn gather(group: &ProbeGroup, probes: &Vec<(String, Option<Probe>)>) -> (r: Vec<(String, Option<Probe>)>)
    ensures
        answers(r@) == group_answers(group@, answers(probes@)),
{
    let mut candidates = probe_targets(group.original.as_str(), group.replicas.as_slice());
    let ghost recorded = texts(candidates@);
    if !list_names(candidates.as_slice(), group.effective.as_str()) {
        candidates.push(group.effective.clone());
        assert(texts(candidates@) =~= recorded.push(group@.effective));
    }
    let ghost cs = group@.candidates();
    assert(texts(candidates@) == cs);
    let mut out: Vec<(String, Option<Probe>)> = Vec::new();
    let mut i: usize = 0;
    while i < candidates.len()
        invariant
            cs == texts(candidates@),
            i <= candidates@.len(),
            out@.len() == i,
            forall|j: int| 0 <= j < i ==> (#[trigger] out@[j]).0@ == cs[j]
                && opt_probe(out@[j].1) == answer_from(answers(probes@), node(cs[j])),
        decreases candidates@.len() - i,
    {
        let answer = answer_of(probes, candidates[i].as_str());
        out.push((candidates[i].clone(), answer));
        i += 1;
    }
    assert(answers(out@) =~= group_answers(group@, answers(probes@)));
    out
}

/// What a router does about a group's primary.
#[derive(Debug, PartialEq, Eq)]
pub enum OverrideStep {
    /// The recorded primary leads: no override.
    Clear,
    /// Another node leads.
    Point(String),
    /// Nobody reachable leads; what is known stays.
    Keep,
}

/// Whether a step follows from what a group's candidates said.
pub open spec fn override_ok(original: Seq<char>, a: Seq<(Seq<char>, Option<ProbeView>)>, step: OverrideStep) -> bool {
    match step {
        OverrideStep::Keep => forall|i: int| !claims(a, i),
        OverrideStep::Clear => exists|i: int| believed(a, i) && (#[trigger] a[i]).0 == original,
        OverrideStep::Point(w) => w@ != original && exists|i: int| believed(a, i) && (#[trigger] a[i]).0 == w@,
    }
}

/// What comes of a round of probes.
pub struct ProbeRound {
    /// One load per answer; `None` where none was reported and what is known is to be forgotten.
    pub loads: Vec<Option<NodeLoad>>,
    /// One step per group.
    pub overrides: Vec<OverrideStep>,
    /// Where to fetch a newer cluster view, if anywhere.
    pub fetch_from: Option<String>,
}

/// What a router takes from a round of probes: the loads, who leads each group, and where a newer
/// view is to be had.
pub fn router_probe_task(groups: &Vec<ProbeGroup>, probes: &Vec<(String, Option<Probe>)>, ours: &ViewId) -> (r: ProbeRound)
    ensures
        r.loads@.len() == probes@.len(),
        forall|i: int| 0 <= i < probes@.len() ==> #[trigger] r.loads@[i] == (match answers(probes@)[i].1 {
            Some(p) => p.load,
            None => None,
        }),
        r.overrides@.len() == groups@.len(),
        forall|i: int| 0 <= i < groups@.len() ==> override_ok(
            groups@[i]@.original,
            group_answers(groups@[i]@, answers(probes@)),
            #[trigger] r.overrides@[i],
        ),
        match r.fetch_from {
            Some(u) => exists|i: int| furthest(answers(probes@), ours@, i) && u@ == (#[trigger] answers(probes@)[i]).0,
            None => forall|i: int| !ahead(answers(probes@), ours@, i),
        },
{
    let mut loads: Vec<Option<NodeLoad>> = Vec::new();
    let mut i: usize = 0;
    while i < probes.len()
        invariant
            i <= probes@.len(),
            loads@.len() == i,
            forall|j: int| 0 <= j < i ==> #[trigger] loads@[j] == (match answers(probes@)[j].1 {
                Some(p) => p.load,
                None => None,
            }),
        decreases probes@.len() - i,
    {
        let load = match &probes[i].1 {
            Some(p) => p.load,
            None => None,
        };
        loads.push(load);
        i += 1;
    }
    let mut overrides: Vec<OverrideStep> = Vec::new();
    let mut k: usize = 0;
    while k < groups.len()
        invariant
            k <= groups@.len(),
            overrides@.len() == k,
            forall|j: int| 0 <= j < k ==> override_ok(
                groups@[j]@.original,
                group_answers(groups@[j]@, answers(probes@)),
                #[trigger] overrides@[j],
            ),
        decreases groups@.len() - k,
    {
        let said = gather(&groups[k], probes);
        let step = match select_primary(said.as_slice()) {
            Some(winner) => if same_text(winner.as_str(), groups[k].original.as_str()) {
                OverrideStep::Clear
            } else {
                OverrideStep::Point(winner)
            },
            None => OverrideStep::Keep,
        };
        overrides.push(step);
        k += 1;
    }
    let fetch_from = best_cluster_source(probes.as_slice(), ours);
    ProbeRound { loads, overrides, fetch_from }
}

/// Of the nodes that say they lead, only one is believed.
pub proof fn law_one_primary_is_believed(a: Seq<(Seq<char>, Option<ProbeView>)>, i: int, j: int)
    requires
        believed(a, i),
        believed(a, j),
    ensures
        i == j,
{
    assert(claims(a, i) && claims(a, j));
}

/// Only one node is furthest ahead, and its view would be adopted.
pub proof fn law_one_source_is_furthest(a: Seq<(Seq<char>, Option<ProbeView>)>, ours: ViewIdView, i: int, j: int)
    requires
        furthest(a, ours, i),
        furthest(a, ours, j),
    ensures
        i == j,
        a[i].1->0.cluster.supersedes(ours),
{
    assert(ahead(a, ours, i) && ahead(a, ours, j));
}

/// A heartbeat that says its role is heard, with everything else that it says: its term, the view it
/// holds and the load it is under.
pub proof fn law_a_heartbeat_is_heard_whole(v: JsonView)
    ensures
        heard(v) is Some <==> v.member("role"@) is Some && v.member("role"@)->0 is Str,
        heard(v) is Some ==> {
            let h = heard(v)->0;
            let load = v.member("load"@);
            &&& v.member("role"@) == Some(JsonView::Str(h.role))
            &&& v.member("term"@) is Some && (v.member("term"@)->0).number() is Some ==> h.term == (v.member("term"@)->0).number()->0
            &&& v.member("term"@) is None ==> h.term == 0
            &&& v.member("cluster_version"@) is Some && (v.member("cluster_version"@)->0).number() is Some ==> h.cluster.version == (
            v.member("cluster_version"@)->0).number()->0
            &&& v.member("cluster_version"@) is None ==> h.cluster.version == 0
            &&& h.cluster.updated_by is Some <==> v.member("cluster_updated_by"@) is Some && v.member("cluster_updated_by"@)->0 is Str
            &&& h.cluster.updated_by is Some ==> v.member("cluster_updated_by"@) == Some(JsonView::Str(h.cluster.updated_by->0))
            &&& v.member("cluster_seeded"@) == Some(JsonView::Bool(true)) <==> h.cluster.seeded
            &&& h.load is Some <==> load is Some && ((load->0).member("inflight"@) is Some && ((load->0).member("inflight"@)->0).number() is Some)
                && ((load->0).member("latency_ewma_us"@) is Some && ((load->0).member("latency_ewma_us"@)->0).number() is Some)
            &&& h.load is Some ==> h.load->0.inflight == ((load->0).member("inflight"@)->0).number()->0 && h.load->0.latency_ewma_us == (
            (load->0).member("latency_ewma_us"@)->0).number()->0
        },
{
}

/// What stands first stays first: listing more strings changes nothing of how those before them stand.
pub proof fn law_strings_stand_where_they_first_stood(a: Seq<Seq<char>>, b: Seq<Seq<char>>)
    ensures
        each_once(a).len() <= each_once(a + b).len(),
        forall|i: int| 0 <= i < each_once(a).len() ==> #[trigger] each_once(a + b)[i] == each_once(a)[i],
        b.len() == 1 && !a.contains(b[0]) ==> each_once(a + b) == each_once(a).push(b[0]),
    decreases b.len(),
{
    if b.len() == 0 {
        assert(a + b =~= a);
    } else {
        law_strings_stand_where_they_first_stood(a, b.drop_last());
        assert((a + b).drop_last() =~= a + b.drop_last());
        assert((a + b).last() == b.last());
        if b.len() == 1 {
            assert(a + b.drop_last() =~= a);
            lemma_each_once_holds(a, b[0]);
        }
    }
}

proof fn lemma_each_once_holds(v: Seq<Seq<char>>, x: Seq<char>)
    ensures
        each_once(v).contains(x) <==> v.contains(x),
    decreases v.len(),
{
    lemma_joined_hold::<Seq<char>>();
    if v.len() > 0 {
        lemma_each_once_holds(v.drop_last(), x);
        lemma_each_once_holds(v.drop_last(), v.last());
        assert(v =~= v.drop_last().push(v.last()));
    }
}

/// Every node of every group is asked: its recorded primary, its replicas, and who is taken for its
/// primary now.
pub proof fn law_every_node_of_every_group_is_asked(g: Seq<ProbeGroupView>, n: int, url: Seq<char>)
    requires
        0 <= n <= g.len(),
    ensures
        to_ask(g, n).contains(url) <==> exists|i: int|
            0 <= i < n && ((#[trigger] g[i]).original == url || g[i].replicas.contains(url) || g[i].effective == url),
    decreases n,
{
    lemma_joined_hold::<Seq<char>>();
    if n > 0 {
        law_every_node_of_every_group_is_asked(g, n - 1, url);
        lemma_recorded(g[n - 1], url);
        let more = g[n - 1].recorded().push(g[n - 1].effective);
        assert(to_ask(g, n) == to_ask(g, n - 1) + more);
        assert(more.contains(url) <==> g[n - 1].recorded().contains(url) || url == g[n - 1].effective);
    }
}

proof fn lemma_recorded(g: ProbeGroupView, url: Seq<char>)
    ensures
        g.recorded().contains(url) <==> g.original == url || g.replicas.contains(url),
{
    lemma_joined_hold::<Seq<char>>();
    let first = seq![g.original];
    assert(first =~= Seq::<Seq<char>>::empty().push(g.original));
    lemma_each_once_holds(first + g.replicas, url);
    assert((first + g.replicas).contains(url) <==> first.contains(url) || g.replicas.contains(url));
}

/// Whoever may lead a group is a candidate: its recorded primary, each replica, and who is taken for
/// its primary now.
pub proof fn law_whoever_may_lead_is_a_candidate(g: ProbeGroupView, url: Seq<char>)
    ensures
        g.original == url || g.replicas.contains(url) ==> g.candidates().contains(url),
        names(g.candidates(), node(g.effective)),
        g.candidates().contains(url) ==> g.original == url || g.replicas.contains(url) || g.effective == url,
{
    lemma_joined_hold::<Seq<char>>();
    lemma_recorded(g, url);
    if !names(g.recorded(), node(g.effective)) {
        let c = g.recorded().push(g.effective);
        assert(c[g.recorded().len() as int] == g.effective);
        assert(names(c, node(g.effective)));
    }
}

/// A node's answer is the last that came from it, however its URL is spelled.
pub proof fn law_the_last_answer_of_a_node_counts(a: Seq<(Seq<char>, Option<ProbeView>)>, n: Seq<char>)
    ensures
        forall|i: int|
            0 <= i < a.len() && node((#[trigger] a[i]).0) == n && (forall|j: int| i < j < a.len() ==> node((#[trigger] a[j]).0) != n)
                ==> answer_from(a, n) == a[i].1,
        (forall|i: int| 0 <= i < a.len() ==> node((#[trigger] a[i]).0) != n) ==> answer_from(a, n) is None,
    decreases a.len(),
{
    if a.len() > 0 {
        let rest = a.drop_last();
        law_the_last_answer_of_a_node_counts(rest, n);
        assert(a.last() == a[a.len() - 1]);
        assert(forall|i: int| 0 <= i < rest.len() ==> rest[i] == a[i]);
    }
}

/// A group is judged by the answers of its own candidates, each by its own.
pub proof fn law_a_group_is_judged_by_its_own_answers(g: ProbeGroupView, a: Seq<(Seq<char>, Option<ProbeView>)>, i: int)
    requires
        0 <= i < g.candidates().len(),
    ensures
        group_answers(g, a).len() == g.candidates().len(),
        group_answers(g, a)[i].0 == g.candidates()[i],
        group_answers(g, a)[i].1 == answer_from(a, node(g.candidates()[i])),
{
}

} // verus!
