//! Cluster-wide change streams: one upstream subscription per shard group, merged behind a router.
//!
//! A group's feed is a position in that group's own log, so nothing about it is comparable across
//! groups. The subscriber therefore gets a position per group, stamped with the partitioning those
//! positions were taken against, and an ordering guarantee that is per group rather than global.

use super::metadata::groups_view;
use super::probe::{text_at, text_of_member};
use super::router::{
    absent, answered, collection_absent_response, error_body, error_reply, is_success, json_reply, no_primary,
    no_primary_response, opt_reply, refusal, refusal_response, text_reply, told, BodyView, Reply, ReplyView,
    ShardReply, ShardReplyView,
};
use super::scan::{given, lemma_behind, lemma_given_holds, pairs_view};
use crate::endpoint::{node, same_endpoint, same_node};
use crate::escape::{encode_path_segment, escaped, token};
use crate::json::{
    gathered, keys, law_members_are_a_map, law_the_last_of_one_key_is_kept, lemma_found, lemma_model, lookup, members,
    ordered, put, put_member, values, Json, JsonNumber, JsonView, Members,
};
use crate::lists::{lemma_joined_hold, lemma_take_all, lemma_take_grows};
use crate::name_map::{increasing, sorted_distinct, NameMap};
use crate::text::{
    cat2, cat3, cat4, chars_of, decimal, decimal_of, list_holds, lossy, lossy_text, opt_text, pieces, same_text,
    split, text_before, text_of, texts, trim, trimmed,
};
use crate::wire::{
    cursor_fields, decode_cursor, encode_cursor, json_text, lemma_cursor_names, read_json, split_cursor, token_value,
    unmarked, unmarked_members, whole, writable, written,
};
use vstd::prelude::*;
use vstd::utf8::encode_utf8;

verus! {

/// How long, in milliseconds, a group that holds none of the collection waits before asking again. It
/// gains one on whichever write first hashes there, and nothing tells the router when that happened.
pub const ABSENT_RETRY_MS: u64 = 1_000;

/// Between reconnects to a group that has no reachable leader, in milliseconds. Short, because the
/// position is held across the gap and a failover is over in about an election.
pub const RECONNECT_DELAY_MS: u64 = 250;

/// How often, in milliseconds, the shard set is re-read. A change is operator-driven, so this is a
/// liveness bound on noticing one rather than something a request waits on.
pub const TOPOLOGY_POLL_MS: u64 = 250;

/// Events held between the group readers and the subscriber. Full means the readers stop reading,
/// which is what pushes back on the shard feeds instead of growing this router's memory.
pub const MERGE_BUFFER: usize = 512;

/// Ceiling on one unparsed upstream event: four times the largest request body. A shard cannot publish
/// a document above the record cap, so anything larger is a peer that is not speaking the protocol.
pub const MAX_UPSTREAM_EVENT: usize = 8_388_608;

// ---- Positions ----

/// Where each shard group's feed stopped, and the partitioning those positions were taken against.
#[derive(Debug, PartialEq, Eq)]
pub struct ClusterChangeCursor {
    pub ring: u64,
    pub positions: NameMap<u64>,
}

pub ghost struct ClusterChangeCursorView {
    pub ring: u64,
    pub positions: Map<Seq<char>, u64>,
}

impl View for ClusterChangeCursor {
    type V = ClusterChangeCursorView;

    open spec fn view(&self) -> ClusterChangeCursorView {
        ClusterChangeCursorView { ring: self.ring, positions: self.positions@ }
    }
}

impl Default for ClusterChangeCursor {
    fn default() -> (r: Self)
        ensures
            r@ == (ClusterChangeCursorView { ring: 0, positions: Map::empty() }),
    {
        ClusterChangeCursor { ring: 0, positions: NameMap::new() }
    }
}

pub open spec fn opt_position(c: Option<ClusterChangeCursor>) -> Option<ClusterChangeCursorView> {
    match c {
        Some(x) => Some(x@),
        None => None,
    }
}

/// The positions as members, in the order of the groups' names.
pub open spec fn position_members(m: NameMap<u64>) -> Members {
    Seq::new(m.keys().len(), |i: int| (m.keys()[i], whole(m@[m.keys()[i]])))
}

/// A position as a value.
pub open spec fn position_json(c: ClusterChangeCursor) -> JsonView {
    JsonView::Object(seq![("positions"@, JsonView::Object(position_members(c.positions))), ("ring"@, whole(c.ring))])
}

/// Whether every member is a whole number.
pub open spec fn all_whole(p: Members) -> bool {
    forall|i: int| 0 <= i < p.len() ==> (#[trigger] p[i]).1.number() is Some
}

/// The numbers under the keys of an object.
pub open spec fn numbers(p: Members) -> Map<Seq<char>, u64> {
    Map::new(|k: Seq<char>| lookup(p, k) is Some, |k: Seq<char>| (lookup(p, k)->0).number()->0)
}

/// The position that a value is: a layout and the groups' positions.
pub open spec fn position_of(j: JsonView) -> Option<ClusterChangeCursorView> {
    match cursor_fields(j) {
        Some((r, JsonView::Object(p))) => if r.number() is Some && all_whole(p) {
            Some(ClusterChangeCursorView { ring: r.number()->0, positions: numbers(p) })
        } else {
            None
        },
        _ => None,
    }
}

/// The position in a token.
pub open spec fn position_in(t: Seq<char>) -> Option<ClusterChangeCursorView> {
    match token_value(t) {
        Some(j) => position_of(j),
        None => None,
    }
}

/// The token of a position.
pub open spec fn position_token(c: ClusterChangeCursor) -> Seq<char> {
    token(encode_utf8(written(position_json(c))))
}

proof fn lemma_position_members(m: NameMap<u64>)
    requires
        m.keyed(),
    ensures
        ordered(position_members(m)),
        all_whole(position_members(m)),
        numbers(position_members(m)) == m@,
{
    let p = position_members(m);
    assert(ordered(p)) by {
        assert forall|i: int, j: int| 0 <= i < j < p.len() implies text_before(#[trigger] p[i].0, #[trigger] p[j].0) by {
            assert(text_before(m.keys()[i], m.keys()[j]));
        }
    }
    let n = numbers(p);
    assert forall|k: Seq<char>| #[trigger] n.dom().contains(k) <==> m@.dom().contains(k) by {
        lemma_found(p, k);
        if m@.dom().contains(k) {
            assert(m.keys().to_set().contains(k));
            let i = choose|i: int| 0 <= i < m.keys().len() && m.keys()[i] == k;
            assert(p[i].0 == k);
        }
        if n.dom().contains(k) {
            let i = choose|i: int| 0 <= i < p.len() && #[trigger] p[i] == (k, lookup(p, k)->0);
            assert(m.keys()[i] == k);
            assert(m.keys().to_set().contains(k));
        }
    }
    assert forall|k: Seq<char>| #[trigger] n.dom().contains(k) implies n[k] == m@[k] by {
        lemma_found(p, k);
        let i = choose|i: int| 0 <= i < p.len() && #[trigger] p[i] == (k, lookup(p, k)->0);
        assert(m.keys()[i] == k);
    }
    assert(n =~= m@);
}

/// A position's value is read as that position.
proof fn lemma_position_json(c: ClusterChangeCursor)
    requires
        c.positions.keyed(),
    ensures
        position_of(position_json(c)) == Some(c@),
        writable(position_json(c), 4),
        unmarked_members(position_members(c.positions)) ==> unmarked(position_json(c)),
{
    lemma_cursor_names();
    lemma_position_members(c.positions);
    let m = position_json(c)->Object_0;
    assert(m[0].0 == "positions"@ && m[1].0 == "ring"@);
    assert(ordered(m));
    lemma_found(m, "ring"@);
    lemma_found(m, "positions"@);
    let p = position_members(c.positions);
    assert(writable(JsonView::Object(p), 3)) by {
        assert forall|i: int| 0 <= i < p.len() implies writable((#[trigger] p[i]).1, 2) by {
            assert(p[i].1 == whole(c.positions@[c.positions.keys()[i]]));
        }
    }
    assert forall|i: int| 0 <= i < m.len() implies writable((#[trigger] m[i]).1, 3) by {
        if i == 0 {
            assert(m[0].1 == JsonView::Object(p));
        } else {
            assert(m[1].1 == whole(c.ring));
        }
    }
    if unmarked_members(p) {
        assert(unmarked(JsonView::Object(p))) by {
            assert forall|i: int| 0 <= i < p.len() implies unmarked((#[trigger] p[i]).1) by {}
        }
        assert forall|i: int| 0 <= i < m.len() implies unmarked((#[trigger] m[i]).1) by {
            if i == 0 {
                assert(m[0].1 == JsonView::Object(p));
            } else {
                assert(m[1].1 == whole(c.ring));
            }
        }
    }
}

impl ClusterChangeCursor {
    /// The position as a value.
    pub fn to_json(&self) -> (r: Json)
        ensures
            r@ == position_json(*self),
    {
        let n = self.positions.len();
        let mut groups: Vec<(String, Json)> = Vec::new();
        let mut i: usize = 0;
        while i < n
            invariant
                n == self.positions.keys().len(),
                i <= n,
                groups@.len() == i,
                forall|k: int| 0 <= k < i ==> (#[trigger] groups@[k]).0@ == self.positions.keys()[k] && groups@[k].1@
                    == whole(self.positions@[self.positions.keys()[k]]),
            decreases n - i,
        {
            let k = self.positions.key_at(i).clone();
            let v = *self.positions.value_at(i);
            groups.push((k, Json::Number(JsonNumber::PosInt(v))));
            i += 1;
        }
        assert(members(groups@) =~= position_members(self.positions));
        let inner = Json::Object(groups);
        let ring = Json::Number(JsonNumber::PosInt(self.ring));
        proof {
            lemma_model(inner);
        }
        let mut m: Vec<(String, Json)> = Vec::new();
        m.push(("positions".to_owned(), inner));
        m.push(("ring".to_owned(), ring));
        let r = Json::Object(m);
        proof {
            lemma_model(r);
            assert(members(m@) =~= seq![("positions"@, inner@), ("ring"@, whole(self.ring))]);
        }
        r
    }

    /// The position that a value is.
    pub fn from_json(j: &Json) -> (r: Option<ClusterChangeCursor>)
        requires
            j@.wf(),
        ensures
            opt_position(r) == position_of(j@),
    {
        let (first, second) = match split_cursor(j) {
            Some(f) => f,
            None => return None,
        };
        let ring: u64 = match first.as_u64() {
            Some(n) => n,
            None => return None,
        };
        let groups = match second {
            Json::Object(g) => g,
            _ => return None,
        };
        proof {
            lemma_model(*second);
        }
        let ghost p = members(groups@);
        let mut positions: NameMap<u64> = NameMap::new();
        let mut i: usize = 0;
        while i < groups.len()
            invariant
                p == members(groups@),
                ordered(p),
                i <= groups@.len(),
                position_of(j@) == (if all_whole(p) {
                    Some(ClusterChangeCursorView { ring, positions: numbers(p) })
                } else {
                    None
                }),
                forall|k: int| 0 <= k < i ==> (#[trigger] p[k]).1.number() is Some,
                forall|k: Seq<char>| #[trigger] positions@.dom().contains(k) <==> exists|q: int| 0 <= q < i && (#[trigger] p[q]).0 == k,
                forall|q: int| 0 <= q < i ==> positions@[(#[trigger] p[q]).0] == p[q].1.number()->0,
            decreases groups@.len() - i,
        {
            assert(p[i as int] == (groups@[i as int].0@, groups@[i as int].1@));
            let n = match groups[i].1.as_u64() {
                Some(n) => n,
                None => {
                    assert(!all_whole(p));
                    return None;
                },
            };
            let ghost before = positions@;
            positions.insert(groups[i].0.clone(), n);
            proof {
                let key = p[i as int].0;
                assert forall|k: Seq<char>| #[trigger] positions@.dom().contains(k) <==> exists|q: int| 0 <= q < i + 1 && (#[trigger] p[q]).0 == k by {
                    if k == key {
                        assert(p[i as int].0 == k);
                    } else if before.dom().contains(k) {
                        let q = choose|q: int| 0 <= q < i && (#[trigger] p[q]).0 == k;
                        assert(p[q].0 == k);
                    }
                }
                assert forall|q: int| 0 <= q < i + 1 implies positions@[(#[trigger] p[q]).0] == p[q].1.number()->0 by {
                    if q < i {
                        assert(text_before(p[q].0, p[i as int].0));
                        crate::text::lemma_text_order(p[q].0, p[i as int].0);
                    }
                }
            }
            i += 1;
        }
        proof {
            let n = numbers(p);
            assert forall|k: Seq<char>| #[trigger] n.dom().contains(k) <==> positions@.dom().contains(k) by {
                lemma_found(p, k);
                if n.dom().contains(k) {
                    let q = choose|q: int| 0 <= q < p.len() && #[trigger] p[q] == (k, lookup(p, k)->0);
                    assert(p[q].0 == k);
                }
                if positions@.dom().contains(k) {
                    let q = choose|q: int| 0 <= q < i && (#[trigger] p[q]).0 == k;
                    assert(lookup(p, k) == Some(p[q].1));
                }
            }
            assert forall|k: Seq<char>| #[trigger] n.dom().contains(k) implies n[k] == positions@[k] by {
                lemma_found(p, k);
                let q = choose|q: int| 0 <= q < p.len() && #[trigger] p[q] == (k, lookup(p, k)->0);
                assert(positions@[p[q].0] == p[q].1.number()->0);
            }
            assert(n =~= positions@);
        }
        Some(ClusterChangeCursor { ring, positions })
    }

    /// The position as a token, issued as every event's id, so that a browser's own reconnect resumes
    /// each group exactly: reading the token gives the position back, unless the first group's name is
    /// the mark of embedded text.
    pub fn encode(&self) -> (r: String)
        ensures
            r@ == position_token(*self),
            unmarked_members(position_members(self.positions)) ==> position_in(r@) == Some(self@),
    {
        let n = self.positions.len();
        proof {
            lemma_position_json(*self);
        }
        encode_cursor(&self.to_json())
    }

    /// The position in a token. A position of another endpoint is not read as one of these: it would
    /// resume every group from nowhere and call the result a continuation.
    pub fn decode(token: &str) -> (r: Option<ClusterChangeCursor>)
        ensures
            opt_position(r) == position_in(token@),
    {
        match decode_cursor(token) {
            Some(j) => ClusterChangeCursor::from_json(&j),
            None => None,
        }
    }
}

// ---- Subscribing to a group ----

/// What a subscriber asked for.
pub struct ChangeParams {
    pub after: Option<String>,
    pub filter: Option<String>,
    pub ops: Option<String>,
    pub read: Option<String>,
}

/// Where a group's feed is subscribed to at a node.
pub fn subscribe_url(target: &str, collection: &str) -> (r: String)
    ensures
        r@ == target@ + "/collections/"@ + escaped(encode_utf8(collection@)) + "/changes"@,
{
    let c = encode_path_segment(collection);
    cat4(target, "/collections/", c.as_str(), "/changes")
}

/// What of a subscription goes to the shards.
pub open spec fn passed_on(filter: Option<Seq<char>>, ops: Option<Seq<char>>) -> Seq<(Seq<char>, Seq<char>)> {
    seq![("read"@, "primary"@)] + given("filter"@, filter) + given("ops"@, ops)
}

/// The subscriber's filter and operations as they came, evaluated by each shard rather than here: an
/// event the subscriber did not ask for is cheaper refused at its source than carried across the
/// fan-in.
pub fn forwarded_params(params: &ChangeParams) -> (r: Vec<(String, String)>)
    ensures
        pairs_view(r@) == passed_on(opt_text(params.filter), opt_text(params.ops)),
{
    let mut q: Vec<(String, String)> = Vec::new();
    q.push(("read".to_owned(), "primary".to_owned()));
    let ghost one = seq![("read"@, "primary"@)];
    assert(pairs_view(q@) =~= one);
    if let Some(f) = &params.filter {
        q.push(("filter".to_owned(), f.clone()));
    }
    let ghost two = one + given("filter"@, opt_text(params.filter));
    assert(pairs_view(q@) =~= two);
    if let Some(o) = &params.ops {
        q.push(("ops".to_owned(), o.clone()));
    }
    assert(pairs_view(q@) =~= two + given("ops"@, opt_text(params.ops)));
    q
}

/// What a group is asked: the subscription, and the place after which it goes on.
pub open spec fn group_question(forwarded: Seq<(Seq<char>, Seq<char>)>, after: Option<u64>) -> Seq<(Seq<char>, Seq<char>)> {
    forwarded + given(
        "after"@,
        match after {
            Some(a) => Some(decimal_of(a as nat)),
            None => None,
        },
    )
}

/// What a group is asked.
pub fn group_query(forwarded: &Vec<(String, String)>, after: Option<u64>) -> (r: Vec<(String, String)>)
    ensures
        pairs_view(r@) == group_question(pairs_view(forwarded@), after),
{
    let ghost f = pairs_view(forwarded@);
    let mut q: Vec<(String, String)> = Vec::new();
    let mut i: usize = 0;
    while i < forwarded.len()
        invariant
            f == pairs_view(forwarded@),
            i <= forwarded@.len(),
            q@.len() == i,
            forall|k: int| 0 <= k < i ==> (#[trigger] q@[k]).0@ == f[k].0 && q@[k].1@ == f[k].1,
        decreases forwarded@.len() - i,
    {
        q.push((forwarded[i].0.clone(), forwarded[i].1.clone()));
        i += 1;
    }
    assert(pairs_view(q@) =~= f);
    if let Some(a) = after {
        q.push(("after".to_owned(), decimal(a)));
        assert(pairs_view(q@) =~= f + seq![("after"@, decimal_of(a as nat))]);
    } else {
        assert(f + Seq::<(Seq<char>, Seq<char>)>::empty() =~= f);
    }
    q
}

/// What one group answered a subscription with.
pub enum Upstream {
    Live,
    /// The group holds no such collection. Not a failure: a collection narrower than the ring is normal,
    /// and the group may take its first key for it at any write.
    Absent,
    /// The group's own verdict on the request: a position it cannot honour, or a filter it will not
    /// parse. Every candidate in the group reaches the same one, so it is the answer.
    Refused(ShardReply),
    NoPrimary(Option<ShardReply>),
    Failed,
}

pub ghost enum UpstreamView {
    Live,
    Absent,
    Refused(ShardReplyView),
    NoPrimary(Option<ShardReplyView>),
    Failed,
}

impl View for Upstream {
    type V = UpstreamView;

    open spec fn view(&self) -> UpstreamView {
        match *self {
            Upstream::Live => UpstreamView::Live,
            Upstream::Absent => UpstreamView::Absent,
            Upstream::Refused(r) => UpstreamView::Refused(r@),
            Upstream::NoPrimary(r) => UpstreamView::NoPrimary(opt_reply(r)),
            Upstream::Failed => UpstreamView::Failed,
        }
    }
}

/// A subscription to one group, on its way through the nodes that may serve it.
pub struct GroupOpen {
    pub group: String,
    pub effective: String,
    pub targets: Vec<String>,
    pub at: usize,
    pub refused: bool,
    pub primary_refusal: Option<ShardReply>,
}

pub ghost struct GroupOpenView {
    pub group: Seq<char>,
    pub effective: Seq<char>,
    pub targets: Seq<Seq<char>>,
    pub at: int,
    pub refused: bool,
    pub primary_refusal: Option<ShardReplyView>,
}

impl View for GroupOpen {
    type V = GroupOpenView;

    open spec fn view(&self) -> GroupOpenView {
        GroupOpenView {
            group: self.group@,
            effective: self.effective@,
            targets: texts(self.targets@),
            at: self.at as int,
            refused: self.refused,
            primary_refusal: opt_reply(self.primary_refusal),
        }
    }
}

/// What to do next.
pub enum OpenStep {
    Ask(String),
    /// What has become of the subscription, after noting that this node leads, where one is named.
    Done { primary: Option<String>, upstream: Upstream },
}

pub ghost enum OpenStepView {
    Ask(Seq<char>),
    Done { primary: Option<Seq<char>>, upstream: UpstreamView },
}

impl View for OpenStep {
    type V = OpenStepView;

    open spec fn view(&self) -> OpenStepView {
        match *self {
            OpenStep::Ask(n) => OpenStepView::Ask(n@),
            OpenStep::Done { primary, upstream } => OpenStepView::Done { primary: opt_text(primary), upstream: upstream@ },
        }
    }
}

impl GroupOpenView {
    pub open spec fn over(self) -> GroupOpenView {
        GroupOpenView { at: self.targets.len() as int, ..self }
    }

    pub open spec fn exhausted(self) -> OpenStepView {
        OpenStepView::Done {
            primary: None,
            upstream: if self.refused { UpstreamView::NoPrimary(self.primary_refusal) } else { UpstreamView::Failed },
        }
    }

    pub open spec fn onward(self) -> (GroupOpenView, OpenStepView) {
        if self.at + 1 < self.targets.len() {
            (GroupOpenView { at: self.at + 1, ..self }, OpenStepView::Ask(self.targets[self.at + 1]))
        } else {
            (self.over(), self.exhausted())
        }
    }

    /// The state and the step after a reply, or none where the node could not be reached.
    pub open spec fn next(self, reply: Option<ShardReplyView>) -> (GroupOpenView, OpenStepView) {
        if !(0 <= self.at < self.targets.len()) {
            (self.over(), self.exhausted())
        } else {
            let target = self.targets[self.at];
            match reply {
                None => self.onward(),
                Some(r) => if is_success(r.status) {
                    (
                        self.over(),
                        OpenStepView::Done {
                            primary: if same_node(target, self.group) { None } else { Some(target) },
                            upstream: UpstreamView::Live,
                        },
                    )
                } else if r.status == 404 {
                    (self.over(), OpenStepView::Done { primary: None, upstream: UpstreamView::Absent })
                } else if r.status == 503 {
                    (GroupOpenView {
                        refused: true,
                        primary_refusal: if same_node(target, self.effective) { Some(r) } else { self.primary_refusal },
                        ..self
                    }).onward()
                } else {
                    (self.over(), OpenStepView::Done { primary: None, upstream: UpstreamView::Refused(r) })
                },
            }
        }
    }
}

impl GroupOpen {
    /// A subscription to a group through these nodes, its leader first. Asking the leader is not a
    /// freshness preference here but the thing that makes a position portable: every node in the group
    /// numbers the same log, so a resume survives a failover only if whoever answers is the one whose
    /// log the group agrees on.
    pub fn begin(group: String, effective: String, targets: Vec<String>) -> (r: (GroupOpen, OpenStep))
        ensures
            r.0@ == (GroupOpenView {
                group: group@,
                effective: effective@,
                targets: texts(targets@),
                at: 0,
                refused: false,
                primary_refusal: None,
            }),
            r.1@ == (if targets@.len() > 0 { OpenStepView::Ask(targets@[0]@) } else { r.0@.exhausted() }),
    {
        let step = if targets.len() > 0 {
            OpenStep::Ask(targets[0].clone())
        } else {
            OpenStep::Done { primary: None, upstream: Upstream::Failed }
        };
        (GroupOpen { group, effective, targets, at: 0, refused: false, primary_refusal: None }, step)
    }

    fn exhausted(&self) -> (r: OpenStep)
        ensures
            r@ == self@.exhausted(),
    {
        let upstream = if self.refused {
            Upstream::NoPrimary(
                match &self.primary_refusal {
                    Some(r) => Some(ShardReply { status: r.status, body: r.body.clone() }),
                    None => None,
                },
            )
        } else {
            Upstream::Failed
        };
        OpenStep::Done { primary: None, upstream }
    }

    fn onward(&mut self) -> (r: OpenStep)
        requires
            old(self).at < old(self).targets@.len(),
        ensures
            (final(self)@, r@) == old(self)@.onward(),
    {
        if self.targets.len() - self.at > 1 {
            self.at = self.at + 1;
            OpenStep::Ask(self.targets[self.at].clone())
        } else {
            self.at = self.targets.len();
            self.exhausted()
        }
    }

    /// The next thing to do, given the reply, or none where the node could not be reached.
    pub fn open_group(&mut self, reply: Option<ShardReply>) -> (r: OpenStep)
        ensures
            (final(self)@, r@) == old(self)@.next(opt_reply(reply)),
    {
        if self.at >= self.targets.len() {
            self.at = self.targets.len();
            return self.exhausted();
        }
        let target = self.targets[self.at].clone();
        match reply {
            None => self.onward(),
            Some(r) => {
                if 200 <= r.status && r.status < 300 {
                    self.at = self.targets.len();
                    let same = same_endpoint(target.as_str(), self.group.as_str());
                    return OpenStep::Done { primary: if same { None } else { Some(target) }, upstream: Upstream::Live };
                }
                if r.status == 404 {
                    self.at = self.targets.len();
                    return OpenStep::Done { primary: None, upstream: Upstream::Absent };
                }
                if r.status == 503 {
                    self.refused = true;
                    if same_endpoint(target.as_str(), self.effective.as_str()) {
                        self.primary_refusal = Some(r);
                    }
                    return self.onward();
                }
                self.at = self.targets.len();
                OpenStep::Done { primary: None, upstream: Upstream::Refused(r) }
            },
        }
    }
}

// ---- Reading a feed ----

/// Incremental reader of server-sent events. Buffers bytes rather than text, so a chunk that splits a
/// multi-byte character does not lose it to a lossy decode of the half that arrived.
pub struct SseReader {
    pub buf: Vec<u8>,
}

/// Where the first empty line of a buffer is, from a place on.
pub open spec fn gap(b: Seq<u8>, i: int) -> Option<int>
    decreases b.len() - i,
{
    if i + 1 >= b.len() {
        None
    } else if b[i] == 10 && b[i + 1] == 10 {
        Some(i)
    } else {
        gap(b, i + 1)
    }
}

/// Where the first colon of a line is, from a place on.
pub open spec fn colon(line: Seq<char>, i: int) -> Option<int>
    decreases line.len() - i,
{
    if i >= line.len() {
        None
    } else if line[i] == ':' {
        Some(i)
    } else {
        colon(line, i + 1)
    }
}

/// What the lines of a block come to: the event's name, where one is given, and its data.
pub open spec fn fields(lines: Seq<Seq<char>>) -> (Option<Seq<char>>, Seq<char>)
    decreases lines.len(),
{
    if lines.len() == 0 {
        (None, Seq::empty())
    } else {
        let before = fields(lines.drop_last());
        let line = lines.last();
        match colon(line, 0) {
            None => before,
            Some(c) => {
                let value = trim(line.skip(c + 1));
                if line.take(c) == "event"@ {
                    (Some(value), before.1)
                } else if line.take(c) == "data"@ {
                    (before.0, before.1 + value)
                } else {
                    before
                }
            },
        }
    }
}

/// What a block comes to.
pub open spec fn block_fields(b: Seq<u8>) -> (Option<Seq<char>>, Seq<char>) {
    fields(pieces(lossy(b), '\n'))
}

/// The first event of a buffer, by its name and its data, and what is left of the buffer. A block
/// without a name, such as a keep-alive, is passed over.
pub open spec fn scan(b: Seq<u8>) -> (Option<(Seq<char>, Seq<char>)>, Seq<u8>)
    decreases b.len(),
    via scan_decreases
{
    match gap(b, 0) {
        None => (None, b),
        Some(e) => {
            let rest = b.skip(e + 2);
            let f = block_fields(b.take(e + 2));
            match f.0 {
                Some(name) => (Some((name, f.1)), rest),
                None => scan(rest),
            }
        },
    }
}

#[via_fn]
proof fn scan_decreases(b: Seq<u8>) {
    lemma_gap(b, 0);
}

proof fn lemma_gap(b: Seq<u8>, i: int)
    requires
        0 <= i,
    ensures
        match gap(b, i) {
            Some(e) => i <= e && e + 1 < b.len() && b[e] == 10 && b[e + 1] == 10,
            None => true,
        },
    decreases b.len() - i,
{
    if i + 1 < b.len() {
        lemma_gap(b, i + 1);
    }
}

/// The value that an event's data is: null where it is no JSON.
pub open spec fn data_value(data: Seq<char>) -> JsonView {
    match json_text(data) {
        Some(j) => j,
        None => JsonView::Null,
    }
}

fn find_gap(b: &Vec<u8>) -> (r: Option<usize>)
    ensures
        (match r {
            Some(e) => Some(e as int),
            None => None,
        }) == gap(b@, 0),
        r is Some ==> r->0 + 1 < b@.len(),
{
    if b.len() < 2 {
        return None;
    }
    let mut i: usize = 0;
    while i < b.len() - 1
        invariant
            b@.len() >= 2,
            i <= b@.len() - 1,
            gap(b@, 0) == gap(b@, i as int),
        decreases b@.len() - i,
    {
        if b[i] == 10 && b[i + 1] == 10 {
            return Some(i);
        }
        i += 1;
    }
    None
}

fn find_colon(line: &Vec<char>) -> (r: Option<usize>)
    ensures
        (match r {
            Some(c) => Some(c as int),
            None => None,
        }) == colon(line@, 0),
        r is Some ==> r->0 < line@.len(),
{
    let mut i: usize = 0;
    while i < line.len()
        invariant
            i <= line@.len(),
            colon(line@, 0) == colon(line@, i as int),
        decreases line@.len() - i,
    {
        if line[i] == ':' {
            return Some(i);
        }
        i += 1;
    }
    None
}

fn read_fields(block: &Vec<u8>) -> (r: (Option<String>, String))
    ensures
        (opt_text(r.0), r.1@) == block_fields(block@),
{
    let text = lossy_text(block.as_slice());
    let lines = split(text.as_str(), '\n');
    let ghost ls = texts(lines@);
    let mut name: Option<String> = None;
    let mut data: String = String::new();
    let mut i: usize = 0;
    proof {
        assert(ls.take(0) =~= Seq::empty());
        assert(data@ =~= Seq::<char>::empty());
        reveal_strlit("event");
        reveal_strlit("data");
        assert("event"@.len() == 5 && "data"@.len() == 4);
    }
    while i < lines.len()
        invariant
            ls == texts(lines@),
            i <= lines@.len(),
            (opt_text(name), data@) == fields(ls.take(i as int)),
        decreases lines@.len() - i,
    {
        proof {
            lemma_take_grows(ls, i as int);
            assert(ls[i as int] == lines@[i as int]@);
        }
        let line = chars_of(lines[i].as_str());
        if let Some(c) = find_colon(&line) {
            let n = line.len();
            let key = text_of(&line, 0, c);
            let rest = text_of(&line, c + 1, n);
            proof {
                assert(key@ =~= line@.take(c as int));
                assert(rest@ =~= line@.skip(c + 1));
            }
            if same_text(key.as_str(), "event") {
                name = Some(trimmed(rest.as_str()));
            } else if same_text(key.as_str(), "data") {
                let v = trimmed(rest.as_str());
                data = cat2(data.as_str(), v.as_str());
            }
        }
        i += 1;
    }
    proof {
        lemma_take_all(ls);
    }
    (name, data)
}

impl SseReader {
    pub fn new() -> (r: SseReader)
        ensures
            r.buf@ == Seq::<u8>::empty(),
    {
        SseReader { buf: Vec::new() }
    }

    /// Takes in what arrived.
    pub fn push(&mut self, chunk: &[u8])
        ensures
            final(self).buf@ == old(self).buf@ + chunk@,
    {
        let ghost before = self.buf@;
        let mut i: usize = 0;
        assert(before + chunk@.take(0) =~= before);
        while i < chunk.len()
            invariant
                i <= chunk@.len(),
                self.buf@ == before + chunk@.take(i as int),
            decreases chunk@.len() - i,
        {
            proof {
                lemma_take_grows(chunk@, i as int);
            }
            self.buf.push(chunk[i]);
            assert(self.buf@ =~= before + chunk@.take(i + 1));
            i += 1;
        }
        proof {
            lemma_take_all(chunk@);
        }
    }

    pub fn overflowed(&self) -> (r: bool)
        ensures
            r == (self.buf@.len() > MAX_UPSTREAM_EVENT),
    {
        self.buf.len() > MAX_UPSTREAM_EVENT
    }

    /// The next whole event, by its name and its data; none while the tail is still partial. A
    /// keep-alive is a comment line carrying no name, so it comes to nothing and the next block is tried
    /// instead.
    pub fn next_block(&mut self) -> (r: Option<(String, String)>)
        ensures
            ({
                let (event, rest) = scan(old(self).buf@);
                &&& final(self).buf@ == rest
                &&& match r {
                    Some(e) => event == Some((e.0@, e.1@)),
                    None => event is None,
                }
            }),
    {
        let ghost start = self.buf@;
        loop
            invariant
                start == old(self).buf@,
                scan(self.buf@) == scan(start),
            decreases self.buf@.len(),
        {
            let e = match find_gap(&self.buf) {
                Some(e) => e,
                None => return None,
            };
            let ghost b = self.buf@;
            let n = self.buf.len();
            let rest = self.buf.split_off(e + 2);
            let mut block = rest;
            std::mem::swap(&mut self.buf, &mut block);
            proof {
                assert(block@ =~= b.take(e + 2));
                assert(self.buf@ =~= b.skip(e + 2));
            }
            let (name, data) = read_fields(&block);
            if let Some(n) = name {
                return Some((n, data));
            }
        }
    }

    /// The next whole event, by its name and its data's value.
    pub fn next_event(&mut self) -> (r: Option<(String, Json)>)
        ensures
            ({
                let (event, rest) = scan(old(self).buf@);
                &&& final(self).buf@ == rest
                &&& match r {
                    Some(e) => event is Some && (event->0).0 == e.0@ && e.1@ == data_value((event->0).1) && e.1@.wf(),
                    None => event is None,
                }
            }),
    {
        match self.next_block() {
            Some((name, data)) => {
                let value = match read_json(data.as_str()) {
                    Some(j) => j,
                    None => Json::Null,
                };
                Some((name, value))
            },
            None => None,
        }
    }
}

proof fn lemma_gap_extends(a: Seq<u8>, b: Seq<u8>, i: int)
    requires
        0 <= i,
        gap(a, i) is Some,
    ensures
        gap(a + b, i) == gap(a, i),
    decreases a.len() - i,
{
    assert((a + b)[i] == a[i] && (a + b)[i + 1] == a[i + 1]);
    if !(a[i] == 10 && a[i + 1] == 10) {
        lemma_gap_extends(a, b, i + 1);
    }
}

/// Chunk boundaries are the network's, not the protocol's: what arrives later changes no event that is
/// already whole, and an event split across two chunks is the event of both together.
pub proof fn law_chunks_do_not_matter(a: Seq<u8>, b: Seq<u8>)
    ensures
        scan(a).0 is Some ==> scan(a + b) == (scan(a).0, scan(a).1 + b),
        scan(a).0 is None ==> scan(a + b) == scan(scan(a).1 + b),
    decreases a.len(),
{
    if gap(a, 0) is Some {
        let e = gap(a, 0)->0;
        lemma_gap(a, 0);
        lemma_gap_extends(a, b, 0);
        assert((a + b).take(e + 2) =~= a.take(e + 2));
        assert((a + b).skip(e + 2) =~= a.skip(e + 2) + b);
        if block_fields(a.take(e + 2)).0 is None {
            law_chunks_do_not_matter(a.skip(e + 2), b);
        }
    }
}

// ---- One group's feed ----

/// One event, from one group. A change of topology and the end of a feed travel with the changes, so
/// they land in the subscriber's stream where they happened rather than ahead of it.
pub enum Merged {
    Change { shard: String, lsn: u64, payload: Json },
    Topology { ring: u64, shards: Vec<String>, added: Vec<String>, removed: Vec<String> },
    /// A group's feed cannot be continued from where this stream left it. The whole stream ends: a
    /// cluster feed missing one group is a feed with a hole in it.
    Broken { shard: String, error: String, resume_floor: Option<u64> },
}

pub ghost enum MergedView {
    Change { shard: Seq<char>, lsn: u64, payload: JsonView },
    Topology { ring: u64, shards: Seq<Seq<char>>, added: Seq<Seq<char>>, removed: Seq<Seq<char>> },
    Broken { shard: Seq<char>, error: Seq<char>, resume_floor: Option<u64> },
}

impl View for Merged {
    type V = MergedView;

    open spec fn view(&self) -> MergedView {
        match *self {
            Merged::Change { shard, lsn, payload } => MergedView::Change { shard: shard@, lsn, payload: payload@ },
            Merged::Topology { ring, shards, added, removed } => MergedView::Topology {
                ring,
                shards: texts(shards@),
                added: texts(added@),
                removed: texts(removed@),
            },
            Merged::Broken { shard, error, resume_floor } => MergedView::Broken { shard: shard@, error: error@, resume_floor },
        }
    }
}

/// What an event of a feed means.
pub ghost enum Verdict {
    /// Nothing to this stream.
    Skip,
    Change(u64),
    /// The position is gone, which a reconnect cannot undo.
    Broken { error: Seq<char>, floor: u64 },
    /// The feed ended on a handle or a leader, and both come back.
    Reconnect,
}

pub open spec fn number_in(j: JsonView, key: Seq<char>) -> Option<u64> {
    match j.member(key) {
        Some(v) => v.number(),
        None => None,
    }
}

/// The text under a key, or another one.
pub open spec fn text_or(j: JsonView, key: Seq<char>, otherwise: Seq<char>) -> Seq<char> {
    match text_of_member(j.member(key)) {
        Some(t) => t,
        None => otherwise,
    }
}

pub open spec fn verdict(name: Seq<char>, data: JsonView) -> Verdict {
    if name == "change"@ {
        match number_in(data, "lsn"@) {
            Some(lsn) => Verdict::Change(lsn),
            None => Verdict::Skip,
        }
    } else if name == "error"@ {
        match number_in(data, "resume_floor"@) {
            Some(floor) => Verdict::Broken { error: text_or(data, "error"@, "the shard feed ended"@), floor },
            None => Verdict::Reconnect,
        }
    } else {
        Verdict::Skip
    }
}

/// The first event of a buffer that means something, with its data, and what is left of the buffer.
pub open spec fn first_meaning(b: Seq<u8>) -> (Option<(Verdict, JsonView)>, Seq<u8>)
    decreases b.len(),
    via first_meaning_decreases
{
    let (event, rest) = scan(b);
    match event {
        None => (None, rest),
        Some(e) => {
            let v = verdict(e.0, data_value(e.1));
            if v is Skip { first_meaning(rest) } else { (Some((v, data_value(e.1))), rest) }
        },
    }
}

#[via_fn]
proof fn first_meaning_decreases(b: Seq<u8>) {
    lemma_scan_shrinks(b);
}

proof fn lemma_scan_shrinks(b: Seq<u8>)
    ensures
        scan(b).0 is Some ==> scan(b).1.len() < b.len(),
        scan(b).1.len() <= b.len(),
    decreases b.len(),
{
    lemma_gap(b, 0);
    if gap(b, 0) is Some {
        let e = gap(b, 0)->0;
        if block_fields(b.take(e + 2)).0 is None {
            lemma_scan_shrinks(b.skip(e + 2));
        }
    }
}

/// One group's feed: what has arrived of it, and where it has got to.
pub struct GroupFeed {
    pub group: String,
    pub reader: SseReader,
    pub position: Option<u64>,
}

/// What to do with a feed.
pub enum Pump {
    /// Hand this on to the subscriber and go on.
    Emit(Merged),
    /// Read more.
    Read,
    /// The upstream ended for a reason a new subscription from the same position recovers from: a
    /// leader stepped down, a handle was replaced, or the connection dropped.
    Reconnect,
    /// The group can no longer serve this stream's position, and no reconnect changes that: hand this
    /// on and stop.
    Broken(Merged),
}

pub ghost enum PumpView {
    Emit(MergedView),
    Read,
    Reconnect,
    Broken(MergedView),
}

impl View for Pump {
    type V = PumpView;

    open spec fn view(&self) -> PumpView {
        match *self {
            Pump::Emit(m) => PumpView::Emit(m@),
            Pump::Read => PumpView::Read,
            Pump::Reconnect => PumpView::Reconnect,
            Pump::Broken(m) => PumpView::Broken(m@),
        }
    }
}

/// What a feed's buffer asks for.
pub open spec fn pumped(group: Seq<char>, b: Seq<u8>) -> PumpView {
    match first_meaning(b).0 {
        None => PumpView::Read,
        Some((Verdict::Change(lsn), payload)) => PumpView::Emit(MergedView::Change { shard: group, lsn, payload }),
        Some((Verdict::Broken { error, floor }, _)) => PumpView::Broken(
            MergedView::Broken { shard: group, error, resume_floor: Some(floor) },
        ),
        Some(_) => PumpView::Reconnect,
    }
}

fn number_under(j: &Json, key: &str) -> (r: Option<u64>)
    requires
        j@.wf(),
    ensures
        r == number_in(j@, key@),
{
    match j.get(key) {
        Some(v) => v.as_u64(),
        None => None,
    }
}

fn text_under(j: &Json, key: &str, otherwise: &str) -> (r: String)
    requires
        j@.wf(),
    ensures
        r@ == text_or(j@, key@, otherwise@),
{
    match text_at(j, key) {
        Some(t) => t,
        None => otherwise.to_owned(),
    }
}

impl GroupFeed {
    /// What to do next. A change moves the position to its place in the group's log.
    pub fn pump(&mut self) -> (r: Pump)
        ensures
            final(self).group@ == old(self).group@,
            final(self).reader.buf@ == first_meaning(old(self).reader.buf@).1,
            r@ == pumped(old(self).group@, old(self).reader.buf@),
            final(self).position == (match r@ {
                PumpView::Emit(MergedView::Change { shard, lsn, payload }) => Some(lsn),
                _ => old(self).position,
            }),
            match r {
                Pump::Emit(Merged::Change { shard, lsn, payload }) => payload@.wf(),
                _ => true,
            },
    {
        let ghost start = self.reader.buf@;
        proof {
            reveal_strlit("change");
            reveal_strlit("error");
            assert("change"@.len() == 6 && "error"@.len() == 5);
        }
        loop
            invariant
                "change"@ != "error"@,
                self.group@ == old(self).group@,
                self.position == old(self).position,
                start == old(self).reader.buf@,
                first_meaning(self.reader.buf@) == first_meaning(start),
            decreases self.reader.buf@.len(),
        {
            proof {
                lemma_scan_shrinks(self.reader.buf@);
            }
            let (name, data) = match self.reader.next_event() {
                Some(e) => e,
                None => return Pump::Read,
            };
            if same_text(name.as_str(), "change") {
                if let Some(lsn) = number_under(&data, "lsn") {
                    self.position = Some(lsn);
                    return Pump::Emit(Merged::Change { shard: self.group.clone(), lsn, payload: data });
                }
            } else if same_text(name.as_str(), "error") {
                return match number_under(&data, "resume_floor") {
                    Some(floor) => {
                        let error = text_under(&data, "error", "the shard feed ended");
                        Pump::Broken(Merged::Broken { shard: self.group.clone(), error, resume_floor: Some(floor) })
                    },
                    None => Pump::Reconnect,
                };
            }
        }
    }

    /// Takes in what arrived, or gives the feed up where what is left unread is more than an event can
    /// be.
    pub fn receive(&mut self, chunk: &[u8]) -> (r: Option<Merged>)
        ensures
            final(self).group@ == old(self).group@,
            final(self).position == old(self).position,
            final(self).reader.buf@ == old(self).reader.buf@ + chunk@,
            match r {
                Some(m) => old(self).reader.buf@.len() + chunk@.len() > MAX_UPSTREAM_EVENT && m@ == (MergedView::Broken {
                    shard: old(self).group@,
                    error: "the shard feed sent an event larger than this router will read"@,
                    resume_floor: None,
                }),
                None => old(self).reader.buf@.len() + chunk@.len() <= MAX_UPSTREAM_EVENT,
            },
    {
        self.reader.push(chunk);
        if self.reader.overflowed() {
            Some(
                Merged::Broken {
                    shard: self.group.clone(),
                    error: "the shard feed sent an event larger than this router will read".to_owned(),
                    resume_floor: None,
                },
            )
        } else {
            None
        }
    }
}

/// What to do about a group whose subscription came to something.
pub enum GroupAction {
    /// Read its feed.
    Pump,
    /// Forget what is taken for the primary, where asked, and subscribe again after some milliseconds.
    Retry { forget_primary: bool, after_ms: u64 },
    /// Hand this on and stop.
    Stop(Merged),
}

pub ghost enum GroupActionView {
    Pump,
    Retry { forget_primary: bool, after_ms: u64 },
    Stop(MergedView),
}

impl View for GroupAction {
    type V = GroupActionView;

    open spec fn view(&self) -> GroupActionView {
        match *self {
            GroupAction::Pump => GroupActionView::Pump,
            GroupAction::Retry { forget_primary, after_ms } => GroupActionView::Retry { forget_primary, after_ms },
            GroupAction::Stop(m) => GroupActionView::Stop(m@),
        }
    }
}

pub open spec fn group_action(group: Seq<char>, u: UpstreamView) -> GroupActionView {
    match u {
        UpstreamView::Live => GroupActionView::Pump,
        UpstreamView::Absent => GroupActionView::Retry { forget_primary: false, after_ms: ABSENT_RETRY_MS },
        UpstreamView::Refused(reply) => GroupActionView::Stop(refused_feed(group, data_value(reply.body))),
        _ => GroupActionView::Retry { forget_primary: true, after_ms: RECONNECT_DELAY_MS },
    }
}

/// What a subscriber is told of a group that refused the position.
pub open spec fn refused_feed(group: Seq<char>, body: JsonView) -> MergedView {
    MergedView::Broken {
        shard: group,
        error: text_or(body, "error"@, "the shard refused this position"@),
        resume_floor: number_in(body, "resume_floor"@),
    }
}

/// What a subscriber is told of a group that refused the position, from the body of the refusal.
pub fn refused_position(group: &str, body: &Json) -> (r: Merged)
    requires
        body@.wf(),
    ensures
        r@ == refused_feed(group@, body@),
{
    Merged::Broken {
        shard: group.to_owned(),
        error: text_under(body, "error", "the shard refused this position"),
        resume_floor: number_under(body, "resume_floor"),
    }
}

/// What to do about a group whose subscription came to something.
pub fn run_group(group: &str, upstream: &Upstream) -> (r: GroupAction)
    ensures
        r@ == group_action(group@, upstream@),
{
    match upstream {
        Upstream::Live => GroupAction::Pump,
        Upstream::Absent => GroupAction::Retry { forget_primary: false, after_ms: ABSENT_RETRY_MS },
        Upstream::Refused(reply) => {
            let body = match read_json(reply.body.as_str()) {
                Some(j) => j,
                None => Json::Null,
            };
            GroupAction::Stop(refused_position(group, &body))
        },
        Upstream::NoPrimary(_) => GroupAction::Retry { forget_primary: true, after_ms: RECONNECT_DELAY_MS },
        Upstream::Failed => GroupAction::Retry { forget_primary: true, after_ms: RECONNECT_DELAY_MS },
    }
}

// ---- The set of groups ----

/// The names of some groups.
pub open spec fn group_names(g: Seq<(Seq<char>, Seq<Seq<char>>)>) -> Seq<Seq<char>> {
    Seq::new(g.len(), |i: int| g[i].0)
}

/// The strings of a list that are not in another one.
pub open spec fn lacking(v: Seq<Seq<char>>, other: Seq<Seq<char>>) -> Seq<Seq<char>>
    decreases v.len(),
{
    if v.len() == 0 {
        Seq::empty()
    } else {
        let before = lacking(v.drop_last(), other);
        if other.contains(v.last()) { before } else { before.push(v.last()) }
    }
}

fn missing_from(v: &Vec<String>, other: &Vec<String>) -> (r: Vec<String>)
    ensures
        texts(r@) == lacking(texts(v@), texts(other@)),
{
    let ghost all = texts(v@);
    let mut out: Vec<String> = Vec::new();
    let mut i: usize = 0;
    assert(all.take(0) =~= Seq::empty());
    assert(texts(out@) =~= lacking(all.take(0), texts(other@)));
    while i < v.len()
        invariant
            all == texts(v@),
            i <= v@.len(),
            texts(out@) == lacking(all.take(i as int), texts(other@)),
        decreases v@.len() - i,
    {
        proof {
            lemma_take_grows(all, i as int);
        }
        let ghost before = texts(out@);
        if !list_holds(other, v[i].as_str()) {
            out.push(v[i].clone());
            assert(texts(out@) =~= before.push(all[i as int]));
        }
        i += 1;
    }
    proof {
        lemma_take_all(all);
    }
    out
}

fn names_of_groups(owners: &Vec<(String, Vec<String>)>) -> (r: Vec<String>)
    ensures
        texts(r@) == group_names(groups_view(owners@)),
{
    let mut out: Vec<String> = Vec::new();
    let mut i: usize = 0;
    while i < owners.len()
        invariant
            i <= owners@.len(),
            out@.len() == i,
            forall|k: int| 0 <= k < i ==> (#[trigger] out@[k])@ == owners@[k].0@,
        decreases owners@.len() - i,
    {
        out.push(owners[i].0.clone());
        i += 1;
    }
    assert(texts(out@) =~= group_names(groups_view(owners@)));
    out
}

/// What a move of the shard set comes to, or none where the layout is as it was: the groups now, each
/// once and in order; those that have no reader yet; and the readers whose group is gone. A new group
/// is read from wherever it is now: it owned nothing under the old partitioning, so no client write
/// reached it, and what it holds arrived by handover.
pub fn supervise(ring: u64, next: u64, owners: &Vec<(String, Vec<String>)>, readers: &Vec<String>) -> (r: Option<Merged>)
    ensures
        match r {
            None => next == ring,
            Some(m) => {
                &&& next != ring
                &&& m@ is Topology
                &&& m@->ring == next
                &&& increasing(m@->shards) && m@->shards.to_set() == group_names(groups_view(owners@)).to_set()
                &&& m@->added == lacking(m@->shards, texts(readers@))
                &&& m@->removed == lacking(texts(readers@), m@->shards)
            },
        },
{
    if next == ring {
        return None;
    }
    let names = names_of_groups(owners);
    let shards = sorted_distinct(&names);
    let added = missing_from(&shards, readers);
    let removed = missing_from(readers, &shards);
    Some(Merged::Topology { ring: next, shards, added, removed })
}

/// After a move every group has a reader and every reader a group: what stays and what is added are
/// the groups, and nothing that is removed is one.
pub proof fn law_one_reader_per_group(shards: Seq<Seq<char>>, readers: Seq<Seq<char>>, g: Seq<char>)
    ensures
        shards.contains(g) <==> (lacking(shards, readers).contains(g) || (readers.contains(g) && !lacking(readers, shards).contains(g))),
{
    lemma_lacking(shards, readers, g);
    lemma_lacking(readers, shards, g);
}

proof fn lemma_lacking(v: Seq<Seq<char>>, other: Seq<Seq<char>>, q: Seq<char>)
    ensures
        lacking(v, other).contains(q) <==> v.contains(q) && !other.contains(q),
    decreases v.len(),
{
    if v.len() > 0 {
        let rest = v.drop_last();
        let before = lacking(rest, other);
        let r = lacking(v, other);
        lemma_lacking(rest, other, q);
        assert(v[v.len() - 1] == v.last());
        if rest.contains(q) {
            let i = choose|i: int| 0 <= i < rest.len() && rest[i] == q;
            assert(v[i] == q);
        }
        if v.contains(q) && q != v.last() {
            let i = choose|i: int| 0 <= i < v.len() && v[i] == q;
            assert(rest[i] == q);
        }
        if !other.contains(v.last()) {
            assert(r[before.len() as int] == v.last());
            if before.contains(q) {
                let i = choose|i: int| 0 <= i < before.len() && before[i] == q;
                assert(r[i] == q);
            }
            if r.contains(q) && q != v.last() {
                let i = choose|i: int| 0 <= i < r.len() && r[i] == q;
                assert(before[i] == q);
            }
        }
    }
}

// ---- The merged stream ----

/// One frame of a stream, whatever carries it.
#[derive(Debug, PartialEq, Eq)]
pub struct CdcFrame {
    pub name: String,
    pub id: Option<String>,
    pub body: Json,
}

pub ghost struct CdcFrameView {
    pub name: Seq<char>,
    pub id: Option<Seq<char>>,
    pub body: JsonView,
}

impl View for CdcFrame {
    type V = CdcFrameView;

    open spec fn view(&self) -> CdcFrameView {
        CdcFrameView { name: self.name@, id: opt_text(self.id), body: self.body@ }
    }
}

/// The merged feed as a transport consumes it.
pub struct ClusterStream {
    pub collection: String,
    pub cursor: ClusterChangeCursor,
    pub shards: Vec<String>,
    pub opened: bool,
    pub ended: bool,
}

pub ghost struct ClusterStreamView {
    pub collection: Seq<char>,
    pub cursor: ClusterChangeCursorView,
    pub shards: Seq<Seq<char>>,
    pub opened: bool,
    pub ended: bool,
}

impl View for ClusterStream {
    type V = ClusterStreamView;

    open spec fn view(&self) -> ClusterStreamView {
        ClusterStreamView {
            collection: self.collection@,
            cursor: self.cursor@,
            shards: texts(self.shards@),
            opened: self.opened,
            ended: self.ended,
        }
    }
}

/// What comes before anything is received.
pub enum FrameStep {
    Frame(CdcFrame),
    /// Receive an event.
    Receive,
    /// The stream is over.
    End,
}

/// Texts as a value.
pub open spec fn text_values(v: Seq<Seq<char>>) -> JsonView {
    JsonView::Array(Seq::new(v.len(), |i: int| JsonView::Str(v[i])))
}

/// Texts as a value.
pub fn text_list(v: &Vec<String>) -> (r: Json)
    ensures
        r@ == text_values(texts(v@)),
        r@.wf(),
{
    let mut out: Vec<Json> = Vec::new();
    let mut i: usize = 0;
    while i < v.len()
        invariant
            i <= v@.len(),
            out@.len() == i,
            forall|k: int| 0 <= k < i ==> (#[trigger] out@[k])@ == JsonView::Str(v@[k]@),
        decreases v@.len() - i,
    {
        out.push(Json::Str(v[i].clone()));
        i += 1;
    }
    let r = Json::Array(out);
    proof {
        lemma_model(r);
        assert(values(out@) =~= Seq::new(texts(v@).len(), |i: int| JsonView::Str(texts(v@)[i])));
        assert forall|i: int| 0 <= i < values(out@).len() implies (#[trigger] values(out@)[i]).wf() by {
            assert(values(out@)[i] == JsonView::Str(v@[i]@));
        }
    }
    r
}

/// The first frame: which groups are watched, and from where.
pub open spec fn open_body(collection: Seq<char>, shards: Seq<Seq<char>>, position: Seq<char>) -> JsonView {
    JsonView::Object(
        gathered(
            seq![
                ("collection"@, JsonView::Str(collection)),
                ("shards"@, text_values(shards)),
                ("position"@, JsonView::Str(position)),
            ],
        ),
    )
}

/// The frame of a move of the shard set.
pub open spec fn topology_body(ring: u64, shards: Seq<Seq<char>>, added: Seq<Seq<char>>, removed: Seq<Seq<char>>, position: Seq<char>) -> JsonView {
    JsonView::Object(
        gathered(
            seq![
                ("ring"@, whole(ring)),
                ("shards"@, text_values(shards)),
                ("added"@, text_values(added)),
                ("removed"@, text_values(removed)),
                ("position"@, JsonView::Str(position)),
            ],
        ),
    )
}

/// The frame of a feed's end.
pub open spec fn broken_body(shard: Seq<char>, error: Seq<char>, floor: Option<u64>) -> JsonView {
    let both = seq![("error"@, JsonView::Str(error)), ("shard"@, JsonView::Str(shard))];
    JsonView::Object(
        gathered(
            match floor {
                Some(f) => both.push(("resume_floor"@, whole(f))),
                None => both,
            },
        ),
    )
}

/// A payload that names the group which published it.
pub open spec fn stamped(payload: JsonView, shard: Seq<char>) -> JsonView {
    match payload {
        JsonView::Object(m) => JsonView::Object(put(m, "shard"@, JsonView::Str(shard))),
        _ => payload,
    }
}

fn stamp(payload: Json, shard: &str) -> (r: Json)
    requires
        payload@.wf(),
    ensures
        r@ == stamped(payload@, shard@),
{
    match payload {
        Json::Object(m) => {
            proof {
                lemma_model(Json::Object(m));
            }
            let r = Json::Object(put_member(m, "shard", Json::Str(shard.to_owned())));
            proof {
                lemma_model(r);
            }
            r
        },
        _ => payload,
    }
}

/// The stream's state after what it received.
pub open spec fn after(s: ClusterStreamView, m: Option<MergedView>) -> ClusterStreamView {
    match m {
        Some(MergedView::Change { shard, lsn, payload }) => ClusterStreamView {
            cursor: ClusterChangeCursorView { ring: s.cursor.ring, positions: s.cursor.positions.insert(shard, lsn) },
            ..s
        },
        Some(MergedView::Topology { ring, shards, added, removed }) => ClusterStreamView {
            cursor: ClusterChangeCursorView { ring, positions: s.cursor.positions.restrict(shards.to_set()) },
            shards,
            ..s
        },
        _ => ClusterStreamView { ended: true, ..s },
    }
}

/// The frame for what was received, with the token of the position that the stream has then.
pub open spec fn frame(m: Option<MergedView>, position: Seq<char>) -> CdcFrameView {
    match m {
        Some(MergedView::Change { shard, lsn, payload }) => CdcFrameView {
            name: "change"@,
            id: Some(position),
            body: stamped(payload, shard),
        },
        Some(MergedView::Topology { ring, shards, added, removed }) => CdcFrameView {
            name: "topology"@,
            id: None,
            body: topology_body(ring, shards, added, removed, position),
        },
        Some(MergedView::Broken { shard, error, resume_floor }) => CdcFrameView {
            name: "error"@,
            id: None,
            body: broken_body(shard, error, resume_floor),
        },
        None => CdcFrameView {
            name: "error"@,
            id: None,
            body: error_body("this router stopped coordinating the stream; resubscribe"@),
        },
    }
}

pub open spec fn opt_merged(m: Option<Merged>) -> Option<MergedView> {
    match m {
        Some(x) => Some(x@),
        None => None,
    }
}

fn keep_groups(positions: &NameMap<u64>, shards: &Vec<String>) -> (r: NameMap<u64>)
    ensures
        r@ == positions@.restrict(texts(shards@).to_set()),
{
    let n = positions.len();
    let ghost ks = positions.keys();
    let ghost keep = texts(shards@).to_set();
    let mut out: NameMap<u64> = NameMap::new();
    let mut i: usize = 0;
    while i < n
        invariant
            n == positions.keys().len(),
            ks == positions.keys(),
            positions.keyed(),
            keep == texts(shards@).to_set(),
            i <= n,
            forall|k: Seq<char>| #[trigger] out@.dom().contains(k) <==> keep.contains(k) && ks.take(i as int).contains(k),
            forall|k: Seq<char>| #[trigger] out@.dom().contains(k) ==> out@[k] == positions@[k],
        decreases n - i,
    {
        proof {
            lemma_take_grows(ks, i as int);
        }
        let key = positions.key_at(i);
        if list_holds(shards, key.as_str()) {
            let v = *positions.value_at(i);
            out.insert(key.clone(), v);
        }
        i += 1;
    }
    proof {
        lemma_take_all(ks);
        let want = positions@.restrict(keep);
        assert forall|k: Seq<char>| #[trigger] out@.dom().contains(k) <==> want.dom().contains(k) by {
            assert(ks.contains(k) <==> ks.to_set().contains(k));
        }
        assert(out@ =~= want);
    }
    out
}

impl ClusterStream {
    /// What comes before anything is received: the first frame, once, and nothing after the end.
    pub fn begin_frame(&mut self) -> (r: FrameStep)
        ensures
            final(self)@ == (ClusterStreamView { opened: true, ..old(self)@ }),
            final(self).cursor == old(self).cursor,
            match r {
                FrameStep::Frame(f) => !old(self).opened && f@ == (CdcFrameView {
                    name: "open"@,
                    id: None,
                    body: open_body(old(self)@.collection, old(self)@.shards, position_token(old(self).cursor)),
                }),
                FrameStep::End => old(self).opened && old(self).ended,
                FrameStep::Receive => old(self).opened && !old(self).ended,
            },
    {
        if !self.opened {
            self.opened = true;
            let list = text_list(&self.shards);
            let position = self.cursor.encode();
            let mut pairs: Vec<(String, Json)> = Vec::new();
            pairs.push(("collection".to_owned(), Json::Str(self.collection.clone())));
            pairs.push(("shards".to_owned(), list));
            pairs.push(("position".to_owned(), Json::Str(position)));
            assert(members(pairs@) =~= seq![
                ("collection"@, JsonView::Str(self.collection@)),
                ("shards"@, text_values(texts(self.shards@))),
                ("position"@, JsonView::Str(position@)),
            ]);
            return FrameStep::Frame(CdcFrame { name: "open".to_owned(), id: None, body: Json::object(pairs) });
        }
        if self.ended {
            return FrameStep::End;
        }
        FrameStep::Receive
    }

    /// The frame for what was received. Nothing received is the end of the channel, which only the
    /// supervisor closes, when it is being dropped.
    pub fn next_frame(&mut self, received: Option<Merged>) -> (r: CdcFrame)
        requires
            match received {
                Some(Merged::Change { shard, lsn, payload }) => payload@.wf(),
                _ => true,
            },
        ensures
            final(self)@ == after(old(self)@, opt_merged(received)),
            r@ == frame(opt_merged(received), position_token(final(self).cursor)),
    {
        match received {
            Some(Merged::Change { shard, lsn, payload }) => {
                self.cursor.positions.insert(shard.clone(), lsn);
                let body = stamp(payload, shard.as_str());
                let id = Some(self.cursor.encode());
                CdcFrame { name: "change".to_owned(), id, body }
            },
            Some(Merged::Topology { ring, shards, added, removed }) => {
                let kept = keep_groups(&self.cursor.positions, &shards);
                self.cursor = ClusterChangeCursor { ring, positions: kept };
                let position = self.cursor.encode();
                let mut pairs: Vec<(String, Json)> = Vec::new();
                pairs.push(("ring".to_owned(), Json::Number(JsonNumber::PosInt(ring))));
                pairs.push(("shards".to_owned(), text_list(&shards)));
                pairs.push(("added".to_owned(), text_list(&added)));
                pairs.push(("removed".to_owned(), text_list(&removed)));
                pairs.push(("position".to_owned(), Json::Str(position)));
                assert(members(pairs@) =~= seq![
                    ("ring"@, whole(ring)),
                    ("shards"@, text_values(texts(shards@))),
                    ("added"@, text_values(texts(added@))),
                    ("removed"@, text_values(texts(removed@))),
                    ("position"@, JsonView::Str(position@)),
                ]);
                self.shards = shards;
                CdcFrame { name: "topology".to_owned(), id: None, body: Json::object(pairs) }
            },
            Some(Merged::Broken { shard, error, resume_floor }) => {
                self.ended = true;
                let ghost both = seq![("error"@, JsonView::Str(error@)), ("shard"@, JsonView::Str(shard@))];
                let mut pairs: Vec<(String, Json)> = Vec::new();
                pairs.push(("error".to_owned(), Json::Str(error)));
                pairs.push(("shard".to_owned(), Json::Str(shard)));
                assert(members(pairs@) =~= both);
                if let Some(floor) = resume_floor {
                    pairs.push(("resume_floor".to_owned(), Json::Number(JsonNumber::PosInt(floor))));
                    assert(members(pairs@) =~= both.push(("resume_floor"@, whole(floor))));
                }
                CdcFrame { name: "error".to_owned(), id: None, body: Json::object(pairs) }
            },
            None => {
                self.ended = true;
                let body = crate::model::err_json("this router stopped coordinating the stream; resubscribe".to_owned());
                CdcFrame { name: "error".to_owned(), id: None, body }
            },
        }
    }
}

/// A change moves the position of the group that published it and of no other.
pub proof fn law_a_change_moves_one_group(s: ClusterStreamView, shard: Seq<char>, lsn: u64, payload: JsonView, g: Seq<char>)
    ensures
        ({
            let t = after(s, Some(MergedView::Change { shard, lsn, payload }));
            &&& t.cursor.positions.dom().contains(shard) && t.cursor.positions[shard] == lsn
            &&& g != shard ==> (t.cursor.positions.dom().contains(g) <==> s.cursor.positions.dom().contains(g))
            &&& g != shard && s.cursor.positions.dom().contains(g) ==> t.cursor.positions[g] == s.cursor.positions[g]
            &&& t.cursor.ring == s.cursor.ring
        }),
{
}

/// After a move of the shard set a position names the new layout and only groups of it, each where it
/// was.
pub proof fn law_a_position_names_the_layout_it_was_taken_in(
    s: ClusterStreamView,
    ring: u64,
    shards: Seq<Seq<char>>,
    added: Seq<Seq<char>>,
    removed: Seq<Seq<char>>,
    g: Seq<char>,
)
    ensures
        ({
            let t = after(s, Some(MergedView::Topology { ring, shards, added, removed }));
            &&& t.cursor.ring == ring
            &&& t.cursor.positions.dom().contains(g) <==> s.cursor.positions.dom().contains(g) && shards.contains(g)
            &&& t.cursor.positions.dom().contains(g) ==> t.cursor.positions[g] == s.cursor.positions[g]
        }),
{
    let p = after(s, Some(MergedView::Topology { ring, shards, added, removed })).cursor.positions;
    assert(shards.to_set().contains(g) <==> shards.contains(g));
}

// ---- Opening a stream ----

/// Why a stream is refused before anything is opened.
pub open spec fn refused_early(after: Option<Seq<char>>, ring: u64, groups: int) -> Option<ReplyView> {
    if after is Some && position_in(after->0) is None {
        Some(answered(400, error_body("position does not belong to a cluster change stream"@)))
    } else if groups == 0 {
        Some(no_primary())
    } else if after is Some && (position_in(after->0)->0).ring != ring {
        Some(answered(409, error_body("position was issued against a different shard layout; resubscribe"@)))
    } else {
        None
    }
}

/// The positions had been right when they were issued and no position replaces them. Ownership moved
/// while nobody was watching the seam, so the changes that crossed it were published on groups this
/// stream had no subscription to, and no resume covers them.
pub fn stale_partitioning_response() -> (r: Reply)
    ensures
        r@ == answered(409, error_body("position was issued against a different shard layout; resubscribe"@)),
{
    error_reply(409, "position was issued against a different shard layout; resubscribe".to_owned())
}

/// The positions that a stream starts from, or why it is refused before anything is opened: a position
/// from another partitioning names groups that may not exist and omits ones that do, and neither is
/// recoverable by asking the shards.
pub fn stream_positions(after: Option<&str>, ring: u64, groups: usize) -> (r: Result<NameMap<u64>, Reply>)
    ensures
        ({
            let a = match after {
                Some(t) => Some(t@),
                None => None,
            };
            match r {
                Ok(p) => refused_early(a, ring, groups as int) is None && p@ == (match a {
                    Some(t) => (position_in(t)->0).positions,
                    None => Map::empty(),
                }),
                Err(e) => refused_early(a, ring, groups as int) == Some(e@),
            }
        }),
{
    let resume: Option<ClusterChangeCursor> = match after {
        Some(t) => match ClusterChangeCursor::decode(t) {
            Some(c) => Some(c),
            None => return Err(error_reply(400, "position does not belong to a cluster change stream".to_owned())),
        },
        None => None,
    };
    if groups == 0 {
        return Err(no_primary_response());
    }
    match resume {
        Some(c) => if c.ring != ring {
            Err(stale_partitioning_response())
        } else {
            Ok(c.positions)
        },
        None => Ok(NameMap::new()),
    }
}

/// The position of a group, where there is one.
pub open spec fn position_at(positions: Map<Seq<char>, u64>, group: Seq<char>) -> Option<u64> {
    if positions.dom().contains(group) { Some(positions[group]) } else { None }
}

/// The position after which a group is asked for its changes when the stream opens.
pub fn asked_after(positions: &NameMap<u64>, group: &str) -> (r: Option<u64>)
    ensures
        r == position_at(positions@, group@),
{
    match positions.get(group) {
        Some(p) => Some(*p),
        None => None,
    }
}

/// Where a group's reader starts: a live group goes on from its position, and one that does not hold
/// the collection yet is read from whatever it first publishes.
pub fn reader_start(positions: &NameMap<u64>, group: &str, upstream: &Upstream) -> (r: Option<u64>)
    ensures
        r == (match upstream@ {
            UpstreamView::Live => position_at(positions@, group@),
            _ => None,
        }),
{
    match upstream {
        Upstream::Live => asked_after(positions, group),
        _ => None,
    }
}

/// What a group's answer ends the opening with, if it does.
pub open spec fn refused_by(group: Seq<char>, u: UpstreamView) -> Option<ReplyView> {
    match u {
        UpstreamView::Live => None,
        UpstreamView::Absent => None,
        UpstreamView::Refused(reply) => Some(answered(reply.status, stamped(reply.content(), group))),
        UpstreamView::NoPrimary(r) => Some(refusal(r)),
        UpstreamView::Failed => Some(told(502, "shard group "@ + group + " could not be reached for a change stream"@)),
    }
}

/// What the first of some groups' answers that ends the opening ends it with.
pub open spec fn first_refusal(v: Seq<(String, Upstream)>, n: int) -> Option<ReplyView>
    decreases n,
{
    if n <= 0 {
        None
    } else {
        match first_refusal(v, n - 1) {
            Some(r) => Some(r),
            None => refused_by(v[n - 1].0@, v[n - 1].1@),
        }
    }
}

/// The groups among the first `n` whose feed is live, or which do not hold the collection.
pub open spec fn groups_with(v: Seq<(String, Upstream)>, live: bool, n: int) -> Seq<Seq<char>>
    decreases n,
{
    if n <= 0 {
        Seq::empty()
    } else {
        let before = groups_with(v, live, n - 1);
        if (live && v[n - 1].1 is Live) || (!live && v[n - 1].1 is Absent) { before.push(v[n - 1].0@) } else { before }
    }
}

proof fn lemma_refusal_stays(v: Seq<(String, Upstream)>, i: int, n: int)
    requires
        0 <= i <= n,
        first_refusal(v, i) is Some,
    ensures
        first_refusal(v, n) == first_refusal(v, i),
    decreases n,
{
    if i < n {
        lemma_refusal_stays(v, i, n - 1);
    }
}

fn refused_reply(group: &str, u: &Upstream) -> (r: Option<Reply>)
    ensures
        (match r {
            Some(x) => Some(x@),
            None => None,
        }) == refused_by(group@, u@),
{
    match u {
        Upstream::Live => None,
        Upstream::Absent => None,
        Upstream::Refused(reply) => {
            let own = ShardReply { status: reply.status, body: reply.body.clone() };
            Some(json_reply(reply.status, stamp(own.into_content(), group)))
        },
        Upstream::NoPrimary(r) => Some(
            refusal_response(
                match r {
                    Some(x) => Some(ShardReply { status: x.status, body: x.body.clone() }),
                    None => None,
                },
            ),
        ),
        Upstream::Failed => {
            let text = cat3("shard group ", group, " could not be reached for a change stream");
            Some(text_reply(502, text.as_str()))
        },
    }
}

/// The stream over the groups that were asked, or what the subscriber is answered instead. A cluster
/// feed short one group would deliver a subset of the collection's changes and call it the collection,
/// so it refuses instead of opening; a group that does not hold the collection yet is watched too.
pub fn open_cluster_stream(
    collection: &str,
    ring: u64,
    positions: NameMap<u64>,
    opened: &Vec<(String, Upstream)>,
) -> (r: Result<ClusterStream, Reply>)
    ensures
        ({
            let n = opened@.len() as int;
            let live = groups_with(opened@, true, n);
            let missing = groups_with(opened@, false, n);
            let nowhere = live.len() == 0 && missing.len() > 0;
            match r {
                Err(e) => match first_refusal(opened@, n) {
                    Some(x) => e@ == x,
                    None => nowhere && e@ == absent(collection@),
                },
                Ok(s) => {
                    &&& first_refusal(opened@, n) is None && !nowhere
                    &&& s@.collection == collection@
                    &&& s@.cursor == (ClusterChangeCursorView { ring, positions: positions@ })
                    &&& s@.shards == crate::sorting::sorted(live + missing)
                    &&& !s.opened && !s.ended
                },
            }
        }),
{
    let mut live: Vec<String> = Vec::new();
    let mut missing: Vec<String> = Vec::new();
    let mut i: usize = 0;
    assert(texts(live@) =~= groups_with(opened@, true, 0));
    assert(texts(missing@) =~= groups_with(opened@, false, 0));
    while i < opened.len()
        invariant
            i <= opened@.len(),
            first_refusal(opened@, i as int) is None,
            texts(live@) == groups_with(opened@, true, i as int),
            texts(missing@) == groups_with(opened@, false, i as int),
        decreases opened@.len() - i,
    {
        if let Some(x) = refused_reply(opened[i].0.as_str(), &opened[i].1) {
            proof {
                lemma_refusal_stays(opened@, i + 1, opened@.len() as int);
            }
            return Err(x);
        }
        let ghost l = texts(live@);
        let ghost a = texts(missing@);
        match &opened[i].1 {
            Upstream::Live => {
                live.push(opened[i].0.clone());
                assert(texts(live@) =~= l.push(opened@[i as int].0@));
            },
            Upstream::Absent => {
                missing.push(opened[i].0.clone());
                assert(texts(missing@) =~= a.push(opened@[i as int].0@));
            },
            _ => {},
        }
        i += 1;
    }
    if live.len() == 0 && missing.len() > 0 {
        return Err(collection_absent_response(collection));
    }
    let ghost l = texts(live@);
    let ghost a = texts(missing@);
    let mut k: usize = 0;
    assert(l + a.take(0) =~= l);
    while k < missing.len()
        invariant
            a == texts(missing@),
            k <= missing@.len(),
            texts(live@) == l + a.take(k as int),
        decreases missing@.len() - k,
    {
        proof {
            lemma_take_grows(a, k as int);
        }
        let ghost before = texts(live@);
        live.push(missing[k].clone());
        assert(texts(live@) =~= before.push(a[k as int]));
        assert(texts(live@) =~= l + a.take(k + 1));
        k += 1;
    }
    proof {
        lemma_take_all(a);
    }
    let shards = crate::sorting::sort_texts(live);
    Ok(
        ClusterStream {
            collection: collection.to_owned(),
            cursor: ClusterChangeCursor { ring, positions },
            shards,
            opened: false,
            ended: false,
        },
    )
}

// ---- Laws of a subscription ----

proof fn lemma_subscription_terms()
    ensures
        "read"@ != "filter"@,
        "read"@ != "ops"@,
        "read"@ != "after"@,
        "filter"@ != "ops"@,
        "filter"@ != "after"@,
        "ops"@ != "after"@,
{
    reveal_strlit("read");
    assert("read"@.len() == 4);
    reveal_strlit("filter");
    assert("filter"@.len() == 6);
    reveal_strlit("ops");
    assert("ops"@.len() == 3);
    reveal_strlit("after");
    assert("after"@.len() == 5);
}

proof fn lemma_passed_on_holds(filter: Option<Seq<char>>, ops: Option<Seq<char>>, x: (Seq<char>, Seq<char>))
    ensures
        passed_on(filter, ops).contains(x) <==> {
            ||| x == ("read"@, "primary"@)
            ||| x.0 == "filter"@ && filter == Some(x.1)
            ||| x.0 == "ops"@ && ops == Some(x.1)
        },
{
    let s0 = seq![("read"@, "primary"@)];
    assert(s0[0] == ("read"@, "primary"@));
    let s1 = s0 + given("filter"@, filter);
    lemma_behind(s0, given("filter"@, filter), x);
    lemma_behind(s1, given("ops"@, ops), x);
    lemma_given_holds("filter"@, filter, x);
    lemma_given_holds("ops"@, ops, x);
}

/// A subscription's filter and operations reach the shards as they came, each whether or not the other is
/// given, and a shard is asked as its leader; nothing else goes along.
pub proof fn law_a_subscription_is_passed_on_whole(filter: Option<Seq<char>>, ops: Option<Seq<char>>, name: Seq<char>, v: Seq<char>)
    ensures
        ({
            let q = passed_on(filter, ops);
            &&& q.contains(("filter"@, v)) <==> filter == Some(v)
            &&& q.contains(("ops"@, v)) <==> ops == Some(v)
            &&& q.contains(("read"@, v)) <==> v == "primary"@
            &&& q.contains((name, v)) ==> name == "filter"@ || name == "ops"@ || name == "read"@
        }),
{
    lemma_subscription_terms();
    lemma_passed_on_holds(filter, ops, ("filter"@, v));
    lemma_passed_on_holds(filter, ops, ("ops"@, v));
    lemma_passed_on_holds(filter, ops, ("read"@, v));
    lemma_passed_on_holds(filter, ops, (name, v));
}

/// A group is asked for the whole subscription, and after a position exactly where it has one.
pub proof fn law_a_group_is_asked_for_the_whole_subscription(
    filter: Option<Seq<char>>,
    ops: Option<Seq<char>>,
    after: Option<u64>,
    x: (Seq<char>, Seq<char>),
)
    ensures
        ({
            let q = group_question(passed_on(filter, ops), after);
            &&& passed_on(filter, ops).contains(x) ==> q.contains(x)
            &&& q.contains(("after"@, x.1)) <==> after is Some && x.1 == decimal_of(after->0 as nat)
            &&& q.contains(x) ==> x.0 == "after"@ || passed_on(filter, ops).contains(x)
        }),
{
    lemma_subscription_terms();
    let at = match after {
        Some(a) => Some(decimal_of(a as nat)),
        None => None,
    };
    let y = ("after"@, x.1);
    lemma_behind(passed_on(filter, ops), given("after"@, at), x);
    lemma_behind(passed_on(filter, ops), given("after"@, at), y);
    lemma_given_holds("after"@, at, x);
    lemma_given_holds("after"@, at, y);
    lemma_passed_on_holds(filter, ops, y);
}

/// A group is among the live ones, or among those that do not hold the collection, exactly where it
/// answered so.
pub proof fn law_every_answer_is_sorted_in(v: Seq<(String, Upstream)>, live: bool, n: int, g: Seq<char>)
    requires
        0 <= n <= v.len(),
    ensures
        groups_with(v, live, n).contains(g) <==> exists|i: int|
            0 <= i < n && (#[trigger] v[i]).0@ == g && (if live { v[i].1 is Live } else { v[i].1 is Absent }),
    decreases n,
{
    lemma_joined_hold::<Seq<char>>();
    if n > 0 {
        law_every_answer_is_sorted_in(v, live, n - 1, g);
        let before = groups_with(v, live, n - 1);
        if before.contains(g) {
            let i = choose|i: int| 0 <= i < n - 1 && (#[trigger] v[i]).0@ == g && (if live { v[i].1 is Live } else { v[i].1 is Absent });
            assert(v[i].0@ == g);
        }
        if groups_with(v, live, n).contains(g) && !before.contains(g) {
            assert(v[n - 1].0@ == g);
        }
    }
}

/// A stream that opens watches every group that was asked, live or without the collection yet: a feed
/// short one group would pass for the whole.
pub proof fn law_a_stream_watches_every_group(v: Seq<(String, Upstream)>, g: Seq<char>)
    requires
        first_refusal(v, v.len() as int) is None,
    ensures
        (groups_with(v, true, v.len() as int) + groups_with(v, false, v.len() as int)).contains(g) <==> exists|i: int|
            0 <= i < v.len() && (#[trigger] v[i]).0@ == g,
        groups_with(v, true, v.len() as int).len() + groups_with(v, false, v.len() as int).len() == v.len(),
{
    let n = v.len() as int;
    lemma_joined_hold::<Seq<char>>();
    law_every_answer_is_sorted_in(v, true, n, g);
    law_every_answer_is_sorted_in(v, false, n, g);
    lemma_no_refusal(v, n);
    if exists|i: int| 0 <= i < v.len() && (#[trigger] v[i]).0@ == g {
        let i = choose|i: int| 0 <= i < v.len() && (#[trigger] v[i]).0@ == g;
        assert(v[i].1 is Live || v[i].1 is Absent);
    }
}

proof fn lemma_no_refusal(v: Seq<(String, Upstream)>, n: int)
    requires
        0 <= n <= v.len(),
        first_refusal(v, n) is None,
    ensures
        forall|i: int| 0 <= i < n ==> (#[trigger] v[i]).1 is Live || v[i].1 is Absent,
        groups_with(v, true, n).len() + groups_with(v, false, n).len() == n,
    decreases n,
{
    if n > 0 {
        lemma_no_refusal(v, n - 1);
    }
}

/// A stream is refused exactly where some group neither feeds nor says that it does not hold the
/// collection.
pub proof fn law_one_groups_refusal_refuses_the_stream(v: Seq<(String, Upstream)>, n: int)
    requires
        0 <= n <= v.len(),
    ensures
        first_refusal(v, n) is Some <==> exists|i: int| 0 <= i < n && !((#[trigger] v[i]).1 is Live) && !(v[i].1 is Absent),
    decreases n,
{
    if n > 0 {
        law_one_groups_refusal_refuses_the_stream(v, n - 1);
        if first_refusal(v, n - 1) is Some {
            let i = choose|i: int| 0 <= i < n - 1 && !((#[trigger] v[i]).1 is Live) && !(v[i].1 is Absent);
            assert(!(v[i].1 is Live));
        } else if first_refusal(v, n) is Some {
            assert(!(v[n - 1].1 is Live));
        }
    }
}

proof fn lemma_colon(line: Seq<char>, i: int, c: int)
    requires
        0 <= i <= c < line.len(),
        line[c] == ':',
        forall|k: int| i <= k < c ==> line[k] != ':',
    ensures
        colon(line, i) == Some(c),
    decreases c - i,
{
    if i < c {
        lemma_colon(line, i + 1, c);
    }
}

/// A data line adds its value to the data of its block, behind what is there already and without touching
/// the name; an event line gives the name and leaves the data; any other line changes nothing.
pub proof fn law_each_line_of_a_block_counts(lines: Seq<Seq<char>>, key: Seq<char>, value: Seq<char>)
    requires
        forall|k: int| 0 <= k < key.len() ==> #[trigger] key[k] != ':',
    ensures
        ({
            let before = fields(lines);
            let after = fields(lines.push(key + seq![':'] + value));
            &&& key == "data"@ ==> after == (before.0, before.1 + trim(value))
            &&& key == "event"@ ==> after == (Some(trim(value)), before.1)
            &&& key != "data"@ && key != "event"@ ==> after == before
            &&& fields(Seq::empty()) == (None::<Seq<char>>, Seq::<char>::empty())
        }),
{
    let line = key + seq![':'] + value;
    let all = lines.push(line);
    assert(all.drop_last() =~= lines);
    assert(line[key.len() as int] == ':');
    assert forall|k: int| 0 <= k < key.len() implies line[k] != ':' by {
        assert(line[k] == key[k]);
    }
    lemma_colon(line, 0, key.len() as int);
    assert(line.take(key.len() as int) =~= key);
    assert(line.skip(key.len() as int + 1) =~= value);
    reveal_strlit("data");
    reveal_strlit("event");
    assert("data"@.len() != "event"@.len());
}

/// A change is delivered exactly where an event by that name carries its position, a feed is broken
/// exactly where an error says from where it could go on, and an error that does not say so is worth
/// another try.
pub proof fn law_what_an_event_means(name: Seq<char>, data: JsonView, n: u64)
    ensures
        ({
            let under = |k: Seq<char>| match data.member(k) {
                Some(v) => v.number(),
                None => None,
            };
            let v = verdict(name, data);
            &&& v == Verdict::Change(n) <==> name == "change"@ && under("lsn"@) == Some(n)
            &&& v is Broken <==> name == "error"@ && under("resume_floor"@) is Some
            &&& v is Broken ==> Some(v->floor) == under("resume_floor"@) && (data.member("error"@) is Some && data.member("error"@)->0 is Str
                ==> data.member("error"@) == Some(JsonView::Str(v->error)))
            &&& v is Reconnect <==> name == "error"@ && under("resume_floor"@) is None
        }),
{
    reveal_strlit("change");
    reveal_strlit("error");
    assert("change"@.len() != "error"@.len());
}

/// A delivered change is its document with the publishing group's name beside it, and all of it.
pub proof fn law_a_change_is_delivered_whole(payload: JsonView, shard: Seq<char>, k: Seq<char>)
    requires
        payload.wf(),
        payload is Object,
    ensures
        stamped(payload, shard).member("shard"@) == Some(JsonView::Str(shard)),
        k != "shard"@ ==> stamped(payload, shard).member(k) == payload.member(k),
{
    let m = payload->Object_0;
    law_members_are_a_map(m, "shard"@, JsonView::Str(shard), k);
    law_members_are_a_map(m, "shard"@, JsonView::Str(shard), "shard"@);
}

/// What a list of texts is as a value.
pub proof fn law_a_list_of_texts_holds_each(v: Seq<Seq<char>>, i: int)
    requires
        0 <= i < v.len(),
    ensures
        text_values(v) is Array,
        text_values(v)->Array_0.len() == v.len(),
        text_values(v)->Array_0[i] == JsonView::Str(v[i]),
{
}

proof fn lemma_frame_members()
    ensures
        "collection"@ != "shards"@,
        "collection"@ != "position"@,
        "collection"@ != "ring"@,
        "collection"@ != "added"@,
        "collection"@ != "removed"@,
        "collection"@ != "error"@,
        "collection"@ != "shard"@,
        "collection"@ != "resume_floor"@,
        "shards"@ != "position"@,
        "shards"@ != "ring"@,
        "shards"@ != "added"@,
        "shards"@ != "removed"@,
        "shards"@ != "error"@,
        "shards"@ != "shard"@,
        "shards"@ != "resume_floor"@,
        "position"@ != "ring"@,
        "position"@ != "added"@,
        "position"@ != "removed"@,
        "position"@ != "error"@,
        "position"@ != "shard"@,
        "position"@ != "resume_floor"@,
        "ring"@ != "added"@,
        "ring"@ != "removed"@,
        "ring"@ != "error"@,
        "ring"@ != "shard"@,
        "ring"@ != "resume_floor"@,
        "added"@ != "removed"@,
        "added"@ != "error"@,
        "added"@ != "shard"@,
        "added"@ != "resume_floor"@,
        "removed"@ != "error"@,
        "removed"@ != "shard"@,
        "removed"@ != "resume_floor"@,
        "error"@ != "shard"@,
        "error"@ != "resume_floor"@,
        "shard"@ != "resume_floor"@,
{
    reveal_strlit("collection");
    assert("collection"@.len() == 10);
    reveal_strlit("shards");
    assert("shards"@.len() == 6);
    reveal_strlit("position");
    assert("position"@.len() == 8);
    reveal_strlit("ring");
    assert("ring"@.len() == 4);
    reveal_strlit("added");
    assert("added"@.len() == 5);
    reveal_strlit("removed");
    assert("removed"@.len() == 7);
    reveal_strlit("error");
    assert("error"@.len() == 5);
    reveal_strlit("shard");
    assert("shard"@.len() == 5);
    reveal_strlit("resume_floor");
    assert("resume_floor"@.len() == 12);
    assert("added"@[0] != "error"@[0]);
    assert("added"@[0] != "shard"@[0]);
    assert("error"@[0] != "shard"@[0]);
}

/// What the frames of a stream say, member by member: which groups it watches and from where, what a move
/// of the shard set added and removed, and where a broken feed could go on.
pub proof fn law_frames_say_everything(
    collection: Seq<char>,
    ring: u64,
    shards: Seq<Seq<char>>,
    added: Seq<Seq<char>>,
    removed: Seq<Seq<char>>,
    position: Seq<char>,
    shard: Seq<char>,
    error: Seq<char>,
    floor: Option<u64>,
)
    ensures
        ({
            let o = open_body(collection, shards, position);
            let t = topology_body(ring, shards, added, removed, position);
            let b = broken_body(shard, error, floor);
            &&& o.member("collection"@) == Some(JsonView::Str(collection))
            &&& o.member("shards"@) == Some(text_values(shards))
            &&& o.member("position"@) == Some(JsonView::Str(position))
            &&& t.member("ring"@) == Some(whole(ring))
            &&& t.member("shards"@) == Some(text_values(shards))
            &&& t.member("added"@) == Some(text_values(added))
            &&& t.member("removed"@) == Some(text_values(removed))
            &&& t.member("position"@) == Some(JsonView::Str(position))
            &&& b.member("error"@) == Some(JsonView::Str(error))
            &&& b.member("shard"@) == Some(JsonView::Str(shard))
            &&& b.member("resume_floor"@) == (match floor {
                Some(f) => Some(whole(f)),
                None => None,
            })
        }),
{
    lemma_frame_members();
    let o = seq![("collection"@, JsonView::Str(collection)), ("shards"@, text_values(shards)), ("position"@, JsonView::Str(position))];
    law_the_last_of_one_key_is_kept(o, "collection"@, 0);
    law_the_last_of_one_key_is_kept(o, "shards"@, 1);
    law_the_last_of_one_key_is_kept(o, "position"@, 2);
    let t = seq![
        ("ring"@, whole(ring)),
        ("shards"@, text_values(shards)),
        ("added"@, text_values(added)),
        ("removed"@, text_values(removed)),
        ("position"@, JsonView::Str(position)),
    ];
    law_the_last_of_one_key_is_kept(t, "ring"@, 0);
    law_the_last_of_one_key_is_kept(t, "shards"@, 1);
    law_the_last_of_one_key_is_kept(t, "added"@, 2);
    law_the_last_of_one_key_is_kept(t, "removed"@, 3);
    law_the_last_of_one_key_is_kept(t, "position"@, 4);
    let both = seq![("error"@, JsonView::Str(error)), ("shard"@, JsonView::Str(shard))];
    let b = match floor {
        Some(f) => both.push(("resume_floor"@, whole(f))),
        None => both,
    };
    law_the_last_of_one_key_is_kept(b, "error"@, 0);
    law_the_last_of_one_key_is_kept(b, "shard"@, 1);
    law_the_last_of_one_key_is_kept(b, "resume_floor"@, 2);
}

/// What is done about a group: a live one is read, one without the collection is asked again and keeps its
/// leader, one that refuses the position ends the stream with its own reason, and one that nobody leads
/// or answers for is looked for anew.
pub proof fn law_what_is_done_about_a_group(group: Seq<char>, u: UpstreamView)
    ensures
        ({
            let a = group_action(group, u);
            &&& a is Pump <==> u is Live
            &&& a is Stop <==> u is Refused
            &&& a is Retry <==> u is Absent || u is NoPrimary || u is Failed
            &&& a is Retry ==> (a->forget_primary <==> !(u is Absent))
            &&& a is Stop ==> a->Stop_0 is Broken && a->Stop_0->Broken_shard == group
        }),
{
}

/// A group's feed is opened at the first of its nodes that has it: a node that cannot be reached or
/// does not lead has the next one asked, the primary's own refusal being kept, and any other answer is
/// the group's.
pub proof fn law_a_feed_is_opened_node_by_node(g: GroupOpenView, reply: Option<ShardReplyView>)
    requires
        0 <= g.at < g.targets.len(),
    ensures
        ({
            let (after, step) = g.next(reply);
            let target = g.targets[g.at];
            let live = reply is Some && 200 <= (reply->0).status < 300;
            let misses = reply is Some && (reply->0).status == 404;
            let refuses = reply is Some && (reply->0).status == 503;
            let moves = reply is None || refuses;
            &&& after.targets == g.targets && after.group == g.group && after.effective == g.effective
            &&& live ==> step is Done && step->upstream is Live && step->primary == (if node(target) == node(g.group) {
                None
            } else {
                Some(target)
            })
            &&& misses ==> step is Done && step->upstream is Absent && step->primary is None
            &&& !live && !misses && !moves ==> step is Done && step->upstream == UpstreamView::Refused(reply->0)
            &&& moves && g.at + 1 < g.targets.len() ==> step == OpenStepView::Ask(g.targets[g.at + 1]) && after.at == g.at + 1
            &&& after.refused == (g.refused || refuses)
            &&& refuses && node(target) == node(g.effective) ==> after.primary_refusal == reply
            &&& !(refuses && node(target) == node(g.effective)) ==> after.primary_refusal == g.primary_refusal
            &&& moves && g.at + 1 == g.targets.len() && after.refused ==> step is Done && step->upstream == UpstreamView::NoPrimary(
                after.primary_refusal,
            )
            &&& moves && g.at + 1 == g.targets.len() && !after.refused ==> step is Done && step->upstream is Failed
        }),
{
}

/// An event ends at the first empty line, and where there is none it has not ended.
pub proof fn law_an_event_ends_at_the_first_empty_line(b: Seq<u8>, i: int)
    requires
        0 <= i,
    ensures
        gap(b, i) is Some ==> {
            let e = gap(b, i)->0;
            &&& i <= e && e + 1 < b.len() && b[e] == 10 && b[e + 1] == 10
            &&& forall|k: int| i <= k < e ==> !(#[trigger] b[k] == 10 && b[k + 1] == 10)
        },
        gap(b, i) is None ==> forall|k: int| i <= k < b.len() - 1 ==> !(#[trigger] b[k] == 10 && b[k + 1] == 10),
    decreases b.len() - i,
{
    if i + 1 < b.len() && !(b[i] == 10 && b[i + 1] == 10) {
        law_an_event_ends_at_the_first_empty_line(b, i + 1);
    }
}

/// A field's name ends at the first colon.
pub proof fn law_a_name_ends_at_the_first_colon(line: Seq<char>, i: int)
    requires
        0 <= i,
    ensures
        colon(line, i) is Some ==> i <= colon(line, i)->0 < line.len() && line[colon(line, i)->0] == ':' && forall|k: int|
            i <= k < colon(line, i)->0 ==> #[trigger] line[k] != ':',
        colon(line, i) is None ==> forall|k: int| i <= k < line.len() ==> #[trigger] line[k] != ':',
    decreases line.len() - i,
{
    if i < line.len() && line[i] != ':' {
        law_a_name_ends_at_the_first_colon(line, i + 1);
    }
}

/// What is read of a feed is its first event that means anything, and nothing behind it is lost: an
/// event without meaning is passed over, and what follows is read.
pub proof fn law_nothing_behind_an_event_is_lost(b: Seq<u8>)
    ensures
        scan(b).0 is None ==> first_meaning(b).0 is None && first_meaning(b).1 == scan(b).1,
        scan(b).0 is Some ==> {
            let e = scan(b).0->0;
            let v = verdict(e.0, data_value(e.1));
            &&& v is Skip ==> first_meaning(b) == first_meaning(scan(b).1)
            &&& !(v is Skip) ==> first_meaning(b).0 == Some((v, data_value(e.1))) && first_meaning(b).1 == scan(b).1
        },
{
}

/// A subscription is refused before any group is asked exactly where its position cannot be read, is
/// of another layout, or there is nobody to ask.
pub proof fn law_when_a_subscription_is_refused_early(after: Option<Seq<char>>, ring: u64, groups: int)
    ensures
        refused_early(after, ring, groups) is None <==> groups != 0 && (after is Some ==> position_in(after->0) is Some && (position_in(
            after->0,
        )->0).ring == ring),
        after is Some && position_in(after->0) is None ==> refused_early(after, ring, groups)->0.status == 400,
        groups != 0 && after is Some && position_in(after->0) is Some && (position_in(after->0)->0).ring != ring ==> refused_early(
            after,
            ring,
            groups,
        )->0.status == 409,
{
}

/// What a move of the groups adds are those that were not read before, and what it removes those that
/// are there no more.
pub proof fn law_a_move_is_told_both_ways(v: Seq<Seq<char>>, other: Seq<Seq<char>>, g: Seq<char>)
    ensures
        lacking(v, other).contains(g) <==> v.contains(g) && !other.contains(g),
{
    lemma_lacking(v, other, g);
}

/// A delivered change moves its own group's position and nobody else's; a move of the groups forgets
/// the positions of those that are gone; anything else ends the stream.
pub proof fn law_what_a_delivery_does_to_the_stream(s: ClusterStreamView, m: Option<MergedView>, g: Seq<char>)
    ensures
        ({
            let a = after(s, m);
            let (was, is) = (s.cursor.positions, a.cursor.positions);
            match m {
                Some(MergedView::Change { shard, lsn, payload }) => {
                    &&& is.dom().contains(g) <==> was.dom().contains(g) || g == shard
                    &&& g == shard ==> is[g] == lsn
                    &&& g != shard && was.dom().contains(g) ==> is[g] == was[g]
                    &&& a.cursor.ring == s.cursor.ring && a.shards == s.shards && a.ended == s.ended
                },
                Some(MergedView::Topology { ring, shards, added, removed }) => {
                    &&& is.dom().contains(g) <==> was.dom().contains(g) && shards.contains(g)
                    &&& is.dom().contains(g) ==> is[g] == was[g]
                    &&& a.cursor.ring == ring && a.shards == shards && a.ended == s.ended
                },
                _ => a.ended && a.cursor == s.cursor,
            }
        }),
{
}

/// A position that is read has every group's that it was given, and no other.
pub proof fn law_a_position_has_every_groups(j: JsonView, g: Seq<char>)
    requires
        position_of(j) is Some,
    ensures
        ({
            let c = position_of(j)->0;
            let p = (cursor_fields(j)->0).1;
            &&& (cursor_fields(j)->0).0.number() == Some(c.ring)
            &&& p is Object
            &&& c.positions.dom().contains(g) <==> p.member(g) is Some
            &&& p.member(g) is Some && (p.member(g)->0).number() is Some ==> c.positions[g] == (p.member(g)->0).number()->0
        }),
{
}

/// What a feed brings is told of its own group: a change with its position and its payload, a break
/// with its reason and from where to go on.
pub proof fn law_a_feed_is_told_of_its_own_group(group: Seq<char>, b: Seq<u8>)
    ensures
        ({
            let m = first_meaning(b).0;
            let p = pumped(group, b);
            &&& m is None <==> p is Read
            &&& m is Some && (m->0).0 is Change ==> p is Emit && p->Emit_0 is Change && p->Emit_0->Change_shard == group
                && p->Emit_0->lsn == (m->0).0->Change_0 && p->Emit_0->payload == (m->0).1
            &&& m is Some && (m->0).0 is Broken ==> p is Broken && p->Broken_0 is Broken && p->Broken_0->Broken_shard == group
                && p->Broken_0->resume_floor == Some((m->0).0->floor) && p->Broken_0->Broken_error == (m->0).0->error
            &&& m is Some && (m->0).0 is Reconnect ==> p is Reconnect
        }),
{
}

/// A change is framed under the position to go on from, with its payload and its group; a move of the
/// groups and a break are framed without one.
pub proof fn law_what_is_framed(m: Option<MergedView>, position: Seq<char>)
    ensures
        match m {
            Some(MergedView::Change { shard, lsn, payload }) => {
                let f = frame(m, position);
                f.name == "change"@ && f.id == Some(position) && f.body == stamped(payload, shard)
            },
            Some(MergedView::Topology { ring, shards, added, removed }) => {
                let f = frame(m, position);
                f.name == "topology"@ && f.id is None && f.body == topology_body(ring, shards, added, removed, position)
            },
            Some(MergedView::Broken { shard, error, resume_floor }) => {
                let f = frame(m, position);
                f.name == "error"@ && f.id is None && f.body == broken_body(shard, error, resume_floor)
            },
            None => frame(m, position).name == "error"@ && frame(m, position).id is None,
        },
{
}

/// A group that refuses a subscription is quoted under its own name and status; one without a primary
/// is worth retrying; one that cannot be reached is a bad gateway.
pub proof fn law_how_a_groups_refusal_is_told(group: Seq<char>, u: UpstreamView)
    ensures
        refused_by(group, u) is None <==> u is Live || u is Absent,
        u is Refused ==> (refused_by(group, u)->0).status == (u->Refused_0).status && (refused_by(group, u)->0).body == BodyView::Json(
            stamped((u->Refused_0).content(), group),
        ),
        u is NoPrimary ==> refused_by(group, u) == Some(refusal(u->NoPrimary_0)),
        u is Failed ==> (refused_by(group, u)->0).status == 502,
{
}

/// A feed that its group refused is told of with the group's reason and where it could go on, where the
/// group says so.
pub proof fn law_a_refused_feed_says_why(group: Seq<char>, body: JsonView)
    ensures
        refused_feed(group, body) is Broken && refused_feed(group, body)->Broken_shard == group,
        body.member("error"@) is Some && body.member("error"@)->0 is Str ==> refused_feed(group, body)->Broken_error == body.member(
            "error"@,
        )->0->Str_0,
        body.member("resume_floor"@) is Some ==> refused_feed(group, body)->resume_floor == (body.member("resume_floor"@)->0).number(),
        body.member("resume_floor"@) is None ==> refused_feed(group, body)->resume_floor is None,
{
}

} // verus!
