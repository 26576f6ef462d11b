//! Requests that go to every shard group, and the answers put together from theirs.

use super::metadata::groups_view;
use super::probe::{text_at, text_of_member};
use super::router::{
    absent, answered, authoritative, authoritative_write_status, capped, collection_absent_response, effective_of,
    effective_primary, is_success, json_reply, Reply, ReplyView,
};
use crate::escape::{encode_path_segment, escaped};
use crate::json::{
    gathered, law_members_are_a_map, law_the_last_of_one_key_is_kept, lemma_found, lemma_member_wf, lemma_model,
    lemma_put_wf, lookup, members, ordered, put, put_member, values, Json, JsonNumber, JsonView, Members,
};
use crate::lists::{lemma_joined_hold, lemma_take_all, lemma_take_grows};
use crate::name_map::{increasing, sorted_distinct, NameMap};
use crate::text::{cat5, opt_text, same_text, texts};
use crate::wire::whole;
use vstd::prelude::*;
use vstd::utf8::encode_utf8;

verus! {

/// What a node answered, for the client.
pub open spec fn row_of(node: Seq<char>, outcome: Option<(u16, JsonView)>) -> JsonView {
    match outcome {
        Some(o) => JsonView::Object(
            gathered(seq![("node"@, JsonView::Str(node)), ("status"@, whole(o.0 as u64)), ("response"@, o.1)]),
        ),
        None => JsonView::Object(
            gathered(
                seq![("node"@, JsonView::Str(node)), ("status"@, JsonView::Null), ("error"@, JsonView::Str("unreachable"@))],
            ),
        ),
    }
}

pub open spec fn outcome_view(o: Option<(u16, Json)>) -> Option<(u16, JsonView)> {
    match o {
        Some(x) => Some((x.0, x.1@)),
        None => None,
    }
}

/// What a node answered, for the client.
pub fn node_result(node: &str, outcome: Option<(u16, Json)>) -> (r: Json)
    requires
        outcome is Some ==> (outcome->0).1@.wf(),
    ensures
        r@ == row_of(node@, outcome_view(outcome)),
        r@.wf(),
{
    let mut pairs: Vec<(String, Json)> = Vec::new();
    pairs.push(("node".to_owned(), Json::Str(node.to_owned())));
    match outcome {
        Some((status, body)) => {
            pairs.push(("status".to_owned(), Json::Number(JsonNumber::PosInt(status as u64))));
            pairs.push(("response".to_owned(), body));
            assert(members(pairs@) =~= seq![
                ("node"@, JsonView::Str(node@)),
                ("status"@, whole(status as u64)),
                ("response"@, body@),
            ]);
        },
        None => {
            pairs.push(("status".to_owned(), Json::Null));
            pairs.push(("error".to_owned(), Json::Str("unreachable".to_owned())));
            assert(members(pairs@) =~= seq![
                ("node"@, JsonView::Str(node@)),
                ("status"@, JsonView::Null),
                ("error"@, JsonView::Str("unreachable"@)),
            ]);
        },
    }
    Json::object(pairs)
}

// ---- Whom to send to ----

/// The nodes of the first `n` groups: the one taken for the primary, and with `replicas` those too.
pub open spec fn nodes_of(g: Seq<(Seq<char>, Seq<Seq<char>>)>, overrides: Map<Seq<char>, String>, replicas: bool, n: int) -> Seq<Seq<char>>
    decreases n,
{
    if n <= 0 {
        Seq::empty()
    } else {
        let before = nodes_of(g, overrides, replicas, n - 1).push(effective_of(overrides, g[n - 1].0));
        if replicas { before + g[n - 1].1 } else { before }
    }
}

fn gather_nodes(groups: &Vec<(String, Vec<String>)>, overrides: &NameMap<String>, replicas: bool) -> (r: Vec<String>)
    ensures
        increasing(texts(r@)),
        texts(r@).to_set() == nodes_of(groups_view(groups@), overrides@, replicas, groups@.len() as int).to_set(),
{
    let ghost g = groups_view(groups@);
    let mut all: Vec<String> = Vec::new();
    let mut i: usize = 0;
    assert(texts(all@) =~= nodes_of(g, overrides@, replicas, 0));
    while i < groups.len()
        invariant
            g == groups_view(groups@),
            i <= groups@.len(),
            texts(all@) == nodes_of(g, overrides@, replicas, i as int),
        decreases groups@.len() - i,
    {
        let ghost before = texts(all@);
        assert(g[i as int] == (groups@[i as int].0@, texts(groups@[i as int].1@)));
        all.push(effective_primary(overrides, groups[i].0.as_str()));
        let ghost one = before.push(effective_of(overrides@, g[i as int].0));
        assert(texts(all@) =~= one);
        if replicas {
            let rs = &groups[i].1;
            let mut k: usize = 0;
            assert(one + texts(rs@).take(0) =~= one);
            while k < rs.len()
                invariant
                    k <= rs@.len(),
                    texts(all@) == one + texts(rs@).take(k as int),
                decreases rs@.len() - k,
            {
                proof {
                    lemma_take_grows(texts(rs@), k as int);
                }
                let ghost now = texts(all@);
                all.push(rs[k].clone());
                assert(texts(all@) =~= now.push(rs@[k as int]@));
                assert(texts(all@) =~= one + texts(rs@).take(k + 1));
                k += 1;
            }
            proof {
                lemma_take_all(texts(rs@));
            }
        }
        i += 1;
    }
    sorted_distinct(&all)
}

/// Whom a maintenance request goes to, each once. Replicas refuse compaction, so sending it to them
/// would report a refusal per replica as a partial failure. Snapshots are safe everywhere and every
/// node wants its own.
pub fn maintenance_targets(groups: &Vec<(String, Vec<String>)>, overrides: &NameMap<String>, action: &str) -> (r: Vec<String>)
    ensures
        increasing(texts(r@)),
        texts(r@).to_set() == nodes_of(groups_view(groups@), overrides@, action@ != "compact"@, groups@.len() as int).to_set(),
{
    let compacts = same_text(action, "compact");
    gather_nodes(groups, overrides, !compacts)
}

/// Whom a listing is asked of: the node taken for the primary of each group, each once.
pub fn listing_targets(groups: &Vec<(String, Vec<String>)>, overrides: &NameMap<String>) -> (r: Vec<String>)
    ensures
        increasing(texts(r@)),
        texts(r@).to_set() == nodes_of(groups_view(groups@), overrides@, false, groups@.len() as int).to_set(),
{
    gather_nodes(groups, overrides, false)
}

/// The address of an action on a collection at a node. `rest` is what follows the collection, already
/// escaped.
pub fn collection_url(node: &str, collection: &str, rest: &str, query: &str) -> (r: String)
    ensures
        r@ == node@ + "/collections/"@ + escaped(encode_utf8(collection@)) + rest@ + query@,
{
    let c = encode_path_segment(collection);
    cat5(node, "/collections/", c.as_str(), rest, query)
}

/// The replicas but one.
pub open spec fn replicas_but(replicas: Seq<Seq<char>>, but: Seq<char>) -> Seq<Seq<char>>
    decreases replicas.len(),
{
    if replicas.len() == 0 {
        Seq::empty()
    } else {
        let before = replicas_but(replicas.drop_last(), but);
        if replicas.last() == but { before } else { before.push(replicas.last()) }
    }
}

/// The nodes of a group to try with a replicated write, in order.
pub open spec fn candidates(original: Seq<char>, effective: Seq<char>, replicas: Seq<Seq<char>>) -> Seq<Seq<char>> {
    (if original == effective { seq![effective] } else { seq![effective, original] }) + replicas_but(replicas, effective)
}

/// One replicated write to a shard group, sent to whichever node answers authoritatively.
pub struct OwnerWrite {
    pub original: String,
    pub candidates: Vec<String>,
    pub at: usize,
}

pub ghost struct OwnerWriteView {
    pub original: Seq<char>,
    pub candidates: Seq<Seq<char>>,
    pub at: int,
}

impl View for OwnerWrite {
    type V = OwnerWriteView;

    open spec fn view(&self) -> OwnerWriteView {
        OwnerWriteView { original: self.original@, candidates: texts(self.candidates@), at: self.at as int }
    }
}

/// What to do next.
pub enum OwnerStep {
    Send(String),
    /// The group's result, after noting that this node leads, where one is named.
    Done { primary: Option<String>, row: Json },
}

pub ghost enum OwnerStepView {
    Send(Seq<char>),
    Done { primary: Option<Seq<char>>, row: JsonView },
}

impl View for OwnerStep {
    type V = OwnerStepView;

    open spec fn view(&self) -> OwnerStepView {
        match *self {
            OwnerStep::Send(n) => OwnerStepView::Send(n@),
            OwnerStep::Done { primary, row } => OwnerStepView::Done { primary: opt_text(primary), row: row@ },
        }
    }
}

impl OwnerWriteView {
    pub open spec fn next(self, reply: Option<(u16, JsonView)>) -> (OwnerWriteView, OwnerStepView) {
        let over = OwnerWriteView { at: self.candidates.len() as int, ..self };
        if 0 <= self.at < self.candidates.len() && reply is Some && authoritative((reply->0).0) {
            let node = self.candidates[self.at];
            (
                over,
                OwnerStepView::Done { primary: if node != self.original { Some(node) } else { None }, row: row_of(node, reply) },
            )
        } else if self.at + 1 < self.candidates.len() {
            (OwnerWriteView { at: self.at + 1, ..self }, OwnerStepView::Send(self.candidates[self.at + 1]))
        } else {
            (over, OwnerStepView::Done { primary: None, row: row_of(self.original, None) })
        }
    }
}

impl OwnerWrite {
    pub fn begin(original: &str, effective: &str, replicas: &Vec<String>) -> (r: (OwnerWrite, OwnerStep))
        ensures
            r.0@ == (OwnerWriteView { original: original@, candidates: candidates(original@, effective@, texts(replicas@)), at: 0 }),
            r.1@ == OwnerStepView::Send(effective@),
    {
        let ghost rs = texts(replicas@);
        let mut all: Vec<String> = Vec::new();
        all.push(effective.to_owned());
        if !same_text(original, effective) {
            all.push(original.to_owned());
        }
        let ghost first = if original@ == effective@ { seq![effective@] } else { seq![effective@, original@] };
        let mut i: usize = 0;
        assert(rs.take(0) =~= Seq::empty());
        assert(texts(all@) =~= first + replicas_but(rs.take(0), effective@));
        while i < replicas.len()
            invariant
                rs == texts(replicas@),
                i <= replicas@.len(),
                texts(all@) == first + replicas_but(rs.take(i as int), effective@),
            decreases replicas@.len() - i,
        {
            proof {
                lemma_take_grows(rs, i as int);
            }
            let ghost before = texts(all@);
            if !same_text(replicas[i].as_str(), effective) {
                all.push(replicas[i].clone());
                assert(texts(all@) =~= before.push(rs[i as int]));
                assert(texts(all@) =~= first + replicas_but(rs.take(i + 1), effective@));
            }
            i += 1;
        }
        proof {
            lemma_take_all(rs);
        }
        (OwnerWrite { original: original.to_owned(), candidates: all, at: 0 }, OwnerStep::Send(effective.to_owned()))
    }

    /// The next thing to do, given the reply, or none where the node could not be reached.
    pub fn fanout_to_owners(&mut self, reply: Option<(u16, Json)>) -> (r: OwnerStep)
        requires
            reply is Some ==> (reply->0).1@.wf(),
        ensures
            (final(self)@, r@) == old(self)@.next(outcome_view(reply)),
    {
        let n = self.candidates.len();
        if self.at < n {
            let answers = match &reply {
                Some((status, _)) => authoritative_write_status(*status),
                None => false,
            };
            if answers {
                let node = self.candidates[self.at].clone();
                self.at = n;
                let same = same_text(node.as_str(), self.original.as_str());
                let row = node_result(node.as_str(), reply);
                return OwnerStep::Done { primary: if same { None } else { Some(node) }, row };
            }
            if n - self.at > 1 {
                self.at = self.at + 1;
                return OwnerStep::Send(self.candidates[self.at].clone());
            }
        }
        self.at = n;
        OwnerStep::Done { primary: None, row: node_result(self.original.as_str(), None) }
    }
}

/// A group is reported as unreachable only when its last candidate has been tried.
pub proof fn law_every_candidate_is_tried(w: OwnerWriteView, reply: Option<(u16, JsonView)>)
    requires
        0 <= w.at < w.candidates.len(),
        reply is None || !authoritative((reply->0).0),
        w.next(reply).1 is Done,
    ensures
        w.at == w.candidates.len() - 1,
{
}

// ---- What the groups answered ----

/// The status that a row reports.
pub open spec fn reported(row: JsonView) -> Option<u64> {
    match row.member("status"@) {
        Some(s) => s.number(),
        None => None,
    }
}

/// How many of the first `n` rows report success.
pub open spec fn successes(rows: Seq<JsonView>, n: int) -> int
    decreases n,
{
    if n <= 0 { 0 } else { successes(rows, n - 1) + (if reported(rows[n - 1]) is Some && reported(rows[n - 1])->0 < 300 { 1int } else { 0 }) }
}

/// How many of the first `n` rows report that the collection is not there.
pub open spec fn absences(rows: Seq<JsonView>, n: int) -> int
    decreases n,
{
    if n <= 0 { 0 } else { absences(rows, n - 1) + (if reported(rows[n - 1]) == Some(404u64) { 1int } else { 0 }) }
}

/// An object with one member.
pub open spec fn under(key: Seq<char>, v: JsonView) -> JsonView {
    JsonView::Object(gathered(seq![(key, v)]))
}

/// What a client is told of a request that went to every group: that the collection is nowhere, or
/// each one's result, with success where each either succeeded or does not hold the collection.
pub open spec fn summary(collection: Seq<char>, key: Seq<char>, rows: Seq<JsonView>) -> ReplyView {
    let n = rows.len() as int;
    if successes(rows, n) == 0 && absences(rows, n) > 0 {
        absent(collection)
    } else {
        answered(if successes(rows, n) + absences(rows, n) == n { 200 } else { 207 }, under(key, JsonView::Array(rows)))
    }
}

fn status_in(row: &Json) -> (r: Option<u64>)
    requires
        row@.wf(),
    ensures
        r == reported(row@),
{
    match row.get("status") {
        Some(s) => s.as_u64(),
        None => None,
    }
}

fn one_member(key: &str, v: Json) -> (r: Json)
    requires
        v@.wf(),
    ensures
        r@ == under(key@, v@),
        r@.wf(),
{
    let mut pairs: Vec<(String, Json)> = Vec::new();
    pairs.push((key.to_owned(), v));
    assert(members(pairs@) =~= seq![(key@, v@)]);
    Json::object(pairs)
}

/// A list as a value.
pub fn list_of(rows: Vec<Json>) -> (r: Json)
    requires
        forall|i: int| 0 <= i < rows@.len() ==> (#[trigger] rows@[i])@.wf(),
    ensures
        r@ == JsonView::Array(values(rows@)),
        r@.wf(),
{
    let r = Json::Array(rows);
    proof {
        lemma_model(r);
        assert forall|i: int| 0 <= i < values(rows@).len() implies (#[trigger] values(rows@)[i]).wf() by {
            assert(rows@[i]@.wf());
        }
    }
    r
}

fn summarize(collection: &str, key: &str, rows: Vec<Json>) -> (r: Reply)
    requires
        forall|i: int| 0 <= i < rows@.len() ==> (#[trigger] rows@[i])@.wf(),
    ensures
        r@ == summary(collection@, key@, values(rows@)),
{
    let ghost rv = values(rows@);
    let mut ok: usize = 0;
    let mut gone: usize = 0;
    let mut i: usize = 0;
    while i < rows.len()
        invariant
            rv == values(rows@),
            forall|i: int| 0 <= i < rows@.len() ==> (#[trigger] rows@[i])@.wf(),
            i <= rows@.len(),
            ok + gone <= i,
            ok == successes(rv, i as int),
            gone == absences(rv, i as int),
        decreases rows@.len() - i,
    {
        assert(rv[i as int] == rows@[i as int]@);
        match status_in(&rows[i]) {
            Some(s) => {
                if s < 300 {
                    ok = ok + 1;
                }
                if s == 404 {
                    gone = gone + 1;
                }
            },
            None => {},
        }
        i += 1;
    }
    if ok == 0 && gone > 0 {
        return collection_absent_response(collection);
    }
    let status: u16 = if ok + gone == rows.len() { 200 } else { 207 };
    json_reply(status, one_member(key, list_of(rows)))
}

/// The answer to a maintenance request. A node whose ring share never took a key for this collection
/// does not hold one, which is a normal answer, not a partial failure. Every node saying so is the
/// collection being nowhere, which is the client's error.
pub fn router_fanout_maintenance(collection: &str, rows: Vec<Json>) -> (r: Reply)
    requires
        forall|i: int| 0 <= i < rows@.len() ==> (#[trigger] rows@[i])@.wf(),
    ensures
        r@ == summary(collection@, "nodes"@, values(rows@)),
{
    summarize(collection, "nodes", rows)
}

/// The answer to an index definition. A group that holds none of the collection is not a failure
/// here, for the same reason as in maintenance.
pub fn router_fanout_index(collection: &str, rows: Vec<Json>) -> (r: Reply)
    requires
        forall|i: int| 0 <= i < rows@.len() ==> (#[trigger] rows@[i])@.wf(),
    ensures
        r@ == summary(collection@, "shards"@, values(rows@)),
{
    summarize(collection, "shards", rows)
}

/// The answer to a drop: success only where every group succeeded.
pub fn router_fanout_drop(rows: Vec<Json>) -> (r: Reply)
    requires
        forall|i: int| 0 <= i < rows@.len() ==> (#[trigger] rows@[i])@.wf(),
    ensures
        r@ == answered(
            if successes(values(rows@), rows@.len() as int) == rows@.len() { 200 } else { 207 },
            under("shards"@, JsonView::Array(values(rows@))),
        ),
{
    let ghost rv = values(rows@);
    let mut ok: usize = 0;
    let mut i: usize = 0;
    while i < rows.len()
        invariant
            rv == values(rows@),
            forall|i: int| 0 <= i < rows@.len() ==> (#[trigger] rows@[i])@.wf(),
            i <= rows@.len(),
            ok <= i,
            ok == successes(rv, i as int),
        decreases rows@.len() - i,
    {
        assert(rv[i as int] == rows@[i as int]@);
        if let Some(s) = status_in(&rows[i]) {
            if s < 300 {
                ok = ok + 1;
            }
        }
        i += 1;
    }
    let status: u16 = if ok == rows.len() { 200 } else { 207 };
    json_reply(status, one_member("shards", list_of(rows)))
}

// ---- Index listings ----

/// The rows of a group's listing that name an index.
pub open spec fn named_rows(v: Seq<JsonView>) -> Seq<JsonView>
    decreases v.len(),
{
    if v.len() == 0 {
        Seq::empty()
    } else {
        let before = named_rows(v.drop_last());
        if text_of_member(v.last().member("name"@)) is Some { before.push(v.last()) } else { before }
    }
}

/// The index that a row is of.
pub open spec fn name_of(row: JsonView) -> Seq<char> {
    text_of_member(row.member("name"@))->0
}

/// The rows that a reply lists.
pub open spec fn listed(body: JsonView) -> Seq<JsonView> {
    match body.member("indexes"@) {
        Some(JsonView::Array(v)) => named_rows(v),
        _ => Seq::empty(),
    }
}

/// The rows of the first `n` replies that are listings.
pub open spec fn all_rows(replies: Seq<(u16, JsonView)>, n: int) -> Seq<JsonView>
    decreases n,
{
    if n <= 0 {
        Seq::empty()
    } else {
        let before = all_rows(replies, n - 1);
        if is_success(replies[n - 1].0) { before + listed(replies[n - 1].1) } else { before }
    }
}

/// How many of the first `n` replies have a status of this sort.
pub open spec fn with_status(replies: Seq<(u16, JsonView)>, n: int, success: bool) -> int
    decreases n,
{
    if n <= 0 {
        0
    } else {
        with_status(replies, n - 1, success) + (if (if success { is_success(replies[n - 1].0) } else { replies[n - 1].0 == 404 }) { 1int } else { 0 })
    }
}

/// A count in a row.
pub open spec fn count_in(row: JsonView, field: Seq<char>) -> u64 {
    match row.member(field) {
        Some(v) => match v.number() {
            Some(n) => n,
            None => 0,
        },
        None => 0,
    }
}

pub open spec fn is_ready(row: JsonView) -> bool {
    text_of_member(row.member("state"@)) == Some("ready"@)
}

/// A row with a member stored. A null becomes an object of it.
pub open spec fn stored(row: JsonView, field: Seq<char>, v: JsonView) -> JsonView {
    match row {
        JsonView::Object(m) => JsonView::Object(put(m, field, v)),
        JsonView::Null => JsonView::Object(put(Seq::empty(), field, v)),
        _ => row,
    }
}

/// A row with a count of another's added.
pub open spec fn added(into: JsonView, row: JsonView, field: Seq<char>) -> JsonView {
    stored(into, field, whole(capped(count_in(into, field) + count_in(row, field))))
}

/// Two groups' rows of one index: counts add, and readiness is the weaker of the two.
pub open spec fn merged_row(into: JsonView, row: JsonView) -> JsonView {
    let sums = added(added(into, row, "documents"@), row, "values"@);
    if is_ready(row) { sums } else { stored(sums, "state"@, JsonView::Str("building"@)) }
}

/// The rows of the cluster: those of one index merged, in the order of their names.
pub open spec fn union(rows: Seq<JsonView>) -> Members
    decreases rows.len(),
{
    if rows.len() == 0 {
        Seq::empty()
    } else {
        let before = union(rows.drop_last());
        let row = rows.last();
        put(
            before,
            name_of(row),
            match lookup(before, name_of(row)) {
                Some(e) => merged_row(e, row),
                None => row,
            },
        )
    }
}

/// How many of some rows are of an index.
pub open spec fn held_by(rows: Seq<JsonView>, name: Seq<char>) -> int
    decreases rows.len(),
{
    if rows.len() == 0 { 0 } else { held_by(rows.drop_last(), name) + (if name_of(rows.last()) == name { 1int } else { 0 }) }
}

/// A row, marked as building where some group that answered lacks the index.
pub open spec fn finished(row: JsonView, holders: int, groups: int) -> JsonView {
    if holders < groups { stored(row, "state"@, JsonView::Str("building"@)) } else { row }
}

/// The listing of the cluster.
pub open spec fn listing(rows: Seq<JsonView>, groups: int) -> Seq<JsonView> {
    let u = union(rows);
    Seq::new(u.len(), |i: int| finished(u[i].1, held_by(rows, u[i].0), groups))
}

pub open spec fn replies_view(v: Seq<(u16, Json)>) -> Seq<(u16, JsonView)> {
    Seq::new(v.len(), |i: int| (v[i].0, v[i].1@))
}

fn store(row: Json, field: &str, v: Json) -> (r: Json)
    requires
        row@.wf(),
        v@.wf(),
    ensures
        r@ == stored(row@, field@, v@),
        r@.wf(),
{
    match row {
        Json::Object(m) => {
            proof {
                lemma_model(Json::Object(m));
                lemma_put_wf(members(m@), field@, v@);
            }
            let r = Json::Object(put_member(m, field, v));
            proof {
                lemma_model(r);
            }
            r
        },
        Json::Null => {
            let none: Vec<(String, Json)> = Vec::new();
            proof {
                assert(members(none@) =~= Seq::empty());
                assert(JsonView::Object(members(none@)).wf());
                lemma_put_wf(members(none@), field@, v@);
            }
            let r = Json::Object(put_member(none, field, v));
            proof {
                lemma_model(r);
            }
            r
        },
        _ => row,
    }
}

fn count_at(row: &Json, field: &str) -> (r: u64)
    requires
        row@.wf(),
    ensures
        r == count_in(row@, field@),
{
    match row.get(field) {
        Some(v) => match v.as_u64() {
            Some(n) => n,
            None => 0,
        },
        None => 0,
    }
}

/// Counts add; readiness is the weaker of the two, since a client's query only uses the index on the
/// shard that has finished building it. A sum past the largest count stays there. What is merged into
/// is an object, or a null that becomes one.
pub fn merge_index_row(into: Json, row: &Json) -> (r: Json)
    requires
        into@ is Object || into@ is Null,
        into@.wf(),
        row@.wf(),
    ensures
        r@ == merged_row(into@, row@),
        r@ is Object,
        r@.wf(),
{
    let docs: u64 = count_at(&into, "documents").saturating_add(count_at(row, "documents"));
    let one = store(into, "documents", Json::Number(JsonNumber::PosInt(docs)));
    let vals: u64 = count_at(&one, "values").saturating_add(count_at(row, "values"));
    let two = store(one, "values", Json::Number(JsonNumber::PosInt(vals)));
    let ready = match text_at(row, "state") {
        Some(s) => same_text(s.as_str(), "ready"),
        None => false,
    };
    if ready {
        two
    } else {
        store(two, "state", Json::Str("building".to_owned()))
    }
}

fn find_member(m: &Vec<(String, Json)>, k: &str) -> (r: Option<usize>)
    requires
        ordered(members(m@)),
    ensures
        match r {
            Some(i) => i < m@.len() && m@[i as int].0@ == k@ && lookup(members(m@), k@) == Some(m@[i as int].1@),
            None => lookup(members(m@), k@) is None,
        },
{
    let ghost mv = members(m@);
    let mut i: usize = 0;
    while i < m.len()
        invariant
            mv == members(m@),
            ordered(mv),
            i <= m@.len(),
            forall|j: int| 0 <= j < i ==> (#[trigger] mv[j]).0 != k@,
        decreases m@.len() - i,
    {
        assert(mv[i as int] == (m@[i as int].0@, m@[i as int].1@));
        if same_text(m[i].0.as_str(), k) {
            proof {
                lemma_found(mv, k@);
            }
            return Some(i);
        }
        i += 1;
    }
    proof {
        lemma_found(mv, k@);
    }
    None
}

/// Whether every member is an object.
spec fn all_objects(m: Members) -> bool {
    forall|i: int| 0 <= i < m.len() ==> (#[trigger] m[i]).1 is Object
}

proof fn lemma_put_object(m: Members, k: Seq<char>, v: JsonView)
    requires
        all_objects(m),
        v is Object,
    ensures
        all_objects(put(m, k, v)),
    decreases m.len(),
{
    if m.len() > 0 {
        let rest = m.skip(1);
        assert(all_objects(rest));
        lemma_put_object(rest, k, v);
    }
}

/// Adds one row to the union.
fn join_row(u: Vec<(String, Json)>, name: &str, row: &Json) -> (r: Vec<(String, Json)>)
    requires
        all_objects(members(u@)),
        row@ is Object,
        JsonView::Object(members(u@)).wf(),
        row@.wf(),
    ensures
        members(r@) == put(
            members(u@),
            name@,
            match lookup(members(u@), name@) {
                Some(e) => merged_row(e, row@),
                None => row@,
            },
        ),
        JsonView::Object(members(r@)).wf(),
        all_objects(members(r@)),
{
    let v = match find_member(&u, name) {
        Some(i) => {
            assert(members(u@)[i as int].1.wf());
            assert(members(u@)[i as int].1 is Object);
            merge_index_row(u[i].1.clone(), row)
        },
        None => row.clone(),
    };
    proof {
        lemma_put_wf(members(u@), name@, v@);
        lemma_put_object(members(u@), name@, v@);
    }
    put_member(u, name, v)
}

/// The union across the groups that answered. None is every one of them saying the collection is not
/// theirs, which is the client's error rather than an empty list of indexes. A group that does not
/// hold the definition at all is not ready either, and reads as building for the same reason one still
/// filling its postings does: half the fan-out is on a scan.
pub fn merge_index_listings(replies: &Vec<(u16, Json)>) -> (r: Option<Vec<Json>>)
    requires
        forall|i: int| 0 <= i < replies@.len() ==> (#[trigger] replies@[i]).1@.wf(),
    ensures
        ({
            let rv = replies_view(replies@);
            let n = rv.len() as int;
            match r {
                Some(l) => !(with_status(rv, n, true) == 0 && with_status(rv, n, false) > 0)
                    && values(l@) == listing(all_rows(rv, n), with_status(rv, n, true))
                    && (forall|i: int| 0 <= i < l@.len() ==> (#[trigger] l@[i])@.wf()),
                None => with_status(rv, n, true) == 0 && with_status(rv, n, false) > 0,
            }
        }),
{
    let ghost rv = replies_view(replies@);
    let mut u: Vec<(String, Json)> = Vec::new();
    let mut names: Vec<String> = Vec::new();
    let mut answered_by: usize = 0;
    let mut gone: usize = 0;
    let mut i: usize = 0;
    let ghost mut rows: Seq<JsonView> = Seq::empty();
    assert(members(u@) =~= union(rows));
    assert(texts(names@) =~= names_of(rows));
    while i < replies.len()
        invariant
            rv == replies_view(replies@),
            forall|i: int| 0 <= i < replies@.len() ==> (#[trigger] replies@[i]).1@.wf(),
            i <= replies@.len(),
            rows == all_rows(rv, i as int),
            members(u@) == union(rows),
            texts(names@) == names_of(rows),
            JsonView::Object(members(u@)).wf(),
            all_objects(members(u@)),
            answered_by == with_status(rv, i as int, true),
            gone == with_status(rv, i as int, false),
            answered_by <= i,
            gone <= i,
        decreases replies@.len() - i,
    {
        let status = replies[i].0;
        let body = &replies[i].1;
        assert(rv[i as int] == (status, body@));
        if status == 404 {
            gone = gone + 1;
        } else if 200 <= status && status < 300 {
            answered_by = answered_by + 1;
            let ghost before = rows;
            proof {
                lemma_member_wf(body@, "indexes"@);
            }
            match body.get("indexes") {
                Some(Json::Array(v)) => {
                    proof {
                        lemma_model(Json::Array(*v));
                        assert(body@.member("indexes"@) == Some(JsonView::Array(values(v@))));
                        let held = JsonView::Array(values(v@));
                        assert(held.wf());
                        assert forall|j: int| 0 <= j < values(v@).len() implies (#[trigger] values(v@)[j]).wf() by {
                            assert(held->Array_0[j].wf());
                        }
                        assert(values(v@).take(0) =~= Seq::empty());
                        assert(before + named_rows(values(v@).take(0)) =~= before);
                    }
                    let mut k: usize = 0;
                    while k < v.len()
                        invariant
                            k <= v@.len(),
                            forall|j: int| 0 <= j < values(v@).len() ==> (#[trigger] values(v@)[j]).wf(),
                            rows == before + named_rows(values(v@).take(k as int)),
                            members(u@) == union(rows),
                            texts(names@) == names_of(rows),
                            JsonView::Object(members(u@)).wf(),
                            all_objects(members(u@)),
                        decreases v@.len() - k,
                    {
                        proof {
                            lemma_take_grows(values(v@), k as int);
                            assert(values(v@)[k as int] == v@[k as int]@);
                        }
                        let row = &v[k];
                        if let Some(name) = text_at(row, "name") {
                            u = join_row(u, name.as_str(), row);
                            let ghost nb = texts(names@);
                            names.push(name);
                            proof {
                                let old_rows = rows;
                                rows = rows.push(row@);
                                assert(rows.drop_last() =~= old_rows);
                                assert(texts(names@) =~= nb.push(name@));
                                assert(names_of(rows) =~= names_of(old_rows).push(name@));
                                assert(rows =~= before + named_rows(values(v@).take(k + 1)));
                            }
                        }
                        k += 1;
                    }
                    proof {
                        lemma_take_all(values(v@));
                    }
                },
                _ => {
                    assert(rows + Seq::<JsonView>::empty() =~= rows);
                },
            }
        }
        i += 1;
    }
    if answered_by == 0 && gone > 0 {
        return None;
    }
    let ghost uv = union(rows);
    let mut out: Vec<Json> = Vec::new();
    let mut k: usize = 0;
    while k < u.len()
        invariant
            k <= u@.len(),
            uv == union(rows),
            members(u@) == uv,
            JsonView::Object(uv).wf(),
            texts(names@) == names_of(rows),
            out@.len() == k,
            forall|j: int| 0 <= j < k ==> (#[trigger] out@[j])@ == finished(uv[j].1, held_by(rows, uv[j].0), answered_by as int)
                && out@[j]@.wf(),
        decreases u@.len() - k,
    {
        assert(uv[k as int] == (u@[k as int].0@, u@[k as int].1@));
        let holders = count_name(&names, u[k].0.as_str());
        proof {
            lemma_held(rows, uv[k as int].0);
            assert(uv[k as int].1.wf());
        }
        let row = u[k].1.clone();
        let row = if holders < answered_by { store(row, "state", Json::Str("building".to_owned())) } else { row };
        out.push(row);
        k += 1;
    }
    assert(values(out@) =~= listing(rows, answered_by as int));
    Some(out)
}

/// The indexes that some rows are of.
pub open spec fn names_of(rows: Seq<JsonView>) -> Seq<Seq<char>> {
    Seq::new(rows.len(), |i: int| name_of(rows[i]))
}

/// How often a name stands in a list.
pub open spec fn times(names: Seq<Seq<char>>, name: Seq<char>) -> int
    decreases names.len(),
{
    if names.len() == 0 { 0 } else { times(names.drop_last(), name) + (if names.last() == name { 1int } else { 0 }) }
}

proof fn lemma_held(rows: Seq<JsonView>, name: Seq<char>)
    ensures
        held_by(rows, name) == times(names_of(rows), name),
    decreases rows.len(),
{
    if rows.len() > 0 {
        lemma_held(rows.drop_last(), name);
        assert(names_of(rows).drop_last() =~= names_of(rows.drop_last()));
    }
}

fn count_name(names: &Vec<String>, name: &str) -> (r: usize)
    ensures
        r == times(texts(names@), name@),
{
    let ghost all = texts(names@);
    let mut n: usize = 0;
    let mut i: usize = 0;
    assert(all.take(0) =~= Seq::empty());
    while i < names.len()
        invariant
            all == texts(names@),
            i <= names@.len(),
            n <= i,
            n == times(all.take(i as int), name@),
        decreases names@.len() - i,
    {
        proof {
            lemma_take_grows(all, i as int);
        }
        if same_text(names[i].as_str(), name) {
            n = n + 1;
        }
        i += 1;
    }
    proof {
        lemma_take_all(all);
    }
    n
}

/// The listing as it is answered.
pub fn router_list_indexes(collection: &str, replies: &Vec<(u16, Json)>) -> (r: Reply)
    requires
        forall|i: int| 0 <= i < replies@.len() ==> (#[trigger] replies@[i]).1@.wf(),
    ensures
        ({
            let rv = replies_view(replies@);
            let n = rv.len() as int;
            r@ == (if with_status(rv, n, true) == 0 && with_status(rv, n, false) > 0 {
                absent(collection@)
            } else {
                answered(
                    200,
                    JsonView::Object(
                        gathered(
                            seq![
                                ("collection"@, JsonView::Str(collection@)),
                                ("indexes"@, JsonView::Array(listing(all_rows(rv, n), with_status(rv, n, true)))),
                            ],
                        ),
                    ),
                )
            })
        }),
{
    match merge_index_listings(replies) {
        Some(rows) => {
            let list = list_of(rows);
            let mut pairs: Vec<(String, Json)> = Vec::new();
            pairs.push(("collection".to_owned(), Json::Str(collection.to_owned())));
            pairs.push(("indexes".to_owned(), list));
            assert(members(pairs@) =~= seq![("collection"@, JsonView::Str(collection@)), ("indexes"@, list@)]);
            json_reply(200, Json::object(pairs))
        },
        None => collection_absent_response(collection),
    }
}

// ---- Laws of a fan-out ----

proof fn lemma_row_members()
    ensures
        "node"@ != "status"@,
        "node"@ != "response"@,
        "node"@ != "error"@,
        "status"@ != "response"@,
        "status"@ != "error"@,
        "response"@ != "error"@,
{
    reveal_strlit("node");
    assert("node"@.len() == 4);
    reveal_strlit("status");
    assert("status"@.len() == 6);
    reveal_strlit("response");
    assert("response"@.len() == 8);
    reveal_strlit("error");
    assert("error"@.len() == 5);
}

/// A row says of a node what it answered, or that it could not be reached.
pub proof fn law_a_row_says_what_a_node_answered(n: Seq<char>, status: u16, body: JsonView)
    ensures
        row_of(n, Some((status, body))).member("node"@) == Some(JsonView::Str(n)),
        row_of(n, Some((status, body))).member("status"@) == Some(whole(status as u64)),
        row_of(n, Some((status, body))).member("response"@) == Some(body),
        reported(row_of(n, Some((status, body)))) == Some(status as u64),
        row_of(n, None).member("node"@) == Some(JsonView::Str(n)),
        row_of(n, None).member("error"@) == Some(JsonView::Str("unreachable"@)),
        reported(row_of(n, None)) is None,
{
    lemma_row_members();
    let a = seq![("node"@, JsonView::Str(n)), ("status"@, whole(status as u64)), ("response"@, body)];
    law_the_last_of_one_key_is_kept(a, "node"@, 0);
    law_the_last_of_one_key_is_kept(a, "status"@, 1);
    law_the_last_of_one_key_is_kept(a, "response"@, 2);
    let b = seq![("node"@, JsonView::Str(n)), ("status"@, JsonView::Null), ("error"@, JsonView::Str("unreachable"@))];
    law_the_last_of_one_key_is_kept(b, "node"@, 0);
    law_the_last_of_one_key_is_kept(b, "status"@, 1);
    law_the_last_of_one_key_is_kept(b, "error"@, 2);
}

/// A request to the groups goes to who is taken for the primary of each of them, and where replicas are
/// to have it too, to every replica; and to nobody else.
pub proof fn law_every_group_is_sent_to(g: Seq<(Seq<char>, Seq<Seq<char>>)>, overrides: Map<Seq<char>, String>, replicas: bool, n: int, q: Seq<char>)
    requires
        0 <= n <= g.len(),
    ensures
        nodes_of(g, overrides, replicas, n).contains(q) <==> exists|i: int|
            0 <= i < n && (q == effective_of(overrides, (#[trigger] g[i]).0) || (replicas && g[i].1.contains(q))),
    decreases n,
{
    lemma_joined_hold::<Seq<char>>();
    if n > 0 {
        law_every_group_is_sent_to(g, overrides, replicas, n - 1, q);
        let before = nodes_of(g, overrides, replicas, n - 1);
        if before.contains(q) {
            let i = choose|i: int| 0 <= i < n - 1 && (q == effective_of(overrides, (#[trigger] g[i]).0) || (replicas && g[i].1.contains(q)));
            assert(q == effective_of(overrides, g[i].0) || (replicas && g[i].1.contains(q)));
        }
        if nodes_of(g, overrides, replicas, n).contains(q) && !before.contains(q) {
            assert(q == effective_of(overrides, g[n - 1].0) || (replicas && g[n - 1].1.contains(q)));
        }
    }
}

proof fn lemma_replicas_but(replicas: Seq<Seq<char>>, but: Seq<char>, q: Seq<char>)
    ensures
        replicas_but(replicas, but).contains(q) <==> replicas.contains(q) && q != but,
    decreases replicas.len(),
{
    lemma_joined_hold::<Seq<char>>();
    if replicas.len() > 0 {
        lemma_replicas_but(replicas.drop_last(), but, q);
        assert(replicas =~= replicas.drop_last().push(replicas.last()));
    }
}

/// A replicated write is tried at every node of its group, first at who is taken for its primary, and at
/// nobody else.
pub proof fn law_every_node_of_a_group_is_a_candidate(original: Seq<char>, effective: Seq<char>, replicas: Seq<Seq<char>>, q: Seq<char>)
    ensures
        candidates(original, effective, replicas).contains(q) <==> q == effective || q == original || replicas.contains(q),
        candidates(original, effective, replicas)[0] == effective,
        forall|i: int| 0 < i < candidates(original, effective, replicas).len() ==> #[trigger] candidates(original, effective, replicas)[i] != effective,
{
    lemma_joined_hold::<Seq<char>>();
    lemma_replicas_but(replicas, effective, q);
    let c = candidates(original, effective, replicas);
    let first = if original == effective { seq![effective] } else { seq![effective, original] };
    let rest = replicas_but(replicas, effective);
    assert(first[0] == effective);
    assert(original != effective ==> first[1] == original);
    assert forall|i: int| 0 < i < c.len() implies #[trigger] c[i] != effective by {
        if i >= first.len() {
            lemma_replicas_but(replicas, effective, rest[i - first.len()]);
            assert(rest.contains(rest[i - first.len()]));
        }
    }
}

proof fn lemma_counts(rows: Seq<JsonView>, n: int)
    requires
        0 <= n <= rows.len(),
    ensures
        0 <= successes(rows, n),
        0 <= absences(rows, n),
        successes(rows, n) + absences(rows, n) <= n,
        successes(rows, n) + absences(rows, n) == n <==> forall|i: int| 0 <= i < n ==> #[trigger] settled_row(rows[i]),
        successes(rows, n) > 0 <==> exists|i: int| 0 <= i < n && #[trigger] reported(rows[i]) is Some && reported(rows[i])->0 < 300,
        absences(rows, n) > 0 <==> exists|i: int| 0 <= i < n && #[trigger] reported(rows[i]) == Some(404u64),
    decreases n,
{
    if n > 0 {
        lemma_counts(rows, n - 1);
        assert(settled_row(rows[n - 1]) <==> (reported(rows[n - 1]) is Some && reported(rows[n - 1])->0 < 300) || reported(rows[n - 1])
            == Some(404u64));
        if successes(rows, n - 1) > 0 {
            let i = choose|i: int| 0 <= i < n - 1 && #[trigger] reported(rows[i]) is Some && reported(rows[i])->0 < 300;
            assert(reported(rows[i]) is Some);
        }
        if absences(rows, n - 1) > 0 {
            let i = choose|i: int| 0 <= i < n - 1 && #[trigger] reported(rows[i]) == Some(404u64);
            assert(reported(rows[i]) == Some(404u64));
        }
    }
}

/// Whether a row reports success, or that the collection is not there.
pub open spec fn settled_row(row: JsonView) -> bool {
    (reported(row) is Some && reported(row)->0 < 300) || reported(row) == Some(404u64)
}

/// What a client is told of a request that went to every group: that the collection is nowhere exactly
/// where some group says so and none succeeded, and else every group's result, with full success exactly
/// where each succeeded or does not hold the collection.
pub proof fn law_a_summary_tells_of_every_group(collection: Seq<char>, key: Seq<char>, rows: Seq<JsonView>)
    ensures
        ({
            let some = exists|i: int| 0 <= i < rows.len() && #[trigger] reported(rows[i]) is Some && reported(rows[i])->0 < 300;
            let nowhere = !some && exists|i: int| 0 <= i < rows.len() && #[trigger] reported(rows[i]) == Some(404u64);
            let all = forall|i: int| 0 <= i < rows.len() ==> #[trigger] settled_row(rows[i]);
            let s = summary(collection, key, rows);
            &&& nowhere ==> s == absent(collection)
            &&& !nowhere ==> s.status == (if all { 200u16 } else { 207 }) && !s.retry_after && s.body is Json && s.body->Json_0.member(key)
                == Some(JsonView::Array(rows))
        }),
{
    lemma_counts(rows, rows.len() as int);
    law_the_last_of_one_key_is_kept(seq![(key, JsonView::Array(rows))], key, 0);
}

proof fn lemma_named_rows(v: Seq<JsonView>, row: JsonView)
    ensures
        named_rows(v).contains(row) <==> v.contains(row) && row.member("name"@) is Some && row.member("name"@)->0 is Str,
    decreases v.len(),
{
    lemma_joined_hold::<JsonView>();
    if v.len() > 0 {
        lemma_named_rows(v.drop_last(), row);
        assert(v =~= v.drop_last().push(v.last()));
    }
}

/// Every row that names an index, in every listing that a group answered with, is among the rows of the
/// cluster; and nothing else is.
pub proof fn law_every_listed_row_counts(replies: Seq<(u16, JsonView)>, n: int, row: JsonView)
    requires
        0 <= n <= replies.len(),
    ensures
        all_rows(replies, n).contains(row) <==> exists|i: int|
            0 <= i < n && 200 <= (#[trigger] replies[i]).0 < 300 && replies[i].1.member("indexes"@) is Some
                && replies[i].1.member("indexes"@)->0 is Array && replies[i].1.member("indexes"@)->0->Array_0.contains(row) && row.member(
                "name"@,
            ) is Some && row.member("name"@)->0 is Str,
    decreases n,
{
    lemma_joined_hold::<JsonView>();
    if n > 0 {
        law_every_listed_row_counts(replies, n - 1, row);
        if let Some(JsonView::Array(v)) = replies[n - 1].1.member("indexes"@) {
            lemma_named_rows(v, row);
        }
        if all_rows(replies, n - 1).contains(row) {
            let i = choose|i: int|
                0 <= i < n - 1 && 200 <= (#[trigger] replies[i]).0 < 300 && replies[i].1.member("indexes"@) is Some
                    && replies[i].1.member("indexes"@)->0 is Array && replies[i].1.member("indexes"@)->0->Array_0.contains(row)
                    && row.member("name"@) is Some && row.member("name"@)->0 is Str;
            assert(replies[i].0 >= 200);
        } else if all_rows(replies, n).contains(row) {
            assert(replies[n - 1].0 >= 200);
        }
    }
}

/// How many replies listed their indexes, and how many do not hold the collection.
pub proof fn law_replies_are_counted_by_status(replies: Seq<(u16, JsonView)>, n: int)
    requires
        0 <= n <= replies.len(),
    ensures
        with_status(replies, n, true) == 0 <==> forall|i: int| 0 <= i < n ==> !(200 <= (#[trigger] replies[i]).0 < 300),
        with_status(replies, n, true) == n <==> forall|i: int| 0 <= i < n ==> 200 <= (#[trigger] replies[i]).0 < 300,
        with_status(replies, n, false) == 0 <==> forall|i: int| 0 <= i < n ==> (#[trigger] replies[i]).0 != 404,
        0 <= with_status(replies, n, true) <= n,
        0 <= with_status(replies, n, false) <= n,
    decreases n,
{
    if n > 0 {
        law_replies_are_counted_by_status(replies, n - 1);
        assert(200 <= replies[n - 1].0 < 300 || !(200 <= replies[n - 1].0 < 300));
    }
}

/// The sum of a count over the rows of one index.
pub open spec fn summed(rows: Seq<JsonView>, name: Seq<char>, field: Seq<char>) -> int
    decreases rows.len(),
{
    if rows.len() == 0 {
        0
    } else {
        summed(rows.drop_last(), name, field) + (if rows.last().member("name"@) == Some(JsonView::Str(name)) {
            match rows.last().member(field) {
                Some(v) => match v.number() {
                    Some(n) => n as int,
                    None => 0,
                },
                None => 0,
            }
        } else {
            0
        })
    }
}

/// Whether a row is one of an index: an object that gives its name.
pub open spec fn names_index(row: JsonView) -> bool {
    row is Object && row.wf() && row.member("name"@) is Some && row.member("name"@)->0 is Str
}

proof fn lemma_index_members()
    ensures
        "name"@ != "documents"@,
        "name"@ != "values"@,
        "name"@ != "state"@,
        "documents"@ != "values"@,
        "documents"@ != "state"@,
        "values"@ != "state"@,
{
    reveal_strlit("name");
    assert("name"@.len() == 4);
    reveal_strlit("documents");
    assert("documents"@.len() == 9);
    reveal_strlit("values");
    assert("values"@.len() == 6);
    reveal_strlit("state");
    assert("state"@.len() == 5);
}

proof fn lemma_merged_row(into: JsonView, row: JsonView)
    requires
        names_index(into),
        names_index(row),
    ensures
        ({
            let m = merged_row(into, row);
            &&& names_index(m)
            &&& m.member("name"@) == into.member("name"@)
            &&& count_in(m, "documents"@) == capped(count_in(into, "documents"@) + count_in(row, "documents"@))
            &&& count_in(m, "values"@) == capped(count_in(into, "values"@) + count_in(row, "values"@))
            &&& is_ready(m) <==> is_ready(into) && is_ready(row)
        }),
{
    lemma_index_members();
    reveal_strlit("ready");
    reveal_strlit("building");
    assert("ready"@.len() != "building"@.len());
    let docs = whole(capped(count_in(into, "documents"@) + count_in(row, "documents"@)));
    let one = stored(into, "documents"@, docs);
    let m0 = into->Object_0;
    lemma_put_wf(m0, "documents"@, docs);
    law_members_are_a_map(m0, "documents"@, docs, "name"@);
    law_members_are_a_map(m0, "documents"@, docs, "documents"@);
    law_members_are_a_map(m0, "documents"@, docs, "values"@);
    law_members_are_a_map(m0, "documents"@, docs, "state"@);
    let vals = whole(capped(count_in(one, "values"@) + count_in(row, "values"@)));
    let two = stored(one, "values"@, vals);
    let m1 = one->Object_0;
    lemma_put_wf(m1, "values"@, vals);
    law_members_are_a_map(m1, "values"@, vals, "name"@);
    law_members_are_a_map(m1, "values"@, vals, "documents"@);
    law_members_are_a_map(m1, "values"@, vals, "values"@);
    law_members_are_a_map(m1, "values"@, vals, "state"@);
    let m2 = two->Object_0;
    let b = JsonView::Str("building"@);
    lemma_put_wf(m2, "state"@, b);
    law_members_are_a_map(m2, "state"@, b, "name"@);
    law_members_are_a_map(m2, "state"@, b, "documents"@);
    law_members_are_a_map(m2, "state"@, b, "values"@);
    law_members_are_a_map(m2, "state"@, b, "state"@);
}

/// The cluster's row of an index stands exactly where some group has one; its counts are the sums over
/// every group's row of that index, up to the largest count there is, and it is ready exactly where each
/// of those rows is.
pub proof fn law_an_index_row_sums_every_groups(rows: Seq<JsonView>, name: Seq<char>)
    requires
        forall|i: int| 0 <= i < rows.len() ==> names_index(#[trigger] rows[i]),
    ensures
        ordered(union(rows)),
        lookup(union(rows), name) is Some <==> exists|i: int| 0 <= i < rows.len() && (#[trigger] rows[i]).member("name"@) == Some(JsonView::Str(name)),
        lookup(union(rows), name) is Some ==> ({
            let row = lookup(union(rows), name)->0;
            &&& names_index(row) && row.member("name"@) == Some(JsonView::Str(name))
            &&& count_in(row, "documents"@) == capped(summed(rows, name, "documents"@))
            &&& count_in(row, "values"@) == capped(summed(rows, name, "values"@))
            &&& is_ready(row) <==> forall|i: int| 0 <= i < rows.len() && (#[trigger] rows[i]).member("name"@) == Some(JsonView::Str(name)) ==> is_ready(
                rows[i],
            )
        }),
        summed(rows, name, "documents"@) >= 0 && summed(rows, name, "values"@) >= 0,
        lookup(union(rows), name) is None ==> summed(rows, name, "documents"@) == 0 && summed(rows, name, "values"@) == 0,
    decreases rows.len(),
{
    if rows.len() > 0 {
        let rest = rows.drop_last();
        let row = rows.last();
        let last = rows.len() - 1;
        assert(rows[last] == row);
        assert forall|i: int| 0 <= i < rest.len() implies names_index(#[trigger] rest[i]) by {
            assert(rest[i] == rows[i]);
        }
        law_an_index_row_sums_every_groups(rest, name);
        law_an_index_row_sums_every_groups(rest, name_of(row));
        let before = union(rest);
        let made = match lookup(before, name_of(row)) {
            Some(e) => merged_row(e, row),
            None => row,
        };
        law_members_are_a_map(before, name_of(row), made, name);
        if lookup(before, name_of(row)) is Some {
            lemma_merged_row(lookup(before, name_of(row))->0, row);
        }
        assert(row.member("name"@) == Some(JsonView::Str(name_of(row))));
        if lookup(before, name) is Some {
            let i = choose|i: int| 0 <= i < rest.len() && (#[trigger] rest[i]).member("name"@) == Some(JsonView::Str(name));
            assert(rows[i] == rest[i]);
        }
        if exists|i: int| 0 <= i < rows.len() && (#[trigger] rows[i]).member("name"@) == Some(JsonView::Str(name)) {
            let i = choose|i: int| 0 <= i < rows.len() && (#[trigger] rows[i]).member("name"@) == Some(JsonView::Str(name));
            if i < last {
                assert(rest[i] == rows[i]);
            }
        }
        let ready_before = forall|i: int|
            0 <= i < rest.len() && (#[trigger] rest[i]).member("name"@) == Some(JsonView::Str(name)) ==> is_ready(rest[i]);
        let ready_all = forall|i: int|
            0 <= i < rows.len() && (#[trigger] rows[i]).member("name"@) == Some(JsonView::Str(name)) ==> is_ready(rows[i]);
        if ready_all {
            assert forall|i: int| 0 <= i < rest.len() && (#[trigger] rest[i]).member("name"@) == Some(JsonView::Str(name)) implies is_ready(rest[i]) by {
                assert(rest[i] == rows[i]);
            }
        }
        if ready_before && (name_of(row) == name ==> is_ready(row)) {
            assert forall|i: int| 0 <= i < rows.len() && (#[trigger] rows[i]).member("name"@) == Some(JsonView::Str(name)) implies is_ready(rows[i]) by {
                if i < last {
                    assert(rest[i] == rows[i]);
                }
            }
        }
        assert(ready_all <==> ready_before && (name_of(row) == name ==> is_ready(row)));
    } else {
        assert(union(rows) =~= Seq::empty());
    }
}

/// An index that some group that answered does not hold reads as building, and one that every such group
/// holds as its row has it.
pub proof fn law_an_index_is_ready_where_every_group_has_it(row: JsonView, holders: int, groups: int)
    requires
        row is Object,
        row.wf(),
    ensures
        holders < groups ==> finished(row, holders, groups).member("state"@) == Some(JsonView::Str("building"@)),
        holders >= groups ==> finished(row, holders, groups) == row,
{
    law_members_are_a_map(row->Object_0, "state"@, JsonView::Str("building"@), "state"@);
}

/// The holders of an index are counted: none exactly where no row is of it, and all rows where all are.
pub proof fn law_holders_are_counted(rows: Seq<JsonView>, name: Seq<char>)
    requires
        forall|i: int| 0 <= i < rows.len() ==> names_index(#[trigger] rows[i]),
    ensures
        0 <= held_by(rows, name) <= rows.len(),
        held_by(rows, name) == 0 <==> forall|i: int| 0 <= i < rows.len() ==> (#[trigger] rows[i]).member("name"@) != Some(JsonView::Str(name)),
        held_by(rows, name) == rows.len() <==> forall|i: int| 0 <= i < rows.len() ==> (#[trigger] rows[i]).member("name"@) == Some(JsonView::Str(name)),
    decreases rows.len(),
{
    if rows.len() > 0 {
        let rest = rows.drop_last();
        assert forall|i: int| 0 <= i < rest.len() implies names_index(#[trigger] rest[i]) by {
            assert(rest[i] == rows[i]);
        }
        law_holders_are_counted(rest, name);
        assert(forall|i: int| 0 <= i < rest.len() ==> rest[i] == rows[i]);
        assert(rows[rows.len() - 1] == rows.last());
        assert(names_index(rows[rows.len() - 1]));
    }
}

/// Rows are counted one by one: as successes those that report a status below 300, as absences those
/// that report 404.
pub proof fn law_rows_are_counted_one_by_one(rows: Seq<JsonView>, n: int)
    requires
        0 <= n <= rows.len(),
    ensures
        successes(rows, n) == rows.take(n).filter(|r: JsonView| reported(r) is Some && reported(r)->0 < 300).len(),
        absences(rows, n) == rows.take(n).filter(|r: JsonView| reported(r) == Some(404u64)).len(),
    decreases n,
{
    reveal(Seq::filter);
    if n > 0 {
        law_rows_are_counted_one_by_one(rows, n - 1);
        lemma_take_grows(rows, n - 1);
    }
}

/// The holders of an index are the rows that name it.
pub proof fn law_every_row_of_an_index_is_a_holder(rows: Seq<JsonView>, name: Seq<char>)
    ensures
        held_by(rows, name) == rows.filter(|r: JsonView| name_of(r) == name).len(),
    decreases rows.len(),
{
    reveal(Seq::filter);
    if rows.len() > 0 {
        law_every_row_of_an_index_is_a_holder(rows.drop_last(), name);
    }
}

/// Whatever else a row says of an index is what the first group that has it says.
pub proof fn law_an_index_row_keeps_what_the_first_group_says(rows: Seq<JsonView>, name: Seq<char>, k: Seq<char>, i: int)
    requires
        forall|j: int| 0 <= j < rows.len() ==> names_index(#[trigger] rows[j]),
        0 <= i < rows.len(),
        rows[i].member("name"@) == Some(JsonView::Str(name)),
        forall|j: int| 0 <= j < i ==> (#[trigger] rows[j]).member("name"@) != Some(JsonView::Str(name)),
        k != "documents"@ && k != "values"@ && k != "state"@,
    ensures
        lookup(union(rows), name) is Some,
        (lookup(union(rows), name)->0).member(k) == rows[i].member(k),
    decreases rows.len(),
{
    let rest = rows.drop_last();
    let row = rows.last();
    assert(rows[rows.len() - 1] == row);
    assert forall|j: int| 0 <= j < rest.len() implies names_index(#[trigger] rest[j]) by {
        assert(rest[j] == rows[j]);
    }
    let before = union(rest);
    let made = match lookup(before, name_of(row)) {
        Some(e) => merged_row(e, row),
        None => row,
    };
    law_an_index_row_sums_every_groups(rest, name);
    law_members_are_a_map(before, name_of(row), made, name);
    if i < rest.len() {
        assert(rest[i] == rows[i]);
        assert forall|j: int| 0 <= j < i implies (#[trigger] rest[j]).member("name"@) != Some(JsonView::Str(name)) by {
            assert(rest[j] == rows[j]);
        }
        law_an_index_row_keeps_what_the_first_group_says(rest, name, k, i);
        if name_of(row) == name {
            let e = lookup(before, name)->0;
            lemma_merged_row_keeps(e, row, k);
        }
    } else {
        assert forall|j: int| 0 <= j < rest.len() implies (#[trigger] rest[j]).member("name"@) != Some(JsonView::Str(name)) by {
            assert(rest[j] == rows[j]);
        }
        assert(name_of(row) == name);
    }
}

proof fn lemma_merged_row_keeps(into: JsonView, row: JsonView, k: Seq<char>)
    requires
        names_index(into),
        k != "documents"@ && k != "values"@ && k != "state"@,
    ensures
        merged_row(into, row).member(k) == into.member(k),
{
    let docs = whole(capped(count_in(into, "documents"@) + count_in(row, "documents"@)));
    let one = stored(into, "documents"@, docs);
    law_members_are_a_map(into->Object_0, "documents"@, docs, k);
    let vals = whole(capped(count_in(one, "values"@) + count_in(row, "values"@)));
    let two = stored(one, "values"@, vals);
    law_members_are_a_map(one->Object_0, "values"@, vals, k);
    law_members_are_a_map(two->Object_0, "state"@, JsonView::Str("building"@), k);
}

/// An owner that answers ends the write and is told of by its own row, and noted where it is not the
/// recorded primary; one that does not has the next candidate asked.
pub proof fn law_what_an_owners_answer_does(w: OwnerWriteView, reply: Option<(u16, JsonView)>)
    requires
        0 <= w.at < w.candidates.len(),
    ensures
        ({
            let (after, step) = w.next(reply);
            let node = w.candidates[w.at];
            let answers = reply is Some && authoritative((reply->0).0);
            &&& answers ==> step is Done && step->row == row_of(node, reply) && step->primary == (if node != w.original {
                Some(node)
            } else {
                None
            })
            &&& !answers && w.at + 1 < w.candidates.len() ==> step == OwnerStepView::Send(w.candidates[w.at + 1]) && after.at == w.at + 1
            &&& !answers && w.at + 1 == w.candidates.len() ==> step is Done && step->row == row_of(w.original, None) && step->primary is None
            &&& after.candidates == w.candidates && after.original == w.original
        }),
{
}

} // verus!
