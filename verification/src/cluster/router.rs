//! Request forwarding, shard failover, and the choice of who answers a read.

use super::metadata::{ClusterMetadata, ClusterMetadataView};
use super::ownership::opt_built;
use super::probe::{each_once, text_at, text_of_member};
use crate::endpoint::{node, node_key, same_endpoint, same_node};
use crate::escape::{encode_path_segment, escaped};
use crate::json::{
    gathered, law_the_last_of_one_key_is_kept, lemma_member_wf, lemma_model, members, values, Json, JsonView,
};
use crate::lists::{lemma_joined_hold, lemma_take_all, lemma_take_grows};
use crate::metrics::NodeLoad;
use crate::model::{embed_key, embedded, err_json, BulkDoc};
use crate::name_map::NameMap;
use crate::ring::{covered, hash_key, key_hash, range_owner, BuiltRing, BuiltRingView, ShardInfoView};
use crate::text::{cat2, cat3, cat5, copy_list, list_holds, opt_text, same_text, texts};
use crate::wire::{json_text, read_json};
use vstd::prelude::*;
use vstd::utf8::encode_utf8;

verus! {

pub enum ForwardMethod {
    Put,
    Patch,
    Delete,
}

/// A shard's reply, buffered. The forward path has to look inside a conflict to see whether it is a
/// redirect.
#[derive(Debug, PartialEq, Eq)]
pub struct ShardReply {
    pub status: u16,
    pub body: String,
}

pub ghost struct ShardReplyView {
    pub status: u16,
    pub body: Seq<char>,
}

impl View for ShardReply {
    type V = ShardReplyView;

    open spec fn view(&self) -> ShardReplyView {
        ShardReplyView { status: self.status, body: self.body@ }
    }
}

pub open spec fn opt_reply(r: Option<ShardReply>) -> Option<ShardReplyView> {
    match r {
        Some(x) => Some(x@),
        None => None,
    }
}

/// The body of an answer.
pub enum Body {
    Json(Json),
    Text(String),
}

/// What a client is answered.
pub struct Reply {
    pub status: u16,
    /// Whether the client is told to retry after a second.
    pub retry_after: bool,
    pub body: Body,
}

pub ghost enum BodyView {
    Json(JsonView),
    Text(Seq<char>),
}

pub ghost struct ReplyView {
    pub status: u16,
    pub retry_after: bool,
    pub body: BodyView,
}

impl View for Body {
    type V = BodyView;

    open spec fn view(&self) -> BodyView {
        match *self {
            Body::Json(j) => BodyView::Json(j@),
            Body::Text(t) => BodyView::Text(t@),
        }
    }
}

impl View for Reply {
    type V = ReplyView;

    open spec fn view(&self) -> ReplyView {
        ReplyView { status: self.status, retry_after: self.retry_after, body: self.body@ }
    }
}

/// An answer in JSON.
pub open spec fn answered(status: u16, body: JsonView) -> ReplyView {
    ReplyView { status, retry_after: false, body: BodyView::Json(body) }
}

/// An answer in plain text.
pub open spec fn told(status: u16, text: Seq<char>) -> ReplyView {
    ReplyView { status, retry_after: false, body: BodyView::Text(text) }
}

/// The body of an error.
pub open spec fn error_body(msg: Seq<char>) -> JsonView {
    JsonView::Object(gathered(seq![("error"@, JsonView::Str(msg))]))
}

pub fn text_reply(status: u16, text: &str) -> (r: Reply)
    ensures
        r@ == told(status, text@),
{
    Reply { status, retry_after: false, body: Body::Text(text.to_owned()) }
}

pub fn json_reply(status: u16, body: Json) -> (r: Reply)
    ensures
        r@ == answered(status, body@),
{
    Reply { status, retry_after: false, body: Body::Json(body) }
}

pub fn error_reply(status: u16, msg: String) -> (r: Reply)
    ensures
        r@ == answered(status, error_body(msg@)),
{
    json_reply(status, err_json(msg))
}

/// The owner that a reply names, from its status and its body where that is JSON.
pub open spec fn owner_in(status: u16, body: Option<JsonView>) -> Option<Seq<char>> {
    if status != 409 || body is None { None } else { text_of_member((body->0).member("owner"@)) }
}

/// The owner that a reply names, from its status and its body where that is JSON.
pub fn owner_named(status: u16, body: Option<&Json>) -> (r: Option<String>)
    requires
        body is Some ==> body->0@.wf(),
    ensures
        opt_text(r) == owner_in(status, opt_view(body)),
{
    if status != 409 {
        return None;
    }
    match body {
        Some(b) => text_at(b, "owner"),
        None => None,
    }
}

pub open spec fn opt_view(j: Option<&Json>) -> Option<JsonView> {
    match j {
        Some(x) => Some(x@),
        None => None,
    }
}

impl ShardReplyView {
    /// The owner that the reply names.
    pub open spec fn owner(self) -> Option<Seq<char>> {
        owner_in(self.status, json_text(self.body))
    }

    /// The body as it is passed on.
    pub open spec fn content(self) -> JsonView {
        json_or_text(json_text(self.body), self.body)
    }
}

impl ShardReply {
    /// The owner that a reply names, where the shard is telling us that our view is stale rather than
    /// answering.
    pub fn redirect(&self) -> (r: Option<String>)
        ensures
            opt_text(r) == self@.owner(),
    {
        if self.status != 409 {
            return None;
        }
        let parsed = read_json(self.body.as_str());
        owner_named(self.status, parsed.as_ref())
    }
}

/// A body: its JSON, or its text where that is none.
pub open spec fn json_or_text(parsed: Option<JsonView>, raw: Seq<char>) -> JsonView {
    match parsed {
        Some(j) => j,
        None => JsonView::Str(raw),
    }
}

/// A body: its JSON, or its text where that is none.
pub fn value_or_text(parsed: Option<Json>, raw: String) -> (r: Json)
    ensures
        r@ == json_or_text(opt_json(parsed), raw@),
        parsed is Some ==> r == parsed->0,
{
    match parsed {
        Some(j) => j,
        None => Json::Str(raw),
    }
}

pub open spec fn opt_json(j: Option<Json>) -> Option<JsonView> {
    match j {
        Some(x) => Some(x@),
        None => None,
    }
}

impl ShardReply {
    pub fn into_content(self) -> (r: Json)
        ensures
            r@ == self@.content(),
            r@.wf(),
    {
        let parsed = read_json(self.body.as_str());
        value_or_text(parsed, self.body)
    }
}

/// A shard's reply, passed on.
pub fn passthrough(reply: ShardReply) -> (r: Reply)
    ensures
        r@ == answered(reply.status, reply@.content()),
{
    let status = reply.status;
    json_reply(status, reply.into_content())
}

pub open spec fn is_success(s: u16) -> bool {
    200 <= s < 300
}

/// Whether a status is an answer.
pub open spec fn authoritative(s: u16) -> bool {
    is_success(s) || s == 400 || s == 404 || s == 409 || s == 413 || s == 422
}

/// A shard's 4xx is an answer, not a failure: a 404 to a patch means no document, not a dead node.
pub fn authoritative_write_status(s: u16) -> (r: bool)
    ensures
        r == authoritative(s),
{
    (200 <= s && s < 300) || s == 400 || s == 404 || s == 409 || s == 413 || s == 422
}

// ---- Where a key goes ----

/// The nodes that serve a key.
pub struct Route {
    /// Who is taken for the primary now.
    pub effective: String,
    /// The recorded primary.
    pub original: String,
    pub replicas: Vec<String>,
}

pub ghost struct RouteView {
    pub effective: Seq<char>,
    pub original: Seq<char>,
    pub replicas: Seq<Seq<char>>,
}

impl View for Route {
    type V = RouteView;

    open spec fn view(&self) -> RouteView {
        RouteView { effective: self.effective@, original: self.original@, replicas: texts(self.replicas@) }
    }
}

/// Who is taken for the primary of a group: the override where there is one.
pub open spec fn effective_of(overrides: Map<Seq<char>, String>, original: Seq<char>) -> Seq<char> {
    if overrides.dom().contains(original) { overrides[original]@ } else { original }
}

pub fn effective_primary(overrides: &NameMap<String>, original: &str) -> (r: String)
    ensures
        r@ == effective_of(overrides@, original@),
{
    match overrides.get(original) {
        Some(u) => u.clone(),
        None => original.to_owned(),
    }
}

/// The first of some ranges that holds a hash.
pub open spec fn first_covering(s: Seq<ShardInfoView>, h: u64) -> Option<ShardInfoView>
    decreases s.len(),
{
    if s.len() == 0 {
        None
    } else if s[0].covers(h) {
        Some(s[0])
    } else {
        first_covering(s.skip(1), h)
    }
}

/// The group that owns a hash: on the ring where there is one, by the ranges otherwise.
pub open spec fn owning_group(view: ClusterMetadataView, built: Option<BuiltRingView>, h: u64) -> Option<(Seq<char>, Seq<Seq<char>>)> {
    match built {
        Some(b) => match b.owner(h) {
            Some(o) => Some((o.node_url, o.replica_urls)),
            None => None,
        },
        None => match first_covering(view.shards, h) {
            Some(s) => Some((s.node_url, s.replica_urls)),
            None => None,
        },
    }
}

proof fn lemma_first_covering(s: Seq<ShardInfoView>, h: u64, i: int)
    requires
        0 <= i < s.len(),
        s[i].covers(h),
        forall|j: int| 0 <= j < i ==> !(#[trigger] s[j]).covers(h),
    ensures
        first_covering(s, h) == Some(s[i]),
    decreases s.len(),
{
    if i > 0 {
        let rest = s.skip(1);
        assert(!s[0].covers(h));
        assert forall|j: int| 0 <= j < i - 1 implies !(#[trigger] rest[j]).covers(h) by {
            assert(rest[j] == s[j + 1]);
        }
        lemma_first_covering(rest, h, i - 1);
    }
}

proof fn lemma_none_covering(s: Seq<ShardInfoView>, h: u64)
    requires
        !covered(s, h),
    ensures
        first_covering(s, h) is None,
    decreases s.len(),
{
    if s.len() > 0 {
        let rest = s.skip(1);
        assert(!s[0].covers(h));
        assert(!covered(rest, h)) by {
            if covered(rest, h) {
                let i = choose|i: int| 0 <= i < rest.len() && (#[trigger] rest[i]).covers(h);
                assert(s[i + 1].covers(h));
            }
        }
        lemma_none_covering(rest, h);
    }
}

/// Where a key goes. `built` is the ring of the view, where it has one.
pub fn route_key(view: &ClusterMetadata, built: Option<&BuiltRing>, overrides: &NameMap<String>, h: u64) -> (r: Option<Route>)
    ensures
        match r {
            Some(x) => ({
                let g = owning_group(view@, opt_built(built), h);
                g is Some && x@ == (RouteView {
                    effective: effective_of(overrides@, (g->0).0),
                    original: (g->0).0,
                    replicas: (g->0).1,
                })
            }),
            None => owning_group(view@, opt_built(built), h) is None,
        },
{
    match built {
        Some(b) => match b.owner(h) {
            Some(o) => Some(
                Route {
                    effective: effective_primary(overrides, o.node_url.as_str()),
                    original: o.node_url.clone(),
                    replicas: copy_list(&o.replica_urls),
                },
            ),
            None => None,
        },
        None => match range_owner(view.shards.as_slice(), h) {
            Some(i) => {
                proof {
                    lemma_first_covering(view@.shards, h, i as int);
                }
                let s = &view.shards[i];
                Some(
                    Route {
                        effective: effective_primary(overrides, s.node_url.as_str()),
                        original: s.node_url.clone(),
                        replicas: copy_list(&s.replica_urls),
                    },
                )
            },
            None => {
                proof {
                    lemma_none_covering(view@.shards, h);
                }
                None
            },
        },
    }
}

/// Where a document goes, or the refusal where no shard owns its key.
pub fn document_route(
    view: &ClusterMetadata,
    built: Option<&BuiltRing>,
    overrides: &NameMap<String>,
    collection: &str,
    key: &str,
) -> (r: Result<Route, Reply>)
    ensures
        ({
            let g = owning_group(view@, opt_built(built), key_hash(collection@, key@));
            match r {
                Ok(x) => g is Some && x@ == (RouteView {
                    effective: effective_of(overrides@, (g->0).0),
                    original: (g->0).0,
                    replicas: (g->0).1,
                }),
                Err(e) => g is None && e@ == told(400, "Key not owned by any shard"@),
            }
        }),
{
    match route_key(view, built, overrides, hash_key(collection, key)) {
        Some(x) => Ok(x),
        None => Err(text_reply(400, "Key not owned by any shard")),
    }
}

/// The path of a document on a shard. The ring hashed the decoded key, so the shard has to store that
/// same key: the path it arrives on is the only thing that can lose it.
pub fn document_path(collection: &str, key: &str, query: &str) -> (r: String)
    ensures
        r@ == "/collections/"@ + escaped(encode_utf8(collection@)) + "/docs/"@ + escaped(encode_utf8(key@)) + query@,
{
    let c = encode_path_segment(collection);
    let k = encode_path_segment(key);
    cat5("/collections/", c.as_str(), "/docs/", k.as_str(), query)
}

// ---- Forwarding a write ----

/// What a forwarded write is waiting for.
#[derive(Clone, Copy, Debug, PartialEq, Eq, Structural)]
pub enum ForwardPhase {
    /// The reply of the node taken for the primary.
    First,
    /// The reply of the owner that the first reply named.
    Redirected,
    /// A fresh look at who is taken for the primary, under the shard's failover lock.
    Refreshing,
    /// The reply of a primary that changed meanwhile.
    Latest,
    /// The reply of a replica.
    Replica(usize),
    Over,
}

/// A write on its way to a shard.
pub struct Forward {
    pub effective: String,
    pub original: String,
    pub replicas: Vec<String>,
    pub phase: ForwardPhase,
}

pub ghost struct ForwardView {
    pub effective: Seq<char>,
    pub original: Seq<char>,
    pub replicas: Seq<Seq<char>>,
    pub phase: ForwardPhase,
}

impl View for Forward {
    type V = ForwardView;

    open spec fn view(&self) -> ForwardView {
        ForwardView {
            effective: self.effective@,
            original: self.original@,
            replicas: texts(self.replicas@),
            phase: self.phase,
        }
    }
}

/// What happened outside.
pub enum ForwardEvent {
    Unreachable,
    /// A reply: its status, and the owner that it redirects to, if it does.
    Replied { status: u16, redirect: Option<String> },
    /// Who is taken for the primary by now.
    Refreshed { latest: Option<String> },
}

/// What to do next.
pub enum ForwardAction {
    /// Send the write to this node.
    Send(String),
    /// Take the shard's failover lock and look again who is taken for the primary.
    Refresh,
    /// Forget what is taken for the primary, then send the write to this node.
    ForgetAndSend(String),
    /// Answer with the reply that just came, after noting that this node leads, where one is named.
    Answer { primary: Option<String> },
    /// Answer with the first reply, the redirect.
    AnswerFirst,
    /// Nobody could be reached. With `forget`, what is taken for the primary is forgotten too.
    Unreachable { forget: bool },
}

pub ghost enum ForwardActionView {
    Send(Seq<char>),
    Refresh,
    ForgetAndSend(Seq<char>),
    Answer { primary: Option<Seq<char>> },
    AnswerFirst,
    Unreachable { forget: bool },
}

impl View for ForwardAction {
    type V = ForwardActionView;

    open spec fn view(&self) -> ForwardActionView {
        match *self {
            ForwardAction::Send(u) => ForwardActionView::Send(u@),
            ForwardAction::Refresh => ForwardActionView::Refresh,
            ForwardAction::ForgetAndSend(u) => ForwardActionView::ForgetAndSend(u@),
            ForwardAction::Answer { primary } => ForwardActionView::Answer { primary: opt_text(primary) },
            ForwardAction::AnswerFirst => ForwardActionView::AnswerFirst,
            ForwardAction::Unreachable { forget } => ForwardActionView::Unreachable { forget },
        }
    }
}

impl ForwardView {
    pub open spec fn at(self, phase: ForwardPhase) -> ForwardView {
        ForwardView { phase, ..self }
    }

    /// The replicas from position `i` on are still to be tried.
    pub open spec fn fall_back(self, i: int) -> (ForwardView, ForwardActionView) {
        if 0 <= i < self.replicas.len() {
            (
                self.at(ForwardPhase::Replica(i as usize)),
                if i == 0 { ForwardActionView::ForgetAndSend(self.replicas[0]) } else { ForwardActionView::Send(self.replicas[i]) },
            )
        } else {
            (self.at(ForwardPhase::Over), ForwardActionView::Unreachable { forget: i == 0 })
        }
    }

    /// The state and the action after an event. An event that the write is not waiting for ends it.
    pub open spec fn next(self, event: ForwardEvent) -> (ForwardView, ForwardActionView) {
        match (self.phase, event) {
            (ForwardPhase::First, ForwardEvent::Unreachable) => (self.at(ForwardPhase::Refreshing), ForwardActionView::Refresh),
            (ForwardPhase::First, ForwardEvent::Replied { status, redirect }) => match redirect {
                Some(owner) => (self.at(ForwardPhase::Redirected), ForwardActionView::Send(owner@)),
                None => if authoritative(status) {
                    (
                        self.at(ForwardPhase::Over),
                        ForwardActionView::Answer {
                            primary: if self.effective != self.original { Some(self.effective) } else { None },
                        },
                    )
                } else {
                    (self.at(ForwardPhase::Refreshing), ForwardActionView::Refresh)
                },
            },
            (ForwardPhase::Redirected, ForwardEvent::Unreachable) => (self.at(ForwardPhase::Over), ForwardActionView::AnswerFirst),
            (ForwardPhase::Redirected, ForwardEvent::Replied { status, redirect }) => (
                self.at(ForwardPhase::Over),
                if authoritative(status) && redirect is None {
                    ForwardActionView::Answer { primary: None }
                } else {
                    ForwardActionView::AnswerFirst
                },
            ),
            (ForwardPhase::Refreshing, ForwardEvent::Refreshed { latest }) => if latest is Some && latest->0@ != self.effective {
                (self.at(ForwardPhase::Latest), ForwardActionView::Send(latest->0@))
            } else {
                self.fall_back(0)
            },
            (ForwardPhase::Latest, ForwardEvent::Unreachable) => self.fall_back(0),
            (ForwardPhase::Latest, ForwardEvent::Replied { status, redirect }) => if authoritative(status) {
                (self.at(ForwardPhase::Over), ForwardActionView::Answer { primary: None })
            } else {
                self.fall_back(0)
            },
            (ForwardPhase::Replica(i), ForwardEvent::Unreachable) => self.fall_back(i + 1),
            (ForwardPhase::Replica(i), ForwardEvent::Replied { status, redirect }) => if authoritative(status) && i < self.replicas.len() {
                (self.at(ForwardPhase::Over), ForwardActionView::Answer { primary: Some(self.replicas[i as int]) })
            } else {
                self.fall_back(i + 1)
            },
            _ => (self.at(ForwardPhase::Over), ForwardActionView::Unreachable { forget: false }),
        }
    }
}

impl Forward {
    /// A write to the owner of a key.
    pub fn begin(route: Route) -> (r: (Forward, ForwardAction))
        ensures
            r.0@ == (ForwardView {
                effective: route@.effective,
                original: route@.original,
                replicas: route@.replicas,
                phase: ForwardPhase::First,
            }),
            r.1@ == ForwardActionView::Send(route@.effective),
    {
        let to = route.effective.clone();
        (
            Forward { effective: route.effective, original: route.original, replicas: route.replicas, phase: ForwardPhase::First },
            ForwardAction::Send(to),
        )
    }

    fn fall_back(&mut self, i: usize) -> (r: ForwardAction)
        ensures
            (final(self)@, r@) == old(self)@.fall_back(i as int),
    {
        if i < self.replicas.len() {
            self.phase = ForwardPhase::Replica(i);
            let to = self.replicas[i].clone();
            if i == 0 { ForwardAction::ForgetAndSend(to) } else { ForwardAction::Send(to) }
        } else {
            self.phase = ForwardPhase::Over;
            ForwardAction::Unreachable { forget: i == 0 }
        }
    }

    /// The next thing to do, given what happened. A shard that says the key is not its own names the
    /// owner, so one retry gets the write to the right place instead of handing the client a conflict
    /// it can do nothing about.
    pub fn router_forward_write(&mut self, event: ForwardEvent) -> (r: ForwardAction)
        ensures
            (final(self)@, r@) == old(self)@.next(event),
    {
        match (self.phase, event) {
            (ForwardPhase::First, ForwardEvent::Unreachable) => {
                self.phase = ForwardPhase::Refreshing;
                ForwardAction::Refresh
            },
            (ForwardPhase::First, ForwardEvent::Replied { status, redirect }) => match redirect {
                Some(owner) => {
                    self.phase = ForwardPhase::Redirected;
                    ForwardAction::Send(owner)
                },
                None => {
                    if authoritative_write_status(status) {
                        self.phase = ForwardPhase::Over;
                        let same = same_text(self.effective.as_str(), self.original.as_str());
                        let primary: Option<String> = if same { None } else { Some(self.effective.clone()) };
                        return ForwardAction::Answer { primary };
                    }
                    self.phase = ForwardPhase::Refreshing;
                    ForwardAction::Refresh
                },
            },
            (ForwardPhase::Redirected, ForwardEvent::Unreachable) => {
                self.phase = ForwardPhase::Over;
                ForwardAction::AnswerFirst
            },
            (ForwardPhase::Redirected, ForwardEvent::Replied { status, redirect }) => {
                self.phase = ForwardPhase::Over;
                if authoritative_write_status(status) && redirect.is_none() {
                    ForwardAction::Answer { primary: None }
                } else {
                    ForwardAction::AnswerFirst
                }
            },
            (ForwardPhase::Refreshing, ForwardEvent::Refreshed { latest }) => {
                if let Some(l) = latest {
                    if !same_text(l.as_str(), self.effective.as_str()) {
                        self.phase = ForwardPhase::Latest;
                        return ForwardAction::Send(l);
                    }
                }
                self.fall_back(0)
            },
            (ForwardPhase::Latest, ForwardEvent::Unreachable) => self.fall_back(0),
            (ForwardPhase::Latest, ForwardEvent::Replied { status, redirect: _ }) => {
                if authoritative_write_status(status) {
                    self.phase = ForwardPhase::Over;
                    return ForwardAction::Answer { primary: None };
                }
                self.fall_back(0)
            },
            (ForwardPhase::Replica(i), ForwardEvent::Unreachable) => {
                if i < self.replicas.len() {
                    return self.fall_back(i + 1);
                }
                self.phase = ForwardPhase::Over;
                ForwardAction::Unreachable { forget: false }
            },
            (ForwardPhase::Replica(i), ForwardEvent::Replied { status, redirect: _ }) => {
                if i < self.replicas.len() {
                    if authoritative_write_status(status) {
                        self.phase = ForwardPhase::Over;
                        return ForwardAction::Answer { primary: Some(self.replicas[i].clone()) };
                    }
                    return self.fall_back(i + 1);
                }
                self.phase = ForwardPhase::Over;
                ForwardAction::Unreachable { forget: false }
            },
            _ => {
                self.phase = ForwardPhase::Over;
                ForwardAction::Unreachable { forget: false }
            },
        }
    }

    /// The same for one shard's part of a bulk write, which is not redirected: a reply that is no
    /// answer, or none, goes straight to the replicas.
    pub fn router_forward_bulk(&mut self, event: ForwardEvent) -> (r: ForwardAction)
        ensures
            (final(self)@, r@) == old(self)@.next_bulk(event),
    {
        match (self.phase, event) {
            (ForwardPhase::First, ForwardEvent::Replied { status, redirect: _ }) => {
                if authoritative_write_status(status) {
                    self.phase = ForwardPhase::Over;
                    let same = same_text(self.effective.as_str(), self.original.as_str());
                    let primary: Option<String> = if same { None } else { Some(self.effective.clone()) };
                    return ForwardAction::Answer { primary };
                }
                self.fall_back(0)
            },
            (ForwardPhase::First, ForwardEvent::Unreachable) => self.fall_back(0),
            (ForwardPhase::Replica(i), ForwardEvent::Replied { status, redirect }) => {
                self.router_forward_write(ForwardEvent::Replied { status, redirect })
            },
            (ForwardPhase::Replica(i), ForwardEvent::Unreachable) => self.router_forward_write(ForwardEvent::Unreachable),
            _ => {
                self.phase = ForwardPhase::Over;
                ForwardAction::Unreachable { forget: false }
            },
        }
    }
}

impl ForwardView {
    pub open spec fn next_bulk(self, event: ForwardEvent) -> (ForwardView, ForwardActionView) {
        match (self.phase, event) {
            (ForwardPhase::First, ForwardEvent::Replied { status, redirect }) => if authoritative(status) {
                (
                    self.at(ForwardPhase::Over),
                    ForwardActionView::Answer { primary: if self.effective != self.original { Some(self.effective) } else { None } },
                )
            } else {
                self.fall_back(0)
            },
            (ForwardPhase::First, ForwardEvent::Unreachable) => self.fall_back(0),
            (ForwardPhase::Replica(i), ForwardEvent::Replied { status, redirect }) => self.next(event),
            (ForwardPhase::Replica(i), ForwardEvent::Unreachable) => self.next(event),
            _ => (self.at(ForwardPhase::Over), ForwardActionView::Unreachable { forget: false }),
        }
    }
}

impl ForwardView {
    /// Whether a write is waiting for an event of this sort.
    pub open spec fn awaits(self, event: ForwardEvent) -> bool {
        match self.phase {
            ForwardPhase::Refreshing => event is Refreshed,
            ForwardPhase::Replica(i) => i < self.replicas.len() && (event is Unreachable || event is Replied),
            ForwardPhase::Over => false,
            _ => event is Unreachable || event is Replied,
        }
    }
}

/// A write is given up only when every replica has been tried, and the last of them was no answer.
pub proof fn law_a_write_tries_every_replica(f: ForwardView, event: ForwardEvent)
    requires
        f.awaits(event),
        f.next(event).1 is Unreachable,
    ensures
        match f.phase {
            ForwardPhase::Replica(i) => i + 1 == f.replicas.len(),
            _ => f.replicas.len() == 0,
        },
        event is Replied ==> !authoritative(event->Replied_status),
{
}

/// Only a node that answered is noted as leading.
pub proof fn law_only_an_answer_names_a_primary(f: ForwardView, event: ForwardEvent)
    requires
        f.next(event).1 is Answer,
    ensures
        event is Replied && authoritative(event->Replied_status),
{
}

/// Nobody who holds the key could be reached.
pub open spec fn all_unreachable() -> ReplyView {
    told(502, "All shard nodes unreachable"@)
}

/// What the client is answered, given the replies that came so far and in their order; nothing while
/// the write goes on.
pub open spec fn forward_answer(action: ForwardActionView, replies: Seq<ShardReply>) -> Option<ReplyView> {
    match action {
        ForwardActionView::Answer { .. } => if replies.len() > 0 {
            Some(answered(replies.last().status, replies.last()@.content()))
        } else {
            Some(all_unreachable())
        },
        ForwardActionView::AnswerFirst => if replies.len() > 0 {
            Some(answered(replies[0].status, replies[0]@.content()))
        } else {
            Some(all_unreachable())
        },
        ForwardActionView::Unreachable { .. } => Some(all_unreachable()),
        _ => None,
    }
}

/// What the client is answered once a forwarded write is over.
pub fn forward_reply(action: &ForwardAction, replies: Vec<ShardReply>) -> (r: Option<Reply>)
    ensures
        (match r {
            Some(x) => Some(x@),
            None => None,
        }) == forward_answer(action@, replies@),
{
    let mut replies = replies;
    match action {
        ForwardAction::Answer { .. } => match replies.pop() {
            Some(reply) => Some(passthrough(reply)),
            None => Some(text_reply(502, "All shard nodes unreachable")),
        },
        ForwardAction::AnswerFirst => if replies.len() > 0 {
            Some(passthrough(replies.swap_remove(0)))
        } else {
            Some(text_reply(502, "All shard nodes unreachable"))
        },
        ForwardAction::Unreachable { .. } => Some(text_reply(502, "All shard nodes unreachable")),
        _ => None,
    }
}

// ---- Read preferences ----

#[derive(Clone, Copy, Debug, PartialEq, Eq, Structural)]
pub enum ReadPreference {
    /// Explicitly asked for. A node that is not the leader refuses instead of answering.
    Primary,
    /// `Primary` plus a confirmed one: the answering node establishes a read index first, so the
    /// answer cannot come from a leader that has already been replaced.
    Quorum,
    Replica,
    /// Nothing asked for: leader first, replicas after, no guarantee either way.
    Any,
}

pub fn parse_read_pref(r: Option<&str>) -> (p: Result<ReadPreference, String>)
    ensures
        match r {
            None => p == Ok::<ReadPreference, String>(ReadPreference::Any),
            Some(s) => {
                &&& s@ == "primary"@ ==> p == Ok::<ReadPreference, String>(ReadPreference::Primary)
                &&& s@ == "quorum"@ ==> p == Ok::<ReadPreference, String>(ReadPreference::Quorum)
                &&& s@ == "replica"@ ==> p == Ok::<ReadPreference, String>(ReadPreference::Replica)
                &&& s@ != "primary"@ && s@ != "quorum"@ && s@ != "replica"@ ==> p is Err && p->Err_0@
                    == "unknown read preference `"@ + s@ + "`; use `primary`, `quorum` or `replica`"@
            },
        },
{
    proof {
        reveal_strlit("primary");
        reveal_strlit("quorum");
        reveal_strlit("replica");
        assert("primary"@.len() == 7 && "quorum"@.len() == 6 && "replica"@.len() == 7);
        assert("primary"@[0] != "replica"@[0]);
    }
    match r {
        None => Ok(ReadPreference::Any),
        Some(s) => if same_text(s, "primary") {
            Ok(ReadPreference::Primary)
        } else if same_text(s, "quorum") {
            Ok(ReadPreference::Quorum)
        } else if same_text(s, "replica") {
            Ok(ReadPreference::Replica)
        } else {
            Err(cat3("unknown read preference `", s, "`; use `primary`, `quorum` or `replica`"))
        },
    }
}

/// What of a preference travels with a read.
pub open spec fn forwarded(p: ReadPreference) -> Option<Seq<char>> {
    match p {
        ReadPreference::Primary => Some("primary"@),
        ReadPreference::Quorum => Some("quorum"@),
        _ => None,
    }
}

/// Forwarded so the node that answers is the one enforcing it; the router's view of who leads can be
/// stale, and its candidate list stays as it was so a promoted replica is still found.
pub fn forwarded_read_pref(pref: &ReadPreference) -> (r: Option<&'static str>)
    ensures
        (match r {
            Some(s) => Some(s@),
            None => None,
        }) == forwarded(*pref),
{
    match pref {
        ReadPreference::Primary => Some("primary"),
        ReadPreference::Quorum => Some("quorum"),
        _ => None,
    }
}

// ---- Whom to ask ----

/// A sum that stops at the top.
pub open spec fn capped(n: int) -> u64 {
    if n > u64::MAX { u64::MAX } else { n as u64 }
}

/// The estimated queue time of a node.
pub open spec fn score(load: NodeLoad, unknown_latency_us: u64) -> u64 {
    let latency = if load.latency_ewma_us == 0 { unknown_latency_us } else { load.latency_ewma_us };
    capped(capped(load.inflight + 1) * latency)
}

pub fn load_score(load: NodeLoad, unknown_latency_us: u64) -> (r: u64)
    ensures
        r == score(load, unknown_latency_us),
{
    let latency: u64 = if load.latency_ewma_us == 0 { unknown_latency_us } else { load.latency_ewma_us };
    let queued: u64 = load.inflight.saturating_add(1);
    match queued.checked_mul(latency) {
        Some(s) => s,
        None => u64::MAX,
    }
}

/// The load of a node, where it is known.
pub open spec fn load_of(loads: Map<Seq<char>, NodeLoad>, url: Seq<char>) -> Option<NodeLoad> {
    if loads.dom().contains(node(url)) { Some(loads[node(url)]) } else { None }
}

/// The latencies measured at the first `n` replicas: their sum and how many there are.
pub open spec fn measured(loads: Map<Seq<char>, NodeLoad>, replicas: Seq<Seq<char>>, n: int) -> (u64, int)
    decreases n,
{
    if n <= 0 {
        (0, 0)
    } else {
        let (sum, count) = measured(loads, replicas, n - 1);
        match load_of(loads, replicas[n - 1]) {
            Some(l) => if l.latency_ewma_us > 0 { (capped(sum + l.latency_ewma_us), count + 1) } else { (sum, count) },
            None => (sum, count),
        }
    }
}

/// What is taken for the latency of a replica without one: the group's mean, or a millisecond.
pub open spec fn assumed_latency(loads: Map<Seq<char>, NodeLoad>, replicas: Seq<Seq<char>>) -> u64 {
    let (sum, count) = measured(loads, replicas, replicas.len() as int);
    if count == 0 { 1000 } else { (sum as int / count) as u64 }
}

/// The replica at place `i` of the rotation.
pub open spec fn rotated(replicas: Seq<Seq<char>>, rr: int, i: int) -> Seq<char> {
    replicas[(rr + i) % replicas.len() as int]
}

/// What a place of the rotation is ranked by: nodes with a known load before those without, then the
/// estimated queue time, then the place.
pub open spec fn rank_of(loads: Map<Seq<char>, NodeLoad>, replicas: Seq<Seq<char>>, rr: int, i: int) -> (int, int, int) {
    match load_of(loads, rotated(replicas, rr, i)) {
        Some(l) => (0, score(l, assumed_latency(loads, replicas)) as int, i),
        None => (1, 0, i),
    }
}

pub open spec fn rank_before(a: (int, int, int), b: (int, int, int)) -> bool {
    a.0 < b.0 || (a.0 == b.0 && (a.1 < b.1 || (a.1 == b.1 && a.2 < b.2)))
}

/// `order` has every place of the rotation once, best rank first.
pub open spec fn ranked(loads: Map<Seq<char>, NodeLoad>, replicas: Seq<Seq<char>>, rr: int, order: Seq<int>) -> bool {
    &&& order.len() == replicas.len()
    &&& forall|i: int| 0 <= i < order.len() ==> 0 <= #[trigger] order[i] < replicas.len()
    &&& forall|i: int, j: int| 0 <= i < j < order.len() ==> rank_before(
        rank_of(loads, replicas, rr, #[trigger] order[i]),
        rank_of(loads, replicas, rr, #[trigger] order[j]),
    )
}

/// The replicas in that order.
pub open spec fn in_order(replicas: Seq<Seq<char>>, rr: int, order: Seq<int>) -> Seq<Seq<char>> {
    Seq::new(order.len(), |i: int| rotated(replicas, rr, order[i]))
}

/// Whom to ask, in order.
pub open spec fn targets_ok(
    pref: ReadPreference,
    primary: Seq<char>,
    replicas: Seq<Seq<char>>,
    rr: int,
    loads: Map<Seq<char>, NodeLoad>,
    r: Seq<Seq<char>>,
) -> bool {
    if pref == ReadPreference::Replica && replicas.len() > 0 {
        exists|order: Seq<int>| #[trigger] ranked(loads, replicas, rr, order) && r == each_once(in_order(replicas, rr, order).push(primary))
    } else if pref == ReadPreference::Replica {
        r == seq![primary]
    } else {
        r == each_once(seq![primary] + replicas)
    }
}

fn mean_latency(replicas: &[String], loads: &NameMap<NodeLoad>) -> (r: u64)
    ensures
        r == assumed_latency(loads@, texts(replicas@)),
{
    let ghost rs = texts(replicas@);
    let mut sum: u64 = 0;
    let mut count: u64 = 0;
    let mut i: usize = 0;
    while i < replicas.len()
        invariant
            rs == texts(replicas@),
            i <= replicas@.len(),
            count <= i,
            (sum, count as int) == measured(loads@, rs, i as int),
        decreases replicas@.len() - i,
    {
        assert(rs[i as int] == replicas@[i as int]@);
        if let Some(l) = loads.get(node_key(replicas[i].as_str()).as_str()) {
            if l.latency_ewma_us > 0 {
                sum = sum.saturating_add(l.latency_ewma_us);
                count = count + 1;
            }
        }
        i += 1;
    }
    if count == 0 { 1_000 } else { sum / count }
}

/// One place of the rotation, with what it is ranked by.
#[derive(Clone, Copy, Debug, PartialEq, Eq, Structural)]
pub struct Ranked {
    pub class: u8,
    pub score: u64,
    pub place: usize,
    pub at: usize,
}

impl Ranked {
    pub open spec fn rank(self) -> (int, int, int) {
        (self.class as int, self.score as int, self.place as int)
    }
}

fn ranks_before(a: &Ranked, b: &Ranked) -> (r: bool)
    ensures
        r == rank_before(a.rank(), b.rank()),
{
    a.class < b.class || (a.class == b.class && (a.score < b.score || (a.score == b.score && a.place < b.place)))
}

fn rank_replicas(replicas: &[String], rr: usize, loads: &NameMap<NodeLoad>) -> (r: Vec<Ranked>)
    requires
        replicas@.len() > 0,
    ensures
        r@.len() == replicas@.len(),
        forall|i: int| 0 <= i < r@.len() ==> (#[trigger] r@[i]).place < replicas@.len() && r@[i].at == (rr + r@[i].place) % replicas@.len() as int
            && r@[i].rank() == rank_of(loads@, texts(replicas@), rr as int, r@[i].place as int),
        forall|i: int, j: int| 0 <= i < j < r@.len() ==> rank_before((#[trigger] r@[i]).rank(), (#[trigger] r@[j]).rank()),
{
    let n: usize = replicas.len();
    let ghost rs = texts(replicas@);
    let unknown = mean_latency(replicas, loads);
    let mut out: Vec<Ranked> = Vec::new();
    let start: usize = rr % n;
    let mut i: usize = 0;
    while i < n
        invariant
            n == replicas@.len(),
            n > 0,
            start == rr % n,
            rs == texts(replicas@),
            unknown == assumed_latency(loads@, rs),
            i <= n,
            out@.len() == i,
            forall|k: int| 0 <= k < i ==> (#[trigger] out@[k]).place < i && out@[k].at == (rr + out@[k].place) % n as int
                && out@[k].rank() == rank_of(loads@, rs, rr as int, out@[k].place as int),
            forall|a: int, b: int| 0 <= a < b < i ==> rank_before((#[trigger] out@[a]).rank(), (#[trigger] out@[b]).rank()),
        decreases n - i,
    {
        let at: usize = if start < n - i { start + i } else { start - (n - i) };
        proof {
            lemma_rotation(rr as int, i as int, n as int);
            assert(at == (rr + i) % n as int);
            assert(rs[at as int] == replicas@[at as int]@);
        }
        let (class, sc): (u8, u64) = match loads.get(node_key(replicas[at].as_str()).as_str()) {
            Some(l) => (0, load_score(*l, unknown)),
            None => (1, 0),
        };
        let x = Ranked { class, score: sc, place: i, at };
        let mut pos: usize = out.len();
        while pos > 0 && ranks_before(&x, &out[pos - 1])
            invariant
                pos <= out@.len(),
                out@.len() == i,
                forall|a: int, b: int| 0 <= a < b < i ==> rank_before((#[trigger] out@[a]).rank(), (#[trigger] out@[b]).rank()),
                forall|k: int| pos <= k < i ==> rank_before(x.rank(), (#[trigger] out@[k]).rank()),
            ensures
                pos <= out@.len(),
                forall|k: int| pos <= k < i ==> rank_before(x.rank(), (#[trigger] out@[k]).rank()),
                pos > 0 ==> !rank_before(x.rank(), out@[pos - 1].rank()),
            decreases pos,
        {
            pos -= 1;
        }
        let ghost before = out@;
        proof {
            assert forall|k: int| 0 <= k < pos implies rank_before((#[trigger] before[k]).rank(), x.rank()) by {
                assert(before[k].place < i);
                assert(before[pos - 1].place < i);
                if k < pos - 1 {
                    assert(rank_before(before[k].rank(), before[pos - 1].rank()));
                }
            }
        }
        out.insert(pos, x);
        proof {
            assert(out@ =~= before.insert(pos as int, x));
            assert forall|k: int| 0 <= k < i + 1 implies (#[trigger] out@[k]).place < i + 1 && out@[k].at == (rr + out@[k].place) % n as int
                && out@[k].rank() == rank_of(loads@, rs, rr as int, out@[k].place as int) by {
                if k < pos {
                    assert(out@[k] == before[k]);
                } else if k > pos {
                    assert(out@[k] == before[k - 1]);
                }
            }
            assert forall|a: int, b: int| 0 <= a < b < i + 1 implies rank_before((#[trigger] out@[a]).rank(), (#[trigger] out@[b]).rank()) by {
                if b == pos {
                    assert(out@[a] == before[a]);
                } else if a == pos {
                    assert(out@[b] == before[b - 1]);
                } else {
                    let p = if a < pos { a } else { a - 1 };
                    let q = if b < pos { b } else { b - 1 };
                    assert(out@[a] == before[p] && out@[b] == before[q]);
                }
            }
        }
        i += 1;
    }
    out
}

proof fn lemma_rotation(rr: int, i: int, n: int)
    requires
        0 <= rr,
        0 <= i < n,
    ensures
        (rr + i) % n == (if rr % n < n - i { rr % n + i } else { rr % n - (n - i) }),
{
    let s = rr % n;
    vstd::arithmetic::div_mod::lemma_fundamental_div_mod(rr, n);
    vstd::arithmetic::div_mod::lemma_mod_bound(rr, n);
    let q = rr / n;
    if s + i < n {
        assert(n * q + s + i == q * n + (s + i)) by (nonlinear_arith);
        vstd::arithmetic::div_mod::lemma_fundamental_div_mod_converse(rr + i, n, q, s + i);
    } else {
        assert(n * q + s + i == (q + 1) * n + (s + i - n)) by (nonlinear_arith);
        vstd::arithmetic::div_mod::lemma_fundamental_div_mod_converse(rr + i, n, q + 1, s + i - n);
    }
}

fn keep_first(all: Vec<String>) -> (r: Vec<String>)
    ensures
        texts(r@) == each_once(texts(all@)),
{
    let ghost v = texts(all@);
    let mut out: Vec<String> = Vec::new();
    let mut i: usize = 0;
    assert(v.take(0) =~= Seq::empty());
    assert(texts(out@) =~= each_once(v.take(0)));
    while i < all.len()
        invariant
            v == texts(all@),
            i <= all@.len(),
            texts(out@) == each_once(v.take(i as int)),
        decreases all@.len() - i,
    {
        proof {
            lemma_take_grows(v, i as int);
        }
        let ghost before = texts(out@);
        if !list_holds(&out, all[i].as_str()) {
            out.push(all[i].clone());
            assert(texts(out@) =~= before.push(v[i as int]));
        }
        i += 1;
    }
    proof {
        lemma_take_all(v);
    }
    out
}

/// Whom to ask, in order. Replicas stay in the list for the primary's reads: they refuse on a
/// follower, and dropping them would stop a promoted one from ever being found. Replica reads go to
/// the lowest estimated queue time first and rotate among equals.
pub fn read_targets(
    pref: &ReadPreference,
    effective_primary: &str,
    replicas: &[String],
    rr: usize,
    loads: &NameMap<NodeLoad>,
) -> (r: Vec<String>)
    ensures
        targets_ok(*pref, effective_primary@, texts(replicas@), rr as int, loads@, texts(r@)),
{
    let ghost rs = texts(replicas@);
    let mut targets: Vec<String> = Vec::new();
    match pref {
        ReadPreference::Replica => {
            let n = replicas.len();
            if n == 0 {
                targets.push(effective_primary.to_owned());
                assert(texts(targets@) =~= seq![effective_primary@]);
                return targets;
            }
            let order = rank_replicas(replicas, rr, loads);
            let ghost places = Seq::new(order@.len(), |i: int| order@[i].place as int);
            let mut i: usize = 0;
            while i < n
                invariant
                    n == replicas@.len(),
                    n > 0,
                    rs == texts(replicas@),
                    order@.len() == n,
                    forall|k: int| 0 <= k < order@.len() ==> (#[trigger] order@[k]).place < n && order@[k].at == (rr + order@[k].place) % n as int,
                    places == Seq::new(order@.len(), |i: int| order@[i].place as int),
                    i <= n,
                    targets@.len() == i,
                    forall|k: int| 0 <= k < i ==> (#[trigger] targets@[k])@ == rotated(rs, rr as int, places[k]),
                decreases n - i,
            {
                let at = order[i].at;
                proof {
                    assert(order@[i as int].at == (rr + order@[i as int].place) % n as int);
                    vstd::arithmetic::div_mod::lemma_mod_bound(rr + order@[i as int].place, n as int);
                    assert(rs[at as int] == replicas@[at as int]@);
                }
                targets.push(replicas[at].clone());
                i += 1;
            }
            let ghost before = texts(targets@);
            targets.push(effective_primary.to_owned());
            proof {
                assert(before =~= in_order(rs, rr as int, places));
                assert(texts(targets@) =~= before.push(effective_primary@));
                assert forall|a: int, b: int| 0 <= a < b < places.len() implies rank_before(
                    rank_of(loads@, rs, rr as int, #[trigger] places[a]),
                    rank_of(loads@, rs, rr as int, #[trigger] places[b]),
                ) by {
                    assert(rank_before(order@[a].rank(), order@[b].rank()));
                }
                assert(ranked(loads@, rs, rr as int, places));
            }
        },
        _ => {
            targets.push(effective_primary.to_owned());
            let mut i: usize = 0;
            while i < replicas.len()
                invariant
                    rs == texts(replicas@),
                    i <= replicas@.len(),
                    targets@.len() == i + 1,
                    targets@[0]@ == effective_primary@,
                    forall|k: int| 1 <= k <= i ==> (#[trigger] targets@[k])@ == rs[k - 1],
                decreases replicas@.len() - i,
            {
                targets.push(replicas[i].clone());
                i += 1;
            }
            assert(texts(targets@) =~= seq![effective_primary@] + rs);
        },
    }
    keep_first(targets)
}

/// The order of the replicas is the only one: the places of the rotation are ranked apart.
pub proof fn law_the_ranking_is_unique(loads: Map<Seq<char>, NodeLoad>, replicas: Seq<Seq<char>>, rr: int, a: Seq<int>, b: Seq<int>)
    requires
        ranked(loads, replicas, rr, a),
        ranked(loads, replicas, rr, b),
    ensures
        a == b,
{
    lemma_ranked_covers(loads, replicas, rr, a);
    lemma_ranked_covers(loads, replicas, rr, b);
    assert forall|k: int| 0 <= k < a.len() implies a[k] == b[k] by {
        lemma_same_up_to(loads, replicas, rr, a, b, k);
    }
    assert(a =~= b);
}

proof fn lemma_ranked_covers(loads: Map<Seq<char>, NodeLoad>, replicas: Seq<Seq<char>>, rr: int, a: Seq<int>)
    requires
        ranked(loads, replicas, rr, a),
    ensures
        a.no_duplicates(),
        forall|p: int| 0 <= p < replicas.len() ==> #[trigger] a.contains(p),
{
    assert forall|i: int, j: int| 0 <= i < a.len() && 0 <= j < a.len() && i != j implies a[i] != a[j] by {
        if i < j {
            assert(rank_before(rank_of(loads, replicas, rr, a[i]), rank_of(loads, replicas, rr, a[j])));
        } else {
            assert(rank_before(rank_of(loads, replicas, rr, a[j]), rank_of(loads, replicas, rr, a[i])));
        }
    }
    let n = replicas.len() as int;
    let all = vstd::set_lib::set_int_range(0, n);
    vstd::set_lib::lemma_int_range(0, n);
    a.unique_seq_to_set();
    vstd::seq_lib::seq_to_set_is_finite(a);
    assert(a.to_set().subset_of(all)) by {
        assert forall|p: int| a.to_set().contains(p) implies all.contains(p) by {
            let i = choose|i: int| 0 <= i < a.len() && a[i] == p;
            assert(0 <= a[i] < replicas.len());
        }
    }
    vstd::set_lib::lemma_subset_equality(a.to_set(), all);
    assert forall|p: int| 0 <= p < n implies #[trigger] a.contains(p) by {
        assert(all.contains(p));
        assert(a.to_set().contains(p));
    }
}

proof fn lemma_same_up_to(loads: Map<Seq<char>, NodeLoad>, replicas: Seq<Seq<char>>, rr: int, a: Seq<int>, b: Seq<int>, k: int)
    requires
        ranked(loads, replicas, rr, a),
        ranked(loads, replicas, rr, b),
        a.no_duplicates(),
        b.no_duplicates(),
        forall|p: int| 0 <= p < replicas.len() ==> #[trigger] a.contains(p),
        forall|p: int| 0 <= p < replicas.len() ==> #[trigger] b.contains(p),
        0 <= k < a.len(),
    ensures
        forall|i: int| 0 <= i <= k ==> #[trigger] a[i] == b[i],
    decreases k,
{
    if k > 0 {
        lemma_same_up_to(loads, replicas, rr, a, b, k - 1);
    }
    if a[k] != b[k] {
        assert(0 <= a[k] < replicas.len() && 0 <= b[k] < replicas.len());
        assert(b.contains(a[k]) && a.contains(b[k]));
        let i = choose|i: int| 0 <= i < b.len() && b[i] == a[k];
        let j = choose|j: int| 0 <= j < a.len() && a[j] == b[k];
        assert(i > k) by {
            if i < k {
                assert(a[i] == b[i]);
            }
        }
        assert(j > k) by {
            if j < k {
                assert(a[j] == b[j]);
            }
        }
        assert(rank_before(rank_of(loads, replicas, rr, b[k]), rank_of(loads, replicas, rr, b[i])));
        assert(rank_before(rank_of(loads, replicas, rr, a[k]), rank_of(loads, replicas, rr, a[j])));
    }
}

/// Nobody is asked twice.
pub proof fn law_nobody_is_asked_twice(v: Seq<Seq<char>>)
    ensures
        each_once(v).no_duplicates(),
        each_once(v).to_set() == v.to_set(),
    decreases v.len(),
{
    if v.len() > 0 {
        let rest = v.drop_last();
        law_nobody_is_asked_twice(rest);
        let before = each_once(rest);
        let r = each_once(v);
        assert forall|q: Seq<char>| r.to_set().contains(q) <==> v.to_set().contains(q) by {
            assert(before.to_set().contains(q) <==> rest.to_set().contains(q));
            if rest.contains(q) {
                let i = choose|i: int| 0 <= i < rest.len() && rest[i] == q;
                assert(v[i] == q);
            }
            if v.contains(q) && q != v.last() {
                let i = choose|i: int| 0 <= i < v.len() && v[i] == q;
                assert(rest[i] == q);
            }
            assert(v[v.len() - 1] == v.last());
            if !before.contains(v.last()) {
                assert(r[before.len() as int] == v.last());
                if before.contains(q) {
                    let i = choose|i: int| 0 <= i < before.len() && before[i] == q;
                    assert(r[i] == q);
                }
                if r.contains(q) && q != v.last() {
                    let i = choose|i: int| 0 <= i < r.len() && r[i] == q;
                    assert(before[i] == q);
                }
            }
        }
        assert(r.to_set() =~= v.to_set());
    } else {
        assert(each_once(v).to_set() =~= v.to_set());
    }
}

// ---- Answers of the router itself ----

/// The cursor was well formed and correct when it was issued. A key that changed owners mid-scan sits
/// behind a position that never covered it, so the scan has to start again.
pub fn stale_ring_response() -> (r: Reply)
    ensures
        r@ == answered(409, error_body("cursor was issued against a different shard layout; restart the scan"@)),
{
    error_reply(409, "cursor was issued against a different shard layout; restart the scan".to_owned())
}

pub open spec fn no_primary() -> ReplyView {
    ReplyView {
        status: 503,
        retry_after: true,
        body: BodyView::Json(error_body("no reachable primary for this shard; retry, or ask for read=replica"@)),
    }
}

/// The read is not wrong, it is unavailable until the shard has a leader again.
pub fn no_primary_response() -> (r: Reply)
    ensures
        r@ == no_primary(),
{
    let body = err_json("no reachable primary for this shard; retry, or ask for read=replica".to_owned());
    Reply { status: 503, retry_after: true, body: Body::Json(body) }
}

/// What a refused read is answered.
pub open spec fn refusal(from_primary: Option<ShardReplyView>) -> ReplyView {
    match from_primary {
        Some(reply) => ReplyView { status: reply.status, retry_after: true, body: BodyView::Json(reply.content()) },
        None => no_primary(),
    }
}

/// The primary's own refusal when it is the one that refused, rather than the router's guess at what
/// every refusal meant.
pub fn refusal_response(from_primary: Option<ShardReply>) -> (r: Reply)
    ensures
        r@ == refusal(opt_reply(from_primary)),
{
    match from_primary {
        Some(reply) => {
            let status = reply.status;
            Reply { status, retry_after: true, body: Body::Json(reply.into_content()) }
        },
        None => no_primary_response(),
    }
}

pub open spec fn absent(name: Seq<char>) -> ReplyView {
    answered(404, error_body("collection '"@ + name + "' does not exist"@))
}

/// No shard holds the collection, so the router is answering for all of them.
pub fn collection_absent_response(name: &str) -> (r: Reply)
    ensures
        r@ == absent(name@),
{
    error_reply(404, cat3("collection '", name, "' does not exist"))
}

// ---- Reading a document ----

pub open spec fn read_query(pref: ReadPreference) -> Seq<char> {
    match forwarded(pref) {
        Some(v) => "?read="@ + v,
        None => Seq::empty(),
    }
}

/// The path of a read on a shard.
pub fn read_path(collection: &str, key: &str, pref: &ReadPreference) -> (r: String)
    ensures
        r@ == "/collections/"@ + escaped(encode_utf8(collection@)) + "/docs/"@ + escaped(encode_utf8(key@)) + read_query(*pref),
{
    match forwarded_read_pref(pref) {
        Some(v) => document_path(collection, key, cat2("?read=", v).as_str()),
        None => {
            proof {
                reveal_strlit("");
                assert(""@ =~= Seq::<char>::empty());
            }
            document_path(collection, key, "")
        },
    }
}

/// A read of one document on its way through the nodes that may serve it.
pub struct DocRead {
    pub targets: Vec<String>,
    pub effective: String,
    /// Whether the node that answers has to be the leader.
    pub enforced: bool,
    /// Whose turn it is.
    pub at: usize,
    /// Whether the owner that this node named is being asked instead.
    pub redirected: bool,
    pub refused: bool,
    pub primary_refusal: Option<ShardReply>,
}

pub ghost struct DocReadView {
    pub targets: Seq<Seq<char>>,
    pub effective: Seq<char>,
    pub enforced: bool,
    pub at: int,
    pub redirected: bool,
    pub refused: bool,
    pub primary_refusal: Option<ShardReplyView>,
}

impl View for DocRead {
    type V = DocReadView;

    open spec fn view(&self) -> DocReadView {
        DocReadView {
            targets: texts(self.targets@),
            effective: self.effective@,
            enforced: self.enforced,
            at: self.at as int,
            redirected: self.redirected,
            refused: self.refused,
            primary_refusal: opt_reply(self.primary_refusal),
        }
    }
}

/// What to do next.
pub enum ReadNext {
    /// Send the read to this node.
    Ask(String),
    Answer(Reply),
}

/// What to do next, and whose load is to be forgotten first.
pub struct ReadStep {
    pub forget_load: Option<String>,
    pub next: ReadNext,
}

pub ghost enum ReadNextView {
    Ask(Seq<char>),
    Answer(ReplyView),
}

pub ghost struct ReadStepView {
    pub forget_load: Option<Seq<char>>,
    pub next: ReadNextView,
}

impl View for ReadStep {
    type V = ReadStepView;

    open spec fn view(&self) -> ReadStepView {
        ReadStepView {
            forget_load: opt_text(self.forget_load),
            next: match self.next {
                ReadNext::Ask(n) => ReadNextView::Ask(n@),
                ReadNext::Answer(r) => ReadNextView::Answer(r@),
            },
        }
    }
}

/// Whether a reply answers a read.
pub open spec fn settles(status: u16) -> bool {
    is_success(status) || status == 404
}

impl DocReadView {
    pub open spec fn over(self) -> DocReadView {
        DocReadView { at: self.targets.len() as int, redirected: false, ..self }
    }

    /// Nobody is left to ask.
    pub open spec fn exhausted(self) -> ReplyView {
        if self.refused { refusal(self.primary_refusal) } else { told(502, "No shard node could serve the read"@) }
    }

    /// On to the next node.
    pub open spec fn onward(self, forget_load: Option<Seq<char>>) -> (DocReadView, ReadStepView) {
        if self.at + 1 < self.targets.len() {
            (
                DocReadView { at: self.at + 1, redirected: false, ..self },
                ReadStepView { forget_load, next: ReadNextView::Ask(self.targets[self.at + 1]) },
            )
        } else {
            (self.over(), ReadStepView { forget_load, next: ReadNextView::Answer(self.exhausted()) })
        }
    }

    pub open spec fn settled(self, reply: ShardReplyView) -> (DocReadView, ReadStepView) {
        (self.over(), ReadStepView { forget_load: None, next: ReadNextView::Answer(answered(reply.status, reply.content())) })
    }

    /// The node whose turn it is refused.
    pub open spec fn with_refusal(self, reply: ShardReplyView) -> DocReadView {
        DocReadView {
            refused: true,
            primary_refusal: if same_node(self.targets[self.at], self.effective) { Some(reply) } else { self.primary_refusal },
            ..self
        }
    }

    /// The state and the step after a reply, or none where the node could not be reached.
    pub open spec fn next(self, reply: Option<ShardReplyView>) -> (DocReadView, ReadStepView) {
        if !(0 <= self.at < self.targets.len()) {
            (self, ReadStepView { forget_load: None, next: ReadNextView::Answer(self.exhausted()) })
        } else if self.redirected {
            match reply {
                Some(r) => if settles(r.status) { self.settled(r) } else { self.onward(None) },
                None => self.onward(None),
            }
        } else {
            match reply {
                None => self.onward(Some(self.targets[self.at])),
                Some(r) => match r.owner() {
                    Some(o) => (
                        DocReadView { redirected: true, ..self },
                        ReadStepView { forget_load: None, next: ReadNextView::Ask(o) },
                    ),
                    None => if settles(r.status) {
                        self.settled(r)
                    } else if r.status == 503 && self.enforced {
                        self.with_refusal(r).onward(Some(self.targets[self.at]))
                    } else {
                        self.onward(Some(self.targets[self.at]))
                    },
                },
            }
        }
    }
}

impl DocRead {
    /// A read of a document through these nodes.
    pub fn begin(pref: &ReadPreference, targets: Vec<String>, effective: String) -> (r: (DocRead, ReadStep))
        ensures
            r.0@ == (DocReadView {
                targets: texts(targets@),
                effective: effective@,
                enforced: forwarded(*pref) is Some,
                at: 0,
                redirected: false,
                refused: false,
                primary_refusal: None,
            }),
            r.1@ == (ReadStepView {
                forget_load: None,
                next: if targets@.len() > 0 {
                    ReadNextView::Ask(targets@[0]@)
                } else {
                    ReadNextView::Answer(told(502, "No shard node could serve the read"@))
                },
            }),
    {
        let enforced = forwarded_read_pref(pref).is_some();
        let next = if targets.len() > 0 {
            ReadNext::Ask(targets[0].clone())
        } else {
            ReadNext::Answer(text_reply(502, "No shard node could serve the read"))
        };
        (
            DocRead { targets, effective, enforced, at: 0, redirected: false, refused: false, primary_refusal: None },
            ReadStep { forget_load: None, next },
        )
    }

    fn exhausted(&self) -> (r: Reply)
        ensures
            r@ == self@.exhausted(),
    {
        if self.refused {
            let from = match &self.primary_refusal {
                Some(r) => Some(ShardReply { status: r.status, body: r.body.clone() }),
                None => None,
            };
            refusal_response(from)
        } else {
            text_reply(502, "No shard node could serve the read")
        }
    }

    fn onward(&mut self, forget_load: Option<String>) -> (r: ReadStep)
        requires
            old(self).at < old(self).targets@.len(),
        ensures
            (final(self)@, r@) == old(self)@.onward(opt_text(forget_load)),
    {
        self.redirected = false;
        if self.targets.len() - self.at > 1 {
            self.at = self.at + 1;
            let to = self.targets[self.at].clone();
            ReadStep { forget_load, next: ReadNext::Ask(to) }
        } else {
            self.at = self.targets.len();
            ReadStep { forget_load, next: ReadNext::Answer(self.exhausted()) }
        }
    }

    /// The next thing to do, given the reply, or none where the node could not be reached. A redirect
    /// is followed as for a write: without it a stale router reads a moved key from its old owner and
    /// gets a 404, which is a wrong answer rather than a visible failure.
    pub fn router_read_doc(&mut self, reply: Option<ShardReply>) -> (r: ReadStep)
        ensures
            (final(self)@, r@) == old(self)@.next(opt_reply(reply)),
    {
        if self.at >= self.targets.len() {
            return ReadStep { forget_load: None, next: ReadNext::Answer(self.exhausted()) };
        }
        if self.redirected {
            if let Some(r) = reply {
                if (200 <= r.status && r.status < 300) || r.status == 404 {
                    self.at = self.targets.len();
                    self.redirected = false;
                    return ReadStep { forget_load: None, next: ReadNext::Answer(passthrough(r)) };
                }
            }
            return self.onward(None);
        }
        let target = self.targets[self.at].clone();
        if let Some(r) = reply {
            if let Some(owner) = r.redirect() {
                self.redirected = true;
                return ReadStep { forget_load: None, next: ReadNext::Ask(owner) };
            }
            if (200 <= r.status && r.status < 300) || r.status == 404 {
                self.at = self.targets.len();
                return ReadStep { forget_load: None, next: ReadNext::Answer(passthrough(r)) };
            }
            if r.status == 503 && self.enforced {
                self.refused = true;
                if same_endpoint(target.as_str(), self.effective.as_str()) {
                    self.primary_refusal = Some(r);
                }
            }
        }
        self.onward(Some(target))
    }
}

/// A read that anybody refused for want of a leader is never answered as unreachable: the client is
/// told to retry.
pub proof fn law_a_refused_read_is_worth_retrying(d: DocReadView, reply: Option<ShardReplyView>)
    requires
        d.refused,
        d.next(reply).1.next is Answer,
        reply is Some ==> !settles((reply->0).status),
    ensures
        (d.next(reply).1.next->Answer_0).retry_after,
{
}

/// A read passes on nothing but a document or its absence: every other reply moves it along.
pub proof fn law_a_read_passes_on_only_what_settles_it(d: DocReadView, reply: ShardReplyView)
    requires
        0 <= d.at < d.targets.len(),
        d.at + 1 < d.targets.len(),
        d.next(Some(reply)).1.next is Answer,
    ensures
        settles(reply.status),
        d.next(Some(reply)).1.next == ReadNextView::Answer(answered(reply.status, reply.content())),
{
}

// ---- Bulk writes ----

/// A lower-case hexadecimal digit.
pub open spec fn hex_digit(c: char) -> bool {
    '0' <= c <= '9' || 'a' <= c <= 'f'
}

/// The text of a random identifier: groups of 8, 4, 4, 4 and 12 hexadecimal digits with hyphens between
/// them, the third group led by the version and the fourth by the variant.
pub open spec fn random_id(s: Seq<char>) -> bool {
    &&& s.len() == 36
    &&& forall|i: int| 0 <= i < 36 ==> if i == 8 || i == 13 || i == 18 || i == 23 {
        #[trigger] s[i] == '-'
    } else {
        hex_digit(s[i])
    }
    &&& s[14] == '4'
    &&& s[19] == '8' || s[19] == '9' || s[19] == 'a' || s[19] == 'b'
}

/// `uuid::Uuid::new_v4` as text: random but for its version and variant, in lower-case hyphenated form.
/// That no two are the same rests on chance and is not claimed.
#[verifier::external_body]
fn fresh_id() -> (r: String)
    ensures
        random_id(r@),
{
    uuid::Uuid::new_v4().to_string()
}

/// A document with the id that it is stored under.
pub struct NamedDoc {
    pub id: String,
    pub value: Json,
}

pub ghost struct NamedDocView {
    pub id: Seq<char>,
    pub value: JsonView,
}

impl View for NamedDoc {
    type V = NamedDocView;

    open spec fn view(&self) -> NamedDocView {
        NamedDocView { id: self.id@, value: self.value@ }
    }
}

pub open spec fn named(v: Seq<NamedDoc>) -> Seq<NamedDocView> {
    Seq::new(v.len(), |i: int| v[i]@)
}

/// The documents under their ids, and under fresh ones where they bring none.
pub fn name_docs(docs: Vec<BulkDoc>) -> (r: Vec<NamedDoc>)
    ensures
        r@.len() == docs@.len(),
        forall|i: int| 0 <= i < r@.len() ==> (#[trigger] r@[i]).value@ == docs@[i].value@ && (match docs@[i].id {
            Some(id) => r@[i].id@ == id@,
            None => random_id(r@[i].id@),
        }),
{
    let mut out: Vec<NamedDoc> = Vec::new();
    let mut i: usize = 0;
    while i < docs.len()
        invariant
            i <= docs@.len(),
            out@.len() == i,
            forall|k: int| 0 <= k < i ==> (#[trigger] out@[k]).value@ == docs@[k].value@ && (match docs@[k].id {
                Some(id) => out@[k].id@ == id@,
                None => random_id(out@[k].id@),
            }),
        decreases docs@.len() - i,
    {
        let id = match &docs[i].id {
            Some(id) => id.clone(),
            None => fresh_id(),
        };
        let value = docs[i].value.clone();
        out.push(NamedDoc { id, value });
        i += 1;
    }
    out
}

/// One document of a group's part, with its place in the request.
pub struct BulkItem {
    pub at: usize,
    pub id: String,
    pub value: Json,
}

pub ghost struct BulkItemView {
    pub at: int,
    pub id: Seq<char>,
    pub value: JsonView,
}

impl View for BulkItem {
    type V = BulkItemView;

    open spec fn view(&self) -> BulkItemView {
        BulkItemView { at: self.at as int, id: self.id@, value: self.value@ }
    }
}

pub open spec fn items(v: Seq<BulkItem>) -> Seq<BulkItemView> {
    Seq::new(v.len(), |i: int| v[i]@)
}

/// A group's part of a bulk write.
pub struct BulkGroup {
    pub route: Route,
    pub items: Vec<BulkItem>,
}

pub ghost struct BulkGroupView {
    pub route: RouteView,
    pub items: Seq<BulkItemView>,
}

impl View for BulkGroup {
    type V = BulkGroupView;

    open spec fn view(&self) -> BulkGroupView {
        BulkGroupView { route: self.route@, items: items(self.items@) }
    }
}

pub open spec fn bulk_groups(v: Seq<BulkGroup>) -> Seq<BulkGroupView> {
    Seq::new(v.len(), |i: int| v[i]@)
}

pub open spec fn routes(v: Seq<Route>) -> Seq<RouteView> {
    Seq::new(v.len(), |i: int| v[i]@)
}

/// The recorded primaries of some routes.
pub open spec fn originals(r: Seq<RouteView>) -> Seq<Seq<char>> {
    Seq::new(r.len(), |i: int| r[i].original)
}

/// The route that was found first for a group.
pub open spec fn first_route(r: Seq<RouteView>, original: Seq<char>) -> RouteView
    decreases r.len(),
{
    if r.len() == 0 {
        arbitrary()
    } else if r[0].original == original {
        r[0]
    } else {
        first_route(r.skip(1), original)
    }
}

/// The first `n` documents that go to a group, in order.
pub open spec fn part_of(docs: Seq<NamedDocView>, r: Seq<RouteView>, original: Seq<char>, n: int) -> Seq<BulkItemView>
    decreases n,
{
    if n <= 0 {
        Seq::empty()
    } else {
        let before = part_of(docs, r, original, n - 1);
        if r[n - 1].original == original {
            before.push(BulkItemView { at: n - 1, id: docs[n - 1].id, value: docs[n - 1].value })
        } else {
            before
        }
    }
}

/// The parts of a bulk write, in the order in which their groups first occur.
pub open spec fn parts(docs: Seq<NamedDocView>, r: Seq<RouteView>) -> Seq<BulkGroupView> {
    let gs = each_once(originals(r));
    Seq::new(gs.len(), |i: int| BulkGroupView { route: first_route(r, gs[i]), items: part_of(docs, r, gs[i], docs.len() as int) })
}

fn copy_route(r: &Route) -> (c: Route)
    ensures
        c@ == r@,
{
    Route { effective: r.effective.clone(), original: r.original.clone(), replicas: copy_list(&r.replicas) }
}

proof fn lemma_first_route(r: Seq<RouteView>, i: int)
    requires
        0 <= i < r.len(),
        forall|j: int| 0 <= j < i ==> (#[trigger] r[j]).original != r[i].original,
    ensures
        first_route(r, r[i].original) == r[i],
    decreases r.len(),
{
    if i > 0 {
        let rest = r.skip(1);
        assert(r[0].original != r[i].original);
        assert(rest[i - 1] == r[i]);
        assert forall|j: int| 0 <= j < i - 1 implies (#[trigger] rest[j]).original != rest[i - 1].original by {
            assert(rest[j] == r[j + 1]);
        }
        lemma_first_route(rest, i - 1);
    }
}

fn collect_part(docs: &Vec<NamedDoc>, found: &Vec<Route>, original: &str) -> (r: Vec<BulkItem>)
    requires
        found@.len() == docs@.len(),
    ensures
        items(r@) == part_of(named(docs@), routes(found@), original@, docs@.len() as int),
{
    let ghost d = named(docs@);
    let ghost f = routes(found@);
    let mut out: Vec<BulkItem> = Vec::new();
    let mut i: usize = 0;
    assert(items(out@) =~= part_of(d, f, original@, 0));
    while i < docs.len()
        invariant
            d == named(docs@),
            f == routes(found@),
            found@.len() == docs@.len(),
            i <= docs@.len(),
            items(out@) == part_of(d, f, original@, i as int),
        decreases docs@.len() - i,
    {
        let ghost before = items(out@);
        assert(d[i as int] == docs@[i as int]@ && f[i as int] == found@[i as int]@);
        if same_text(found[i].original.as_str(), original) {
            let item = BulkItem { at: i, id: docs[i].id.clone(), value: docs[i].value.clone() };
            let ghost iv = item@;
            out.push(item);
            assert(items(out@) =~= before.push(iv));
        }
        i += 1;
    }
    out
}

/// Splits a bulk write into one part for each group that a document goes to.
pub fn split_bulk(docs: &Vec<NamedDoc>, found: &Vec<Route>) -> (r: Vec<BulkGroup>)
    requires
        found@.len() == docs@.len(),
    ensures
        bulk_groups(r@) == parts(named(docs@), routes(found@)),
{
    let ghost d = named(docs@);
    let ghost f = routes(found@);
    let mut out: Vec<BulkGroup> = Vec::new();
    let mut seen: Vec<String> = Vec::new();
    let mut i: usize = 0;
    assert(originals(f).take(0) =~= Seq::empty());
    assert(texts(seen@) =~= each_once(originals(f).take(0)));
    while i < found.len()
        invariant
            d == named(docs@),
            f == routes(found@),
            found@.len() == docs@.len(),
            i <= found@.len(),
            texts(seen@) == each_once(originals(f).take(i as int)),
            out@.len() == seen@.len(),
            forall|k: int| 0 <= k < out@.len() ==> (#[trigger] out@[k])@ == (BulkGroupView {
                route: first_route(f, texts(seen@)[k]),
                items: part_of(d, f, texts(seen@)[k], d.len() as int),
            }),
        decreases found@.len() - i,
    {
        proof {
            lemma_take_grows(originals(f), i as int);
        }
        let ghost before = texts(seen@);
        let ghost had = out@;
        assert(f[i as int] == found@[i as int]@);
        if !list_holds(&seen, found[i].original.as_str()) {
            proof {
                let o = originals(f).take(i as int);
                law_nobody_is_asked_twice(o);
                assert forall|j: int| 0 <= j < i implies (#[trigger] f[j]).original != f[i as int].original by {
                    assert(o[j] == f[j].original);
                    assert(o.to_set().contains(o[j]));
                    assert(before.to_set().contains(o[j]));
                }
                lemma_first_route(f, i as int);
            }
            let part = BulkGroup {
                route: copy_route(&found[i]),
                items: collect_part(docs, found, found[i].original.as_str()),
            };
            seen.push(found[i].original.clone());
            out.push(part);
            proof {
                assert(texts(seen@) =~= before.push(f[i as int].original));
                assert forall|k: int| 0 <= k < out@.len() implies (#[trigger] out@[k])@ == (BulkGroupView {
                    route: first_route(f, texts(seen@)[k]),
                    items: part_of(d, f, texts(seen@)[k], d.len() as int),
                }) by {
                    if k < had.len() {
                        assert(out@[k] == had[k]);
                        assert(texts(seen@)[k] == before[k]);
                    }
                }
            }
        }
        i += 1;
    }
    proof {
        lemma_take_all(originals(f));
        assert(bulk_groups(out@) =~= parts(d, f));
    }
    out
}

/// Whom the documents go to, as far as every key has an owner.
pub open spec fn all_routed(
    view: ClusterMetadataView,
    built: Option<BuiltRingView>,
    overrides: Map<Seq<char>, String>,
    collection: Seq<char>,
    docs: Seq<NamedDocView>,
) -> Seq<RouteView> {
    Seq::new(docs.len(), |i: int| route_of(view, built, overrides, collection, docs[i].id))
}

/// Whom a key goes to.
pub open spec fn route_of(
    view: ClusterMetadataView,
    built: Option<BuiltRingView>,
    overrides: Map<Seq<char>, String>,
    collection: Seq<char>,
    id: Seq<char>,
) -> RouteView {
    let g = owning_group(view, built, key_hash(collection, id))->0;
    RouteView { effective: effective_of(overrides, g.0), original: g.0, replicas: g.1 }
}

/// Whether a key has an owner.
pub open spec fn has_owner(view: ClusterMetadataView, built: Option<BuiltRingView>, collection: Seq<char>, id: Seq<char>) -> bool {
    owning_group(view, built, key_hash(collection, id)) is Some
}

/// The parts of a bulk write, or the refusal of the first document whose key has no owner.
pub fn plan_bulk(
    view: &ClusterMetadata,
    built: Option<&BuiltRing>,
    overrides: &NameMap<String>,
    collection: &str,
    docs: &Vec<NamedDoc>,
) -> (r: Result<Vec<BulkGroup>, Reply>)
    ensures
        match r {
            Ok(g) => {
                &&& forall|i: int| 0 <= i < docs@.len() ==> has_owner(view@, opt_built(built), collection@, (#[trigger] docs@[i]).id@)
                &&& bulk_groups(g@) == parts(
                    named(docs@),
                    all_routed(view@, opt_built(built), overrides@, collection@, named(docs@)),
                )
            },
            Err(e) => exists|i: int| 0 <= i < docs@.len() && !has_owner(view@, opt_built(built), collection@, (#[trigger] docs@[i]).id@)
                && (forall|j: int| 0 <= j < i ==> has_owner(view@, opt_built(built), collection@, (#[trigger] docs@[j]).id@))
                && e@ == answered(400, error_body("Key "@ + docs@[i].id@ + " not owned by any shard"@)),
        },
{
    let ghost all = all_routed(view@, opt_built(built), overrides@, collection@, named(docs@));
    let mut found: Vec<Route> = Vec::new();
    let mut i: usize = 0;
    while i < docs.len()
        invariant
            all == all_routed(view@, opt_built(built), overrides@, collection@, named(docs@)),
            i <= docs@.len(),
            found@.len() == i,
            forall|k: int| 0 <= k < i ==> (#[trigger] found@[k])@ == all[k],
            forall|k: int| 0 <= k < i ==> has_owner(view@, opt_built(built), collection@, (#[trigger] docs@[k]).id@),
        decreases docs@.len() - i,
    {
        assert(named(docs@)[i as int] == docs@[i as int]@);
        let h = hash_key(collection, docs[i].id.as_str());
        match route_key(view, built, overrides, h) {
            Some(x) => found.push(x),
            None => return Err(error_reply(400, cat3("Key ", docs[i].id.as_str(), " not owned by any shard"))),
        }
        i += 1;
    }
    assert(routes(found@) =~= all);
    Ok(split_bulk(docs, &found))
}

/// What is sent to a group.
pub fn bulk_body(part: &Vec<BulkItem>) -> (r: Json)
    requires
        forall|i: int| 0 <= i < part@.len() ==> (#[trigger] part@[i]).value@.wf(),
    ensures
        r@ == JsonView::Array(Seq::new(part@.len(), |i: int| embedded(part@[i].id@, part@[i].value@))),
{
    let ghost want = Seq::new(part@.len(), |i: int| embedded(part@[i].id@, part@[i].value@));
    let mut out: Vec<Json> = Vec::new();
    let mut i: usize = 0;
    while i < part.len()
        invariant
            want == Seq::new(part@.len(), |i: int| embedded(part@[i].id@, part@[i].value@)),
            forall|i: int| 0 <= i < part@.len() ==> (#[trigger] part@[i]).value@.wf(),
            i <= part@.len(),
            values(out@) == want.take(i as int),
        decreases part@.len() - i,
    {
        let ghost before = values(out@);
        let row = embed_key(part[i].id.as_str(), part[i].value.clone());
        let ghost rv = row@;
        out.push(row);
        assert(values(out@) =~= before.push(rv));
        assert(values(out@) =~= want.take(i + 1));
        i += 1;
    }
    let r = Json::Array(out);
    proof {
        lemma_model(r);
        assert(want.take(i as int) =~= want);
    }
    r
}

/// What a group answered its part with.
pub enum BulkOutcome {
    /// A reply, and its body where that is JSON.
    Replied(Option<Json>),
    /// Nobody could be reached.
    Unreachable,
}

/// The results in a group's reply.
pub open spec fn results_in(body: Option<JsonView>) -> Seq<JsonView> {
    match body {
        Some(b) => match b.member("results"@) {
            Some(JsonView::Array(v)) => v,
            _ => Seq::empty(),
        },
        None => Seq::empty(),
    }
}

/// What is reported for a document that did not get through.
pub open spec fn failure(id: Seq<char>, why: Seq<char>) -> JsonView {
    JsonView::Object(
        gathered(seq![("id"@, JsonView::Str(id)), ("status"@, JsonView::Str("error"@)), ("error"@, JsonView::Str(why))]),
    )
}

/// The result of the document at position `k` of a part.
pub open spec fn result_at(part: Seq<BulkItemView>, o: BulkOutcome, k: int) -> JsonView {
    match o {
        BulkOutcome::Unreachable => failure(part[k].id, "All shard nodes unreachable"@),
        BulkOutcome::Replied(b) => {
            let rs = results_in(opt_json(b));
            if rs.len() == part.len() { rs[k] } else { failure(part[k].id, "malformed shard response"@) }
        },
    }
}

/// The results after the first `k` documents of a part.
pub open spec fn filled(all: Seq<JsonView>, part: Seq<BulkItemView>, o: BulkOutcome, k: int) -> Seq<JsonView>
    decreases k,
{
    if k <= 0 {
        all
    } else {
        filled(all, part, o, k - 1).update(part[k - 1].at, result_at(part, o, k - 1))
    }
}

/// The results after the first `g` parts.
pub open spec fn gathered_results(n: int, answers: Seq<(Vec<BulkItem>, BulkOutcome)>, g: int) -> Seq<JsonView>
    decreases g,
{
    if g <= 0 {
        Seq::new(n as nat, |i: int| JsonView::Null)
    } else {
        let (part, o) = answers[g - 1];
        filled(gathered_results(n, answers, g - 1), items(part@), o, part@.len() as int)
    }
}

/// Whether a result says that its document was written as asked.
pub open spec fn created(r: JsonView) -> bool {
    text_of_member(r.member("status"@)) == Some("created"@) && r.member("warning"@) is None
}

fn failure_row(id: &str, why: &str) -> (r: Json)
    ensures
        r@ == failure(id@, why@),
        r@.wf(),
{
    let mut pairs: Vec<(String, Json)> = Vec::new();
    pairs.push(("id".to_owned(), Json::Str(id.to_owned())));
    pairs.push(("status".to_owned(), Json::Str("error".to_owned())));
    pairs.push(("error".to_owned(), Json::Str(why.to_owned())));
    assert(members(pairs@) =~= seq![("id"@, JsonView::Str(id@)), ("status"@, JsonView::Str("error"@)), ("error"@, JsonView::Str(why@))]);
    Json::object(pairs)
}

/// The answer to a bulk write: every document's result at its place, and whether all were written as
/// asked. A group that could not be reached at all is not a success.
pub fn bulk_router_forward(n: usize, answers: &Vec<(Vec<BulkItem>, BulkOutcome)>) -> (r: Reply)
    requires
        forall|g: int, k: int| 0 <= g < answers@.len() && 0 <= k < answers@[g].0@.len() ==> (#[trigger] answers@[g].0@[k]).at < n,
        forall|g: int| 0 <= g < answers@.len() ==> match #[trigger] answers@[g].1 {
            BulkOutcome::Replied(Some(b)) => b@.wf(),
            _ => true,
        },
    ensures
        ({
            let rs = gathered_results(n as int, answers@, answers@.len() as int);
            r@ == answered(
                if forall|i: int| 0 <= i < rs.len() ==> created(#[trigger] rs[i]) { 201 } else { 207 },
                JsonView::Object(gathered(seq![("results"@, JsonView::Array(rs))])),
            )
        }),
{
    let mut ordered: Vec<Json> = Vec::new();
    let mut i: usize = 0;
    while i < n
        invariant
            i <= n,
            ordered@.len() == i,
            forall|k: int| 0 <= k < i ==> (#[trigger] ordered@[k])@ == JsonView::Null,
        decreases n - i,
    {
        ordered.push(Json::Null);
        i += 1;
    }
    assert(values(ordered@) =~= gathered_results(n as int, answers@, 0));
    let mut g: usize = 0;
    while g < answers.len()
        invariant
            g <= answers@.len(),
            ordered@.len() == n,
            forall|g: int, k: int| 0 <= g < answers@.len() && 0 <= k < answers@[g].0@.len() ==> (#[trigger] answers@[g].0@[k]).at < n,
            forall|g: int| 0 <= g < answers@.len() ==> match #[trigger] answers@[g].1 {
                BulkOutcome::Replied(Some(b)) => b@.wf(),
                _ => true,
            },
            values(ordered@) == gathered_results(n as int, answers@, g as int),
            forall|k: int| 0 <= k < n ==> (#[trigger] ordered@[k])@.wf(),
        decreases answers@.len() - g,
    {
        let part = &answers[g].0;
        let ghost o = answers@[g as int].1;
        let ghost all = values(ordered@);
        let ghost pv = items(part@);
        let reply: Option<&Json> = match &answers[g].1 {
            BulkOutcome::Replied(Some(b)) => {
                if let Some(x) = b.get("results") {
                    Some(x)
                } else {
                    None
                }
            },
            _ => None,
        };
        proof {
            if let BulkOutcome::Replied(Some(b)) = o {
                lemma_member_wf(b@, "results"@);
            }
        }
        let unreachable = match &answers[g].1 {
            BulkOutcome::Unreachable => true,
            _ => false,
        };
        let mut k: usize = 0;
        while k < part.len()
            invariant
                k <= part@.len(),
                g < answers@.len(),
                *part == answers@[g as int].0,
                o == answers@[g as int].1,
                pv == items(part@),
                unreachable == (o is Unreachable),
                forall|k: int| 0 <= k < part@.len() ==> (#[trigger] part@[k]).at < n,
                ordered@.len() == n,
                reply is Some ==> reply->0@.wf(),
                o is Replied ==> results_in(opt_json(o->Replied_0)) == (match opt_view(reply) {
                    Some(JsonView::Array(v)) => v,
                    _ => Seq::empty(),
                }),
                values(ordered@) == filled(all, pv, o, k as int),
                forall|k: int| 0 <= k < n ==> (#[trigger] ordered@[k])@.wf(),
            decreases part@.len() - k,
        {
            let at = part[k].at;
            let ghost before = values(ordered@);
            assert(pv[k as int] == part@[k as int]@);
            let row = if unreachable {
                failure_row(part[k].id.as_str(), "All shard nodes unreachable")
            } else {
                match reply {
                    Some(Json::Array(v)) => {
                        proof {
                            lemma_model(Json::Array(*v));
                        }
                        if v.len() == part.len() {
                            assert(values(v@)[k as int] == v@[k as int]@);
                            v[k].clone()
                        } else {
                            failure_row(part[k].id.as_str(), "malformed shard response")
                        }
                    },
                    _ => failure_row(part[k].id.as_str(), "malformed shard response"),
                }
            };
            let ghost rv = row@;
            ordered.set(at, row);
            assert(values(ordered@) =~= before.update(at as int, rv));
            k += 1;
        }
        g += 1;
    }
    let ghost rs = values(ordered@);
    let mut all_created = true;
    let mut j: usize = 0;
    proof {
        reveal_strlit("created");
    }
    while j < ordered.len()
        invariant
            j <= ordered@.len(),
            rs == values(ordered@),
            forall|k: int| 0 <= k < ordered@.len() ==> (#[trigger] ordered@[k])@.wf(),
            all_created == (forall|k: int| 0 <= k < j ==> created(#[trigger] rs[k])),
        decreases ordered@.len() - j,
    {
        assert(rs[j as int] == ordered@[j as int]@);
        let ok = match text_at(&ordered[j], "status") {
            Some(s) => same_text(s.as_str(), "created"),
            None => false,
        };
        let clean = ordered[j].get("warning").is_none();
        if !(ok && clean) {
            all_created = false;
        }
        j += 1;
    }
    let body = Json::Array(ordered);
    proof {
        lemma_model(body);
        assert(body@.wf());
    }
    let mut pairs: Vec<(String, Json)> = Vec::new();
    pairs.push(("results".to_owned(), body));
    assert(members(pairs@) =~= seq![("results"@, JsonView::Array(rs))]);
    json_reply(if all_created { 201 } else { 207 }, Json::object(pairs))
}

/// Every document of a bulk write goes to its own group and to no other, under its place.
pub proof fn law_each_document_is_sent_once(docs: Seq<NamedDocView>, r: Seq<RouteView>, original: Seq<char>, n: int, k: int)
    requires
        0 <= n <= docs.len(),
        r.len() == docs.len(),
        0 <= k < n,
    ensures
        (exists|j: int|
            0 <= j < part_of(docs, r, original, n).len() && (#[trigger] part_of(docs, r, original, n)[j]) == (BulkItemView {
                at: k,
                id: docs[k].id,
                value: docs[k].value,
            })) <==> r[k].original == original,
    decreases n,
{
    let p = part_of(docs, r, original, n);
    let before = part_of(docs, r, original, n - 1);
    let want = BulkItemView { at: k, id: docs[k].id, value: docs[k].value };
    lemma_part_bound(docs, r, original, n - 1);
    if k < n - 1 {
        law_each_document_is_sent_once(docs, r, original, n - 1, k);
        if exists|j: int| 0 <= j < before.len() && (#[trigger] before[j]) == want {
            let j = choose|j: int| 0 <= j < before.len() && (#[trigger] before[j]) == want;
            assert(p[j] == want);
        }
        if exists|j: int| 0 <= j < p.len() && (#[trigger] p[j]) == want {
            let j = choose|j: int| 0 <= j < p.len() && (#[trigger] p[j]) == want;
            assert(j < before.len());
            assert(before[j] == want);
        }
    } else {
        if r[k].original == original {
            assert(p[before.len() as int] == want);
        } else if exists|j: int| 0 <= j < p.len() && (#[trigger] p[j]) == want {
            let j = choose|j: int| 0 <= j < p.len() && (#[trigger] p[j]) == want;
            assert(before[j] == want);
        }
    }
}

proof fn lemma_part_bound(docs: Seq<NamedDocView>, r: Seq<RouteView>, original: Seq<char>, n: int)
    ensures
        forall|j: int| 0 <= j < part_of(docs, r, original, n).len() ==> (#[trigger] part_of(docs, r, original, n)[j]).at < n,
    decreases n,
{
    if n > 0 {
        lemma_part_bound(docs, r, original, n - 1);
    }
}

/// Every document of a bulk write stands at a place of its own.
pub open spec fn placed_apart(answers: Seq<(Vec<BulkItem>, BulkOutcome)>) -> bool {
    forall|g: int, k: int, x: int, y: int|
        0 <= g < answers.len() && 0 <= k < answers[g].0@.len() && 0 <= x < answers.len() && 0 <= y < answers[x].0@.len() && (g != x || k
            != y) ==> (#[trigger] answers[g].0@[k]).at != (#[trigger] answers[x].0@[y]).at
}

proof fn lemma_filled(all: Seq<JsonView>, part: Seq<BulkItemView>, o: BulkOutcome, k: int, p: int)
    requires
        0 <= k <= part.len(),
        0 <= p < all.len(),
        forall|j: int| 0 <= j < part.len() ==> 0 <= (#[trigger] part[j]).at < all.len(),
        forall|i: int, j: int| 0 <= i < part.len() && 0 <= j < part.len() && i != j ==> (#[trigger] part[i]).at != (#[trigger] part[j]).at,
    ensures
        filled(all, part, o, k).len() == all.len(),
        (forall|j: int| 0 <= j < k ==> (#[trigger] part[j]).at != p) ==> filled(all, part, o, k)[p] == all[p],
        forall|j: int| 0 <= j < k && (#[trigger] part[j]).at == p ==> filled(all, part, o, k)[p] == result_at(part, o, j),
    decreases k,
{
    if k > 0 {
        lemma_filled(all, part, o, k - 1, p);
        let before = filled(all, part, o, k - 1);
        assert(filled(all, part, o, k) == before.update(part[k - 1].at, result_at(part, o, k - 1)));
    }
}

proof fn lemma_gathered(n: int, answers: Seq<(Vec<BulkItem>, BulkOutcome)>, g: int, x: int, y: int)
    requires
        0 <= n,
        0 <= g <= answers.len(),
        placed_apart(answers),
        forall|a: int, b: int| 0 <= a < answers.len() && 0 <= b < answers[a].0@.len() ==> (#[trigger] answers[a].0@[b]).at < n,
        0 <= x < answers.len(),
        0 <= y < answers[x].0@.len(),
    ensures
        gathered_results(n, answers, g).len() == n,
        x < g ==> gathered_results(n, answers, g)[answers[x].0@[y].at as int] == result_at(items(answers[x].0@), answers[x].1, y),
    decreases g,
{
    if g > 0 {
        lemma_gathered(n, answers, g - 1, x, y);
        let before = gathered_results(n, answers, g - 1);
        let part = items(answers[g - 1].0@);
        let p = answers[x].0@[y].at as int;
        assert forall|j: int| 0 <= j < part.len() implies 0 <= (#[trigger] part[j]).at < before.len() by {
            assert(answers[g - 1].0@[j].at < n);
        }
        assert forall|i: int, j: int| 0 <= i < part.len() && 0 <= j < part.len() && i != j implies (#[trigger] part[i]).at != (#[trigger] part[j]).at by {
            assert(answers[g - 1].0@[i].at != answers[g - 1].0@[j].at);
        }
        lemma_filled(before, part, answers[g - 1].1, part.len() as int, p);
        if x < g - 1 {
            assert forall|j: int| 0 <= j < part.len() implies (#[trigger] part[j]).at != p by {
                assert(answers[g - 1].0@[j].at != answers[x].0@[y].at);
            }
        } else if x == g - 1 {
            assert(part[y].at == p);
        }
    }
}

/// Every document of a bulk write is answered with its own result, at its own place.
pub proof fn law_each_document_has_its_result(n: int, answers: Seq<(Vec<BulkItem>, BulkOutcome)>, x: int, y: int)
    requires
        0 <= n,
        placed_apart(answers),
        forall|a: int, b: int| 0 <= a < answers.len() && 0 <= b < answers[a].0@.len() ==> (#[trigger] answers[a].0@[b]).at < n,
        0 <= x < answers.len(),
        0 <= y < answers[x].0@.len(),
    ensures
        gathered_results(n, answers, answers.len() as int).len() == n,
        gathered_results(n, answers, answers.len() as int)[answers[x].0@[y].at as int] == result_at(
            items(answers[x].0@),
            answers[x].1,
            y,
        ),
{
    lemma_gathered(n, answers, answers.len() as int, x, y);
}

/// Without a ring a key goes to the first range that covers its hash, with that range's replicas, and
/// nowhere exactly where no range does.
pub proof fn law_a_key_goes_to_the_range_that_covers_it(s: Seq<ShardInfoView>, h: u64, i: int)
    requires
        0 <= i < s.len(),
        s[i].covers(h),
        forall|j: int| 0 <= j < i ==> !(#[trigger] s[j]).covers(h),
    ensures
        first_covering(s, h) == Some(s[i]),
    decreases s.len(),
{
    if i > 0 {
        let rest = s.skip(1);
        assert(rest[i - 1] == s[i]);
        assert forall|j: int| 0 <= j < i - 1 implies !(#[trigger] rest[j]).covers(h) by {
            assert(rest[j] == s[j + 1]);
        }
        law_a_key_goes_to_the_range_that_covers_it(rest, h, i - 1);
    }
}

/// A key that no range covers goes nowhere.
pub proof fn law_an_uncovered_key_goes_nowhere(s: Seq<ShardInfoView>, h: u64)
    requires
        forall|i: int| 0 <= i < s.len() ==> !(#[trigger] s[i]).covers(h),
    ensures
        first_covering(s, h) is None,
    decreases s.len(),
{
    if s.len() > 0 {
        let rest = s.skip(1);
        assert forall|j: int| 0 <= j < rest.len() implies !(#[trigger] rest[j]).covers(h) by {
            assert(rest[j] == s[j + 1]);
        }
        law_an_uncovered_key_goes_nowhere(rest, h);
    }
}

/// What a node's reply does to a write: it is passed on only if it is an answer and no redirect; a
/// redirect of the first node is followed, once; a node that did not answer has the next one asked.
pub proof fn law_what_a_reply_does_to_a_write(f: ForwardView, event: ForwardEvent)
    requires
        f.awaits(event),
    ensures
        ({
            let (after, action) = f.next(event);
            let replied = event is Replied;
            let answers = replied && authoritative(event->Replied_status);
            let elsewhere = replied && event->Replied_redirect is Some;
            &&& after.original == f.original && after.effective == f.effective && after.replicas == f.replicas
            &&& f.phase is First && elsewhere ==> action == ForwardActionView::Send(event->Replied_redirect->0@) && after.phase is Redirected
            &&& f.phase is First && !elsewhere && answers ==> action is Answer && (f.effective != f.original ==> action->Answer_primary
                == Some(f.effective))
            &&& f.phase is First && !elsewhere && !answers ==> action is Refresh && after.phase is Refreshing
            &&& f.phase is Redirected && answers && !elsewhere ==> action is Answer
            &&& f.phase is Redirected && !(answers && !elsewhere) ==> action is AnswerFirst
            &&& f.phase is Refreshing && event->latest is Some && event->latest->0@ != f.effective ==> action == ForwardActionView::Send(
                event->latest->0@,
            ) && after.phase is Latest
            &&& f.phase is Latest && answers ==> action is Answer
            &&& (f.phase is Latest && !answers) || (f.phase is Refreshing && !(event->latest is Some && event->latest->0@ != f.effective))
                ==> (if f.replicas.len() > 0 {
                action == ForwardActionView::ForgetAndSend(f.replicas[0]) && after.phase == ForwardPhase::Replica(0)
            } else {
                action == (ForwardActionView::Unreachable { forget: true })
            })
        }),
{
}

/// Each replica is asked after the one before it did not answer, and the one that answers is noted.
pub proof fn law_replicas_are_tried_in_turn(f: ForwardView, i: usize, event: ForwardEvent)
    requires
        f.phase == ForwardPhase::Replica(i),
        f.awaits(event),
    ensures
        ({
            let (after, action) = f.next(event);
            let answers = event is Replied && authoritative(event->Replied_status);
            &&& f.next_bulk(event) == f.next(event)
            &&& answers ==> action == (ForwardActionView::Answer { primary: Some(f.replicas[i as int]) })
            &&& !answers && i + 1 < f.replicas.len() ==> action == ForwardActionView::Send(f.replicas[i + 1]) && after.phase
                == ForwardPhase::Replica((i + 1) as usize)
            &&& !answers && i + 1 == f.replicas.len() ==> action == (ForwardActionView::Unreachable { forget: false })
        }),
{
}

/// A part of a bulk write is answered by the first node that does, and goes straight to the replicas
/// where the primary does not.
pub proof fn law_a_bulk_write_goes_straight_to_the_replicas(f: ForwardView, event: ForwardEvent)
    requires
        f.phase is First,
        f.awaits(event),
    ensures
        ({
            let (after, action) = f.next_bulk(event);
            let answers = event is Replied && authoritative(event->Replied_status);
            &&& answers && f.effective != f.original ==> action == (ForwardActionView::Answer { primary: Some(f.effective) })
            &&& answers && f.effective == f.original ==> action == (ForwardActionView::Answer { primary: None })
            &&& !answers && f.replicas.len() > 0 ==> action == ForwardActionView::ForgetAndSend(f.replicas[0]) && after.phase
                == ForwardPhase::Replica(0)
            &&& !answers && f.replicas.len() == 0 ==> action == (ForwardActionView::Unreachable { forget: true })
        }),
{
}

/// A read goes through its targets one by one until one settles it; a redirect is followed in
/// between, and the target that failed is forgotten.
pub proof fn law_a_read_goes_through_every_target(d: DocReadView, reply: Option<ShardReplyView>)
    requires
        0 <= d.at < d.targets.len(),
    ensures
        ({
            let (after, step) = d.next(reply);
            let moved = !d.redirected && reply is Some && (reply->0).owner() is Some;
            let settled = !moved && reply is Some && settles((reply->0).status);
            &&& after.targets == d.targets && after.effective == d.effective && after.enforced == d.enforced
            &&& moved ==> after.redirected && after.at == d.at && step.next == ReadNextView::Ask((reply->0).owner()->0)
            &&& settled ==> step.next == ReadNextView::Answer(answered((reply->0).status, (reply->0).content()))
            &&& !moved && !settled && d.at + 1 < d.targets.len() ==> after.at == d.at + 1 && !after.redirected && step.next
                == ReadNextView::Ask(d.targets[d.at + 1])
            &&& !moved && !settled && d.at + 1 == d.targets.len() ==> step.next is Answer
            &&& step.forget_load == (if !d.redirected && !moved && !settled { Some(d.targets[d.at]) } else { None })
        }),
{
}

/// A refusal for want of a leader is kept until the read ends, and the primary's own words with it;
/// a read that ends without a document passes those words on.
pub proof fn law_a_refusal_is_kept(d: DocReadView, reply: Option<ShardReplyView>)
    requires
        0 <= d.at < d.targets.len(),
    ensures
        ({
            let (after, step) = d.next(reply);
            let refuses = !d.redirected && d.enforced && reply is Some && (reply->0).status == 503;
            let primary = node(d.targets[d.at]) == node(d.effective);
            &&& after.refused == (d.refused || refuses)
            &&& refuses && primary ==> after.primary_refusal == reply
            &&& !(refuses && primary) ==> after.primary_refusal == d.primary_refusal
            &&& step.next is Answer && !(reply is Some && settles((reply->0).status)) && !after.refused ==> (step.next->Answer_0).status
                == 502
            &&& step.next is Answer && !(reply is Some && settles((reply->0).status)) && after.refused && after.primary_refusal is Some
                ==> (step.next->Answer_0).status == (after.primary_refusal->0).status && (step.next->Answer_0).body == BodyView::Json(
                (after.primary_refusal->0).content(),
            )
            &&& step.next is Answer && !(reply is Some && settles((reply->0).status)) && after.refused && after.primary_refusal is None
                ==> (step.next->Answer_0).status == 503
        }),
{
    if reply is Some && (reply->0).status == 503 {
        assert((reply->0).owner() is None);
    }
}

/// Where replicas are preferred they come before the primary; otherwise the primary comes first. In
/// either case everybody who holds the key is asked, and nobody else.
pub proof fn law_everybody_who_holds_a_key_is_a_target(
    pref: ReadPreference,
    primary: Seq<char>,
    replicas: Seq<Seq<char>>,
    rr: int,
    loads: Map<Seq<char>, NodeLoad>,
    r: Seq<Seq<char>>,
    url: Seq<char>,
)
    requires
        0 <= rr,
        targets_ok(pref, primary, replicas, rr, loads, r),
    ensures
        r.contains(url) <==> url == primary || replicas.contains(url),
        r.no_duplicates(),
        pref != ReadPreference::Replica ==> r.len() > 0 && r[0] == primary,
        pref == ReadPreference::Replica && !replicas.contains(primary) ==> r.len() > 0 && r.last() == primary,
{
    lemma_joined_hold::<Seq<char>>();
    let one = seq![primary];
    assert(one =~= Seq::<Seq<char>>::empty().push(primary));
    if pref == ReadPreference::Replica && replicas.len() > 0 {
        let order = choose|order: Seq<int>|
            #[trigger] ranked(loads, replicas, rr, order) && r == each_once(in_order(replicas, rr, order).push(primary));
        let ranking = in_order(replicas, rr, order);
        law_nobody_is_asked_twice(ranking.push(primary));
        lemma_ranking_holds(loads, replicas, rr, order, url);
        lemma_ranking_holds(loads, replicas, rr, order, primary);
        assert(r.to_set().contains(url) <==> ranking.push(primary).to_set().contains(url));
        assert(ranking.push(primary).drop_last() =~= ranking);
        law_nobody_is_asked_twice(ranking);
        assert(each_once(ranking).to_set().contains(primary) <==> ranking.to_set().contains(primary));
    } else if pref == ReadPreference::Replica {
        assert(r.contains(url) <==> url == primary);
    } else {
        law_nobody_is_asked_twice(one + replicas);
        assert(r.to_set().contains(url) <==> (one + replicas).to_set().contains(url));
        lemma_first_stays(one + replicas);
    }
}

proof fn lemma_first_stays(v: Seq<Seq<char>>)
    requires
        v.len() > 0,
    ensures
        each_once(v).len() > 0,
        each_once(v)[0] == v[0],
    decreases v.len(),
{
    if v.len() > 1 {
        lemma_first_stays(v.drop_last());
    } else {
        assert(each_once(v.drop_last()) =~= Seq::empty());
    }
}

/// A ranking has every replica in it.
proof fn lemma_ranking_holds(loads: Map<Seq<char>, NodeLoad>, replicas: Seq<Seq<char>>, rr: int, order: Seq<int>, url: Seq<char>)
    requires
        0 <= rr,
        replicas.len() > 0,
        ranked(loads, replicas, rr, order),
    ensures
        in_order(replicas, rr, order).contains(url) <==> replicas.contains(url),
{
    let n = replicas.len() as int;
    let ranking = in_order(replicas, rr, order);
    if ranking.contains(url) {
        let i = choose|i: int| 0 <= i < ranking.len() && ranking[i] == url;
        assert(replicas[(rr + order[i]) % n] == url) by {
            assert(0 <= (rr + order[i]) % n < n) by (nonlinear_arith)
                requires
                    n > 0,
            ;
        }
    }
    if replicas.contains(url) {
        let k = choose|k: int| 0 <= k < n && replicas[k] == url;
        let want = (k - rr) % n;
        assert(0 <= want < n && (rr + want) % n == k) by {
            vstd::arithmetic::div_mod::lemma_fundamental_div_mod(k - rr, n);
            let q = (k - rr) / n;
            assert(rr + want == k - n * q);
            assert(n * (-q) == -(n * q)) by (nonlinear_arith);
            vstd::arithmetic::div_mod::lemma_mod_multiples_vanish(-q, k, n);
            vstd::arithmetic::div_mod::lemma_small_mod(k as nat, n as nat);
            assert(n * (-q) + k == rr + want);
        }
        lemma_order_reaches(loads, replicas, rr, order, want);
        let i = choose|i: int| 0 <= i < order.len() && order[i] == want;
        assert(ranking[i] == rotated(replicas, rr, want));
    }
}

proof fn lemma_order_reaches(loads: Map<Seq<char>, NodeLoad>, replicas: Seq<Seq<char>>, rr: int, order: Seq<int>, want: int)
    requires
        ranked(loads, replicas, rr, order),
        0 <= want < replicas.len(),
    ensures
        order.contains(want),
{
    assert(order.no_duplicates()) by {
        assert forall|i: int, j: int| 0 <= i < order.len() && 0 <= j < order.len() && i != j implies order[i] != order[j] by {
            if i < j {
                assert(rank_before(rank_of(loads, replicas, rr, order[i]), rank_of(loads, replicas, rr, order[j])));
            } else {
                assert(rank_before(rank_of(loads, replicas, rr, order[j]), rank_of(loads, replicas, rr, order[i])));
            }
        }
    }
    let all = Set::new(|i: int| 0 <= i < replicas.len());
    vstd::set_lib::lemma_int_range(0, replicas.len() as int);
    assert(all =~= vstd::set_lib::set_int_range(0, replicas.len() as int));
    order.unique_seq_to_set();
    assert(order.to_set().subset_of(all));
    vstd::set_lib::lemma_subset_equality(order.to_set(), all);
    assert(order.to_set().contains(want));
}

/// Each read begins one replica further on, and goes round.
pub proof fn law_reads_go_round(replicas: Seq<Seq<char>>, rr: int, i: int)
    requires
        replicas.len() > 0,
        0 <= rr,
        0 <= i < replicas.len(),
    ensures
        rotated(replicas, 0, i) == replicas[i],
        rotated(replicas, rr + 1, i) == rotated(replicas, rr, i + 1),
        rotated(replicas, rr + replicas.len(), i) == rotated(replicas, rr, i),
{
    let n = replicas.len() as int;
    vstd::arithmetic::div_mod::lemma_small_mod(i as nat, n as nat);
    vstd::arithmetic::div_mod::lemma_mod_multiples_vanish(1, rr + i, n);
    assert(n * 1 + (rr + i) == rr + n + i);
}

/// A replica whose load is known goes before one whose load is not, and of two known ones the less
/// loaded goes first: fewer requests in flight at no more latency, or less latency at no more
/// requests.
pub proof fn law_the_less_loaded_go_first(
    loads: Map<Seq<char>, NodeLoad>,
    replicas: Seq<Seq<char>>,
    rr: int,
    order: Seq<int>,
    i: int,
    j: int,
)
    requires
        ranked(loads, replicas, rr, order),
        0 <= i < j < order.len(),
    ensures
        load_of(loads, rotated(replicas, rr, order[j])) is Some ==> load_of(loads, rotated(replicas, rr, order[i])) is Some,
        load_of(loads, rotated(replicas, rr, order[j])) is Some ==> score(
            load_of(loads, rotated(replicas, rr, order[i]))->0,
            assumed_latency(loads, replicas),
        ) <= score(load_of(loads, rotated(replicas, rr, order[j]))->0, assumed_latency(loads, replicas)),
{
    assert(rank_before(rank_of(loads, replicas, rr, order[i]), rank_of(loads, replicas, rr, order[j])));
}

/// The score of a node is its latency times the requests in flight with the one to come, the latency
/// of the others standing in for one that was never measured, as far as 64 bits go; it grows with both.
pub proof fn law_a_score_grows_with_the_load(a: NodeLoad, b: NodeLoad, unknown: u64)
    ensures
        a.latency_ewma_us > 0 && (a.inflight + 1) * a.latency_ewma_us <= u64::MAX ==> score(a, unknown) == (a.inflight + 1)
            * a.latency_ewma_us,
        a.latency_ewma_us == 0 && (a.inflight + 1) * unknown <= u64::MAX ==> score(a, unknown) == (a.inflight + 1) * unknown,
        a.inflight <= b.inflight && 0 < a.latency_ewma_us <= b.latency_ewma_us ==> score(a, unknown) <= score(b, unknown),
{
    let (x, y) = (capped(a.inflight + 1) as int, capped(b.inflight + 1) as int);
    let (l, m) = (a.latency_ewma_us as int, b.latency_ewma_us as int);
    if a.inflight == u64::MAX {
        assert((a.inflight + 1) * l > u64::MAX || l == 0) by (nonlinear_arith)
            requires
                a.inflight == u64::MAX,
                l >= 0,
        ;
        assert((a.inflight + 1) * unknown > u64::MAX || unknown == 0) by (nonlinear_arith)
            requires
                a.inflight == u64::MAX,
                unknown >= 0,
        ;
        assert(x * 0 == 0 && (a.inflight + 1) * 0 == 0);
    }
    if a.inflight <= b.inflight && 0 < l <= m {
        assert(x * l <= y * m) by (nonlinear_arith)
            requires
                0 <= x <= y,
                0 < l <= m,
        ;
    }
}

/// A measured replica adds its latency to the sum and one to the count; one that was never measured
/// adds nothing.
pub proof fn law_every_measured_replica_counts(loads: Map<Seq<char>, NodeLoad>, replicas: Seq<Seq<char>>, url: Seq<char>)
    ensures
        ({
            let n = replicas.len() as int;
            let before = measured(loads, replicas, n);
            let after = measured(loads, replicas.push(url), n + 1);
            let latency = if loads.dom().contains(node(url)) { loads[node(url)].latency_ewma_us } else { 0 };
            &&& latency > 0 && before.0 + latency <= u64::MAX ==> after.0 == before.0 + latency && after.1 == before.1 + 1
            &&& latency == 0 ==> after == before
        }),
        assumed_latency(loads, Seq::empty()) == 1000,
        ({
            let (sum, count) = measured(loads, replicas, replicas.len() as int);
            count > 0 ==> assumed_latency(loads, replicas) * count <= sum < (assumed_latency(loads, replicas) + 1) * count
        }),
{
    let n = replicas.len() as int;
    lemma_measured_prefix(loads, replicas, replicas.push(url), n);
    let (sum, count) = measured(loads, replicas, n);
    if count > 0 {
        let q = sum as int / count;
        vstd::arithmetic::div_mod::lemma_fundamental_div_mod(sum as int, count);
        vstd::arithmetic::div_mod::lemma_mod_bound(sum as int, count);
        assert(q * count <= sum < (q + 1) * count) by (nonlinear_arith)
            requires
                sum as int == count * q + sum as int % count,
                0 <= sum as int % count < count,
        ;
        assert(0 <= q <= sum) by (nonlinear_arith)
            requires
                q * count <= sum < (q + 1) * count,
                count > 0,
                sum >= 0,
        ;
    }
}

proof fn lemma_measured_prefix(loads: Map<Seq<char>, NodeLoad>, a: Seq<Seq<char>>, b: Seq<Seq<char>>, n: int)
    requires
        0 <= n <= a.len(),
        n <= b.len(),
        forall|i: int| 0 <= i < n ==> a[i] == b[i],
    ensures
        measured(loads, a, n) == measured(loads, b, n),
    decreases n,
{
    if n > 0 {
        lemma_measured_prefix(loads, a, b, n - 1);
    }
}

proof fn lemma_result_names()
    ensures
        "id"@ != "status"@,
        "id"@ != "error"@,
        "status"@ != "error"@,
{
    reveal_strlit("id");
    assert("id"@.len() == 2);
    reveal_strlit("status");
    assert("status"@.len() == 6);
    reveal_strlit("error");
    assert("error"@.len() == 5);
}

/// A document that could not be written is told of under its own id, as an error and why.
pub proof fn law_a_failure_names_its_document(id: Seq<char>, why: Seq<char>)
    ensures
        failure(id, why).member("id"@) == Some(JsonView::Str(id)),
        failure(id, why).member("status"@) == Some(JsonView::Str("error"@)),
        failure(id, why).member("error"@) == Some(JsonView::Str(why)),
        !created(failure(id, why)),
{
    let pairs = seq![("id"@, JsonView::Str(id)), ("status"@, JsonView::Str("error"@)), ("error"@, JsonView::Str(why))];
    lemma_result_names();
    law_the_last_of_one_key_is_kept(pairs, "id"@, 0);
    law_the_last_of_one_key_is_kept(pairs, "status"@, 1);
    law_the_last_of_one_key_is_kept(pairs, "error"@, 2);
    reveal_strlit("created");
    reveal_strlit("error");
    assert("created"@.len() == 7 && "error"@.len() == 5);
}

/// A group that tells of each of its documents is believed one by one; one that does not, or that
/// could not be reached, has none of them written.
pub proof fn law_a_groups_results_are_its_documents(part: Seq<BulkItemView>, o: BulkOutcome, k: int)
    requires
        0 <= k < part.len(),
    ensures
        match o {
            BulkOutcome::Replied(Some(b)) => {
                let said = b@.member("results"@);
                if said is Some && said->0 is Array && said->0->Array_0.len() == part.len() {
                    result_at(part, o, k) == said->0->Array_0[k]
                } else {
                    result_at(part, o, k).member("id"@) == Some(JsonView::Str(part[k].id)) && !created(result_at(part, o, k))
                }
            },
            _ => result_at(part, o, k).member("id"@) == Some(JsonView::Str(part[k].id)) && !created(result_at(part, o, k)),
        },
{
    law_a_failure_names_its_document(part[k].id, "malformed shard response"@);
    law_a_failure_names_its_document(part[k].id, "All shard nodes unreachable"@);
}

/// Every document of a bulk write finds the one group of its owner, under its own route, with its
/// id, its value and its place.
pub proof fn law_every_document_has_a_group(docs: Seq<NamedDocView>, r: Seq<RouteView>, k: int)
    requires
        r.len() == docs.len(),
        0 <= k < docs.len(),
        forall|i: int, j: int|
            0 <= i < r.len() && 0 <= j < r.len() && (#[trigger] r[i]).original == (#[trigger] r[j]).original ==> r[i] == r[j],
    ensures
        exists|g: int|
            0 <= g < parts(docs, r).len() && (#[trigger] parts(docs, r)[g]).route == r[k] && parts(docs, r)[g].items.contains(
                BulkItemView { at: k, id: docs[k].id, value: docs[k].value },
            ),
        forall|g: int, h: int|
            0 <= g < h < parts(docs, r).len() ==> (#[trigger] parts(docs, r)[g]).route.original != (#[trigger] parts(
                docs,
                r,
            )[h]).route.original,
{
    let gs = each_once(originals(r));
    let all = parts(docs, r);
    law_nobody_is_asked_twice(originals(r));
    assert(originals(r)[k] == r[k].original);
    assert(originals(r).contains(r[k].original));
    assert(gs.to_set().contains(r[k].original));
    let g = choose|g: int| 0 <= g < gs.len() && gs[g] == r[k].original;
    lemma_own_route(r, k);
    law_each_document_is_sent_once(docs, r, gs[g], docs.len() as int, k);
    let items = part_of(docs, r, gs[g], docs.len() as int);
    let j = choose|j: int|
        0 <= j < items.len() && (#[trigger] items[j]) == (BulkItemView { at: k, id: docs[k].id, value: docs[k].value });
    assert(all[g].items[j] == (BulkItemView { at: k, id: docs[k].id, value: docs[k].value }));
    assert(all[g].route == r[k]);
    assert forall|a: int, b: int| 0 <= a < b < all.len() implies (#[trigger] all[a]).route.original != (#[trigger] all[b]).route.original by {
        assert(gs.to_set().contains(gs[a]) && gs.to_set().contains(gs[b]));
        let x = choose|x: int| 0 <= x < r.len() && originals(r)[x] == gs[a];
        let y = choose|y: int| 0 <= y < r.len() && originals(r)[y] == gs[b];
        lemma_own_route(r, x);
        lemma_own_route(r, y);
    }
}

proof fn lemma_own_route(r: Seq<RouteView>, k: int)
    requires
        0 <= k < r.len(),
        forall|i: int, j: int|
            0 <= i < r.len() && 0 <= j < r.len() && (#[trigger] r[i]).original == (#[trigger] r[j]).original ==> r[i] == r[j],
    ensures
        first_route(r, r[k].original) == r[k],
    decreases r.len(),
{
    if r[0].original != r[k].original {
        let rest = r.skip(1);
        assert(rest[k - 1] == r[k]);
        assert forall|i: int, j: int|
            0 <= i < rest.len() && 0 <= j < rest.len() && (#[trigger] rest[i]).original == (#[trigger] rest[j]).original implies rest[i]
            == rest[j] by {
            assert(rest[i] == r[i + 1] && rest[j] == r[j + 1]);
        }
        lemma_own_route(rest, k - 1);
    }
}

/// A result counts as written only if it says so and warns of nothing.
pub proof fn law_a_warning_is_no_success(r: JsonView)
    ensures
        created(r) ==> r.member("status"@) == Some(JsonView::Str("created"@)) && r.member("warning"@) is None,
        r.member("status"@) == Some(JsonView::Str("created"@)) && r.member("warning"@) is None ==> created(r),
{
}

/// An answer counts as one where it settles the write for good: a success, or a refusal that another
/// node would give too.
pub proof fn law_what_answers_a_write(s: u16)
    ensures
        200 <= s < 300 ==> authoritative(s),
        s >= 500 || s == 401 || s == 403 || s == 408 || s == 421 || s == 429 || s < 200 ==> !authoritative(s),
        300 <= s < 400 ==> !authoritative(s),
        s == 400 || s == 404 || s == 409 || s == 413 || s == 422 ==> authoritative(s),
{
}

/// A conflict that names an owner is a redirect there; nothing else is.
pub proof fn law_only_a_conflict_redirects(status: u16, body: Option<JsonView>)
    ensures
        owner_in(status, body) is Some <==> status == 409 && body is Some && (body->0).member("owner"@) is Some && (body->0).member(
            "owner"@,
        )->0 is Str,
        owner_in(status, body) is Some ==> (body->0).member("owner"@) == Some(JsonView::Str(owner_in(status, body)->0)),
{
}

/// A key belongs to the ring's owner of its hash where a ring is built, and else to the range that
/// covers it, with that owner's replicas.
pub proof fn law_the_ring_goes_before_the_ranges(view: ClusterMetadataView, built: Option<BuiltRingView>, h: u64)
    ensures
        built is Some ==> (owning_group(view, built, h) is Some <==> (built->0).owner(h) is Some),
        built is Some && owning_group(view, built, h) is Some ==> (owning_group(view, built, h)->0).0 == (built->0).owner(h)->0.node_url && (
        owning_group(view, built, h)->0).1 == (built->0).owner(h)->0.replica_urls,
        built is None ==> (owning_group(view, built, h) is Some <==> first_covering(view.shards, h) is Some),
        built is None && owning_group(view, built, h) is Some ==> (owning_group(view, built, h)->0).0 == first_covering(
            view.shards,
            h,
        )->0.node_url && (owning_group(view, built, h)->0).1 == first_covering(view.shards, h)->0.replica_urls,
{
}

/// A route goes to whoever is taken for the primary now, and knows the recorded one and the replicas.
pub proof fn law_a_route_knows_its_group(
    view: ClusterMetadataView,
    built: Option<BuiltRingView>,
    overrides: Map<Seq<char>, String>,
    collection: Seq<char>,
    id: Seq<char>,
)
    requires
        has_owner(view, built, collection, id),
    ensures
        ({
            let g = owning_group(view, built, key_hash(collection, id))->0;
            let r = route_of(view, built, overrides, collection, id);
            &&& r.original == g.0 && r.replicas == g.1
            &&& overrides.dom().contains(g.0) ==> r.effective == overrides[g.0]@
            &&& !overrides.dom().contains(g.0) ==> r.effective == g.0
        }),
{
}

/// The client is answered with the reply that settled its write: the last, or the first where a
/// redirect led nowhere; without any, with a bad gateway. A write that is still under way is not
/// answered.
pub proof fn law_what_the_client_is_answered(action: ForwardActionView, replies: Seq<ShardReply>)
    ensures
        ({
            let a = forward_answer(action, replies);
            let ended = action is Answer || action is AnswerFirst || action is Unreachable;
            &&& a is Some <==> ended
            &&& action is Answer && replies.len() > 0 ==> (a->0).status == replies.last().status && (a->0).body == BodyView::Json(
                replies.last()@.content(),
            )
            &&& action is AnswerFirst && replies.len() > 0 ==> (a->0).status == replies[0].status && (a->0).body == BodyView::Json(
                replies[0]@.content(),
            )
            &&& action is Unreachable || (ended && replies.len() == 0) ==> (a->0).status == 502
        }),
{
}

/// Only a preference that a node has to enforce travels with a read, under its own name.
pub proof fn law_what_of_a_preference_travels(p: ReadPreference)
    ensures
        p == ReadPreference::Primary ==> read_query(p) == "?read="@ + "primary"@ && forwarded(p) == Some("primary"@),
        p == ReadPreference::Quorum ==> read_query(p) == "?read="@ + "quorum"@ && forwarded(p) == Some("quorum"@),
        p == ReadPreference::Replica || p == ReadPreference::Any ==> read_query(p).len() == 0 && forwarded(p) is None,
{
}

/// An error says what went wrong, and nothing else.
pub proof fn law_an_error_says_what_went_wrong(msg: Seq<char>, k: Seq<char>)
    ensures
        error_body(msg).member(k) == (if k == "error"@ { Some(JsonView::Str(msg)) } else { None }),
{
    law_the_last_of_one_key_is_kept(seq![("error"@, JsonView::Str(msg))], k, 0);
}

/// A read that no primary could serve is passed on in the primary's own words where it gave any, and is
/// worth retrying either way.
pub proof fn law_a_refusal_is_passed_on(from_primary: Option<ShardReplyView>)
    ensures
        refusal(from_primary).retry_after,
        from_primary is Some ==> refusal(from_primary).status == (from_primary->0).status && refusal(from_primary).body == BodyView::Json(
            (from_primary->0).content(),
        ),
        from_primary is None ==> refusal(from_primary).status == 503,
{
}

/// A reply's content is its JSON, and its text where it is none.
pub proof fn law_a_content_is_json_or_text(r: ShardReplyView)
    ensures
        json_text(r.body) is Some ==> r.content() == json_text(r.body)->0,
        json_text(r.body) is None ==> r.content() == JsonView::Str(r.body),
{
}


/// A read is settled by a document or by its absence, and by nothing else.
pub proof fn law_what_settles_a_read(status: u16)
    ensures
        settles(status) <==> 200 <= status < 300 || status == 404,
{
}

} // verus!
