//! Queries and aggregations over every shard group.

use super::metadata::groups_view;
use super::router::{
    absent, answered, collection_absent_response, error_body, error_reply, forwarded, forwarded_read_pref, json_reply,
    opt_reply, refusal, refusal_response, stale_ring_response, text_reply, told, BodyView, ReadPreference, Reply,
    ReplyView, ShardReply, ShardReplyView,
};
use crate::endpoint::{node, same_endpoint, same_node};
use crate::escape::token;
use crate::json::{
    law_the_last_of_one_key_is_kept, lemma_found, lemma_model, lookup, members, ordered, picked, project, values,
    Json, JsonNumber, JsonView, Members,
};
use crate::lists::{lemma_joined_hold, lemma_take_all, lemma_take_grows};
use crate::model::{embed_key, embedded, AggregateParams, KeyMode, QueryPage, QueryParams};
use crate::name_map::NameMap;
use crate::text::{copy_list, copy_opt, decimal, decimal_of, lemma_text_order, opt_text, text_before, texts};
use crate::wire::{
    cursor_fields, decode_cursor, encode_cursor, lemma_cursor_names, split_cursor, token_value, unmarked,
    unmarked_members, whole, writable, written,
};
use vstd::prelude::*;
use vstd::utf8::encode_utf8;

verus! {

// ---- Shares of a page ----

/// The share of the `i`-th of `n` shards in a page of `limit` rows.
pub open spec fn share(limit: int, n: int, i: int) -> int {
    limit / n + (if i < limit % n { 1int } else { 0 })
}

/// Rows to ask each shard for, summing to exactly `limit`: an even share each and one more to the
/// first few. A share that rounded up instead let the page exceed `limit`, and trimming it afterwards
/// would strand the trimmed rows behind the cursor their shard already moved past.
///
/// Shares are allocated over the shards still in the scan, not every shard in the ring, or a drained
/// shard would keep its share and a `limit` smaller than the ring would never reach the shards behind
/// it.
pub fn shard_shares(limit: usize, shards: usize) -> (r: Vec<usize>)
    ensures
        r@.len() == shards,
        forall|i: int| 0 <= i < shards ==> #[trigger] r@[i] == share(limit as int, shards as int, i),
{
    let mut out: Vec<usize> = Vec::new();
    if shards == 0 {
        return out;
    }
    let base: usize = limit / shards;
    let extra: usize = limit % shards;
    let mut i: usize = 0;
    while i < shards
        invariant
            shards > 0,
            base == limit as int / shards as int,
            extra == limit as int % shards as int,
            i <= shards,
            out@.len() == i,
            forall|k: int| 0 <= k < i ==> #[trigger] out@[k] == share(limit as int, shards as int, k),
        decreases shards - i,
    {
        proof {
            vstd::arithmetic::div_mod::lemma_fundamental_div_mod(limit as int, shards as int);
            if extra > 0 {
                assert(base + 1 <= limit) by (nonlinear_arith)
                    requires
                        limit as int == shards as int * base as int + extra as int,
                        shards > 0,
                        extra > 0,
                ;
            }
        }
        out.push(if i < extra { base + 1 } else { base });
        i += 1;
    }
    out
}

/// The sum of the first `k` shares.
pub open spec fn shared(limit: int, n: int, k: int) -> int
    decreases k,
{
    if k <= 0 { 0 } else { shared(limit, n, k - 1) + share(limit, n, k - 1) }
}

proof fn lemma_shared(limit: int, n: int, k: int)
    requires
        n > 0,
        limit >= 0,
        0 <= k <= n,
    ensures
        shared(limit, n, k) == k * (limit / n) + (if k < limit % n { k } else { limit % n }),
    decreases k,
{
    vstd::arithmetic::div_mod::lemma_mod_bound(limit, n);
    if k > 0 {
        lemma_shared(limit, n, k - 1);
        let q = limit / n;
        assert((k - 1) * q + q == k * q) by (nonlinear_arith);
        assert(shared(limit, n, k) == shared(limit, n, k - 1) + share(limit, n, k - 1));
        assert(shared(limit, n, k - 1) == (k - 1) * q + (if k - 1 < limit % n { k - 1 } else { limit % n }));
    } else {
        assert(0 * (limit / n) == 0);
    }
}

/// The shares of a page sum to its limit, and no two differ by more than one row.
pub proof fn law_shares_sum_to_the_limit(limit: int, n: int, i: int, j: int)
    requires
        n > 0,
        limit >= 0,
        0 <= i < n,
        0 <= j < n,
    ensures
        shared(limit, n, n) == limit,
        -1 <= share(limit, n, i) - share(limit, n, j) <= 1,
        share(limit, n, i) >= 0,
{
    lemma_shared(limit, n, n);
    vstd::arithmetic::div_mod::lemma_fundamental_div_mod(limit, n);
    vstd::arithmetic::div_mod::lemma_mod_bound(limit, n);
    vstd::arithmetic::div_mod::lemma_div_pos_is_pos(limit, n);
}

// ---- Planning a query ----

/// How far an unsorted scan has got: where each shard that still has rows goes on.
#[derive(Debug, PartialEq, Eq)]
pub struct ShardCursor {
    /// The layout of the shards when the cursor was issued.
    pub ring: u64,
    pub positions: NameMap<Option<String>>,
}

pub ghost struct ShardCursorView {
    pub ring: u64,
    pub positions: Map<Seq<char>, Option<Seq<char>>>,
}

pub open spec fn positions_view(m: Map<Seq<char>, Option<String>>) -> Map<Seq<char>, Option<Seq<char>>> {
    m.map_values(|v: Option<String>| opt_text(v))
}

impl View for ShardCursor {
    type V = ShardCursorView;

    open spec fn view(&self) -> ShardCursorView {
        ShardCursorView { ring: self.ring, positions: positions_view(self.positions@) }
    }
}

pub open spec fn opt_cursor(c: Option<ShardCursor>) -> Option<ShardCursorView> {
    match c {
        Some(x) => Some(x@),
        None => None,
    }
}

/// A place in a shard as a value.
pub open spec fn place_value(p: Option<Seq<char>>) -> JsonView {
    match p {
        Some(t) => JsonView::Str(t),
        None => JsonView::Null,
    }
}

/// The places as members, in the order of the groups' names.
pub open spec fn place_members(m: NameMap<Option<String>>) -> Members {
    Seq::new(m.keys().len(), |i: int| (m.keys()[i], place_value(opt_text(m@[m.keys()[i]]))))
}

/// A cursor as a value.
pub open spec fn cursor_json(c: ShardCursor) -> JsonView {
    JsonView::Object(seq![("positions"@, JsonView::Object(place_members(c.positions))), ("ring"@, whole(c.ring))])
}

/// Whether every member is a place.
pub open spec fn all_places(p: Members) -> bool {
    forall|i: int| 0 <= i < p.len() ==> (#[trigger] p[i]).1 is Null || p[i].1 is Str
}

/// The places under the keys of an object.
pub open spec fn places(p: Members) -> Map<Seq<char>, Option<Seq<char>>> {
    Map::new(|k: Seq<char>| lookup(p, k) is Some, |k: Seq<char>| (lookup(p, k)->0).text())
}

/// The cursor that a value is: a layout and the shards' places.
pub open spec fn cursor_of(j: JsonView) -> Option<ShardCursorView> {
    match cursor_fields(j) {
        Some((r, JsonView::Object(p))) => if r.number() is Some && all_places(p) {
            Some(ShardCursorView { ring: r.number()->0, positions: places(p) })
        } else {
            None
        },
        _ => None,
    }
}

/// The cursor in a token.
pub open spec fn cursor_in(t: Seq<char>) -> Option<ShardCursorView> {
    match token_value(t) {
        Some(j) => cursor_of(j),
        None => None,
    }
}

proof fn lemma_place_members(m: NameMap<Option<String>>)
    requires
        m.keyed(),
    ensures
        ordered(place_members(m)),
        all_places(place_members(m)),
        places(place_members(m)) == positions_view(m@),
{
    let p = place_members(m);
    assert(ordered(p)) by {
        assert forall|i: int, j: int| 0 <= i < j < p.len() implies text_before(#[trigger] p[i].0, #[trigger] p[j].0) by {
            assert(text_before(m.keys()[i], m.keys()[j]));
        }
    }
    let n = places(p);
    assert forall|k: Seq<char>| #[trigger] n.dom().contains(k) <==> m@.dom().contains(k) by {
        lemma_found(p, k);
        if m@.dom().contains(k) {
            assert(m.keys().to_set().contains(k));
            let i = choose|i: int| 0 <= i < m.keys().len() && m.keys()[i] == k;
            assert(p[i].0 == k);
        }
        if n.dom().contains(k) {
            let i = choose|i: int| 0 <= i < p.len() && #[trigger] p[i] == (k, lookup(p, k)->0);
            assert(m.keys()[i] == k);
            assert(m.keys().to_set().contains(k));
        }
    }
    assert forall|k: Seq<char>| #[trigger] n.dom().contains(k) implies n[k] == positions_view(m@)[k] by {
        lemma_found(p, k);
        let i = choose|i: int| 0 <= i < p.len() && #[trigger] p[i] == (k, lookup(p, k)->0);
        assert(m.keys()[i] == k);
        assert(m@.dom().contains(k));
    }
    assert(n =~= positions_view(m@));
}

/// A cursor's value is read as that cursor.
proof fn lemma_cursor_json(c: ShardCursor)
    requires
        c.positions.keyed(),
    ensures
        cursor_of(cursor_json(c)) == Some(c@),
        writable(cursor_json(c), 4),
        unmarked_members(place_members(c.positions)) ==> unmarked(cursor_json(c)),
{
    lemma_cursor_names();
    lemma_place_members(c.positions);
    let m = cursor_json(c)->Object_0;
    assert(m[0].0 == "positions"@ && m[1].0 == "ring"@);
    assert(ordered(m));
    lemma_found(m, "ring"@);
    lemma_found(m, "positions"@);
    let p = place_members(c.positions);
    assert(writable(JsonView::Object(p), 3)) by {
        assert forall|i: int| 0 <= i < p.len() implies writable((#[trigger] p[i]).1, 2) by {
            assert(p[i].1 == place_value(opt_text(c.positions@[c.positions.keys()[i]])));
        }
    }
    assert forall|i: int| 0 <= i < m.len() implies writable((#[trigger] m[i]).1, 3) by {
        if i == 0 {
            assert(m[0].1 == JsonView::Object(p));
        } else {
            assert(m[1].1 == whole(c.ring));
        }
    }
    if unmarked_members(p) {
        assert(unmarked(JsonView::Object(p))) by {
            assert forall|i: int| 0 <= i < p.len() implies unmarked((#[trigger] p[i]).1) by {}
        }
        assert forall|i: int| 0 <= i < m.len() implies unmarked((#[trigger] m[i]).1) by {
            if i == 0 {
                assert(m[0].1 == JsonView::Object(p));
            } else {
                assert(m[1].1 == whole(c.ring));
            }
        }
    }
}

impl ShardCursor {
    /// The cursor as a value.
    pub fn to_json(&self) -> (r: Json)
        ensures
            r@ == cursor_json(*self),
    {
        let n = self.positions.len();
        let mut groups: Vec<(String, Json)> = Vec::new();
        let mut i: usize = 0;
        while i < n
            invariant
                n == self.positions.keys().len(),
                i <= n,
                groups@.len() == i,
                forall|k: int| 0 <= k < i ==> (#[trigger] groups@[k]).0@ == self.positions.keys()[k] && groups@[k].1@
                    == place_value(opt_text(self.positions@[self.positions.keys()[k]])),
            decreases n - i,
        {
            let k = self.positions.key_at(i).clone();
            let v = match self.positions.value_at(i) {
                Some(t) => Json::Str(t.clone()),
                None => Json::Null,
            };
            groups.push((k, v));
            i += 1;
        }
        assert(members(groups@) =~= place_members(self.positions));
        let inner = Json::Object(groups);
        let ring = Json::Number(JsonNumber::PosInt(self.ring));
        proof {
            lemma_model(inner);
        }
        let mut m: Vec<(String, Json)> = Vec::new();
        m.push(("positions".to_owned(), inner));
        m.push(("ring".to_owned(), ring));
        let r = Json::Object(m);
        proof {
            lemma_model(r);
            assert(members(m@) =~= seq![("positions"@, inner@), ("ring"@, whole(self.ring))]);
        }
        r
    }

    /// The cursor that a value is.
    pub fn from_json(j: &Json) -> (r: Option<ShardCursor>)
        requires
            j@.wf(),
        ensures
            opt_cursor(r) == cursor_of(j@),
    {
        let (first, second) = match split_cursor(j) {
            Some(f) => f,
            None => return None,
        };
        let ring: u64 = match first.as_u64() {
            Some(n) => n,
            None => return None,
        };
        let groups = match second {
            Json::Object(g) => g,
            _ => return None,
        };
        proof {
            lemma_model(*second);
        }
        let ghost p = members(groups@);
        let mut positions: NameMap<Option<String>> = NameMap::new();
        let mut i: usize = 0;
        while i < groups.len()
            invariant
                p == members(groups@),
                ordered(p),
                i <= groups@.len(),
                cursor_of(j@) == (if all_places(p) { Some(ShardCursorView { ring, positions: places(p) }) } else { None }),
                forall|k: int| 0 <= k < i ==> (#[trigger] p[k]).1 is Null || p[k].1 is Str,
                forall|k: Seq<char>| #[trigger] positions@.dom().contains(k) <==> exists|q: int| 0 <= q < i && (#[trigger] p[q]).0 == k,
                forall|q: int| 0 <= q < i ==> opt_text(positions@[(#[trigger] p[q]).0]) == p[q].1.text(),
            decreases groups@.len() - i,
        {
            assert(p[i as int] == (groups@[i as int].0@, groups@[i as int].1@));
            let v: Option<String> = match &groups[i].1 {
                Json::Null => None,
                Json::Str(t) => Some(t.clone()),
                _ => {
                    assert(!all_places(p));
                    return None;
                },
            };
            let ghost before = positions@;
            positions.insert(groups[i].0.clone(), v);
            proof {
                let key = p[i as int].0;
                assert forall|k: Seq<char>| #[trigger] positions@.dom().contains(k) <==> exists|q: int| 0 <= q < i + 1 && (#[trigger] p[q]).0 == k by {
                    if k == key {
                        assert(p[i as int].0 == k);
                    } else if before.dom().contains(k) {
                        let q = choose|q: int| 0 <= q < i && (#[trigger] p[q]).0 == k;
                        assert(p[q].0 == k);
                    }
                }
                assert forall|q: int| 0 <= q < i + 1 implies opt_text(positions@[(#[trigger] p[q]).0]) == p[q].1.text() by {
                    if q < i {
                        assert(text_before(p[q].0, p[i as int].0));
                        lemma_text_order(p[q].0, p[i as int].0);
                    }
                }
            }
            i += 1;
        }
        proof {
            let n = places(p);
            let have = positions_view(positions@);
            assert forall|k: Seq<char>| #[trigger] n.dom().contains(k) <==> have.dom().contains(k) by {
                lemma_found(p, k);
                if n.dom().contains(k) {
                    let q = choose|q: int| 0 <= q < p.len() && #[trigger] p[q] == (k, lookup(p, k)->0);
                    assert(p[q].0 == k);
                    assert(positions@.dom().contains(k));
                }
                if have.dom().contains(k) {
                    assert(positions@.dom().contains(k));
                    let q = choose|q: int| 0 <= q < i && (#[trigger] p[q]).0 == k;
                    assert(lookup(p, k) == Some(p[q].1));
                }
            }
            assert forall|k: Seq<char>| #[trigger] n.dom().contains(k) implies n[k] == have[k] by {
                lemma_found(p, k);
                let q = choose|q: int| 0 <= q < p.len() && #[trigger] p[q] == (k, lookup(p, k)->0);
                assert(positions@.dom().contains(p[q].0));
                assert(opt_text(positions@[p[q].0]) == p[q].1.text());
            }
            assert(n =~= have);
        }
        Some(ShardCursor { ring, positions })
    }

    /// The cursor as a token: reading the token gives the cursor back, unless the first group's name is the
    /// mark of embedded text.
    pub fn encode(&self) -> (r: String)
        ensures
            r@ == token(encode_utf8(written(cursor_json(*self)))),
            unmarked_members(place_members(self.positions)) ==> cursor_in(r@) == Some(self@),
    {
        let n = self.positions.len();
        proof {
            lemma_cursor_json(*self);
        }
        encode_cursor(&self.to_json())
    }

    /// The cursor in a token.
    pub fn decode(token: &str) -> (r: Option<ShardCursor>)
        ensures
            opt_cursor(r) == cursor_in(token@),
    {
        match decode_cursor(token) {
            Some(j) => ShardCursor::from_json(&j),
            None => None,
        }
    }
}

/// A group still in the scan, and where it goes on.
pub struct Active {
    pub original: String,
    pub replicas: Vec<String>,
    pub after: Option<String>,
}

pub ghost struct ActiveView {
    pub original: Seq<char>,
    pub replicas: Seq<Seq<char>>,
    pub after: Option<Seq<char>>,
}

impl View for Active {
    type V = ActiveView;

    open spec fn view(&self) -> ActiveView {
        ActiveView { original: self.original@, replicas: texts(self.replicas@), after: opt_text(self.after) }
    }
}

pub open spec fn actives(v: Seq<Active>) -> Seq<ActiveView> {
    Seq::new(v.len(), |i: int| v[i]@)
}

/// The groups still in the scan: all of them at its start, those that the cursor has a position for
/// afterwards. A drained shard drops out here: it must not hold a share.
pub open spec fn active(owners: Seq<(Seq<char>, Seq<Seq<char>>)>, cursor: Option<ShardCursorView>) -> Seq<ActiveView>
    decreases owners.len(),
{
    if owners.len() == 0 {
        Seq::empty()
    } else {
        let before = active(owners.drop_last(), cursor);
        let o = owners.last();
        match cursor {
            None => before.push(ActiveView { original: o.0, replicas: o.1, after: None }),
            Some(c) => if c.positions.dom().contains(o.0) {
                before.push(ActiveView { original: o.0, replicas: o.1, after: c.positions[o.0] })
            } else {
                before
            },
        }
    }
}

/// The rows asked of the `i`-th of `n` active groups. The top rows of a sorted page may all lie on one
/// shard, so each is asked for the whole page.
pub open spec fn asked(sorted: bool, limit: int, n: int, i: int) -> int {
    if sorted { limit } else { share(limit, n, i) }
}

/// A parameter, where it is given.
pub open spec fn given(name: Seq<char>, v: Option<Seq<char>>) -> Seq<(Seq<char>, Seq<char>)> {
    match v {
        Some(x) => seq![(name, x)],
        None => Seq::empty(),
    }
}

pub open spec fn flag(on: bool, name: Seq<char>, v: Seq<char>) -> Seq<(Seq<char>, Seq<char>)> {
    if on { seq![(name, v)] } else { Seq::empty() }
}

/// What a shard is asked: the request's own terms, its share, and where it goes on. A sorted scan has
/// one position for every shard, so that is passed on untouched; its merge needs keys whether or not
/// the client wants them back.
pub open spec fn question(p: QueryParams, rows: int, after: Option<Seq<char>>, sorted: bool, pref: ReadPreference) -> Seq<(Seq<char>, Seq<char>)> {
    seq![("limit"@, decimal_of(rows as nat))] + given("start"@, opt_text(p.start)) + given("end"@, opt_text(p.end)) + given(
        "filter"@,
        opt_text(p.filter),
    ) + given("sort"@, opt_text(p.sort)) + given("cursor"@, after) + given("read"@, forwarded(pref)) + flag(
        sorted || wants_keys(p),
        "keys"@,
        "true"@,
    ) + given("cursor"@, if sorted { opt_text(p.cursor) } else { None })
}

/// Whether the client wants keys in some shape.
pub open spec fn wants_keys(p: QueryParams) -> bool {
    p.keys is Some && p.keys->0 != KeyMode::Omitted
}

pub open spec fn pairs_view(v: Seq<(String, String)>) -> Seq<(Seq<char>, Seq<char>)> {
    Seq::new(v.len(), |i: int| (v[i].0@, v[i].1@))
}

fn add(q: Vec<(String, String)>, name: &str, v: Option<&str>) -> (r: Vec<(String, String)>)
    ensures
        pairs_view(r@) == pairs_view(q@) + given(
            name@,
            match v {
                Some(s) => Some(s@),
                None => None,
            },
        ),
{
    let mut out = q;
    let ghost before = pairs_view(out@);
    if let Some(s) = v {
        out.push((name.to_owned(), s.to_owned()));
        assert(pairs_view(out@) =~= before + seq![(name@, s@)]);
    } else {
        assert(before + Seq::<(Seq<char>, Seq<char>)>::empty() =~= before);
    }
    out
}

fn borrowed(o: &Option<String>) -> (r: Option<&str>)
    ensures
        (match r {
            Some(s) => Some(s@),
            None => None,
        }) == opt_text(*o),
{
    match o {
        Some(s) => Some(s.as_str()),
        None => None,
    }
}

/// What a shard is asked.
pub fn shard_question(p: &QueryParams, rows: usize, after: &Option<String>, sorted: bool, pref: &ReadPreference) -> (r: Vec<(String, String)>)
    ensures
        pairs_view(r@) == question(*p, rows as int, opt_text(*after), sorted, *pref),
{
    let mut q: Vec<(String, String)> = Vec::new();
    q.push(("limit".to_owned(), decimal(rows as u64)));
    assert(pairs_view(q@) =~= seq![("limit"@, decimal_of(rows as nat))]);
    let q = self::add(q, "start", borrowed(&p.start));
    let q = self::add(q, "end", borrowed(&p.end));
    let q = self::add(q, "filter", borrowed(&p.filter));
    let q = self::add(q, "sort", borrowed(&p.sort));
    let q = self::add(q, "cursor", borrowed(after));
    let q = self::add(q, "read", forwarded_read_pref(pref));
    let keyed = sorted || match p.keys {
        Some(m) => m != KeyMode::Omitted,
        None => false,
    };
    let q = self::add(q, "keys", if keyed { Some("true") } else { None });
    self::add(q, "cursor", if sorted { borrowed(&p.cursor) } else { None })
}

/// What one group is asked.
pub struct Ask {
    pub original: String,
    pub replicas: Vec<String>,
    pub query: Vec<(String, String)>,
}

pub ghost struct AskView {
    pub original: Seq<char>,
    pub replicas: Seq<Seq<char>>,
    pub query: Seq<(Seq<char>, Seq<char>)>,
}

impl View for Ask {
    type V = AskView;

    open spec fn view(&self) -> AskView {
        AskView { original: self.original@, replicas: texts(self.replicas@), query: pairs_view(self.query@) }
    }
}

pub open spec fn asks_view(v: Seq<Ask>) -> Seq<AskView> {
    Seq::new(v.len(), |i: int| v[i]@)
}

/// A query, ready to be sent.
pub struct QueryPlan {
    pub asks: Vec<Ask>,
    /// Carried, not dropped: a shard this page has no rows to spend on resumes on the next one.
    pub carried: NameMap<Option<String>>,
}

/// What the first `k` active groups are asked.
pub open spec fn questions(p: QueryParams, a: Seq<ActiveView>, sorted: bool, limit: int, pref: ReadPreference, k: int) -> Seq<AskView>
    decreases k,
{
    if k <= 0 {
        Seq::empty()
    } else {
        let before = questions(p, a, sorted, limit, pref, k - 1);
        let rows = asked(sorted, limit, a.len() as int, k - 1);
        if rows == 0 {
            before
        } else {
            before.push(
                AskView {
                    original: a[k - 1].original,
                    replicas: a[k - 1].replicas,
                    query: question(p, rows, a[k - 1].after, sorted, pref),
                },
            )
        }
    }
}

/// The positions carried over for the first `k` active groups.
pub open spec fn carried(a: Seq<ActiveView>, sorted: bool, limit: int, k: int) -> Map<Seq<char>, Option<Seq<char>>>
    decreases k,
{
    if k <= 0 {
        Map::empty()
    } else {
        let before = carried(a, sorted, limit, k - 1);
        if asked(sorted, limit, a.len() as int, k - 1) == 0 { before.insert(a[k - 1].original, a[k - 1].after) } else { before }
    }
}

fn gather_active(owners: &Vec<(String, Vec<String>)>, cursor: &Option<ShardCursor>) -> (r: Vec<Active>)
    ensures
        actives(r@) == active(groups_view(owners@), opt_cursor(*cursor)),
{
    let ghost g = groups_view(owners@);
    let ghost c = opt_cursor(*cursor);
    let mut out: Vec<Active> = Vec::new();
    let mut i: usize = 0;
    assert(g.take(0) =~= Seq::empty());
    assert(actives(out@) =~= active(g.take(0), c));
    while i < owners.len()
        invariant
            g == groups_view(owners@),
            c == opt_cursor(*cursor),
            i <= owners@.len(),
            actives(out@) == active(g.take(i as int), c),
        decreases owners@.len() - i,
    {
        proof {
            lemma_take_grows(g, i as int);
            assert(g[i as int] == (owners@[i as int].0@, texts(owners@[i as int].1@)));
        }
        let ghost before = actives(out@);
        let (here, after): (bool, Option<String>) = match cursor {
            None => (true, None),
            Some(c) => match c.positions.get(owners[i].0.as_str()) {
                Some(p) => (true, copy_opt(p)),
                None => (false, None),
            },
        };
        if here {
            let x = Active { original: owners[i].0.clone(), replicas: copy_list(&owners[i].1), after };
            let ghost xv = x@;
            out.push(x);
            assert(actives(out@) =~= before.push(xv));
        }
        i += 1;
    }
    proof {
        lemma_take_all(g);
    }
    out
}

/// Plans a query over the groups. `ring` is the layout of the shards now. A sorted scan has a cursor of
/// its own, which the shards read.
pub fn plan_query(
    params: &QueryParams,
    limit: usize,
    sorted: bool,
    ring: u64,
    owners: &Vec<(String, Vec<String>)>,
    pref: &ReadPreference,
) -> (r: Result<QueryPlan, Reply>)
    ensures
        ({
            let c = if sorted || params.cursor is None { None } else { cursor_in(params.cursor->0@) };
            let unreadable = !sorted && params.cursor is Some && c is None;
            let stale = c is Some && (c->0).ring != ring;
            let a = active(groups_view(owners@), c);
            match r {
                Ok(plan) => {
                    &&& !unreadable && !stale
                    &&& asks_view(plan.asks@) == questions(*params, a, sorted, limit as int, *pref, a.len() as int)
                    &&& positions_view(plan.carried@) == carried(a, sorted, limit as int, a.len() as int)
                },
                Err(e) => if unreadable {
                    e@ == answered(400, error_body("cursor does not belong to this query"@))
                } else {
                    stale && e@ == answered(409, error_body("cursor was issued against a different shard layout; restart the scan"@))
                },
            }
        }),
{
    let incoming: Option<ShardCursor> = match &params.cursor {
        Some(t) => if sorted {
            None
        } else {
            match ShardCursor::decode(t.as_str()) {
                Some(c) => Some(c),
                None => return Err(error_reply(400, "cursor does not belong to this query".to_owned())),
            }
        },
        None => None,
    };
    if let Some(c) = &incoming {
        if c.ring != ring {
            return Err(stale_ring_response());
        }
    }
    let act = gather_active(owners, &incoming);
    let ghost a = actives(act@);
    let n = act.len();
    let shares = shard_shares(limit, n);
    let mut asks: Vec<Ask> = Vec::new();
    let mut kept: NameMap<Option<String>> = NameMap::new();
    let mut i: usize = 0;
    assert(asks_view(asks@) =~= questions(*params, a, sorted, limit as int, *pref, 0));
    assert(positions_view(kept@) =~= carried(a, sorted, limit as int, 0));
    while i < n
        invariant
            a == actives(act@),
            n == act@.len(),
            shares@.len() == n,
            forall|k: int| 0 <= k < n ==> #[trigger] shares@[k] == share(limit as int, n as int, k),
            i <= n,
            asks_view(asks@) == questions(*params, a, sorted, limit as int, *pref, i as int),
            positions_view(kept@) == carried(a, sorted, limit as int, i as int),
        decreases n - i,
    {
        assert(a[i as int] == act@[i as int]@);
        let rows: usize = if sorted { limit } else { shares[i] };
        assert(rows == asked(sorted, limit as int, n as int, i as int));
        if rows == 0 {
            let ghost before = kept@;
            let after = copy_opt(&act[i].after);
            kept.insert(act[i].original.clone(), after);
            assert(positions_view(kept@) =~= positions_view(before).insert(a[i as int].original, a[i as int].after));
        } else {
            let ghost before = asks_view(asks@);
            let x = Ask {
                original: act[i].original.clone(),
                replicas: copy_list(&act[i].replicas),
                query: shard_question(params, rows, &act[i].after, sorted, pref),
            };
            let ghost xv = x@;
            asks.push(x);
            assert(asks_view(asks@) =~= before.push(xv));
        }
        i += 1;
    }
    Ok(QueryPlan { asks, carried: kept })
}

// ---- One shard ----

/// A request to one group, on its way through the nodes that may serve it.
pub struct GroupRead {
    pub targets: Vec<String>,
    pub primary: String,
    /// Whether the node that answers has to be the leader.
    pub enforced: bool,
    /// Whether a request that a shard finds wrong is wrong for every shard.
    pub rejectable: bool,
    pub at: usize,
    pub refused: bool,
    pub primary_refusal: Option<ShardReply>,
}

pub ghost struct GroupReadView {
    pub targets: Seq<Seq<char>>,
    pub primary: Seq<char>,
    pub enforced: bool,
    pub rejectable: bool,
    pub at: int,
    pub refused: bool,
    pub primary_refusal: Option<ShardReplyView>,
}

impl View for GroupRead {
    type V = GroupReadView;

    open spec fn view(&self) -> GroupReadView {
        GroupReadView {
            targets: texts(self.targets@),
            primary: self.primary@,
            enforced: self.enforced,
            rejectable: self.rejectable,
            at: self.at as int,
            refused: self.refused,
            primary_refusal: opt_reply(self.primary_refusal),
        }
    }
}

/// What a node did with the request.
pub enum NodeEvent {
    Unreachable,
    /// It answered, and the answer can be read.
    Answered,
    /// It replied in any other way: with another status, or with an answer that cannot be read.
    Replied(ShardReply),
}

/// What to do next, or what has become of the request.
pub enum GroupNext {
    Ask(String),
    /// The answer in hand is the group's.
    Answered,
    /// The request is wrong.
    Rejected(ShardReply),
    /// Every candidate refused, and the shard is up. Carries the effective primary's own refusal when
    /// that is who refused, so the router does not answer for it.
    NoPrimary(Option<ShardReply>),
    /// The shard holds no such collection, which is not an error for a collection narrower than the
    /// ring.
    Absent,
    Failed,
}

/// What to do next, and whose load is to be forgotten first.
pub struct GroupStep {
    pub forget_load: Option<String>,
    pub next: GroupNext,
}

pub ghost enum NodeEventView {
    Unreachable,
    Answered,
    Replied(ShardReplyView),
}

pub ghost enum GroupNextView {
    Ask(Seq<char>),
    Answered,
    Rejected(ShardReplyView),
    NoPrimary(Option<ShardReplyView>),
    Absent,
    Failed,
}

pub ghost struct GroupStepView {
    pub forget_load: Option<Seq<char>>,
    pub next: GroupNextView,
}

impl View for NodeEvent {
    type V = NodeEventView;

    open spec fn view(&self) -> NodeEventView {
        match *self {
            NodeEvent::Unreachable => NodeEventView::Unreachable,
            NodeEvent::Answered => NodeEventView::Answered,
            NodeEvent::Replied(r) => NodeEventView::Replied(r@),
        }
    }
}

impl View for GroupStep {
    type V = GroupStepView;

    open spec fn view(&self) -> GroupStepView {
        GroupStepView {
            forget_load: opt_text(self.forget_load),
            next: match self.next {
                GroupNext::Ask(n) => GroupNextView::Ask(n@),
                GroupNext::Answered => GroupNextView::Answered,
                GroupNext::Rejected(r) => GroupNextView::Rejected(r@),
                GroupNext::NoPrimary(r) => GroupNextView::NoPrimary(opt_reply(r)),
                GroupNext::Absent => GroupNextView::Absent,
                GroupNext::Failed => GroupNextView::Failed,
            },
        }
    }
}

impl GroupReadView {
    pub open spec fn over(self) -> GroupReadView {
        GroupReadView { at: self.targets.len() as int, ..self }
    }

    /// What it comes to when nobody is left, or when a node says that the collection is not there.
    pub open spec fn exhausted(self, absent: bool) -> GroupNextView {
        if self.refused {
            GroupNextView::NoPrimary(self.primary_refusal)
        } else if absent {
            GroupNextView::Absent
        } else {
            GroupNextView::Failed
        }
    }

    pub open spec fn onward(self) -> (GroupReadView, GroupStepView) {
        let forget_load = Some(self.targets[self.at]);
        if self.at + 1 < self.targets.len() {
            (
                GroupReadView { at: self.at + 1, ..self },
                GroupStepView { forget_load, next: GroupNextView::Ask(self.targets[self.at + 1]) },
            )
        } else {
            (self.over(), GroupStepView { forget_load, next: self.exhausted(false) })
        }
    }

    pub open spec fn with_refusal(self, reply: ShardReplyView) -> GroupReadView {
        GroupReadView {
            refused: true,
            primary_refusal: if same_node(self.targets[self.at], self.primary) { Some(reply) } else { self.primary_refusal },
            ..self
        }
    }

    pub open spec fn ended(self, next: GroupNextView) -> (GroupReadView, GroupStepView) {
        (self.over(), GroupStepView { forget_load: None, next })
    }

    pub open spec fn next(self, event: NodeEventView) -> (GroupReadView, GroupStepView) {
        if !(0 <= self.at < self.targets.len()) {
            self.ended(self.exhausted(false))
        } else {
            match event {
                NodeEventView::Unreachable => self.onward(),
                NodeEventView::Answered => self.ended(GroupNextView::Answered),
                NodeEventView::Replied(r) => if self.rejectable && r.status == 400 {
                    self.ended(GroupNextView::Rejected(r))
                } else if r.status == 503 && self.enforced {
                    self.with_refusal(r).onward()
                } else if r.status == 404 {
                    self.ended(self.exhausted(true))
                } else {
                    self.onward()
                },
            }
        }
    }
}

impl GroupRead {
    pub fn begin(pref: &ReadPreference, targets: Vec<String>, primary: String, rejectable: bool) -> (r: (GroupRead, GroupStep))
        ensures
            r.0@ == (GroupReadView {
                targets: texts(targets@),
                primary: primary@,
                enforced: forwarded(*pref) is Some,
                rejectable,
                at: 0,
                refused: false,
                primary_refusal: None,
            }),
            r.1@ == (GroupStepView {
                forget_load: None,
                next: if targets@.len() > 0 { GroupNextView::Ask(targets@[0]@) } else { GroupNextView::Failed },
            }),
    {
        let enforced = forwarded_read_pref(pref).is_some();
        let next = if targets.len() > 0 { GroupNext::Ask(targets[0].clone()) } else { GroupNext::Failed };
        (
            GroupRead { targets, primary, enforced, rejectable, at: 0, refused: false, primary_refusal: None },
            GroupStep { forget_load: None, next },
        )
    }

    fn exhausted(&self, absent: bool) -> (r: GroupNext)
        ensures
            (GroupStep { forget_load: None, next: r })@.next == self@.exhausted(absent),
    {
        if self.refused {
            GroupNext::NoPrimary(
                match &self.primary_refusal {
                    Some(r) => Some(ShardReply { status: r.status, body: r.body.clone() }),
                    None => None,
                },
            )
        } else if absent {
            GroupNext::Absent
        } else {
            GroupNext::Failed
        }
    }

    fn onward(&mut self) -> (r: GroupStep)
        requires
            old(self).at < old(self).targets@.len(),
        ensures
            (final(self)@, r@) == old(self)@.onward(),
    {
        let forget_load = Some(self.targets[self.at].clone());
        if self.targets.len() - self.at > 1 {
            self.at = self.at + 1;
            let to = self.targets[self.at].clone();
            GroupStep { forget_load, next: GroupNext::Ask(to) }
        } else {
            self.at = self.targets.len();
            GroupStep { forget_load, next: self.exhausted(false) }
        }
    }

    /// The next thing to do, given what the node whose turn it was did.
    pub fn step(&mut self, event: NodeEvent) -> (r: GroupStep)
        ensures
            (final(self)@, r@) == old(self)@.next(event@),
    {
        if self.at >= self.targets.len() {
            self.at = self.targets.len();
            return GroupStep { forget_load: None, next: self.exhausted(false) };
        }
        match event {
            NodeEvent::Unreachable => self.onward(),
            NodeEvent::Answered => {
                self.at = self.targets.len();
                GroupStep { forget_load: None, next: GroupNext::Answered }
            },
            NodeEvent::Replied(r) => {
                if self.rejectable && r.status == 400 {
                    self.at = self.targets.len();
                    return GroupStep { forget_load: None, next: GroupNext::Rejected(r) };
                }
                if r.status == 503 && self.enforced {
                    self.refused = true;
                    if same_endpoint(self.targets[self.at].as_str(), self.primary.as_str()) {
                        self.primary_refusal = Some(r);
                    }
                    return self.onward();
                }
                if r.status == 404 {
                    self.at = self.targets.len();
                    return GroupStep { forget_load: None, next: self.exhausted(true) };
                }
                self.onward()
            },
        }
    }
}

// ---- Putting a page together ----

/// What a group came to.
pub enum ShardQueryOutcome {
    Page(QueryPage),
    NoPrimary(Option<ShardReply>),
    Absent,
    Failed,
    /// The task that asked it was lost.
    Lost,
}

/// What an outcome that is no page answers the client, if it ends the query.
pub open spec fn trouble(o: ShardQueryOutcome) -> Option<ReplyView> {
    match o {
        ShardQueryOutcome::Page(_) => None,
        ShardQueryOutcome::Absent => None,
        ShardQueryOutcome::NoPrimary(r) => Some(refusal(opt_reply(r))),
        ShardQueryOutcome::Failed => Some(told(502, "Shard query failed"@)),
        ShardQueryOutcome::Lost => Some(told(502, "Shard query task failed"@)),
    }
}

/// The same for a sorted query, which cannot do without keys.
pub open spec fn sorted_trouble(o: ShardQueryOutcome) -> Option<ReplyView> {
    match o {
        ShardQueryOutcome::Page(p) => if p.keys@.len() != p.items@.len() {
            Some(told(502, "Shard returned a sorted page without keys"@))
        } else {
            None
        },
        _ => trouble(o),
    }
}

/// The first trouble among the first `n` outcomes.
pub open spec fn first_trouble(v: Seq<(String, ShardQueryOutcome)>, sorted: bool, n: int) -> Option<ReplyView>
    decreases n,
{
    if n <= 0 {
        None
    } else {
        match first_trouble(v, sorted, n - 1) {
            Some(t) => Some(t),
            None => if sorted { sorted_trouble(v[n - 1].1) } else { trouble(v[n - 1].1) },
        }
    }
}

/// How many of the first `n` outcomes are pages.
pub open spec fn pages(v: Seq<(String, ShardQueryOutcome)>, n: int) -> int
    decreases n,
{
    if n <= 0 { 0 } else { pages(v, n - 1) + (if v[n - 1].1 is Page { 1int } else { 0 }) }
}

/// How many of the first `n` outcomes say that the collection is not there.
pub open spec fn gone(v: Seq<(String, ShardQueryOutcome)>, n: int) -> int
    decreases n,
{
    if n <= 0 { 0 } else { gone(v, n - 1) + (if v[n - 1].1 is Absent { 1int } else { 0 }) }
}

/// A document with only the requested fields.
pub open spec fn projected(doc: JsonView, fields: Seq<Seq<char>>) -> JsonView {
    if fields.len() == 0 { doc } else { JsonView::Object(picked(doc, fields)) }
}

/// The documents of a list, projected.
pub open spec fn all_projected(v: Seq<JsonView>, fields: Seq<Seq<char>>) -> Seq<JsonView> {
    Seq::new(v.len(), |i: int| projected(v[i], fields))
}

/// The rows of the first `n` outcomes.
pub open spec fn all_items(v: Seq<(String, ShardQueryOutcome)>, fields: Seq<Seq<char>>, n: int) -> Seq<JsonView>
    decreases n,
{
    if n <= 0 {
        Seq::empty()
    } else {
        let before = all_items(v, fields, n - 1);
        match v[n - 1].1 {
            ShardQueryOutcome::Page(p) => before + all_projected(values(p.items@), fields),
            _ => before,
        }
    }
}

/// The keys of the first `n` outcomes.
pub open spec fn all_keys(v: Seq<(String, ShardQueryOutcome)>, n: int) -> Seq<Seq<char>>
    decreases n,
{
    if n <= 0 {
        Seq::empty()
    } else {
        let before = all_keys(v, n - 1);
        match v[n - 1].1 {
            ShardQueryOutcome::Page(p) => before + texts(p.keys@),
            _ => before,
        }
    }
}

/// Where the scan goes on after the first `n` outcomes. A shard whose page names no next row is done.
pub open spec fn positions_after(
    kept: Map<Seq<char>, Option<Seq<char>>>,
    v: Seq<(String, ShardQueryOutcome)>,
    n: int,
) -> Map<Seq<char>, Option<Seq<char>>>
    decreases n,
{
    if n <= 0 {
        kept
    } else {
        let before = positions_after(kept, v, n - 1);
        match v[n - 1].1 {
            ShardQueryOutcome::Page(p) => match p.next_cursor {
                Some(c) => before.insert(v[n - 1].0@, Some(c@)),
                None => before,
            },
            _ => before,
        }
    }
}

/// A page of the cluster, with where an unsorted scan goes on.
pub struct ClusterPage {
    pub items: Vec<Json>,
    pub keys: Vec<String>,
    pub next: Option<ShardCursor>,
}

/// The rows as the client gets them.
pub open spec fn shaped(mode: KeyMode, keys: Seq<Seq<char>>, rows: Seq<JsonView>) -> Seq<JsonView> {
    match mode {
        KeyMode::Embedded => Seq::new(rows.len(), |i: int| embedded(keys[i], rows[i])),
        _ => rows,
    }
}

/// The keys as the client gets them.
pub open spec fn shown(mode: KeyMode, keys: Seq<Seq<char>>) -> Seq<Seq<char>> {
    if mode == KeyMode::Parallel { keys } else { Seq::empty() }
}

fn shape(mode: KeyMode, keys: &Vec<String>, rows: Vec<Json>) -> (r: Vec<Json>)
    requires
        mode == KeyMode::Embedded ==> keys@.len() == rows@.len(),
        forall|i: int| 0 <= i < rows@.len() ==> (#[trigger] rows@[i])@.wf(),
    ensures
        values(r@) == shaped(mode, texts(keys@), values(rows@)),
{
    match mode {
        KeyMode::Embedded => {
            let mut out: Vec<Json> = Vec::new();
            let mut i: usize = 0;
            while i < rows.len()
                invariant
                    keys@.len() == rows@.len(),
                    forall|i: int| 0 <= i < rows@.len() ==> (#[trigger] rows@[i])@.wf(),
                    i <= rows@.len(),
                    out@.len() == i,
                    forall|k: int| 0 <= k < i ==> (#[trigger] out@[k])@ == embedded(keys@[k]@, rows@[k]@),
                decreases rows@.len() - i,
            {
                assert(rows@[i as int]@.wf());
                out.push(embed_key(keys[i].as_str(), rows[i].clone()));
                i += 1;
            }
            assert(values(out@) =~= shaped(mode, texts(keys@), values(rows@)));
            out
        },
        _ => rows,
    }
}

/// A page can be read: its documents are well formed.
pub open spec fn readable(o: ShardQueryOutcome) -> bool {
    match o {
        ShardQueryOutcome::Page(p) => forall|i: int| 0 <= i < p.items@.len() ==> (#[trigger] p.items@[i])@.wf(),
        _ => true,
    }
}

fn copy_reply(r: &Option<ShardReply>) -> (c: Option<ShardReply>)
    ensures
        opt_reply(c) == opt_reply(*r),
{
    match r {
        Some(x) => Some(ShardReply { status: x.status, body: x.body.clone() }),
        None => None,
    }
}

fn trouble_of(o: &ShardQueryOutcome, sorted: bool) -> (r: Option<Reply>)
    ensures
        (match r {
            Some(x) => Some(x@),
            None => None,
        }) == (if sorted { sorted_trouble(*o) } else { trouble(*o) }),
{
    match o {
        ShardQueryOutcome::Page(p) => if sorted && p.keys.len() != p.items.len() {
            Some(text_reply(502, "Shard returned a sorted page without keys"))
        } else {
            None
        },
        ShardQueryOutcome::Absent => None,
        ShardQueryOutcome::NoPrimary(r) => Some(refusal_response(copy_reply(r))),
        ShardQueryOutcome::Failed => Some(text_reply(502, "Shard query failed")),
        ShardQueryOutcome::Lost => Some(text_reply(502, "Shard query task failed")),
    }
}

fn append_projected(out: Vec<Json>, docs: &Vec<Json>, fields: &[String]) -> (r: Vec<Json>)
    requires
        forall|i: int| 0 <= i < out@.len() ==> (#[trigger] out@[i])@.wf(),
        forall|i: int| 0 <= i < docs@.len() ==> (#[trigger] docs@[i])@.wf(),
    ensures
        values(r@) == values(out@) + all_projected(values(docs@), texts(fields@)),
        forall|i: int| 0 <= i < r@.len() ==> (#[trigger] r@[i])@.wf(),
{
    let ghost start = values(out@);
    let ghost all = all_projected(values(docs@), texts(fields@));
    let mut r = out;
    let mut i: usize = 0;
    assert(start + all.take(0) =~= start);
    while i < docs.len()
        invariant
            all == all_projected(values(docs@), texts(fields@)),
            forall|i: int| 0 <= i < docs@.len() ==> (#[trigger] docs@[i])@.wf(),
            i <= docs@.len(),
            values(r@) == start + all.take(i as int),
            forall|i: int| 0 <= i < r@.len() ==> (#[trigger] r@[i])@.wf(),
        decreases docs@.len() - i,
    {
        let ghost before = values(r@);
        proof {
            lemma_take_grows(all, i as int);
            assert(values(docs@)[i as int] == docs@[i as int]@);
        }
        let x = project(&docs[i], fields);
        let ghost xv = x@;
        r.push(x);
        assert(values(r@) =~= before.push(xv));
        assert(values(r@) =~= start + all.take(i + 1));
        i += 1;
    }
    proof {
        lemma_take_all(all);
    }
    r
}

fn append_texts(out: Vec<String>, more: &Vec<String>) -> (r: Vec<String>)
    ensures
        texts(r@) == texts(out@) + texts(more@),
{
    let ghost start = texts(out@);
    let mut r = out;
    let mut i: usize = 0;
    assert(start + texts(more@).take(0) =~= start);
    while i < more.len()
        invariant
            i <= more@.len(),
            texts(r@) == start + texts(more@).take(i as int),
        decreases more@.len() - i,
    {
        let ghost before = texts(r@);
        proof {
            lemma_take_grows(texts(more@), i as int);
        }
        r.push(more[i].clone());
        assert(texts(r@) =~= before.push(more@[i as int]@));
        assert(texts(r@) =~= start + texts(more@).take(i + 1));
        i += 1;
    }
    proof {
        lemma_take_all(texts(more@));
    }
    r
}

/// What an unsorted query is answered.
pub open spec fn page_ok(
    collection: Seq<char>,
    v: Seq<(String, ShardQueryOutcome)>,
    kept: Map<Seq<char>, Option<Seq<char>>>,
    ring: u64,
    fields: Seq<Seq<char>>,
    mode: KeyMode,
    r: Result<ClusterPage, Reply>,
) -> bool {
    let n = v.len() as int;
    let positions = positions_after(kept, v, n);
    let keys = all_keys(v, n);
    let rows = all_items(v, fields, n);
    let refused = if first_trouble(v, false, n) is Some {
        first_trouble(v, false, n)
    } else if pages(v, n) == 0 && gone(v, n) > 0 && positions == Map::<Seq<char>, Option<Seq<char>>>::empty() {
        Some(absent(collection))
    } else if mode == KeyMode::Embedded && keys.len() != rows.len() {
        Some(told(502, "Shard returned a page without keys"@))
    } else {
        None
    };
    match r {
        Err(e) => refused == Some(e@),
        Ok(p) => {
            &&& refused is None
            &&& values(p.items@) == shaped(mode, keys, rows)
            &&& texts(p.keys@) == shown(mode, keys)
            &&& opt_cursor(p.next) == (if positions == Map::<Seq<char>, Option<Seq<char>>>::empty() {
                None
            } else {
                Some(ShardCursorView { ring, positions })
            })
        },
    }
}

/// Puts an unsorted page together from what the groups answered. `kept` is what the plan carried over
/// for the groups that were not asked.
pub fn router_query(
    collection: &str,
    outcomes: &Vec<(String, ShardQueryOutcome)>,
    kept: NameMap<Option<String>>,
    ring: u64,
    fields: &[String],
    mode: KeyMode,
) -> (r: Result<ClusterPage, Reply>)
    requires
        forall|i: int| 0 <= i < outcomes@.len() ==> readable(#[trigger] outcomes@[i].1),
    ensures
        page_ok(collection@, outcomes@, positions_view(kept@), ring, texts(fields@), mode, r),
{
    let ghost start = positions_view(kept@);
    let ghost fs = texts(fields@);
    let mut positions = kept;
    let mut rows: Vec<Json> = Vec::new();
    let mut keys: Vec<String> = Vec::new();
    let mut present: usize = 0;
    let mut missing: usize = 0;
    let mut i: usize = 0;
    assert(values(rows@) =~= all_items(outcomes@, fs, 0));
    assert(texts(keys@) =~= all_keys(outcomes@, 0));
    while i < outcomes.len()
        invariant
            fs == texts(fields@),
            forall|i: int| 0 <= i < outcomes@.len() ==> readable(#[trigger] outcomes@[i].1),
            i <= outcomes@.len(),
            first_trouble(outcomes@, false, i as int) is None,
            values(rows@) == all_items(outcomes@, fs, i as int),
            forall|k: int| 0 <= k < rows@.len() ==> (#[trigger] rows@[k])@.wf(),
            texts(keys@) == all_keys(outcomes@, i as int),
            positions_view(positions@) == positions_after(start, outcomes@, i as int),
            present <= i,
            missing <= i,
            present == pages(outcomes@, i as int),
            missing == gone(outcomes@, i as int),
        decreases outcomes@.len() - i,
    {
        let o = &outcomes[i].1;
        if let Some(t) = trouble_of(o, false) {
            proof {
                lemma_trouble_stays(outcomes@, false, i + 1, outcomes@.len() as int);
            }
            return Err(t);
        }
        match o {
            ShardQueryOutcome::Page(p) => {
                present = present + 1;
                assert(readable(outcomes@[i as int].1));
                rows = append_projected(rows, &p.items, fields);
                keys = append_texts(keys, &p.keys);
                if let Some(c) = &p.next_cursor {
                    let ghost before = positions@;
                    let at: Option<String> = Some(c.clone());
                    positions.insert(outcomes[i].0.clone(), at);
                    assert(positions_view(positions@) =~= positions_view(before).insert(outcomes@[i as int].0@, Some(c@)));
                }
            },
            ShardQueryOutcome::Absent => {
                missing = missing + 1;
            },
            _ => {},
        }
        i += 1;
    }
    let drained = positions.len() == 0;
    proof {
        lemma_no_positions(&positions);
    }
    if present == 0 && missing > 0 && drained {
        return Err(collection_absent_response(collection));
    }
    if mode == KeyMode::Embedded && keys.len() != rows.len() {
        return Err(text_reply(502, "Shard returned a page without keys"));
    }
    let next = if drained { None } else { Some(ShardCursor { ring, positions }) };
    let items = shape(mode, &keys, rows);
    let keys = if mode == KeyMode::Parallel {
        keys
    } else {
        let none: Vec<String> = Vec::new();
        assert(texts(none@) =~= Seq::empty());
        none
    };
    Ok(ClusterPage { items, keys, next })
}

proof fn lemma_no_positions(m: &NameMap<Option<String>>)
    requires
        m.keyed(),
    ensures
        m.keys().len() == 0 <==> positions_view(m@) == Map::<Seq<char>, Option<Seq<char>>>::empty(),
{
    if m.keys().len() == 0 {
        assert(m@.dom() =~= Set::empty());
        assert(positions_view(m@) =~= Map::<Seq<char>, Option<Seq<char>>>::empty());
    } else {
        assert(m.keys().to_set().contains(m.keys()[0]));
        assert(positions_view(m@).dom().contains(m.keys()[0]));
    }
}

proof fn lemma_trouble_stays(v: Seq<(String, ShardQueryOutcome)>, sorted: bool, i: int, n: int)
    requires
        0 <= i <= n,
        first_trouble(v, sorted, i) is Some,
    ensures
        first_trouble(v, sorted, n) == first_trouble(v, sorted, i),
    decreases n,
{
    if i < n {
        lemma_trouble_stays(v, sorted, i, n - 1);
    }
}

/// A scan goes on until every shard is done: what the plan carried over is in the next cursor, and so
/// is every shard whose page names a next row.
pub proof fn law_no_position_is_lost(kept: Map<Seq<char>, Option<Seq<char>>>, v: Seq<(String, ShardQueryOutcome)>, n: int, k: Seq<char>)
    requires
        0 <= n <= v.len(),
        kept.dom().contains(k) || exists|i: int| 0 <= i < n && names_a_next_row(#[trigger] v[i], k),
    ensures
        positions_after(kept, v, n).dom().contains(k),
    decreases n,
{
    if n > 0 {
        if kept.dom().contains(k) || exists|i: int| 0 <= i < n - 1 && names_a_next_row(#[trigger] v[i], k) {
            law_no_position_is_lost(kept, v, n - 1, k);
        }
    }
}

/// Whether an outcome is a page of this shard with more to come.
pub open spec fn names_a_next_row(o: (String, ShardQueryOutcome), k: Seq<char>) -> bool {
    o.0@ == k && match o.1 {
        ShardQueryOutcome::Page(p) => p.next_cursor is Some,
        _ => false,
    }
}

// ---- Sorted pages ----

/// A row of a sorted page.
#[derive(Debug, PartialEq, Eq)]
pub struct SortedRow {
    pub key: String,
    pub value: Json,
}

pub ghost struct SortedRowView {
    pub key: Seq<char>,
    pub value: JsonView,
}

impl View for SortedRow {
    type V = SortedRowView;

    open spec fn view(&self) -> SortedRowView {
        SortedRowView { key: self.key@, value: self.value@ }
    }
}

pub open spec fn rows_view(v: Seq<SortedRow>) -> Seq<SortedRowView> {
    Seq::new(v.len(), |i: int| v[i]@)
}

pub open spec fn lists_view(v: Seq<Vec<SortedRow>>) -> Seq<Seq<SortedRowView>> {
    Seq::new(v.len(), |i: int| rows_view(v[i]@))
}

/// The rows of a page with their keys.
pub open spec fn keyed_rows(p: QueryPage) -> Seq<SortedRowView> {
    Seq::new(p.items@.len(), |i: int| SortedRowView { key: p.keys@[i]@, value: p.items@[i]@ })
}

/// The lists of the first `n` outcomes.
pub open spec fn lists(v: Seq<(String, ShardQueryOutcome)>, n: int) -> Seq<Seq<SortedRowView>>
    decreases n,
{
    if n <= 0 {
        Seq::empty()
    } else {
        let before = lists(v, n - 1);
        match v[n - 1].1 {
            ShardQueryOutcome::Page(p) => before.push(keyed_rows(p)),
            _ => before,
        }
    }
}

/// How many rows the first `n` outcomes hold.
pub open spec fn received(v: Seq<(String, ShardQueryOutcome)>, n: int) -> int
    decreases n,
{
    if n <= 0 {
        0
    } else {
        received(v, n - 1) + match v[n - 1].1 {
            ShardQueryOutcome::Page(p) => p.items@.len() as int,
            _ => 0,
        }
    }
}

/// Whether a shard has more rows than its page, among the first `n` outcomes.
pub open spec fn more_to_come(v: Seq<(String, ShardQueryOutcome)>, n: int) -> bool
    decreases n,
{
    n > 0 && (more_to_come(v, n - 1) || match v[n - 1].1 {
        ShardQueryOutcome::Page(p) => p.next_cursor is Some,
        _ => false,
    })
}

/// The rows that the groups answered a sorted query with, to be merged.
pub struct SortedParts {
    pub lists: Vec<Vec<SortedRow>>,
    pub received: u128,
    pub shard_has_more: bool,
}

fn rows_with_keys(p: &QueryPage) -> (r: Vec<SortedRow>)
    requires
        p.keys@.len() == p.items@.len(),
    ensures
        rows_view(r@) == keyed_rows(*p),
{
    let mut out: Vec<SortedRow> = Vec::new();
    let mut i: usize = 0;
    while i < p.items.len()
        invariant
            p.keys@.len() == p.items@.len(),
            i <= p.items@.len(),
            out@.len() == i,
            forall|k: int| 0 <= k < i ==> (#[trigger] out@[k])@ == keyed_rows(*p)[k],
        decreases p.items@.len() - i,
    {
        out.push(SortedRow { key: p.keys[i].clone(), value: p.items[i].clone() });
        i += 1;
    }
    assert(rows_view(out@) =~= keyed_rows(*p));
    out
}

/// Takes the rows of a sorted query from what the groups answered.
pub fn gather_sorted(collection: &str, outcomes: &Vec<(String, ShardQueryOutcome)>) -> (r: Result<SortedParts, Reply>)
    ensures
        ({
            let n = outcomes@.len() as int;
            let t = first_trouble(outcomes@, true, n);
            let nowhere = pages(outcomes@, n) == 0 && gone(outcomes@, n) > 0;
            match r {
                Err(e) => if t is Some { t == Some(e@) } else { nowhere && e@ == absent(collection@) },
                Ok(p) => {
                    &&& t is None && !nowhere
                    &&& lists_view(p.lists@) == lists(outcomes@, n)
                    &&& p.received == received(outcomes@, n)
                    &&& p.shard_has_more == more_to_come(outcomes@, n)
                },
            }
        }),
{
    let mut all: Vec<Vec<SortedRow>> = Vec::new();
    let mut total: u128 = 0;
    let mut more = false;
    let mut present: usize = 0;
    let mut missing: usize = 0;
    let mut i: usize = 0;
    assert(lists_view(all@) =~= lists(outcomes@, 0));
    while i < outcomes.len()
        invariant
            i <= outcomes@.len(),
            first_trouble(outcomes@, true, i as int) is None,
            lists_view(all@) == lists(outcomes@, i as int),
            total == received(outcomes@, i as int),
            total <= i * 0xffff_ffff_ffff_ffff,
            more == more_to_come(outcomes@, i as int),
            present <= i,
            missing <= i,
            present == pages(outcomes@, i as int),
            missing == gone(outcomes@, i as int),
        decreases outcomes@.len() - i,
    {
        let o = &outcomes[i].1;
        if let Some(t) = trouble_of(o, true) {
            proof {
                lemma_trouble_stays(outcomes@, true, i + 1, outcomes@.len() as int);
            }
            return Err(t);
        }
        match o {
            ShardQueryOutcome::Page(p) => {
                present = present + 1;
                if p.next_cursor.is_some() {
                    more = true;
                }
                total = total + p.items.len() as u128;
                let ghost before = lists_view(all@);
                let rows = rows_with_keys(p);
                let ghost rv = rows_view(rows@);
                all.push(rows);
                assert(lists_view(all@) =~= before.push(rv));
            },
            ShardQueryOutcome::Absent => {
                missing = missing + 1;
            },
            _ => {},
        }
        i += 1;
    }
    if present == 0 && missing > 0 {
        return Err(collection_absent_response(collection));
    }
    Ok(SortedParts { lists: all, received: total, shard_has_more: more })
}

/// A sorted page of the cluster.
pub struct SortedPage {
    pub items: Vec<Json>,
    pub keys: Vec<String>,
    /// Whether the scan goes on after the last merged row.
    pub goes_on: bool,
}

pub open spec fn row_keys(v: Seq<SortedRowView>) -> Seq<Seq<char>> {
    Seq::new(v.len(), |i: int| v[i].key)
}

pub open spec fn row_values(v: Seq<SortedRowView>) -> Seq<JsonView> {
    Seq::new(v.len(), |i: int| v[i].value)
}

/// The page of the merged rows. Rows this page did not reach are either past a shard's own page or past
/// the merge cut.
pub fn finish_sorted(merged: &Vec<SortedRow>, received: u128, shard_has_more: bool, fields: &[String], mode: KeyMode) -> (r: SortedPage)
    requires
        forall|i: int| 0 <= i < merged@.len() ==> (#[trigger] merged@[i]).value@.wf(),
    ensures
        ({
            let keys = row_keys(rows_view(merged@));
            let rows = all_projected(row_values(rows_view(merged@)), texts(fields@));
            &&& values(r.items@) == shaped(mode, keys, rows)
            &&& texts(r.keys@) == shown(mode, keys)
            &&& r.goes_on == (merged@.len() > 0 && (shard_has_more || received > merged@.len()))
        }),
{
    let ghost kv = row_keys(rows_view(merged@));
    let ghost pv = all_projected(row_values(rows_view(merged@)), texts(fields@));
    let mut keys: Vec<String> = Vec::new();
    let mut rows: Vec<Json> = Vec::new();
    let mut i: usize = 0;
    while i < merged.len()
        invariant
            kv == row_keys(rows_view(merged@)),
            pv == all_projected(row_values(rows_view(merged@)), texts(fields@)),
            forall|i: int| 0 <= i < merged@.len() ==> (#[trigger] merged@[i]).value@.wf(),
            i <= merged@.len(),
            keys@.len() == i,
            rows@.len() == i,
            forall|k: int| 0 <= k < i ==> (#[trigger] keys@[k])@ == kv[k],
            forall|k: int| 0 <= k < i ==> (#[trigger] rows@[k])@ == pv[k] && rows@[k]@.wf(),
        decreases merged@.len() - i,
    {
        assert(merged@[i as int].value@.wf());
        keys.push(merged[i].key.clone());
        rows.push(project(&merged[i].value, fields));
        i += 1;
    }
    assert(texts(keys@) =~= kv);
    assert(values(rows@) =~= pv);
    let goes_on = merged.len() > 0 && (shard_has_more || received > merged.len() as u128);
    let items = shape(mode, &keys, rows);
    let keys = if mode == KeyMode::Parallel {
        keys
    } else {
        let none: Vec<String> = Vec::new();
        assert(texts(none@) =~= Seq::empty());
        none
    };
    SortedPage { items, keys, goes_on }
}

// ---- Aggregation ----

/// A number that may be given, as it is written.
pub open spec fn shown_count(n: Option<usize>) -> Option<Seq<char>> {
    match n {
        Some(n) => Some(decimal_of(n as nat)),
        None => None,
    }
}

/// A choice that may be given, as it is written.
pub open spec fn shown_choice(b: Option<bool>) -> Option<Seq<char>> {
    match b {
        Some(b) => Some(if b { "true"@ } else { "false"@ }),
        None => None,
    }
}

/// What every shard is asked to aggregate.
pub open spec fn aggregate_question(p: AggregateParams, pref: ReadPreference) -> Seq<(Seq<char>, Seq<char>)> {
    Seq::<(Seq<char>, Seq<char>)>::empty() + given("start"@, opt_text(p.start)) + given("end"@, opt_text(p.end)) + given(
        "filter"@,
        opt_text(p.filter),
    ) + given("group"@, opt_text(p.group)) + given("metrics"@, opt_text(p.metrics)) + given(
        "max_docs"@,
        shown_count(p.max_docs),
    ) + given("partial"@, shown_choice(p.partial)) + given("read"@, forwarded(pref))
}

/// What every shard is asked to aggregate: the same filter and the same metrics, so the merge is over
/// groups rather than over rows. The budget is each shard's own, and so is the leave to stop at it.
pub fn aggregate_query(p: &AggregateParams, pref: &ReadPreference) -> (r: Vec<(String, String)>)
    ensures
        pairs_view(r@) == aggregate_question(*p, *pref),
{
    let q: Vec<(String, String)> = Vec::new();
    assert(pairs_view(q@) =~= Seq::empty());
    let q = self::add(q, "start", borrowed(&p.start));
    let q = self::add(q, "end", borrowed(&p.end));
    let q = self::add(q, "filter", borrowed(&p.filter));
    let q = self::add(q, "group", borrowed(&p.group));
    let q = self::add(q, "metrics", borrowed(&p.metrics));
    let budget: Option<String> = match p.max_docs {
        Some(n) => Some(decimal(n as u64)),
        None => None,
    };
    let q = self::add(q, "max_docs", borrowed(&budget));
    let q = match p.partial {
        Some(true) => self::add(q, "partial", Some("true")),
        Some(false) => self::add(q, "partial", Some("false")),
        None => self::add(q, "partial", None),
    };
    self::add(q, "read", forwarded_read_pref(pref))
}

/// What one shard answered an aggregation with: a shard folds its whole range or it contributes
/// nothing.
pub enum ShardAggregateOutcome<T> {
    Result(T),
    NoPrimary(Option<ShardReply>),
    Absent,
    Refused(ShardReply),
    Failed,
    Lost,
}

/// What an outcome that is no result answers the client, if it ends the aggregation. Partial
/// aggregates cannot be merged into an honest total, so a lost task is an error.
pub open spec fn aggregate_trouble<T>(o: ShardAggregateOutcome<T>) -> Option<ReplyView> {
    match o {
        ShardAggregateOutcome::Result(_) => None,
        ShardAggregateOutcome::Absent => None,
        ShardAggregateOutcome::NoPrimary(r) => Some(refusal(opt_reply(r))),
        ShardAggregateOutcome::Refused(r) => Some(answered(400, r@.content())),
        ShardAggregateOutcome::Failed => Some(told(502, "Shard aggregation failed"@)),
        ShardAggregateOutcome::Lost => Some(told(502, "Shard aggregation task failed"@)),
    }
}

/// What the outcomes from position `i` on answer the client, if one of them ends the aggregation.
pub open spec fn first_aggregate_trouble<T>(v: Seq<ShardAggregateOutcome<T>>) -> Option<ReplyView>
    decreases v.len(),
{
    if v.len() == 0 {
        None
    } else if aggregate_trouble(v[0]) is Some {
        aggregate_trouble(v[0])
    } else {
        first_aggregate_trouble(v.skip(1))
    }
}

/// The results among some outcomes, in order.
pub open spec fn results<T>(v: Seq<ShardAggregateOutcome<T>>) -> Seq<T>
    decreases v.len(),
{
    if v.len() == 0 {
        Seq::empty()
    } else {
        match v[0] {
            ShardAggregateOutcome::Result(t) => seq![t] + results(v.skip(1)),
            _ => results(v.skip(1)),
        }
    }
}

pub open spec fn any_absent<T>(v: Seq<ShardAggregateOutcome<T>>) -> bool {
    exists|i: int| 0 <= i < v.len() && (#[trigger] v[i]) is Absent
}

/// The results to merge, or what the client is answered instead.
pub fn router_aggregate<T>(collection: &str, outcomes: Vec<ShardAggregateOutcome<T>>) -> (r: Result<Vec<T>, Reply>)
    ensures
        ({
            let t = first_aggregate_trouble(outcomes@);
            let nowhere = results(outcomes@).len() == 0 && any_absent(outcomes@);
            match r {
                Err(e) => if t is Some { t == Some(e@) } else { nowhere && e@ == absent(collection@) },
                Ok(p) => t is None && !nowhere && p@ == results(outcomes@),
            }
        }),
{
    let ghost all = outcomes@;
    let mut rest = outcomes;
    let mut parts: Vec<T> = Vec::new();
    let mut missing = false;
    assert(parts@ + results(rest@) =~= results(all));
    while rest.len() > 0
        invariant
            all == outcomes@,
            parts@ + results(rest@) == results(all),
            first_aggregate_trouble(rest@) == first_aggregate_trouble(all),
            any_absent(all) == (missing || any_absent(rest@)),
        decreases rest@.len(),
    {
        let ghost before = rest@;
        let o = rest.remove(0);
        proof {
            assert(rest@ =~= before.skip(1));
            lemma_any_absent(before);
        }
        match o {
            ShardAggregateOutcome::Result(t) => {
                let ghost had = parts@;
                parts.push(t);
                assert(parts@ + results(rest@) =~= had + (seq![t] + results(rest@)));
            },
            ShardAggregateOutcome::Absent => {
                missing = true;
            },
            ShardAggregateOutcome::NoPrimary(r) => return Err(refusal_response(r)),
            ShardAggregateOutcome::Refused(r) => return Err(json_reply(400, r.into_content())),
            ShardAggregateOutcome::Failed => return Err(text_reply(502, "Shard aggregation failed")),
            ShardAggregateOutcome::Lost => return Err(text_reply(502, "Shard aggregation task failed")),
        }
    }
    proof {
        assert(parts@ + results(rest@) =~= parts@);
        assert(!any_absent(rest@));
    }
    if parts.len() == 0 && missing {
        return Err(collection_absent_response(collection));
    }
    Ok(parts)
}

proof fn lemma_any_absent<T>(v: Seq<ShardAggregateOutcome<T>>)
    requires
        v.len() > 0,
    ensures
        any_absent(v) == (v[0] is Absent || any_absent(v.skip(1))),
{
    let rest = v.skip(1);
    if any_absent(v) && !(v[0] is Absent) {
        let i = choose|i: int| 0 <= i < v.len() && (#[trigger] v[i]) is Absent;
        assert(rest[i - 1] is Absent);
    }
    if any_absent(rest) {
        let i = choose|i: int| 0 <= i < rest.len() && (#[trigger] rest[i]) is Absent;
        assert(v[i + 1] is Absent);
    }
}

// ---- Laws of a fan-out ----

/// What a list with another behind it holds.
pub proof fn lemma_behind<T>(a: Seq<T>, b: Seq<T>, x: T)
    ensures
        (a + b).contains(x) <==> a.contains(x) || b.contains(x),
{
    lemma_joined_hold::<T>();
}

/// What a parameter that may be given holds.
pub proof fn lemma_given_holds(name: Seq<char>, v: Option<Seq<char>>, x: (Seq<char>, Seq<char>))
    ensures
        given(name, v).contains(x) <==> v == Some(x.1) && x.0 == name,
{
    if v is Some {
        assert(given(name, v)[0] == (name, v->0));
    }
}

proof fn lemma_query_terms()
    ensures
        "limit"@ != "start"@,
        "limit"@ != "end"@,
        "limit"@ != "filter"@,
        "limit"@ != "sort"@,
        "limit"@ != "cursor"@,
        "limit"@ != "read"@,
        "limit"@ != "keys"@,
        "start"@ != "end"@,
        "start"@ != "filter"@,
        "start"@ != "sort"@,
        "start"@ != "cursor"@,
        "start"@ != "read"@,
        "start"@ != "keys"@,
        "end"@ != "filter"@,
        "end"@ != "sort"@,
        "end"@ != "cursor"@,
        "end"@ != "read"@,
        "end"@ != "keys"@,
        "filter"@ != "sort"@,
        "filter"@ != "cursor"@,
        "filter"@ != "read"@,
        "filter"@ != "keys"@,
        "sort"@ != "cursor"@,
        "sort"@ != "read"@,
        "sort"@ != "keys"@,
        "cursor"@ != "read"@,
        "cursor"@ != "keys"@,
        "read"@ != "keys"@,
{
    reveal_strlit("limit");
    assert("limit"@.len() == 5);
    reveal_strlit("start");
    assert("start"@.len() == 5);
    reveal_strlit("end");
    assert("end"@.len() == 3);
    reveal_strlit("filter");
    assert("filter"@.len() == 6);
    reveal_strlit("sort");
    assert("sort"@.len() == 4);
    reveal_strlit("cursor");
    assert("cursor"@.len() == 6);
    reveal_strlit("read");
    assert("read"@.len() == 4);
    reveal_strlit("keys");
    assert("keys"@.len() == 4);
    assert("limit"@[0] != "start"@[0]);
    assert("filter"@[0] != "cursor"@[0]);
    assert("sort"@[0] != "read"@[0]);
    assert("sort"@[0] != "keys"@[0]);
    assert("read"@[0] != "keys"@[0]);
}

proof fn lemma_aggregate_terms()
    ensures
        "start"@ != "end"@,
        "start"@ != "filter"@,
        "start"@ != "group"@,
        "start"@ != "metrics"@,
        "start"@ != "max_docs"@,
        "start"@ != "partial"@,
        "start"@ != "read"@,
        "end"@ != "filter"@,
        "end"@ != "group"@,
        "end"@ != "metrics"@,
        "end"@ != "max_docs"@,
        "end"@ != "partial"@,
        "end"@ != "read"@,
        "filter"@ != "group"@,
        "filter"@ != "metrics"@,
        "filter"@ != "max_docs"@,
        "filter"@ != "partial"@,
        "filter"@ != "read"@,
        "group"@ != "metrics"@,
        "group"@ != "max_docs"@,
        "group"@ != "partial"@,
        "group"@ != "read"@,
        "metrics"@ != "max_docs"@,
        "metrics"@ != "partial"@,
        "metrics"@ != "read"@,
        "max_docs"@ != "partial"@,
        "max_docs"@ != "read"@,
        "partial"@ != "read"@,
{
    reveal_strlit("start");
    assert("start"@.len() == 5);
    reveal_strlit("end");
    assert("end"@.len() == 3);
    reveal_strlit("filter");
    assert("filter"@.len() == 6);
    reveal_strlit("group");
    assert("group"@.len() == 5);
    reveal_strlit("metrics");
    assert("metrics"@.len() == 7);
    reveal_strlit("max_docs");
    assert("max_docs"@.len() == 8);
    reveal_strlit("partial");
    assert("partial"@.len() == 7);
    reveal_strlit("read");
    assert("read"@.len() == 4);
    assert("start"@[0] != "group"@[0]);
    assert("metrics"@[0] != "partial"@[0]);
}

proof fn lemma_question_holds(
    p: QueryParams,
    rows: int,
    after: Option<Seq<char>>,
    sorted: bool,
    pref: ReadPreference,
    x: (Seq<char>, Seq<char>),
)
    ensures
        question(p, rows, after, sorted, pref).contains(x) <==> {
            ||| x.0 == "limit"@ && x.1 == decimal_of(rows as nat)
            ||| x.0 == "start"@ && p.start is Some && p.start->0@ == x.1
            ||| x.0 == "end"@ && p.end is Some && p.end->0@ == x.1
            ||| x.0 == "filter"@ && p.filter is Some && p.filter->0@ == x.1
            ||| x.0 == "sort"@ && p.sort is Some && p.sort->0@ == x.1
            ||| x.0 == "cursor"@ && after == Some(x.1)
            ||| x.0 == "read"@ && ((pref is Primary && x.1 == "primary"@) || (pref is Quorum && x.1 == "quorum"@))
            ||| x.0 == "keys"@ && x.1 == "true"@ && (sorted || (p.keys is Some && p.keys->0 != KeyMode::Omitted))
            ||| x.0 == "cursor"@ && sorted && p.cursor is Some && p.cursor->0@ == x.1
        },
{
    let limit = ("limit"@, decimal_of(rows as nat));
    let s0 = seq![limit];
    assert(s0[0] == limit);
    let parts = seq![
        given("start"@, opt_text(p.start)),
        given("end"@, opt_text(p.end)),
        given("filter"@, opt_text(p.filter)),
        given("sort"@, opt_text(p.sort)),
        given("cursor"@, after),
        given("read"@, forwarded(pref)),
        flag(sorted || wants_keys(p), "keys"@, "true"@),
        given("cursor"@, if sorted { opt_text(p.cursor) } else { None }),
    ];
    let s1 = s0 + parts[0];
    let s2 = s1 + parts[1];
    let s3 = s2 + parts[2];
    let s4 = s3 + parts[3];
    let s5 = s4 + parts[4];
    let s6 = s5 + parts[5];
    let s7 = s6 + parts[6];
    let s8 = s7 + parts[7];
    lemma_behind(s0, parts[0], x);
    lemma_behind(s1, parts[1], x);
    lemma_behind(s2, parts[2], x);
    lemma_behind(s3, parts[3], x);
    lemma_behind(s4, parts[4], x);
    lemma_behind(s5, parts[5], x);
    lemma_behind(s6, parts[6], x);
    lemma_behind(s7, parts[7], x);
    lemma_given_holds("start"@, opt_text(p.start), x);
    lemma_given_holds("end"@, opt_text(p.end), x);
    lemma_given_holds("filter"@, opt_text(p.filter), x);
    lemma_given_holds("sort"@, opt_text(p.sort), x);
    lemma_given_holds("cursor"@, after, x);
    lemma_given_holds("read"@, forwarded(pref), x);
    lemma_given_holds("keys"@, if sorted || wants_keys(p) { Some("true"@) } else { None }, x);
    assert(parts[6] =~= given("keys"@, if sorted || wants_keys(p) { Some("true"@) } else { None }));
    lemma_given_holds("cursor"@, if sorted { opt_text(p.cursor) } else { None }, x);
    assert(question(p, rows, after, sorted, pref) == s8);
}

/// Every term of a query reaches every shard as it came, sorted or not and whatever else is asked for:
/// the question holds a range, a filter or a sort exactly where the request does, with its own value.
/// Beside them stand the shard's share, where it goes on, the preference that travels, and whether keys
/// are wanted; and nothing else.
pub proof fn law_a_question_carries_every_term(
    p: QueryParams,
    rows: int,
    after: Option<Seq<char>>,
    sorted: bool,
    pref: ReadPreference,
    name: Seq<char>,
    v: Seq<char>,
)
    ensures
        ({
            let q = question(p, rows, after, sorted, pref);
            &&& q.contains(("start"@, v)) <==> p.start is Some && p.start->0@ == v
            &&& q.contains(("end"@, v)) <==> p.end is Some && p.end->0@ == v
            &&& q.contains(("filter"@, v)) <==> p.filter is Some && p.filter->0@ == v
            &&& q.contains(("sort"@, v)) <==> p.sort is Some && p.sort->0@ == v
            &&& q.contains(("limit"@, v)) <==> v == decimal_of(rows as nat)
            &&& q.contains(("cursor"@, v)) <==> after == Some(v) || (sorted && p.cursor is Some && p.cursor->0@ == v)
            &&& q.contains(("keys"@, v)) <==> v == "true"@ && (sorted || (p.keys is Some && p.keys->0 != KeyMode::Omitted))
            &&& q.contains(("read"@, v)) <==> (pref is Primary && v == "primary"@) || (pref is Quorum && v == "quorum"@)
            &&& q.contains((name, v)) ==> name == "start"@ || name == "end"@ || name == "filter"@ || name == "sort"@ || name == "limit"@
                || name == "cursor"@ || name == "keys"@ || name == "read"@
        }),
{
    lemma_query_terms();
    lemma_question_holds(p, rows, after, sorted, pref, ("start"@, v));
    lemma_question_holds(p, rows, after, sorted, pref, ("end"@, v));
    lemma_question_holds(p, rows, after, sorted, pref, ("filter"@, v));
    lemma_question_holds(p, rows, after, sorted, pref, ("sort"@, v));
    lemma_question_holds(p, rows, after, sorted, pref, ("limit"@, v));
    lemma_question_holds(p, rows, after, sorted, pref, ("cursor"@, v));
    lemma_question_holds(p, rows, after, sorted, pref, ("keys"@, v));
    lemma_question_holds(p, rows, after, sorted, pref, ("read"@, v));
    lemma_question_holds(p, rows, after, sorted, pref, (name, v));
}

proof fn lemma_aggregate_holds(p: AggregateParams, pref: ReadPreference, x: (Seq<char>, Seq<char>))
    ensures
        aggregate_question(p, pref).contains(x) <==> {
            ||| x.0 == "start"@ && p.start is Some && p.start->0@ == x.1
            ||| x.0 == "end"@ && p.end is Some && p.end->0@ == x.1
            ||| x.0 == "filter"@ && p.filter is Some && p.filter->0@ == x.1
            ||| x.0 == "group"@ && p.group is Some && p.group->0@ == x.1
            ||| x.0 == "metrics"@ && p.metrics is Some && p.metrics->0@ == x.1
            ||| x.0 == "max_docs"@ && p.max_docs is Some && x.1 == decimal_of(p.max_docs->0 as nat)
            ||| x.0 == "partial"@ && p.partial is Some && x.1 == (if p.partial->0 { "true"@ } else { "false"@ })
            ||| x.0 == "read"@ && ((pref is Primary && x.1 == "primary"@) || (pref is Quorum && x.1 == "quorum"@))
        },
{
    let s0 = Seq::<(Seq<char>, Seq<char>)>::empty();
    let parts = seq![
        given("start"@, opt_text(p.start)),
        given("end"@, opt_text(p.end)),
        given("filter"@, opt_text(p.filter)),
        given("group"@, opt_text(p.group)),
        given("metrics"@, opt_text(p.metrics)),
        given("max_docs"@, shown_count(p.max_docs)),
        given("partial"@, shown_choice(p.partial)),
        given("read"@, forwarded(pref)),
    ];
    let s1 = s0 + parts[0];
    let s2 = s1 + parts[1];
    let s3 = s2 + parts[2];
    let s4 = s3 + parts[3];
    let s5 = s4 + parts[4];
    let s6 = s5 + parts[5];
    let s7 = s6 + parts[6];
    let s8 = s7 + parts[7];
    lemma_behind(s0, parts[0], x);
    lemma_behind(s1, parts[1], x);
    lemma_behind(s2, parts[2], x);
    lemma_behind(s3, parts[3], x);
    lemma_behind(s4, parts[4], x);
    lemma_behind(s5, parts[5], x);
    lemma_behind(s6, parts[6], x);
    lemma_behind(s7, parts[7], x);
    lemma_given_holds("start"@, opt_text(p.start), x);
    lemma_given_holds("end"@, opt_text(p.end), x);
    lemma_given_holds("filter"@, opt_text(p.filter), x);
    lemma_given_holds("group"@, opt_text(p.group), x);
    lemma_given_holds("metrics"@, opt_text(p.metrics), x);
    lemma_given_holds("max_docs"@, shown_count(p.max_docs), x);
    lemma_given_holds("partial"@, shown_choice(p.partial), x);
    lemma_given_holds("read"@, forwarded(pref), x);
    assert(aggregate_question(p, pref) == s8);
}

/// Every term of an aggregation reaches every shard as it came: what is folded is what the request's
/// range and filter select, grouped and measured as it says, within its budget.
pub proof fn law_an_aggregate_question_carries_every_term(p: AggregateParams, pref: ReadPreference, name: Seq<char>, v: Seq<char>)
    ensures
        ({
            let q = aggregate_question(p, pref);
            &&& q.contains(("start"@, v)) <==> p.start is Some && p.start->0@ == v
            &&& q.contains(("end"@, v)) <==> p.end is Some && p.end->0@ == v
            &&& q.contains(("filter"@, v)) <==> p.filter is Some && p.filter->0@ == v
            &&& q.contains(("group"@, v)) <==> p.group is Some && p.group->0@ == v
            &&& q.contains(("metrics"@, v)) <==> p.metrics is Some && p.metrics->0@ == v
            &&& q.contains(("max_docs"@, v)) <==> p.max_docs is Some && v == decimal_of(p.max_docs->0 as nat)
            &&& q.contains(("partial"@, v)) <==> p.partial is Some && v == (if p.partial->0 { "true"@ } else { "false"@ })
            &&& q.contains(("read"@, v)) <==> (pref is Primary && v == "primary"@) || (pref is Quorum && v == "quorum"@)
            &&& q.contains((name, v)) ==> name == "start"@ || name == "end"@ || name == "filter"@ || name == "group"@ || name
                == "metrics"@ || name == "max_docs"@ || name == "partial"@ || name == "read"@
        }),
{
    lemma_aggregate_terms();
    lemma_aggregate_holds(p, pref, ("start"@, v));
    lemma_aggregate_holds(p, pref, ("end"@, v));
    lemma_aggregate_holds(p, pref, ("filter"@, v));
    lemma_aggregate_holds(p, pref, ("group"@, v));
    lemma_aggregate_holds(p, pref, ("metrics"@, v));
    lemma_aggregate_holds(p, pref, ("max_docs"@, v));
    lemma_aggregate_holds(p, pref, ("partial"@, v));
    lemma_aggregate_holds(p, pref, ("read"@, v));
    lemma_aggregate_holds(p, pref, (name, v));
}

/// A group is in a scan exactly where it owns keys now and the scan is at its start or has a place for
/// it, and it goes on from that place.
pub proof fn law_a_scan_visits_the_groups_it_has_a_place_for(
    owners: Seq<(Seq<char>, Seq<Seq<char>>)>,
    cursor: Option<ShardCursorView>,
    g: Seq<char>,
    replicas: Seq<Seq<char>>,
    after: Option<Seq<char>>,
)
    ensures
        active(owners, cursor).contains(ActiveView { original: g, replicas, after }) <==> owners.contains((g, replicas)) && match cursor {
            None => after is None,
            Some(c) => c.positions.dom().contains(g) && c.positions[g] == after,
        },
        cursor is None ==> active(owners, cursor).len() == owners.len(),
    decreases owners.len(),
{
    lemma_joined_hold::<ActiveView>();
    lemma_joined_hold::<(Seq<char>, Seq<Seq<char>>)>();
    if owners.len() > 0 {
        law_a_scan_visits_the_groups_it_has_a_place_for(owners.drop_last(), cursor, g, replicas, after);
        assert(owners =~= owners.drop_last().push(owners.last()));
    }
}

/// Every group in a scan is asked for its rows with the request's own terms, or, where it has no share
/// of this page, carried over at its place; and nobody else is asked.
pub proof fn law_every_group_is_asked_or_carried(
    p: QueryParams,
    a: Seq<ActiveView>,
    sorted: bool,
    limit: int,
    pref: ReadPreference,
    k: int,
    i: int,
    ask: AskView,
)
    requires
        0 <= i < k <= a.len(),
    ensures
        ({
            let rows = if sorted { limit } else { share(limit, a.len() as int, i) };
            let asks = questions(p, a, sorted, limit, pref, k);
            let held = carried(a, sorted, limit, k);
            &&& rows != 0 ==> asks.contains(
                AskView { original: a[i].original, replicas: a[i].replicas, query: question(p, rows, a[i].after, sorted, pref) },
            )
            &&& rows == 0 ==> held.dom().contains(a[i].original)
            &&& asks.contains(ask) ==> exists|j: int|
                0 <= j < k && (#[trigger] a[j]).original == ask.original && a[j].replicas == ask.replicas
            &&& asks.len() + held.dom().len() <= k
            &&& held.dom().finite()
        }),
    decreases k,
{
    lemma_joined_hold::<AskView>();
    let asks = questions(p, a, sorted, limit, pref, k);
    let before = questions(p, a, sorted, limit, pref, k - 1);
    if i < k - 1 {
        law_every_group_is_asked_or_carried(p, a, sorted, limit, pref, k - 1, i, ask);
    } else if k > 1 {
        law_every_group_is_asked_or_carried(p, a, sorted, limit, pref, k - 1, 0, ask);
    } else {
        assert(questions(p, a, sorted, limit, pref, 0) =~= Seq::empty());
        assert(carried(a, sorted, limit, 0).dom() =~= Set::empty());
    }
    if asks.contains(ask) {
        if before.contains(ask) {
            let j = choose|j: int| 0 <= j < k - 1 && (#[trigger] a[j]).original == ask.original && a[j].replicas == ask.replicas;
            assert(a[j].original == ask.original);
        } else {
            assert(a[k - 1].original == ask.original);
        }
    }
}

/// A carried group keeps its place, where no group comes twice.
pub proof fn law_a_carried_group_keeps_its_place(a: Seq<ActiveView>, sorted: bool, limit: int, k: int, g: Seq<char>)
    requires
        0 <= k <= a.len(),
        forall|i: int, j: int| 0 <= i < j < a.len() ==> (#[trigger] a[i]).original != (#[trigger] a[j]).original,
    ensures
        carried(a, sorted, limit, k).dom().contains(g) <==> exists|i: int|
            0 <= i < k && (#[trigger] a[i]).original == g && (if sorted { limit } else { share(limit, a.len() as int, i) }) == 0,
        forall|i: int| 0 <= i < k && (#[trigger] a[i]).original == g && carried(a, sorted, limit, k).dom().contains(g) ==> carried(
            a,
            sorted,
            limit,
            k,
        )[g] == a[i].after,
    decreases k,
{
    if k > 0 {
        law_a_carried_group_keeps_its_place(a, sorted, limit, k - 1, g);
        let held = carried(a, sorted, limit, k);
        if held.dom().contains(g) && a[k - 1].original != g {
            let i = choose|i: int|
                0 <= i < k - 1 && (#[trigger] a[i]).original == g && (if sorted { limit } else { share(limit, a.len() as int, i) }) == 0;
            assert(a[i].original == g);
        }
        if a[k - 1].original == g && held.dom().contains(g) {
            if carried(a, sorted, limit, k - 1).dom().contains(g) {
                let i = choose|i: int|
                    0 <= i < k - 1 && (#[trigger] a[i]).original == g && (if sorted { limit } else { share(limit, a.len() as int, i) }) == 0;
                assert(a[i].original != a[k - 1].original);
            }
            assert(asked(sorted, limit, a.len() as int, k - 1) == 0);
        }
    }
}

/// The page that an outcome is, where it is one.
pub open spec fn page_of(o: ShardQueryOutcome) -> Option<QueryPage> {
    match o {
        ShardQueryOutcome::Page(p) => Some(p),
        _ => None,
    }
}

/// Every row of every shard's page is on the page of the cluster, in its place behind the rows of the
/// shards before it, with its key behind theirs; and nothing else is.
pub proof fn law_a_page_holds_every_shards_rows(v: Seq<(String, ShardQueryOutcome)>, fields: Seq<Seq<char>>, n: int, i: int)
    requires
        0 <= i < n <= v.len(),
    ensures
        ({
            let rows = all_items(v, fields, n);
            let keys = all_keys(v, n);
            let at = all_items(v, fields, i).len() as int;
            let kat = all_keys(v, i).len() as int;
            match page_of(v[i].1) {
                Some(p) => {
                    &&& at + p.items@.len() <= rows.len()
                    &&& kat + p.keys@.len() <= keys.len()
                    &&& forall|k: int| 0 <= k < p.items@.len() ==> rows[at + k] == #[trigger] projected(p.items@[k]@, fields)
                    &&& forall|k: int| 0 <= k < p.keys@.len() ==> keys[kat + k] == (#[trigger] p.keys@[k])@
                    &&& all_items(v, fields, i + 1).len() == at + p.items@.len()
                    &&& all_keys(v, i + 1).len() == kat + p.keys@.len()
                },
                None => all_items(v, fields, i + 1).len() == at && all_keys(v, i + 1).len() == kat,
            }
        }),
        all_items(v, fields, 0).len() == 0 && all_keys(v, 0).len() == 0,
    decreases n,
{
    if i < n - 1 {
        law_a_page_holds_every_shards_rows(v, fields, n - 1, i);
        let before = all_items(v, fields, n - 1);
        let rows = all_items(v, fields, n);
        let kb = all_keys(v, n - 1);
        let keys = all_keys(v, n);
        assert(forall|k: int| 0 <= k < before.len() ==> rows[k] == before[k]);
        assert(forall|k: int| 0 <= k < kb.len() ==> keys[k] == kb[k]);
    } else if let ShardQueryOutcome::Page(p) = v[i].1 {
        let at = all_items(v, fields, i).len() as int;
        assert forall|k: int| 0 <= k < p.items@.len() implies all_items(v, fields, n)[at + k] == #[trigger] projected(p.items@[k]@, fields) by {
            assert(all_projected(values(p.items@), fields)[k] == projected(values(p.items@)[k], fields));
        }
        let kat = all_keys(v, i).len() as int;
        assert forall|k: int| 0 <= k < p.keys@.len() implies all_keys(v, n)[kat + k] == (#[trigger] p.keys@[k])@ by {
            assert(texts(p.keys@)[k] == p.keys@[k]@);
        }
    }
}

/// Where an unsorted scan goes on: at the place that a shard's page names, else at the place carried over
/// for it, and for no other shard; a shard whose page names no next row and that was not carried is done.
pub proof fn law_a_scan_goes_on_where_each_page_ended(
    kept: Map<Seq<char>, Option<Seq<char>>>,
    v: Seq<(String, ShardQueryOutcome)>,
    n: int,
    g: Seq<char>,
)
    requires
        0 <= n <= v.len(),
        forall|i: int, j: int| 0 <= i < j < v.len() ==> (#[trigger] v[i]).0@ != (#[trigger] v[j]).0@,
    ensures
        ({
            let after = positions_after(kept, v, n);
            &&& after.dom().contains(g) <==> kept.dom().contains(g) || exists|i: int|
                0 <= i < n && (#[trigger] v[i]).0@ == g && page_of(v[i].1) is Some && (page_of(v[i].1)->0).next_cursor is Some
            &&& forall|i: int|
                0 <= i < n && (#[trigger] v[i]).0@ == g && page_of(v[i].1) is Some && (page_of(v[i].1)->0).next_cursor is Some
                    ==> after[g] == Some((page_of(v[i].1)->0).next_cursor->0@)
            &&& kept.dom().contains(g) && (forall|i: int|
                0 <= i < n && (#[trigger] v[i]).0@ == g ==> page_of(v[i].1) is None || (page_of(v[i].1)->0).next_cursor is None) ==> after[g]
                == kept[g]
        }),
    decreases n,
{
    if n > 0 {
        law_a_scan_goes_on_where_each_page_ended(kept, v, n - 1, g);
        let after = positions_after(kept, v, n);
        let before = positions_after(kept, v, n - 1);
        if after.dom().contains(g) && !kept.dom().contains(g) {
            if before.dom().contains(g) {
                let i = choose|i: int|
                    0 <= i < n - 1 && (#[trigger] v[i]).0@ == g && page_of(v[i].1) is Some && (page_of(v[i].1)->0).next_cursor is Some;
                assert(v[i].0@ == g);
            } else {
                assert(v[n - 1].0@ == g);
            }
        }
        assert forall|i: int|
            0 <= i < n && (#[trigger] v[i]).0@ == g && page_of(v[i].1) is Some && (page_of(v[i].1)->0).next_cursor is Some implies after[g]
            == Some((page_of(v[i].1)->0).next_cursor->0@) by {
            if i < n - 1 {
                assert(v[i].0@ != v[n - 1].0@);
            }
        }
    }
}

/// A query is refused exactly where some shard could not answer it, with what the first of them says.
pub proof fn law_one_shards_trouble_refuses_the_query(v: Seq<(String, ShardQueryOutcome)>, sorted: bool, n: int)
    requires
        0 <= n <= v.len(),
    ensures
        ({
            let bad = |i: int| match v[i].1 {
                ShardQueryOutcome::Absent => false,
                ShardQueryOutcome::Page(p) => sorted && p.keys@.len() != p.items@.len(),
                _ => true,
            };
            &&& first_trouble(v, sorted, n) is Some <==> exists|i: int| 0 <= i < n && #[trigger] bad(i)
            &&& forall|i: int|
                #![trigger bad(i)]
                0 <= i < n && bad(i) && (forall|j: int| 0 <= j < i ==> !#[trigger] bad(j)) ==> match v[i].1 {
                    ShardQueryOutcome::NoPrimary(r) => first_trouble(v, sorted, n) == Some(refusal(opt_reply(r))),
                    ShardQueryOutcome::Failed => first_trouble(v, sorted, n) == Some(told(502, "Shard query failed"@)),
                    ShardQueryOutcome::Lost => first_trouble(v, sorted, n) == Some(told(502, "Shard query task failed"@)),
                    _ => first_trouble(v, sorted, n) == Some(told(502, "Shard returned a sorted page without keys"@)),
                }
        }),
    decreases n,
{
    if n > 0 {
        law_one_shards_trouble_refuses_the_query(v, sorted, n - 1);
        let bad = |i: int| match v[i].1 {
            ShardQueryOutcome::Absent => false,
            ShardQueryOutcome::Page(p) => sorted && p.keys@.len() != p.items@.len(),
            _ => true,
        };
        assert(bad(n - 1) == (match v[n - 1].1 {
            ShardQueryOutcome::Absent => false,
            ShardQueryOutcome::Page(p) => sorted && p.keys@.len() != p.items@.len(),
            _ => true,
        }));
        if first_trouble(v, sorted, n - 1) is Some {
            let i = choose|i: int| 0 <= i < n - 1 && #[trigger] bad(i);
            assert(bad(i));
        }
    }
}

/// Whether any shard holds the collection, and whether any says that it does not.
pub proof fn law_pages_and_absences_are_counted(v: Seq<(String, ShardQueryOutcome)>, n: int)
    requires
        0 <= n <= v.len(),
    ensures
        pages(v, n) > 0 <==> exists|i: int| 0 <= i < n && (#[trigger] v[i]).1 is Page,
        gone(v, n) > 0 <==> exists|i: int| 0 <= i < n && (#[trigger] v[i]).1 is Absent,
        pages(v, n) >= 0 && gone(v, n) >= 0,
    decreases n,
{
    if n > 0 {
        law_pages_and_absences_are_counted(v, n - 1);
        if pages(v, n - 1) > 0 {
            let i = choose|i: int| 0 <= i < n - 1 && (#[trigger] v[i]).1 is Page;
            assert(v[i].1 is Page);
        }
        if gone(v, n - 1) > 0 {
            let i = choose|i: int| 0 <= i < n - 1 && (#[trigger] v[i]).1 is Absent;
            assert(v[i].1 is Absent);
        }
        if v[n - 1].1 is Page || v[n - 1].1 is Absent {
            assert(v[n - 1] == v[n - 1]);
        }
    }
}

/// The lists to merge of a sorted query are the shards' pages in their order, each row with its own key;
/// the rows are counted, and more are to come exactly where some page says so.
pub proof fn law_every_sorted_page_is_merged(v: Seq<(String, ShardQueryOutcome)>, n: int, i: int)
    requires
        0 <= i < n <= v.len(),
    ensures
        ({
            let all = lists(v, n);
            let at = lists(v, i).len() as int;
            match page_of(v[i].1) {
                Some(p) => {
                    &&& at < all.len() && lists(v, i + 1).len() == at + 1
                    &&& all[at].len() == p.items@.len()
                    &&& forall|k: int| 0 <= k < p.items@.len() ==> (#[trigger] all[at][k]).value == p.items@[k]@ && all[at][k].key == p.keys@[k]@
                    &&& received(v, i + 1) == received(v, i) + p.items@.len()
                    &&& received(v, n) >= received(v, i) + p.items@.len()
                    &&& p.next_cursor is Some ==> more_to_come(v, n)
                },
                None => lists(v, i + 1).len() == at && received(v, i + 1) == received(v, i),
            }
        }),
        lists(v, 0).len() == 0 && received(v, 0) == 0,
        more_to_come(v, n) ==> exists|j: int| 0 <= j < n && page_of((#[trigger] v[j]).1) is Some && (page_of(v[j].1)->0).next_cursor is Some,
    decreases n,
{
    if i < n - 1 {
        law_every_sorted_page_is_merged(v, n - 1, i);
        let before = lists(v, n - 1);
        let all = lists(v, n);
        assert(forall|k: int| 0 <= k < before.len() ==> all[k] == before[k]);
    } else if n > 1 {
        law_every_sorted_page_is_merged(v, n - 1, 0);
    }
    if more_to_come(v, n) {
        assert(n == 1 ==> !more_to_come(v, 0));
        if n > 1 && more_to_come(v, n - 1) {
            let j = choose|j: int| 0 <= j < n - 1 && page_of((#[trigger] v[j]).1) is Some && (page_of(v[j].1)->0).next_cursor is Some;
            assert(page_of(v[j].1) is Some);
        } else {
            assert(page_of(v[n - 1].1) is Some);
        }
    }
}

/// What is merged of an aggregation is every shard's result and nothing else, and it is refused exactly
/// where some shard neither answered nor said that it does not hold the collection.
pub proof fn law_every_shards_result_is_merged<T>(v: Seq<ShardAggregateOutcome<T>>, t: T)
    ensures
        results(v).contains(t) <==> v.contains(ShardAggregateOutcome::Result(t)),
        results(v).len() <= v.len(),
        first_aggregate_trouble(v) is Some <==> exists|i: int| 0 <= i < v.len() && !((#[trigger] v[i]) is Result) && !(v[i] is Absent),
        first_aggregate_trouble(v) is None && !any_absent(v) ==> results(v).len() == v.len(),
    decreases v.len(),
{
    lemma_joined_hold::<T>();
    if v.len() > 0 {
        let rest = v.skip(1);
        law_every_shards_result_is_merged(rest, t);
        assert(v =~= seq![v[0]] + rest);
        lemma_joined_hold::<ShardAggregateOutcome<T>>();
        assert(seq![v[0]].contains(v[0])) by {
            assert(seq![v[0]][0] == v[0]);
        }
        lemma_any_absent(v);
        if let ShardAggregateOutcome::Result(x) = v[0] {
            assert(seq![x].contains(x)) by {
                assert(seq![x][0] == x);
            }
        }
        if first_aggregate_trouble(rest) is Some {
            let i = choose|i: int| 0 <= i < rest.len() && !((#[trigger] rest[i]) is Result) && !(rest[i] is Absent);
            assert(v[i + 1] == rest[i]);
        }
        if exists|i: int| 0 <= i < v.len() && !((#[trigger] v[i]) is Result) && !(v[i] is Absent) {
            let i = choose|i: int| 0 <= i < v.len() && !((#[trigger] v[i]) is Result) && !(v[i] is Absent);
            if i > 0 {
                assert(rest[i - 1] == v[i]);
            }
        }
    }
}

/// A group is asked node by node until one answers: a node that does not answer, or answers what no
/// group can mean, has the next one asked, and is forgotten.
pub proof fn law_a_group_is_asked_node_by_node(g: GroupReadView, event: NodeEventView)
    requires
        0 <= g.at < g.targets.len(),
    ensures
        ({
            let (after, step) = g.next(event);
            let status = if event is Replied { (event->Replied_0).status } else { 0 };
            let refuses = event is Replied && status == 503 && g.enforced;
            let rejects = event is Replied && status == 400 && g.rejectable;
            let misses = event is Replied && status == 404;
            let moves = !(event is Answered) && !rejects && !misses;
            &&& after.targets == g.targets && after.primary == g.primary && after.enforced == g.enforced && after.rejectable == g.rejectable
            &&& event is Answered ==> step.next is Answered && step.forget_load is None
            &&& rejects ==> step.next == GroupNextView::Rejected(event->Replied_0) && step.forget_load is None
            &&& misses && !g.refused ==> step.next is Absent
            &&& misses && g.refused ==> step.next == GroupNextView::NoPrimary(g.primary_refusal)
            &&& moves ==> step.forget_load == Some(g.targets[g.at])
            &&& moves && g.at + 1 < g.targets.len() ==> step.next == GroupNextView::Ask(g.targets[g.at + 1]) && after.at == g.at + 1
            &&& moves && g.at + 1 == g.targets.len() && (g.refused || refuses) ==> step.next == GroupNextView::NoPrimary(after.primary_refusal)
            &&& moves && g.at + 1 == g.targets.len() && !(g.refused || refuses) ==> step.next is Failed
            &&& after.refused == (g.refused || refuses)
            &&& refuses && node(g.targets[g.at]) == node(g.primary) ==> after.primary_refusal == Some(event->Replied_0)
            &&& !(refuses && node(g.targets[g.at]) == node(g.primary)) ==> after.primary_refusal == g.primary_refusal
        }),
{
}

/// Rows are shown as asked: with their keys in them, with their keys beside them, or without.
pub proof fn law_rows_are_shown_as_asked(keys: Seq<Seq<char>>, rows: Seq<JsonView>, i: int)
    requires
        keys.len() == rows.len(),
        0 <= i < rows.len(),
        rows[i].wf(),
    ensures
        shaped(KeyMode::Embedded, keys, rows).len() == rows.len(),
        shaped(KeyMode::Embedded, keys, rows)[i].member("id"@) == Some(JsonView::Str(keys[i])),
        shaped(KeyMode::Embedded, keys, rows)[i].member("value"@) == Some(rows[i]),
        shown(KeyMode::Embedded, keys).len() == 0,
        shaped(KeyMode::Parallel, keys, rows) == rows && shown(KeyMode::Parallel, keys) == keys,
        shaped(KeyMode::Omitted, keys, rows) == rows && shown(KeyMode::Omitted, keys).len() == 0,
{
    let pairs = seq![("id"@, JsonView::Str(keys[i])), ("value"@, rows[i])];
    reveal_strlit("id");
    reveal_strlit("value");
    assert("id"@.len() == 2 && "value"@.len() == 5);
    law_the_last_of_one_key_is_kept(pairs, "id"@, 0);
    law_the_last_of_one_key_is_kept(pairs, "value"@, 1);
}

/// A page is answered unless a shard is in trouble, no shard holds the collection, or keys that are to
/// be shown are missing; it goes on exactly where some shard has a place to go on from.
pub proof fn law_when_a_page_is_answered(
    collection: Seq<char>,
    v: Seq<(String, ShardQueryOutcome)>,
    kept: Map<Seq<char>, Option<Seq<char>>>,
    ring: u64,
    fields: Seq<Seq<char>>,
    mode: KeyMode,
    r: Result<ClusterPage, Reply>,
)
    requires
        page_ok(collection, v, kept, ring, fields, mode, r),
    ensures
        ({
            let n = v.len() as int;
            let places = positions_after(kept, v, n);
            let no_place = forall|k: Seq<char>| !places.dom().contains(k);
            let held = exists|i: int| 0 <= i < n && (#[trigger] v[i]).1 is Page;
            let missed = exists|i: int| 0 <= i < n && (#[trigger] v[i]).1 is Absent;
            let trouble = first_trouble(v, false, n) is Some;
            let keyless = mode == KeyMode::Embedded && all_keys(v, n).len() != all_items(v, fields, n).len();
            &&& r is Err <==> trouble || (!held && missed && no_place) || keyless
            &&& r is Err && trouble ==> r->Err_0@ == first_trouble(v, false, n)->0
            &&& r is Err && !trouble && !held && missed && no_place ==> r->Err_0@.status == 404
            &&& r is Ok ==> (r->Ok_0.next is None <==> no_place)
            &&& r is Ok && !no_place ==> opt_cursor(r->Ok_0.next)->0.ring == ring && opt_cursor(r->Ok_0.next)->0.positions == places
            &&& r is Ok && mode != KeyMode::Embedded ==> values(r->Ok_0.items@) == all_items(v, fields, n)
            &&& r is Ok && mode == KeyMode::Parallel ==> texts(r->Ok_0.keys@) == all_keys(v, n)
            &&& r is Ok && mode != KeyMode::Parallel ==> r->Ok_0.keys@.len() == 0
        }),
{
    let n = v.len() as int;
    let places = positions_after(kept, v, n);
    law_pages_and_absences_are_counted(v, n);
    if forall|k: Seq<char>| !places.dom().contains(k) {
        assert(places =~= Map::<Seq<char>, Option<Seq<char>>>::empty());
    }
    if r is Ok {
        assert(texts(r->Ok_0.keys@).len() == r->Ok_0.keys@.len());
    }
}

/// Every shard gets its share: whole rows that differ by one at most, and none more than asked for.
pub proof fn law_shares_are_even(limit: int, n: int, i: int, j: int)
    requires
        0 <= i <= j < n,
        0 <= limit,
    ensures
        share(limit, n, j) <= share(limit, n, i) <= share(limit, n, j) + 1,
        0 <= share(limit, n, i) <= limit,
        limit >= n ==> share(limit, n, i) >= 1,
{
    vstd::arithmetic::div_mod::lemma_fundamental_div_mod(limit, n);
    vstd::arithmetic::div_mod::lemma_mod_bound(limit, n);
    let (q, m) = (limit / n, limit % n);
    assert(0 <= q && q + (if m > 0 { 1int } else { 0 }) <= limit && (limit >= n ==> q >= 1)) by (nonlinear_arith)
        requires
            limit == n * q + m,
            0 <= m < n,
            0 <= limit,
    ;
}

/// A shard that cannot answer refuses the query as it failed: without a primary in the primary's own
/// words, and otherwise as a bad gateway.
pub proof fn law_how_a_shards_trouble_is_told(o: ShardQueryOutcome, sorted: bool)
    ensures
        ({
            let t = if sorted { sorted_trouble(o) } else { trouble(o) };
            match o {
                ShardQueryOutcome::Page(p) => if sorted && p.keys@.len() != p.items@.len() {
                    t is Some && (t->0).status == 502
                } else {
                    t is None
                },
                ShardQueryOutcome::Absent => t is None,
                ShardQueryOutcome::NoPrimary(r) => t == Some(refusal(opt_reply(r))),
                _ => t is Some && (t->0).status == 502,
            }
        }),
{
}

/// So does one that cannot aggregate; what it refuses the client is told in its own words.
pub proof fn law_how_an_aggregates_trouble_is_told<T>(o: ShardAggregateOutcome<T>)
    ensures
        match o {
            ShardAggregateOutcome::Result(_) => aggregate_trouble(o) is None,
            ShardAggregateOutcome::Absent => aggregate_trouble(o) is None,
            ShardAggregateOutcome::NoPrimary(r) => aggregate_trouble(o) == Some(refusal(opt_reply(r))),
            ShardAggregateOutcome::Refused(r) => aggregate_trouble(o) is Some && (aggregate_trouble(o)->0).status == 400 && (
            aggregate_trouble(o)->0).body == BodyView::Json(r@.content()),
            _ => aggregate_trouble(o) is Some && (aggregate_trouble(o)->0).status == 502,
        },
{
}

/// A cursor that is read has every position that it was given, and no other.
pub proof fn law_a_cursor_has_every_position(j: JsonView, g: Seq<char>)
    requires
        cursor_of(j) is Some,
    ensures
        ({
            let c = cursor_of(j)->0;
            let p = (cursor_fields(j)->0).1;
            &&& (cursor_fields(j)->0).0.number() == Some(c.ring)
            &&& p is Object
            &&& c.positions.dom().contains(g) <==> p.member(g) is Some
            &&& p.member(g) is Some && p.member(g)->0 is Str ==> c.positions[g] == Some(p.member(g)->0->Str_0)
            &&& p.member(g) == Some(JsonView::Null) ==> c.positions[g] is None
        }),
{
}

} // verus!
