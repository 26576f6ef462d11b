//! JSON values and the operations of the query and write paths on them.

use crate::lists::{lemma_joined_hold, lemma_take_all, lemma_take_grows};
use crate::name_map::{increasing, lemma_increasing_unique};
use crate::number::{is_less, law_whole_numbers_compare_as_integers};
use crate::text::{
    comes_before, lemma_text_before_transitive, lemma_text_order, pieces, same_text, split, text_before, texts, trim,
    trimmed,
};
use std::cmp::Ordering;
use vstd::prelude::*;

verus! {

/// A number, as it is written. Numbers compare by their exact values.
#[derive(Clone, Copy, Debug, PartialEq, Eq, Structural)]
pub enum JsonNumber {
    PosInt(u64),
    NegInt(i64),
    /// A double, by its bit pattern.
    Double(u64),
}

/// A JSON value. The members of an object stand in key order, each key once.
#[derive(Debug, PartialEq, Eq)]
pub enum Json {
    Null,
    Bool(bool),
    Number(JsonNumber),
    Str(String),
    Array(Vec<Json>),
    Object(Vec<(String, Json)>),
}

/// A JSON value by its contents.
pub ghost enum JsonView {
    Null,
    Bool(bool),
    Number(JsonNumber),
    Str(Seq<char>),
    Array(Seq<JsonView>),
    Object(Seq<(Seq<char>, JsonView)>),
}

/// The members of an object: keys with values.
pub type Members = Seq<(Seq<char>, JsonView)>;

impl Json {
    pub open spec fn model(self) -> JsonView
        decreases self,
    {
        match self {
            Json::Null => JsonView::Null,
            Json::Bool(b) => JsonView::Bool(b),
            Json::Number(n) => JsonView::Number(n),
            Json::Str(s) => JsonView::Str(s@),
            Json::Array(v) => JsonView::Array(
                Seq::new(v@.len(), |i: int| if 0 <= i < v@.len() { v[i].model() } else { JsonView::Null }),
            ),
            Json::Object(m) => JsonView::Object(
                Seq::new(
                    m@.len(),
                    |i: int| if 0 <= i < m@.len() { (m[i].0@, m[i].1.model()) } else { (Seq::empty(), JsonView::Null) },
                ),
            ),
        }
    }
}

impl View for Json {
    type V = JsonView;

    open spec fn view(&self) -> JsonView {
        self.model()
    }
}

/// The contents of a list of members.
pub open spec fn members(m: Seq<(String, Json)>) -> Members {
    Seq::new(m.len(), |i: int| (m[i].0@, m[i].1@))
}

/// The contents of a list of values.
pub open spec fn values(v: Seq<Json>) -> Seq<JsonView> {
    Seq::new(v.len(), |i: int| v[i]@)
}

/// An object's contents are those of its members, an array's those of its values.
pub proof fn lemma_model(j: Json)
    ensures
        j is Object ==> j@ == JsonView::Object(members(j->Object_0@)),
        j is Array ==> j@ == JsonView::Array(values(j->Array_0@)),
{
    match j {
        Json::Object(m) => {
            assert(j@->Object_0 =~= members(m@));
        },
        Json::Array(v) => {
            assert(j@->Array_0 =~= values(v@));
        },
        _ => {},
    }
}

/// The keys of a list of members.
pub open spec fn keys(m: Members) -> Seq<Seq<char>> {
    Seq::new(m.len(), |i: int| m[i].0)
}

/// Keys in strictly increasing order.
pub open spec fn ordered(m: Members) -> bool {
    forall|i: int, j: int| 0 <= i < j < m.len() ==> text_before(#[trigger] m[i].0, #[trigger] m[j].0)
}

impl JsonView {
    /// Every object in the value has its members in key order.
    pub open spec fn wf(self) -> bool
        decreases self,
    {
        match self {
            JsonView::Array(v) => forall|i: int| 0 <= i < v.len() ==> (#[trigger] v[i]).wf(),
            JsonView::Object(m) => ordered(m) && forall|i: int| 0 <= i < m.len() ==> (#[trigger] m[i]).1.wf(),
            _ => true,
        }
    }

    /// Where the value's type sorts among the types.
    pub open spec fn rank(self) -> int {
        match self {
            JsonView::Null => 0,
            JsonView::Bool(_) => 1,
            JsonView::Number(_) => 2,
            JsonView::Str(_) => 3,
            JsonView::Array(_) => 4,
            JsonView::Object(_) => 5,
        }
    }
}

// ---- Members ----

/// What is stored under a key.
pub open spec fn lookup(m: Members, k: Seq<char>) -> Option<JsonView>
    decreases m.len(),
{
    if m.len() == 0 {
        None
    } else if m[0].0 == k {
        Some(m[0].1)
    } else {
        lookup(m.skip(1), k)
    }
}

/// The members with `v` under `k`, in key order.
pub open spec fn put(m: Members, k: Seq<char>, v: JsonView) -> Members
    decreases m.len(),
{
    if m.len() == 0 {
        seq![(k, v)]
    } else if m[0].0 == k {
        m.update(0, (k, v))
    } else if text_before(k, m[0].0) {
        seq![(k, v)] + m
    } else {
        seq![m[0]] + put(m.skip(1), k, v)
    }
}

/// The members without `k`.
pub open spec fn drop_key(m: Members, k: Seq<char>) -> Members
    decreases m.len(),
{
    if m.len() == 0 {
        m
    } else if m[0].0 == k {
        m.skip(1)
    } else {
        seq![m[0]] + drop_key(m.skip(1), k)
    }
}

/// The place of the first key that does not come before `k`.
pub open spec fn place(m: Members, k: Seq<char>) -> int
    decreases m.len(),
{
    if m.len() > 0 && text_before(m[0].0, k) { 1 + place(m.skip(1), k) } else { 0 }
}

proof fn lemma_place(m: Members, k: Seq<char>)
    requires
        ordered(m),
    ensures
        0 <= place(m, k) <= m.len(),
        forall|i: int| 0 <= i < place(m, k) ==> text_before((#[trigger] m[i]).0, k),
        place(m, k) < m.len() ==> !text_before(m[place(m, k)].0, k),
        ({
            let p = place(m, k);
            let there = p < m.len() && m[p].0 == k;
            &&& lookup(m, k) == if there { Some(m[p].1) } else { None }
            &&& forall|v: JsonView| #[trigger] put(m, k, v) == if there { m.update(p, (k, v)) } else { m.insert(p, (k, v)) }
            &&& drop_key(m, k) == if there { m.remove(p) } else { m }
        }),
    decreases m.len(),
{
    let p = place(m, k);
    if m.len() > 0 {
        let rest = m.skip(1);
        assert(ordered(rest)) by {
            assert forall|i: int, j: int| 0 <= i < j < rest.len() implies text_before(#[trigger] rest[i].0, #[trigger] rest[j].0) by {
                assert(rest[i] == m[i + 1] && rest[j] == m[j + 1]);
            }
        }
        lemma_text_order(m[0].0, k);
        lemma_place(rest, k);
        let q = place(rest, k);
        if text_before(m[0].0, k) {
            assert forall|i: int| 0 <= i < p implies text_before((#[trigger] m[i]).0, k) by {
                if i > 0 {
                    assert(rest[i - 1] == m[i]);
                }
            }
            if q < rest.len() {
                assert(rest[q] == m[p]);
            }
            assert forall|v: JsonView| #[trigger] put(m, k, v) == if p < m.len() && m[p].0 == k { m.update(p, (k, v)) } else { m.insert(p, (k, v)) } by {
                assert(put(m, k, v) == seq![m[0]] + put(rest, k, v));
                if p < m.len() && m[p].0 == k {
                    assert(seq![m[0]] + rest.update(q, (k, v)) =~= m.update(p, (k, v)));
                } else {
                    assert(seq![m[0]] + rest.insert(q, (k, v)) =~= m.insert(p, (k, v)));
                }
            }
            if p < m.len() && m[p].0 == k {
                assert(seq![m[0]] + rest.remove(q) =~= m.remove(p));
            } else {
                assert(seq![m[0]] + rest =~= m);
            }
        } else if m[0].0 == k {
            assert(m.skip(1) =~= m.remove(0));
        } else {
            lemma_not_there(rest, k, m[0].0);
            assert(seq![m[0]] + rest =~= m);
            assert forall|v: JsonView| #[trigger] put(m, k, v) == m.insert(0, (k, v)) by {
                assert(seq![(k, v)] + m =~= m.insert(0, (k, v)));
            }
        }
    } else {
        assert forall|v: JsonView| #[trigger] put(m, k, v) == m.insert(0, (k, v)) by {
            assert(seq![(k, v)] =~= m.insert(0, (k, v)));
        }
    }
}

/// A key that comes before a key which comes before all of the members is not among them.
proof fn lemma_not_there(m: Members, k: Seq<char>, first: Seq<char>)
    requires
        text_before(k, first),
        forall|i: int| 0 <= i < m.len() ==> text_before(first, (#[trigger] m[i]).0),
    ensures
        lookup(m, k) is None,
        drop_key(m, k) == m,
    decreases m.len(),
{
    if m.len() > 0 {
        lemma_text_before_transitive(k, first, m[0].0);
        lemma_text_order(k, m[0].0);
        let rest = m.skip(1);
        assert forall|i: int| 0 <= i < rest.len() implies text_before(first, (#[trigger] rest[i]).0) by {
            assert(rest[i] == m[i + 1]);
        }
        lemma_not_there(rest, k, first);
        assert(seq![m[0]] + rest =~= m);
    }
}

/// Storing keeps the order, and changes what is found under one key alone; so does dropping a key.
pub proof fn law_members_are_a_map(m: Members, k: Seq<char>, v: JsonView, q: Seq<char>)
    requires
        ordered(m),
    ensures
        ordered(put(m, k, v)),
        ordered(drop_key(m, k)),
        lookup(put(m, k, v), q) == if q == k { Some(v) } else { lookup(m, q) },
        lookup(drop_key(m, k), q) == if q == k { None } else { lookup(m, q) },
{
    lemma_put_ordered(m, k, v);
    lemma_drop_ordered(m, k);
    lemma_found(m, q);
    lemma_found(put(m, k, v), q);
    lemma_found(drop_key(m, k), q);
    lemma_place(m, k);
    let p = place(m, k);
    let n = put(m, k, v);
    let d = drop_key(m, k);
    let there = p < m.len() && m[p].0 == k;
    if lookup(n, q) is Some {
        let i = choose|i: int| 0 <= i < n.len() && #[trigger] n[i] == (q, lookup(n, q)->0);
        if there {
            if i != p {
                assert(m[i] == n[i]);
            } else if q == k {
            }
        } else if i < p {
            assert(m[i] == n[i]);
        } else if i > p {
            assert(m[i - 1] == n[i]);
        }
        lemma_unique_key(n, i, p);
    }
    if q == k {
        assert(n[p] == (k, v));
    } else if lookup(m, q) is Some {
        let i = choose|i: int| 0 <= i < m.len() && #[trigger] m[i] == (q, lookup(m, q)->0);
        if there || i < p {
            assert(n[i] == m[i]);
        } else {
            assert(n[i + 1] == m[i]);
        }
        if there {
            if i < p {
                assert(d[i] == m[i]);
            } else {
                assert(d[i - 1] == m[i]);
            }
        }
    }
    if lookup(d, q) is Some && there {
        let i = choose|i: int| 0 <= i < d.len() && #[trigger] d[i] == (q, lookup(d, q)->0);
        let j = if i < p { i } else { i + 1 };
        assert(m[j] == d[i]);
        lemma_unique_key(m, j, p);
    }
}

proof fn lemma_unique_key(m: Members, i: int, j: int)
    requires
        ordered(m),
        0 <= i < m.len(),
        0 <= j < m.len(),
    ensures
        m[i].0 == m[j].0 ==> i == j,
{
    lemma_text_order(m[i].0, m[j].0);
    if i < j {
        assert(text_before(m[i].0, m[j].0));
    } else if j < i {
        assert(text_before(m[j].0, m[i].0));
    }
}

/// What is found is a member, and every member is found.
pub proof fn lemma_found(m: Members, q: Seq<char>)
    requires
        ordered(m),
    ensures
        lookup(m, q) is Some ==> exists|i: int| 0 <= i < m.len() && #[trigger] m[i] == (q, lookup(m, q)->0),
        forall|i: int| 0 <= i < m.len() && (#[trigger] m[i]).0 == q ==> lookup(m, q) == Some(m[i].1),
    decreases m.len(),
{
    if m.len() > 0 {
        let rest = m.skip(1);
        assert(ordered(rest)) by {
            assert forall|i: int, j: int| 0 <= i < j < rest.len() implies text_before(#[trigger] rest[i].0, #[trigger] rest[j].0) by {
                assert(rest[i] == m[i + 1] && rest[j] == m[j + 1]);
            }
        }
        lemma_found(rest, q);
        if m[0].0 == q {
            assert(m[0] == (q, lookup(m, q)->0));
        } else if lookup(m, q) is Some {
            let i = choose|i: int| 0 <= i < rest.len() && #[trigger] rest[i] == (q, lookup(rest, q)->0);
            assert(m[i + 1] == rest[i]);
        }
        assert forall|i: int| 0 <= i < m.len() && (#[trigger] m[i]).0 == q implies lookup(m, q) == Some(m[i].1) by {
            if m[0].0 == q {
                lemma_unique_key(m, 0, i);
            } else {
                assert(rest[i - 1] == m[i]);
            }
        }
    }
}

proof fn lemma_put_ordered(m: Members, k: Seq<char>, v: JsonView)
    requires
        ordered(m),
    ensures
        ordered(put(m, k, v)),
{
    lemma_place(m, k);
    let p = place(m, k);
    let n = put(m, k, v);
    let there = p < m.len() && m[p].0 == k;
    assert forall|i: int, j: int| 0 <= i < j < n.len() implies text_before(#[trigger] n[i].0, #[trigger] n[j].0) by {
        if there {
            assert(n[i].0 == m[i].0 && n[j].0 == m[j].0);
        } else {
            if p < m.len() {
                lemma_text_order(k, m[p].0);
            }
            if j < p {
                assert(n[i] == m[i] && n[j] == m[j]);
            } else if j == p {
                assert(n[i] == m[i]);
            } else if i < p {
                assert(n[i] == m[i] && n[j] == m[j - 1]);
            } else if i == p {
                assert(n[j] == m[j - 1]);
                if j - 1 > p {
                    lemma_text_before_transitive(k, m[p].0, m[j - 1].0);
                }
            } else {
                assert(n[i] == m[i - 1] && n[j] == m[j - 1]);
            }
        }
    }
}

proof fn lemma_drop_ordered(m: Members, k: Seq<char>)
    requires
        ordered(m),
    ensures
        ordered(drop_key(m, k)),
{
    lemma_place(m, k);
    let p = place(m, k);
    let d = drop_key(m, k);
    if p < m.len() && m[p].0 == k {
        assert forall|i: int, j: int| 0 <= i < j < d.len() implies text_before(#[trigger] d[i].0, #[trigger] d[j].0) by {
            let a = if i < p { i } else { i + 1 };
            let b = if j < p { j } else { j + 1 };
            assert(d[i] == m[a] && d[j] == m[b]);
        }
    }
}

/// The first place whose key does not come before `k`, and whether `k` stands there.
fn seek(m: &Vec<(String, Json)>, k: &str) -> (r: (usize, bool))
    requires
        ordered(members(m@)),
    ensures
        r.0 == place(members(m@), k@),
        r.0 <= m@.len(),
        r.1 == (r.0 < m@.len() && m@[r.0 as int].0@ == k@),
{
    let mut i: usize = 0;
    let ghost all = members(m@);
    assert(all.skip(0) =~= all);
    while i < m.len() && comes_before(m[i].0.as_str(), k)
        invariant
            all == members(m@),
            i <= m@.len(),
            place(all, k@) == i + place(all.skip(i as int), k@),
        ensures
            i <= m@.len(),
            place(all, k@) == i + place(all.skip(i as int), k@),
            i < m@.len() ==> !text_before(m@[i as int].0@, k@),
        decreases m@.len() - i,
    {
        assert(all.skip(i as int).skip(1) =~= all.skip(i + 1));
        assert(all.skip(i as int)[0] == all[i as int]);
        i += 1;
    }
    proof {
        if i < m@.len() {
            assert(all.skip(i as int)[0] == all[i as int]);
        }
    }
    let there = i < m.len() && same_text(m[i].0.as_str(), k);
    (i, there)
}

/// What is stored under a key.
fn find_member<'a>(m: &'a Vec<(String, Json)>, k: &str) -> (r: Option<&'a Json>)
    requires
        ordered(members(m@)),
    ensures
        match r {
            Some(j) => lookup(members(m@), k@) == Some(j@),
            None => lookup(members(m@), k@) is None,
        },
        r is Some ==> exists|i: int| 0 <= i < m@.len() && *r->0 == (#[trigger] m@[i]).1,
{
    let (i, there) = seek(m, k);
    proof {
        lemma_place(members(m@), k@);
    }
    if there {
        Some(&m[i].1)
    } else {
        None
    }
}

/// Stores a value under a key.
pub fn put_member(m: Vec<(String, Json)>, k: &str, v: Json) -> (r: Vec<(String, Json)>)
    requires
        ordered(members(m@)),
    ensures
        members(r@) == put(members(m@), k@, v@),
{
    let (i, there) = seek(&m, k);
    proof {
        lemma_place(members(m@), k@);
        // The term that the lemma's facts are instantiated at.
        let stored = put(members(m@), k@, v@);
    }
    let ghost before = members(m@);
    let mut out = m;
    if there {
        out.set(i, (k.to_owned(), v));
        assert(members(out@) =~= before.update(i as int, (k@, v@)));
    } else {
        out.insert(i, (k.to_owned(), v));
        assert(members(out@) =~= before.insert(i as int, (k@, v@)));
    }
    out
}

fn drop_member(m: Vec<(String, Json)>, k: &str) -> (r: Vec<(String, Json)>)
    requires
        ordered(members(m@)),
    ensures
        members(r@) == drop_key(members(m@), k@),
{
    let (i, there) = seek(&m, k);
    proof {
        lemma_place(members(m@), k@);
    }
    let ghost before = members(m@);
    let mut out = m;
    if there {
        out.remove(i);
        assert(members(out@) =~= before.remove(i as int));
    }
    out
}

// ---- Copies ----

impl Clone for Json {
    fn clone(&self) -> (r: Self)
        ensures
            r@ == self@,
        decreases self,
    {
        match self {
            Json::Null => Json::Null,
            Json::Bool(b) => Json::Bool(*b),
            Json::Number(n) => Json::Number(*n),
            Json::Str(s) => Json::Str(s.clone()),
            Json::Array(v) => {
                let mut out: Vec<Json> = Vec::new();
                let mut i: usize = 0;
                while i < v.len()
                    invariant
                        *self == Json::Array(*v),
                        i <= v@.len(),
                        out@.len() == i,
                        forall|j: int| 0 <= j < i ==> (#[trigger] out@[j])@ == v@[j]@,
                    decreases v@.len() - i,
                {
                    assert(decreases_to!(*self => self->Array_0));
                    assert(decreases_to!(*v => v[i as int]));
                    out.push(v[i].clone());
                    i += 1;
                }
                let r = Json::Array(out);
                proof {
                    lemma_model(r);
                    lemma_model(*self);
                    assert(values(out@) =~= values(v@));
                }
                r
            },
            Json::Object(m) => {
                let mut out: Vec<(String, Json)> = Vec::new();
                let mut i: usize = 0;
                while i < m.len()
                    invariant
                        *self == Json::Object(*m),
                        i <= m@.len(),
                        out@.len() == i,
                        forall|j: int| 0 <= j < i ==> (#[trigger] out@[j]).0@ == m@[j].0@ && out@[j].1@ == m@[j].1@,
                    decreases m@.len() - i,
                {
                    assert(decreases_to!(*self => self->Object_0));
                    assert(decreases_to!(*m => m[i as int]));
                    assert(decreases_to!(m[i as int] => m[i as int].1));
                    out.push((m[i].0.clone(), m[i].1.clone()));
                    i += 1;
                }
                let r = Json::Object(out);
                proof {
                    lemma_model(r);
                    lemma_model(*self);
                    assert(members(out@) =~= members(m@));
                }
                r
            },
        }
    }
}

// ---- Order ----

/// -1, 0 or 1, as `x` is negative, zero or positive.
pub open spec fn sign(x: int) -> int {
    if x < 0 { -1 } else if x > 0 { 1 } else { 0 }
}

/// -1, 0 or 1, as `a` comes before `b`, is `b`, or comes after it.
pub open spec fn text_sign(a: Seq<char>, b: Seq<char>) -> int {
    if a == b { 0 } else if text_before(a, b) { -1 } else { 1 }
}

/// -1, 0 or 1, as `a` sorts before, with or after `b`. Values of different types sort by type;
/// arrays and objects sort by their first difference, then by length.
pub open spec fn order(a: JsonView, b: JsonView) -> int
    decreases a, 0int,
{
    match (a, b) {
        (JsonView::Bool(x), JsonView::Bool(y)) => if x == y { 0 } else if y { -1 } else { 1 },
        (JsonView::Number(x), JsonView::Number(y)) => sign(x.worth() - y.worth()),
        (JsonView::Str(x), JsonView::Str(y)) => text_sign(x, y),
        (JsonView::Array(x), JsonView::Array(y)) => values_order(x, y, 0),
        (JsonView::Object(x), JsonView::Object(y)) => members_order(x, y, 0),
        _ => sign(a.rank() - b.rank()),
    }
}

/// The order of two arrays from position `i` on.
pub open spec fn values_order(x: Seq<JsonView>, y: Seq<JsonView>, i: int) -> int
    decreases x, x.len() - i,
{
    if 0 <= i < x.len() && i < y.len() {
        if order(x[i], y[i]) != 0 { order(x[i], y[i]) } else { values_order(x, y, i + 1) }
    } else {
        sign(x.len() - y.len())
    }
}

/// The order of two lists of members from position `i` on: keys decide before values.
pub open spec fn members_order(x: Members, y: Members, i: int) -> int
    decreases x, x.len() - i,
{
    if 0 <= i < x.len() && i < y.len() {
        if text_sign(x[i].0, y[i].0) != 0 {
            text_sign(x[i].0, y[i].0)
        } else if order(x[i].1, y[i].1) != 0 {
            order(x[i].1, y[i].1)
        } else {
            members_order(x, y, i + 1)
        }
    } else {
        sign(x.len() - y.len())
    }
}

/// The `Ordering` of a sign.
pub open spec fn ordering(s: int) -> Ordering {
    if s < 0 { Ordering::Less } else if s > 0 { Ordering::Greater } else { Ordering::Equal }
}

fn type_rank(v: &Json) -> (r: u8)
    ensures
        r == v@.rank(),
{
    match v {
        Json::Null => 0,
        Json::Bool(_) => 1,
        Json::Number(_) => 2,
        Json::Str(_) => 3,
        Json::Array(_) => 4,
        Json::Object(_) => 5,
    }
}

fn text_order(a: &str, b: &str) -> (r: Ordering)
    ensures
        r == ordering(text_sign(a@, b@)),
{
    if same_text(a, b) {
        Ordering::Equal
    } else if comes_before(a, b) {
        Ordering::Less
    } else {
        Ordering::Greater
    }
}

fn len_order(a: usize, b: usize) -> (r: Ordering)
    ensures
        r == ordering(sign(a - b)),
{
    if a < b {
        Ordering::Less
    } else if a > b {
        Ordering::Greater
    } else {
        Ordering::Equal
    }
}

fn is_tie(o: &Ordering) -> (r: bool)
    ensures
        r == (*o == Ordering::Equal),
{
    match o {
        Ordering::Equal => true,
        _ => false,
    }
}

/// A total order across types is required: shards sort locally and the router merges their pages.
pub fn json_cmp(a: &Json, b: &Json) -> (r: Ordering)
    ensures
        r == ordering(order(a@, b@)),
    decreases a,
{
    proof {
        lemma_model(*a);
        lemma_model(*b);
    }
    match (a, b) {
        (Json::Bool(x), Json::Bool(y)) => if *x == *y {
            Ordering::Equal
        } else if *y {
            Ordering::Less
        } else {
            Ordering::Greater
        },
        (Json::Number(x), Json::Number(y)) => if is_less(x, y) {
            Ordering::Less
        } else if is_less(y, x) {
            Ordering::Greater
        } else {
            Ordering::Equal
        },
        (Json::Str(x), Json::Str(y)) => text_order(x.as_str(), y.as_str()),
        (Json::Array(x), Json::Array(y)) => {
            let mut i: usize = 0;
            while i < x.len() && i < y.len()
                invariant
                    *a == Json::Array(*x),
                    i <= x@.len(),
                    i <= y@.len(),
                    values_order(values(x@), values(y@), 0) == values_order(values(x@), values(y@), i + 0),
                    order(a@, b@) == values_order(values(x@), values(y@), 0),
                decreases x@.len() - i,
            {
                assert(decreases_to!(*a => a->Array_0));
                assert(decreases_to!(*x => x[i + 0]));
                let o = json_cmp(&x[i], &y[i]);
                if !is_tie(&o) {
                    return o;
                }
                i += 1;
            }
            len_order(x.len(), y.len())
        },
        (Json::Object(x), Json::Object(y)) => {
            let mut i: usize = 0;
            while i < x.len() && i < y.len()
                invariant
                    *a == Json::Object(*x),
                    i <= x@.len(),
                    i <= y@.len(),
                    members_order(members(x@), members(y@), 0) == members_order(members(x@), members(y@), i + 0),
                    order(a@, b@) == members_order(members(x@), members(y@), 0),
                decreases x@.len() - i,
            {
                assert(decreases_to!(*a => a->Object_0));
                assert(decreases_to!(*x => x[i + 0]));
                assert(decreases_to!(x[i + 0] => x[i + 0].1));
                let k = text_order(x[i].0.as_str(), y[i].0.as_str());
                if !is_tie(&k) {
                    return k;
                }
                let o = json_cmp(&x[i].1, &y[i].1);
                if !is_tie(&o) {
                    return o;
                }
                i += 1;
            }
            len_order(x.len(), y.len())
        },
        _ => {
            let x = type_rank(a);
            let y = type_rank(b);
            if x < y {
                Ordering::Less
            } else if x > y {
                Ordering::Greater
            } else {
                Ordering::Equal
            }
        },
    }
}

/// The same value, where numbers are the same as far as they are worth the same.
pub open spec fn alike(a: JsonView, b: JsonView) -> bool
    decreases a,
{
    match (a, b) {
        (JsonView::Number(x), JsonView::Number(y)) => x.worth() == y.worth(),
        (JsonView::Array(x), JsonView::Array(y)) => x.len() == y.len() && forall|i: int| 0 <= i < x.len() ==> alike(#[trigger] x[i], y[i]),
        (JsonView::Object(x), JsonView::Object(y)) => {
            &&& x.len() == y.len()
            &&& forall|i: int| 0 <= i < x.len() ==> (#[trigger] x[i]).0 == y[i].0 && alike(x[i].1, y[i].1)
        },
        _ => a == b,
    }
}

impl JsonView {
    /// Every number in the value is whole.
    pub open spec fn is_integral(self) -> bool
        decreases self,
    {
        match self {
            JsonView::Number(n) => n.is_whole(),
            JsonView::Array(v) => forall|i: int| 0 <= i < v.len() ==> (#[trigger] v[i]).is_integral(),
            JsonView::Object(m) => forall|i: int| 0 <= i < m.len() ==> (#[trigger] m[i]).1.is_integral(),
            _ => true,
        }
    }
}

/// Comparing the other way round gives the opposite answer.
pub proof fn law_the_order_is_antisymmetric(a: JsonView, b: JsonView)
    ensures
        order(b, a) == -order(a, b),
        -1 <= order(a, b) <= 1,
    decreases a, 0int,
{
    match (a, b) {
        (JsonView::Str(x), JsonView::Str(y)) => {
            lemma_text_order(x, y);
        },
        (JsonView::Array(x), JsonView::Array(y)) => {
            lemma_values_antisymmetric(x, y, 0);
        },
        (JsonView::Object(x), JsonView::Object(y)) => {
            lemma_members_antisymmetric(x, y, 0);
        },
        _ => {},
    }
}

proof fn lemma_values_antisymmetric(x: Seq<JsonView>, y: Seq<JsonView>, i: int)
    requires
        0 <= i,
    ensures
        values_order(y, x, i) == -values_order(x, y, i),
        -1 <= values_order(x, y, i) <= 1,
    decreases x, x.len() - i,
{
    if i < x.len() && i < y.len() {
        law_the_order_is_antisymmetric(x[i], y[i]);
        lemma_values_antisymmetric(x, y, i + 1);
    }
}

proof fn lemma_members_antisymmetric(x: Members, y: Members, i: int)
    requires
        0 <= i,
    ensures
        members_order(y, x, i) == -members_order(x, y, i),
        -1 <= members_order(x, y, i) <= 1,
    decreases x, x.len() - i,
{
    if i < x.len() && i < y.len() {
        lemma_text_order(x[i].0, y[i].0);
        law_the_order_is_antisymmetric(x[i].1, y[i].1);
        lemma_members_antisymmetric(x, y, i + 1);
    }
}

/// Whether signs compose: a step down after a step down or none is a step down.
pub open spec fn composes(ab: int, bc: int, ac: int) -> bool {
    &&& ab <= 0 && bc <= 0 ==> ac <= 0
    &&& ab <= 0 && bc < 0 ==> ac < 0
    &&& ab < 0 && bc <= 0 ==> ac < 0
}

proof fn lemma_text_composes(a: Seq<char>, b: Seq<char>, c: Seq<char>)
    ensures
        composes(text_sign(a, b), text_sign(b, c), text_sign(a, c)),
{
    lemma_text_order(a, b);
    lemma_text_order(b, c);
    lemma_text_order(a, c);
    if text_before(a, b) && text_before(b, c) {
        lemma_text_before_transitive(a, b, c);
    }
}

/// What sorts no later than something that sorts no later than a third sorts no later than the
/// third, and strictly so where either step is strict.
pub proof fn law_the_order_is_transitive(a: JsonView, b: JsonView, c: JsonView)
    ensures
        composes(order(a, b), order(b, c), order(a, c)),
    decreases a, 0int,
{
    match (a, b, c) {
        (JsonView::Str(x), JsonView::Str(y), JsonView::Str(z)) => {
            lemma_text_composes(x, y, z);
        },
        (JsonView::Array(x), JsonView::Array(y), JsonView::Array(z)) => {
            lemma_values_compose(x, y, z, 0);
        },
        (JsonView::Object(x), JsonView::Object(y), JsonView::Object(z)) => {
            lemma_members_compose(x, y, z, 0);
        },
        _ => {},
    }
}

proof fn lemma_values_compose(x: Seq<JsonView>, y: Seq<JsonView>, z: Seq<JsonView>, i: int)
    requires
        0 <= i,
        i <= x.len() && i <= y.len() && i <= z.len(),
    ensures
        composes(values_order(x, y, i), values_order(y, z, i), values_order(x, z, i)),
    decreases x, x.len() - i,
{
    if i < x.len() && i < y.len() && i < z.len() {
        law_the_order_is_transitive(x[i], y[i], z[i]);
        law_the_order_is_antisymmetric(x[i], y[i]);
        law_the_order_is_antisymmetric(y[i], z[i]);
        law_the_order_is_antisymmetric(x[i], z[i]);
        lemma_even(x[i], y[i], z[i]);
        lemma_values_compose(x, y, z, i + 1);
    }
}

proof fn lemma_members_compose(x: Members, y: Members, z: Members, i: int)
    requires
        0 <= i,
        i <= x.len() && i <= y.len() && i <= z.len(),
    ensures
        composes(members_order(x, y, i), members_order(y, z, i), members_order(x, z, i)),
    decreases x, x.len() - i,
{
    if i < x.len() && i < y.len() && i < z.len() {
        lemma_text_composes(x[i].0, y[i].0, z[i].0);
        law_the_order_is_transitive(x[i].1, y[i].1, z[i].1);
        law_the_order_is_antisymmetric(x[i].1, y[i].1);
        law_the_order_is_antisymmetric(y[i].1, z[i].1);
        law_the_order_is_antisymmetric(x[i].1, z[i].1);
        lemma_even(x[i].1, y[i].1, z[i].1);
        lemma_members_compose(x, y, z, i + 1);
    }
}

proof fn lemma_alike_transitive(a: JsonView, b: JsonView, c: JsonView)
    requires
        alike(a, b),
        alike(b, c),
    ensures
        alike(a, c),
    decreases a,
{
    match (a, b, c) {
        (JsonView::Array(x), JsonView::Array(y), JsonView::Array(z)) => {
            assert forall|i: int| 0 <= i < x.len() implies alike(#[trigger] x[i], z[i]) by {
                assert(alike(x[i], y[i]) && alike(y[i], z[i]));
                lemma_alike_transitive(x[i], y[i], z[i]);
            }
        },
        (JsonView::Object(x), JsonView::Object(y), JsonView::Object(z)) => {
            assert forall|i: int| 0 <= i < x.len() implies (#[trigger] x[i]).0 == z[i].0 && alike(x[i].1, z[i].1) by {
                assert(x[i].0 == y[i].0 && y[i].0 == z[i].0);
                lemma_alike_transitive(x[i].1, y[i].1, z[i].1);
            }
        },
        _ => {},
    }
}

/// Two ties in a row are a tie.
proof fn lemma_even(a: JsonView, b: JsonView, c: JsonView)
    ensures
        order(a, b) == 0 && order(b, c) == 0 ==> order(a, c) == 0,
{
    law_a_tie_is_equality(a, b);
    law_a_tie_is_equality(b, c);
    law_a_tie_is_equality(a, c);
    if alike(a, b) && alike(b, c) {
        lemma_alike_transitive(a, b, c);
    }
}

/// No two values tie but those that are equal, up to how a number is written.
pub proof fn law_a_tie_is_equality(a: JsonView, b: JsonView)
    ensures
        order(a, b) == 0 <==> alike(a, b),
    decreases a, 0int,
{
    match (a, b) {
        (JsonView::Str(x), JsonView::Str(y)) => {
            lemma_text_order(x, y);
        },
        (JsonView::Array(x), JsonView::Array(y)) => {
            lemma_values_tie(x, y, 0);
            assert forall|j: int| 0 <= j < x.len() && j < y.len() implies (order(#[trigger] x[j], y[j]) == 0 <==> alike(x[j], y[j])) by {
                law_a_tie_is_equality(x[j], y[j]);
            }
        },
        (JsonView::Object(x), JsonView::Object(y)) => {
            lemma_members_tie(x, y, 0);
            assert forall|j: int| 0 <= j < x.len() && j < y.len() implies (order((#[trigger] x[j]).1, y[j].1) == 0 <==> alike(x[j].1, y[j].1)) by {
                law_a_tie_is_equality(x[j].1, y[j].1);
            }
        },
        _ => {},
    }
}

/// Of values whose numbers are all whole, no two tie but equal ones.
pub proof fn law_whole_values_tie_only_with_themselves(a: JsonView, b: JsonView)
    requires
        a.is_integral(),
        b.is_integral(),
    ensures
        order(a, b) == 0 <==> a == b,
{
    law_a_tie_is_equality(a, b);
    lemma_whole_values_alike(a, b);
}

proof fn lemma_whole_values_alike(a: JsonView, b: JsonView)
    requires
        a.is_integral(),
        b.is_integral(),
    ensures
        alike(a, b) <==> a == b,
    decreases a,
{
    match (a, b) {
        (JsonView::Number(x), JsonView::Number(y)) => {
            law_whole_numbers_compare_as_integers(x, y);
        },
        (JsonView::Array(x), JsonView::Array(y)) => {
            assert forall|j: int| 0 <= j < x.len() && j < y.len() implies (alike(#[trigger] x[j], y[j]) <==> x[j] == y[j]) by {
                lemma_whole_values_alike(x[j], y[j]);
            }
            if alike(a, b) {
                assert(x =~= y);
            }
        },
        (JsonView::Object(x), JsonView::Object(y)) => {
            assert forall|j: int| 0 <= j < x.len() && j < y.len() implies (alike((#[trigger] x[j]).1, y[j].1) <==> x[j].1 == y[j].1) by {
                lemma_whole_values_alike(x[j].1, y[j].1);
            }
            if alike(a, b) {
                assert forall|j: int| 0 <= j < x.len() implies x[j] == y[j] by {
                    assert(x[j].0 == y[j].0 && x[j].1 == y[j].1);
                }
                assert(x =~= y);
            }
        },
        _ => {},
    }
}

/// Values of different types sort by type: nulls, booleans, numbers, texts, arrays, objects.
pub proof fn law_types_sort_in_rank_order(a: JsonView, b: JsonView)
    requires
        a.rank() < b.rank(),
    ensures
        order(a, b) == -1,
{
}

proof fn lemma_values_tie(x: Seq<JsonView>, y: Seq<JsonView>, i: int)
    requires
        0 <= i <= x.len(),
        i <= y.len(),
    ensures
        values_order(x, y, i) == 0 <==> (x.len() == y.len() && forall|j: int| i <= j < x.len() ==> order(#[trigger] x[j], y[j]) == 0),
    decreases x.len() - i,
{
    if i < x.len() && i < y.len() {
        lemma_values_tie(x, y, i + 1);
    }
}

proof fn lemma_members_tie(x: Members, y: Members, i: int)
    requires
        0 <= i <= x.len(),
        i <= y.len(),
    ensures
        members_order(x, y, i) == 0 <==> (x.len() == y.len() && forall|j: int| i <= j < x.len() ==> (#[trigger] x[j]).0 == y[j].0
            && order(x[j].1, y[j].1) == 0),
    decreases x.len() - i,
{
    if i < x.len() && i < y.len() {
        lemma_members_tie(x, y, i + 1);
    }
}

// ---- Reading ----

impl JsonView {
    /// The member of an object under a key.
    pub open spec fn member(self, k: Seq<char>) -> Option<JsonView> {
        match self {
            JsonView::Object(m) => lookup(m, k),
            _ => None,
        }
    }

    /// The value of a non-negative integer.
    pub open spec fn number(self) -> Option<u64> {
        match self {
            JsonView::Number(n) => match n {
                JsonNumber::PosInt(v) => Some(v),
                _ => None,
            },
            _ => None,
        }
    }

    /// Whether the value is `true`; `None` where it is no boolean.
    pub open spec fn truth(self) -> Option<bool> {
        match self {
            JsonView::Bool(b) => Some(b),
            _ => None,
        }
    }

    /// The text of a string.
    pub open spec fn text(self) -> Option<Seq<char>> {
        match self {
            JsonView::Str(s) => Some(s),
            _ => None,
        }
    }
}

/// A member of a well-formed object is well-formed.
pub proof fn lemma_member_wf(j: JsonView, k: Seq<char>)
    requires
        j.wf(),
    ensures
        j.member(k) is Some ==> j.member(k)->0.wf(),
{
    if let JsonView::Object(m) = j {
        lemma_found(m, k);
        if lookup(m, k) is Some {
            let i = choose|i: int| 0 <= i < m.len() && #[trigger] m[i] == (k, lookup(m, k)->0);
            assert(m[i].1.wf());
        }
    }
}

impl Json {
    /// The member of an object under a key.
    pub fn get(&self, key: &str) -> (r: Option<&Json>)
        requires
            self@.wf(),
        ensures
            match r {
                Some(j) => self@.member(key@) == Some(j@) && j@.wf(),
                None => self@.member(key@) is None,
            },
    {
        proof {
            lemma_model(*self);
            lemma_member_wf(self@, key@);
        }
        match self {
            Json::Object(m) => find_member(m, key),
            _ => None,
        }
    }

    /// The value of a non-negative integer.
    pub fn as_u64(&self) -> (r: Option<u64>)
        ensures
            r == self@.number(),
    {
        match self {
            Json::Number(n) => match n {
                JsonNumber::PosInt(v) => Some(*v),
                _ => None,
            },
            _ => None,
        }
    }

    /// The text of a string.
    pub fn as_str(&self) -> (r: Option<&str>)
        ensures
            match r {
                Some(s) => self@.text() == Some(s@),
                None => self@.text() is None,
            },
    {
        match self {
            Json::Str(s) => Some(s.as_str()),
            _ => None,
        }
    }

    pub fn as_bool(&self) -> (r: Option<bool>)
        ensures
            r == self@.truth(),
    {
        match self {
            Json::Bool(b) => Some(*b),
            _ => None,
        }
    }

    pub fn is_null(&self) -> (r: bool)
        ensures
            r == (self@ is Null),
    {
        match self {
            Json::Null => true,
            _ => false,
        }
    }

    /// The object with these members. Of two with one key the later stands.
    pub fn object(pairs: Vec<(String, Json)>) -> (r: Json)
        requires
            forall|i: int| 0 <= i < pairs@.len() ==> (#[trigger] pairs@[i]).1@.wf(),
        ensures
            r@ == JsonView::Object(gathered(members(pairs@))),
            r@.wf(),
    {
        let ghost given = members(pairs@);
        let mut out: Vec<(String, Json)> = Vec::new();
        let mut i: usize = 0;
        assert(given.take(0) =~= Seq::empty());
        assert(members(out@) =~= gathered(given.take(0)));
        while i < pairs.len()
            invariant
                given == members(pairs@),
                forall|k: int| 0 <= k < pairs@.len() ==> (#[trigger] pairs@[k]).1@.wf(),
                i <= pairs@.len(),
                members(out@) == gathered(given.take(i as int)),
                JsonView::Object(members(out@)).wf(),
            decreases pairs@.len() - i,
        {
            proof {
                lemma_take_grows(given, i as int);
                lemma_put_wf(members(out@), pairs@[i as int].0@, pairs@[i as int].1@);
            }
            out = put_member(out, pairs[i].0.as_str(), pairs[i].1.clone());
            i += 1;
        }
        proof {
            lemma_take_all(given);
            lemma_model(Json::Object(out));
        }
        Json::Object(out)
    }
}

/// The members of a list of pairs, the later of two with one key.
pub open spec fn gathered(pairs: Members) -> Members
    decreases pairs.len(),
{
    if pairs.len() == 0 {
        Seq::empty()
    } else {
        put(gathered(pairs.drop_last()), pairs.last().0, pairs.last().1)
    }
}

/// Members in key order are what they are gathered into.
pub proof fn lemma_gathered_ordered(m: Members)
    requires
        ordered(m),
    ensures
        gathered(m) == m,
    decreases m.len(),
{
    if m.len() > 0 {
        let rest = m.drop_last();
        assert(ordered(rest)) by {
            assert forall|i: int, j: int| 0 <= i < j < rest.len() implies text_before(#[trigger] rest[i].0, #[trigger] rest[j].0) by {
                assert(rest[i] == m[i] && rest[j] == m[j]);
            }
        }
        lemma_gathered_ordered(rest);
        let k = m.last().0;
        lemma_place(rest, k);
        let p = place(rest, k);
        if p < rest.len() {
            assert(rest[p] == m[p] && m[m.len() - 1] == m.last());
            assert(text_before(m[p].0, m[m.len() - 1].0));
        }
        assert(rest.insert(p, m.last()) =~= m);
        assert(put(rest, k, m.last().1) == rest.insert(p, (k, m.last().1)));
    } else {
        assert(gathered(m) =~= m);
    }
}

/// Storing a well-formed value keeps an object well-formed; so does dropping a key.
pub proof fn lemma_put_wf(m: Members, k: Seq<char>, v: JsonView)
    requires
        JsonView::Object(m).wf(),
        v.wf(),
    ensures
        JsonView::Object(put(m, k, v)).wf(),
        JsonView::Object(drop_key(m, k)).wf(),
{
    lemma_put_ordered(m, k, v);
    lemma_drop_ordered(m, k);
    lemma_place(m, k);
    let p = place(m, k);
    let n = put(m, k, v);
    let d = drop_key(m, k);
    let there = p < m.len() && m[p].0 == k;
    assert forall|i: int| 0 <= i < n.len() implies (#[trigger] n[i]).1.wf() by {
        if i != p {
            let j = if there || i < p { i } else { i - 1 };
            assert(n[i] == m[j]);
        }
    }
    assert forall|i: int| 0 <= i < d.len() implies (#[trigger] d[i]).1.wf() by {
        let j = if !there || i < p { i } else { i + 1 };
        assert(d[i] == m[j]);
    }
}

/// What lies at the end of a path of keys.
pub open spec fn follow(j: JsonView, path: Seq<Seq<char>>) -> Option<JsonView>
    decreases path.len(),
{
    if path.len() == 0 {
        Some(j)
    } else {
        match j.member(path[0]) {
            Some(v) => follow(v, path.skip(1)),
            None => None,
        }
    }
}

/// What lies at a dotted path.
pub fn get_path_value<'a>(doc: &'a Json, path: &str) -> (r: Option<&'a Json>)
    requires
        doc@.wf(),
    ensures
        match r {
            Some(j) => follow(doc@, pieces(path@, '.')) == Some(j@) && j@.wf(),
            None => follow(doc@, pieces(path@, '.')) is None,
        },
{
    let parts = split(path, '.');
    let ghost ps = texts(parts@);
    let mut cur: &Json = doc;
    let mut i: usize = 0;
    assert(ps.skip(0) =~= ps);
    while i < parts.len()
        invariant
            ps == texts(parts@),
            ps == pieces(path@, '.'),
            i <= parts@.len(),
            cur@.wf(),
            follow(doc@, ps) == follow(cur@, ps.skip(i as int)),
        decreases parts@.len() - i,
    {
        proof {
            assert(ps.skip(i as int).skip(1) =~= ps.skip(i + 1));
            assert(ps.skip(i as int)[0] == parts@[i as int]@);
        }
        match cur.get(parts[i].as_str()) {
            Some(next) => {
                cur = next;
            },
            None => {
                return None;
            },
        }
        i += 1;
    }
    Some(cur)
}

/// The strings without the spaces around them, those that are not empty.
pub open spec fn named_fields(ps: Seq<Seq<char>>) -> Seq<Seq<char>>
    decreases ps.len(),
{
    if ps.len() == 0 {
        Seq::empty()
    } else {
        let before = named_fields(ps.drop_last());
        if trim(ps.last()).len() == 0 { before } else { before.push(trim(ps.last())) }
    }
}

/// The fields of a comma-separated list.
pub fn parse_fields(s: Option<&str>) -> (r: Vec<String>)
    ensures
        texts(r@) == (match s {
            Some(t) => named_fields(pieces(t@, ',')),
            None => Seq::empty(),
        }),
{
    let mut out: Vec<String> = Vec::new();
    match s {
        Some(t) => {
            let parts = split(t, ',');
            let ghost ps = texts(parts@);
            let mut i: usize = 0;
            assert(ps.take(0) =~= Seq::empty());
            assert(texts(out@) =~= named_fields(ps.take(0)));
            while i < parts.len()
                invariant
                    ps == texts(parts@),
                    i <= parts@.len(),
                    texts(out@) == named_fields(ps.take(i as int)),
                decreases parts@.len() - i,
            {
                proof {
                    lemma_take_grows(ps, i as int);
                }
                let ghost before = texts(out@);
                let f = trimmed(parts[i].as_str());
                if !f.as_str().is_empty() {
                    out.push(f);
                    assert(texts(out@) =~= before.push(f@));
                }
                i += 1;
            }
            proof {
                lemma_take_all(ps);
            }
        },
        None => {
            assert(texts(out@) =~= Seq::empty());
        },
    }
    out
}

// ---- Projection ----

/// The members of an object, none where the value is something else or missing.
pub open spec fn members_or_none(j: Option<JsonView>) -> Members {
    match j {
        Some(JsonView::Object(m)) => m,
        _ => Seq::empty(),
    }
}

/// The members with `v` at the end of a path of keys, objects made on the way where there are none.
pub open spec fn put_path(m: Members, path: Seq<Seq<char>>, v: JsonView) -> Members
    decreases path.len(),
{
    if path.len() == 0 {
        m
    } else if path.len() == 1 {
        put(m, path[0], v)
    } else {
        put(m, path[0], JsonView::Object(put_path(members_or_none(lookup(m, path[0])), path.skip(1), v)))
    }
}

proof fn lemma_put_after_drop(m: Members, k: Seq<char>, v: JsonView)
    requires
        ordered(m),
    ensures
        put(drop_key(m, k), k, v) == put(m, k, v),
{
    lemma_place(m, k);
    let p = place(m, k);
    let stored = put(m, k, v);
    if p < m.len() && m[p].0 == k {
        let d = drop_key(m, k);
        lemma_drop_ordered(m, k);
        lemma_place(d, k);
        let q = place(d, k);
        if q < p {
            assert(d[q] == m[q]);
        }
        if p < d.len() {
            assert(d[p] == m[p + 1]);
            assert(text_before(m[p].0, m[p + 1].0));
            lemma_text_order(m[p].0, m[p + 1].0);
        }
        assert(q == p);
        assert(put(d, k, v) == d.insert(p, (k, v)));
        assert(d.insert(p, (k, v)) =~= m.update(p, (k, v)));
    }
}

/// Takes a member out.
fn take_member(m: Vec<(String, Json)>, k: &str) -> (r: (Vec<(String, Json)>, Option<Json>))
    requires
        JsonView::Object(members(m@)).wf(),
    ensures
        members(r.0@) == drop_key(members(m@), k@),
        match r.1 {
            Some(j) => lookup(members(m@), k@) == Some(j@) && j@.wf(),
            None => lookup(members(m@), k@) is None,
        },
{
    let (i, there) = seek(&m, k);
    proof {
        lemma_place(members(m@), k@);
    }
    let ghost before = members(m@);
    let mut out = m;
    if there {
        proof {
            assert(before[i as int].1.wf());
        }
        let (_, j) = out.remove(i);
        assert(members(out@) =~= before.remove(i as int));
        (out, Some(j))
    } else {
        (out, None)
    }
}

fn set_path(map: Vec<(String, Json)>, parts: &Vec<String>, from: usize, val: Json) -> (r: Vec<(String, Json)>)
    requires
        JsonView::Object(members(map@)).wf(),
        val@.wf(),
        from <= parts@.len(),
    ensures
        members(r@) == put_path(members(map@), texts(parts@).skip(from as int), val@),
        JsonView::Object(members(r@)).wf(),
    decreases parts@.len() - from,
{
    let ghost ps = texts(parts@).skip(from as int);
    if from == parts.len() {
        return map;
    }
    let key = parts[from].as_str();
    assert(ps[0] == key@);
    assert(ps.skip(1) =~= texts(parts@).skip(from + 1));
    let ghost before = members(map@);
    proof {
        lemma_put_wf(before, key@, val@);
    }
    if from + 1 == parts.len() {
        return put_member(map, key, val);
    }
    let (rest, taken) = take_member(map, key);
    let inner: Vec<(String, Json)> = match taken {
        Some(j) => {
            proof {
                lemma_model(j);
            }
            match j {
                Json::Object(m) => m,
                _ => Vec::new(),
            }
        },
        None => Vec::new(),
    };
    assert(members(inner@) =~= members_or_none(lookup(before, key@)));
    let made = set_path(inner, parts, from + 1, val);
    let sub = Json::Object(made);
    proof {
        lemma_model(sub);
        lemma_put_after_drop(before, key@, sub@);
        lemma_put_wf(before, key@, sub@);
    }
    put_member(rest, key, sub)
}

/// The members that a list of paths picks out of a document.
pub open spec fn picked(doc: JsonView, fields: Seq<Seq<char>>) -> Members
    decreases fields.len(),
{
    if fields.len() == 0 {
        Seq::empty()
    } else {
        let before = picked(doc, fields.drop_last());
        let path = pieces(fields.last(), '.');
        match follow(doc, path) {
            Some(v) => put_path(before, path, v),
            None => before,
        }
    }
}

/// The requested paths of a document; all of it where none is requested.
pub fn project(doc: &Json, fields: &[String]) -> (r: Json)
    requires
        doc@.wf(),
    ensures
        r@ == (if fields@.len() == 0 { doc@ } else { JsonView::Object(picked(doc@, texts(fields@))) }),
        r@.wf(),
{
    if fields.len() == 0 {
        return doc.clone();
    }
    let ghost fs = texts(fields@);
    let mut out: Vec<(String, Json)> = Vec::new();
    let mut i: usize = 0;
    assert(fs.take(0) =~= Seq::empty());
    assert(members(out@) =~= picked(doc@, fs.take(0)));
    while i < fields.len()
        invariant
            doc@.wf(),
            fs == texts(fields@),
            i <= fields@.len(),
            members(out@) == picked(doc@, fs.take(i as int)),
            JsonView::Object(members(out@)).wf(),
        decreases fields@.len() - i,
    {
        proof {
            lemma_take_grows(fs, i as int);
        }
        let path = fields[i].as_str();
        match get_path_value(doc, path) {
            Some(v) => {
                let parts = split(path, '.');
                assert(texts(parts@).skip(0) =~= texts(parts@));
                out = set_path(out, &parts, 0, v.clone());
            },
            None => {},
        }
        i += 1;
    }
    proof {
        lemma_take_all(fs);
        lemma_model(Json::Object(out));
    }
    Json::Object(out)
}

// ---- Merging ----

/// A value with a patch applied: a patch that is no object replaces the value; an object patch
/// replaces or merges each member it names, and a null in it takes the member away.
pub open spec fn merge(target: JsonView, patch: JsonView) -> JsonView
    decreases patch, 0int,
{
    match patch {
        JsonView::Object(p) => JsonView::Object(merge_members(members_or_none(Some(target)), p, p.len() as int)),
        other => other,
    }
}

/// The members with the first `n` members of a patch applied.
pub open spec fn merge_members(m: Members, p: Members, n: int) -> Members
    decreases p, n,
{
    if 0 < n <= p.len() {
        let before = merge_members(m, p, n - 1);
        let (k, v) = (p[n - 1].0, p[n - 1].1);
        if v is Null {
            drop_key(before, k)
        } else {
            put(before, k, merge(match lookup(before, k) {
                Some(old) => old,
                None => JsonView::Null,
            }, v))
        }
    } else {
        m
    }
}

/// A value with a patch applied.
fn merged(target: Json, patch: &Json) -> (r: Json)
    requires
        target@.wf(),
        patch@.wf(),
    ensures
        r@ == merge(target@, patch@),
        r@.wf(),
    decreases patch,
{
    proof {
        lemma_model(*patch);
        lemma_model(target);
    }
    match patch {
        Json::Object(p) => {
            let ghost pm = members(p@);
            let mut out: Vec<(String, Json)> = match target {
                Json::Object(m) => m,
                _ => Vec::new(),
            };
            let ghost base = members(out@);
            assert(base =~= members_or_none(Some(target@)));
            let mut i: usize = 0;
            while i < p.len()
                invariant
                    *patch == Json::Object(*p),
                    pm == members(p@),
                    patch@ == JsonView::Object(pm),
                    patch@.wf(),
                    i <= p@.len(),
                    members(out@) == merge_members(base, pm, i as int),
                    JsonView::Object(members(out@)).wf(),
                decreases p@.len() - i,
            {
                let key = p[i].0.as_str();
                let ghost before = members(out@);
                proof {
                    assert(decreases_to!(*patch => patch->Object_0));
                    assert(decreases_to!(*p => p[i as int]));
                    assert(decreases_to!(p[i as int] => p[i as int].1));
                    assert(pm[i as int] == (p@[i as int].0@, p@[i as int].1@));
                    assert(pm[i as int].1.wf());
                    lemma_put_wf(before, key@, JsonView::Null);
                }
                if p[i].1.is_null() {
                    out = drop_member(out, key);
                } else {
                    let (rest, taken) = take_member(out, key);
                    let old = match taken {
                        Some(j) => j,
                        None => Json::Null,
                    };
                    let next = merged(old, &p[i].1);
                    proof {
                        lemma_put_after_drop(before, key@, next@);
                        lemma_put_wf(before, key@, next@);
                        lemma_put_wf(before, key@, next@);
                    }
                    out = put_member(rest, key, next);
                }
                i += 1;
            }
            proof {
                lemma_model(Json::Object(out));
            }
            Json::Object(out)
        },
        _ => patch.clone(),
    }
}

/// Applies a patch to a document.
pub fn merge_patch(target: &mut Json, patch: &Json)
    requires
        old(target)@.wf(),
        patch@.wf(),
    ensures
        final(target)@ == merge(old(target)@, patch@),
        final(target)@.wf(),
{
    let mut t = Json::Null;
    std::mem::swap(target, &mut t);
    *target = merged(t, patch);
}

/// Each member of a merged object depends on that member of the document and of the patch alone.
pub proof fn law_a_patch_acts_member_by_member(target: JsonView, patch: JsonView, k: Seq<char>)
    requires
        target.wf(),
        patch.wf(),
        patch is Object,
    ensures
        merge(target, patch).member(k) == match patch.member(k) {
            None => target.member(k),
            Some(JsonView::Null) => None,
            Some(v) => Some(merge(match target.member(k) {
                Some(old) => old,
                None => JsonView::Null,
            }, v)),
        },
{
    let p = patch->Object_0;
    let m = members_or_none(Some(target));
    assert(lookup(m, k) == target.member(k));
    lemma_merge_found(m, p, p.len() as int, k);
    lemma_found(p, k);
    if lookup(p, k) is Some {
        let i = choose|i: int| 0 <= i < p.len() && #[trigger] p[i] == (k, lookup(p, k)->0);
        assert(p[i].0 == k);
    }
}

proof fn lemma_merge_found(m: Members, p: Members, n: int, k: Seq<char>)
    requires
        JsonView::Object(m).wf(),
        JsonView::Object(p).wf(),
        0 <= n <= p.len(),
    ensures
        JsonView::Object(merge_members(m, p, n)).wf(),
        (forall|i: int| 0 <= i < n ==> (#[trigger] p[i]).0 != k) ==> lookup(merge_members(m, p, n), k) == lookup(m, k),
        forall|i: int| 0 <= i < n && (#[trigger] p[i]).0 == k ==> lookup(merge_members(m, p, n), k) == (if p[i].1 is Null {
            None
        } else {
            Some(merge(match lookup(m, k) {
                Some(old) => old,
                None => JsonView::Null,
            }, p[i].1))
        }),
    decreases p, n,
{
    if n > 0 {
        let before = merge_members(m, p, n - 1);
        let (q, v) = (p[n - 1].0, p[n - 1].1);
        lemma_merge_found(m, p, n - 1, k);
        lemma_merge_found(m, p, n - 1, q);
        assert(v.wf());
        let old = match lookup(before, q) {
            Some(old) => old,
            None => JsonView::Null,
        };
        lemma_member_wf(JsonView::Object(before), q);
        lemma_merge_wf(old, v);
        lemma_put_wf(before, q, merge(old, v));
        law_members_are_a_map(before, q, merge(old, v), k);
        assert forall|i: int| 0 <= i < n - 1 implies (#[trigger] p[i]).0 != q by {
            lemma_unique_key(p, i, n - 1);
        }
        assert(lookup(before, q) == lookup(m, q));
    }
}

/// A well-formed value with a well-formed patch applied is well-formed.
pub proof fn lemma_merge_wf(target: JsonView, patch: JsonView)
    requires
        target.wf(),
        patch.wf(),
    ensures
        merge(target, patch).wf(),
    decreases patch, 0int,
{
    if let JsonView::Object(p) = patch {
        let m = members_or_none(Some(target));
        lemma_merge_found(m, p, p.len() as int, Seq::empty());
    }
}

/// A value in which no member of an object is null, at any depth that objects alone lead to.
pub open spec fn no_nulls(j: JsonView) -> bool
    decreases j,
{
    match j {
        JsonView::Object(m) => forall|i: int| 0 <= i < m.len() ==> !((#[trigger] m[i]).1 is Null) && no_nulls(m[i].1),
        _ => true,
    }
}

/// A member made by a patch holds no null placeholders.
pub proof fn law_a_new_subtree_holds_no_nulls(patch: JsonView)
    requires
        patch.wf(),
    ensures
        no_nulls(merge(JsonView::Null, patch)),
    decreases patch, 0int,
{
    lemma_merge_clean(JsonView::Null, patch);
}

/// A patch brings no null into a value without any.
proof fn lemma_merge_clean(target: JsonView, patch: JsonView)
    requires
        target.wf(),
        patch.wf(),
        no_nulls(target),
    ensures
        no_nulls(merge(target, patch)),
    decreases patch, 0int,
{
    if let JsonView::Object(p) = patch {
        let m = members_or_none(Some(target));
        assert(no_nulls(JsonView::Object(m)));
        lemma_members_clean(m, p, p.len() as int);
    }
}

proof fn lemma_members_clean(m: Members, p: Members, n: int)
    requires
        JsonView::Object(m).wf(),
        JsonView::Object(p).wf(),
        no_nulls(JsonView::Object(m)),
        0 <= n <= p.len(),
    ensures
        no_nulls(JsonView::Object(merge_members(m, p, n))),
    decreases p, n,
{
    if n > 0 {
        let before = merge_members(m, p, n - 1);
        let (k, v) = (p[n - 1].0, p[n - 1].1);
        lemma_members_clean(m, p, n - 1);
        lemma_merge_found(m, p, n - 1, k);
        assert(v.wf());
        let old = match lookup(before, k) {
            Some(old) => old,
            None => JsonView::Null,
        };
        lemma_member_wf(JsonView::Object(before), k);
        lemma_found(before, k);
        if lookup(before, k) is Some {
            let i = choose|i: int| 0 <= i < before.len() && #[trigger] before[i] == (k, lookup(before, k)->0);
            assert(no_nulls(before[i].1));
        }
        lemma_merge_clean(old, v);
        let next = merge_members(m, p, n);
        lemma_place(before, k);
        let at = place(before, k);
        let there = at < before.len() && before[at].0 == k;
        let stored = put(before, k, merge(old, v));
        assert forall|i: int| 0 <= i < next.len() implies !((#[trigger] next[i]).1 is Null) && no_nulls(next[i].1) by {
            if v is Null {
                let j = if !there || i < at { i } else { i + 1 };
                assert(next[i] == before[j]);
            } else if i != at {
                let j = if there || i < at { i } else { i - 1 };
                assert(next[i] == before[j]);
            } else {
                assert(next[i].1 == merge(old, v));
            }
        }
    }
}

/// An empty patch leaves an object as it is; a patch that is no object replaces everything.
pub proof fn law_the_plain_patches(target: JsonView, patch: JsonView)
    ensures
        target is Object && patch == JsonView::Object(Seq::empty()) ==> merge(target, patch) == target,
        !(patch is Object) ==> merge(target, patch) == patch,
{
}

/// Members in key order are told by what each key leads to.
proof fn lemma_same_lookups(a: Members, b: Members)
    requires
        ordered(a),
        ordered(b),
        forall|k: Seq<char>| #[trigger] lookup(a, k) == lookup(b, k),
    ensures
        a == b,
{
    let (ka, kb) = (keys(a), keys(b));
    assert(increasing(ka)) by {
        assert forall|i: int, j: int| 0 <= i < j < ka.len() implies text_before(#[trigger] ka[i], #[trigger] ka[j]) by {
            assert(text_before(a[i].0, a[j].0));
        }
    }
    assert(increasing(kb)) by {
        assert forall|i: int, j: int| 0 <= i < j < kb.len() implies text_before(#[trigger] kb[i], #[trigger] kb[j]) by {
            assert(text_before(b[i].0, b[j].0));
        }
    }
    assert forall|k: Seq<char>| #[trigger] ka.contains(k) <==> kb.contains(k) by {
        lemma_found(a, k);
        lemma_found(b, k);
        assert(lookup(a, k) == lookup(b, k));
        if ka.contains(k) {
            let i = choose|i: int| 0 <= i < ka.len() && ka[i] == k;
            assert(a[i].0 == k);
            let j = choose|j: int| 0 <= j < b.len() && #[trigger] b[j] == (k, lookup(b, k)->0);
            assert(kb[j] == k);
        }
        if kb.contains(k) {
            let i = choose|i: int| 0 <= i < kb.len() && kb[i] == k;
            assert(b[i].0 == k);
            let j = choose|j: int| 0 <= j < a.len() && #[trigger] a[j] == (k, lookup(a, k)->0);
            assert(ka[j] == k);
        }
    }
    lemma_increasing_unique(ka, kb);
    assert(ka.len() == a.len() && kb.len() == b.len());
    assert forall|i: int| 0 <= i < a.len() implies a[i] == b[i] by {
        assert(ka[i] == kb[i]);
        let k = a[i].0;
        lemma_found(a, k);
        lemma_found(b, k);
        assert(lookup(a, k) == lookup(b, k));
    }
    assert(a =~= b);
}

/// Applying a patch again changes nothing more.
pub proof fn law_a_patch_settles(target: JsonView, patch: JsonView)
    requires
        target.wf(),
        patch.wf(),
    ensures
        merge(merge(target, patch), patch) == merge(target, patch),
    decreases patch,
{
    if let JsonView::Object(p) = patch {
        let once = merge(target, patch);
        let twice = merge(once, patch);
        lemma_merge_wf(target, patch);
        lemma_merge_wf(once, patch);
        assert forall|k: Seq<char>| #[trigger] lookup(twice->Object_0, k) == lookup(once->Object_0, k) by {
            law_a_patch_acts_member_by_member(target, patch, k);
            law_a_patch_acts_member_by_member(once, patch, k);
            assert(twice.member(k) == lookup(twice->Object_0, k));
            assert(once.member(k) == lookup(once->Object_0, k));
            if patch.member(k) is Some && !(patch.member(k)->0 is Null) {
                lemma_found(p, k);
                let i = choose|i: int| 0 <= i < p.len() && #[trigger] p[i] == (k, lookup(p, k)->0);
                let old = match target.member(k) {
                    Some(old) => old,
                    None => JsonView::Null,
                };
                lemma_member_wf(target, k);
                assert(p[i].1.wf());
                assert(decreases_to!(patch => p));
                assert(decreases_to!(p => p[i]));
                assert(decreases_to!(p[i] => p[i].1));
                law_a_patch_settles(old, p[i].1);
            }
        }
        lemma_same_lookups(twice->Object_0, once->Object_0);
    }
}

// ---- Laws of paths and projections ----

/// What lies at a path is what lies at its last key in what lies at the rest of it.
pub proof fn law_a_path_is_followed_key_by_key(j: JsonView, path: Seq<Seq<char>>, k: Seq<char>)
    ensures
        follow(j, path.push(k)) == match follow(j, path) {
            Some(v) => v.member(k),
            None => None,
        },
        follow(j, Seq::empty()) == Some(j),
    decreases path.len(),
{
    let longer = path.push(k);
    if path.len() == 0 {
        assert(longer.skip(1) =~= Seq::empty());
        if let Some(v) = j.member(k) {
            assert(follow(v, longer.skip(1)) == Some(v));
        }
    } else {
        assert(longer[0] == path[0]);
        assert(longer.skip(1) =~= path.skip(1).push(k));
        if let Some(v) = j.member(path[0]) {
            law_a_path_is_followed_key_by_key(v, path.skip(1), k);
        }
    }
}

/// Each key leads to the last of the pairs that have it, and to nothing where none has.
pub proof fn law_the_last_of_one_key_is_kept(pairs: Members, k: Seq<char>, i: int)
    ensures
        ordered(gathered(pairs)),
        (forall|j: int| 0 <= j < pairs.len() ==> (#[trigger] pairs[j]).0 != k) ==> lookup(gathered(pairs), k) is None,
        0 <= i < pairs.len() && pairs[i].0 == k && (forall|j: int| i < j < pairs.len() ==> (#[trigger] pairs[j]).0 != k) ==> lookup(
            gathered(pairs),
            k,
        ) == Some(pairs[i].1),
    decreases pairs.len(),
{
    if pairs.len() > 0 {
        let rest = pairs.drop_last();
        law_the_last_of_one_key_is_kept(rest, k, i);
        law_members_are_a_map(gathered(rest), pairs.last().0, pairs.last().1, k);
        assert(pairs[pairs.len() - 1] == pairs.last());
        assert(forall|j: int| 0 <= j < rest.len() ==> rest[j] == pairs[j]);
    }
}

/// Whether a value is another with members left out, at any depth.
pub open spec fn within(a: JsonView, b: JsonView) -> bool
    decreases a,
{
    a == b || match (a, b) {
        (JsonView::Object(x), JsonView::Object(y)) => forall|i: int|
            0 <= i < x.len() ==> lookup(y, (#[trigger] x[i]).0) is Some && within(x[i].1, lookup(y, x[i].0)->0),
        _ => false,
    }
}

proof fn lemma_within_member(x: Members, y: Members, k: Seq<char>)
    requires
        ordered(x),
        ordered(y),
        within(JsonView::Object(x), JsonView::Object(y)),
        lookup(x, k) is Some,
    ensures
        lookup(y, k) is Some,
        within(lookup(x, k)->0, lookup(y, k)->0),
{
    lemma_found(x, k);
    let i = choose|i: int| 0 <= i < x.len() && #[trigger] x[i] == (k, lookup(x, k)->0);
    if JsonView::Object(x) != JsonView::Object(y) {
        assert(lookup(y, x[i].0) is Some);
    }
}

/// What lies at a path of a value lies there, in more of it, in every value that it is part of.
proof fn lemma_within_follow(a: JsonView, b: JsonView, q: Seq<Seq<char>>)
    requires
        a.wf(),
        b.wf(),
        within(a, b),
        follow(a, q) is Some,
    ensures
        follow(b, q) is Some,
        within(follow(a, q)->0, follow(b, q)->0),
    decreases q.len(),
{
    if q.len() > 0 {
        let x = a->Object_0;
        assert(a == JsonView::Object(x));
        assert(b is Object);
        lemma_within_member(x, b->Object_0, q[0]);
        lemma_member_wf(a, q[0]);
        lemma_member_wf(b, q[0]);
        lemma_within_follow(a.member(q[0])->0, b.member(q[0])->0, q.skip(1));
    }
}

proof fn lemma_put_same(m: Members, k: Seq<char>)
    requires
        ordered(m),
        lookup(m, k) is Some,
    ensures
        put(m, k, lookup(m, k)->0) == m,
{
    let n = put(m, k, lookup(m, k)->0);
    law_members_are_a_map(m, k, lookup(m, k)->0, k);
    assert forall|q: Seq<char>| #[trigger] lookup(n, q) == lookup(m, q) by {
        law_members_are_a_map(m, k, lookup(m, k)->0, q);
    }
    lemma_same_lookups(n, m);
}

proof fn lemma_put_path_same(m: Members, path: Seq<Seq<char>>)
    requires
        JsonView::Object(m).wf(),
        path.len() > 0,
        follow(JsonView::Object(m), path) is Some,
    ensures
        put_path(m, path, follow(JsonView::Object(m), path)->0) == m,
    decreases path.len(),
{
    let k = path[0];
    let v = follow(JsonView::Object(m), path)->0;
    lemma_put_same(m, k);
    if path.len() == 1 {
        assert(follow(lookup(m, k)->0, path.skip(1)) == lookup(m, k));
    } else {
        let x = lookup(m, k)->0;
        lemma_member_wf(JsonView::Object(m), k);
        assert(x is Object);
        lemma_put_path_same(x->Object_0, path.skip(1));
    }
}

/// Storing what a document has at a path into part of it gives part of it, which has that and everything
/// that was there, and nothing on other paths.
proof fn lemma_put_path(m: Members, path: Seq<Seq<char>>, doc: JsonView, q: Seq<Seq<char>>)
    requires
        JsonView::Object(m).wf(),
        doc.wf(),
        within(JsonView::Object(m), doc),
        path.len() > 0,
        follow(doc, path) is Some,
    ensures
        ({
            let made = JsonView::Object(put_path(m, path, follow(doc, path)->0));
            &&& made.wf()
            &&& within(made, doc)
            &&& follow(made, path) == follow(doc, path)
            &&& follow(JsonView::Object(m), q) == follow(doc, q) && follow(doc, q) is Some ==> follow(made, q) == follow(doc, q)
            &&& q.len() > 0 && follow(made, q) is Some ==> follow(JsonView::Object(m), q) is Some || q.is_prefix_of(path)
                || path.is_prefix_of(q)
        }),
    decreases path.len(),
{
    let k = path[0];
    let v = follow(doc, path)->0;
    let y = doc->Object_0;
    assert(doc == JsonView::Object(y));
    let d1 = doc.member(k)->0;
    lemma_member_wf(doc, k);
    lemma_member_wf(JsonView::Object(m), k);
    let n = put_path(m, path, v);
    let made = JsonView::Object(n);
    if q.len() == 0 && JsonView::Object(m) == doc {
        lemma_put_path_same(m, path);
    }
    if path.len() == 1 {
        assert(path.skip(1) =~= Seq::empty());
        assert(follow(d1, path.skip(1)) == Some(d1));
        lemma_put_wf(m, k, v);
        assert(n == put(m, k, v));
        assert(within(v, d1));
    } else {
        let inner = members_or_none(lookup(m, k));
        assert(d1 is Object);
        if lookup(m, k) is Some {
            lemma_within_member(m, y, k);
            assert(lookup(m, k)->0 is Object);
        } else {
            assert(JsonView::Object(inner).wf());
            assert(within(JsonView::Object(inner), d1));
        }
        let rest = if q.len() > 0 { q.skip(1) } else { q };
        lemma_put_path(inner, path.skip(1), d1, rest);
        let sub = JsonView::Object(put_path(inner, path.skip(1), v));
        lemma_put_wf(m, k, sub);
        assert(n == put(m, k, sub));
    }
    let nv = if path.len() == 1 { v } else { JsonView::Object(put_path(members_or_none(lookup(m, k)), path.skip(1), v)) };
    assert(n == put(m, k, nv) && within(nv, d1) && nv.wf());
    assert forall|i: int| 0 <= i < n.len() implies lookup(y, (#[trigger] n[i]).0) is Some && within(n[i].1, lookup(y, n[i].0)->0) by {
        let c = n[i].0;
        lemma_found(n, c);
        law_members_are_a_map(m, k, nv, c);
        if c != k {
            lemma_within_member(m, y, c);
        }
    }
    law_members_are_a_map(m, k, nv, k);
    assert(follow(made, path) == follow(nv, path.skip(1)));
    if q.len() > 0 {
        law_members_are_a_map(m, k, nv, q[0]);
        if q[0] == k {
            let rest = q.skip(1);
            assert(follow(made, q) == follow(nv, rest));
            if path.len() == 1 {
                assert(follow(doc, q) == follow(d1, rest));
                assert(path.is_prefix_of(q)) by {
                    assert(q.take(1) =~= path);
                }
            } else {
                if rest.len() == 0 {
                    assert(q.is_prefix_of(path)) by {
                        assert(path.take(1) =~= q);
                    }
                    if follow(JsonView::Object(m), q) == follow(doc, q) && follow(doc, q) is Some {
                        assert(follow(d1, rest) == Some(d1));
                        assert(lookup(m, k) == Some(d1));
                        lemma_put_path_same(d1->Object_0, path.skip(1));
                    }
                } else if follow(made, q) is Some && !rest.is_prefix_of(path.skip(1)) && !path.skip(1).is_prefix_of(rest) {
                    assert(follow(JsonView::Object(m), q) is Some) by {
                        let inner = members_or_none(lookup(m, k));
                        assert(follow(JsonView::Object(inner), rest) is Some);
                        if lookup(m, k) is None {
                            assert(JsonView::Object(inner).member(rest[0]) is None);
                        }
                    }
                } else if rest.is_prefix_of(path.skip(1)) {
                    assert(q.is_prefix_of(path)) by {
                        assert(path.take(q.len() as int) =~= q) by {
                            assert forall|i: int| 0 <= i < q.len() implies path[i] == q[i] by {
                                if i > 0 {
                                    assert(path.skip(1)[i - 1] == rest[i - 1]);
                                }
                            }
                        }
                    }
                } else if path.skip(1).is_prefix_of(rest) {
                    assert(path.is_prefix_of(q)) by {
                        assert(q.take(path.len() as int) =~= path) by {
                            assert forall|i: int| 0 <= i < path.len() implies path[i] == q[i] by {
                                if i > 0 {
                                    assert(path.skip(1)[i - 1] == rest[i - 1]);
                                }
                            }
                        }
                    }
                }
            }
        } else {
            assert(follow(made, q) == follow(JsonView::Object(m), q));
        }
    }
}

proof fn lemma_picked(doc: JsonView, fields: Seq<Seq<char>>, q: Seq<Seq<char>>)
    requires
        doc.wf(),
        doc is Object,
    ensures
        ({
            let made = JsonView::Object(picked(doc, fields));
            &&& made.wf()
            &&& within(made, doc)
            &&& forall|i: int|
                0 <= i < fields.len() && follow(doc, pieces(#[trigger] fields[i], '.')) is Some ==> follow(made, pieces(fields[i], '.'))
                    == follow(doc, pieces(fields[i], '.'))
            &&& q.len() > 0 && follow(made, q) is Some ==> exists|i: int|
                0 <= i < fields.len() && follow(doc, pieces(#[trigger] fields[i], '.')) is Some && (q.is_prefix_of(pieces(fields[i], '.'))
                    || pieces(fields[i], '.').is_prefix_of(q))
        }),
    decreases fields.len(),
{
    let made = JsonView::Object(picked(doc, fields));
    if fields.len() == 0 {
        assert(made->Object_0 =~= Seq::empty());
        if q.len() > 0 {
            assert(made.member(q[0]) is None);
        }
    } else {
        let rest = fields.drop_last();
        let before = picked(doc, rest);
        let path = pieces(fields.last(), '.');
        let last = fields.len() - 1;
        assert(fields[last] == fields.last());
        crate::text::lemma_pieces_nonempty(fields.last(), '.');
        lemma_picked(doc, rest, q);
        if follow(doc, path) is Some {
            lemma_put_path(before, path, doc, q);
            assert forall|i: int| 0 <= i < fields.len() && follow(doc, pieces(#[trigger] fields[i], '.')) is Some implies follow(
                made,
                pieces(fields[i], '.'),
            ) == follow(doc, pieces(fields[i], '.')) by {
                if i < last {
                    assert(rest[i] == fields[i]);
                    lemma_put_path(before, path, doc, pieces(fields[i], '.'));
                }
            }
        } else {
            assert forall|i: int| 0 <= i < fields.len() && follow(doc, pieces(#[trigger] fields[i], '.')) is Some implies follow(
                made,
                pieces(fields[i], '.'),
            ) == follow(doc, pieces(fields[i], '.')) by {
                assert(rest[i] == fields[i]);
            }
        }
        if q.len() > 0 && follow(made, q) is Some {
            if follow(JsonView::Object(before), q) is Some {
                let i = choose|i: int|
                    0 <= i < rest.len() && follow(doc, pieces(#[trigger] rest[i], '.')) is Some && (q.is_prefix_of(pieces(rest[i], '.'))
                        || pieces(rest[i], '.').is_prefix_of(q));
                assert(fields[i] == rest[i]);
            } else {
                assert(follow(doc, pieces(fields[last], '.')) is Some);
            }
        }
    }
}

/// Every requested path leads in a projection to what it leads to in the document, however many are
/// requested under one parent and in whatever order.
pub proof fn law_a_projection_keeps_every_requested_path(doc: JsonView, fields: Seq<Seq<char>>, i: int)
    requires
        doc.wf(),
        doc is Object,
        0 <= i < fields.len(),
    ensures
        follow(JsonView::Object(picked(doc, fields)), pieces(fields[i], '.')) == follow(doc, pieces(fields[i], '.')),
{
    let made = JsonView::Object(picked(doc, fields));
    let path = pieces(fields[i], '.');
    lemma_picked(doc, fields, path);
    if follow(doc, path) is None && follow(made, path) is Some {
        lemma_within_follow(made, doc, path);
    }
}

/// A projection has nothing that the document does not have, and nothing that no request asks for: every
/// path in it leads somewhere in the document, and lies on the way to a requested one or behind it.
pub proof fn law_a_projection_adds_nothing(doc: JsonView, fields: Seq<Seq<char>>, q: Seq<Seq<char>>)
    requires
        doc.wf(),
        doc is Object,
        q.len() > 0,
        follow(JsonView::Object(picked(doc, fields)), q) is Some,
    ensures
        follow(doc, q) is Some,
        !(follow(doc, q)->0 is Object) ==> follow(JsonView::Object(picked(doc, fields)), q) == follow(doc, q),
        exists|i: int| 0 <= i < fields.len() && (q.is_prefix_of(pieces(#[trigger] fields[i], '.')) || pieces(fields[i], '.').is_prefix_of(q)),
{
    let made = JsonView::Object(picked(doc, fields));
    lemma_picked(doc, fields, q);
    lemma_within_follow(made, doc, q);
    let i = choose|i: int|
        0 <= i < fields.len() && follow(doc, pieces(#[trigger] fields[i], '.')) is Some && (q.is_prefix_of(pieces(fields[i], '.'))
            || pieces(fields[i], '.').is_prefix_of(q));
    assert(q.is_prefix_of(pieces(fields[i], '.')) || pieces(fields[i], '.').is_prefix_of(q));
}

/// A document that is no object has nothing to project.
pub proof fn law_only_an_object_is_projected(doc: JsonView, fields: Seq<Seq<char>>)
    requires
        !(doc is Object),
    ensures
        picked(doc, fields).len() == 0,
    decreases fields.len(),
{
    if fields.len() > 0 {
        law_only_an_object_is_projected(doc, fields.drop_last());
        crate::text::lemma_pieces_nonempty(fields.last(), '.');
    }
}

/// The fields of a list are its pieces without the spaces around them, but for those that are blank.
pub proof fn law_every_named_field_is_kept(ps: Seq<Seq<char>>, f: Seq<char>)
    ensures
        named_fields(ps).contains(f) <==> f.len() > 0 && exists|i: int| 0 <= i < ps.len() && trim(#[trigger] ps[i]) == f,
    decreases ps.len(),
{
    lemma_joined_hold::<Seq<char>>();
    if ps.len() > 0 {
        let rest = ps.drop_last();
        law_every_named_field_is_kept(rest, f);
        assert(forall|i: int| 0 <= i < rest.len() ==> rest[i] == ps[i]);
        assert(ps[ps.len() - 1] == ps.last());
        if named_fields(rest).contains(f) {
            let i = choose|i: int| 0 <= i < rest.len() && trim(#[trigger] rest[i]) == f;
            assert(trim(ps[i]) == f);
        }
        if exists|i: int| 0 <= i < ps.len() && trim(#[trigger] ps[i]) == f {
            let i = choose|i: int| 0 <= i < ps.len() && trim(#[trigger] ps[i]) == f;
            if i < rest.len() {
                assert(trim(rest[i]) == f);
            }
        }
    }
}

/// Plain values sort as they read: false before true, numbers by what they are worth, texts by their
/// bytes.
pub proof fn law_plain_values_sort_as_they_read(a: bool, b: bool, x: JsonNumber, y: JsonNumber, s: Seq<char>, t: Seq<char>)
    ensures
        order(JsonView::Bool(a), JsonView::Bool(b)) < 0 <==> !a && b,
        order(JsonView::Number(x), JsonView::Number(y)) < 0 <==> x.worth() < y.worth(),
        order(JsonView::Str(s), JsonView::Str(t)) < 0 <==> text_before(s, t),
{
    lemma_text_order(s, t);
}

/// The first elements in which two arrays differ sort them, and where there are none the shorter comes
/// first.
pub proof fn law_the_first_difference_sorts_arrays(x: Seq<JsonView>, y: Seq<JsonView>, i: int)
    requires
        0 <= i <= x.len(),
        i <= y.len(),
        forall|j: int| 0 <= j < i ==> order(#[trigger] x[j], y[j]) == 0,
    ensures
        i < x.len() && i < y.len() && order(x[i], y[i]) != 0 ==> order(JsonView::Array(x), JsonView::Array(y)) == order(x[i], y[i]),
        i == x.len() && i < y.len() ==> order(JsonView::Array(x), JsonView::Array(y)) < 0,
        i == x.len() && i == y.len() ==> order(JsonView::Array(x), JsonView::Array(y)) == 0,
{
    lemma_values_from(x, y, 0, i);
}

proof fn lemma_values_from(x: Seq<JsonView>, y: Seq<JsonView>, k: int, i: int)
    requires
        0 <= k <= i <= x.len(),
        i <= y.len(),
        forall|j: int| 0 <= j < i ==> order(#[trigger] x[j], y[j]) == 0,
    ensures
        values_order(x, y, k) == values_order(x, y, i),
    decreases i - k,
{
    if k < i {
        assert(order(x[k], y[k]) == 0);
        lemma_values_from(x, y, k + 1, i);
    }
}

/// The first members in which two objects differ sort them, by their keys before their values, and where
/// there are none the one with fewer members comes first.
pub proof fn law_the_first_difference_sorts_objects(x: Members, y: Members, i: int)
    requires
        0 <= i <= x.len(),
        i <= y.len(),
        forall|j: int| 0 <= j < i ==> (#[trigger] x[j]).0 == y[j].0 && order(x[j].1, y[j].1) == 0,
    ensures
        i < x.len() && i < y.len() && x[i].0 != y[i].0 ==> (order(JsonView::Object(x), JsonView::Object(y)) < 0 <==> text_before(
            x[i].0,
            y[i].0,
        )),
        i < x.len() && i < y.len() && x[i].0 == y[i].0 && order(x[i].1, y[i].1) != 0 ==> order(JsonView::Object(x), JsonView::Object(y))
            == order(x[i].1, y[i].1),
        i == x.len() && i < y.len() ==> order(JsonView::Object(x), JsonView::Object(y)) < 0,
        i == x.len() && i == y.len() ==> order(JsonView::Object(x), JsonView::Object(y)) == 0,
{
    lemma_members_from(x, y, 0, i);
    if i < x.len() && i < y.len() {
        lemma_text_order(x[i].0, y[i].0);
        lemma_text_order(x[i].0, x[i].0);
    }
}

proof fn lemma_members_from(x: Members, y: Members, k: int, i: int)
    requires
        0 <= k <= i <= x.len(),
        i <= y.len(),
        forall|j: int| 0 <= j < i ==> (#[trigger] x[j]).0 == y[j].0 && order(x[j].1, y[j].1) == 0,
    ensures
        members_order(x, y, k) == members_order(x, y, i),
    decreases i - k,
{
    if k < i {
        assert(x[k].0 == y[k].0 && order(x[k].1, y[k].1) == 0);
        lemma_text_order(x[k].0, x[k].0);
        lemma_members_from(x, y, k + 1, i);
    }
}

} // verus!
