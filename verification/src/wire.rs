//! JSON text: read into values, written from them, and carried in opaque tokens.

use crate::escape::{decode_token, encode_token, law_a_token_reads_back, token, token_bytes};
use crate::json::{
    gathered, lemma_gathered_ordered, lemma_model, lookup, members, ordered, values, Json, JsonNumber, JsonView,
    Members,
};
use crate::text::{text_before, text_of_bytes};
use vstd::prelude::*;
use vstd::utf8::{decode_utf8, encode_utf8, encode_utf8_decode_utf8, encode_utf8_valid_utf8, valid_utf8};

verus! {

#[verifier::external_type_specification]
#[verifier::external_body]
pub struct ExValue(serde_json::Value);

/// What a `serde_json::Value` holds.
pub uninterp spec fn held(v: serde_json::Value) -> JsonView;

/// What `serde_json::from_str` reads in a text, where the text is JSON.
pub uninterp spec fn json_text(text: Seq<char>) -> Option<JsonView>;

/// The number that is `above` as a whole number from zero up, `whole` as any whole number, and the
/// double with these bits where it is neither.
pub open spec fn number_of(above: Option<u64>, whole: Option<i64>, bits: u64) -> JsonNumber {
    if above is Some {
        JsonNumber::PosInt(above->0)
    } else if whole is Some {
        JsonNumber::NegInt(whole->0)
    } else {
        JsonNumber::Double(bits)
    }
}

/// The outermost layer of a value.
enum Layer<'a> {
    Null,
    Bool(bool),
    Number { above: Option<u64>, whole: Option<i64>, bits: Option<u64> },
    Str(&'a String),
    Array(&'a Vec<serde_json::Value>),
    Object(Vec<(&'a String, &'a serde_json::Value)>),
}

/// What a list of values holds.
pub open spec fn all_held(v: Seq<serde_json::Value>) -> Seq<JsonView> {
    Seq::new(v.len(), |i: int| held(v[i]))
}

/// What a list of members holds.
pub open spec fn members_held(m: Seq<(&String, &serde_json::Value)>) -> Members {
    Seq::new(m.len(), |i: int| (m[i].0@, held(*m[i].1)))
}

/// Tells the variants of `serde_json::Value` apart. A number is told by `as_u64`, `as_i64` and the bits
/// of `as_f64`, of which the last always is. The members of an object, a `serde_json::Map`, come in
/// key order, each key once.
#[verifier::external_body]
fn layer<'a>(v: &'a serde_json::Value) -> (r: Layer<'a>)
    ensures
        match r {
            Layer::Null => held(*v) == JsonView::Null,
            Layer::Bool(b) => held(*v) == JsonView::Bool(b),
            Layer::Number { above, whole, bits } => bits is Some && held(*v) == JsonView::Number(number_of(above, whole, bits->0)),
            Layer::Str(s) => held(*v) == JsonView::Str(s@),
            Layer::Array(a) => held(*v) == JsonView::Array(all_held(a@)),
            Layer::Object(m) => held(*v) == JsonView::Object(members_held(m@)) && ordered(members_held(m@)),
        },
{
    match v {
        serde_json::Value::Null => Layer::Null,
        serde_json::Value::Bool(b) => Layer::Bool(*b),
        serde_json::Value::Number(n) => Layer::Number {
            above: n.as_u64(),
            whole: n.as_i64(),
            bits: n.as_f64().map(|x| x.to_bits()),
        },
        serde_json::Value::String(s) => Layer::Str(s),
        serde_json::Value::Array(a) => Layer::Array(a),
        serde_json::Value::Object(m) => Layer::Object(m.iter().collect()),
    }
}

/// `serde_json::from_str` into a value. A text that is no JSON gives none.
#[verifier::external_body]
fn read_value(text: &str) -> (r: Option<serde_json::Value>)
    ensures
        (match r {
            Some(v) => Some(held(v)),
            None => None,
        }) == json_text(text@),
{
    serde_json::from_str::<serde_json::Value>(text).ok()
}

fn number_from(above: Option<u64>, whole: Option<i64>, bits: u64) -> (r: JsonNumber)
    ensures
        r == number_of(above, whole, bits),
{
    match above {
        Some(u) => JsonNumber::PosInt(u),
        None => match whole {
            Some(i) => JsonNumber::NegInt(i),
            None => JsonNumber::Double(bits),
        },
    }
}

/// A value as the library holds it.
pub fn json_of(v: &serde_json::Value) -> (r: Json)
    ensures
        r@ == held(*v),
        held(*v).wf(),
    decreases held(*v),
{
    match layer(v) {
        Layer::Null => Json::Null,
        Layer::Bool(b) => Json::Bool(b),
        Layer::Number { above, whole, bits } => {
            let b: u64 = match bits {
                Some(b) => b,
                None => 0,
            };
            Json::Number(number_from(above, whole, b))
        },
        Layer::Str(s) => Json::Str(s.clone()),
        Layer::Array(a) => {
            let mut out: Vec<Json> = Vec::new();
            let mut i: usize = 0;
            while i < a.len()
                invariant
                    held(*v) == JsonView::Array(all_held(a@)),
                    i <= a@.len(),
                    values(out@) == all_held(a@).take(i as int),
                    forall|k: int| 0 <= k < i ==> (#[trigger] all_held(a@)[k]).wf(),
                decreases a@.len() - i,
            {
                proof {
                    assert(all_held(a@)[i as int] == held(a@[i as int]));
                    assert(decreases_to!(held(*v) => held(*v)->Array_0));
                    assert(decreases_to!(held(*v)->Array_0 => held(*v)->Array_0[i as int]));
                }
                let ghost before = values(out@);
                let x = json_of(&a[i]);
                out.push(x);
                assert(values(out@) =~= before.push(x@));
                assert(values(out@) =~= all_held(a@).take(i + 1));
                i += 1;
            }
            let r = Json::Array(out);
            proof {
                lemma_model(r);
                assert(all_held(a@).take(i as int) =~= all_held(a@));
            }
            r
        },
        Layer::Object(m) => {
            let mut out: Vec<(String, Json)> = Vec::new();
            let mut i: usize = 0;
            while i < m.len()
                invariant
                    held(*v) == JsonView::Object(members_held(m@)),
                    i <= m@.len(),
                    members(out@) == members_held(m@).take(i as int),
                    forall|k: int| 0 <= k < i ==> (#[trigger] members_held(m@)[k]).1.wf(),
                decreases m@.len() - i,
            {
                let (k, w) = m[i];
                let ghost all = members_held(m@);
                let ghost before = members(out@);
                proof {
                    assert(all[i as int] == (k@, held(*w)));
                    assert(decreases_to!(held(*v) => held(*v)->Object_0));
                    assert(decreases_to!(held(*v)->Object_0 => held(*v)->Object_0[i as int]));
                    assert(decreases_to!(held(*v)->Object_0[i as int] => held(*v)->Object_0[i as int].1));
                }
                let x = json_of(w);
                let ghost xv = x@;
                out.push((k.clone(), x));
                assert(members(out@) =~= before.push((k@, xv)));
                assert(members(out@) =~= all.take(i + 1));
                i += 1;
            }
            let r = Json::Object(out);
            proof {
                lemma_model(r);
                assert(members_held(m@).take(i as int) =~= members_held(m@));
            }
            r
        },
    }
}

/// The value that a text is, where it is JSON.
pub fn read_json(text: &str) -> (r: Option<Json>)
    ensures
        (match r {
            Some(j) => Some(j@),
            None => None,
        }) == json_text(text@),
        r is Some ==> r->0@.wf(),
{
    match read_value(text) {
        Some(v) => Some(json_of(&v)),
        None => None,
    }
}

// ---- Writing ----

/// What `serde_json::to_string` writes for a value.
pub uninterp spec fn written(j: JsonView) -> Seq<char>;

/// A value to be written.
enum Part {
    Null,
    Whole(u64),
    Str(String),
    Object(Vec<(String, serde_json::Value)>),
}

/// What a list of members holds.
pub open spec fn own_members_held(m: Seq<(String, serde_json::Value)>) -> Members {
    Seq::new(m.len(), |i: int| (m[i].0@, held(m[i].1)))
}

/// A whole number as a value.
pub open spec fn whole(n: u64) -> JsonView {
    JsonView::Number(JsonNumber::PosInt(n))
}

/// The variants of `serde_json::Value`: null, `Value::from` of a number, text, and an object, a
/// `serde_json::Map` collected from its members, where of two with one key the later stands.
#[verifier::external_body]
fn value_from(p: Part) -> (r: serde_json::Value)
    ensures
        match p {
            Part::Null => held(r) == JsonView::Null,
            Part::Whole(n) => held(r) == whole(n),
            Part::Str(s) => held(r) == JsonView::Str(s@),
            Part::Object(m) => held(r) == JsonView::Object(gathered(own_members_held(m@))),
        },
{
    match p {
        Part::Null => serde_json::Value::Null,
        Part::Whole(n) => serde_json::Value::from(n),
        Part::Str(s) => serde_json::Value::String(s),
        Part::Object(m) => serde_json::Value::Object(m.into_iter().collect()),
    }
}

/// Nulls, whole numbers, texts, and objects of these, not nested past a depth.
pub open spec fn writable(j: JsonView, depth: nat) -> bool
    decreases depth,
{
    match j {
        JsonView::Null => true,
        JsonView::Str(_) => true,
        JsonView::Number(n) => n is PosInt,
        JsonView::Object(m) => depth > 0 && ordered(m) && forall|i: int| 0 <= i < m.len() ==> writable((#[trigger] m[i]).1, (depth - 1) as nat),
        _ => false,
    }
}

/// The key that marks an object as JSON text to be read in the object's place, where it comes first.
pub open spec fn raw_key() -> Seq<char> {
    "$serde_json::private::RawValue"@
}

/// Whether a list of members does not start with the mark of embedded text.
pub open spec fn unmarked_members(m: Members) -> bool {
    m.len() > 0 ==> m[0].0 != raw_key()
}

/// No object in the value is marked as embedded text.
pub open spec fn unmarked(j: JsonView) -> bool
    decreases j,
{
    match j {
        JsonView::Array(v) => forall|i: int| 0 <= i < v.len() ==> unmarked(#[trigger] v[i]),
        JsonView::Object(m) => unmarked_members(m) && forall|i: int| 0 <= i < m.len() ==> unmarked((#[trigger] m[i]).1),
        _ => true,
    }
}

/// `serde_json::to_string` of a value. Reading a writable value back gives what was written, unless
/// an object in it is marked as embedded text: `serde_json::from_str` reads such an object as the text
/// under its first key.
#[verifier::external_body]
fn write_value(v: &serde_json::Value) -> (r: Option<String>)
    ensures
        r is Some,
        r->0@ == written(held(*v)),
        writable(held(*v), 4) && unmarked(held(*v)) ==> json_text(r->0@) == Some(held(*v)),
{
    serde_json::to_string(v).ok()
}

/// The text of a value.
pub fn written_text(v: &serde_json::Value) -> (r: String)
    ensures
        r@ == written(held(*v)),
{
    match write_value(v) {
        Some(s) => s,
        None => String::new(),
    }
}

fn value_of(j: &Json, Ghost(depth): Ghost<nat>) -> (r: serde_json::Value)
    requires
        writable(j@, depth),
    ensures
        held(r) == j@,
    decreases depth,
{
    match j {
        Json::Null => value_from(Part::Null),
        Json::Number(n) => match n {
            JsonNumber::PosInt(u) => value_from(Part::Whole(*u)),
            _ => value_from(Part::Null),
        },
        Json::Str(s) => value_from(Part::Str(s.clone())),
        Json::Object(m) => {
            proof {
                lemma_model(Json::Object(*m));
            }
            let ghost mv = members(m@);
            let mut out: Vec<(String, serde_json::Value)> = Vec::new();
            let mut i: usize = 0;
            while i < m.len()
                invariant
                    mv == members(m@),
                    depth > 0,
                    forall|i: int| 0 <= i < mv.len() ==> writable((#[trigger] mv[i]).1, (depth - 1) as nat),
                    i <= m@.len(),
                    own_members_held(out@) == mv.take(i as int),
                decreases m@.len() - i,
            {
                let ghost before = own_members_held(out@);
                assert(mv[i as int] == (m@[i as int].0@, m@[i as int].1@));
                let x = value_of(&m[i].1, Ghost((depth - 1) as nat));
                let ghost xv = held(x);
                out.push((m[i].0.clone(), x));
                assert(own_members_held(out@) =~= before.push((m@[i as int].0@, xv)));
                assert(own_members_held(out@) =~= mv.take(i + 1));
                i += 1;
            }
            proof {
                assert(mv.take(i as int) =~= mv);
                lemma_gathered_ordered(mv);
            }
            value_from(Part::Object(out))
        },
        _ => value_from(Part::Null),
    }
}

/// The text of a writable value. Reading it gives the value back, where none of its objects is marked
/// as embedded text.
pub fn write_json(j: &Json) -> (r: String)
    requires
        writable(j@, 4),
    ensures
        r@ == written(j@),
        unmarked(j@) ==> json_text(r@) == Some(j@),
{
    let v = value_of(j, Ghost(4));
    match write_value(&v) {
        Some(s) => s,
        None => String::new(),
    }
}

// ---- Opaque tokens ----

/// The value in a token, where there is one.
pub open spec fn token_value(t: Seq<char>) -> Option<JsonView> {
    match token_bytes(t) {
        Some(b) => if valid_utf8(b) { json_text(decode_utf8(b)) } else { None },
        None => None,
    }
}

/// The members of a cursor's value stand in key order.
pub proof fn lemma_cursor_names()
    ensures
        text_before("positions"@, "ring"@),
        "positions"@ != "ring"@,
        "positions"@ != raw_key(),
{
    reveal_strlit("positions");
    reveal_strlit("ring");
    reveal_strlit("$serde_json::private::RawValue");
    assert("positions"@[0] == 'p' && "ring"@[0] == 'r' && raw_key()[0] == '$');
    vstd::utf8::is_ascii_chars_encode_utf8("positions"@);
    vstd::utf8::is_ascii_chars_encode_utf8("ring"@);
    let a = encode_utf8("positions"@);
    let b = encode_utf8("ring"@);
    assert(a[0] == 'p' as u8 && b[0] == 'r' as u8);
}

/// A writable value as a token, which gives it back where none of its objects is marked as embedded text.
pub fn encode_cursor(j: &Json) -> (r: String)
    requires
        writable(j@, 4),
    ensures
        r@ == token(encode_utf8(written(j@))),
        unmarked(j@) ==> token_value(r@) == Some(j@),
{
    let s = write_json(j);
    let r = encode_token(s.as_str().as_bytes());
    proof {
        law_a_token_reads_back(encode_utf8(s@));
        encode_utf8_valid_utf8(s@);
        encode_utf8_decode_utf8(s@);
    }
    r
}

/// The value in a token, where there is one.
pub fn decode_cursor(t: &str) -> (r: Option<Json>)
    ensures
        (match r {
            Some(j) => Some(j@),
            None => None,
        }) == token_value(t@),
        r is Some ==> r->0@.wf(),
{
    match decode_token(t) {
        Some(b) => {
            let ghost bytes = b@;
            match text_of_bytes(b) {
                Some(s) => {
                    proof {
                        encode_utf8_valid_utf8(s@);
                        encode_utf8_decode_utf8(s@);
                    }
                    read_json(s.as_str())
                },
                None => None,
            }
        },
        None => None,
    }
}

/// The layout and the positions in a cursor's value: an object of the two and nothing else, or a list of
/// them in that order.
pub open spec fn cursor_fields(j: JsonView) -> Option<(JsonView, JsonView)> {
    match j {
        JsonView::Object(m) => match (lookup(m, "ring"@), lookup(m, "positions"@)) {
            (Some(r), Some(p)) => if m.len() == 2 { Some((r, p)) } else { None },
            _ => None,
        },
        JsonView::Array(v) => if v.len() == 2 { Some((v[0], v[1])) } else { None },
        _ => None,
    }
}

/// The layout and the positions in a cursor's value.
pub fn split_cursor<'a>(j: &'a Json) -> (r: Option<(&'a Json, &'a Json)>)
    requires
        j@.wf(),
    ensures
        (match r {
            Some((a, b)) => Some((a@, b@)),
            None => None,
        }) == cursor_fields(j@),
        r is Some ==> (r->0).1@.wf(),
{
    proof {
        lemma_model(*j);
    }
    match j {
        Json::Object(m) => match (j.get("ring"), j.get("positions")) {
            (Some(r), Some(p)) => if m.len() == 2 { Some((r, p)) } else { None },
            _ => None,
        },
        Json::Array(v) => {
            if v.len() == 2 {
                assert(values(v@)[1].wf());
                Some((&v[0], &v[1]))
            } else {
                None
            }
        },
        _ => None,
    }
}

/// A cursor is read from an object of its two fields alone, or from the list of the two.
pub proof fn law_a_cursor_has_two_fields(j: JsonView, ring: JsonView, positions: JsonView)
    ensures
        cursor_fields(JsonView::Array(seq![ring, positions])) == Some((ring, positions)),
        j is Object && cursor_fields(j) is Some ==> j.member("ring"@) == Some((cursor_fields(j)->0).0) && j.member("positions"@) == Some(
            (cursor_fields(j)->0).1,
        ) && j->Object_0.len() == 2,
        j is Object && j.member("ring"@) == Some(ring) && j.member("positions"@) == Some(positions) && j->Object_0.len() == 2
            ==> cursor_fields(j) == Some((ring, positions)),
        j is Array && cursor_fields(j) is Some ==> j->Array_0.len() == 2 && j->Array_0[0] == (cursor_fields(j)->0).0 && j->Array_0[1] == (
        cursor_fields(j)->0).1,
        !(j is Object) && !(j is Array) ==> cursor_fields(j) is None,
{
}

} // verus!
