//! Client-facing wire types: the public REST contract.

use crate::json::{gathered, members, Json, JsonView, Members};
use crate::text::{cat3, same_text};
use vstd::prelude::*;

verus! {

/// A document to be created.
pub struct CreateDoc {
    pub value: Json,
}

/// One document of a bulk write.
pub struct BulkDoc {
    pub id: Option<String>,
    pub value: Json,
}

/// Upper bound on `?limit`. A page is preallocated from this number, so an unbounded one is an
/// allocation the process aborts on rather than a slow query. Callers page with `cursor` instead.
pub const MAX_QUERY_LIMIT: usize = 10_000;

pub const DEFAULT_QUERY_LIMIT: usize = 100;

/// Which of the two shapes a page reports its keys in.
#[derive(Clone, Copy, Debug, PartialEq, Eq, Structural)]
pub enum KeyMode {
    /// `keys=false`, or omitted: the keys stay out of the response.
    Omitted,
    /// `keys=true`: a `keys` array parallel to `items`.
    Parallel,
    /// `keys=embed`: each item becomes an object with an id and the stored value, and there is no
    /// array.
    Embedded,
}

impl Default for KeyMode {
    fn default() -> (r: Self)
        ensures
            r == KeyMode::Omitted,
    {
        KeyMode::Omitted
    }
}

impl KeyMode {
    /// The mode that a spelling stands for. Three spellings are accepted, and nothing else.
    pub fn parse(s: &str) -> (r: Result<KeyMode, String>)
        ensures
            s@ == "true"@ ==> r == Ok::<KeyMode, String>(KeyMode::Parallel),
            s@ == "false"@ ==> r == Ok::<KeyMode, String>(KeyMode::Omitted),
            s@ == "embed"@ ==> r == Ok::<KeyMode, String>(KeyMode::Embedded),
            s@ != "true"@ && s@ != "false"@ && s@ != "embed"@ ==> r is Err && r->Err_0@
                == "keys must be `true`, `false` or `embed`, not `"@ + s@ + "`"@,
    {
        proof {
            reveal_strlit("true");
            reveal_strlit("false");
            reveal_strlit("embed");
            assert("true"@.len() == 4 && "false"@.len() == 5 && "embed"@.len() == 5);
            assert("false"@[0] != "embed"@[0]);
        }
        if same_text(s, "true") {
            Ok(KeyMode::Parallel)
        } else if same_text(s, "false") {
            Ok(KeyMode::Omitted)
        } else if same_text(s, "embed") {
            Ok(KeyMode::Embedded)
        } else {
            Err(cat3("keys must be `true`, `false` or `embed`, not `", s, "`"))
        }
    }
}

pub struct QueryParams {
    pub max_docs: Option<usize>,
    pub start: Option<String>,
    pub end: Option<String>,
    pub limit: Option<usize>,
    pub filter: Option<String>,
    pub read: Option<String>,
    pub cursor: Option<String>,
    pub sort: Option<String>,
    pub fields: Option<String>,
    /// Return each row's key alongside it. The cross-shard merge needs them to order ties and to
    /// build the next cursor, so the router always asks; a client may.
    pub keys: Option<KeyMode>,
}

impl QueryParams {
    /// Absent is the same as `keys=false`: no key anywhere in the answer.
    pub fn key_mode(&self) -> (r: KeyMode)
        ensures
            r == (match self.keys {
                Some(m) => m,
                None => KeyMode::Omitted,
            }),
    {
        match self.keys {
            Some(m) => m,
            None => KeyMode::Omitted,
        }
    }
}

/// A row with its key: an object of the two.
pub open spec fn embedded(key: Seq<char>, value: JsonView) -> JsonView {
    JsonView::Object(gathered(seq![("id"@, JsonView::Str(key)), ("value"@, value)]))
}

/// Projects a row's key into the response without touching the document it belongs to. The value
/// stays whole beside the id because a stored value is arbitrary JSON: it may be an array or a scalar
/// with nowhere to put an id, and an object may already have an `id` of its own.
pub fn embed_key(key: &str, value: Json) -> (r: Json)
    requires
        value@.wf(),
    ensures
        r@ == embedded(key@, value@),
        r@.wf(),
{
    let mut pairs: Vec<(String, Json)> = Vec::new();
    pairs.push(("id".to_owned(), Json::Str(key.to_owned())));
    pairs.push(("value".to_owned(), value));
    assert(members(pairs@) =~= seq![("id"@, JsonView::Str(key@)), ("value"@, value@)]);
    assert forall|i: int| 0 <= i < pairs@.len() implies (#[trigger] pairs@[i]).1@.wf() by {
        if i == 1 {
            assert(pairs@[1].1@ == value@);
        }
    }
    Json::object(pairs)
}

pub struct QueryPage {
    pub items: Vec<Json>,
    pub next_cursor: Option<String>,
    /// Parallel to `items`, and only present when the request asked for it.
    pub keys: Vec<String>,
}

impl Default for QueryPage {
    fn default() -> (r: Self)
        ensures
            r.items@.len() == 0,
            r.next_cursor is None,
            r.keys@.len() == 0,
    {
        QueryPage { items: Vec::new(), next_cursor: None, keys: Vec::new() }
    }
}

pub struct AggregateParams {
    pub start: Option<String>,
    pub end: Option<String>,
    pub filter: Option<String>,
    pub read: Option<String>,
    /// Dotted paths to group by. Absent is one group over everything the filter matched.
    pub group: Option<String>,
    /// `count`, `sum:field`, `avg:field`, `min:field`, `max:field`. Absent is `count`.
    pub metrics: Option<String>,
    /// Documents the aggregation may read on each shard. Per shard rather than per cluster: it
    /// bounds one node's walk, which is the thing that occupies a blocking thread.
    pub max_docs: Option<usize>,
    /// Accept the totals over what the budget bought instead of a refusal when it runs out.
    pub partial: Option<bool>,
}

pub struct ReadParams {
    pub read: Option<String>,
}

pub struct MetricsParams {
    pub format: Option<String>,
}

/// The body of an error response.
pub fn err_json(msg: String) -> (r: Json)
    ensures
        r@ == JsonView::Object(gathered(seq![("error"@, JsonView::Str(msg@))])),
        r@.wf(),
{
    let mut pairs: Vec<(String, Json)> = Vec::new();
    pairs.push(("error".to_owned(), Json::Str(msg)));
    assert(members(pairs@) =~= seq![("error"@, JsonView::Str(msg@))]);
    Json::object(pairs)
}

/// A row's key and its document can be read back from the row.
pub proof fn law_an_embedded_row_reads_back(key: Seq<char>, value: JsonView)
    requires
        value.wf(),
    ensures
        embedded(key, value).member("id"@) == Some(JsonView::Str(key)),
        embedded(key, value).member("value"@) == Some(value),
{
    let pairs: Members = seq![("id"@, JsonView::Str(key)), ("value"@, value)];
    let empty: Members = Seq::empty();
    let one = crate::json::put(empty, "id"@, JsonView::Str(key));
    assert(pairs.drop_last().drop_last() =~= empty);
    reveal_with_fuel(gathered, 3);
    assert(gathered(pairs) == crate::json::put(one, "value"@, value));
    reveal_strlit("id");
    reveal_strlit("value");
    assert("id"@.len() == 2 && "value"@.len() == 5);
    crate::json::law_members_are_a_map(empty, "id"@, JsonView::Str(key), "id"@);
    crate::json::law_members_are_a_map(one, "value"@, value, "id"@);
    crate::json::law_members_are_a_map(one, "value"@, value, "value"@);
}

} // verus!
