//! What the log is configured to say, and how its lines are written.

use crate::json::{gathered, law_the_last_of_one_key_is_kept, lookup, members, Json, JsonNumber, JsonView, Members};
use crate::ring::complaint;
use crate::text::{cat2, cat3, cat4, chars_of, lower, opt_text, same_text};
use crate::wire::{held, json_of, whole, written, written_text};
use vstd::prelude::*;

verus! {

#[derive(Debug, PartialEq, Eq)]
pub struct LoggingConfig {
    pub level: String,
    pub format: String,
}

impl Default for LoggingConfig {
    fn default() -> (r: Self)
        ensures
            r.level@ == "info"@,
            r.format@ == "text"@,
    {
        Self { level: "info".to_owned(), format: "text".to_owned() }
    }
}

impl Clone for LoggingConfig {
    fn clone(&self) -> (r: Self)
        ensures
            r == *self,
    {
        Self { level: self.level.clone(), format: self.format.clone() }
    }
}

/// The number that a run of digits stands for.
pub open spec fn digits_value(d: Seq<char>) -> int
    decreases d.len(),
{
    if d.len() == 0 { 0 } else { digits_value(d.drop_last()) * 10 + (d.last() as int - '0' as int) }
}

/// A number from 1 to 5 in digits, with a plus sign before it or not.
pub open spec fn level_number(s: Seq<char>) -> bool {
    let d = if s.len() > 0 && s[0] == '+' { s.skip(1) } else { s };
    &&& d.len() > 0
    &&& forall|i: int| 0 <= i < d.len() ==> '0' <= #[trigger] d[i] && d[i] <= '9'
    &&& 1 <= digits_value(d) <= 5
}

/// The name of a level in any letter case, or its number.
pub open spec fn known_level(s: Seq<char>) -> bool {
    ||| level_number(s)
    ||| lower(s) == "error"@ || lower(s) == "warn"@ || lower(s) == "info"@ || lower(s) == "debug"@ || lower(s) == "trace"@
}

/// `<tracing::Level as FromStr>::from_str`: whether a string names a level. It does where it reads
/// as a number from 1 to 5, by the rules of `usize`'s own parser, or is one of the five names
/// without regard to ASCII case.
#[verifier::external_body]
fn parses_as_level(s: &str) -> (r: bool)
    ensures
        r == known_level(s@),
{
    s.parse::<tracing::Level>().is_ok()
}

impl LoggingConfig {
    /// Why the settings cannot be used, if they cannot.
    pub open spec fn fault(self) -> Option<Seq<char>> {
        if !known_level(self.level@) {
            Some("logging.level must be one of trace|debug|info|warn|error, got '"@ + self.level@ + "'"@)
        } else if self.format@ != "text"@ && self.format@ != "json"@ {
            Some("logging.format must be 'text' or 'json', got '"@ + self.format@ + "'"@)
        } else {
            None
        }
    }

    pub fn validate(&self) -> (r: Result<(), String>)
        ensures
            complaint(r) == self.fault(),
    {
        if !parses_as_level(self.level.as_str()) {
            return Err(cat3("logging.level must be one of trace|debug|info|warn|error, got '", self.level.as_str(), "'"));
        }
        if !same_text(self.format.as_str(), "text") && !same_text(self.format.as_str(), "json") {
            return Err(cat3("logging.format must be 'text' or 'json', got '", self.format.as_str(), "'"));
        }
        Ok(())
    }
}

// ---- Events ----

/// A field of an event, with the text that its value is shown as.
#[derive(Debug, PartialEq, Eq)]
pub struct LogField {
    pub name: String,
    pub value: Json,
    pub shown: String,
}

pub ghost struct LogFieldView {
    pub name: Seq<char>,
    pub value: JsonView,
    pub shown: Seq<char>,
}

impl View for LogField {
    type V = LogFieldView;

    open spec fn view(&self) -> LogFieldView {
        LogFieldView { name: self.name@, value: self.value@, shown: self.shown@ }
    }
}

pub open spec fn fields_view(v: Seq<LogField>) -> Seq<LogFieldView> {
    Seq::new(v.len(), |i: int| v[i]@)
}

/// The fields of an event: its message apart from the others.
#[derive(Debug, PartialEq, Eq)]
pub struct EventFields {
    pub message: Option<String>,
    pub extra: Vec<LogField>,
}

/// The text of a value: a string as it is, anything else as it is shown.
pub open spec fn plain(value: JsonView, shown: Seq<char>) -> Seq<char> {
    match value {
        JsonView::Str(s) => s,
        _ => shown,
    }
}

impl EventFields {
    pub fn new() -> (r: EventFields)
        ensures
            r.message is None,
            r.extra@.len() == 0,
            r.wf(),
    {
        EventFields { message: None, extra: Vec::new() }
    }

    /// Every field's value has its members in key order.
    pub open spec fn wf(self) -> bool {
        forall|i: int| 0 <= i < self.extra@.len() ==> (#[trigger] self.extra@[i]).value@.wf()
    }

    /// The fields after one more.
    pub open spec fn takes(self, name: Seq<char>, value: JsonView, shown: Seq<char>, after: EventFields) -> bool {
        if name == "message"@ {
            after.extra == self.extra && opt_text(after.message) == Some(plain(value, shown))
        } else {
            &&& after.message == self.message
            &&& fields_view(after.extra@) == fields_view(self.extra@).push((LogFieldView { name, value, shown }))
        }
    }

    /// Takes in one field, where `shown` is what a value that is no string is written as.
    pub fn push_shown(&mut self, name: &str, value: Json, shown: String)
        ensures
            old(self).takes(name@, value@, shown@, *final(self)),
            old(self).wf() && value@.wf() ==> final(self).wf(),
    {
        if same_text(name, "message") {
            let text = match value {
                Json::Str(s) => s,
                _ => shown,
            };
            self.message = Some(text);
        } else {
            let ghost before = fields_view(self.extra@);
            self.extra.push(LogField { name: name.to_owned(), value, shown });
            assert(fields_view(self.extra@) =~= before.push((LogFieldView { name: name@, value: value@, shown: shown@ })));
        }
    }

    /// Takes in one field. A value that is no string is shown as JSON text.
    pub fn push(&mut self, name: &str, value: &serde_json::Value)
        ensures
            old(self).takes(name@, held(*value), written(held(*value)), *final(self)),
            old(self).wf() ==> final(self).wf(),
    {
        self.push_shown(name, json_of(value), written_text(value));
    }
}

/// The members of an event in JSON. Of two with one name the later stands.
pub open spec fn event_members(
    ts_ms: u64,
    level: Seq<char>,
    node_id: Seq<char>,
    target: Seq<char>,
    message: Option<Seq<char>>,
    extra: Seq<LogFieldView>,
) -> Members {
    seq![
        ("ts_ms"@, whole(ts_ms)),
        ("level"@, JsonView::Str(level)),
        ("node_id"@, JsonView::Str(node_id)),
        ("target"@, JsonView::Str(target)),
    ] + (match message {
        Some(m) => seq![("message"@, JsonView::Str(m))],
        None => Seq::empty(),
    }) + Seq::new(extra.len(), |i: int| (extra[i].name, extra[i].value))
}

/// An event in JSON, stamped with its node.
pub fn json_event(ts_ms: u64, level: &str, node_id: &str, target: &str, fields: &EventFields) -> (r: Json)
    requires
        fields.wf(),
    ensures
        r@ == JsonView::Object(
            gathered(event_members(ts_ms, level@, node_id@, target@, opt_text(fields.message), fields_view(fields.extra@))),
        ),
{
    let mut pairs: Vec<(String, Json)> = Vec::new();
    pairs.push(("ts_ms".to_owned(), Json::Number(JsonNumber::PosInt(ts_ms))));
    pairs.push(("level".to_owned(), Json::Str(level.to_owned())));
    pairs.push(("node_id".to_owned(), Json::Str(node_id.to_owned())));
    pairs.push(("target".to_owned(), Json::Str(target.to_owned())));
    if let Some(m) = &fields.message {
        pairs.push(("message".to_owned(), Json::Str(m.clone())));
    }
    let ghost first = members(pairs@);
    let ghost more = Seq::new(fields.extra@.len(), |i: int| (fields_view(fields.extra@)[i].name, fields_view(fields.extra@)[i].value));
    let mut i: usize = 0;
    assert(first + more.take(0) =~= first);
    while i < fields.extra.len()
        invariant
            forall|i: int| 0 <= i < fields.extra@.len() ==> (#[trigger] fields.extra@[i]).value@.wf(),
            more == Seq::new(fields.extra@.len(), |i: int| (fields_view(fields.extra@)[i].name, fields_view(fields.extra@)[i].value)),
            i <= fields.extra@.len(),
            members(pairs@) == first + more.take(i as int),
            forall|k: int| 0 <= k < pairs@.len() ==> (#[trigger] pairs@[k]).1@.wf(),
        decreases fields.extra@.len() - i,
    {
        let ghost before = members(pairs@);
        assert(fields.extra@[i as int].value@.wf());
        let v = fields.extra[i].value.clone();
        let ghost vv = v@;
        pairs.push((fields.extra[i].name.clone(), v));
        proof {
            assert(members(pairs@) =~= before.push((fields.extra@[i as int].name@, vv)));
            assert(members(pairs@) =~= first + more.take(i + 1));
        }
        i += 1;
    }
    proof {
        assert(members(pairs@) =~= event_members(
            ts_ms,
            level@,
            node_id@,
            target@,
            opt_text(fields.message),
            fields_view(fields.extra@),
        ));
    }
    Json::object(pairs)
}

/// A text with spaces before it up to a width.
pub open spec fn padded(s: Seq<char>, width: int) -> Seq<char>
    decreases width - s.len(),
{
    if s.len() >= width { s } else { padded(seq![' '] + s, width) }
}

/// The fields of an event as text.
pub open spec fn field_text(extra: Seq<LogFieldView>, n: int) -> Seq<char>
    decreases n,
{
    if n <= 0 {
        Seq::empty()
    } else {
        field_text(extra, n - 1) + (" "@ + extra[n - 1].name + "="@ + plain(extra[n - 1].value, extra[n - 1].shown))
    }
}

/// An event as a line of text, behind its time.
pub open spec fn event_text(
    level: Seq<char>,
    node_id: Seq<char>,
    target: Seq<char>,
    message: Option<Seq<char>>,
    extra: Seq<LogFieldView>,
) -> Seq<char> {
    " "@ + padded(level, 5) + " node="@ + node_id + " ["@ + target + "]"@ + (match message {
        Some(m) => " "@ + m,
        None => Seq::empty(),
    }) + field_text(extra, extra.len() as int)
}

fn pad(s: &str, width: usize) -> (r: String)
    ensures
        r@ == padded(s@, width as int),
{
    let mut out: String = s.to_owned();
    let mut n: usize = chars_of(s).len();
    proof {
        reveal_strlit(" ");
    }
    while n < width
        invariant
            n == out@.len(),
            padded(out@, width as int) == padded(s@, width as int),
            " "@.len() == 1,
            " "@[0] == ' ',
        decreases width - n,
    {
        let ghost before = out@;
        out = cat2(" ", out.as_str());
        assert(out@ =~= seq![' '] + before);
        n += 1;
    }
    out
}

/// An event as a line of text, behind its time, stamped with its node.
pub fn text_event(level: &str, node_id: &str, target: &str, fields: &EventFields) -> (r: String)
    ensures
        r@ == event_text(level@, node_id@, target@, opt_text(fields.message), fields_view(fields.extra@)),
{
    let ghost extra = fields_view(fields.extra@);
    let level = pad(level, 5);
    let head = cat4(" ", level.as_str(), " node=", node_id);
    let head = cat4(head.as_str(), " [", target, "]");
    let ghost tail = match opt_text(fields.message) {
        Some(m) => " "@ + m,
        None => Seq::empty(),
    };
    let mut out: String = match &fields.message {
        Some(m) => {
            let said = cat2(" ", m.as_str());
            cat2(head.as_str(), said.as_str())
        },
        None => head.clone(),
    };
    let ghost start = out@;
    proof {
        assert(start =~= head@ + tail);
        assert(start + field_text(extra, 0) =~= start);
    }
    let mut i: usize = 0;
    while i < fields.extra.len()
        invariant
            extra == fields_view(fields.extra@),
            i <= fields.extra@.len(),
            out@ == start + field_text(extra, i as int),
        decreases fields.extra@.len() - i,
    {
        assert(extra[i as int] == fields.extra@[i as int]@);
        let f = &fields.extra[i];
        let shown = match &f.value {
            Json::Str(s) => s.as_str(),
            _ => f.shown.as_str(),
        };
        let one = cat4(" ", f.name.as_str(), "=", shown);
        let ghost before = out@;
        out = cat2(out.as_str(), one.as_str());
        assert(out@ =~= start + field_text(extra, i + 1));
        i += 1;
    }
    out
}

proof fn lemma_event_at(
    ts_ms: u64,
    level: Seq<char>,
    node_id: Seq<char>,
    target: Seq<char>,
    message: Option<Seq<char>>,
    extra: Seq<LogFieldView>,
    k: int,
)
    requires
        0 <= k < extra.len(),
    ensures
        ({
            let all = event_members(ts_ms, level, node_id, target, message, extra);
            let first = if message is Some { 5int } else { 4 };
            &&& all.len() == first + extra.len()
            &&& all[first + k] == (extra[k].name, extra[k].value)
        }),
{
}

/// An event says all of its fields, each under its own name with its own value; of two fields with one
/// name the later stands.
pub proof fn law_an_event_says_every_field(
    ts_ms: u64,
    level: Seq<char>,
    node_id: Seq<char>,
    target: Seq<char>,
    message: Option<Seq<char>>,
    extra: Seq<LogFieldView>,
    k: int,
)
    requires
        0 <= k < extra.len(),
        forall|j: int| k < j < extra.len() ==> (#[trigger] extra[j]).name != extra[k].name,
    ensures
        lookup(gathered(event_members(ts_ms, level, node_id, target, message, extra)), extra[k].name) == Some(extra[k].value),
{
    let all = event_members(ts_ms, level, node_id, target, message, extra);
    let first = if message is Some { 5int } else { 4 };
    lemma_event_at(ts_ms, level, node_id, target, message, extra, k);
    assert forall|j: int| first + k < j < all.len() implies (#[trigger] all[j]).0 != extra[k].name by {
        lemma_event_at(ts_ms, level, node_id, target, message, extra, j - first);
        assert(extra[j - first].name != extra[k].name);
    }
    law_the_last_of_one_key_is_kept(all, extra[k].name, first + k);
}

proof fn lemma_event_names()
    ensures
        "ts_ms"@ != "level"@,
        "ts_ms"@ != "node_id"@,
        "ts_ms"@ != "target"@,
        "ts_ms"@ != "message"@,
        "level"@ != "node_id"@,
        "level"@ != "target"@,
        "level"@ != "message"@,
        "node_id"@ != "target"@,
        "node_id"@ != "message"@,
        "target"@ != "message"@,
{
    reveal_strlit("ts_ms");
    assert("ts_ms"@.len() == 5);
    reveal_strlit("level");
    assert("level"@.len() == 5);
    reveal_strlit("node_id");
    assert("node_id"@.len() == 7);
    reveal_strlit("target");
    assert("target"@.len() == 6);
    reveal_strlit("message");
    assert("message"@.len() == 7);
    assert("ts_ms"@[0] != "level"@[0]);
    assert("node_id"@[0] != "message"@[0]);
}

/// An event says when it was, how grave it is, who tells it, where, and what: each unless a field of
/// its own takes the name.
pub proof fn law_an_event_says_where_it_is_from(
    ts_ms: u64,
    level: Seq<char>,
    node_id: Seq<char>,
    target: Seq<char>,
    message: Option<Seq<char>>,
    extra: Seq<LogFieldView>,
)
    requires
        forall|j: int|
            0 <= j < extra.len() ==> (#[trigger] extra[j]).name != "ts_ms"@ && extra[j].name != "level"@ && extra[j].name != "node_id"@
                && extra[j].name != "target"@ && extra[j].name != "message"@,
    ensures
        ({
            let m = gathered(event_members(ts_ms, level, node_id, target, message, extra));
            &&& lookup(m, "ts_ms"@) == Some(whole(ts_ms))
            &&& lookup(m, "level"@) == Some(JsonView::Str(level))
            &&& lookup(m, "node_id"@) == Some(JsonView::Str(node_id))
            &&& lookup(m, "target"@) == Some(JsonView::Str(target))
            &&& lookup(m, "message"@) == (if message is Some { Some(JsonView::Str(message->0)) } else { None })
        }),
{
    let all = event_members(ts_ms, level, node_id, target, message, extra);
    let first = if message is Some { 5int } else { 4 };
    lemma_event_names();
    assert(all[0] == ("ts_ms"@, whole(ts_ms)));
    assert(all[1] == ("level"@, JsonView::Str(level)));
    assert(all[2] == ("node_id"@, JsonView::Str(node_id)));
    assert(all[3] == ("target"@, JsonView::Str(target)));
    if message is Some {
        assert(all[4] == ("message"@, JsonView::Str(message->0)));
    }
    assert forall|j: int| first <= j < all.len() implies (#[trigger] all[j]).0 == extra[j - first].name by {
        lemma_event_at(ts_ms, level, node_id, target, message, extra, j - first);
    }
    law_the_last_of_one_key_is_kept(all, "ts_ms"@, 0);
    law_the_last_of_one_key_is_kept(all, "level"@, 1);
    law_the_last_of_one_key_is_kept(all, "node_id"@, 2);
    law_the_last_of_one_key_is_kept(all, "target"@, 3);
    law_the_last_of_one_key_is_kept(all, "message"@, 4);
}

/// Padding puts spaces before a text until it is wide enough, and changes nothing of the text.
pub proof fn law_padding_only_adds_spaces(s: Seq<char>, width: int)
    ensures
        padded(s, width).len() == (if s.len() >= width { s.len() as int } else { width }),
        padded(s, width).skip(padded(s, width).len() - s.len()) == s,
        forall|i: int| 0 <= i < padded(s, width).len() - s.len() ==> #[trigger] padded(s, width)[i] == ' ',
    decreases width - s.len(),
{
    if s.len() >= width {
        assert(s.skip(0) =~= s);
    } else {
        let more = seq![' '] + s;
        let p = padded(more, width);
        law_padding_only_adds_spaces(more, width);
        let k = p.len() - more.len();
        assert(p.skip(k + 1) =~= p.skip(k).skip(1));
        assert(more.skip(1) =~= s);
        assert forall|i: int| 0 <= i < p.len() - s.len() implies #[trigger] p[i] == ' ' by {
            if i == k {
                assert(p.skip(k)[0] == more[0]);
            }
        }
    }
}

/// A field more is told behind the others, by its name and its value.
pub proof fn law_a_field_more_is_told_last(extra: Seq<LogFieldView>, f: LogFieldView)
    ensures
        field_text(Seq::empty(), 0) == Seq::<char>::empty(),
        field_text(extra.push(f), extra.len() as int + 1) == field_text(extra, extra.len() as int) + " "@ + f.name + "="@ + plain(
            f.value,
            f.shown,
        ),
{
    lemma_field_prefix(extra, extra.push(f), extra.len() as int);
    let before = field_text(extra, extra.len() as int);
    assert(before + (" "@ + f.name + "="@ + plain(f.value, f.shown)) =~= before + " "@ + f.name + "="@ + plain(f.value, f.shown));
}

proof fn lemma_field_prefix(a: Seq<LogFieldView>, b: Seq<LogFieldView>, n: int)
    requires
        0 <= n <= a.len(),
        n <= b.len(),
        forall|i: int| 0 <= i < n ==> a[i] == b[i],
    ensures
        field_text(a, n) == field_text(b, n),
    decreases n,
{
    if n > 0 {
        lemma_field_prefix(a, b, n - 1);
    }
}

/// A line of text begins with its level and who tells it, and ends with its fields, each told behind
/// the one before it.
pub proof fn law_a_line_ends_with_its_last_field(
    level: Seq<char>,
    node_id: Seq<char>,
    target: Seq<char>,
    message: Option<Seq<char>>,
    extra: Seq<LogFieldView>,
    f: LogFieldView,
)
    ensures
        event_text(level, node_id, target, message, extra.push(f)) == event_text(level, node_id, target, message, extra) + " "@ + f.name
            + "="@ + plain(f.value, f.shown),
        event_text(level, node_id, target, None, Seq::empty()) == " "@ + padded(level, 5) + " node="@ + node_id + " ["@ + target + "]"@,
        message is Some ==> event_text(level, node_id, target, message, Seq::empty()) == event_text(
            level,
            node_id,
            target,
            None,
            Seq::empty(),
        ) + " "@ + message->0,
{
    law_a_field_more_is_told_last(extra, f);
    let none = Seq::<LogFieldView>::empty();
    let fields = field_text(extra, extra.len() as int);
    let head = " "@ + padded(level, 5) + " node="@ + node_id + " ["@ + target + "]"@;
    let said = match message {
        Some(m) => " "@ + m,
        None => Seq::empty(),
    };
    assert(extra.push(f).len() == extra.len() + 1);
    assert(event_text(level, node_id, target, message, extra.push(f)) =~= head + said + fields + " "@ + f.name + "="@ + plain(f.value, f.shown));
    assert(event_text(level, node_id, target, message, extra) == head + said + fields);
    assert(field_text(none, 0) =~= Seq::empty());
    assert(event_text(level, node_id, target, None, none) =~= head);
    if message is Some {
        assert(event_text(level, node_id, target, message, none) =~= head + " "@ + message->0);
    }
}

} // verus!
