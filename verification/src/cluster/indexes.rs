//! The index catalogue: what indexes each collection has, cluster-wide.

use crate::consensus::config::{valid_collection_name, valid_name};
use crate::lists::{lemma_joined_hold, lemma_take_all, lemma_take_grows};
use crate::name_map::NameMap;
use crate::text::{
    cat3, cat5, chars_of, comes_before, decimal, decimal_of, lemma_text_before_transitive, lemma_text_order, pieces,
    same_text, split, text_before, texts,
};
use vstd::prelude::*;
use vstd::utf8::encode_utf8;

verus! {

pub const MAX_INDEXES_PER_COLLECTION: usize = 8;

/// Ceiling on how many collections the catalogue names. It rides every cluster view, and an entry
/// survives the collection it describes so a drop cannot be resurrected by a stale copy, so the
/// only bound on its growth is this one.
pub const MAX_CATALOG_COLLECTIONS: usize = 4096;

pub const MAX_INDEX_NAME_LEN: usize = 64;

/// One index: its name and the dotted path it is over.
#[derive(Debug, PartialEq, Eq)]
pub struct IndexSpec {
    pub name: String,
    pub field: String,
}

pub ghost struct IndexSpecView {
    pub name: Seq<char>,
    pub field: Seq<char>,
}

impl View for IndexSpec {
    type V = IndexSpecView;

    open spec fn view(&self) -> IndexSpecView {
        IndexSpecView { name: self.name@, field: self.field@ }
    }
}

impl Clone for IndexSpec {
    fn clone(&self) -> (r: Self)
        ensures
            r@ == self@,
    {
        IndexSpec { name: self.name.clone(), field: self.field.clone() }
    }
}

/// The contents of a list of indexes.
pub open spec fn specs(v: Seq<IndexSpec>) -> Seq<IndexSpecView> {
    Seq::new(v.len(), |i: int| v[i]@)
}

/// A copy of a list of indexes.
pub fn copy_specs(v: &Vec<IndexSpec>) -> (r: Vec<IndexSpec>)
    ensures
        specs(r@) == specs(v@),
{
    let mut out: Vec<IndexSpec> = Vec::new();
    let mut i: usize = 0;
    while i < v.len()
        invariant
            i <= v@.len(),
            out@.len() == i,
            forall|j: int| 0 <= j < i ==> (#[trigger] out@[j])@ == v@[j]@,
        decreases v@.len() - i,
    {
        out.push(v[i].clone());
        i += 1;
    }
    assert(specs(out@) =~= specs(v@));
    out
}

/// Whether two indexes are one definition.
pub fn same_spec(a: &IndexSpec, b: &IndexSpec) -> (r: bool)
    ensures
        r == (a@ == b@),
{
    same_text(a.name.as_str(), b.name.as_str()) && same_text(a.field.as_str(), b.field.as_str())
}

/// Whether two lists hold the same definitions in the same order.
pub fn same_specs(a: &Vec<IndexSpec>, b: &Vec<IndexSpec>) -> (r: bool)
    ensures
        r == (specs(a@) == specs(b@)),
{
    if a.len() != b.len() {
        assert(specs(a@).len() != specs(b@).len());
        return false;
    }
    let mut i: usize = 0;
    while i < a.len()
        invariant
            a@.len() == b@.len(),
            i <= a@.len(),
            forall|j: int| 0 <= j < i ==> (#[trigger] a@[j])@ == b@[j]@,
        decreases a@.len() - i,
    {
        if !same_spec(&a[i], &b[i]) {
            assert(specs(a@)[i as int] != specs(b@)[i as int]);
            return false;
        }
        i += 1;
    }
    assert(specs(a@) =~= specs(b@));
    true
}

/// A change to a collection's indexes.
#[derive(Debug, PartialEq, Eq)]
pub enum IndexChange {
    Create { spec: IndexSpec },
    Drop { name: String },
}

pub ghost enum IndexChangeView {
    Create { spec: IndexSpecView },
    Drop { name: Seq<char> },
}

impl View for IndexChange {
    type V = IndexChangeView;

    open spec fn view(&self) -> IndexChangeView {
        match *self {
            IndexChange::Create { spec } => IndexChangeView::Create { spec: spec@ },
            IndexChange::Drop { name } => IndexChangeView::Drop { name: name@ },
        }
    }
}

/// The indexes of a list that do not have this name.
pub open spec fn without_index(v: Seq<IndexSpecView>, name: Seq<char>) -> Seq<IndexSpecView>
    decreases v.len(),
{
    if v.len() == 0 {
        Seq::empty()
    } else {
        let before = without_index(v.drop_last(), name);
        if v.last().name == name { before } else { before.push(v.last()) }
    }
}

/// Whether a list has an index with this name.
pub open spec fn has_index(v: Seq<IndexSpecView>, name: Seq<char>) -> bool {
    exists|i: int| 0 <= i < v.len() && (#[trigger] v[i]).name == name
}

/// The indexes of a list with one put in the place of the one that has its name.
pub open spec fn redefined(v: Seq<IndexSpecView>, spec: IndexSpecView) -> Seq<IndexSpecView> {
    Seq::new(v.len(), |i: int| if v[i].name == spec.name { spec } else { v[i] })
}

impl IndexChangeView {
    /// The indexes after the change: one created takes the place of the one with its name, or comes
    /// last; one dropped is gone.
    pub open spec fn applied(self, v: Seq<IndexSpecView>) -> Seq<IndexSpecView> {
        match self {
            IndexChangeView::Create { spec } => if has_index(v, spec.name) { redefined(v, spec) } else { v.push(spec) },
            IndexChangeView::Drop { name } => without_index(v, name),
        }
    }
}

impl IndexChange {
    /// Applies the change to a collection's indexes.
    pub fn apply_to(&self, indexes: &mut Vec<IndexSpec>)
        ensures
            specs(final(indexes)@) == self@.applied(specs(old(indexes)@)),
    {
        let ghost v = specs(indexes@);
        match self {
            IndexChange::Create { spec } => {
                let mut out: Vec<IndexSpec> = Vec::new();
                let mut found = false;
                let mut i: usize = 0;
                while i < indexes.len()
                    invariant
                        v == specs(indexes@),
                        i <= indexes@.len(),
                        out@.len() == i,
                        found <==> exists|j: int| 0 <= j < i && (#[trigger] v[j]).name == spec@.name,
                        forall|j: int| 0 <= j < i ==> (#[trigger] out@[j])@ == (if v[j].name == spec@.name { spec@ } else { v[j] }),
                    decreases indexes@.len() - i,
                {
                    if same_text(indexes[i].name.as_str(), spec.name.as_str()) {
                        assert(v[i as int].name == spec@.name);
                        found = true;
                        out.push(spec.clone());
                    } else {
                        out.push(indexes[i].clone());
                    }
                    i += 1;
                }
                if !found {
                    proof {
                        assert(!has_index(v, spec@.name));
                        assert forall|j: int| 0 <= j < v.len() implies (#[trigger] out@[j])@ == v[j] by {
                            assert(v[j].name != spec@.name);
                        }
                    }
                    out.push(spec.clone());
                    assert(specs(out@) =~= v.push(spec@));
                } else {
                    assert(has_index(v, spec@.name));
                    assert(specs(out@) =~= redefined(v, spec@));
                }
                *indexes = out;
            },
            IndexChange::Drop { name } => {
                let mut out: Vec<IndexSpec> = Vec::new();
                let mut i: usize = 0;
                assert(v.take(0) =~= Seq::empty());
                assert(specs(out@) =~= without_index(v.take(0), name@));
                while i < indexes.len()
                    invariant
                        v == specs(indexes@),
                        i <= indexes@.len(),
                        specs(out@) == without_index(v.take(i as int), name@),
                    decreases indexes@.len() - i,
                {
                    proof {
                        lemma_take_grows(v, i as int);
                    }
                    let ghost before = specs(out@);
                    if !same_text(indexes[i].name.as_str(), name.as_str()) {
                        out.push(indexes[i].clone());
                        assert(specs(out@) =~= before.push(v[i as int]));
                    }
                    i += 1;
                }
                proof {
                    lemma_take_all(v);
                }
                *indexes = out;
            },
        }
    }
}

// ---- What an entry may hold ----

/// The characters that an index name is made of.
pub open spec fn index_char(c: char) -> bool {
    ('a' <= c && c <= 'z') || ('A' <= c && c <= 'Z') || ('0' <= c && c <= '9') || c == '_' || c == '-'
}

/// One word of a bounded length.
pub open spec fn index_name_ok(name: Seq<char>) -> bool {
    &&& 0 < name.len()
    &&& encode_utf8(name).len() <= MAX_INDEX_NAME_LEN
    &&& forall|i: int| 0 <= i < name.len() ==> index_char(#[trigger] name[i])
}

pub fn valid_index_name(name: &str) -> (r: bool)
    ensures
        r == index_name_ok(name@),
{
    let chars = chars_of(name);
    if chars.len() == 0 || name.as_bytes().len() > MAX_INDEX_NAME_LEN {
        return false;
    }
    let mut i: usize = 0;
    while i < chars.len()
        invariant
            chars@ == name@,
            i <= chars@.len(),
            forall|j: int| 0 <= j < i ==> index_char(#[trigger] name@[j]),
        decreases chars@.len() - i,
    {
        let c: char = chars[i];
        if !(('a' <= c && c <= 'z') || ('A' <= c && c <= 'Z') || ('0' <= c && c <= '9') || c == '_' || c == '-') {
            assert(!index_char(name@[i as int]));
            return false;
        }
        i += 1;
    }
    true
}

/// Keys joined by dots, none of them empty.
pub open spec fn field_path_ok(field: Seq<char>) -> bool {
    forall|i: int| 0 <= i < pieces(field, '.').len() ==> (#[trigger] pieces(field, '.')[i]).len() > 0
}

pub fn valid_field_path(field: &str) -> (r: bool)
    ensures
        r == field_path_ok(field@),
{
    let parts = split(field, '.');
    let ghost ps = texts(parts@);
    let mut i: usize = 0;
    while i < parts.len()
        invariant
            ps == texts(parts@),
            ps == pieces(field@, '.'),
            i <= parts@.len(),
            forall|j: int| 0 <= j < i ==> (#[trigger] ps[j]).len() > 0,
        decreases parts@.len() - i,
    {
        if parts[i].as_str().is_empty() {
            assert(ps[i as int].len() == 0);
            return false;
        }
        i += 1;
    }
    true
}

/// One collection's definitions, and how far along they are. `updated_by` is a tiebreak: two nodes
/// that changed the same collection at the same version must converge on one of the two rather than
/// alternate.
#[derive(Debug, PartialEq, Eq)]
pub struct CollectionIndexes {
    pub version: u64,
    pub updated_by: String,
    pub indexes: Vec<IndexSpec>,
}

pub ghost struct CollectionIndexesView {
    pub version: u64,
    pub updated_by: Seq<char>,
    pub indexes: Seq<IndexSpecView>,
}

impl View for CollectionIndexes {
    type V = CollectionIndexesView;

    open spec fn view(&self) -> CollectionIndexesView {
        CollectionIndexesView { version: self.version, updated_by: self.updated_by@, indexes: specs(self.indexes@) }
    }
}

impl Clone for CollectionIndexes {
    fn clone(&self) -> (r: Self)
        ensures
            r@ == self@,
    {
        CollectionIndexes {
            version: self.version,
            updated_by: self.updated_by.clone(),
            indexes: copy_specs(&self.indexes),
        }
    }
}

impl CollectionIndexesView {
    /// The newer of two entries: the version decides, then the name of who wrote it.
    pub open spec fn supersedes(self, other: CollectionIndexesView) -> bool {
        self.version > other.version || (self.version == other.version && text_before(other.updated_by, self.updated_by))
    }
}

impl CollectionIndexes {
    pub fn supersedes(&self, other: &Self) -> (r: bool)
        ensures
            r == self@.supersedes(other@),
    {
        self.version > other.version
            || (self.version == other.version && comes_before(other.updated_by.as_str(), self.updated_by.as_str()))
    }
}

/// Index definitions as a fact about a *collection* rather than about the shard group that happens
/// to hold its keys today. Versioned per collection and merged rather than replaced, because it
/// changes on a different clock from the topology.
pub type IndexCatalog = NameMap<CollectionIndexes>;

/// The contents of a catalogue.
pub type CatalogView = Map<Seq<char>, CollectionIndexesView>;

/// The contents of a catalogue.
pub open spec fn catalogue(m: IndexCatalog) -> CatalogView {
    Map::new(|k: Seq<char>| m@.dom().contains(k), |k: Seq<char>| m@[k]@)
}

/// A copy of a catalogue.
pub fn copy_catalog(m: &IndexCatalog) -> (r: IndexCatalog)
    ensures
        catalogue(r) == catalogue(*m),
{
    let n = m.len();
    let ghost ks = m.keys();
    let mut out: IndexCatalog = NameMap::new();
    let mut i: usize = 0;
    while i < n
        invariant
            ks == m.keys(),
            n == ks.len(),
            m.keyed(),
            i <= n,
            forall|k: Seq<char>| out@.dom().contains(k) <==> ks.take(i as int).contains(k),
            forall|k: Seq<char>| out@.dom().contains(k) ==> m@.dom().contains(k) && out@[k]@ == m@[k]@,
        decreases n - i,
    {
        proof {
            lemma_take_grows(ks, i as int);
        }
        out.insert(m.key_at(i).clone(), m.value_at(i).clone());
        i += 1;
    }
    proof {
        lemma_take_all(ks);
        assert forall|k: Seq<char>| m@.dom().contains(k) implies out@.dom().contains(k) by {
            assert(ks.to_set().contains(k));
        }
        assert(catalogue(out) =~= catalogue(*m));
    }
    out
}

/// The complaint about the first of `n` indexes that has one.
pub open spec fn spec_fault(collection: Seq<char>, v: Seq<IndexSpecView>, n: int) -> Option<Seq<char>>
    decreases n,
{
    if n <= 0 {
        None
    } else if spec_fault(collection, v, n - 1) is Some {
        spec_fault(collection, v, n - 1)
    } else if !index_name_ok(v[n - 1].name) {
        Some("'"@ + collection + "' has an invalid index name"@)
    } else if !field_path_ok(v[n - 1].field) {
        Some("'"@ + collection + "."@ + v[n - 1].name + "' has an invalid field path"@)
    } else if has_index(v.take(n - 1), v[n - 1].name) {
        Some("'"@ + collection + "' names '"@ + v[n - 1].name + "' more than once"@)
    } else {
        None
    }
}

/// Why no node could act on an entry, or `None`.
pub open spec fn entry_fault(collection: Seq<char>, entry: CollectionIndexesView) -> Option<Seq<char>> {
    if !valid_name(collection) {
        Some("'"@ + collection + "' is not a usable collection name"@)
    } else if entry.indexes.len() > MAX_INDEXES_PER_COLLECTION {
        Some("'"@ + collection + "' is given more than "@ + decimal_of(MAX_INDEXES_PER_COLLECTION as nat) + " indexes"@)
    } else {
        spec_fault(collection, entry.indexes, entry.indexes.len() as int)
    }
}

proof fn lemma_fault_stays(collection: Seq<char>, v: Seq<IndexSpecView>, i: int, n: int)
    requires
        0 <= i <= n,
        spec_fault(collection, v, i) is Some,
    ensures
        spec_fault(collection, v, n) == spec_fault(collection, v, i),
    decreases n - i,
{
    if i < n {
        lemma_fault_stays(collection, v, i, n - 1);
    }
}

/// Why no node could act on this entry, or `None`. The rules tighten between releases: an entry a
/// newer rule made unaddressable must cost the entry and not the whole view carrying it, or a
/// rolling upgrade takes routing down.
pub fn unaddressable_entry(collection: &str, entry: &CollectionIndexes) -> (r: Option<String>)
    ensures
        (match r {
            Some(why) => Some(why@),
            None => None,
        }) == entry_fault(collection@, entry@),
{
    if !valid_collection_name(collection) {
        return Some(cat3("'", collection, "' is not a usable collection name"));
    }
    if entry.indexes.len() > MAX_INDEXES_PER_COLLECTION {
        return Some(
            cat5("'", collection, "' is given more than ", decimal(MAX_INDEXES_PER_COLLECTION as u64).as_str(), " indexes"),
        );
    }
    let ghost v = specs(entry.indexes@);
    let mut seen: NameMap<bool> = NameMap::new();
    let mut i: usize = 0;
    while i < entry.indexes.len()
        invariant
            v == specs(entry.indexes@),
            valid_name(collection@),
            v.len() <= MAX_INDEXES_PER_COLLECTION,
            v == entry@.indexes,
            i <= entry.indexes@.len(),
            spec_fault(collection@, v, i as int) is None,
            forall|s: Seq<char>| #[trigger] seen@.dom().contains(s) <==> has_index(v.take(i as int), s),
        decreases entry.indexes@.len() - i,
    {
        let name = entry.indexes[i].name.as_str();
        let field = entry.indexes[i].field.as_str();
        assert(v[i as int].name == name@ && v[i as int].field == field@);
        if !valid_index_name(name) {
            proof {
                lemma_fault_stays(collection@, v, i + 1, v.len() as int);
            }
            return Some(cat3("'", collection, "' has an invalid index name"));
        }
        if !valid_field_path(field) {
            proof {
                lemma_fault_stays(collection@, v, i + 1, v.len() as int);
            }
            return Some(cat5("'", collection, ".", name, "' has an invalid field path"));
        }
        if seen.holds(name) {
            proof {
                lemma_fault_stays(collection@, v, i + 1, v.len() as int);
            }
            return Some(cat5("'", collection, "' names '", name, "' more than once"));
        }
        proof {
            assert forall|s: Seq<char>| has_index(v.take(i + 1), s) <==> has_index(v.take(i as int), s) || s == name@ by {
                if has_index(v.take(i as int), s) {
                    let j = choose|j: int| 0 <= j < i && (#[trigger] v.take(i as int)[j]).name == s;
                    assert(v.take(i + 1)[j].name == s);
                }
                assert(v.take(i + 1)[i as int].name == name@);
                if has_index(v.take(i + 1), s) && s != name@ {
                    let j = choose|j: int| 0 <= j < i + 1 && (#[trigger] v.take(i + 1)[j]).name == s;
                    assert(v.take(i as int)[j].name == s);
                }
            }
        }
        seen.insert(name.to_owned(), true);
        i += 1;
    }
    None
}

// ---- Cleaning ----

/// The entries that some node could act on.
pub open spec fn addressable(c: CatalogView) -> CatalogView {
    Map::new(|k: Seq<char>| c.dom().contains(k) && entry_fault(k, c[k]) is None, |k: Seq<char>| c[k])
}

/// The reasons against the first `n` of some keys.
pub open spec fn reasons(c: CatalogView, ks: Seq<Seq<char>>, n: int) -> Seq<Seq<char>>
    decreases n,
{
    if n <= 0 {
        Seq::empty()
    } else {
        let before = reasons(c, ks, n - 1);
        match entry_fault(ks[n - 1], c[ks[n - 1]]) {
            Some(why) => before.push(why),
            None => before,
        }
    }
}

/// Drops the entries no node could act on, returning one reason per drop, in name order. Runs on
/// every catalogue arriving from disk or off the wire before the view is compared or stored, so the
/// fingerprint is computed over what the node actually holds rather than over what it was handed.
pub fn sanitize_catalog(catalog: &mut IndexCatalog) -> (r: Vec<String>)
    ensures
        catalogue(*final(catalog)) == addressable(catalogue(*old(catalog))),
        texts(r@) == reasons(catalogue(*old(catalog)), old(catalog).keys(), old(catalog).keys().len() as int),
{
    let ghost c = catalogue(*catalog);
    let n = catalog.len();
    let ghost ks = catalog.keys();
    let mut dropped: Vec<String> = Vec::new();
    let mut kept: IndexCatalog = NameMap::new();
    let mut i: usize = 0;
    assert(texts(dropped@) =~= Seq::empty());
    while i < n
        invariant
            ks == catalog.keys(),
            n == ks.len(),
            catalog.keyed(),
            c == catalogue(*catalog),
            i <= n,
            texts(dropped@) == reasons(c, ks, i as int),
            forall|k: Seq<char>| kept@.dom().contains(k) <==> ks.take(i as int).contains(k) && entry_fault(k, c[k]) is None,
            forall|k: Seq<char>| kept@.dom().contains(k) ==> c.dom().contains(k) && kept@[k]@ == c[k],
        decreases n - i,
    {
        proof {
            lemma_take_grows(ks, i as int);
        }
        let name = catalog.key_at(i);
        let entry = catalog.value_at(i);
        assert(c[ks[i as int]] == entry@);
        match unaddressable_entry(name.as_str(), entry) {
            Some(why) => {
                let ghost before = texts(dropped@);
                dropped.push(why);
                assert(texts(dropped@) =~= before.push(why@));
            },
            None => {
                kept.insert(name.clone(), entry.clone());
            },
        }
        i += 1;
    }
    proof {
        lemma_take_all(ks);
        assert forall|k: Seq<char>| c.dom().contains(k) <==> ks.contains(k) by {
            assert(ks.to_set().contains(k) <==> ks.contains(k));
        }
        assert(catalogue(kept) =~= addressable(c));
    }
    *catalog = kept;
    dropped
}

// ---- Merging ----

/// Whether an entry of `from` is taken into `into`: some node could act on it, and there is none
/// there or an older one.
pub open spec fn taken(into: CatalogView, from: CatalogView, k: Seq<char>) -> bool {
    &&& from.dom().contains(k)
    &&& entry_fault(k, from[k]) is None
    &&& !into.dom().contains(k) || from[k].supersedes(into[k])
}

/// Two catalogues as one: the newer entry per collection.
pub open spec fn merged(into: CatalogView, from: CatalogView) -> CatalogView {
    Map::new(
        |k: Seq<char>| into.dom().contains(k) || taken(into, from, k),
        |k: Seq<char>| if taken(into, from, k) { from[k] } else { into[k] },
    )
}

/// Takes the newer entry per collection. Returns whether `into` moved, which is what says a merge is
/// worth persisting or handing on.
pub fn merge_catalog(into: &mut IndexCatalog, from: &IndexCatalog) -> (r: bool)
    ensures
        catalogue(*final(into)) == merged(catalogue(*old(into)), catalogue(*from)),
        r == exists|k: Seq<char>| taken(catalogue(*old(into)), catalogue(*from), k),
{
    let ghost a = catalogue(*into);
    let ghost b = catalogue(*from);
    let n = from.len();
    let ghost ks = from.keys();
    let mut moved = false;
    let mut i: usize = 0;
    while i < n
        invariant
            ks == from.keys(),
            n == ks.len(),
            from.keyed(),
            b == catalogue(*from),
            i <= n,
            forall|k: Seq<char>| #[trigger] into@.dom().contains(k) <==> a.dom().contains(k)
                || (ks.take(i as int).contains(k) && taken(a, b, k)),
            forall|k: Seq<char>| #[trigger] into@.dom().contains(k) ==> into@[k]@ == (if ks.take(i as int).contains(k)
                && taken(a, b, k) {
                b[k]
            } else {
                a[k]
            }),
            moved == exists|k: Seq<char>| #[trigger] ks.take(i as int).contains(k) && taken(a, b, k),
        decreases n - i,
    {
        let ghost q = ks[i as int];
        let ghost was_moved = moved;
        proof {
            lemma_take_grows(ks, i as int);
            assert(!ks.take(i as int).contains(q)) by {
                if ks.take(i as int).contains(q) {
                    let j = choose|j: int| 0 <= j < i && ks.take(i as int)[j] == q;
                    assert(ks[j] == ks[i as int]);
                }
            }
        }
        let name = from.key_at(i);
        let incoming = from.value_at(i);
        assert(b.dom().contains(q) && b[q] == incoming@);
        let usable = unaddressable_entry(name.as_str(), incoming).is_none();
        let newer = match into.get(name.as_str()) {
            Some(current) => incoming.supersedes(current),
            None => true,
        };
        assert(taken(a, b, q) == (usable && newer));
        if usable && newer {
            into.insert(name.clone(), incoming.clone());
            moved = true;
            assert(ks.take(i + 1).contains(q) && taken(a, b, q));
        }
        proof {
            if was_moved {
                let w = choose|k: Seq<char>| #[trigger] ks.take(i as int).contains(k) && taken(a, b, k);
                assert(ks.take(i + 1).contains(w) && taken(a, b, w));
            }
        }
        i += 1;
    }
    proof {
        lemma_take_all(ks);
        assert forall|k: Seq<char>| taken(a, b, k) implies ks.contains(k) by {
            assert(ks.to_set().contains(k));
        }
        assert(catalogue(*into) =~= merged(a, b));
        if exists|k: Seq<char>| taken(a, b, k) {
            let k = choose|k: Seq<char>| taken(a, b, k);
            assert(ks.take(n as int).contains(k));
        }
    }
    moved
}

// ---- Laws ----

/// Being newer is a strict order: no entry is newer than itself, no two are each newer than the
/// other, and newer than a newer one is newer.
pub proof fn law_newer_is_a_strict_order(a: CollectionIndexesView, b: CollectionIndexesView, c: CollectionIndexesView)
    ensures
        !a.supersedes(a),
        a.supersedes(b) ==> !b.supersedes(a),
        a.supersedes(b) && b.supersedes(c) ==> a.supersedes(c),
        !a.supersedes(b) && !b.supersedes(a) ==> a.version == b.version && a.updated_by == b.updated_by,
{
    lemma_text_order(a.updated_by, a.updated_by);
    lemma_text_order(a.updated_by, b.updated_by);
    if text_before(c.updated_by, b.updated_by) && text_before(b.updated_by, a.updated_by) {
        lemma_text_before_transitive(c.updated_by, b.updated_by, a.updated_by);
    }
}

/// Cleaning keeps exactly the entries that can be acted on, and finds nothing more to drop.
pub proof fn law_cleaning_is_idempotent(c: CatalogView)
    ensures
        addressable(addressable(c)) == addressable(c),
{
    assert(addressable(addressable(c)) =~= addressable(c));
}

/// A merge never loses a collection and never goes back on one.
pub proof fn law_a_merge_never_goes_back(into: CatalogView, from: CatalogView, k: Seq<char>)
    requires
        into.dom().contains(k),
    ensures
        merged(into, from).dom().contains(k),
        merged(into, from)[k] == into[k] || merged(into, from)[k].supersedes(into[k]),
{
}

/// A second round with the same peer has nothing to hand over.
pub proof fn law_a_merge_is_idempotent(into: CatalogView, from: CatalogView)
    ensures
        merged(merged(into, from), from) == merged(into, from),
        forall|k: Seq<char>| !taken(merged(into, from), from, k),
{
    let m = merged(into, from);
    assert forall|k: Seq<char>| !taken(m, from, k) by {
        if m.dom().contains(k) {
            law_newer_is_a_strict_order(m[k], m[k], m[k]);
        }
    }
    assert(merged(m, from) =~= m);
}

/// One version by one writer is one entry.
pub open spec fn agree(a: CatalogView, b: CatalogView) -> bool {
    forall|k: Seq<char>| #![trigger a[k], b[k]] a.dom().contains(k) && b.dom().contains(k) && a[k].version == b[k].version
        && a[k].updated_by == b[k].updated_by ==> a[k] == b[k]
}

/// The order in which two catalogues arrive makes no difference, as long as one version by one
/// writer is one entry.
pub proof fn law_the_order_of_merges_is_immaterial(c: CatalogView, a: CatalogView, b: CatalogView)
    requires
        agree(a, b),
    ensures
        merged(merged(c, a), b) == merged(merged(c, b), a),
{
    let x = merged(merged(c, a), b);
    let y = merged(merged(c, b), a);
    let ca = merged(c, a);
    let cb = merged(c, b);
    assert forall|k: Seq<char>| #[trigger] x.dom().contains(k) <==> y.dom().contains(k) by {}
    assert forall|k: Seq<char>| x.dom().contains(k) implies x[k] == y[k] by {
        let (ea, eb, ec) = (a[k], b[k], c[k]);
        law_newer_is_a_strict_order(ea, eb, ec);
        law_newer_is_a_strict_order(eb, ea, ec);
        law_newer_is_a_strict_order(ec, ea, eb);
        law_newer_is_a_strict_order(ec, eb, ea);
        law_newer_is_a_strict_order(ea, ec, eb);
        law_newer_is_a_strict_order(eb, ec, ea);
    }
    assert(x =~= y);
}

/// A merge holds every collection of both catalogues that can be acted on, each with an entry that
/// one of them has, and never with one that is older than either's.
pub proof fn law_a_merge_holds_the_newer_entry(into: CatalogView, from: CatalogView, k: Seq<char>)
    ensures
        merged(into, from).dom().contains(k) <==> into.dom().contains(k) || (from.dom().contains(k) && entry_fault(k, from[k]) is None),
        merged(into, from).dom().contains(k) ==> {
            let e = merged(into, from)[k];
            &&& (into.dom().contains(k) && e == into[k]) || (from.dom().contains(k) && entry_fault(k, from[k]) is None && e == from[k])
            &&& into.dom().contains(k) ==> !into[k].supersedes(e)
            &&& from.dom().contains(k) && entry_fault(k, from[k]) is None ==> !from[k].supersedes(e)
        },
{
    if into.dom().contains(k) {
        law_newer_is_a_strict_order(into[k], from[k], into[k]);
    }
    law_newer_is_a_strict_order(from[k], from[k], from[k]);
}

/// A merge moves a catalogue exactly where it says so.
pub proof fn law_a_merge_moves_where_it_takes(into: CatalogView, from: CatalogView)
    ensures
        merged(into, from) != into <==> exists|k: Seq<char>| taken(into, from, k),
{
    if exists|k: Seq<char>| taken(into, from, k) {
        let k = choose|k: Seq<char>| taken(into, from, k);
        law_newer_is_a_strict_order(from[k], from[k], from[k]);
        assert(merged(into, from).dom().contains(k) && merged(into, from)[k] == from[k]);
    } else {
        assert(merged(into, from) =~= into);
    }
}

/// The indexes of an entry are in order exactly where each has a name and a field path that can be
/// used and no name stands twice.
pub proof fn law_indexes_are_judged_one_by_one(collection: Seq<char>, v: Seq<IndexSpecView>, n: int)
    requires
        0 <= n <= v.len(),
    ensures
        spec_fault(collection, v, n) is None <==> {
            &&& forall|i: int| 0 <= i < n ==> index_name_ok((#[trigger] v[i]).name)
            &&& forall|i: int| 0 <= i < n ==> field_path_ok((#[trigger] v[i]).field)
            &&& forall|i: int, j: int| 0 <= i < j < n ==> (#[trigger] v[i]).name != (#[trigger] v[j]).name
        },
    decreases n,
{
    if n > 0 {
        law_indexes_are_judged_one_by_one(collection, v, n - 1);
        let before = v.take(n - 1);
        if has_index(before, v[n - 1].name) {
            let i = choose|i: int| 0 <= i < before.len() && (#[trigger] before[i]).name == v[n - 1].name;
            assert(v[i].name == v[n - 1].name);
        } else {
            assert forall|i: int| 0 <= i < n - 1 implies (#[trigger] v[i]).name != v[n - 1].name by {
                assert(before[i] == v[i]);
            }
        }
    }
}

/// An entry can be acted on exactly where its collection has a usable name and its indexes are not
/// too many and each in order.
pub proof fn law_what_can_be_acted_on(c: CatalogView, k: Seq<char>)
    ensures
        addressable(c).dom().contains(k) <==> {
            &&& c.dom().contains(k) && valid_name(k)
            &&& c[k].indexes.len() <= MAX_INDEXES_PER_COLLECTION
            &&& forall|i: int| 0 <= i < c[k].indexes.len() ==> index_name_ok((#[trigger] c[k].indexes[i]).name)
            &&& forall|i: int| 0 <= i < c[k].indexes.len() ==> field_path_ok((#[trigger] c[k].indexes[i]).field)
            &&& forall|i: int, j: int|
                0 <= i < j < c[k].indexes.len() ==> (#[trigger] c[k].indexes[i]).name != (#[trigger] c[k].indexes[j]).name
        },
        addressable(c).dom().contains(k) ==> addressable(c)[k] == c[k],
{
    if c.dom().contains(k) {
        law_indexes_are_judged_one_by_one(k, c[k].indexes, c[k].indexes.len() as int);
    }
}

/// Every entry that is dropped has its reason told, and no reason is told of one that stays.
pub proof fn law_every_drop_has_its_reason(c: CatalogView, ks: Seq<Seq<char>>, n: int, why: Seq<char>)
    requires
        0 <= n <= ks.len(),
    ensures
        reasons(c, ks, n).contains(why) <==> exists|i: int| 0 <= i < n && entry_fault(#[trigger] ks[i], c[ks[i]]) == Some(why),
        reasons(c, ks, n).len() <= n,
        reasons(c, ks, n).len() == n <==> forall|i: int| 0 <= i < n ==> entry_fault(#[trigger] ks[i], c[ks[i]]) is Some,
    decreases n,
{
    lemma_joined_hold::<Seq<char>>();
    if n > 0 {
        law_every_drop_has_its_reason(c, ks, n - 1, why);
    }
}

/// A change says what becomes of each definition: the one that is created is there as it was given
/// and no other under its name, one that is dropped is not there, and the others stay.
pub proof fn law_a_change_touches_one_name(v: Seq<IndexSpecView>, change: IndexChangeView, s: IndexSpecView)
    ensures
        change.applied(v).contains(s) <==> (match change {
            IndexChangeView::Create { spec } => if s.name == spec.name { s == spec } else { v.contains(s) },
            IndexChangeView::Drop { name } => s.name != name && v.contains(s),
        }),
{
    super::catalog::lemma_one_change(v, change, s);
}

/// A definition keeps its place when it is given anew, and comes last when it is new.
pub proof fn law_a_definition_keeps_its_place(v: Seq<IndexSpecView>, spec: IndexSpecView, i: int)
    requires
        0 <= i < v.len(),
    ensures
        ({
            let r = (IndexChangeView::Create { spec }).applied(v);
            &&& v[i].name == spec.name ==> r[i] == spec && r.len() == v.len()
            &&& v[i].name != spec.name ==> r[i] == v[i]
            &&& (forall|j: int| 0 <= j < v.len() ==> (#[trigger] v[j]).name != spec.name) ==> r.len() == v.len() + 1 && r[v.len() as int] == spec
        }),
{
    if v[i].name == spec.name {
        assert(has_index(v, spec.name));
    }
}

/// Of two entries the higher version is newer, and of two with one version the later writer's by name.
pub proof fn law_the_higher_version_is_newer(a: CollectionIndexesView, b: CollectionIndexesView)
    ensures
        a.version > b.version ==> a.supersedes(b),
        a.version < b.version ==> !a.supersedes(b),
        a.version == b.version ==> (a.supersedes(b) <==> text_before(b.updated_by, a.updated_by)),
{
}

proof fn lemma_path(s: Seq<char>)
    ensures
        ({
            let ps = pieces(s, '.');
            &&& ps.len() >= 1
            &&& (forall|i: int| 0 <= i < ps.len() - 1 ==> (#[trigger] ps[i]).len() > 0) <==> (s.len() > 0 ==> s[0] != '.') && forall|i: int|
                0 <= i < s.len() - 1 ==> !(#[trigger] s[i] == '.' && s[i + 1] == '.')
            &&& ps.last().len() == 0 <==> s.len() == 0 || s.last() == '.'
        }),
    decreases s.len(),
{
    if s.len() > 0 {
        let t = s.drop_last();
        let rest = pieces(t, '.');
        let ps = pieces(s, '.');
        lemma_path(t);
        assert(forall|i: int| 0 <= i < t.len() ==> t[i] == s[i]);
        let plain = (s[0] != '.') && forall|i: int| 0 <= i < s.len() - 1 ==> !(#[trigger] s[i] == '.' && s[i + 1] == '.');
        let before = (t.len() > 0 ==> t[0] != '.') && forall|i: int| 0 <= i < t.len() - 1 ==> !(#[trigger] t[i] == '.' && t[i + 1] == '.');
        if s.last() == '.' {
            assert(plain <==> before && t.len() > 0 && t.last() != '.') by {
                if plain {
                    assert forall|i: int| 0 <= i < t.len() - 1 implies !(#[trigger] t[i] == '.' && t[i + 1] == '.') by {
                        assert(t[i] == s[i] && t[i + 1] == s[i + 1]);
                    }
                    if t.len() > 0 && t.last() == '.' {
                        assert(s[s.len() - 2] == '.' && s[s.len() - 1] == '.');
                    }
                }
            }
            assert(forall|i: int| 0 <= i < rest.len() ==> ps[i] == rest[i]);
            if forall|i: int| 0 <= i < ps.len() - 1 ==> (#[trigger] ps[i]).len() > 0 {
                assert(ps[rest.len() - 1].len() > 0);
                assert forall|i: int| 0 <= i < rest.len() - 1 implies (#[trigger] rest[i]).len() > 0 by {
                    assert(ps[i].len() > 0);
                }
            }
            if plain {
                assert forall|i: int| 0 <= i < ps.len() - 1 implies (#[trigger] ps[i]).len() > 0 by {
                    if i < rest.len() - 1 {
                        assert(rest[i].len() > 0);
                    }
                }
            }
        } else {
            assert(plain <==> before) by {
                if plain {
                    assert forall|i: int| 0 <= i < t.len() - 1 implies !(#[trigger] t[i] == '.' && t[i + 1] == '.') by {
                        assert(t[i] == s[i] && t[i + 1] == s[i + 1]);
                    }
                }
            }
            assert(ps.len() == rest.len());
            assert(forall|i: int| 0 <= i < rest.len() - 1 ==> ps[i] == rest[i]);
            if forall|i: int| 0 <= i < ps.len() - 1 ==> (#[trigger] ps[i]).len() > 0 {
                assert forall|i: int| 0 <= i < rest.len() - 1 implies (#[trigger] rest[i]).len() > 0 by {
                    assert(ps[i].len() > 0);
                }
            }
            if plain {
                assert forall|i: int| 0 <= i < ps.len() - 1 implies (#[trigger] ps[i]).len() > 0 by {
                    assert(rest[i].len() > 0);
                }
            }
        }
    }
}

/// A field path can be used exactly where it says something, no dot stands at either end of it and no
/// two stand together.
pub proof fn law_which_field_paths_can_be_used(field: Seq<char>)
    ensures
        field_path_ok(field) <==> {
            &&& field.len() > 0 && field[0] != '.' && field.last() != '.'
            &&& forall|i: int| 0 <= i < field.len() - 1 ==> !(#[trigger] field[i] == '.' && field[i + 1] == '.')
        },
{
    let ps = pieces(field, '.');
    lemma_path(field);
    if field_path_ok(field) {
        assert(ps[ps.len() - 1].len() > 0);
    }
    if field.len() > 0 && field[0] != '.' && field.last() != '.' && (forall|i: int|
        0 <= i < field.len() - 1 ==> !(#[trigger] field[i] == '.' && field[i + 1] == '.')) {
        assert forall|i: int| 0 <= i < ps.len() implies (#[trigger] ps[i]).len() > 0 by {
            if i == ps.len() - 1 {
                assert(ps[i] == ps.last());
            }
        }
    }
}

/// An index name is one word of letters, digits, underscores and hyphens, and not too long.
pub proof fn law_which_index_names_can_be_used(name: Seq<char>)
    ensures
        index_name_ok(name) <==> {
            &&& 0 < name.len() && encode_utf8(name).len() <= MAX_INDEX_NAME_LEN
            &&& forall|i: int|
                0 <= i < name.len() ==> ('a' <= #[trigger] name[i] && name[i] <= 'z') || ('A' <= name[i] && name[i] <= 'Z') || ('0' <= name[i]
                    && name[i] <= '9') || name[i] == '_' || name[i] == '-'
        },
{
    if index_name_ok(name) {
        assert forall|i: int| 0 <= i < name.len() implies ('a' <= #[trigger] name[i] && name[i] <= 'z') || ('A' <= name[i] && name[i] <= 'Z')
            || ('0' <= name[i] && name[i] <= '9') || name[i] == '_' || name[i] == '-' by {
            assert(index_char(name[i]));
        }
    }
}

} // verus!
