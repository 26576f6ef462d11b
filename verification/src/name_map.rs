//! A map keyed by strings, kept in key order.

use crate::lists::{lemma_take_all, lemma_take_grows};
use crate::text::{comes_before, lemma_text_before_transitive, lemma_text_order, same_text, text_before, texts};
use vstd::prelude::*;

verus! {

/// Entries in strictly increasing key order: every key occurs once, and walking the entries meets
/// the keys in the order of their text.
#[derive(Debug, PartialEq, Eq)]
pub struct NameMap<V> {
    entries: Vec<(String, V)>,
}

/// Keys in strictly increasing order.
pub open spec fn increasing(keys: Seq<Seq<char>>) -> bool {
    forall|i: int, j: int| 0 <= i < j < keys.len() ==> text_before(#[trigger] keys[i], #[trigger] keys[j])
}

/// Strictly increasing keys are distinct.
pub proof fn lemma_increasing_distinct(keys: Seq<Seq<char>>)
    requires
        increasing(keys),
    ensures
        keys.no_duplicates(),
{
    assert forall|i: int, j: int| 0 <= i < keys.len() && 0 <= j < keys.len() && i != j implies keys[i] != keys[j] by {
        lemma_text_order(keys[i], keys[j]);
        if i < j {
            assert(text_before(keys[i], keys[j]));
        } else {
            assert(text_before(keys[j], keys[i]));
        }
    }
}

/// Strictly increasing keys are in one order alone.
pub proof fn lemma_increasing_unique(a: Seq<Seq<char>>, b: Seq<Seq<char>>)
    requires
        increasing(a),
        increasing(b),
        forall|k: Seq<char>| #[trigger] a.contains(k) <==> b.contains(k),
    ensures
        a == b,
{
    lemma_increasing_distinct(a);
    lemma_increasing_distinct(b);
    a.unique_seq_to_set();
    b.unique_seq_to_set();
    assert(a.to_set() =~= b.to_set());
    assert forall|i: int| 0 <= i < a.len() implies a[i] == b[i] by {
        lemma_increasing_at(a, b, i);
    }
    assert(a =~= b);
}

proof fn lemma_increasing_at(a: Seq<Seq<char>>, b: Seq<Seq<char>>, i: int)
    requires
        increasing(a),
        increasing(b),
        forall|k: Seq<char>| #[trigger] a.contains(k) <==> b.contains(k),
        a.len() == b.len(),
        0 <= i < a.len(),
    ensures
        a[i] == b[i],
    decreases i,
{
    assert forall|j: int| 0 <= j < i implies a[j] == b[j] by {
        lemma_increasing_at(a, b, j);
    }
    lemma_increasing_distinct(a);
    lemma_increasing_distinct(b);
    assert(a.contains(a[i]));
    assert(a.contains(b[i])) by {
        assert(b.contains(b[i]));
    }
    let j = choose|j: int| 0 <= j < b.len() && b[j] == a[i];
    let k = choose|k: int| 0 <= k < a.len() && a[k] == b[i];
    if a[i] != b[i] {
        assert(j > i && k > i);
        assert(text_before(b[i], b[j]));
        assert(text_before(a[i], a[k]));
        lemma_text_order(a[i], b[i]);
    }
}

/// The keys of a list of entries.
pub open spec fn keys_of<V>(e: Seq<(String, V)>) -> Seq<Seq<char>> {
    Seq::new(e.len(), |i: int| e[i].0@)
}

/// The contents of a list of entries.
pub open spec fn contents<V>(e: Seq<(String, V)>) -> Map<Seq<char>, V> {
    Map::new(
        |k: Seq<char>| keys_of(e).contains(k),
        |k: Seq<char>| e[keys_of(e).index_of(k)].1,
    )
}

/// Each entry of an ordered list is in its contents, and nothing else is.
proof fn lemma_contents<V>(e: Seq<(String, V)>)
    requires
        increasing(keys_of(e)),
    ensures
        forall|i: int| 0 <= i < e.len() ==> #[trigger] contents(e).dom().contains(keys_of(e)[i])
            && contents(e)[keys_of(e)[i]] == e[i].1,
        forall|k: Seq<char>| #[trigger] contents(e).dom().contains(k) ==> keys_of(e).contains(k),
{
    lemma_increasing_distinct(keys_of(e));
    assert forall|i: int| 0 <= i < e.len() implies #[trigger] contents(e).dom().contains(keys_of(e)[i])
        && contents(e)[keys_of(e)[i]] == e[i].1 by {
        let k = keys_of(e)[i];
        assert(keys_of(e).contains(k));
        let j = keys_of(e).index_of(k);
        assert(keys_of(e)[j] == k);
    }
}

proof fn lemma_replaced<V>(e: Seq<(String, V)>, i: int, entry: (String, V))
    requires
        increasing(keys_of(e)),
        0 <= i < e.len(),
        entry.0@ == e[i].0@,
    ensures
        increasing(keys_of(e.update(i, entry))),
        contents(e.update(i, entry)) == contents(e).insert(entry.0@, entry.1),
{
    let f = e.update(i, entry);
    assert(keys_of(f) =~= keys_of(e));
    lemma_contents(e);
    lemma_contents(f);
    assert(keys_of(e)[i] == entry.0@);
    assert forall|k: Seq<char>| contents(f).dom().contains(k) implies contents(f)[k] == contents(e).insert(entry.0@, entry.1)[k] by {
        let j = keys_of(f).index_of(k);
        assert(keys_of(f)[j] == k);
        lemma_increasing_distinct(keys_of(e));
    }
    assert(contents(e).dom().contains(keys_of(e)[i]));
    assert(contents(f) =~= contents(e).insert(entry.0@, entry.1));
}

proof fn lemma_opened<V>(e: Seq<(String, V)>, at: int, entry: (String, V))
    requires
        increasing(keys_of(e)),
        0 <= at <= e.len(),
        forall|i: int| 0 <= i < at ==> text_before(#[trigger] keys_of(e)[i], entry.0@),
        at < e.len() ==> text_before(entry.0@, keys_of(e)[at]),
    ensures
        increasing(keys_of(e.insert(at, entry))),
        contents(e.insert(at, entry)) == contents(e).insert(entry.0@, entry.1),
{
    let f = e.insert(at, entry);
    let ks = keys_of(e);
    let kf = keys_of(f);
    assert(kf =~= ks.insert(at, entry.0@));
    assert forall|i: int, j: int| 0 <= i < j < kf.len() implies text_before(#[trigger] kf[i], #[trigger] kf[j]) by {
        if i == at {
            assert(kf[j] == ks[j - 1]);
            if j - 1 > at {
                assert(text_before(ks[at], ks[j - 1]));
                lemma_text_before_transitive(entry.0@, ks[at], ks[j - 1]);
            }
        } else if j == at {
            assert(kf[i] == ks[i]);
        } else {
            let a = if i < at { i } else { i - 1 };
            let b = if j < at { j } else { j - 1 };
            assert(kf[i] == ks[a] && kf[j] == ks[b]);
        }
    }
    lemma_contents(e);
    lemma_contents(f);
    assert(kf[at] == entry.0@);
    assert forall|k: Seq<char>| #[trigger] contents(f).dom().contains(k) <==> contents(e).insert(entry.0@, entry.1).dom().contains(k) by {
        if contents(f).dom().contains(k) {
            let j = kf.index_of(k);
            assert(kf[j] == k);
            if j != at {
                let b = if j < at { j } else { j - 1 };
                assert(ks[b] == k);
                assert(contents(e).dom().contains(ks[b]));
            }
        }
        if contents(e).dom().contains(k) {
            let j = ks.index_of(k);
            assert(ks[j] == k);
            let b = if j < at { j } else { j + 1 };
            assert(kf[b] == k);
            assert(contents(f).dom().contains(kf[b]));
        }
        assert(contents(f).dom().contains(kf[at]));
    }
    assert forall|k: Seq<char>| contents(f).dom().contains(k) implies contents(f)[k] == contents(e).insert(entry.0@, entry.1)[k] by {
        let j = kf.index_of(k);
        assert(kf[j] == k);
        assert(contents(f)[kf[j]] == f[j].1);
        if j != at {
            let b = if j < at { j } else { j - 1 };
            assert(ks[b] == k);
            assert(contents(e).dom().contains(ks[b]));
            lemma_increasing_distinct(kf);
            assert(kf[at] != kf[j]);
        }
    }
    assert(contents(f) =~= contents(e).insert(entry.0@, entry.1));
}

proof fn lemma_closed<V>(e: Seq<(String, V)>, at: int)
    requires
        increasing(keys_of(e)),
        0 <= at < e.len(),
    ensures
        increasing(keys_of(e.remove(at))),
        contents(e.remove(at)) == contents(e).remove(e[at].0@),
{
    let f = e.remove(at);
    let ks = keys_of(e);
    let kf = keys_of(f);
    assert(kf =~= ks.remove(at));
    assert forall|i: int, j: int| 0 <= i < j < kf.len() implies text_before(#[trigger] kf[i], #[trigger] kf[j]) by {
        let a = if i < at { i } else { i + 1 };
        let b = if j < at { j } else { j + 1 };
        assert(kf[i] == ks[a] && kf[j] == ks[b]);
    }
    lemma_contents(e);
    lemma_contents(f);
    lemma_increasing_distinct(ks);
    assert(ks[at] == e[at].0@);
    assert forall|k: Seq<char>| #[trigger] contents(f).dom().contains(k) <==> contents(e).remove(e[at].0@).dom().contains(k) by {
        if contents(f).dom().contains(k) {
            let j = kf.index_of(k);
            assert(kf[j] == k);
            let b = if j < at { j } else { j + 1 };
            assert(ks[b] == k);
            assert(contents(e).dom().contains(ks[b]));
            assert(ks[b] != ks[at]);
        }
        if contents(e).dom().contains(k) && k != e[at].0@ {
            let j = ks.index_of(k);
            assert(ks[j] == k);
            let b = if j < at { j } else { j - 1 };
            assert(kf[b] == k);
            assert(contents(f).dom().contains(kf[b]));
        }
    }
    assert forall|k: Seq<char>| contents(f).dom().contains(k) implies contents(f)[k] == contents(e).remove(e[at].0@)[k] by {
        let j = kf.index_of(k);
        assert(kf[j] == k);
        let b = if j < at { j } else { j + 1 };
        assert(ks[b] == k);
        assert(contents(f)[kf[j]] == f[j].1);
        assert(contents(e)[ks[b]] == e[b].1);
        assert(ks[b] != ks[at]);
    }
    assert(contents(f) =~= contents(e).remove(e[at].0@));
}

impl<V> View for NameMap<V> {
    type V = Map<Seq<char>, V>;

    closed spec fn view(&self) -> Map<Seq<char>, V> {
        contents(self.entries@)
    }
}

impl<V> NameMap<V> {
    /// The keys in order.
    pub closed spec fn keys(self) -> Seq<Seq<char>> {
        keys_of(self.entries@)
    }

    #[verifier::type_invariant]
    spec fn ordered(self) -> bool {
        increasing(keys_of(self.entries@))
    }

    /// What the keys in order and the contents have to do with each other.
    pub open spec fn keyed(self) -> bool {
        &&& increasing(self.keys())
        &&& self.keys().no_duplicates()
        &&& self.keys().to_set() == self@.dom()
        &&& self@.dom().finite()
        &&& self@.dom().len() == self.keys().len()
    }

    /// The empty map.
    pub fn new() -> (r: Self)
        ensures
            r@ == Map::<Seq<char>, V>::empty(),
    {
        let r = NameMap { entries: Vec::new() };
        assert(r@ =~= Map::<Seq<char>, V>::empty());
        r
    }

    /// How many keys there are.
    pub fn len(&self) -> (r: usize)
        ensures
            r == self.keys().len(),
            self.keyed(),
    {
        proof {
            use_type_invariant(self);
            lemma_increasing_distinct(self.keys());
            self.keys().unique_seq_to_set();
            lemma_contents(self.entries@);
            assert(self.keys().to_set() =~= self@.dom());
            vstd::seq_lib::seq_to_set_is_finite(self.keys());
        }
        self.entries.len()
    }

    /// The `i`-th key in order.
    pub fn key_at(&self, i: usize) -> (r: &String)
        requires
            i < self.keys().len(),
        ensures
            r@ == self.keys()[i as int],
            self@.dom().contains(r@),
    {
        proof {
            use_type_invariant(self);
            lemma_contents(self.entries@);
            assert(contents(self.entries@).dom().contains(keys_of(self.entries@)[i as int]));
        }
        &self.entries[i].0
    }

    /// What is stored under the `i`-th key in order.
    pub fn value_at(&self, i: usize) -> (r: &V)
        requires
            i < self.keys().len(),
        ensures
            *r == self@[self.keys()[i as int]],
            self@.dom().contains(self.keys()[i as int]),
    {
        proof {
            use_type_invariant(self);
            lemma_contents(self.entries@);
            assert(contents(self.entries@).dom().contains(keys_of(self.entries@)[i as int]));
        }
        &self.entries[i].1
    }

    /// The first position whose key does not come before `key`.
    fn seek(&self, key: &str) -> (r: usize)
        ensures
            r <= self.entries@.len(),
            forall|i: int| 0 <= i < r ==> text_before(#[trigger] keys_of(self.entries@)[i], key@),
            r < self.entries@.len() ==> !text_before(keys_of(self.entries@)[r as int], key@),
    {
        let ghost ks = keys_of(self.entries@);
        let mut lo: usize = 0;
        let mut hi: usize = self.entries.len();
        proof {
            use_type_invariant(self);
        }
        while lo < hi
            invariant
                ks == keys_of(self.entries@),
                increasing(ks),
                lo <= hi <= ks.len(),
                forall|i: int| 0 <= i < lo ==> text_before(#[trigger] ks[i], key@),
                hi < ks.len() ==> !text_before(ks[hi as int], key@),
            decreases hi - lo,
        {
            let mid: usize = lo + (hi - lo) / 2;
            if comes_before(self.entries[mid].0.as_str(), key) {
                assert forall|i: int| 0 <= i < mid + 1 implies text_before(#[trigger] ks[i], key@) by {
                    if i < mid {
                        lemma_text_before_transitive(ks[i], ks[mid as int], key@);
                    }
                }
                lo = mid + 1;
            } else {
                hi = mid;
            }
        }
        lo
    }

    /// Where `key` stands, or else where it would.
    fn find(&self, key: &str) -> (r: Result<usize, usize>)
        ensures
            match r {
                Ok(i) => i < self.entries@.len() && keys_of(self.entries@)[i as int] == key@,
                Err(at) => {
                    &&& !self@.dom().contains(key@)
                    &&& at <= self.entries@.len()
                    &&& forall|i: int| 0 <= i < at ==> text_before(#[trigger] keys_of(self.entries@)[i], key@)
                    &&& at < self.entries@.len() ==> text_before(key@, keys_of(self.entries@)[at as int])
                },
            },
    {
        let i = self.seek(key);
        let ghost ks = keys_of(self.entries@);
        proof {
            use_type_invariant(self);
        }
        if i < self.entries.len() && same_text(self.entries[i].0.as_str(), key) {
            return Ok(i);
        }
        proof {
            if i < ks.len() {
                lemma_text_order(ks[i as int], key@);
            }
            assert forall|j: int| 0 <= j < ks.len() implies ks[j] != key@ by {
                lemma_text_order(ks[j], key@);
                if i < j {
                    assert(text_before(ks[i as int], ks[j]));
                    lemma_text_order(ks[i as int], ks[j]);
                }
            }
        }
        Err(i)
    }

    /// What is stored under `key`.
    pub fn get(&self, key: &str) -> (r: Option<&V>)
        ensures
            match r {
                Some(v) => self@.dom().contains(key@) && *v == self@[key@],
                None => !self@.dom().contains(key@),
            },
    {
        match self.find(key) {
            Ok(i) => {
                proof {
                    use_type_invariant(self);
                    lemma_contents(self.entries@);
                    assert(contents(self.entries@).dom().contains(keys_of(self.entries@)[i as int]));
                }
                Some(&self.entries[i].1)
            },
            Err(_) => None,
        }
    }

    /// Whether something is stored under `key`.
    pub fn holds(&self, key: &str) -> (r: bool)
        ensures
            r == self@.dom().contains(key@),
    {
        self.get(key).is_some()
    }

    /// Stores `value` under `key`, in place of what was there.
    pub fn insert(&mut self, key: String, value: V)
        ensures
            final(self)@ == old(self)@.insert(key@, value),
    {
        let found = self.find(key.as_str());
        proof {
            use_type_invariant(&*self);
        }
        let ghost before = self.entries@;
        let mut entries: Vec<(String, V)> = Vec::new();
        std::mem::swap(&mut self.entries, &mut entries);
        match found {
            Ok(i) => {
                proof {
                    lemma_replaced(before, i as int, (key, value));
                }
                entries.set(i, (key, value));
            },
            Err(at) => {
                proof {
                    lemma_opened(before, at as int, (key, value));
                }
                entries.insert(at, (key, value));
            },
        }
        self.entries = entries;
    }

    /// Takes out what is stored under `key`.
    pub fn remove(&mut self, key: &str) -> (r: Option<V>)
        ensures
            final(self)@ == old(self)@.remove(key@),
            match r {
                Some(v) => old(self)@.dom().contains(key@) && v == old(self)@[key@],
                None => !old(self)@.dom().contains(key@),
            },
    {
        match self.find(key) {
            Ok(i) => {
                proof {
                    use_type_invariant(&*self);
                    lemma_contents(self.entries@);
                    assert(contents(self.entries@).dom().contains(keys_of(self.entries@)[i as int]));
                    lemma_closed(self.entries@, i as int);
                }
                let mut entries: Vec<(String, V)> = Vec::new();
                std::mem::swap(&mut self.entries, &mut entries);
                let (_, value) = entries.remove(i);
                self.entries = entries;
                Some(value)
            },
            Err(_) => {
                assert(self@.remove(key@) =~= self@);
                None
            },
        }
    }

    /// Forgets every entry.
    pub fn clear(&mut self)
        ensures
            final(self)@ == Map::<Seq<char>, V>::empty(),
    {
        self.entries = Vec::new();
        assert(self@ =~= Map::<Seq<char>, V>::empty());
    }
}

/// The strings of a list in the order of their text, each once.
pub fn sorted_distinct(v: &Vec<String>) -> (r: Vec<String>)
    ensures
        increasing(texts(r@)),
        texts(r@).to_set() == texts(v@).to_set(),
{
    let ghost all = texts(v@);
    let mut m: NameMap<bool> = NameMap::new();
    let mut i: usize = 0;
    while i < v.len()
        invariant
            all == texts(v@),
            i <= v@.len(),
            forall|k: Seq<char>| #[trigger] m@.dom().contains(k) <==> all.take(i as int).contains(k),
        decreases v@.len() - i,
    {
        proof {
            lemma_take_grows(all, i as int);
        }
        m.insert(v[i].clone(), true);
        i += 1;
    }
    let n = m.len();
    let mut out: Vec<String> = Vec::new();
    let mut k: usize = 0;
    while k < n
        invariant
            n == m.keys().len(),
            k <= n,
            out@.len() == k,
            forall|j: int| 0 <= j < k ==> (#[trigger] out@[j])@ == m.keys()[j],
        decreases n - k,
    {
        out.push(m.key_at(k).clone());
        k += 1;
    }
    proof {
        lemma_take_all(all);
        assert(texts(out@) =~= m.keys());
        assert forall|q: Seq<char>| m.keys().to_set().contains(q) <==> all.to_set().contains(q) by {
            assert(m@.dom().contains(q) <==> all.contains(q));
        }
        assert(m.keys().to_set() =~= all.to_set());
    }
    out
}

} // verus!
