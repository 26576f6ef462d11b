//! Sets of pairs of strings, such as a collection with a key.

use crate::lists::{lemma_take_all, lemma_take_grows};
use crate::name_map::NameMap;
use vstd::prelude::*;

verus! {

/// Rows of keys, and how many keys there are in all.
pub struct KeySet {
    rows: NameMap<NameMap<bool>>,
    count: usize,
}

/// The pairs of a two-level map.
pub open spec fn pairs(m: NameMap<NameMap<bool>>) -> Set<(Seq<char>, Seq<char>)> {
    Set::new(|p: (Seq<char>, Seq<char>)| m@.dom().contains(p.0) && m@[p.0]@.dom().contains(p.1))
}

impl View for KeySet {
    type V = Set<(Seq<char>, Seq<char>)>;

    closed spec fn view(&self) -> Set<(Seq<char>, Seq<char>)> {
        pairs(self.rows)
    }
}

impl KeySet {
    #[verifier::type_invariant]
    spec fn counted(self) -> bool {
        &&& pairs(self.rows).finite()
        &&& self.count as int == if pairs(self.rows).len() > usize::MAX { usize::MAX as int } else { pairs(self.rows).len() as int }
    }

    /// The empty set.
    pub fn new() -> (r: Self)
        ensures
            r@ == Set::<(Seq<char>, Seq<char>)>::empty(),
    {
        let rows: NameMap<NameMap<bool>> = NameMap::new();
        proof {
            assert(pairs(rows) =~= Set::<(Seq<char>, Seq<char>)>::empty());
        }
        KeySet { rows, count: 0 }
    }

    /// How many pairs there are, as far as a machine word can say.
    pub fn len(&self) -> (r: usize)
        ensures
            self@.finite(),
            r as int == (if self@.len() > usize::MAX { usize::MAX as int } else { self@.len() as int }),
    {
        proof {
            use_type_invariant(self);
        }
        self.count
    }

    /// Whether a pair is in the set.
    pub fn contains(&self, row: &str, key: &str) -> (r: bool)
        ensures
            r == self@.contains((row@, key@)),
    {
        match self.rows.get(row) {
            Some(inner) => inner.holds(key),
            None => false,
        }
    }

    /// Puts a pair into the set.
    pub fn insert(&mut self, row: &str, key: &str)
        ensures
            final(self)@ == old(self)@.insert((row@, key@)),
    {
        let there = self.contains(row, key);
        proof {
            use_type_invariant(&*self);
        }
        if there {
            assert(self@.insert((row@, key@)) =~= self@);
            return;
        }
        let ghost before = pairs(self.rows);
        let mut next = KeySet::new();
        std::mem::swap(self, &mut next);
        let KeySet { rows, count } = next;
        let mut rows = rows;
        let mut inner = match rows.remove(row) {
            Some(inner) => inner,
            None => NameMap::new(),
        };
        inner.insert(key.to_owned(), true);
        rows.insert(row.to_owned(), inner);
        proof {
            assert(pairs(rows) =~= before.insert((row@, key@)));
        }
        *self = KeySet { rows, count: count.saturating_add(1) };
    }

    /// A copy.
    pub fn copied(&self) -> (r: Self)
        ensures
            r@ == self@,
    {
        proof {
            use_type_invariant(self);
        }
        KeySet { rows: copy_rows(&self.rows), count: self.count }
    }
}

fn copy_row(m: &NameMap<bool>) -> (r: NameMap<bool>)
    ensures
        r@.dom() == m@.dom(),
{
    let n = m.len();
    let ghost ks = m.keys();
    let mut out: NameMap<bool> = NameMap::new();
    let mut i: usize = 0;
    while i < n
        invariant
            ks == m.keys(),
            n == ks.len(),
            m.keyed(),
            i <= n,
            forall|k: Seq<char>| out@.dom().contains(k) <==> ks.take(i as int).contains(k),
        decreases n - i,
    {
        proof {
            lemma_take_grows(ks, i as int);
        }
        out.insert(m.key_at(i).clone(), *m.value_at(i));
        i += 1;
    }
    proof {
        lemma_take_all(ks);
        assert forall|k: Seq<char>| out@.dom().contains(k) <==> m@.dom().contains(k) by {
            assert(ks.to_set().contains(k) <==> ks.contains(k));
        }
        assert(out@.dom() =~= m@.dom());
    }
    out
}

/// A copy of a two-level map.
pub fn copy_rows(m: &NameMap<NameMap<bool>>) -> (r: NameMap<NameMap<bool>>)
    ensures
        pairs(r) == pairs(*m),
{
    let n = m.len();
    let ghost ks = m.keys();
    let mut out: NameMap<NameMap<bool>> = NameMap::new();
    let mut i: usize = 0;
    while i < n
        invariant
            ks == m.keys(),
            n == ks.len(),
            m.keyed(),
            i <= n,
            forall|k: Seq<char>| out@.dom().contains(k) <==> ks.take(i as int).contains(k),
            forall|k: Seq<char>| out@.dom().contains(k) ==> m@.dom().contains(k) && out@[k]@.dom() == m@[k]@.dom(),
        decreases n - i,
    {
        proof {
            lemma_take_grows(ks, i as int);
        }
        let inner = copy_row(m.value_at(i));
        out.insert(m.key_at(i).clone(), inner);
        i += 1;
    }
    proof {
        lemma_take_all(ks);
        assert forall|k: Seq<char>| out@.dom().contains(k) <==> m@.dom().contains(k) by {
            assert(ks.to_set().contains(k) <==> ks.contains(k));
        }
        assert(pairs(out) =~= pairs(*m));
    }
    out
}

} // verus!
