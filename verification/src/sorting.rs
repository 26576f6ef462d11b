//! Sorting and joining lists of strings.

use crate::lists::{lemma_take_all, lemma_take_grows};
use crate::text::{comes_before, lemma_text_before_transitive, lemma_text_order, text_before, texts};
use vstd::prelude::*;

verus! {

/// A sorted list with one string more, after those it does not come before.
pub open spec fn placed(s: Seq<Seq<char>>, x: Seq<char>) -> Seq<Seq<char>>
    decreases s.len(),
{
    if s.len() > 0 && text_before(x, s.last()) {
        placed(s.drop_last(), x).push(s.last())
    } else {
        s.push(x)
    }
}

/// The strings of a list in the order of their text.
pub open spec fn sorted(s: Seq<Seq<char>>) -> Seq<Seq<char>>
    decreases s.len(),
{
    if s.len() == 0 { s } else { placed(sorted(s.drop_last()), s.last()) }
}

/// The strings of a list end to end, with a separator between them.
pub open spec fn joined(s: Seq<Seq<char>>, sep: Seq<char>) -> Seq<char>
    decreases s.len(),
{
    if s.len() == 0 {
        Seq::empty()
    } else if s.len() == 1 {
        s[0]
    } else {
        joined(s.drop_last(), sep) + sep + s.last()
    }
}

/// Sorts a list of strings.
pub fn sort_texts(v: Vec<String>) -> (r: Vec<String>)
    ensures
        texts(r@) == sorted(texts(v@)),
        r@.len() == v@.len(),
{
    let ghost all = texts(v@);
    let mut out: Vec<String> = Vec::new();
    let mut i: usize = 0;
    assert(all.take(0) =~= Seq::empty());
    assert(texts(out@) =~= sorted(all.take(0)));
    while i < v.len()
        invariant
            all == texts(v@),
            i <= v@.len(),
            out@.len() == i,
            texts(out@) == sorted(all.take(i as int)),
        decreases v@.len() - i,
    {
        proof {
            lemma_take_grows(all, i as int);
        }
        let ghost s = texts(out@);
        let x = v[i].clone();
        let mut pos: usize = out.len();
        assert(s.take(pos as int) =~= s);
        assert(placed(s, x@) =~= placed(s.take(pos as int), x@) + s.skip(pos as int));
        while pos > 0 && comes_before(x.as_str(), out[pos - 1].as_str())
            invariant
                s == texts(out@),
                pos <= out@.len(),
                placed(s, x@) == placed(s.take(pos as int), x@) + s.skip(pos as int),
            ensures
                pos <= out@.len(),
                placed(s, x@) == placed(s.take(pos as int), x@) + s.skip(pos as int),
                pos > 0 ==> !text_before(x@, s[pos - 1]),
            decreases pos,
        {
            proof {
                let p = s.take(pos as int);
                assert(p.last() == s[pos - 1]);
                assert(p.drop_last() =~= s.take(pos - 1));
                assert(placed(s.take(pos - 1), x@).push(s[pos - 1]) + s.skip(pos as int) =~= placed(s.take(pos - 1), x@) + s.skip(pos - 1));
            }
            pos -= 1;
        }
        proof {
            let p = s.take(pos as int);
            if pos > 0 {
                assert(p.last() == s[pos - 1]);
            }
            assert(placed(p, x@) == p.push(x@));
        }
        out.insert(pos, x);
        proof {
            assert(texts(out@) =~= s.take(pos as int).push(x@) + s.skip(pos as int));
        }
        i += 1;
    }
    proof {
        lemma_take_all(all);
    }
    out
}

/// Joins a list of strings.
pub fn join_texts(v: &Vec<String>, sep: &str) -> (r: String)
    ensures
        r@ == joined(texts(v@), sep@),
{
    let ghost all = texts(v@);
    let mut out: String = String::new();
    let mut i: usize = 0;
    assert(all.take(0) =~= Seq::empty());
    while i < v.len()
        invariant
            all == texts(v@),
            i <= v@.len(),
            out@ == joined(all.take(i as int), sep@),
        decreases v@.len() - i,
    {
        proof {
            lemma_take_grows(all, i as int);
            if i == 0 {
                assert(out@ =~= Seq::<char>::empty());
                assert(Seq::<char>::empty() + all[0] =~= all[0]);
                assert(all.take(1)[0] == all[0]);
            }
        }
        if i > 0 {
            out.append(sep);
        }
        out.append(v[i].as_str());
        i += 1;
    }
    proof {
        lemma_take_all(all);
    }
    out
}

// ---- What sorting gives ----

/// No string comes before one that stands earlier.
pub open spec fn in_order(s: Seq<Seq<char>>) -> bool {
    forall|i: int, j: int| 0 <= i < j < s.len() ==> !text_before(#[trigger] s[j], #[trigger] s[i])
}

proof fn lemma_placed(s: Seq<Seq<char>>, x: Seq<char>)
    requires
        in_order(s),
    ensures
        in_order(placed(s, x)),
        placed(s, x).to_multiset() == s.to_multiset().insert(x),
        placed(s, x).len() == s.len() + 1,
        forall|k: int| 0 <= k < placed(s, x).len() ==> (#[trigger] placed(s, x)[k]) == x || s.contains(placed(s, x)[k]),
    decreases s.len(),
{
    if s.len() > 0 && text_before(x, s.last()) {
        let rest = s.drop_last();
        assert(in_order(rest)) by {
            assert forall|i: int, j: int| 0 <= i < j < rest.len() implies !text_before(#[trigger] rest[j], #[trigger] rest[i]) by {
                assert(rest[i] == s[i] && rest[j] == s[j]);
            }
        }
        lemma_placed(rest, x);
        let p = placed(rest, x);
        let r = placed(s, x);
        assert(r == p.push(s.last()));
        vstd::seq_lib::to_multiset_build(p, s.last());
        assert(s =~= rest.push(s.last()));
        vstd::seq_lib::to_multiset_build(rest, s.last());
        assert(rest.to_multiset().insert(x).insert(s.last()) =~= rest.to_multiset().insert(s.last()).insert(x));
        assert forall|i: int, j: int| 0 <= i < j < r.len() implies !text_before(#[trigger] r[j], #[trigger] r[i]) by {
            if j < p.len() {
                assert(r[i] == p[i] && r[j] == p[j]);
            } else {
                assert(r[i] == p[i]);
                if p[i] == x {
                    lemma_text_order(x, s.last());
                } else {
                    let k = choose|k: int| 0 <= k < rest.len() && rest[k] == p[i];
                    assert(s[k] == p[i]);
                    assert(!text_before(s[s.len() - 1], s[k]));
                }
            }
        }
        assert forall|k: int| 0 <= k < r.len() implies (#[trigger] r[k]) == x || s.contains(r[k]) by {
            if k < p.len() {
                if p[k] != x {
                    let q = choose|q: int| 0 <= q < rest.len() && rest[q] == p[k];
                    assert(s[q] == r[k]);
                }
            } else {
                assert(s[s.len() - 1] == r[k]);
            }
        }
    } else {
        vstd::seq_lib::to_multiset_build(s, x);
        let r = s.push(x);
        assert forall|i: int, j: int| 0 <= i < j < r.len() implies !text_before(#[trigger] r[j], #[trigger] r[i]) by {
            if j < s.len() {
                assert(r[i] == s[i] && r[j] == s[j]);
            } else {
                assert(r[i] == s[i]);
                lemma_not_before(s, x, i);
            }
        }
        assert forall|k: int| 0 <= k < r.len() implies (#[trigger] r[k]) == x || s.contains(r[k]) by {
            if k < s.len() {
                assert(s[k] == r[k]);
            }
        }
    }
}

/// What does not come before the last of a sorted list comes before none of it.
proof fn lemma_not_before(s: Seq<Seq<char>>, x: Seq<char>, i: int)
    requires
        in_order(s),
        0 <= i < s.len(),
        !text_before(x, s.last()),
    ensures
        !text_before(x, s[i]),
{
    if i < s.len() - 1 && text_before(x, s[i]) {
        assert(!text_before(s[s.len() - 1], s[i]));
        lemma_text_order(s[i], s.last());
        if s[i] != s.last() {
            lemma_text_before_transitive(x, s[i], s.last());
        }
    }
}

/// Sorting puts the strings in order and keeps each as often as it was there.
pub proof fn law_sorting_keeps_everything(s: Seq<Seq<char>>)
    ensures
        in_order(sorted(s)),
        sorted(s).to_multiset() == s.to_multiset(),
        sorted(s).len() == s.len(),
    decreases s.len(),
{
    if s.len() > 0 {
        law_sorting_keeps_everything(s.drop_last());
        lemma_placed(sorted(s.drop_last()), s.last());
        assert(s =~= s.drop_last().push(s.last()));
        vstd::seq_lib::to_multiset_build(s.drop_last(), s.last());
    }
}

/// How a list was ordered makes no difference once it is sorted.
pub proof fn law_sorting_forgets_the_order(a: Seq<Seq<char>>, b: Seq<Seq<char>>)
    requires
        a.to_multiset() == b.to_multiset(),
    ensures
        sorted(a) == sorted(b),
{
    law_sorting_keeps_everything(a);
    law_sorting_keeps_everything(b);
    let leq = |x: Seq<char>, y: Seq<char>| !text_before(y, x);
    assert(vstd::relations::sorted_by(sorted(a), leq));
    assert(vstd::relations::sorted_by(sorted(b), leq));
    assert(vstd::relations::total_ordering(leq)) by {
        assert forall|x: Seq<char>, y: Seq<char>| #[trigger] leq(x, y) && #[trigger] leq(y, x) implies x == y by {
            lemma_text_order(x, y);
        }
        assert forall|x: Seq<char>, y: Seq<char>| #[trigger] leq(x, y) || #[trigger] leq(y, x) by {
            lemma_text_order(x, y);
        }
        assert forall|x: Seq<char>| #[trigger] leq(x, x) by {
            lemma_text_order(x, x);
        }
        assert forall|x: Seq<char>, y: Seq<char>, z: Seq<char>| #[trigger] leq(x, y) && #[trigger] leq(y, z) implies leq(x, z) by {
            lemma_text_order(x, y);
            lemma_text_order(y, z);
            lemma_text_order(x, z);
            if text_before(z, x) {
                if x != y {
                    lemma_text_before_transitive(z, x, y);
                }
            }
        }
    }
    vstd::seq_lib::lemma_sorted_unique(sorted(a), sorted(b), leq);
}

/// Joined texts stand one after the other with the separator between any two, and nothing else.
pub proof fn law_texts_are_joined_one_by_one(s: Seq<Seq<char>>, x: Seq<char>, sep: Seq<char>)
    ensures
        joined(Seq::empty(), sep) == Seq::<char>::empty(),
        s.len() == 0 ==> joined(s.push(x), sep) == x,
        s.len() > 0 ==> joined(s.push(x), sep) == joined(s, sep) + sep + x,
{
    assert(s.push(x).drop_last() =~= s);
}

} // verus!
