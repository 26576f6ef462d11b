//! Facts about sequences that the proofs share.

use vstd::prelude::*;

verus! {

/// A prefix one longer holds one element more.
pub proof fn lemma_take_grows<T>(s: Seq<T>, i: int)
    requires
        0 <= i < s.len(),
    ensures
        s.take(i + 1) == s.take(i).push(s[i]),
        s.take(i + 1).drop_last() == s.take(i),
        s.take(i + 1).last() == s[i],
        forall|q: T| #[trigger] s.take(i + 1).contains(q) <==> s.take(i).contains(q) || q == s[i],
{
    assert(s.take(i + 1) =~= s.take(i).push(s[i]));
    assert(s.take(i + 1).drop_last() =~= s.take(i));
    assert forall|q: T| #[trigger] s.take(i + 1).contains(q) <==> s.take(i).contains(q) || q == s[i] by {
        if s.take(i).contains(q) {
            let j = choose|j: int| 0 <= j < i && s.take(i)[j] == q;
            assert(s.take(i + 1)[j] == q);
        }
        assert(s.take(i + 1)[i] == s[i]);
        if s.take(i + 1).contains(q) && q != s[i] {
            let j = choose|j: int| 0 <= j < i + 1 && #[trigger] s.take(i + 1)[j] == q;
            assert(s.take(i)[j] == q);
        }
    }
}

/// The whole of a sequence is its longest prefix.
pub proof fn lemma_take_all<T>(s: Seq<T>)
    ensures
        s.take(s.len() as int) == s,
{
    assert(s.take(s.len() as int) =~= s);
}

/// What two lists one after the other hold, and what a list with one more element holds.
pub proof fn lemma_joined_hold<T>()
    ensures
        forall|a: Seq<T>, b: Seq<T>, x: T| #[trigger] (a + b).contains(x) <==> a.contains(x) || b.contains(x),
        forall|a: Seq<T>, y: T, x: T| #[trigger] a.push(y).contains(x) <==> a.contains(x) || x == y,
        forall|x: T| !#[trigger] Seq::<T>::empty().contains(x),
{
    assert forall|a: Seq<T>, b: Seq<T>, x: T| #[trigger] (a + b).contains(x) <==> a.contains(x) || b.contains(x) by {
        if a.contains(x) {
            let i = choose|i: int| 0 <= i < a.len() && a[i] == x;
            assert((a + b)[i] == x);
        }
        if b.contains(x) {
            let i = choose|i: int| 0 <= i < b.len() && b[i] == x;
            assert((a + b)[a.len() + i] == x);
        }
    }
    assert forall|a: Seq<T>, y: T, x: T| #[trigger] a.push(y).contains(x) <==> a.contains(x) || x == y by {
        if a.contains(x) {
            let i = choose|i: int| 0 <= i < a.len() && a[i] == x;
            assert(a.push(y)[i] == x);
        }
        assert(a.push(y)[a.len() as int] == y);
    }
}

} // verus!
