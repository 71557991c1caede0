//! Facts about sequences that several modules use.

use vstd::prelude::*;

verus! {

/// The first `n` parts, one after the other.
pub open spec fn joined<T>(parts: Seq<Seq<T>>, n: int) -> Seq<T>
    decreases n,
{
    if n <= 0 {
        Seq::empty()
    } else {
        joined(parts, n - 1) + parts[n - 1]
    }
}

/// Fewer parts joined are the start of more parts joined.
pub proof fn lemma_joined_prefix<T>(parts: Seq<Seq<T>>, a: int, b: int)
    requires
        0 <= a <= b <= parts.len(),
    ensures
        joined(parts, a).len() <= joined(parts, b).len(),
        joined(parts, b).subrange(0, joined(parts, a).len() as int) == joined(parts, a),
    decreases b - a,
{
    if a == b {
        assert(joined(parts, b).subrange(0, joined(parts, a).len() as int) =~= joined(parts, a));
    } else {
        lemma_joined_prefix(parts, a, b - 1);
        assert(joined(parts, b).subrange(0, joined(parts, a).len() as int) =~= joined(
            parts,
            b - 1,
        ).subrange(0, joined(parts, a).len() as int));
    }
}

/// Adding an element that does not occur keeps a sequence free of duplicates.
pub proof fn lemma_push_no_duplicates<T>(s: Seq<T>, x: T)
    requires
        s.no_duplicates(),
        !s.contains(x),
    ensures
        s.push(x).no_duplicates(),
{
    let t = s.push(x);
    assert forall|i: int, j: int| 0 <= i < t.len() && 0 <= j < t.len() && i != j implies t[i]
        != t[j] by {
        if i < s.len() && j < s.len() {
            assert(s[i] != s[j]);
        } else if i < s.len() {
            assert(s.contains(s[i]));
        } else {
            assert(s.contains(s[j]));
        }
    }
}

/// Filtering one element more keeps it where the predicate holds of it.
pub proof fn lemma_filter_step<T>(s: Seq<T>, pred: spec_fn(T) -> bool, i: int)
    requires
        0 <= i < s.len(),
    ensures
        s.subrange(0, i + 1).filter(pred) == if pred(s[i]) {
            s.subrange(0, i).filter(pred).push(s[i])
        } else {
            s.subrange(0, i).filter(pred)
        },
{
    reveal(Seq::filter);
    assert(s.subrange(0, i + 1).drop_last() =~= s.subrange(0, i));
}

/// Nothing is left of an empty sequence.
pub proof fn lemma_filter_empty<T>(pred: spec_fn(T) -> bool)
    ensures
        Seq::<T>::empty().filter(pred) == Seq::<T>::empty(),
{
    reveal(Seq::filter);
}

/// Joining depends on the parts that are joined only.
pub proof fn lemma_joined_same<T>(a: Seq<Seq<T>>, b: Seq<Seq<T>>, n: int)
    requires
        0 <= n <= a.len(),
        n <= b.len(),
        forall|i: int| 0 <= i < n ==> a[i] == b[i],
    ensures
        joined(a, n) == joined(b, n),
    decreases n,
{
    if n > 0 {
        lemma_joined_same(a, b, n - 1);
    }
}

} // verus!
