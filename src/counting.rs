//! Counting the elements of a sequence that satisfy a predicate, and the facts
//! about such counts that the ranking arguments of the books rely on.

use vstd::prelude::*;
use vstd::multiset::group_multiset_axioms;
use vstd::seq_lib::{group_to_multiset_ensures, lemma_multiset_commutative};

verus! {

/// How many elements of `s` satisfy `f`.
pub open spec fn count_where<T>(s: Seq<T>, f: spec_fn(T) -> bool) -> nat
    decreases s.len(),
{
    if s.len() == 0 {
        0
    } else {
        count_where(s.drop_last(), f) + if f(s.last()) {
            1nat
        } else {
            0nat
        }
    }
}

/// Counting distributes over concatenation.
pub proof fn lemma_count_concat<T>(a: Seq<T>, b: Seq<T>, f: spec_fn(T) -> bool)
    ensures
        count_where(a + b, f) == count_where(a, f) + count_where(b, f),
    decreases b.len(),
{
    if b.len() > 0 {
        assert((a + b).drop_last() =~= a + b.drop_last());
        lemma_count_concat(a, b.drop_last(), f);
    } else {
        assert(a + b =~= a);
    }
}

/// The count over a prefix is at most the count over the whole sequence.
pub proof fn lemma_count_prefix<T>(s: Seq<T>, m: int, f: spec_fn(T) -> bool)
    requires
        0 <= m <= s.len(),
    ensures
        count_where(s.take(m), f) <= count_where(s, f),
{
    assert(s =~= s.take(m) + s.skip(m));
    lemma_count_concat(s.take(m), s.skip(m), f);
}

/// Sequences with the same elements, counted with multiplicity, have equal counts.
pub proof fn lemma_count_permutation<T>(a: Seq<T>, b: Seq<T>, f: spec_fn(T) -> bool)
    requires
        a.to_multiset() == b.to_multiset(),
    ensures
        count_where(a, f) == count_where(b, f),
    decreases a.len(),
{
    broadcast use group_to_multiset_ensures;
    broadcast use group_multiset_axioms;

    if a.len() == 0 {
        assert(b.to_multiset().len() == 0);
    } else {
        let x = a.last();
        let a1 = a.drop_last();
        assert(a1.push(x) =~= a);
        assert(a.to_multiset().count(x) > 0);
        assert(b.contains(x));
        let k = choose|k: int| 0 <= k < b.len() && b[k] == x;
        let p = b.take(k);
        let q = b.skip(k + 1);
        assert(b =~= p + (seq![x] + q));
        assert(b.remove(k) =~= p + q);
        assert(a1.to_multiset() =~= b.remove(k).to_multiset());
        lemma_count_permutation(a1, b.remove(k), f);
        lemma_count_concat(p, seq![x] + q, f);
        lemma_count_concat(seq![x], q, f);
        lemma_count_concat(p, q, f);
        assert(seq![x].drop_last() =~= Seq::<T>::empty());
        assert(count_where(Seq::<T>::empty(), f) == 0);
        assert(seq![x].last() == x);
        assert(count_where(seq![x], f) == count_where(seq![x].drop_last(), f) + if f(x) {
            1nat
        } else {
            0nat
        });
        assert(count_where(a, f) == count_where(a1, f) + if f(x) {
            1nat
        } else {
            0nat
        });
    }
}

/// Two positions that qualify make a count of at least two.
pub proof fn lemma_count_two_witnesses<T>(s: Seq<T>, i: int, j: int, f: spec_fn(T) -> bool)
    requires
        0 <= i < j < s.len(),
        f(s[i]),
        f(s[j]),
    ensures
        count_where(s, f) >= 2,
    decreases s.len(),
{
    if j < s.len() - 1 {
        lemma_count_two_witnesses(s.drop_last(), i, j, f);
    } else {
        let t = s.drop_last();
        assert(t[i] == s[i]);
        assert(t.take(i + 1).drop_last() =~= t.take(i));
        lemma_count_prefix(t, i + 1, f);
    }
}

/// A count of at least one has a witness.
pub proof fn lemma_count_one_witness<T>(s: Seq<T>, f: spec_fn(T) -> bool) -> (i: int)
    requires
        count_where(s, f) >= 1,
    ensures
        0 <= i < s.len(),
        f(s[i]),
    decreases s.len(),
{
    if f(s.last()) {
        s.len() - 1
    } else {
        let i = lemma_count_one_witness(s.drop_last(), f);
        assert(s.drop_last()[i] == s[i]);
        i
    }
}

/// A count of at least two has two distinct witnesses.
pub proof fn lemma_count_two_witnesses_back<T>(s: Seq<T>, f: spec_fn(T) -> bool) -> (r: (int, int))
    requires
        count_where(s, f) >= 2,
    ensures
        0 <= r.0 < r.1 < s.len(),
        f(s[r.0]),
        f(s[r.1]),
    decreases s.len(),
{
    let t = s.drop_last();
    if f(s.last()) {
        let i = lemma_count_one_witness(t, f);
        assert(t[i] == s[i]);
        (i, s.len() - 1)
    } else {
        let (i, j) = lemma_count_two_witnesses_back(t, f);
        assert(t[i] == s[i]);
        assert(t[j] == s[j]);
        (i, j)
    }
}

} // verus!
