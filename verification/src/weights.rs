//! Sums of integer weights over finite maps, and counts of occurrences in
//! sequences.

use vstd::prelude::*;

verus! {

/// The sum of the values of a finite map.
pub open spec fn sum<K>(w: Map<K, int>) -> int
    decreases w.dom().len(),
    when w.dom().finite()
{
    if w.dom().len() == 0 {
        0
    } else {
        let k = w.dom().choose();
        w[k] + sum(w.remove(k))
    }
}

/// The sum of a map is the value at any one key plus the sum of the rest.
pub proof fn lemma_sum_remove<K>(w: Map<K, int>, k: K)
    requires
        w.dom().finite(),
        w.contains_key(k),
    ensures
        sum(w) == w[k] + sum(w.remove(k)),
    decreases w.dom().len(),
{
    let c = w.dom().choose();
    assert(w.dom().len() > 0) by {
        if w.dom().len() == 0 {
            assert(w.dom() =~= Set::<K>::empty());
        }
    }
    if c != k {
        lemma_sum_remove(w.remove(c), k);
        lemma_sum_remove(w.remove(k), c);
        assert(w.remove(c).remove(k) =~= w.remove(k).remove(c));
    }
}

/// A new key adds its value to the sum.
pub proof fn lemma_sum_insert<K>(w: Map<K, int>, k: K, v: int)
    requires
        w.dom().finite(),
        !w.contains_key(k),
    ensures
        sum(w.insert(k, v)) == sum(w) + v,
{
    lemma_sum_remove(w.insert(k, v), k);
    assert(w.insert(k, v).remove(k) =~= w);
}

/// A changed value changes the sum by the difference.
pub proof fn lemma_sum_update<K>(w: Map<K, int>, k: K, v: int)
    requires
        w.dom().finite(),
        w.contains_key(k),
    ensures
        sum(w.insert(k, v)) == sum(w) - w[k] + v,
{
    lemma_sum_remove(w.insert(k, v), k);
    lemma_sum_remove(w, k);
    assert(w.insert(k, v).remove(k) =~= w.remove(k));
}

/// How often `x` occurs in `s`.
pub open spec fn occurrences<T>(s: Seq<T>, x: T) -> nat
    decreases s.len(),
{
    if s.len() == 0 {
        0
    } else {
        occurrences(s.drop_last(), x) + if s.last() == x {
            1nat
        } else {
            0nat
        }
    }
}

/// A value occurs in a sequence at least once exactly when the sequence
/// contains it, and never more often than the sequence is long.
pub proof fn lemma_occurrences<T>(s: Seq<T>, x: T)
    ensures
        occurrences(s, x) > 0 <==> s.contains(x),
        occurrences(s, x) <= s.len(),
    decreases s.len(),
{
    if s.len() > 0 {
        lemma_occurrences(s.drop_last(), x);
        if s.contains(x) {
            let i = choose|i: int| 0 <= i < s.len() && s[i] == x;
            if i < s.len() - 1 {
                assert(s.drop_last()[i] == x);
            }
        }
        if s.drop_last().contains(x) {
            let i = choose|i: int| 0 <= i < s.drop_last().len() && s.drop_last()[i] == x;
            assert(s[i] == x);
        }
        if s.last() == x {
            assert(s[s.len() - 1] == x);
        }
    }
}

} // verus!
