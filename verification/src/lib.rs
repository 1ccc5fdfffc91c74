//! A probabilistic ordered-sequence container: a skip list storing `u64`
//! values in ascending order, supporting insertion and ordered traversal.

pub mod iterator;
pub mod structures;
mod rng;

use vstd::prelude::*;

verus! {

/// The length of the longest prefix of `s` whose elements are all less
/// than or equal to `v`.
///
/// For a sorted sequence this is the position at which a new copy of `v`
/// is spliced in: after every element `<= v`, so equal values keep their
/// insertion order.
pub open spec fn insert_pos(s: Seq<u64>, v: u64) -> int
    decreases s.len(),
{
    if s.len() == 0 {
        0
    } else if s[0] <= v {
        1 + insert_pos(s.drop_first(), v)
    } else {
        0
    }
}

/// `s` is sorted ascending.
pub open spec fn sorted(s: Seq<u64>) -> bool {
    forall|i: int, j: int| 0 <= i < j < s.len() ==> s[i] <= s[j]
}

/// The splice position always lies within the sequence.
pub proof fn lemma_insert_pos_bounds(s: Seq<u64>, v: u64)
    ensures
        0 <= insert_pos(s, v) <= s.len(),
    decreases s.len(),
{
    if s.len() > 0 && s[0] <= v {
        lemma_insert_pos_bounds(s.drop_first(), v);
    }
}

/// Everything before the splice position is `<= v`.
pub proof fn lemma_insert_pos_prefix(s: Seq<u64>, v: u64)
    ensures
        forall|i: int| 0 <= i < insert_pos(s, v) ==> s[i] <= v,
    decreases s.len(),
{
    if s.len() > 0 && s[0] <= v {
        lemma_insert_pos_prefix(s.drop_first(), v);
        lemma_insert_pos_bounds(s.drop_first(), v);
        assert forall|i: int| 0 <= i < insert_pos(s, v) implies s[i] <= v by {
            if i > 0 {
                assert(s.drop_first()[i - 1] <= v);
            }
        }
    }
}

/// The element at the splice position, if any, is already `> v`.
pub proof fn lemma_insert_pos_above(s: Seq<u64>, v: u64)
    ensures
        insert_pos(s, v) < s.len() ==> s[insert_pos(s, v)] > v,
    decreases s.len(),
{
    if s.len() > 0 && s[0] <= v {
        lemma_insert_pos_above(s.drop_first(), v);
        lemma_insert_pos_bounds(s.drop_first(), v);
        if insert_pos(s, v) < s.len() {
            assert(s[insert_pos(s, v)] == s.drop_first()[insert_pos(s.drop_first(), v)]);
        }
    }
}

/// In a sorted sequence, any position whose prefix is `<= v` and whose
/// own element (if any) is `> v` is the splice position.
pub proof fn lemma_insert_pos_unique(s: Seq<u64>, v: u64, p: int)
    requires
        sorted(s),
        0 <= p <= s.len(),
        forall|i: int| 0 <= i < p ==> s[i] <= v,
        p < s.len() ==> s[p] > v,
    ensures
        p == insert_pos(s, v),
{
    let q = insert_pos(s, v);
    lemma_insert_pos_bounds(s, v);
    lemma_insert_pos_prefix(s, v);
    lemma_insert_pos_above(s, v);
    if q < p {
        assert(s[q] <= v);
        assert(false);
    }
    if p < q {
        assert(s[p] <= v);
        assert(false);
    }
}

/// Order invariant: splicing a value at its position keeps the sequence
/// sorted, whatever the value and whatever the sorted sequence.
pub proof fn lemma_insert_keeps_sorted(s: Seq<u64>, v: u64)
    requires
        sorted(s),
    ensures
        sorted(s.insert(insert_pos(s, v), v)),
{
    let p = insert_pos(s, v);
    lemma_insert_pos_bounds(s, v);
    lemma_insert_pos_prefix(s, v);
    lemma_insert_pos_above(s, v);
    let t = s.insert(p, v);
    s.insert_ensures(p, v);
    assert forall|i: int, j: int| 0 <= i < j < t.len() implies t[i] <= t[j] by {
        if i < p {
            assert(t[i] == s[i]);
        }
        if p < i {
            assert(t[i] == s[i - 1]);
        }
        if j < p {
            assert(t[j] == s[j]);
        }
        if p < j {
            assert(t[j] == s[j - 1]);
            assert(s[p] <= s[j - 1]);
        }
    }
}

/// Duplicate stability: every copy of `v` already present lies strictly
/// before the splice position, so a new copy goes in after all of them
/// and equal values keep their insertion order.
pub proof fn lemma_duplicates_stay_in_order(s: Seq<u64>, v: u64)
    requires
        sorted(s),
    ensures
        forall|i: int| 0 <= i < s.len() && s[i] == v ==> i < insert_pos(s, v),
{
    let p = insert_pos(s, v);
    lemma_insert_pos_bounds(s, v);
    lemma_insert_pos_above(s, v);
    assert forall|i: int| 0 <= i < s.len() && s[i] == v implies i < p by {
        if i >= p {
            assert(s[p] <= s[i]);
        }
    }
}

} // verus!
