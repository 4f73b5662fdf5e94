//! The mathematical model of a boundary sequence: a strictly increasing
//! sequence `b0 < b1 < ...` where a value belongs to the set when an odd
//! number of boundaries are at or below it.

use vstd::prelude::*;
use crate::extreme::{RangeExtreme, lemma_total_order};

verus! {

/// The views of a sequence of values.
pub open spec fn views<T: View>(s: Seq<T>) -> Seq<T::V> {
    s.map_values(|x: T| x@)
}

/// The view of an element is the element of the views.
pub broadcast proof fn lemma_views_index<T: View>(s: Seq<T>, i: int)
    requires
        0 <= i < s.len(),
    ensures
        #[trigger] s[i]@ == views(s)[i],
{
}

/// Viewing keeps the length.
pub broadcast proof fn lemma_views_len<T: View>(s: Seq<T>)
    ensures
        #[trigger] views(s).len() == s.len(),
{
}

/// Strictly increasing, and made of valid values.
pub open spec fn sorted<T: RangeExtreme>(b: Seq<T::V>) -> bool {
    &&& forall|i: int| 0 <= i < b.len() ==> T::valid((#[trigger] b[i]))
    &&& forall|i: int, j: int| 0 <= i < j < b.len() ==> T::less((#[trigger] b[i]), #[trigger] b[j])
}

/// How many boundaries are at or below `v`.
pub open spec fn rank<T: RangeExtreme>(b: Seq<T::V>, v: T::V) -> nat
    decreases b.len(),
{
    if b.len() == 0 {
        0
    } else {
        rank::<T>(b.drop_last(), v) + if T::less(v, b.last()) { 0nat } else { 1nat }
    }
}

/// Whether `v` lies in the set that `b` describes.
pub open spec fn is_member<T: RangeExtreme>(b: Seq<T::V>, v: T::V) -> bool {
    rank::<T>(b, v) % 2 == 1
}

/// Every valid value.
pub open spec fn universe<T: RangeExtreme>() -> Set<T::V> {
    Set::new(|v: T::V| T::valid(v))
}

/// The set of values that `b` describes.
pub open spec fn set_of<T: RangeExtreme>(b: Seq<T::V>) -> Set<T::V> {
    Set::new(|v: T::V| T::valid(v) && is_member::<T>(b, v))
}

/// The boundary sequence that describes `m` (there is at most one).
pub open spec fn boundaries_of<T: RangeExtreme>(m: Set<T::V>) -> Seq<T::V> {
    choose|b: Seq<T::V>| sorted::<T>(b) && set_of::<T>(b) == m
}

/// Adding a boundary above `v` leaves the rank of `v` alone; adding one at
/// or below it counts one more.
pub proof fn lemma_rank_push<T: RangeExtreme>(b: Seq<T::V>, x: T::V, v: T::V)
    ensures
        rank::<T>(b.push(x), v) == rank::<T>(b, v) + if T::less(v, x) { 0nat } else { 1nat },
{
    assert(b.push(x).drop_last() =~= b);
}

/// The rank of `v` is the position where `v` would be inserted.
pub proof fn lemma_rank_at<T: RangeExtreme>(b: Seq<T::V>, v: T::V, k: int)
    requires
        sorted::<T>(b),
        T::valid(v),
        0 <= k <= b.len(),
        k == 0 || !T::less(v, b[k - 1]),
        k == b.len() || T::less(v, b[k]),
    ensures
        rank::<T>(b, v) == k,
    decreases b.len(),
{
    lemma_total_order::<T>();
    if b.len() > 0 {
        let c = b.drop_last();
        assert(sorted::<T>(c));
        if k == b.len() {
            if k - 1 > 0 {
                assert(T::less(c[k - 2], b[k - 1]));
            }
            lemma_rank_at::<T>(c, v, k - 1);
        } else {
            assert(T::less(v, b.last())) by {
                if k < b.len() - 1 {
                    assert(T::less(b[k], b[b.len() - 1]));
                }
            }
            lemma_rank_at::<T>(c, v, k);
        }
    }
}

/// The rank is at most the length, and splits the sequence at `v`.
pub proof fn lemma_rank_bounds<T: RangeExtreme>(b: Seq<T::V>, v: T::V)
    requires
        sorted::<T>(b),
        T::valid(v),
    ensures
        rank::<T>(b, v) <= b.len(),
        rank::<T>(b, v) > 0 ==> !T::less(v, b[rank::<T>(b, v) - 1]),
        rank::<T>(b, v) < b.len() ==> T::less(v, b[rank::<T>(b, v) as int]),
    decreases b.len(),
{
    lemma_total_order::<T>();
    if b.len() > 0 {
        let c = b.drop_last();
        assert(sorted::<T>(c));
        lemma_rank_bounds::<T>(c, v);
        let k = rank::<T>(c, v);
        if T::less(v, b.last()) {
            if k < c.len() {
                assert(T::less(v, c[k as int]));
            }
        } else {
            // every boundary is at or below v, so the rank of c is its length
            if k < c.len() {
                assert(T::less(c[k as int], b.last()));
                assert(false);
            }
        }
    }
}

/// Two boundary sequences that agree up to `k` and describe the same set are equal.
proof fn lemma_canonical_from<T: RangeExtreme>(a: Seq<T::V>, b: Seq<T::V>, k: int)
    requires
        sorted::<T>(a),
        sorted::<T>(b),
        0 <= k <= a.len(),
        k <= b.len(),
        forall|i: int| 0 <= i < k ==> a[i] == b[i],
        forall|v: T::V| T::valid(v) ==> is_member::<T>(a, v) == is_member::<T>(b, v),
    ensures
        a == b,
    decreases a.len() - k,
{
    lemma_total_order::<T>();
    if k == a.len() && k == b.len() {
        assert(a =~= b);
    } else if k < a.len() && k < b.len() && a[k] == b[k] {
        lemma_canonical_from::<T>(a, b, k + 1);
    } else if k < a.len() && (k == b.len() || T::less(a[k], b[k])) {
        let v = a[k];
        if k > 0 {
            assert(T::less(a[k - 1], a[k]));
        }
        if k + 1 < a.len() {
            assert(T::less(a[k], a[k + 1]));
        }
        lemma_rank_at::<T>(a, v, k + 1);
        lemma_rank_at::<T>(b, v, k);
        assert(is_member::<T>(a, v) != is_member::<T>(b, v));
    } else {
        let v = b[k];
        if k > 0 {
            assert(T::less(b[k - 1], b[k]));
        }
        if k + 1 < b.len() {
            assert(T::less(b[k], b[k + 1]));
        }
        lemma_rank_at::<T>(b, v, k + 1);
        lemma_rank_at::<T>(a, v, k);
        assert(is_member::<T>(a, v) != is_member::<T>(b, v));
    }
}

/// A set has at most one boundary sequence: equal sets mean equal boundaries.
pub proof fn lemma_canonical<T: RangeExtreme>(a: Seq<T::V>, b: Seq<T::V>)
    requires
        sorted::<T>(a),
        sorted::<T>(b),
        set_of::<T>(a) == set_of::<T>(b),
    ensures
        a == b,
{
    assert forall|v: T::V| T::valid(v) implies is_member::<T>(a, v) == is_member::<T>(b, v) by {
        assert(set_of::<T>(a).contains(v) == (T::valid(v) && is_member::<T>(a, v)));
        assert(set_of::<T>(b).contains(v) == (T::valid(v) && is_member::<T>(b, v)));
        assert(set_of::<T>(a).contains(v) == set_of::<T>(b).contains(v));
    }
    lemma_canonical_from::<T>(a, b, 0);
}

/// The boundary sequence of the set that a sorted sequence describes is that sequence.
pub proof fn lemma_boundaries_of_set<T: RangeExtreme>(b: Seq<T::V>)
    requires
        sorted::<T>(b),
    ensures
        boundaries_of::<T>(set_of::<T>(b)) == b,
{
    let c = boundaries_of::<T>(set_of::<T>(b));
    assert(sorted::<T>(c) && set_of::<T>(c) == set_of::<T>(b));
    lemma_canonical::<T>(c, b);
}

/// Two ways to describe one set.
pub proof fn lemma_boundaries_of_eq<T: RangeExtreme>(b: Seq<T::V>, m: Set<T::V>)
    requires
        sorted::<T>(b),
        set_of::<T>(b) =~= m,
    ensures
        boundaries_of::<T>(m) == b,
{
    lemma_boundaries_of_set::<T>(b);
}

} // verus!
