//! The sets that boundary sequences describe are closed under symmetric
//! difference and intersection, and the result's boundaries are drawn from
//! the operands' boundaries, so any property they all share carries over.

use vstd::prelude::*;
use crate::extreme::{RangeExtreme, lemma_total_order};
use crate::range::sym_diff;
use crate::boundaries::{
    sorted, rank, set_of, lemma_rank_push, lemma_rank_at,
    lemma_rank_bounds,
};

verus! {

/// Every boundary satisfies `p`.
pub open spec fn all_satisfy<A>(b: Seq<A>, p: spec_fn(A) -> bool) -> bool {
    forall|k: int| 0 <= k < b.len() ==> p(#[trigger] b[k])
}

/// Some boundary sequence whose boundaries all satisfy `p` describes `m`.
pub open spec fn representable_by<T: RangeExtreme>(m: Set<T::V>, p: spec_fn(T::V) -> bool) -> bool {
    exists|b: Seq<T::V>| sorted::<T>(b) && set_of::<T>(b) == m && all_satisfy(b, p)
}

/// The values at or above `x`.
pub open spec fn up_from<T: RangeExtreme>(x: T::V) -> Set<T::V> {
    Set::new(|v: T::V| T::valid(v) && !T::less(v, x))
}

/// A last boundary flips membership from it up.
proof fn lemma_set_push<T: RangeExtreme>(b: Seq<T::V>, x: T::V)
    ensures
        set_of::<T>(b.push(x)) =~= sym_diff(set_of::<T>(b), up_from::<T>(x)),
{
    assert forall|v: T::V| #[trigger] set_of::<T>(b.push(x)).contains(v) == sym_diff(
        set_of::<T>(b),
        up_from::<T>(x),
    ).contains(v) by {
        lemma_rank_push::<T>(b, x, v);
    }
}

/// A prefix of a sorted sequence is sorted.
proof fn lemma_sorted_drop_last<T: RangeExtreme>(b: Seq<T::V>)
    requires
        sorted::<T>(b),
        b.len() > 0,
    ensures
        sorted::<T>(b.drop_last()),
{
}

/// Flipping membership from `x` up keeps a set described, with boundaries satisfying `p`.
proof fn lemma_toggle<T: RangeExtreme>(c: Seq<T::V>, x: T::V, p: spec_fn(T::V) -> bool)
    requires
        sorted::<T>(c),
        T::valid(x),
        all_satisfy(c, p),
        p(x),
    ensures
        representable_by::<T>(sym_diff(set_of::<T>(c), up_from::<T>(x)), p),
{
    lemma_total_order::<T>();
    lemma_rank_bounds::<T>(c, x);
    let k = rank::<T>(c, x) as int;
    let target = sym_diff(set_of::<T>(c), up_from::<T>(x));
    if k > 0 && c[k - 1] == x {
        let d = c.subrange(0, k - 1) + c.subrange(k, c.len() as int);
        assert(sorted::<T>(d)) by {
            assert forall|i: int, j: int| 0 <= i < j < d.len() implies T::less(
                #[trigger] d[i],
                #[trigger] d[j],
            ) by {
                let ci = if i < k - 1 { i } else { i + 1 };
                let cj = if j < k - 1 { j } else { j + 1 };
                assert(d[i] == c[ci] && d[j] == c[cj]);
            }
            assert forall|i: int| 0 <= i < d.len() implies T::valid(#[trigger] d[i]) by {
                let ci = if i < k - 1 { i } else { i + 1 };
                assert(d[i] == c[ci]);
            }
        }
        assert forall|v: T::V| #[trigger] set_of::<T>(d).contains(v) == target.contains(v) by {
            if T::valid(v) {
                lemma_rank_bounds::<T>(c, v);
                let r = rank::<T>(c, v) as int;
                if T::less(v, x) {
                    // v lies below the removed boundary
                    assert(r <= k - 1) by {
                        if r > k - 1 {
                            assert(!T::less(v, c[r - 1]));
                            if r - 1 > k - 1 {
                                assert(T::less(c[k - 1], c[r - 1]));
                            }
                        }
                    }
                    if r > 0 {
                        assert(d[r - 1] == c[r - 1]);
                    }
                    if r < d.len() {
                        assert(d[r] == if r < k - 1 { c[r] } else { c[r + 1] });
                        if r == k - 1 {
                            assert(T::less(c[k - 1], c[k]));
                        }
                    }
                    lemma_rank_at::<T>(d, v, r);
                } else {
                    assert(r >= k) by {
                        if r < k {
                            assert(T::less(v, c[r]));
                            if r < k - 1 {
                                assert(T::less(c[r], c[k - 1]));
                            }
                        }
                    }
                    if r - 1 > 0 {
                        assert(d[r - 2] == if r - 2 < k - 1 { c[r - 2] } else { c[r - 1] });
                        if r - 2 >= k - 1 {
                        } else {
                            assert(T::less(c[r - 2], c[r - 1]));
                        }
                    }
                    if r - 1 < d.len() {
                        assert(d[r - 1] == c[r]);
                    }
                    lemma_rank_at::<T>(d, v, r - 1);
                }
            }
        }
        assert(set_of::<T>(d) =~= target);
        assert forall|q: int| 0 <= q < d.len() implies p(#[trigger] d[q]) by {
            let cq = if q < k - 1 { q } else { q + 1 };
            assert(d[q] == c[cq]);
        }
    } else {
        let d = c.subrange(0, k) + seq![x] + c.subrange(k, c.len() as int);
        if k > 0 {
            assert(T::less(c[k - 1], x));
        }
        assert(sorted::<T>(d)) by {
            assert forall|i: int, j: int| 0 <= i < j < d.len() implies T::less(
                #[trigger] d[i],
                #[trigger] d[j],
            ) by {
                if i < k {
                    assert(d[i] == c[i]);
                    if k > 0 && i < k - 1 {
                        assert(T::less(c[i], c[k - 1]));
                    }
                }
                if j > k {
                    assert(d[j] == c[j - 1]);
                    if j - 1 > k {
                        assert(T::less(c[k], c[j - 1]));
                    }
                }
                if i > k {
                    assert(d[i] == c[i - 1]);
                }
                if j < k {
                    assert(d[j] == c[j]);
                }
            }
            assert forall|i: int| 0 <= i < d.len() implies T::valid(#[trigger] d[i]) by {
                if i < k {
                    assert(d[i] == c[i]);
                } else if i > k {
                    assert(d[i] == c[i - 1]);
                }
            }
        }
        assert forall|v: T::V| #[trigger] set_of::<T>(d).contains(v) == target.contains(v) by {
            if T::valid(v) {
                lemma_rank_bounds::<T>(c, v);
                let r = rank::<T>(c, v) as int;
                if T::less(v, x) {
                    assert(r <= k) by {
                        if r > k {
                            assert(!T::less(v, c[r - 1]));
                            if r - 1 > k {
                                assert(T::less(c[k], c[r - 1]));
                            }
                        }
                    }
                    if r > 0 {
                        assert(d[r - 1] == c[r - 1]);
                    }
                    if r < d.len() {
                        assert(d[r] == if r < k { c[r] } else { x });
                    }
                    lemma_rank_at::<T>(d, v, r);
                } else {
                    assert(r >= k) by {
                        if r < k {
                            assert(T::less(v, c[r]));
                            if r < k - 1 {
                                assert(T::less(c[r], c[k - 1]));
                            }
                        }
                    }
                    assert(d[r] == if r == k { x } else { c[r - 1] });
                    if r + 1 < d.len() {
                        assert(d[r + 1] == c[r]);
                    }
                    lemma_rank_at::<T>(d, v, r + 1);
                }
            }
        }
        assert(set_of::<T>(d) =~= target);
        assert forall|q: int| 0 <= q < d.len() implies p(#[trigger] d[q]) by {
            if q < k {
                assert(d[q] == c[q]);
            } else if q > k {
                assert(d[q] == c[q - 1]);
            }
        }
    }
}

/// The symmetric difference of two described sets is described.
pub proof fn lemma_xor_representable<T: RangeExtreme>(m: Set<T::V>, b: Seq<T::V>, p: spec_fn(T::V) -> bool)
    requires
        representable_by::<T>(m, p),
        sorted::<T>(b),
        all_satisfy(b, p),
    ensures
        representable_by::<T>(sym_diff(m, set_of::<T>(b)), p),
    decreases b.len(),
{
    if b.len() == 0 {
        let a = choose|a: Seq<T::V>| sorted::<T>(a) && set_of::<T>(a) == m && all_satisfy(a, p);
        assert(set_of::<T>(b) =~= Set::<T::V>::empty());
        assert(sym_diff(m, set_of::<T>(b)) =~= set_of::<T>(a));
    } else {
        let b0 = b.drop_last();
        let y = b.last();
        lemma_sorted_drop_last::<T>(b);
        assert(all_satisfy(b0, p)) by {
            assert forall|q: int| 0 <= q < b0.len() implies p(#[trigger] b0[q]) by {
                assert(b0[q] == b[q]);
            }
        }
        lemma_xor_representable::<T>(m, b0, p);
        let c = choose|c: Seq<T::V>| sorted::<T>(c) && set_of::<T>(c) == sym_diff(m, set_of::<T>(b0)) && all_satisfy(c, p);
        assert(p(b[b.len() - 1]));
        lemma_toggle::<T>(c, y, p);
        lemma_set_push::<T>(b0, y);
        assert(b0.push(y) =~= b);
        assert(sym_diff(m, set_of::<T>(b)) =~= sym_diff(set_of::<T>(c), up_from::<T>(y)));
    }
}

/// What lies at or above `x` within a described set is described.
proof fn lemma_up_and_representable<T: RangeExtreme>(x: T::V, b: Seq<T::V>, p: spec_fn(T::V) -> bool)
    requires
        T::valid(x),
        p(x),
        sorted::<T>(b),
        all_satisfy(b, p),
    ensures
        representable_by::<T>(up_from::<T>(x) * set_of::<T>(b), p),
    decreases b.len(),
{
    lemma_total_order::<T>();
    if b.len() == 0 {
        assert(set_of::<T>(b) =~= Set::<T::V>::empty());
        assert(up_from::<T>(x) * set_of::<T>(b) =~= set_of::<T>(b));
        assert(all_satisfy(b, p));
    } else {
        let b0 = b.drop_last();
        let y = b.last();
        lemma_sorted_drop_last::<T>(b);
        assert(all_satisfy(b0, p)) by {
            assert forall|q: int| 0 <= q < b0.len() implies p(#[trigger] b0[q]) by {
                assert(b0[q] == b[q]);
            }
        }
        lemma_up_and_representable::<T>(x, b0, p);
        let hi = if T::less(x, y) { y } else { x };
        assert(p(b[b.len() - 1]));
        let one = seq![hi];
        assert(all_satisfy(one, p));
        assert(one.drop_last() =~= Seq::<T::V>::empty());
        assert(sorted::<T>(one));
        assert forall|v: T::V| #[trigger] set_of::<T>(one).contains(v) == up_from::<T>(hi).contains(v) by {
            assert(rank::<T>(Seq::<T::V>::empty(), v) == 0);
        }
        assert(set_of::<T>(one) =~= up_from::<T>(hi));
        lemma_xor_representable::<T>(up_from::<T>(x) * set_of::<T>(b0), one, p);
        lemma_set_push::<T>(b0, y);
        assert(b0.push(y) =~= b);
        assert(T::valid(y));
        assert forall|v: T::V| #[trigger] up_from::<T>(hi).contains(v) == (up_from::<T>(x).contains(v)
            && up_from::<T>(y).contains(v)) by {
            if T::valid(v) {
                if T::less(x, y) {
                    if T::less(v, x) {
                        assert(T::less(v, y));
                    }
                } else {
                    if T::less(v, y) && !T::less(v, x) {
                        assert(x == y || T::less(y, x));
                    }
                }
            }
        }
        assert(up_from::<T>(x) * set_of::<T>(b) =~= sym_diff(
            up_from::<T>(x) * set_of::<T>(b0),
            set_of::<T>(one),
        ));
    }
}

/// The intersection of two described sets is described.
pub proof fn lemma_and_representable<T: RangeExtreme>(a: Seq<T::V>, b: Seq<T::V>, p: spec_fn(T::V) -> bool)
    requires
        sorted::<T>(a),
        sorted::<T>(b),
        all_satisfy(a, p),
        all_satisfy(b, p),
    ensures
        representable_by::<T>(set_of::<T>(a) * set_of::<T>(b), p),
    decreases a.len(),
{
    if a.len() == 0 {
        assert(set_of::<T>(a) =~= Set::<T::V>::empty());
        assert(set_of::<T>(a) * set_of::<T>(b) =~= set_of::<T>(a));
    } else {
        assert(all_satisfy(a.drop_last(), p)) by {
            assert forall|q: int| 0 <= q < a.drop_last().len() implies p(#[trigger] a.drop_last()[q]) by {
                assert(a.drop_last()[q] == a[q]);
            }
        }
        assert(p(a[a.len() - 1]));
        let a0 = a.drop_last();
        let x = a.last();
        lemma_sorted_drop_last::<T>(a);
        lemma_and_representable::<T>(a0, b, p);
        lemma_up_and_representable::<T>(x, b, p);
        let c = choose|c: Seq<T::V>| sorted::<T>(c) && set_of::<T>(c) == up_from::<T>(x) * set_of::<T>(b) && all_satisfy(c, p);
        lemma_xor_representable::<T>(set_of::<T>(a0) * set_of::<T>(b), c, p);
        lemma_set_push::<T>(a0, x);
        assert(a0.push(x) =~= a);
        assert(set_of::<T>(a) * set_of::<T>(b) =~= sym_diff(
            set_of::<T>(a0) * set_of::<T>(b),
            set_of::<T>(c),
        ));
    }
}

} // verus!
