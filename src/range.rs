//! Sets of values as canonical sequences of disjoint half-open intervals.

use vstd::prelude::*;
use std::cmp::Ordering;
use crate::extreme::{RangeExtreme, lemma_total_order};
use crate::boundaries::{
    sorted, rank, is_member, universe, set_of, boundaries_of, lemma_rank_push, lemma_rank_at,
    lemma_rank_bounds, lemma_boundaries_of_eq, views, lemma_views_index, lemma_views_len,
};

verus! {

/// A set of values: the union of disjoint intervals `[b0, b1)`, `[b2, b3)`, ...
/// over a strictly increasing boundary sequence. When the number of
/// boundaries is odd, the last interval reaches the greatest value, which it
/// includes. Each set has exactly one such sequence, so two ranges are equal
/// exactly when they hold the same values.
#[derive(Debug, Clone, PartialEq, Eq, Hash)]
pub struct Range<T> {
    boundaries: Vec<T>,
}

impl<T: View> View for Range<T> {
    type V = Seq<T::V>;

    closed spec fn view(&self) -> Seq<T::V> {
        views(self.boundaries@)
    }
}

broadcast use {lemma_views_index, lemma_views_len};

/// The complement: the least value becomes a boundary, or stops being one.
pub open spec fn spec_not<T: RangeExtreme>(b: Seq<T::V>) -> Seq<T::V> {
    if b.len() > 0 && b[0] == T::lowest() {
        b.drop_first()
    } else {
        seq![T::lowest()] + b
    }
}

/// The boundaries of the union.
pub open spec fn spec_or<T: RangeExtreme>(a: Seq<T::V>, b: Seq<T::V>) -> Seq<T::V> {
    boundaries_of::<T>(set_of::<T>(a) + set_of::<T>(b))
}

/// The boundaries of the intersection.
pub open spec fn spec_and<T: RangeExtreme>(a: Seq<T::V>, b: Seq<T::V>) -> Seq<T::V> {
    boundaries_of::<T>(set_of::<T>(a) * set_of::<T>(b))
}

/// The values in exactly one of two sets.
pub open spec fn sym_diff<A>(a: Set<A>, b: Set<A>) -> Set<A> {
    (a - b) + (b - a)
}

/// The boundaries of the symmetric difference.
pub open spec fn spec_xor<T: RangeExtreme>(a: Seq<T::V>, b: Seq<T::V>) -> Seq<T::V> {
    boundaries_of::<T>(sym_diff(set_of::<T>(a), set_of::<T>(b)))
}

/// The boundaries of the values that lie in an odd number of the given sets.
pub open spec fn spec_xor_all<T: RangeExtreme>(rs: Seq<Seq<T::V>>) -> Seq<T::V>
    decreases rs.len(),
{
    if rs.len() == 0 {
        Seq::empty()
    } else {
        spec_xor::<T>(spec_xor_all::<T>(rs.drop_last()), rs.last())
    }
}

/// Whether the union (`true`) or the symmetric difference (`false`) holds a
/// value, from whether each operand holds it.
pub open spec fn merged(union: bool, x: bool, y: bool) -> bool {
    if union {
        x || y
    } else {
        x != y
    }
}

/// A boundary placed first shifts the rank of every value at or above it by one.
proof fn lemma_rank_prepend<T: RangeExtreme>(x: T::V, b: Seq<T::V>, v: T::V)
    requires
        sorted::<T>(seq![x] + b),
        T::valid(v),
        !T::less(v, x),
    ensures
        rank::<T>(seq![x] + b, v) == rank::<T>(b, v) + 1,
{
    lemma_total_order::<T>();
    let c = seq![x] + b;
    assert(sorted::<T>(b)) by {
        assert forall|i: int, j: int| 0 <= i < j < b.len() implies T::less((#[trigger] b[i]), #[trigger] b[j],) by {
            assert(c[i + 1] == b[i] && c[j + 1] == b[j]);
        }
        assert forall|i: int| 0 <= i < b.len() implies T::valid((#[trigger] b[i])) by {
            assert(c[i + 1] == b[i]);
        }
    }
    lemma_rank_bounds::<T>(b, v);
    let k = rank::<T>(b, v) as int;
    if k > 0 {
        assert(c[k] == b[k - 1]);
    }
    if k < b.len() {
        assert(c[k + 1] == b[k]);
    }
    lemma_rank_at::<T>(c, v, k + 1);
}

/// The complement holds exactly the values outside the set.
pub proof fn lemma_not_set<T: RangeExtreme>(b: Seq<T::V>)
    requires
        sorted::<T>(b),
    ensures
        sorted::<T>(spec_not::<T>(b)),
        set_of::<T>(spec_not::<T>(b)) =~= universe::<T>() - set_of::<T>(b),
{
    lemma_total_order::<T>();
    if b.len() > 0 && b[0] == T::lowest() {
        let c = b.drop_first();
        assert(b =~= seq![T::lowest()] + c);
        assert forall|i: int, j: int| 0 <= i < j < c.len() implies T::less((#[trigger] c[i]), #[trigger] c[j],) by {
            assert(b[i + 1] == c[i] && b[j + 1] == c[j]);
        }
        assert forall|i: int| 0 <= i < c.len() implies T::valid((#[trigger] c[i])) by {
            assert(b[i + 1] == c[i]);
        }
        assert forall|v: T::V| T::valid(v) implies rank::<T>(b, v) == rank::<T>(c, v) + 1 by {
            lemma_rank_prepend::<T>(T::lowest(), c, v);
        }
    } else {
        let c = seq![T::lowest()] + b;
        assert forall|i: int, j: int| 0 <= i < j < c.len() implies T::less((#[trigger] c[i]), #[trigger] c[j],) by {
            if i == 0 {
                assert(c[j] == b[j - 1]);
                assert(T::less(b[0], b[j - 1]) || b[j - 1] == b[0]) by {
                    if j - 1 > 0 {
                        assert(T::less(b[0], b[j - 1]));
                    }
                }
                assert(!T::less(b[0], T::lowest()));
                assert(T::less(T::lowest(), b[0]));
            } else {
                assert(c[i] == b[i - 1] && c[j] == b[j - 1]);
            }
        }
        assert forall|i: int| 0 <= i < c.len() implies T::valid((#[trigger] c[i])) by {
            if i > 0 {
                assert(c[i] == b[i - 1]);
            }
        }
        assert forall|v: T::V| T::valid(v) implies rank::<T>(c, v) == rank::<T>(b, v) + 1 by {
            lemma_rank_prepend::<T>(T::lowest(), b, v);
        }
    }
}

/// Above a value means at or above its successor.
pub proof fn lemma_after<T: RangeExtreme>(a: T::V, v: T::V)
    requires
        T::valid(a),
        T::valid(v),
        a != T::highest(),
    ensures
        T::valid(T::successor(a)),
        T::less(a, v) == !T::less(v, T::successor(a)),
{
    lemma_total_order::<T>();
    T::lemma_successor(a, v);
    if !T::less(a, v) {
        if T::less(v, a) {
            assert(T::less(v, T::successor(a)));
        }
    }
}

/// One boundary: everything from it up.
pub proof fn lemma_one<T: RangeExtreme>(x: T::V, v: T::V)
    requires
        T::valid(x),
        T::valid(v),
    ensures
        sorted::<T>(seq![x]),
        is_member::<T>(seq![x], v) == !T::less(v, x),
{
    assert(seq![x].drop_last() =~= Seq::<T::V>::empty());
    assert(rank::<T>(Seq::<T::V>::empty(), v) == 0);
}

/// Two boundaries: the half-open interval between them.
pub proof fn lemma_two<T: RangeExtreme>(x: T::V, y: T::V, v: T::V)
    requires
        T::valid(x),
        T::valid(y),
        T::valid(v),
        T::less(x, y),
    ensures
        sorted::<T>(seq![x, y]),
        is_member::<T>(seq![x, y], v) == (!T::less(v, x) && T::less(v, y)),
{
    lemma_total_order::<T>();
    assert(seq![x, y].drop_last() =~= seq![x]);
    lemma_one::<T>(x, v);
    if T::less(v, x) {
        assert(T::less(v, y));
    }
}

/// The symmetric difference, by a sweep.
fn sym_diff_with<T: RangeExtreme>(a: &Range<T>, b: &Range<T>) -> (r: Range<T>)
    requires
        a.wf(),
        b.wf(),
    ensures
        r.wf(),
        r@ == spec_xor::<T>(a@, b@),
        forall|v: T::V| T::valid(v) ==> r.has(v) == (a.has(v) != b.has(v)),
{
    let boundaries = merge(&a.boundaries, &b.boundaries, false);
    let r = Range { boundaries };
    proof {
        assert(set_of::<T>(r@) =~= sym_diff(set_of::<T>(a@), set_of::<T>(b@)));
        lemma_boundaries_of_eq::<T>(r@, sym_diff(set_of::<T>(a@), set_of::<T>(b@)));
    }
    r
}

/// Sweeps both boundary sequences in order, keeping a boundary wherever the
/// merged membership changes.
fn merge<T: RangeExtreme>(a: &Vec<T>, b: &Vec<T>, union: bool) -> (r: Vec<T>)
    requires
        sorted::<T>(views(a@)),
        sorted::<T>(views(b@)),
    ensures
        sorted::<T>(views(r@)),
        forall|v: T::V|
            T::valid(v) ==> is_member::<T>(views(r@), v) == merged(union, is_member::<T>(views(a@), v), is_member::<T>(views(b@), v)),
{
    proof {
        lemma_total_order::<T>();
    }
    let mut out: Vec<T> = Vec::new();
    let mut i: usize = 0;
    let mut j: usize = 0;
    proof {
        assert forall|v: T::V|
            T::valid(v) && (i < a.len() ==> T::less(v, views(a@)[i as int])) && (j < b.len() ==> T::less(v, views(b@)[j as int],)) implies is_member::<T>(views(out@), v) == merged(union, is_member::<T>(views(a@), v), is_member::<T>(views(b@), v)) by {
            lemma_rank_at::<T>(views(a@), v, 0);
            lemma_rank_at::<T>(views(b@), v, 0);
        }
    }
    while i < a.len() || j < b.len()
        invariant
            0 <= i <= a.len(),
            0 <= j <= b.len(),
            sorted::<T>(views(a@)),
            sorted::<T>(views(b@)),
            sorted::<T>(views(out@)),
            forall|k: int|
                0 <= k < views(out@).len() ==> (i < a.len() ==> T::less((#[trigger] views(out@)[k]), views(a@)[i as int])) && (
                j < b.len() ==> T::less(views(out@)[k], views(b@)[j as int])),
            i > 0 && j < b.len() ==> T::less(views(a@)[i - 1], views(b@)[j as int]),
            j > 0 && i < a.len() ==> T::less(views(b@)[j - 1], views(a@)[i as int]),
            (views(out@).len() % 2 == 1) == merged(union, i % 2 == 1, j % 2 == 1),
            forall|v: T::V|
                T::valid(v) && (i < a.len() ==> T::less(v, views(a@)[i as int])) && (j < b.len() ==> T::less(v, views(b@)[j as int],)) ==> is_member::<T>(views(out@), v) == merged(
                    union,
                    is_member::<T>(views(a@), v),
                    is_member::<T>(views(b@), v),
                ),
        decreases a.len() - i + b.len() - j,
    {
        let ghost old_out = views(out@);
        let ghost oi = i as int;
        let ghost oj = j as int;
        let (take_a, take_b) = if i < a.len() && j < b.len() {
            match a[i].compare(&b[j]) {
                Ordering::Less => (true, false),
                Ordering::Equal => (true, true),
                Ordering::Greater => (false, true),
            }
        } else if i < a.len() {
            (true, false)
        } else {
            (false, true)
        };
        let x = if take_a {
            a[i].duplicate()
        } else {
            b[j].duplicate()
        };
        if take_a {
            i = i + 1;
        }
        if take_b {
            j = j + 1;
        }
        let inside = if union {
            i % 2 == 1 || j % 2 == 1
        } else {
            (i % 2 == 1) != (j % 2 == 1)
        };
        let pushed = (out.len() % 2 == 1) != inside;
        let ghost xv = x@;
        if pushed {
            out.push(x);
        }
        proof {
            lemma_total_order::<T>();
            // x is the smallest boundary not yet swept
            assert(oi < a.len() ==> (xv == views(a@)[oi] || T::less(xv, views(a@)[oi])));
            assert(oj < b.len() ==> (xv == views(b@)[oj] || T::less(xv, views(b@)[oj])));
            assert(T::valid(xv));
            assert(i < a.len() ==> T::less(xv, views(a@)[i as int])) by {
                if i < a.len() {
                    if take_a {
                        assert(T::less(views(a@)[oi], views(a@)[oi + 1]));
                    } else {
                        assert(T::less(views(b@)[oj], views(a@)[oi]));
                    }
                }
            }
            assert(j < b.len() ==> T::less(xv, views(b@)[j as int])) by {
                if j < b.len() {
                    if take_b {
                        assert(T::less(views(b@)[oj], views(b@)[oj + 1]));
                    } else {
                        assert(T::less(views(a@)[oi], views(b@)[oj]));
                    }
                }
            }
            assert(i > 0 && j < b.len() ==> T::less(views(a@)[i - 1], views(b@)[j as int])) by {
                if i > 0 && j < b.len() {
                    if take_a {
                        assert(views(a@)[i - 1] == xv);
                    } else {
                        assert(T::less(views(a@)[oi - 1], views(b@)[oj]));
                        assert(T::less(views(b@)[oj], views(b@)[j as int]));
                    }
                }
            }
            assert(j > 0 && i < a.len() ==> T::less(views(b@)[j - 1], views(a@)[i as int])) by {
                if j > 0 && i < a.len() {
                    if take_b {
                        assert(views(b@)[j - 1] == xv);
                    } else {
                        assert(T::less(views(b@)[oj - 1], views(a@)[oi]));
                        assert(T::less(views(a@)[oi], views(a@)[i as int]));
                    }
                }
            }
            if pushed {
                assert(views(out@) =~= old_out.push(xv));
                assert forall|p: int, q: int| 0 <= p < q < views(out@).len() implies T::less((#[trigger] views(out@)[p]), #[trigger] views(out@)[q],) by {
                    if q == views(out@).len() - 1 {
                        assert(oi < a.len() ==> T::less(old_out[p], views(a@)[oi]));
                        assert(oj < b.len() ==> T::less(old_out[p], views(b@)[oj]));
                    }
                }
                assert forall|k: int| 0 <= k < views(out@).len() implies T::valid((#[trigger] views(out@)[k])) by {
                }
            }
            assert forall|k: int| 0 <= k < views(out@).len() implies (i < a.len() ==> T::less((#[trigger] views(out@)[k]), views(a@)[i as int],)) && (j < b.len() ==> T::less(views(out@)[k], views(b@)[j as int])) by {
                if k < old_out.len() {
                    assert(views(out@)[k] == old_out[k]);
                    assert(oi < a.len() ==> T::less(old_out[k], views(a@)[oi]));
                    assert(oj < b.len() ==> T::less(old_out[k], views(b@)[oj]));
                    assert(T::less(old_out[k], xv));
                }
            }
            assert forall|v: T::V|
                T::valid(v) && (i < a.len() ==> T::less(v, views(a@)[i as int])) && (j < b.len() ==> T::less(v, views(b@)[j as int],)) implies is_member::<T>(views(out@), v) == merged(
                union,
                is_member::<T>(views(a@), v),
                is_member::<T>(views(b@), v),
            ) by {
                if pushed {
                    lemma_rank_push::<T>(old_out, xv, v);
                }
                if T::less(v, xv) {
                    assert(oi < a.len() ==> T::less(v, views(a@)[oi]));
                    assert(oj < b.len() ==> T::less(v, views(b@)[oj]));
                } else {
                    // v lies between xv and the next unswept boundaries
                    if i > 0 {
                        assert(!T::less(v, views(a@)[i - 1])) by {
                            if !take_a {
                                assert(T::less(views(a@)[oi - 1], views(b@)[oj]));
                            }
                        }
                    }
                    if j > 0 {
                        assert(!T::less(v, views(b@)[j - 1])) by {
                            if !take_b {
                                assert(T::less(views(b@)[oj - 1], views(a@)[oi]));
                            }
                        }
                    }
                    lemma_rank_at::<T>(views(a@), v, i as int);
                    lemma_rank_at::<T>(views(b@), v, j as int);
                    if views(out@).len() > 0 {
                        assert(!T::less(v, views(out@)[views(out@).len() - 1])) by {
                            if !pushed {
                                let last = old_out.len() - 1;
                                assert(oi < a.len() ==> T::less(old_out[last], views(a@)[oi]));
                                assert(oj < b.len() ==> T::less(old_out[last], views(b@)[oj]));
                                assert(T::less(old_out[last], xv));
                                assert(views(out@)[views(out@).len() - 1] == old_out[last]);
                            }
                        }
                    }
                    lemma_rank_at::<T>(views(out@), v, views(out@).len() as int);
                }
            }
        }
    }
    out
}

impl<T: RangeExtreme> Range<T> {
    /// Boundaries strictly increasing and valid.
    pub open spec fn wf(&self) -> bool {
        sorted::<T>(self@)
    }

    /// Whether the set holds `v`.
    pub open spec fn has(&self, v: T::V) -> bool {
        is_member::<T>(self@, v)
    }

    /// The boundaries, in increasing order.
    pub fn boundaries(&self) -> (r: &Vec<T>)
        ensures
            views(r@) == self@,
    {
        &self.boundaries
    }

    /// The empty set.
    pub fn empty() -> (r: Self)
        ensures
            r.wf(),
            r@ == Seq::<T::V>::empty(),
    {
        Range { boundaries: Vec::new() }
    }

    /// Every value of the domain.
    pub fn full() -> (r: Self)
        ensures
            r.wf(),
            r@ == seq![T::lowest()],
            forall|v: T::V| T::valid(v) ==> r.has(v),
    {
        proof {
            lemma_total_order::<T>();
        }
        let mut boundaries = Vec::new();
        boundaries.push(T::min_extreme());
        let r = Range { boundaries };
        proof {
            assert forall|v: T::V| T::valid(v) implies r.has(v) by {
                lemma_rank_at::<T>(r@, v, 1);
            }
        }
        r
    }

    /// The values from `start` (included) to `end` (excluded); empty when
    /// `start >= end`.
    pub fn between(start: T, end: T) -> (r: Self)
        requires
            T::valid(start@),
            T::valid(end@),
        ensures
            r.wf(),
            r@ == (if T::less(start@, end@) { seq![start@, end@] } else { Seq::<T::V>::empty() }),
            forall|v: T::V| T::valid(v) ==> r.has(v) == (!T::less(v, start@) && T::less(v, end@)),
    {
        proof {
            lemma_total_order::<T>();
        }
        match start.compare(&end) {
            Ordering::Less => {
                let ghost gs = start@;
                let ghost ge = end@;
                let mut boundaries = Vec::new();
                boundaries.push(start);
                boundaries.push(end);
                let r = Range { boundaries };
                proof {
                    assert(r@ =~= seq![gs, ge]);
                    assert forall|v: T::V| T::valid(v) implies r.has(v) == (!T::less(v, gs) && T::less(v, ge)) by {
                        lemma_two::<T>(gs, ge, v);
                    }
                }
                r
            },
            _ => Self::empty(),
        }
    }

    /// The values strictly between `start` and `end`.
    pub fn between_exclude_start(start: T, end: T) -> (r: Self)
        requires
            T::valid(start@),
            T::valid(end@),
        ensures
            r.wf(),
            forall|v: T::V| T::valid(v) ==> r.has(v) == (T::less(start@, v) && T::less(v, end@)),
    {
        proof {
            lemma_total_order::<T>();
        }
        let ghost gs = start@;
        if matches!(start.compare(&T::max_extreme()), Ordering::Equal) {
            Self::empty()
        } else {
            proof {
                T::lemma_successor(gs, gs);
            }
            let r = Self::between(start.next(), end);
            proof {
                assert forall|v: T::V| T::valid(v) implies r.has(v) == (T::less(gs, v) && T::less(v, end@)) by {
                    lemma_after::<T>(gs, v);
                }
            }
            r
        }
    }

    /// The values from `start` to `end`, both included.
    pub fn between_include_end(start: T, end: T) -> (r: Self)
        requires
            T::valid(start@),
            T::valid(end@),
        ensures
            r.wf(),
            forall|v: T::V| T::valid(v) ==> r.has(v) == (!T::less(v, start@) && !T::less(end@, v)),
    {
        proof {
            lemma_total_order::<T>();
        }
        let ghost ge = end@;
        if matches!(end.compare(&T::max_extreme()), Ordering::Equal) {
            Self::from(start)
        } else {
            proof {
                T::lemma_successor(ge, ge);
            }
            let r = Self::between(start, end.next());
            proof {
                assert forall|v: T::V| T::valid(v) implies r.has(v) == (!T::less(v, start@) && !T::less(ge, v)) by {
                    lemma_after::<T>(ge, v);
                }
            }
            r
        }
    }

    /// The values above `start` up to `end` included.
    pub fn between_exclude_start_include_end(start: T, end: T) -> (r: Self)
        requires
            T::valid(start@),
            T::valid(end@),
        ensures
            r.wf(),
            forall|v: T::V| T::valid(v) ==> r.has(v) == (T::less(start@, v) && !T::less(end@, v)),
    {
        proof {
            lemma_total_order::<T>();
        }
        let ghost gs = start@;
        if matches!(start.compare(&T::max_extreme()), Ordering::Equal) {
            Self::empty()
        } else {
            proof {
                T::lemma_successor(gs, gs);
            }
            let r = Self::between_include_end(start.next(), end);
            proof {
                assert forall|v: T::V| T::valid(v) implies r.has(v) == (T::less(gs, v) && !T::less(end@, v)) by {
                    lemma_after::<T>(gs, v);
                }
            }
            r
        }
    }

    /// The values from `start` up, the greatest included.
    pub fn from(start: T) -> (r: Self)
        requires
            T::valid(start@),
        ensures
            r.wf(),
            r@ == seq![start@],
            forall|v: T::V| T::valid(v) ==> r.has(v) == !T::less(v, start@),
    {
        let ghost gs = start@;
        let mut boundaries = Vec::new();
        boundaries.push(start);
        let r = Range { boundaries };
        proof {
            assert(r@ =~= seq![gs]);
            assert forall|v: T::V| T::valid(v) implies r.has(v) == !T::less(v, gs) by {
                lemma_one::<T>(gs, v);
            }
        }
        r
    }

    /// The values above `start`.
    pub fn from_exclusive(start: T) -> (r: Self)
        requires
            T::valid(start@),
        ensures
            r.wf(),
            forall|v: T::V| T::valid(v) ==> r.has(v) == T::less(start@, v),
    {
        proof {
            lemma_total_order::<T>();
        }
        let ghost gs = start@;
        if matches!(start.compare(&T::max_extreme()), Ordering::Equal) {
            Self::empty()
        } else {
            proof {
                T::lemma_successor(gs, gs);
            }
            let r = Self::from(start.next());
            proof {
                assert forall|v: T::V| T::valid(v) implies r.has(v) == T::less(gs, v) by {
                    lemma_after::<T>(gs, v);
                }
            }
            r
        }
    }

    /// The values below `end`.
    pub fn to(end: T) -> (r: Self)
        requires
            T::valid(end@),
        ensures
            r.wf(),
            forall|v: T::V| T::valid(v) ==> r.has(v) == T::less(v, end@),
    {
        proof {
            lemma_total_order::<T>();
        }
        Self::between(T::min_extreme(), end)
    }

    /// The values up to `end` included.
    pub fn to_inclusive(end: T) -> (r: Self)
        requires
            T::valid(end@),
        ensures
            r.wf(),
            forall|v: T::V| T::valid(v) ==> r.has(v) == !T::less(end@, v),
    {
        proof {
            lemma_total_order::<T>();
        }
        let ghost ge = end@;
        if matches!(end.compare(&T::max_extreme()), Ordering::Equal) {
            Self::full()
        } else {
            proof {
                T::lemma_successor(ge, ge);
            }
            let r = Self::to(end.next());
            proof {
                assert forall|v: T::V| T::valid(v) implies r.has(v) == !T::less(ge, v) by {
                    lemma_after::<T>(ge, v);
                }
            }
            r
        }
    }

    /// Exactly one value.
    pub fn single(value: T) -> (r: Self)
        requires
            T::valid(value@),
        ensures
            r.wf(),
            forall|v: T::V| T::valid(v) ==> r.has(v) == (v == value@),
    {
        proof {
            lemma_total_order::<T>();
        }
        Self::between_include_end(value.duplicate(), value)
    }

    /// Every value but one.
    pub fn except(value: T) -> (r: Self)
        requires
            T::valid(value@),
        ensures
            r.wf(),
            forall|v: T::V| T::valid(v) ==> r.has(v) == (v != value@),
    {
        Self::single(value).not()
    }

    /// Whether the set holds no value.
    pub fn is_empty(&self) -> (r: bool)
        requires
            self.wf(),
        ensures
            r == (self@.len() == 0),
            r == (forall|v: T::V| T::valid(v) ==> !self.has(v)),
    {
        proof {
            if self@.len() > 0 {
                lemma_total_order::<T>();
                if self@.len() > 1 {
                    assert(T::less(self@[0], self@[1]));
                }
                lemma_rank_at::<T>(self@, self@[0], 1);
            }
        }
        self.boundaries.len() == 0
    }

    /// Whether the set holds every value.
    pub fn is_full(&self) -> (r: bool)
        requires
            self.wf(),
        ensures
            r == (self@ == seq![T::lowest()]),
            r == (forall|v: T::V| T::valid(v) ==> self.has(v)),
    {
        proof {
            lemma_total_order::<T>();
        }
        let r = self.boundaries.len() == 1 && matches!(self.boundaries[0].compare(&T::min_extreme()), Ordering::Equal);
        proof {
            let b = self@;
            if r {
                assert(b =~= seq![T::lowest()]);
                assert forall|v: T::V| T::valid(v) implies self.has(v) by {
                    lemma_one::<T>(T::lowest(), v);
                }
            } else {
                assert(b != seq![T::lowest()]) by {
                    if b == seq![T::lowest()] {
                        assert(b.len() == 1 && b[0] == T::lowest());
                    }
                }
                // some value is missing
                if b.len() == 0 {
                    assert(!self.has(T::lowest()));
                } else if b[0] != T::lowest() {
                    assert(!T::less(b[0], T::lowest()));
                    assert(T::less(T::lowest(), b[0]));
                    lemma_rank_at::<T>(b, T::lowest(), 0);
                    assert(!self.has(T::lowest()));
                } else {
                    assert(b.len() > 1);
                    if b.len() > 2 {
                        assert(T::less(b[1], b[2]));
                    }
                    assert(T::less(b[0], b[1]));
                    lemma_rank_at::<T>(b, b[1], 2);
                    assert(!self.has(b[1]));
                }
            }
        }
        r
    }

    /// Whether the set holds exactly one value.
    pub fn is_single(&self) -> (r: bool)
        requires
            self.wf(),
        ensures
            r == (exists|x: T::V|
                T::valid(x) && forall|v: T::V| T::valid(v) ==> (#[trigger] self.has(v) == (v == x))),
    {
        proof {
            lemma_total_order::<T>();
        }
        let n = self.boundaries.len();
        let ghost b = self@;
        if n == 1 {
            let r = matches!(self.boundaries[0].compare(&T::max_extreme()), Ordering::Equal);
            proof {
                assert(b =~= seq![b[0]]);
                if r {
                    assert forall|v: T::V| T::valid(v) implies (#[trigger] self.has(v) == (v == b[0])) by {
                        lemma_one::<T>(b[0], v);
                        if v != b[0] {
                            assert(!T::less(b[0], v));
                            assert(T::less(v, b[0]));
                        }
                    }
                } else {
                    lemma_one::<T>(b[0], b[0]);
                    lemma_one::<T>(b[0], T::highest());
                    assert(T::less(b[0], T::highest()));
                    if exists|x: T::V|
                        T::valid(x) && forall|v: T::V| T::valid(v) ==> (#[trigger] self.has(v) == (v == x)) {
                        let x = choose|x: T::V|
                            T::valid(x) && forall|v: T::V| T::valid(v) ==> (#[trigger] self.has(v) == (v == x));
                        assert(self.has(b[0]) && self.has(T::highest()));
                    }
                }
            }
            r
        } else if n == 2 {
            let r = self.boundaries[0].compare_next_to(&self.boundaries[1]);
            proof {
                assert(b =~= seq![b[0], b[1]]);
                assert(T::less(b[0], b[1]));
                assert(b[0] != T::highest());
                T::lemma_successor(b[0], b[1]);
                let s = T::successor(b[0]);
                if r {
                    assert forall|v: T::V| T::valid(v) implies (#[trigger] self.has(v) == (v == b[0])) by {
                        lemma_two::<T>(b[0], b[1], v);
                        lemma_after::<T>(b[0], v);
                        if v != b[0] && !T::less(v, b[0]) {
                            assert(T::less(b[0], v));
                        }
                    }
                } else {
                    assert(T::less(s, b[1]));
                    lemma_two::<T>(b[0], b[1], b[0]);
                    lemma_two::<T>(b[0], b[1], s);
                    assert(!T::less(s, b[0]));
                    if exists|x: T::V|
                        T::valid(x) && forall|v: T::V| T::valid(v) ==> (#[trigger] self.has(v) == (v == x)) {
                        let x = choose|x: T::V|
                            T::valid(x) && forall|v: T::V| T::valid(v) ==> (#[trigger] self.has(v) == (v == x));
                        assert(self.has(b[0]) && self.has(s));
                    }
                }
            }
            r
        } else {
            proof {
                if n == 0 {
                    if exists|x: T::V|
                        T::valid(x) && forall|v: T::V| T::valid(v) ==> (#[trigger] self.has(v) == (v == x)) {
                        let x = choose|x: T::V|
                            T::valid(x) && forall|v: T::V| T::valid(v) ==> (#[trigger] self.has(v) == (v == x));
                        assert(self.has(x));
                    }
                } else {
                    assert(T::less(b[0], b[1]) && T::less(b[1], b[2]) && T::less(b[0], b[2]));
                    if n > 3 {
                        assert(T::less(b[0], b[3]) && T::less(b[2], b[3]));
                    }
                    lemma_rank_at::<T>(b, b[0], 1);
                    lemma_rank_at::<T>(b, b[2], 3);
                    if exists|x: T::V|
                        T::valid(x) && forall|v: T::V| T::valid(v) ==> (#[trigger] self.has(v) == (v == x)) {
                        let x = choose|x: T::V|
                            T::valid(x) && forall|v: T::V| T::valid(v) ==> (#[trigger] self.has(v) == (v == x));
                        assert(self.has(b[0]) && self.has(b[2]));
                    }
                }
            }
            false
        }
    }

    /// Whether the set holds `value`, by a binary search over the boundaries.
    pub fn contains(&self, value: &T) -> (r: bool)
        requires
            self.wf(),
            T::valid(value@),
        ensures
            r == self.has(value@),
    {
        proof {
            lemma_total_order::<T>();
        }
        let mut lo: usize = 0;
        let mut hi: usize = self.boundaries.len();
        while lo < hi
            invariant
                0 <= lo <= hi <= self@.len(),
                self@ == views(self.boundaries@),
                sorted::<T>(self@),
                T::valid(value@),
                forall|k: int| 0 <= k < lo ==> !T::less(value@, #[trigger] self@[k]),
                forall|k: int| hi <= k < self@.len() ==> T::less(value@, #[trigger] self@[k]),
            decreases hi - lo,
        {
            let mid = lo + (hi - lo) / 2;
            proof {
                lemma_total_order::<T>();
            }
            match self.boundaries[mid].compare(value) {
                Ordering::Greater => {
                    proof {
                        assert forall|k: int| mid <= k < self@.len() implies T::less(value@, #[trigger] self@[k],) by {
                            if k > mid {
                                assert(T::less(self@[mid as int], self@[k]));
                            }
                        }
                    }
                    hi = mid;
                },
                _ => {
                    proof {
                        assert forall|k: int| 0 <= k < mid + 1 implies !T::less(value@, #[trigger] self@[k],) by {
                            if k < mid {
                                assert(T::less(self@[k], self@[mid as int]));
                            }
                        }
                    }
                    lo = mid + 1;
                },
            }
        }
        proof {
            lemma_rank_at::<T>(self@, value@, lo as int);
        }
        lo % 2 == 1
    }

    /// The complement: every value not in the set.
    pub fn not(&self) -> (r: Self)
        requires
            self.wf(),
        ensures
            r.wf(),
            r@ == spec_not::<T>(self@),
            forall|v: T::V| T::valid(v) ==> r.has(v) == !self.has(v),
    {
        proof {
            lemma_total_order::<T>();
            lemma_not_set::<T>(self@);
        }
        let n = self.boundaries.len();
        let mut boundaries: Vec<T> = Vec::new();
        let starts_at_min = n > 0 && matches!(self.boundaries[0].compare(&T::min_extreme()), Ordering::Equal);
        let mut i: usize = 0;
        if starts_at_min {
            i = 1;
        } else {
            boundaries.push(T::min_extreme());
        }
        let ghost skip: int = i as int;
        let ghost head: Seq<T::V> = views(boundaries@);
        while i < n
            invariant
                n == self@.len(),
                skip <= i <= n,
                skip == 0 || skip == 1,
                head.len() == 1 - skip,
                views(boundaries@) == head + self@.subrange(skip, i as int),
            decreases n - i,
        {
            let ghost before = views(boundaries@);
            boundaries.push(self.boundaries[i].duplicate());
            proof {
                assert(views(boundaries@) =~= before.push(self@[i as int]));
            }
            i = i + 1;
            proof {
                assert(views(boundaries@) =~= head + self@.subrange(skip, i as int));
            }
        }
        let r = Range { boundaries };
        proof {
            if starts_at_min {
                assert(r@ =~= self@.drop_first());
            } else {
                assert(head =~= seq![T::lowest()]);
                assert(r@ =~= seq![T::lowest()] + self@);
            }
            assert forall|v: T::V| T::valid(v) implies r.has(v) == !self.has(v) by {
                assert(set_of::<T>(r@).contains(v) == (universe::<T>() - set_of::<T>(self@)).contains(v));
            }
        }
        r
    }

    /// The union.
    pub fn or(&self, other: &Self) -> (r: Self)
        requires
            self.wf(),
            other.wf(),
        ensures
            r.wf(),
            r@ == spec_or::<T>(self@, other@),
            forall|v: T::V| T::valid(v) ==> r.has(v) == (self.has(v) || other.has(v)),
    {
        let boundaries = merge(&self.boundaries, &other.boundaries, true);
        let r = Range { boundaries };
        proof {
            assert(set_of::<T>(r@) =~= set_of::<T>(self@) + set_of::<T>(other@));
            lemma_boundaries_of_eq::<T>(r@, set_of::<T>(self@) + set_of::<T>(other@));
        }
        r
    }

    /// The intersection, as `a xor b xor (a or b)`.
    pub fn and(&self, other: &Self) -> (r: Self)
        requires
            self.wf(),
            other.wf(),
        ensures
            r.wf(),
            r@ == spec_and::<T>(self@, other@),
            forall|v: T::V| T::valid(v) ==> r.has(v) == (self.has(v) && other.has(v)),
    {
        let union = self.or(other);
        let r = sym_diff_with(&sym_diff_with(self, other), &union);
        proof {
            assert(set_of::<T>(r@) =~= set_of::<T>(self@) * set_of::<T>(other@));
            lemma_boundaries_of_eq::<T>(r@, set_of::<T>(self@) * set_of::<T>(other@));
        }
        r
    }

    /// The values that lie in an odd number of the given sets.
    pub fn xor(ranges: &[Self]) -> (r: Self)
        requires
            forall|i: int| 0 <= i < ranges@.len() ==> (#[trigger] ranges@[i]).wf(),
        ensures
            r.wf(),
            r@ == spec_xor_all::<T>(ranges@.map_values(|x: Self| x@)),
    {
        let ghost views = ranges@.map_values(|x: Self| x@);
        let mut acc = Self::empty();
        let mut i: usize = 0;
        proof {
            assert(views.take(0) =~= Seq::<Seq<T::V>>::empty());
        }
        while i < ranges.len()
            invariant
                0 <= i <= ranges@.len(),
                views == ranges@.map_values(|x: Self| x@),
                forall|k: int| 0 <= k < ranges@.len() ==> (#[trigger] ranges@[k]).wf(),
                acc.wf(),
                acc@ == spec_xor_all::<T>(views.take(i as int)),
            decreases ranges@.len() - i,
        {
            acc = sym_diff_with(&acc, &ranges[i]);
            proof {
                assert(views.take(i + 1).drop_last() =~= views.take(i as int));
                assert(views.take(i + 1).last() == ranges@[i as int]@);
            }
            i = i + 1;
        }
        proof {
            assert(views.take(ranges@.len() as int) =~= views);
        }
        acc
    }

    /// The intersection.
    pub fn intersection(&self, other: &Self) -> (r: Self)
        requires
            self.wf(),
            other.wf(),
        ensures
            r.wf(),
            r@ == spec_and::<T>(self@, other@),
            forall|v: T::V| T::valid(v) ==> r.has(v) == (self.has(v) && other.has(v)),
    {
        self.and(other)
    }

    /// Whether the two sets share a value.
    pub fn intersect(&self, other: &Self) -> (r: bool)
        requires
            self.wf(),
            other.wf(),
        ensures
            r == (exists|v: T::V| T::valid(v) && self.has(v) && other.has(v)),
    {
        let both = self.and(other);
        let r = !both.is_empty();
        proof {
            if r {
                let v = choose|v: T::V| T::valid(v) && both.has(v);
                assert(self.has(v) && other.has(v));
            }
        }
        r
    }

    /// Whether every value of `other` is in `self`.
    pub fn contains_range(&self, other: &Self) -> (r: bool)
        requires
            self.wf(),
            other.wf(),
        ensures
            r == (forall|v: T::V| T::valid(v) && other.has(v) ==> self.has(v)),
    {
        let union = self.or(other);
        let r = union.same_as(self);
        proof {
            if r {
                assert forall|v: T::V| T::valid(v) && other.has(v) implies self.has(v) by {
                    assert(union.has(v));
                }
            } else if forall|v: T::V| T::valid(v) && other.has(v) ==> self.has(v) {
                assert(set_of::<T>(union@) =~= set_of::<T>(self@));
                crate::boundaries::lemma_canonical::<T>(union@, self@);
            }
        }
        r
    }

    /// Whether the two boundary sequences are the same.
    fn same_as(&self, other: &Self) -> (r: bool)
        requires
            self.wf(),
            other.wf(),
        ensures
            r == (self@ == other@),
    {
        let n = self.boundaries.len();
        proof {
            assert(self@.len() == n && other@.len() == other.boundaries@.len());
        }
        if n != other.boundaries.len() {
            return false;
        }
        let mut i: usize = 0;
        while i < n
            invariant
                n == self@.len() == other@.len(),
                self.wf(),
                other.wf(),
                0 <= i <= n,
                forall|k: int| 0 <= k < i ==> self@[k] == other@[k],
            decreases n - i,
        {
            if !matches!(self.boundaries[i].compare(&other.boundaries[i]), Ordering::Equal) {
                return false;
            }
            i = i + 1;
        }
        proof {
            assert(self@ =~= other@);
        }
        true
    }
}

} // verus!
