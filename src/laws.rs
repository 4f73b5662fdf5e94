//! Algebraic laws of ranges, stated over the boundary sequences that the
//! operations of `Range` produce.

use vstd::prelude::*;
use crate::extreme::{RangeExtreme, lemma_total_order};
use crate::boundaries::{sorted, set_of, lemma_boundaries_of_eq};
use crate::closure::lemma_and_representable;
use crate::range::{Range, spec_not, spec_or, spec_and};

verus! {

/// Complementing twice gives back the same range.
pub proof fn lemma_not_not<T: RangeExtreme>(r: Range<T>)
    requires
        r.wf(),
    ensures
        spec_not::<T>(spec_not::<T>(r@)) == r@,
{
    lemma_total_order::<T>();
    let b = r@;
    if b.len() > 0 && b[0] == T::lowest() {
        let c = b.drop_first();
        if c.len() > 0 {
            assert(T::less(b[0], b[1]));
            assert(c[0] != T::lowest());
        }
        assert(seq![T::lowest()] + c =~= b);
    } else {
        let c = seq![T::lowest()] + b;
        assert(c.drop_first() =~= b);
    }
}

/// Union and intersection do not depend on the order of their operands.
pub proof fn lemma_commutative<T: RangeExtreme>(r: Range<T>, s: Range<T>)
    requires
        r.wf(),
        s.wf(),
    ensures
        spec_or::<T>(r@, s@) == spec_or::<T>(s@, r@),
        spec_and::<T>(r@, s@) == spec_and::<T>(s@, r@),
{
    assert(set_of::<T>(r@) + set_of::<T>(s@) =~= set_of::<T>(s@) + set_of::<T>(r@));
    assert(set_of::<T>(r@) * set_of::<T>(s@) =~= set_of::<T>(s@) * set_of::<T>(r@));
}

/// Intersecting again with the same range changes nothing.
pub proof fn lemma_and_idempotent<T: RangeExtreme>(r: Range<T>, s: Range<T>)
    requires
        r.wf(),
        s.wf(),
    ensures
        spec_and::<T>(spec_and::<T>(r@, s@), s@) == spec_and::<T>(r@, s@),
{
    let any = |v: T::V| true;
    lemma_and_representable::<T>(r@, s@, any);
    // a sequence that describes the intersection
    let w = choose|b: Seq<T::V>| sorted::<T>(b) && set_of::<T>(b) == set_of::<T>(r@) * set_of::<T>(s@)
        && crate::closure::all_satisfy(b, any);
    let c = spec_and::<T>(r@, s@);
    assert(sorted::<T>(c) && set_of::<T>(c) == set_of::<T>(r@) * set_of::<T>(s@));
    assert(set_of::<T>(c) * set_of::<T>(s@) =~= set_of::<T>(r@) * set_of::<T>(s@));
}

/// A range shares nothing with its complement, and together they cover everything.
pub proof fn lemma_complement_laws<T: RangeExtreme>(r: Range<T>)
    requires
        r.wf(),
    ensures
        spec_and::<T>(r@, spec_not::<T>(r@)).len() == 0,
        spec_or::<T>(r@, spec_not::<T>(r@)) == seq![T::lowest()],
{
    lemma_total_order::<T>();
    crate::range::lemma_not_set::<T>(r@);
    let e = Seq::<T::V>::empty();
    assert(set_of::<T>(e) =~= set_of::<T>(r@) * set_of::<T>(spec_not::<T>(r@)));
    lemma_boundaries_of_eq::<T>(e, set_of::<T>(r@) * set_of::<T>(spec_not::<T>(r@)));
    let f = seq![T::lowest()];
    assert(f.drop_last() =~= e);
    assert forall|v: T::V| T::valid(v) implies #[trigger] set_of::<T>(f).contains(v) by {
        assert(crate::boundaries::rank::<T>(e, v) == 0);
    }
    assert(crate::boundaries::sorted::<T>(f));
    assert(set_of::<T>(f) =~= set_of::<T>(r@) + set_of::<T>(spec_not::<T>(r@)));
    lemma_boundaries_of_eq::<T>(f, set_of::<T>(r@) + set_of::<T>(spec_not::<T>(r@)));
}

} // verus!
