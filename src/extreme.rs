//! What a type must offer to serve as the boundary of a range.

use vstd::prelude::*;
use std::cmp::Ordering;

verus! {

/// An ordered type with a least and a greatest value, where every value but
/// the greatest has an immediate successor. The order is stated over the
/// view of the values.
pub trait RangeExtreme: Sized + View {
    /// The values of the domain; boundaries are always valid.
    spec fn valid(v: Self::V) -> bool;

    /// The strict order of the domain.
    spec fn less(a: Self::V, b: Self::V) -> bool;

    /// The least value of the domain.
    spec fn lowest() -> Self::V;

    /// The greatest value of the domain.
    spec fn highest() -> Self::V;

    /// The value right after `v`; meaningful when `v` is not the greatest.
    spec fn successor(v: Self::V) -> Self::V;

    /// `less` is a strict total order on valid values, bounded by `lowest` and `highest`.
    proof fn lemma_order(a: Self::V, b: Self::V, c: Self::V)
        requires
            Self::valid(a),
            Self::valid(b),
            Self::valid(c),
        ensures
            !Self::less(a, a),
            Self::less(a, b) && Self::less(b, c) ==> Self::less(a, c),
            Self::less(a, b) || a == b || Self::less(b, a),
            !Self::less(a, Self::lowest()),
            !Self::less(Self::highest(), a),
    ;

    /// Nothing lies strictly between a value and its successor.
    proof fn lemma_successor(a: Self::V, b: Self::V)
        requires
            Self::valid(a),
            Self::valid(b),
            a != Self::highest(),
        ensures
            Self::valid(Self::successor(a)),
            Self::less(a, Self::successor(a)),
            !(Self::less(a, b) && Self::less(b, Self::successor(a))),
    ;

    /// The extremes are values of the domain.
    proof fn lemma_extremes()
        ensures
            Self::valid(Self::lowest()),
            Self::valid(Self::highest()),
    ;

    /// The least value.
    fn min_extreme() -> (r: Self)
        ensures
            r@ == Self::lowest(),
    ;

    /// The greatest value.
    fn max_extreme() -> (r: Self)
        ensures
            r@ == Self::highest(),
    ;

    /// The immediate successor: no value `v` satisfies `a < v < a.next()`.
    fn next(self) -> (r: Self)
        requires
            Self::valid(self@),
            self@ != Self::highest(),
        ensures
            r@ == Self::successor(self@),
    ;

    /// Three-way comparison.
    fn compare(&self, other: &Self) -> (r: Ordering)
        requires
            Self::valid(self@),
            Self::valid(other@),
        ensures
            (r == Ordering::Less) == Self::less(self@, other@),
            (r == Ordering::Equal) == (self@ == other@),
            (r == Ordering::Greater) == Self::less(other@, self@),
    ;

    /// A copy of the value.
    fn duplicate(&self) -> (r: Self)
        ensures
            r@ == self@,
    ;

    /// Whether `other` is the successor of `self`.
    fn compare_next_to(&self, other: &Self) -> (r: bool)
        requires
            Self::valid(self@),
            Self::valid(other@),
        ensures
            r == (self@ != Self::highest() && Self::successor(self@) == other@),
    ;
}

/// A boundary type that can be written out, including the value right
/// before a value when there is one.
pub trait RangeExtremeDisplay: RangeExtreme {
    /// Whether `v` is the successor of some value.
    spec fn has_previous(v: Self::V) -> bool;

    /// The value whose successor `v` is.
    spec fn previous(v: Self::V) -> Self::V;

    /// The text of a value.
    spec fn text(v: Self::V) -> Seq<char>;

    /// A value with a previous one is the successor of that value.
    proof fn lemma_previous(v: Self::V)
        requires
            Self::valid(v),
            Self::has_previous(v),
        ensures
            Self::valid(Self::previous(v)),
            Self::previous(v) != Self::highest(),
            Self::successor(Self::previous(v)) == v,
    ;

    /// Whether some value has `self` as its successor.
    fn has_prev(&self) -> (r: bool)
        requires
            Self::valid(self@),
        ensures
            r == Self::has_previous(self@),
    ;

    /// The text of the value.
    fn display(&self) -> (r: String)
        ensures
            r@ == Self::text(self@),
    ;

    /// The text of the previous value, or `None` when there is none.
    fn display_prev(&self) -> (r: Option<String>)
        requires
            Self::valid(self@),
        ensures
            r is None <==> !Self::has_previous(self@),
            r matches Some(t) ==> t@ == Self::text(Self::previous(self@)),
    ;
}

/// A boundary type that can be read from text, inside a longer text.
pub trait RangeExtremeFromStr: RangeExtreme {
    /// Why a text does not hold a value.
    type Err;

    /// The value written at position `i` of `s`, and where it ends.
    spec fn value_at(s: Seq<char>, i: int) -> Option<(Self::V, int)>;

    /// The error reported where reading a value at position `i` of `s` fails.
    spec fn error_at(s: Seq<char>, i: int, e: Self::Err) -> bool;

    /// A value read is valid, and its text is not empty and lies inside `s`.
    proof fn lemma_value_at(s: Seq<char>, i: int)
        requires
            0 <= i <= s.len(),
        ensures
            Self::value_at(s, i) matches Some((v, j)) ==> Self::valid(v) && i < j <= s.len(),
    ;

    /// Reads the value written at position `i` of an ASCII text.
    fn parse_at(s: &str, i: usize) -> (r: Result<(Self, usize), Self::Err>)
        requires
            i <= s@.len(),
        ensures
            r is Ok <==> Self::value_at(s@, i as int) is Some,
            r matches Ok((v, j)) ==> Self::value_at(s@, i as int) == Some((v@, j as int)),
            r matches Err(e) ==> Self::error_at(s@, i as int, e),
    ;
}

/// A boundary type whose written values read back as themselves.
pub trait RangeExtremeText: RangeExtremeDisplay + RangeExtremeFromStr {
    /// The values that can be written and read back.
    spec fn writable(v: Self::V) -> bool;

    /// The writable values include the least one, are valid, and are closed
    /// under successor and previous; their text starts with neither
    /// whitespace nor `=`.
    proof fn lemma_writable(v: Self::V)
        ensures
            Self::writable(Self::lowest()),
            Self::writable(v) ==> Self::valid(v),
            Self::writable(v) && v != Self::highest() ==> Self::writable(Self::successor(v)),
            Self::valid(v) && Self::has_previous(v) ==> Self::writable(Self::previous(v)),
            Self::writable(v) ==> Self::text(v).len() > 0 && !crate::parse::is_space(Self::text(v)[0])
                && Self::text(v)[0] != '=',
    ;

    /// The text of a writable value, followed by whitespace or the end,
    /// reads back as that value.
    proof fn lemma_read_back(s: Seq<char>, i: int, v: Self::V)
        requires
            Self::writable(v),
            0 <= i,
            i + Self::text(v).len() <= s.len(),
            s.subrange(i, i + Self::text(v).len()) == Self::text(v),
            i + Self::text(v).len() == s.len() || crate::parse::is_space(s[i + Self::text(v).len()]),
        ensures
            Self::value_at(s, i) == Some((v, i + Self::text(v).len())),
    ;

    /// Every value read can be written.
    proof fn lemma_read_writable(s: Seq<char>, i: int)
        requires
            0 <= i <= s.len(),
        ensures
            Self::value_at(s, i) matches Some((v, j)) ==> Self::writable(v),
    ;
}

/// The order laws of a boundary type, for every valid value at once.
pub proof fn lemma_total_order<T: RangeExtreme>()
    ensures
        forall|a: T::V| T::valid(a) ==> !#[trigger] T::less(a, a),
        forall|a: T::V, b: T::V, c: T::V|
            T::valid(a) && T::valid(b) && T::valid(c) && #[trigger] T::less(a, b) && #[trigger] T::less(b, c)
                ==> T::less(a, c),
        forall|a: T::V, b: T::V|
            T::valid(a) && T::valid(b) ==> (#[trigger] T::less(a, b) || a == b || #[trigger] T::less(b, a)),
        forall|a: T::V| T::valid(a) ==> !#[trigger] T::less(a, T::lowest()),
        forall|a: T::V| T::valid(a) ==> !#[trigger] T::less(T::highest(), a),
        T::valid(T::lowest()),
        T::valid(T::highest()),
{
    T::lemma_extremes();
    assert forall|a: T::V| T::valid(a) implies !#[trigger] T::less(a, a) by {
        T::lemma_order(a, a, a);
    }
    assert forall|a: T::V, b: T::V, c: T::V|
        T::valid(a) && T::valid(b) && T::valid(c) && #[trigger] T::less(a, b) && #[trigger] T::less(b, c)
            implies T::less(a, c) by {
        T::lemma_order(a, b, c);
    }
    assert forall|a: T::V, b: T::V|
        T::valid(a) && T::valid(b) implies (#[trigger] T::less(a, b) || a == b || #[trigger] T::less(b, a)) by {
        T::lemma_order(a, b, b);
    }
    assert forall|a: T::V| T::valid(a) implies !#[trigger] T::less(a, T::lowest()) by {
        T::lemma_order(a, a, a);
    }
    assert forall|a: T::V| T::valid(a) implies !#[trigger] T::less(T::highest(), a) by {
        T::lemma_order(a, a, a);
    }
}

} // verus!
