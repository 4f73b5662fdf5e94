//! Reading range expressions:
//!
//! ```text
//! expr      := or_expr
//! or_expr   := and_expr ( "||" and_expr )*
//! and_expr  := neg_atom ( "&&" neg_atom )*
//! neg_atom  := "!"* atom
//! atom      := cmp_op value | "-" | "*" | "(" expr ")"
//! cmp_op    := "<=" | "<" | ">=" | ">" | "==" | "!="
//! ```
//!
//! Whitespace (any Unicode `White_Space` character) may stand around every
//! token. The meaning of an expression is
//! a set of values; the reader builds the range that holds exactly that set.

use vstd::prelude::*;
use vstd::string::*;
use crate::boundaries::{set_of, universe};
use crate::extreme::{RangeExtreme, RangeExtremeFromStr};
use crate::range::Range;
use crate::text::char_at;

verus! {

/// A whitespace character: one with the Unicode `White_Space` property.
pub open spec fn is_space(c: char) -> bool {
    ('\u{9}' <= c <= '\u{d}') || c == ' ' || c == '\u{85}' || c == '\u{a0}' || c == '\u{1680}' || (
    '\u{2000}' <= c <= '\u{200a}') || c == '\u{2028}' || c == '\u{2029}' || c == '\u{202f}' || c
        == '\u{205f}' || c == '\u{3000}'
}

/// The end of the whitespace that starts at `i`.
pub open spec fn ws_end(s: Seq<char>, i: int) -> int
    decreases s.len() - i,
{
    if 0 <= i < s.len() && is_space(s[i]) {
        ws_end(s, i + 1)
    } else {
        i
    }
}

/// Whether `c` stands at `i`.
pub open spec fn at(s: Seq<char>, i: int, c: char) -> bool {
    0 <= i < s.len() && s[i] == c
}

/// A comparison operator.
#[derive(Debug, Clone, Copy, PartialEq, Eq)]
pub enum Comparison {
    AtMost,
    Below,
    AtLeast,
    Above,
    Equal,
    NotEqual,
}

/// The operator at `p`, and where it ends; a two-character operator wins
/// over its first character.
pub open spec fn comparison_at(s: Seq<char>, p: int) -> Option<(Comparison, int)> {
    if at(s, p, '<') && at(s, p + 1, '=') {
        Some((Comparison::AtMost, p + 2))
    } else if at(s, p, '<') {
        Some((Comparison::Below, p + 1))
    } else if at(s, p, '>') && at(s, p + 1, '=') {
        Some((Comparison::AtLeast, p + 2))
    } else if at(s, p, '>') {
        Some((Comparison::Above, p + 1))
    } else if at(s, p, '=') && at(s, p + 1, '=') {
        Some((Comparison::Equal, p + 2))
    } else if at(s, p, '!') && at(s, p + 1, '=') {
        Some((Comparison::NotEqual, p + 2))
    } else {
        None
    }
}

/// The values that compare to `v` as `op` says.
pub open spec fn comparison_set<T: RangeExtreme>(op: Comparison, v: T::V) -> Set<T::V> {
    Set::new(
        |w: T::V|
            T::valid(w) && match op {
                Comparison::AtMost => !T::less(v, w),
                Comparison::Below => T::less(w, v),
                Comparison::AtLeast => !T::less(w, v),
                Comparison::Above => T::less(v, w),
                Comparison::Equal => w == v,
                Comparison::NotEqual => w != v,
            },
    )
}

/// An atom read at `i`, and where it ends.
pub open spec fn atom_at<T: RangeExtremeFromStr>(s: Seq<char>, i: int) -> Option<(Set<T::V>, int)>
    decreases s.len() - i, 0nat,
{
    let p = ws_end(s, i);
    match comparison_at(s, p) {
        Some((op, q)) => match T::value_at(s, ws_end(s, q)) {
            Some((v, j)) => Some((comparison_set::<T>(op, v), j)),
            None => None,
        },
        None => if at(s, p, '-') {
            Some((Set::empty(), p + 1))
        } else if at(s, p, '*') {
            Some((universe::<T>(), p + 1))
        } else if at(s, p, '(') && i <= p {
            match or_at::<T>(s, p + 1) {
                Some((m, j)) => if at(s, ws_end(s, j), ')') {
                    Some((m, ws_end(s, j) + 1))
                } else {
                    None
                },
                None => None,
            }
        } else {
            None
        },
    }
}

/// An atom after any number of `!` (not `!=`); each one complements.
pub open spec fn neg_at<T: RangeExtremeFromStr>(s: Seq<char>, i: int) -> Option<(Set<T::V>, int)>
    decreases s.len() - i, 1nat,
{
    let p = ws_end(s, i);
    if at(s, p, '!') && !at(s, p + 1, '=') && i <= p {
        match neg_at::<T>(s, p + 1) {
            Some((m, j)) => Some((universe::<T>() - m, j)),
            None => None,
        }
    } else {
        atom_at::<T>(s, i)
    }
}

/// Further `&& neg_atom` items after `i`, intersected into `acc`.
pub open spec fn and_tail<T: RangeExtremeFromStr>(s: Seq<char>, i: int, acc: Set<T::V>) -> Option<
    (Set<T::V>, int),
>
    decreases s.len() - i, 2nat,
{
    let p = ws_end(s, i);
    if at(s, p, '&') && at(s, p + 1, '&') && i <= p {
        match neg_at::<T>(s, p + 2) {
            Some((m, j)) => if i < j <= s.len() {
                and_tail::<T>(s, j, acc * m)
            } else {
                None
            },
            None => None,
        }
    } else {
        Some((acc, i))
    }
}

/// A conjunction read at `i`.
pub open spec fn and_at<T: RangeExtremeFromStr>(s: Seq<char>, i: int) -> Option<(Set<T::V>, int)>
    decreases s.len() - i, 3nat,
{
    match neg_at::<T>(s, i) {
        Some((m, j)) => if i <= j <= s.len() {
            and_tail::<T>(s, j, m)
        } else {
            None
        },
        None => None,
    }
}

/// Further `|| and_expr` items after `i`, joined into `acc`.
pub open spec fn or_tail<T: RangeExtremeFromStr>(s: Seq<char>, i: int, acc: Set<T::V>) -> Option<
    (Set<T::V>, int),
>
    decreases s.len() - i, 4nat,
{
    let p = ws_end(s, i);
    if at(s, p, '|') && at(s, p + 1, '|') && i <= p {
        match and_at::<T>(s, p + 2) {
            Some((m, j)) => if i < j <= s.len() {
                or_tail::<T>(s, j, acc + m)
            } else {
                None
            },
            None => None,
        }
    } else {
        Some((acc, i))
    }
}

/// A disjunction read at `i`.
pub open spec fn or_at<T: RangeExtremeFromStr>(s: Seq<char>, i: int) -> Option<(Set<T::V>, int)>
    decreases s.len() - i, 5nat,
{
    match and_at::<T>(s, i) {
        Some((m, j)) => if i <= j <= s.len() {
            or_tail::<T>(s, j, m)
        } else {
            None
        },
        None => None,
    }
}

/// The set that a whole text denotes, if it is an expression.
pub open spec fn ranges_of<T: RangeExtremeFromStr>(s: Seq<char>) -> Option<Set<T::V>> {
    match or_at::<T>(s, 0) {
        Some((m, j)) => if ws_end(s, j) == s.len() {
            Some(m)
        } else {
            None
        },
        None => None,
    }
}

/// Why a text is not a range expression, and where.
#[derive(Debug, Clone)]
pub enum RangeParseError<E> {
    /// The value after an operator could not be read; `source` is the
    /// value reader's own error.
    ParseExtreme { source: E, at: usize },
    /// No operator, `-`, `*` or `(` where an atom should start.
    UnrecognizedConstraintOperator { constraint: String, at: usize },
    /// A `)` or the end of the text was expected here.
    UnexpectedInput { at: usize },
}

/// Why reading fails, as a kind and a position: kind 0, the value after an
/// operator; kind 1, no operator, `-`, `*` or `(` where an atom starts;
/// kind 2, a `)` or the end was expected.
pub open spec fn atom_fault<T: RangeExtremeFromStr>(s: Seq<char>, i: int) -> (int, int)
    decreases s.len() - i, 0nat,
{
    let p = ws_end(s, i);
    match comparison_at(s, p) {
        Some((op, q)) => (0, ws_end(s, q)),
        None => if at(s, p, '(') && i <= p {
            match or_at::<T>(s, p + 1) {
                None => or_fault::<T>(s, p + 1),
                Some((m, j)) => (2, ws_end(s, j)),
            }
        } else {
            (1, p)
        },
    }
}

/// Why reading `!`s and an atom fails.
pub open spec fn neg_fault<T: RangeExtremeFromStr>(s: Seq<char>, i: int) -> (int, int)
    decreases s.len() - i, 1nat,
{
    let p = ws_end(s, i);
    if at(s, p, '!') && !at(s, p + 1, '=') && i <= p {
        neg_fault::<T>(s, p + 1)
    } else {
        atom_fault::<T>(s, i)
    }
}

/// Why reading further `&& neg_atom` items fails.
pub open spec fn and_tail_fault<T: RangeExtremeFromStr>(s: Seq<char>, i: int) -> (int, int)
    decreases s.len() - i, 2nat,
{
    let p = ws_end(s, i);
    if at(s, p, '&') && at(s, p + 1, '&') && i <= p {
        match neg_at::<T>(s, p + 2) {
            None => neg_fault::<T>(s, p + 2),
            Some((m, j)) => if i < j <= s.len() {
                and_tail_fault::<T>(s, j)
            } else {
                (2, j)
            },
        }
    } else {
        (2, i)
    }
}

/// Why reading a conjunction fails.
pub open spec fn and_fault<T: RangeExtremeFromStr>(s: Seq<char>, i: int) -> (int, int)
    decreases s.len() - i, 3nat,
{
    match neg_at::<T>(s, i) {
        None => neg_fault::<T>(s, i),
        Some((m, j)) => if i <= j <= s.len() {
            and_tail_fault::<T>(s, j)
        } else {
            (2, j)
        },
    }
}

/// Why reading further `|| and_expr` items fails.
pub open spec fn or_tail_fault<T: RangeExtremeFromStr>(s: Seq<char>, i: int) -> (int, int)
    decreases s.len() - i, 4nat,
{
    let p = ws_end(s, i);
    if at(s, p, '|') && at(s, p + 1, '|') && i <= p {
        match and_at::<T>(s, p + 2) {
            None => and_fault::<T>(s, p + 2),
            Some((m, j)) => if i < j <= s.len() {
                or_tail_fault::<T>(s, j)
            } else {
                (2, j)
            },
        }
    } else {
        (2, i)
    }
}

/// Why reading a disjunction fails.
pub open spec fn or_fault<T: RangeExtremeFromStr>(s: Seq<char>, i: int) -> (int, int)
    decreases s.len() - i, 5nat,
{
    match and_at::<T>(s, i) {
        None => and_fault::<T>(s, i),
        Some((m, j)) => if i <= j <= s.len() {
            or_tail_fault::<T>(s, j)
        } else {
            (2, j)
        },
    }
}

/// Why a whole text is not an expression.
pub open spec fn ranges_fault<T: RangeExtremeFromStr>(s: Seq<char>) -> (int, int) {
    match or_at::<T>(s, 0) {
        None => or_fault::<T>(s, 0),
        Some((m, j)) => (2, ws_end(s, j)),
    }
}

/// The kind and position of a problem.
pub open spec fn fault_of<E>(e: RangeParseError<E>) -> (int, int) {
    match e {
        RangeParseError::ParseExtreme { at, .. } => (0, at as int),
        RangeParseError::UnrecognizedConstraintOperator { at, .. } => (1, at as int),
        RangeParseError::UnexpectedInput { at } => (2, at as int),
    }
}

pub proof fn lemma_ws_end(s: Seq<char>, i: int)
    requires
        0 <= i <= s.len(),
    ensures
        i <= ws_end(s, i) <= s.len(),
    decreases s.len() - i,
{
    if i < s.len() {
        lemma_ws_end(s, i + 1);
    }
}

/// Skips whitespace.
fn skip_ws(s: &str, n: usize, i: usize) -> (r: usize)
    requires
        n == s@.len(),
        i <= n,
    ensures
        r == ws_end(s@, i as int),
        i <= r <= n,
{
    let mut j = i;
    while j < n && is_space_char(char_at(s, j))
        invariant
            n == s@.len(),
            i <= j <= n,
            ws_end(s@, i as int) == ws_end(s@, j as int),
        decreases n - j,
    {
        j = j + 1;
    }
    j
}

fn is_space_char(c: char) -> (r: bool)
    ensures
        r == is_space(c),
{
    ('\u{9}' <= c && c <= '\u{d}') || c == ' ' || c == '\u{85}' || c == '\u{a0}' || c == '\u{1680}'
        || ('\u{2000}' <= c && c <= '\u{200a}') || c == '\u{2028}' || c == '\u{2029}' || c == '\u{202f}'
        || c == '\u{205f}' || c == '\u{3000}'
}

/// Whether `c` stands at `i`.
fn char_is(s: &str, n: usize, i: usize, c: char) -> (r: bool)
    requires
        n == s@.len(),
    ensures
        r == at(s@, i as int, c),
{
    i < n && char_at(s, i) == c
}

/// Reads the operator at `p`.
fn read_comparison(s: &str, n: usize, p: usize) -> (r: Option<(Comparison, usize)>)
    requires
        n == s@.len(),
        p <= n,
    ensures
        r matches Some((op, q)) ==> comparison_at(s@, p as int) == Some((op, q as int)) && q <= n,
        r is None <==> comparison_at(s@, p as int) is None,
{
    if p >= n {
        return None;
    }
    let second_eq = char_is(s, n, p + 1, '=');
    let c = char_at(s, p);
    if c == '<' {
        if second_eq { Some((Comparison::AtMost, p + 2)) } else { Some((Comparison::Below, p + 1)) }
    } else if c == '>' {
        if second_eq { Some((Comparison::AtLeast, p + 2)) } else { Some((Comparison::Above, p + 1)) }
    } else if c == '=' && second_eq {
        Some((Comparison::Equal, p + 2))
    } else if c == '!' && second_eq {
        Some((Comparison::NotEqual, p + 2))
    } else {
        None
    }
}

/// The range of the values that compare to `v` as `op` says.
fn comparison_range<T: RangeExtreme>(op: Comparison, v: T) -> (r: Range<T>)
    requires
        T::valid(v@),
    ensures
        r.wf(),
        set_of::<T>(r@) == comparison_set::<T>(op, v@),
{
    let ghost gv = v@;
    let r = match op {
        Comparison::AtMost => Range::to_inclusive(v),
        Comparison::Below => Range::to(v),
        Comparison::AtLeast => Range::from(v),
        Comparison::Above => Range::from_exclusive(v),
        Comparison::Equal => Range::single(v),
        Comparison::NotEqual => Range::except(v),
    };
    proof {
        assert(set_of::<T>(r@) =~= comparison_set::<T>(op, gv));
    }
    r
}

/// Reads an atom at `i`.
fn read_atom<T: RangeExtremeFromStr>(s: &str, n: usize, i: usize) -> (r: Result<
    (Range<T>, usize),
    RangeParseError<T::Err>,
>)
    requires
        n == s@.len(),
        i <= n,
    ensures
        r is Ok <==> atom_at::<T>(s@, i as int) is Some,
        r matches Ok((g, j)) ==> g.wf() && atom_at::<T>(s@, i as int) == Some((set_of::<T>(g@), j as int))
            && i < j <= n,
        r matches Err(e) ==> fault_of(e) == atom_fault::<T>(s@, i as int),
        r matches Err(RangeParseError::ParseExtreme { source, at }) ==> T::error_at(s@, at as int, source),
    decreases n - i, 0nat,
{
    let p = skip_ws(s, n, i);
    match read_comparison(s, n, p) {
        Some((op, q)) => {
            let start = skip_ws(s, n, q);
            match T::parse_at(s, start) {
                Ok((v, j)) => {
                    proof {
                        T::lemma_value_at(s@, start as int);
                    }
                    Ok((comparison_range(op, v), j))
                },
                Err(source) => Err(RangeParseError::ParseExtreme { source, at: start }),
            }
        },
        None => {
            if char_is(s, n, p, '-') {
                Ok((Range::empty(), p + 1))
            } else if char_is(s, n, p, '*') {
                let full = Range::full();
                proof {
                    assert(set_of::<T>(full@) =~= universe::<T>());
                }
                Ok((full, p + 1))
            } else if char_is(s, n, p, '(') {
                let (g, j) = read_or(s, n, p + 1)?;
                let q = skip_ws(s, n, j);
                if char_is(s, n, q, ')') {
                    Ok((g, q + 1))
                } else {
                    Err(RangeParseError::UnexpectedInput { at: q })
                }
            } else {
                Err(
                    RangeParseError::UnrecognizedConstraintOperator {
                        constraint: s.substring_char(p, n).to_owned(),
                        at: p,
                    },
                )
            }
        },
    }
}

/// Reads `!`s and an atom at `i`.
fn read_neg<T: RangeExtremeFromStr>(s: &str, n: usize, i: usize) -> (r: Result<
    (Range<T>, usize),
    RangeParseError<T::Err>,
>)
    requires
        n == s@.len(),
        i <= n,
    ensures
        r is Ok <==> neg_at::<T>(s@, i as int) is Some,
        r matches Ok((g, j)) ==> g.wf() && neg_at::<T>(s@, i as int) == Some((set_of::<T>(g@), j as int))
            && i < j <= n,
        r matches Err(e) ==> fault_of(e) == neg_fault::<T>(s@, i as int),
        r matches Err(RangeParseError::ParseExtreme { source, at }) ==> T::error_at(s@, at as int, source),
    decreases n - i, 1nat,
{
    let p = skip_ws(s, n, i);
    if char_is(s, n, p, '!') && !char_is(s, n, p + 1, '=') {
        let (g, j) = read_neg(s, n, p + 1)?;
        let h = g.not();
        proof {
            crate::range::lemma_not_set::<T>(g@);
        }
        Ok((h, j))
    } else {
        read_atom(s, n, i)
    }
}

/// Reads a conjunction at `i`.
fn read_and<T: RangeExtremeFromStr>(s: &str, n: usize, i: usize) -> (r: Result<
    (Range<T>, usize),
    RangeParseError<T::Err>,
>)
    requires
        n == s@.len(),
        i <= n,
    ensures
        r is Ok <==> and_at::<T>(s@, i as int) is Some,
        r matches Ok((g, j)) ==> g.wf() && and_at::<T>(s@, i as int) == Some((set_of::<T>(g@), j as int))
            && i < j <= n,
        r matches Err(e) ==> fault_of(e) == and_fault::<T>(s@, i as int),
        r matches Err(RangeParseError::ParseExtreme { source, at }) ==> T::error_at(s@, at as int, source),
    decreases n - i, 3nat,
{
    let (first, j0) = read_neg(s, n, i)?;
    let mut acc = first;
    let mut k = j0;
    loop
        invariant
            n == s@.len(),
            i < k <= n,
            acc.wf(),
            and_at::<T>(s@, i as int) == and_tail::<T>(s@, k as int, set_of::<T>(acc@)),
            and_fault::<T>(s@, i as int) == and_tail_fault::<T>(s@, k as int),
        decreases n - k,
    {
        let p = skip_ws(s, n, k);
        if char_is(s, n, p, '&') && char_is(s, n, p + 1, '&') {
            let (g, j) = read_neg(s, n, p + 2)?;
            let next = acc.and(&g);
            proof {
                assert(set_of::<T>(next@) =~= set_of::<T>(acc@) * set_of::<T>(g@));
            }
            acc = next;
            k = j;
        } else {
            return Ok((acc, k));
        }
    }
}

/// Reads a disjunction at `i`.
fn read_or<T: RangeExtremeFromStr>(s: &str, n: usize, i: usize) -> (r: Result<
    (Range<T>, usize),
    RangeParseError<T::Err>,
>)
    requires
        n == s@.len(),
        i <= n,
    ensures
        r is Ok <==> or_at::<T>(s@, i as int) is Some,
        r matches Ok((g, j)) ==> g.wf() && or_at::<T>(s@, i as int) == Some((set_of::<T>(g@), j as int))
            && i < j <= n,
        r matches Err(e) ==> fault_of(e) == or_fault::<T>(s@, i as int),
        r matches Err(RangeParseError::ParseExtreme { source, at }) ==> T::error_at(s@, at as int, source),
    decreases n - i, 5nat,
{
    let (first, j0) = read_and(s, n, i)?;
    let mut acc = first;
    let mut k = j0;
    loop
        invariant
            n == s@.len(),
            i < k <= n,
            acc.wf(),
            or_at::<T>(s@, i as int) == or_tail::<T>(s@, k as int, set_of::<T>(acc@)),
            or_fault::<T>(s@, i as int) == or_tail_fault::<T>(s@, k as int),
        decreases n - k,
    {
        let p = skip_ws(s, n, k);
        if char_is(s, n, p, '|') && char_is(s, n, p + 1, '|') {
            let (g, j) = read_and(s, n, p + 2)?;
            let next = acc.or(&g);
            proof {
                assert(set_of::<T>(next@) =~= set_of::<T>(acc@) + set_of::<T>(g@));
            }
            acc = next;
            k = j;
        } else {
            return Ok((acc, k));
        }
    }
}

impl<T: RangeExtremeFromStr> Range<T> {
    /// Reads a range expression. On failure the list of problems is not empty.
    pub fn from_str(s: &str) -> (r: Result<Self, Vec<RangeParseError<T::Err>>>)
        ensures
            r is Ok <==> ranges_of::<T>(s@) is Some,
            r matches Ok(g) ==> g.wf() && ranges_of::<T>(s@) == Some(set_of::<T>(g@)),
            r matches Err(e) ==> e@.len() > 0,
            r matches Err(e) ==> fault_of(e@[0]) == ranges_fault::<T>(s@),
            r matches Err(e) ==> (e@[0] matches RangeParseError::ParseExtreme { source, at } ==> T::error_at(
                s@,
                at as int,
                source,
            )),
    {
        let mut errors = Vec::new();
        let n = s.unicode_len();
        match read_or(s, n, 0) {
            Ok((g, j)) => {
                let end = skip_ws(s, n, j);
                if end == n {
                    Ok(g)
                } else {
                    errors.push(RangeParseError::UnexpectedInput { at: end });
                    Err(errors)
                }
            },
            Err(e) => {
                errors.push(e);
                Err(errors)
            },
        }
    }
}

} // verus!
