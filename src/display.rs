//! Writing ranges as text: `-` for nothing, `*` for everything, otherwise
//! each interval, joined by ` || `.

use vstd::prelude::*;
use vstd::string::*;
use std::cmp::Ordering;
use crate::boundaries::{sorted, views, lemma_views_index, lemma_views_len};
use crate::extreme::{RangeExtreme, RangeExtremeDisplay, lemma_total_order};
use crate::range::Range;

verus! {

broadcast use {lemma_views_index, lemma_views_len};

/// The text of one interval from `start`, up to `end` when it is bounded:
/// `==v` for a single value, else a lower bound (none from the least value)
/// and an upper bound (none when unbounded), joined by ` && `. A bound is
/// written inclusively, through the previous value, when there is one.
pub open spec fn interval_text<T: RangeExtremeDisplay>(start: T::V, end: Option<T::V>) -> Seq<char> {
    if (end is Some && start != T::highest() && T::successor(start) == end.unwrap()) || (end is None
        && start == T::highest()) {
        "=="@ + T::text(start)
    } else {
        let lower = if start == T::lowest() {
            Seq::<char>::empty()
        } else if T::has_previous(start) {
            ">"@ + T::text(T::previous(start))
        } else {
            ">="@ + T::text(start)
        };
        let upper = match end {
            None => Seq::<char>::empty(),
            Some(e) => if T::has_previous(e) {
                "<="@ + T::text(T::previous(e))
            } else {
                "<"@ + T::text(e)
            },
        };
        if lower.len() > 0 && upper.len() > 0 {
            lower + " && "@ + upper
        } else {
            lower + upper
        }
    }
}

/// The `k`-th interval of a boundary sequence: its start, and its end unless
/// it is the last one of an odd count.
pub open spec fn interval<A>(b: Seq<A>, k: int) -> (A, Option<A>) {
    (b[2 * k], if 2 * k + 1 < b.len() { Some(b[2 * k + 1]) } else { None })
}

/// The texts of the first `m` intervals, joined by ` || `.
pub open spec fn intervals_text<T: RangeExtremeDisplay>(b: Seq<T::V>, m: int) -> Seq<char>
    decreases m,
{
    if m <= 0 {
        Seq::empty()
    } else if m == 1 {
        interval_text::<T>(interval(b, 0).0, interval(b, 0).1)
    } else {
        intervals_text::<T>(b, m - 1) + " || "@ + interval_text::<T>(
            interval(b, m - 1).0,
            interval(b, m - 1).1,
        )
    }
}

/// The text of a range.
pub open spec fn range_text<T: RangeExtremeDisplay>(b: Seq<T::V>) -> Seq<char> {
    if b.len() == 0 {
        "-"@
    } else if b == seq![T::lowest()] {
        "*"@
    } else {
        intervals_text::<T>(b, (b.len() + 1) as int / 2)
    }
}

/// Writes one interval.
pub fn display_impl<T: RangeExtremeDisplay>(start: &T, end: Option<&T>) -> (r: String)
    requires
        T::valid(start@),
        end matches Some(e) ==> T::valid(e@),
    ensures
        r@ == interval_text::<T>(start@, match end {
            Some(e) => Some(e@),
            None => None,
        }),
{
    proof {
        reveal_strlit("==");
        reveal_strlit(">");
        reveal_strlit(">=");
        reveal_strlit("<=");
        reveal_strlit("<");
        reveal_strlit(" && ");
        lemma_total_order::<T>();
    }
    let single = match end {
        Some(e) => start.compare_next_to(e),
        None => matches!(start.compare(&T::max_extreme()), Ordering::Equal),
    };
    if single {
        let mut out = String::from_str("==");
        out.append(start.display().as_str());
        return out;
    }
    let mut lower = String::new();
    if !matches!(start.compare(&T::min_extreme()), Ordering::Equal) {
        if start.has_prev() {
            lower.append(">");
            if let Some(t) = start.display_prev() {
                lower.append(t.as_str());
            }
        } else {
            lower.append(">=");
            lower.append(start.display().as_str());
        }
    }
    let mut upper = String::new();
    if let Some(e) = end {
        if e.has_prev() {
            upper.append("<=");
            if let Some(t) = e.display_prev() {
                upper.append(t.as_str());
            }
        } else {
            upper.append("<");
            upper.append(e.display().as_str());
        }
    }
    if lower.as_str().unicode_len() > 0 && upper.as_str().unicode_len() > 0 {
        lower.append(" && ");
    }
    lower.append(upper.as_str());
    lower
}

impl<T: RangeExtremeDisplay> Range<T> {
    /// The text of the range: `-` when empty, `*` when full, otherwise its
    /// intervals joined by ` || `.
    pub fn display(&self) -> (r: String)
        requires
            self.wf(),
        ensures
            r@ == range_text::<T>(self@),
    {
        proof {
            reveal_strlit("-");
            reveal_strlit("*");
            reveal_strlit(" || ");
        }
        if self.is_empty() {
            return String::from_str("-");
        }
        if self.is_full() {
            return String::from_str("*");
        }
        let b = self.boundaries();
        let n = b.len();
        let m = n / 2 + n % 2;
        let mut out = String::new();
        let mut k: usize = 0;
        while k < m
            invariant
                n == b@.len() == self@.len(),
                views(b@) == self@,
                sorted::<T>(self@),
                m == (n + 1) / 2,
                0 <= k <= m,
                out@ == intervals_text::<T>(self@, k as int),
            decreases m - k,
        {
            if k > 0 {
                out.append(" || ");
            }
            let piece = if 2 * k + 1 < n {
                display_impl(&b[2 * k], Some(&b[2 * k + 1]))
            } else {
                display_impl(&b[2 * k], None)
            };
            out.append(piece.as_str());
            k = k + 1;
        }
        out
    }
}

} // verus!
