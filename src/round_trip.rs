//! Writing a range and reading the text back gives the same range, for any
//! boundary type whose written values read back as themselves.

use vstd::prelude::*;
use crate::boundaries::{sorted, rank, set_of, universe, lemma_rank_at, lemma_rank_bounds, lemma_canonical};
use crate::extreme::{RangeExtreme, RangeExtremeDisplay, RangeExtremeFromStr, RangeExtremeText, lemma_total_order};
use crate::parse::{
    Comparison, is_space, ws_end, at, comparison_at, comparison_set, atom_at, neg_at, and_tail,
    and_at, or_tail, or_at, ranges_of, lemma_ws_end,
};
use crate::display::{interval_text, interval, intervals_text, range_text};
use crate::range::{lemma_after, lemma_one, lemma_two, lemma_not_set, spec_not, sym_diff};
use crate::closure::{all_satisfy, representable_by, lemma_and_representable, lemma_xor_representable};

verus! {

/// The text of a comparison operator.
pub open spec fn op_text(op: Comparison) -> Seq<char> {
    match op {
        Comparison::AtMost => "<="@,
        Comparison::Below => "<"@,
        Comparison::AtLeast => ">="@,
        Comparison::Above => ">"@,
        Comparison::Equal => "=="@,
        Comparison::NotEqual => "!="@,
    }
}

/// The values at or above `x`.
pub open spec fn at_least<T: RangeExtremeText>(x: T::V) -> Set<T::V> {
    Set::new(|w: T::V| T::valid(w) && !T::less(w, x))
}

/// The values below `x`.
pub open spec fn below<T: RangeExtremeText>(x: T::V) -> Set<T::V> {
    Set::new(|w: T::V| T::valid(w) && T::less(w, x))
}

proof fn lemma_ws_none(s: Seq<char>, i: int)
    requires
        0 <= i <= s.len(),
        i == s.len() || !is_space(s[i]),
    ensures
        ws_end(s, i) == i,
{
}

proof fn lemma_ws_one(s: Seq<char>, i: int)
    requires
        0 <= i < s.len(),
        is_space(s[i]),
        i + 1 == s.len() || !is_space(s[i + 1]),
    ensures
        ws_end(s, i) == i + 1,
{
    lemma_ws_none(s, i + 1);
}


/// An operator and a value, followed by a space or the end, read as one atom.
proof fn lemma_atom_text<T: RangeExtremeText>(s: Seq<char>, i0: int, i: int, op: Comparison, v: T::V)
    requires
        0 <= i0 <= i,
        ws_end(s, i0) == i,
        op != Comparison::NotEqual,
        T::writable(v),
        0 <= i,
        i + op_text(op).len() + T::text(v).len() <= s.len(),
        s.subrange(i, i + op_text(op).len() + T::text(v).len()) == op_text(op) + T::text(v),
        i + op_text(op).len() + T::text(v).len() == s.len() || s[i + op_text(op).len()
            + T::text(v).len()] == ' ',
    ensures
        atom_at::<T>(s, i0) == Some(
            (comparison_set::<T>(op, v), i + op_text(op).len() + T::text(v).len()),
        ),
        neg_at::<T>(s, i0) == atom_at::<T>(s, i0),
{
    T::lemma_writable(v);
    reveal_strlit("<=");
    reveal_strlit("<");
    reveal_strlit(">=");
    reveal_strlit(">");
    reveal_strlit("==");
    let o = op_text(op);
    let w = T::text(v);
    let q = i + o.len();
    let e = q + w.len();
    let t = o + w;
    assert forall|k: int| i <= k < e implies #[trigger] s[k] == t[k - i] by {
        assert(s[k] == s.subrange(i, e)[k - i]);
    }
    T::lemma_writable(v);
    assert(s[i] == o[0]);
    assert(s[q] == w[0]);
    if o.len() == 2 {
        assert(s[i + 1] == o[1]);
    }
    assert(comparison_at(s, i) == Some((op, q)));
    lemma_ws_none(s, q);
    assert(s.subrange(q, e) =~= w);
    T::lemma_read_back(s, q, v);
}

/// The lower bound of an interval that does not start at the least value.
pub open spec fn lower_text<T: RangeExtremeText>(st: T::V) -> Seq<char> {
    if T::has_previous(st) {
        ">"@ + T::text(T::previous(st))
    } else {
        ">="@ + T::text(st)
    }
}

/// The upper bound of a bounded interval.
pub open spec fn upper_text<T: RangeExtremeText>(e: T::V) -> Seq<char> {
    if T::has_previous(e) {
        "<="@ + T::text(T::previous(e))
    } else {
        "<"@ + T::text(e)
    }
}


proof fn lemma_lower<T: RangeExtremeText>(s: Seq<char>, i0: int, i: int, st: T::V)
    requires
        0 <= i0 <= i,
        ws_end(s, i0) == i,
        T::writable(st),
        i + lower_text::<T>(st).len() <= s.len(),
        s.subrange(i, i + lower_text::<T>(st).len()) == lower_text::<T>(st),
        i + lower_text::<T>(st).len() == s.len() || s[i + lower_text::<T>(st).len()] == ' ',
    ensures
        atom_at::<T>(s, i0) == Some((at_least::<T>(st), i + lower_text::<T>(st).len())),
        neg_at::<T>(s, i0) == atom_at::<T>(s, i0),
{
    T::lemma_writable(st);
    reveal_strlit(">");
    reveal_strlit(">=");
    if T::has_previous(st) {
        let v = T::previous(st);
        T::lemma_writable(st);
        T::lemma_previous(st);
        assert(op_text(Comparison::Above) == ">"@);
        lemma_atom_text::<T>(s, i0, i, Comparison::Above, v);
        assert forall|w: T::V| #[trigger] comparison_set::<T>(Comparison::Above, v).contains(w)
            == at_least::<T>(st).contains(w) by {
            if T::valid(w) {
                lemma_after::<T>(v, w);
            }
        }
        assert(comparison_set::<T>(Comparison::Above, v) =~= at_least::<T>(st));
    } else {
        assert(op_text(Comparison::AtLeast) == ">="@);
        lemma_atom_text::<T>(s, i0, i, Comparison::AtLeast, st);
        assert(comparison_set::<T>(Comparison::AtLeast, st) =~= at_least::<T>(st));
    }
}

proof fn lemma_upper<T: RangeExtremeText>(s: Seq<char>, i0: int, i: int, e: T::V)
    requires
        0 <= i0 <= i,
        ws_end(s, i0) == i,
        T::writable(e),
        i + upper_text::<T>(e).len() <= s.len(),
        s.subrange(i, i + upper_text::<T>(e).len()) == upper_text::<T>(e),
        i + upper_text::<T>(e).len() == s.len() || s[i + upper_text::<T>(e).len()] == ' ',
    ensures
        atom_at::<T>(s, i0) == Some((below::<T>(e), i + upper_text::<T>(e).len())),
        neg_at::<T>(s, i0) == atom_at::<T>(s, i0),
{
    T::lemma_writable(e);
    reveal_strlit("<");
    reveal_strlit("<=");
    if T::has_previous(e) {
        let v = T::previous(e);
        T::lemma_writable(e);
        T::lemma_previous(e);
        assert(op_text(Comparison::AtMost) == "<="@);
        lemma_atom_text::<T>(s, i0, i, Comparison::AtMost, v);
        assert forall|w: T::V| #[trigger] comparison_set::<T>(Comparison::AtMost, v).contains(w)
            == below::<T>(e).contains(w) by {
            if T::valid(w) {
                lemma_after::<T>(v, w);
            }
        }
        assert(comparison_set::<T>(Comparison::AtMost, v) =~= below::<T>(e));
    } else {
        assert(op_text(Comparison::Below) == "<"@);
        lemma_atom_text::<T>(s, i0, i, Comparison::Below, e);
        assert(comparison_set::<T>(Comparison::Below, e) =~= below::<T>(e));
    }
}

/// The values of one interval: from `st`, and below `en` when bounded.
pub open spec fn interval_set<T: RangeExtremeText>(st: T::V, en: Option<T::V>) -> Set<T::V> {
    Set::new(
        |w: T::V|
            T::valid(w) && !T::less(w, st) && match en {
                None => true,
                Some(e) => T::less(w, e),
            },
    )
}

/// A conjunction stops before a space and `|`, or at the end.
proof fn lemma_and_stops<T: RangeExtremeText>(s: Seq<char>, e: int, m: Set<T::V>)
    requires
        0 <= e <= s.len(),
        e == s.len() || (s[e] == ' ' && e + 1 < s.len() && s[e + 1] == '|'),
    ensures
        and_tail::<T>(s, e, m) == Some((m, e)),
{
    if e < s.len() {
        lemma_ws_one(s, e);
    } else {
        lemma_ws_none(s, e);
    }
}

/// The text of a single value reads back as that value.
proof fn lemma_interval_single<T: RangeExtremeText>(s: Seq<char>, i0: int, i: int, t: Seq<char>, st: T::V, en: Option<T::V>)
    requires
        0 <= i0 <= i,
        ws_end(s, i0) == i,
        i + t.len() <= s.len(),
        s.subrange(i, i + t.len()) == t,
        i + t.len() == s.len() || (s[i + t.len()] == ' ' && i + t.len() + 1 < s.len() && s[i + t.len() + 1] == '|'),
        T::writable(st),
        (en == Some(T::successor(st)) && st != T::highest()) || (en is None && st == T::highest()),
        t == "=="@ + T::text(st),
    ensures
        and_at::<T>(s, i0) == Some((interval_set::<T>(st, en), i + t.len())),
{
    T::lemma_writable(st);
    reveal_strlit("==");
    assert(op_text(Comparison::Equal) == "=="@);
    lemma_atom_text::<T>(s, i0, i, Comparison::Equal, st);
    lemma_and_stops::<T>(s, i + t.len(), comparison_set::<T>(Comparison::Equal, st));
    assert forall|w: T::V| #[trigger] comparison_set::<T>(Comparison::Equal, st).contains(w)
        == interval_set::<T>(st, en).contains(w) by {
        if T::valid(w) {
            if st != T::highest() {
                lemma_after::<T>(st, w);
            }
            T::lemma_order(st, w, w);
            T::lemma_order(w, st, st);
        }
    }
    assert(comparison_set::<T>(Comparison::Equal, st) =~= interval_set::<T>(st, en));
}

/// The text of an interval from the least value reads back.
proof fn lemma_interval_upper<T: RangeExtremeText>(s: Seq<char>, i0: int, i: int, t: Seq<char>, e: T::V)
    requires
        0 <= i0 <= i,
        ws_end(s, i0) == i,
        i + t.len() <= s.len(),
        s.subrange(i, i + t.len()) == t,
        i + t.len() == s.len() || (s[i + t.len()] == ' ' && i + t.len() + 1 < s.len() && s[i + t.len() + 1] == '|'),
        T::writable(e),
        t == upper_text::<T>(e),
    ensures
        and_at::<T>(s, i0) == Some((interval_set::<T>(T::lowest(), Some(e)), i + t.len())),
{
    T::lemma_writable(e);
    reveal_strlit("<");
    reveal_strlit("<=");
    lemma_upper::<T>(s, i0, i, e);
    lemma_and_stops::<T>(s, i + t.len(), below::<T>(e));
    assert forall|w: T::V| #[trigger] below::<T>(e).contains(w) == interval_set::<T>(T::lowest(), Some(e)).contains(w) by {
        if T::valid(w) {
            T::lemma_order(w, w, w);
        }
    }
    assert(below::<T>(e) =~= interval_set::<T>(T::lowest(), Some(e)));
}

/// The text of an unbounded interval reads back.
proof fn lemma_interval_lower<T: RangeExtremeText>(s: Seq<char>, i0: int, i: int, t: Seq<char>, st: T::V)
    requires
        0 <= i0 <= i,
        ws_end(s, i0) == i,
        i + t.len() <= s.len(),
        s.subrange(i, i + t.len()) == t,
        i + t.len() == s.len() || (s[i + t.len()] == ' ' && i + t.len() + 1 < s.len() && s[i + t.len() + 1] == '|'),
        T::writable(st),
        t == lower_text::<T>(st),
    ensures
        and_at::<T>(s, i0) == Some((interval_set::<T>(st, None), i + t.len())),
{
    T::lemma_writable(st);
    reveal_strlit(">");
    reveal_strlit(">=");
    lemma_lower::<T>(s, i0, i, st);
    lemma_and_stops::<T>(s, i + t.len(), at_least::<T>(st));
    assert(at_least::<T>(st) =~= interval_set::<T>(st, None));
}

/// The text of a bounded interval reads back.
#[verifier::rlimit(40)]
proof fn lemma_interval_both<T: RangeExtremeText>(s: Seq<char>, i0: int, i: int, t: Seq<char>, st: T::V, e: T::V)
    requires
        0 <= i0 <= i,
        ws_end(s, i0) == i,
        i + t.len() <= s.len(),
        s.subrange(i, i + t.len()) == t,
        i + t.len() == s.len() || (s[i + t.len()] == ' ' && i + t.len() + 1 < s.len() && s[i + t.len() + 1] == '|'),
        T::writable(st),
        T::writable(e),
        t == lower_text::<T>(st) + " && "@ + upper_text::<T>(e),
    ensures
        and_at::<T>(s, i0) == Some((interval_set::<T>(st, Some(e)), i + t.len())),
{
    T::lemma_writable(st);
    T::lemma_writable(e);
    let l = lower_text::<T>(st);
    let u = upper_text::<T>(e);
    let e_end = i + t.len();
    let e1 = i + l.len();
    assert(s.subrange(i, e1) =~= l && s[e1] == ' ' && s[e1 + 1] == '&' && s[e1 + 2] == '&' && s[e1 + 3] == ' '
        && e1 + 4 < e_end && s[e1 + 4] == u[0] && s.subrange(e1 + 4, e_end) =~= u) by {
        reveal_strlit(" && ");
        reveal_strlit(">");
        reveal_strlit(">=");
        reveal_strlit("<");
        reveal_strlit("<=");
        assert forall|k: int| i <= k < e_end implies #[trigger] s[k] == t[k - i] by {
            assert(s[k] == s.subrange(i, e_end)[k - i]);
        }
    }
    assert(u[0] == '<') by {
        reveal_strlit("<");
        reveal_strlit("<=");
    }
    let a = at_least::<T>(st);
    let b = below::<T>(e);
    lemma_lower::<T>(s, i0, i, st);
    assert(and_at::<T>(s, i0) == and_tail::<T>(s, e1, a));
    lemma_ws_one(s, e1);
    lemma_ws_one(s, e1 + 3);
    lemma_upper::<T>(s, e1 + 3, e1 + 4, e);
    assert(neg_at::<T>(s, e1 + 3) == Some((b, e_end)));
    assert(and_tail::<T>(s, e1, a) == and_tail::<T>(s, e_end, a * b));
    lemma_and_stops::<T>(s, e_end, a * b);
    assert(a * b =~= interval_set::<T>(st, Some(e)));
}

/// The text of an interval reads back as its values.
proof fn lemma_interval<T: RangeExtremeText>(s: Seq<char>, i0: int, i: int, st: T::V, en: Option<T::V>)
    requires
        0 <= i0 <= i,
        ws_end(s, i0) == i,
        T::writable(st),
        en matches Some(e) ==> T::writable(e),
        !(st == T::lowest() && en is None),
        i + interval_text::<T>(st, en).len() <= s.len(),
        s.subrange(i, i + interval_text::<T>(st, en).len()) == interval_text::<T>(
            st,
            en,
        ),
        i + interval_text::<T>(st, en).len() == s.len() || (s[i + interval_text::<T>(st, en).len()] == ' ' && i + interval_text::<T>(st, en).len() + 1 < s.len()
            && s[i + interval_text::<T>(st, en).len() + 1] == '|'),
    ensures
        and_at::<T>(s, i0) == Some(
            (interval_set::<T>(st, en), i + interval_text::<T>(st, en).len()),
        ),
{
    let t = interval_text::<T>(st, en);
    if (en is Some && st != T::highest() && T::successor(st) == en.unwrap()) || (en is None && st
        == T::highest()) {
        lemma_interval_single::<T>(s, i0, i, t, st, en);
    } else if st == T::lowest() {
        reveal_strlit("<");
        reveal_strlit("<=");
        assert(t =~= upper_text::<T>(en.unwrap()));
        lemma_interval_upper::<T>(s, i0, i, t, en.unwrap());
    } else if en is None {
        reveal_strlit(">");
        reveal_strlit(">=");
        assert(t =~= lower_text::<T>(st));
        lemma_interval_lower::<T>(s, i0, i, t, st);
    } else {
        reveal_strlit(">");
        reveal_strlit(">=");
        reveal_strlit("<");
        reveal_strlit("<=");
        lemma_interval_both::<T>(s, i0, i, t, st, en.unwrap());
    }
}

/// The values of the first `k` intervals of `b`.
pub open spec fn intervals_set<T: RangeExtremeText>(b: Seq<T::V>, k: int) -> Set<T::V>
    decreases k,
{
    if k <= 0 {
        Set::empty()
    } else {
        intervals_set::<T>(b, k - 1) + interval_set::<T>(interval(b, k - 1).0, interval(b, k - 1).1)
    }
}

/// Sorted boundaries that can all be written.
pub open spec fn writable_boundaries<T: RangeExtremeText>(b: Seq<T::V>) -> bool {
    sorted::<T>(b) && forall|k: int| 0 <= k < b.len() ==> T::writable(#[trigger] b[k])
}

/// An interval's text starts with an operator.
proof fn lemma_interval_text_start<T: RangeExtremeText>(st: T::V, en: Option<T::V>)
    requires
        !(st == T::lowest() && en is None),
    ensures
        interval_text::<T>(st, en).len() > 0,
        !is_space(interval_text::<T>(st, en)[0]),
{
    reveal_strlit("==");
    reveal_strlit(">");
    reveal_strlit(">=");
    reveal_strlit("<");
    reveal_strlit("<=");
    reveal_strlit(" && ");
}

/// The texts of fewer intervals start the text of more.
proof fn lemma_prefix<T: RangeExtremeText>(b: Seq<T::V>, m: int, k: int)
    requires
        1 <= k <= m,
    ensures
        intervals_text::<T>(b, k).len() <= intervals_text::<T>(b, m).len(),
        intervals_text::<T>(b, m).subrange(0, intervals_text::<T>(b, k).len() as int)
            == intervals_text::<T>(b, k),
    decreases m - k,
{
    let tm = intervals_text::<T>(b, m);
    let tk = intervals_text::<T>(b, k);
    if k == m {
        assert(tm.subrange(0, tk.len() as int) =~= tk);
    } else {
        lemma_prefix::<T>(b, m - 1, k);
        let tp = intervals_text::<T>(b, m - 1);
        assert(m >= 2);
        assert(tm == tp + " || "@ + interval_text::<T>(interval(b, m - 1).0, interval(b, m - 1).1));
        assert(tm.subrange(0, tk.len() as int) =~= tp.subrange(0, tk.len() as int));
    }
}

/// Each interval of writable boundaries can be written.
proof fn lemma_interval_ok<T: RangeExtremeText>(b: Seq<T::V>, k: int)
    requires
        writable_boundaries::<T>(b),
        b != seq![T::lowest()],
        0 <= k,
        2 * k < b.len(),
    ensures
        T::writable(interval(b, k).0),
        interval(b, k).1 matches Some(e) ==> T::writable(e),
        !(interval(b, k).0 == T::lowest() && interval(b, k).1 is None),
{
    lemma_total_order::<T>();
    if interval(b, k).0 == T::lowest() && interval(b, k).1 is None {
        if k > 0 {
            assert(T::less(b[0], b[2 * k]));
        }
        assert(b =~= seq![T::lowest()]);
    }
}

/// Where a text starts with `tk || it`, the separator and `it` stand after `tk`.
proof fn lemma_step_text(s: Seq<char>, t1: Seq<char>, tk: Seq<char>, it: Seq<char>)
    requires
        t1 == tk + " || "@ + it,
        t1.len() <= s.len(),
        s.subrange(0, t1.len() as int) == t1,
    ensures
        s[tk.len() as int] == ' ',
        s[tk.len() as int + 1] == '|',
        s[tk.len() as int + 2] == '|',
        s[tk.len() as int + 3] == ' ',
        tk.len() + 4 <= t1.len(),
        s.subrange(tk.len() as int + 4, t1.len() as int) == it,
{
    reveal_strlit(" || ");
    let e = t1.len() as int;
    assert forall|q: int| 0 <= q < e implies #[trigger] s[q] == t1[q] by {
        assert(s[q] == s.subrange(0, e)[q]);
    }
    assert(s.subrange(tk.len() as int + 4, e) =~= it);
}

/// The `k`-th interval text stands at its place in the whole text, and what
/// follows it is another separator or the end.
#[verifier::rlimit(80)]
proof fn lemma_chain_place<T: RangeExtremeText>(b: Seq<T::V>, m: int, k: int)
    requires
        1 <= k < m,
    ensures
        ({
            let s = intervals_text::<T>(b, m);
            let p = intervals_text::<T>(b, k).len() as int;
            let e = intervals_text::<T>(b, k + 1).len() as int;
            let it = interval_text::<T>(interval(b, k).0, interval(b, k).1);
            &&& s[p] == ' ' && s[p + 1] == '|' && s[p + 2] == '|' && s[p + 3] == ' '
            &&& p + 4 <= e <= s.len()
            &&& s.subrange(p + 4, e) == it
            &&& e == s.len() || (s[e] == ' ' && e + 1 < s.len() && s[e + 1] == '|')
        }),
{
    let s = intervals_text::<T>(b, m);
    let tk = intervals_text::<T>(b, k);
    let t1 = intervals_text::<T>(b, k + 1);
    let it = interval_text::<T>(interval(b, k).0, interval(b, k).1);
    assert(t1 == tk + " || "@ + it);
    lemma_prefix::<T>(b, m, k + 1);
    lemma_step_text(s, t1, tk, it);
    if k + 1 < m {
        let t2 = intervals_text::<T>(b, k + 2);
        let it2 = interval_text::<T>(interval(b, k + 1).0, interval(b, k + 1).1);
        lemma_prefix::<T>(b, m, k + 2);
        assert(t2 == t1 + " || "@ + it2);
        lemma_step_text(s, t2, t1, it2);
        assert(t1.len() + 1 < t2.len()) by {
            reveal_strlit(" || ");
        }
    } else {
        assert(k + 1 == m);
    }
}

/// Reading the `||` chain of interval texts from the `k`-th on.
#[verifier::rlimit(40)]
proof fn lemma_or_chain<T: RangeExtremeText>(b: Seq<T::V>, m: int, k: int)
    requires
        writable_boundaries::<T>(b),
        b.len() > 0,
        b != seq![T::lowest()],
        m == (b.len() + 1) / 2,
        1 <= k <= m,
    ensures
        or_tail::<T>(
            intervals_text::<T>(b, m),
            intervals_text::<T>(b, k).len() as int,
            intervals_set::<T>(b, k),
        ) == Some((intervals_set::<T>(b, m), intervals_text::<T>(b, m).len() as int)),
    decreases m - k,
{
    let s = intervals_text::<T>(b, m);
    let p = intervals_text::<T>(b, k).len() as int;
    lemma_prefix::<T>(b, m, k);
    if k == m {
        lemma_ws_none(s, p);
    } else {
        let st = interval(b, k).0;
        let en = interval(b, k).1;
        let it = interval_text::<T>(st, en);
        let e = intervals_text::<T>(b, k + 1).len() as int;
        lemma_chain_place::<T>(b, m, k);
        lemma_interval_ok::<T>(b, k);
        lemma_interval_text_start::<T>(st, en);
        assert(s[p + 4] == it[0]) by {
            assert(s[p + 4] == s.subrange(p + 4, e)[0]);
        }
        lemma_ws_one(s, p);
        lemma_ws_one(s, p + 3);
        lemma_interval::<T>(s, p + 3, p + 4, st, en);
        assert(or_tail::<T>(s, p, intervals_set::<T>(b, k)) == or_tail::<T>(
            s,
            e,
            intervals_set::<T>(b, k + 1),
        ));
        lemma_or_chain::<T>(b, m, k + 1);
    }
}

/// The first `k` intervals hold the values whose rank is odd and below `2k`.
proof fn lemma_intervals_set<T: RangeExtremeText>(b: Seq<T::V>, k: int)
    requires
        sorted::<T>(b),
        0 <= k,
        2 * k <= b.len() + 1,
    ensures
        intervals_set::<T>(b, k) =~= Set::new(
            |w: T::V|
                T::valid(w) && rank::<T>(b, w) % 2 == 1 && rank::<T>(b, w) < 2 * k,
        ),
    decreases k,
{
    if k > 0 {
        lemma_intervals_set::<T>(b, k - 1);
        let st = interval(b, k - 1).0;
        let en = interval(b, k - 1).1;
        assert forall|w: T::V| T::valid(w) implies #[trigger] interval_set::<T>(st, en).contains(w)
            == (rank::<T>(b, w) == 2 * k - 1) by {
            lemma_total_order::<T>();
            lemma_rank_bounds::<T>(b, w);
            let r = rank::<T>(b, w) as int;
            if interval_set::<T>(st, en).contains(w) {
                if 2 * k - 1 < b.len() {
                    assert(en == Some(b[2 * k - 1]));
                }
                lemma_rank_at::<T>(b, w, 2 * k - 1);
            }
            if r == 2 * k - 1 {
                assert(!T::less(w, b[r - 1]));
            }
        }
    }
}

/// `-` reads back as nothing.
proof fn lemma_empty_reads_back<T: RangeExtremeText>()
    ensures
        ranges_of::<T>("-"@) == Some(Set::<T::V>::empty()),
{
    reveal_strlit("-");
    let s = "-"@;
    lemma_ws_none(s, 0);
    lemma_ws_none(s, 1);
    assert(atom_at::<T>(s, 0) == Some((Set::<T::V>::empty(), 1int)));
    assert(neg_at::<T>(s, 0) == Some((Set::<T::V>::empty(), 1int)));
    assert(and_at::<T>(s, 0) == Some((Set::<T::V>::empty(), 1int)));
    assert(or_at::<T>(s, 0) == Some((Set::<T::V>::empty(), 1int)));
}

/// `*` reads back as everything.
proof fn lemma_full_reads_back<T: RangeExtremeText>()
    ensures
        ranges_of::<T>("*"@) == Some(universe::<T>()),
{
    reveal_strlit("*");
    let s = "*"@;
    let u = universe::<T>();
    lemma_ws_none(s, 0);
    lemma_ws_none(s, 1);
    assert(atom_at::<T>(s, 0) == Some((u, 1int)));
    assert(neg_at::<T>(s, 0) == Some((u, 1int)));
    assert(and_at::<T>(s, 0) == Some((u, 1int)));
    assert(or_at::<T>(s, 0) == Some((u, 1int)));
}

/// The intervals of a sorted sequence hold exactly its values.
proof fn lemma_all_intervals<T: RangeExtremeText>(b: Seq<T::V>)
    requires
        sorted::<T>(b),
    ensures
        intervals_set::<T>(b, (b.len() + 1) as int / 2) =~= set_of::<T>(b),
{
    let m = (b.len() + 1) as int / 2;
    lemma_intervals_set::<T>(b, m);
    assert forall|w: T::V| #[trigger] set_of::<T>(b).contains(w) == intervals_set::<T>(b, m).contains(w) by {
        if T::valid(w) {
            crate::boundaries::lemma_rank_bounds::<T>(b, w);
        }
    }
}

/// The first interval text starts the whole text, and what follows it is a
/// separator or the end.
#[verifier::rlimit(40)]
proof fn lemma_first_place<T: RangeExtremeText>(b: Seq<T::V>, m: int)
    requires
        1 <= m,
    ensures
        ({
            let s = intervals_text::<T>(b, m);
            let e = intervals_text::<T>(b, 1).len() as int;
            &&& e <= s.len()
            &&& s.subrange(0, e) == interval_text::<T>(interval(b, 0).0, interval(b, 0).1)
            &&& e == s.len() || (s[e] == ' ' && e + 1 < s.len() && s[e + 1] == '|')
        }),
{
    let s = intervals_text::<T>(b, m);
    let t1 = intervals_text::<T>(b, 1);
    lemma_prefix::<T>(b, m, 1);
    if m > 1 {
        lemma_chain_place::<T>(b, m, 1);
    }
}

/// The first interval text reads back at the start.
#[verifier::rlimit(40)]
proof fn lemma_first_interval<T: RangeExtremeText>(b: Seq<T::V>, m: int)
    requires
        writable_boundaries::<T>(b),
        b.len() > 0,
        b != seq![T::lowest()],
        m == (b.len() + 1) / 2,
    ensures
        intervals_text::<T>(b, 1).len() <= intervals_text::<T>(b, m).len(),
        and_at::<T>(intervals_text::<T>(b, m), 0) == Some(
            (intervals_set::<T>(b, 1), intervals_text::<T>(b, 1).len() as int),
        ),
{
    let s = intervals_text::<T>(b, m);
    let st = interval(b, 0).0;
    let en = interval(b, 0).1;
    let it = interval_text::<T>(st, en);
    lemma_first_place::<T>(b, m);
    lemma_interval_ok::<T>(b, 0);
    lemma_interval_text_start::<T>(st, en);
    assert(s[0] == s.subrange(0, it.len() as int)[0]);
    lemma_ws_none(s, 0);
    lemma_interval::<T>(s, 0, 0, st, en);
    assert(intervals_set::<T>(b, 0) == Set::<T::V>::empty());
    assert(intervals_set::<T>(b, 1) =~= interval_set::<T>(st, en));
}

/// The text of the intervals of a range reads back as its values.
proof fn lemma_intervals_read_back<T: RangeExtremeText>(b: Seq<T::V>)
    requires
        writable_boundaries::<T>(b),
        b.len() > 0,
        b != seq![T::lowest()],
    ensures
        ranges_of::<T>(intervals_text::<T>(b, (b.len() + 1) as int / 2)) == Some(
            intervals_set::<T>(b, (b.len() + 1) as int / 2),
        ),
{
    let m = (b.len() + 1) as int / 2;
    let s = intervals_text::<T>(b, m);
    let j = intervals_text::<T>(b, 1).len() as int;
    lemma_first_interval::<T>(b, m);
    lemma_or_chain::<T>(b, m, 1);
    assert(or_at::<T>(s, 0) == or_tail::<T>(s, j, intervals_set::<T>(b, 1)));
    lemma_ws_none(s, s.len() as int);
}

/// The text of a range with writable boundaries reads back as its values.
pub proof fn lemma_text_reads_back<T: RangeExtremeText>(b: Seq<T::V>)
    requires
        writable_boundaries::<T>(b),
    ensures
        ranges_of::<T>(range_text::<T>(b)) == Some(set_of::<T>(b)),
{
    if b.len() == 0 {
        lemma_empty_reads_back::<T>();
        assert(set_of::<T>(b) =~= Set::<T::V>::empty());
    } else if b == seq![T::lowest()] {
        lemma_full_reads_back::<T>();
        lemma_total_order::<T>();
        assert forall|w: T::V| #[trigger] set_of::<T>(b).contains(w) == universe::<T>().contains(w) by {
            if T::valid(w) {
                crate::range::lemma_one::<T>(T::lowest(), w);
            }
        }
        assert(set_of::<T>(b) =~= universe::<T>());
    } else {
        lemma_intervals_read_back::<T>(b);
        lemma_all_intervals::<T>(b);
    }
}

/// Writable values, as a predicate.
pub open spec fn writable_pred<T: RangeExtremeText>() -> spec_fn(T::V) -> bool {
    |v: T::V| T::writable(v)
}

/// Described by boundaries that can all be written.
pub open spec fn writable_set<T: RangeExtremeText>(m: Set<T::V>) -> bool {
    representable_by::<T>(m, writable_pred::<T>())
}



/// Complements keep boundaries writable.
proof fn lemma_not_w<T: RangeExtremeText>(m: Set<T::V>)
    requires
        writable_set::<T>(m),
    ensures
        writable_set::<T>(universe::<T>() - m),
{
    let b = choose|b: Seq<T::V>| sorted::<T>(b) && set_of::<T>(b) == m
        && all_satisfy(b, writable_pred::<T>());
    lemma_not_set::<T>(b);
    T::lemma_writable(T::lowest());
    let c = spec_not::<T>(b);
    assert forall|k: int| 0 <= k < c.len() implies (writable_pred::<T>())(#[trigger] c[k]) by {
        if b.len() > 0 && b[0] == T::lowest() {
            assert(c[k] == b[k + 1]);
        } else if k > 0 {
            assert(c[k] == b[k - 1]);
        }
    }
    assert(sorted::<T>(c) && set_of::<T>(c) == universe::<T>() - m
        && all_satisfy(c, writable_pred::<T>()));
}

/// Intersections keep boundaries writable.
proof fn lemma_and_w<T: RangeExtremeText>(m1: Set<T::V>, m2: Set<T::V>)
    requires
        writable_set::<T>(m1),
        writable_set::<T>(m2),
    ensures
        writable_set::<T>(m1 * m2),
{
    let a = choose|b: Seq<T::V>| sorted::<T>(b) && set_of::<T>(b) == m1
        && all_satisfy(b, writable_pred::<T>());
    let b = choose|b: Seq<T::V>| sorted::<T>(b) && set_of::<T>(b) == m2
        && all_satisfy(b, writable_pred::<T>());
    lemma_and_representable::<T>(a, b, writable_pred::<T>());
}

/// Unions keep boundaries writable.
proof fn lemma_or_w<T: RangeExtremeText>(m1: Set<T::V>, m2: Set<T::V>)
    requires
        writable_set::<T>(m1),
        writable_set::<T>(m2),
    ensures
        writable_set::<T>(m1 + m2),
{
    let b = choose|b: Seq<T::V>| sorted::<T>(b) && set_of::<T>(b) == m2
        && all_satisfy(b, writable_pred::<T>());
    lemma_and_w::<T>(m1, m2);
    let c = choose|c: Seq<T::V>| sorted::<T>(c) && set_of::<T>(c) == m1 * m2
        && all_satisfy(c, writable_pred::<T>());
    lemma_xor_representable::<T>(m1, b, writable_pred::<T>());
    lemma_xor_representable::<T>(sym_diff(m1, m2), c, writable_pred::<T>());
    assert(sym_diff(sym_diff(m1, m2), m1 * m2) =~= m1 + m2);
}

/// A single writable value has writable boundaries.
proof fn lemma_equal_w<T: RangeExtremeText>(v: T::V)
    requires
        T::writable(v),
    ensures
        writable_set::<T>(comparison_set::<T>(Comparison::Equal, v)),
{
    T::lemma_writable(v);
    lemma_total_order::<T>();
    if v == T::highest() {
        lemma_top_equal::<T>();
        return;
    }
    T::lemma_successor(v, v);
    let n = T::successor(v);
    let cs = comparison_set::<T>(Comparison::Equal, v);
    let b = seq![v, n];
    assert forall|x: T::V| #[trigger] set_of::<T>(b).contains(x) == cs.contains(x) by {
        if T::valid(x) {
            lemma_two::<T>(v, n, x);
            lemma_after::<T>(v, x);
        }
    }
    lemma_two::<T>(v, n, v);
    assert(set_of::<T>(b) =~= cs);
    assert(all_satisfy(b, writable_pred::<T>()));
}

/// The values compared with the greatest value have writable boundaries.
proof fn lemma_cmp_top<T: RangeExtremeText>(op: Comparison)
    requires
        T::writable(T::highest()),
    ensures
        writable_set::<T>(comparison_set::<T>(op, T::highest())),
{
    let v = T::highest();
    let lo = T::lowest();
    lemma_total_order::<T>();
    T::lemma_writable(lo);
    T::lemma_writable(v);
    let cs = comparison_set::<T>(op, v);
    let w = writable_pred::<T>();
    match op {
        Comparison::AtMost => {
            let b = seq![lo];
            assert forall|x: T::V| #[trigger] set_of::<T>(b).contains(x) == cs.contains(x) by {
                if T::valid(x) {
                    lemma_one::<T>(lo, x);
                }
            }
            lemma_one::<T>(lo, lo);
            assert(set_of::<T>(b) =~= cs);
            assert(all_satisfy(b, w));
        },
        Comparison::Below => {
            if v == lo {
                let b = Seq::<T::V>::empty();
                assert(set_of::<T>(b) =~= cs);
                assert(all_satisfy(b, w));
                assert(sorted::<T>(b));
            } else {
                let b = seq![lo, v];
                T::lemma_order(lo, v, v);
                T::lemma_order(v, lo, lo);
                assert(T::less(lo, v));
                assert forall|x: T::V| #[trigger] set_of::<T>(b).contains(x) == cs.contains(x) by {
                    if T::valid(x) {
                        lemma_two::<T>(lo, v, x);
                    }
                }
                lemma_two::<T>(lo, v, lo);
                assert(set_of::<T>(b) =~= cs);
                assert(all_satisfy(b, w));
            }
        },
        Comparison::Above => {
            let b = Seq::<T::V>::empty();
            assert(set_of::<T>(b) =~= cs);
            assert(all_satisfy(b, w));
            assert(sorted::<T>(b));
        },
        Comparison::NotEqual => {
            lemma_top_equal::<T>();
            lemma_not_w::<T>(comparison_set::<T>(Comparison::Equal, v));
            assert(universe::<T>() - comparison_set::<T>(Comparison::Equal, v) =~= cs);
        },
        Comparison::Equal => {
            lemma_top_equal::<T>();
        },
        Comparison::AtLeast => {
            lemma_top_equal::<T>();
            assert(comparison_set::<T>(Comparison::Equal, v) =~= cs) by {
                assert forall|x: T::V| #[trigger] cs.contains(x) == comparison_set::<T>(Comparison::Equal, v).contains(x) by {
                    if T::valid(x) {
                        T::lemma_order(x, v, v);
                    }
                }
            }
        },
    }
}

/// Only the greatest value has writable boundaries.
proof fn lemma_top_equal<T: RangeExtremeText>()
    requires
        T::writable(T::highest()),
    ensures
        writable_set::<T>(comparison_set::<T>(Comparison::Equal, T::highest())),
{
    let v = T::highest();
    lemma_total_order::<T>();
    T::lemma_writable(v);
    let cs = comparison_set::<T>(Comparison::Equal, v);
    let b = seq![v];
    assert forall|x: T::V| #[trigger] set_of::<T>(b).contains(x) == cs.contains(x) by {
        if T::valid(x) {
            lemma_one::<T>(v, x);
            T::lemma_order(x, v, v);
        }
    }
    lemma_one::<T>(v, v);
    assert(set_of::<T>(b) =~= cs);
    assert(all_satisfy(b, writable_pred::<T>()));
}

/// The values compared with a writable value have writable boundaries.
proof fn lemma_cmp_w<T: RangeExtremeText>(op: Comparison, v: T::V)
    requires
        T::writable(v),
    ensures
        writable_set::<T>(comparison_set::<T>(op, v)),
{
    T::lemma_writable(v);
    lemma_total_order::<T>();
    T::lemma_writable(T::lowest());
    let lo = T::lowest();
    if v == T::highest() {
        lemma_cmp_top::<T>(op);
        return;
    }
    T::lemma_successor(v, v);
    let n = T::successor(v);
    assert(T::writable(n));
    let cs = comparison_set::<T>(op, v);
    let w = writable_pred::<T>();
    match op {
        Comparison::AtMost => {
            let b = seq![lo, n];
            assert(T::less(lo, n)) by {
                if v != lo {
                    T::lemma_order(lo, v, v);
                    T::lemma_order(v, lo, lo);
                    assert(T::less(lo, v));
                }
            }
            assert forall|x: T::V| #[trigger] set_of::<T>(b).contains(x) == cs.contains(x) by {
                if T::valid(x) {
                    lemma_two::<T>(lo, n, x);
                    lemma_after::<T>(v, x);
                }
            }
            lemma_two::<T>(lo, n, lo);
            assert(set_of::<T>(b) =~= cs);
            assert(all_satisfy(b, w));
        },
        Comparison::Below => {
            if v == lo {
                let b = Seq::<T::V>::empty();
                assert(set_of::<T>(b) =~= cs);
                assert(all_satisfy(b, w));
                assert(sorted::<T>(b));
            } else {
                let b = seq![lo, v];
                T::lemma_order(lo, v, v);
                T::lemma_order(v, lo, lo);
                assert(T::less(lo, v));
                assert forall|x: T::V| #[trigger] set_of::<T>(b).contains(x) == cs.contains(x) by {
                    if T::valid(x) {
                        lemma_two::<T>(lo, v, x);
                    }
                }
                lemma_two::<T>(lo, v, lo);
                assert(set_of::<T>(b) =~= cs);
                assert(all_satisfy(b, w));
            }
        },
        Comparison::AtLeast => {
            let b = seq![v];
            assert forall|x: T::V| #[trigger] set_of::<T>(b).contains(x) == cs.contains(x) by {
                if T::valid(x) {
                    lemma_one::<T>(v, x);
                }
            }
            lemma_one::<T>(v, v);
            assert(set_of::<T>(b) =~= cs);
            assert(all_satisfy(b, w));
        },
        Comparison::Above => {
            let b = seq![n];
            assert forall|x: T::V| #[trigger] set_of::<T>(b).contains(x) == cs.contains(x) by {
                if T::valid(x) {
                    lemma_one::<T>(n, x);
                    lemma_after::<T>(v, x);
                }
            }
            lemma_one::<T>(n, n);
            assert(set_of::<T>(b) =~= cs);
            assert(all_satisfy(b, w));
        },
        Comparison::Equal => {
            let b = seq![v, n];
            assert forall|x: T::V| #[trigger] set_of::<T>(b).contains(x) == cs.contains(x) by {
                if T::valid(x) {
                    lemma_two::<T>(v, n, x);
                    lemma_after::<T>(v, x);
                }
            }
            lemma_two::<T>(v, n, v);
            assert(set_of::<T>(b) =~= cs);
            assert(all_satisfy(b, w));
        },
        Comparison::NotEqual => {
            lemma_equal_w::<T>(v);
            lemma_not_w::<T>(comparison_set::<T>(Comparison::Equal, v));
            assert(universe::<T>() - comparison_set::<T>(Comparison::Equal, v) =~= cs);
        },
    }
}

proof fn lemma_atom_w<T: RangeExtremeText>(s: Seq<char>, i: int)
    requires
        0 <= i <= s.len(),
    ensures
        atom_at::<T>(s, i) matches Some((m, j)) ==> writable_set::<T>(m),
    decreases s.len() - i, 0nat,
{
    let p = ws_end(s, i);
    lemma_ws_end(s, i);
    match comparison_at(s, p) {
        Some((op, q)) => {
            lemma_ws_end(s, q);
            let q2 = ws_end(s, q);
            T::lemma_read_writable(s, q2);
            if let Some((v, j)) = T::value_at(s, q2) {
                lemma_cmp_w::<T>(op, v);
            }
        },
        None => {
            if at(s, p, '-') {
                let b = Seq::<T::V>::empty();
                assert(set_of::<T>(b) =~= Set::<T::V>::empty());
                assert(sorted::<T>(b) && all_satisfy(b, writable_pred::<T>()));
            } else if at(s, p, '*') {
                T::lemma_writable(T::lowest());
                lemma_total_order::<T>();
                let b = seq![T::lowest()];
                assert forall|x: T::V| #[trigger] set_of::<T>(b).contains(x) == universe::<T>().contains(x) by {
                    if T::valid(x) {
                        lemma_one::<T>(T::lowest(), x);
                    }
                }
                lemma_one::<T>(T::lowest(), T::lowest());
                assert(set_of::<T>(b) =~= universe::<T>());
                assert(all_satisfy(b, writable_pred::<T>()));
            } else if at(s, p, '(') && i <= p {
                lemma_or_at_w::<T>(s, p + 1);
            }
        },
    }
}

proof fn lemma_neg_w<T: RangeExtremeText>(s: Seq<char>, i: int)
    requires
        0 <= i <= s.len(),
    ensures
        neg_at::<T>(s, i) matches Some((m, j)) ==> writable_set::<T>(m),
    decreases s.len() - i, 1nat,
{
    let p = ws_end(s, i);
    lemma_ws_end(s, i);
    if at(s, p, '!') && !at(s, p + 1, '=') && i <= p {
        lemma_neg_w::<T>(s, p + 1);
        if let Some((m, j)) = neg_at::<T>(s, p + 1) {
            lemma_not_w::<T>(m);
        }
    } else {
        lemma_atom_w::<T>(s, i);
    }
}

proof fn lemma_and_tail_w<T: RangeExtremeText>(s: Seq<char>, i: int, acc: Set<T::V>)
    requires
        0 <= i <= s.len(),
        writable_set::<T>(acc),
    ensures
        and_tail::<T>(s, i, acc) matches Some((m, j)) ==> writable_set::<T>(m),
    decreases s.len() - i, 2nat,
{
    let p = ws_end(s, i);
    lemma_ws_end(s, i);
    if at(s, p, '&') && at(s, p + 1, '&') && i <= p {
        lemma_neg_w::<T>(s, p + 2);
        if let Some((m, j)) = neg_at::<T>(s, p + 2) {
            if i < j <= s.len() {
                lemma_and_w::<T>(acc, m);
                lemma_and_tail_w::<T>(s, j, acc * m);
            }
        }
    }
}

proof fn lemma_and_at_w<T: RangeExtremeText>(s: Seq<char>, i: int)
    requires
        0 <= i <= s.len(),
    ensures
        and_at::<T>(s, i) matches Some((m, j)) ==> writable_set::<T>(m),
    decreases s.len() - i, 3nat,
{
    lemma_neg_w::<T>(s, i);
    if let Some((m, j)) = neg_at::<T>(s, i) {
        if i <= j <= s.len() {
            lemma_and_tail_w::<T>(s, j, m);
        }
    }
}

proof fn lemma_or_tail_w<T: RangeExtremeText>(s: Seq<char>, i: int, acc: Set<T::V>)
    requires
        0 <= i <= s.len(),
        writable_set::<T>(acc),
    ensures
        or_tail::<T>(s, i, acc) matches Some((m, j)) ==> writable_set::<T>(m),
    decreases s.len() - i, 4nat,
{
    let p = ws_end(s, i);
    lemma_ws_end(s, i);
    if at(s, p, '|') && at(s, p + 1, '|') && i <= p {
        lemma_and_at_w::<T>(s, p + 2);
        if let Some((m, j)) = and_at::<T>(s, p + 2) {
            if i < j <= s.len() {
                lemma_or_w::<T>(acc, m);
                lemma_or_tail_w::<T>(s, j, acc + m);
            }
        }
    }
}

proof fn lemma_or_at_w<T: RangeExtremeText>(s: Seq<char>, i: int)
    requires
        0 <= i <= s.len(),
    ensures
        or_at::<T>(s, i) matches Some((m, j)) ==> writable_set::<T>(m),
    decreases s.len() - i, 5nat,
{
    lemma_and_at_w::<T>(s, i);
    if let Some((m, j)) = and_at::<T>(s, i) {
        if i <= j <= s.len() {
            lemma_or_tail_w::<T>(s, j, m);
        }
    }
}

/// Writing the range that an expression reads as, and reading that text,
/// gives the same range: the text reads as the same set of values, and the
/// only range holding that set is the one written. So for
/// `r` read from an expression, `Range::from_str(&r.display())` is `Ok` of
/// a range equal to `r`.
pub proof fn lemma_round_trip<T: RangeExtremeText>(s: Seq<char>, b: Seq<T::V>)
    requires
        sorted::<T>(b),
        ranges_of::<T>(s) == Some(set_of::<T>(b)),
    ensures
        ranges_of::<T>(range_text::<T>(b)) == Some(set_of::<T>(b)),
        forall|c: Seq<T::V>|
            sorted::<T>(c) && ranges_of::<T>(range_text::<T>(b)) == Some(
                #[trigger] set_of::<T>(c),
            ) ==> c == b,
{
    assert forall|c: Seq<T::V>|
        sorted::<T>(c) && ranges_of::<T>(range_text::<T>(b)) == Some(
            #[trigger] set_of::<T>(c),
        ) implies c == b by {
        lemma_round_trip_set::<T>(s, b);
        lemma_canonical::<T>(c, b);
    }
    lemma_round_trip_set::<T>(s, b);
}

/// The set part of the round trip.
proof fn lemma_round_trip_set<T: RangeExtremeText>(s: Seq<char>, b: Seq<T::V>)
    requires
        sorted::<T>(b),
        ranges_of::<T>(s) == Some(set_of::<T>(b)),
    ensures
        ranges_of::<T>(range_text::<T>(b)) == Some(set_of::<T>(b)),
{
    lemma_or_at_w::<T>(s, 0);
    let c = choose|c: Seq<T::V>| sorted::<T>(c) && set_of::<T>(c) == set_of::<T>(b) && all_satisfy(c, writable_pred::<T>());
    lemma_canonical::<T>(c, b);
    assert(writable_boundaries::<T>(b)) by {
        assert forall|k: int| 0 <= k < b.len() implies T::writable(#[trigger] b[k]) by {
            assert((writable_pred::<T>())(c[k]));
        }
    }
    lemma_text_reads_back::<T>(b);
}

} // verus!
