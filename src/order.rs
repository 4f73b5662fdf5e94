//! Lexicographic orders on character strings and on lists of prerelease
//! identifiers, with their order laws.

use vstd::prelude::*;

verus! {

/// A prerelease identifier as a plain value: whether it is numeric, and its text.
pub type Token = (bool, Seq<char>);

/// Strict lexicographic order on strings; a strict prefix comes first.
pub open spec fn chars_less(a: Seq<char>, b: Seq<char>) -> bool
    decreases a.len(),
{
    if a.len() == 0 {
        b.len() > 0
    } else if b.len() == 0 {
        false
    } else if a[0] != b[0] {
        a[0] < b[0]
    } else {
        chars_less(a.drop_first(), b.drop_first())
    }
}

/// Numeric identifiers compare as numbers (their text has no leading zero,
/// so a shorter one is smaller), come before alphanumeric ones, and those
/// compare as strings.
pub open spec fn token_less(a: Token, b: Token) -> bool {
    if a.0 && b.0 {
        a.1.len() < b.1.len() || (a.1.len() == b.1.len() && chars_less(a.1, b.1))
    } else if a.0 != b.0 {
        a.0
    } else {
        chars_less(a.1, b.1)
    }
}

/// Strict lexicographic order on identifier lists; a strict prefix comes first.
pub open spec fn list_less(a: Seq<Token>, b: Seq<Token>) -> bool
    decreases a.len(),
{
    if a.len() == 0 {
        b.len() > 0
    } else if b.len() == 0 {
        false
    } else if a[0] != b[0] {
        token_less(a[0], b[0])
    } else {
        list_less(a.drop_first(), b.drop_first())
    }
}

/// No string precedes itself.
pub proof fn lemma_chars_irreflexive(a: Seq<char>)
    ensures
        !chars_less(a, a),
    decreases a.len(),
{
    if a.len() > 0 {
        lemma_chars_irreflexive(a.drop_first());
    }
}

/// The string order is transitive.
pub proof fn lemma_chars_transitive(a: Seq<char>, b: Seq<char>, c: Seq<char>)
    requires
        chars_less(a, b),
        chars_less(b, c),
    ensures
        chars_less(a, c),
    decreases a.len(),
{
    if a.len() > 0 && b.len() > 0 && c.len() > 0 && a[0] == b[0] && b[0] == c[0] {
        lemma_chars_transitive(a.drop_first(), b.drop_first(), c.drop_first());
    }
}

/// Any two strings are equal or ordered.
pub proof fn lemma_chars_total(a: Seq<char>, b: Seq<char>)
    ensures
        chars_less(a, b) || a == b || chars_less(b, a),
    decreases a.len(),
{
    if a.len() == 0 && b.len() == 0 {
        assert(a =~= b);
    } else if a.len() > 0 && b.len() > 0 && a[0] == b[0] {
        lemma_chars_total(a.drop_first(), b.drop_first());
        if a.drop_first() == b.drop_first() {
            assert(a =~= seq![a[0]] + a.drop_first());
            assert(b =~= seq![b[0]] + b.drop_first());
        }
    }
}

/// Past a common prefix, the order is decided by what follows it.
pub proof fn lemma_chars_skip(a: Seq<char>, b: Seq<char>, i: int)
    requires
        0 <= i <= a.len(),
        i <= b.len(),
        a.subrange(0, i) == b.subrange(0, i),
    ensures
        chars_less(a, b) == chars_less(a.skip(i), b.skip(i)),
    decreases i,
{
    if i > 0 {
        assert(a[0] == a.subrange(0, i)[0] && b[0] == b.subrange(0, i)[0]);
        assert(a.drop_first().subrange(0, i - 1) =~= a.subrange(0, i).drop_first());
        assert(b.drop_first().subrange(0, i - 1) =~= b.subrange(0, i).drop_first());
        lemma_chars_skip(a.drop_first(), b.drop_first(), i - 1);
        assert(a.drop_first().skip(i - 1) =~= a.skip(i));
        assert(b.drop_first().skip(i - 1) =~= b.skip(i));
    } else {
        assert(a.skip(0) =~= a);
        assert(b.skip(0) =~= b);
    }
}

/// The identifier order is a strict total order.
pub proof fn lemma_token_order(a: Token, b: Token, c: Token)
    ensures
        !token_less(a, a),
        token_less(a, b) && token_less(b, c) ==> token_less(a, c),
        token_less(a, b) || a == b || token_less(b, a),
{
    lemma_chars_irreflexive(a.1);
    if token_less(a, b) && token_less(b, c) {
        if chars_less(a.1, b.1) && chars_less(b.1, c.1) {
            lemma_chars_transitive(a.1, b.1, c.1);
        }
    }
    lemma_chars_total(a.1, b.1);
}

/// No list precedes itself.
pub proof fn lemma_list_irreflexive(a: Seq<Token>)
    ensures
        !list_less(a, a),
    decreases a.len(),
{
    if a.len() > 0 {
        lemma_list_irreflexive(a.drop_first());
    }
}

/// The list order is transitive.
pub proof fn lemma_list_transitive(a: Seq<Token>, b: Seq<Token>, c: Seq<Token>)
    requires
        list_less(a, b),
        list_less(b, c),
    ensures
        list_less(a, c),
    decreases a.len(),
{
    if a.len() > 0 && b.len() > 0 && c.len() > 0 {
        lemma_token_order(a[0], b[0], c[0]);
        lemma_token_order(b[0], c[0], a[0]);
        lemma_token_order(a[0], c[0], b[0]);
        if a[0] == b[0] && b[0] == c[0] {
            lemma_list_transitive(a.drop_first(), b.drop_first(), c.drop_first());
        }
    }
}

/// Any two lists are equal or ordered.
pub proof fn lemma_list_total(a: Seq<Token>, b: Seq<Token>)
    ensures
        list_less(a, b) || a == b || list_less(b, a),
    decreases a.len(),
{
    if a.len() == 0 && b.len() == 0 {
        assert(a =~= b);
    } else if a.len() > 0 && b.len() > 0 {
        lemma_token_order(a[0], b[0], b[0]);
        if a[0] == b[0] {
            lemma_list_total(a.drop_first(), b.drop_first());
            if a.drop_first() == b.drop_first() {
                assert(a =~= seq![a[0]] + a.drop_first());
                assert(b =~= seq![b[0]] + b.drop_first());
            }
        }
    }
}

/// Past a common prefix, the order is decided by what follows it.
pub proof fn lemma_list_skip(a: Seq<Token>, b: Seq<Token>, i: int)
    requires
        0 <= i <= a.len(),
        i <= b.len(),
        a.subrange(0, i) == b.subrange(0, i),
    ensures
        list_less(a, b) == list_less(a.skip(i), b.skip(i)),
    decreases i,
{
    if i > 0 {
        assert(a[0] == a.subrange(0, i)[0] && b[0] == b.subrange(0, i)[0]);
        assert(a.drop_first().subrange(0, i - 1) =~= a.subrange(0, i).drop_first());
        assert(b.drop_first().subrange(0, i - 1) =~= b.subrange(0, i).drop_first());
        lemma_list_skip(a.drop_first(), b.drop_first(), i - 1);
        assert(a.drop_first().skip(i - 1) =~= a.skip(i));
        assert(b.drop_first().skip(i - 1) =~= b.skip(i));
    } else {
        assert(a.skip(0) =~= a);
        assert(b.skip(0) =~= b);
    }
}

/// A list is followed immediately by itself extended with an identifier
/// that no identifier of `valid` precedes.
pub proof fn lemma_list_extend(a: Seq<Token>, x: Seq<Token>, z: Token)
    requires
        forall|i: int| 0 <= i < x.len() ==> !token_less(#[trigger] x[i], z),
    ensures
        list_less(a, a.push(z)),
        !(list_less(a, x) && list_less(x, a.push(z))),
    decreases a.len(),
{
    if a.len() == 0 {
        assert(a.push(z) =~= seq![z]);
        if x.len() > 0 {
            assert(!token_less(x[0], z));
            assert(seq![z].drop_first() =~= Seq::<Token>::empty());
            assert(!list_less(x.drop_first(), Seq::<Token>::empty()));
        }
    } else {
        assert(a.push(z)[0] == a[0]);
        assert(a.push(z).drop_first() =~= a.drop_first().push(z));
        if x.len() > 0 && x[0] == a[0] {
            assert forall|i: int| 0 <= i < x.drop_first().len() implies !token_less(
                #[trigger] x.drop_first()[i],
                z,
            ) by {
                assert(x.drop_first()[i] == x[i + 1]);
            }
            lemma_list_extend(a.drop_first(), x.drop_first(), z);
        } else {
            lemma_list_extend(a.drop_first(), x, z);
            lemma_token_order(a[0], x[0], a[0]);
        }
    }
}

} // verus!
