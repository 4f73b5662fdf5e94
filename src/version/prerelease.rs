//! Prerelease identifiers.

use vstd::prelude::*;
use vstd::string::*;
use std::cmp::Ordering;
use crate::order::{Token, chars_less, token_less, lemma_chars_skip, lemma_chars_irreflexive};

verus! {

/// A decimal digit.
pub open spec fn is_digit(c: char) -> bool {
    '0' <= c <= '9'
}

/// A character allowed in an identifier: ASCII alphanumeric or a hyphen.
pub open spec fn is_ident_char(c: char) -> bool {
    is_digit(c) || ('a' <= c <= 'z') || ('A' <= c <= 'Z') || c == '-'
}

/// Only decimal digits.
pub open spec fn all_digits(s: Seq<char>) -> bool {
    forall|i: int| 0 <= i < s.len() ==> is_digit(#[trigger] s[i])
}

/// Only identifier characters.
pub open spec fn all_ident(s: Seq<char>) -> bool {
    forall|i: int| 0 <= i < s.len() ==> is_ident_char(#[trigger] s[i])
}

/// The identifier that a well-formed text denotes.
pub open spec fn token_of(s: Seq<char>) -> Token {
    (all_digits(s), s)
}

/// A well-formed identifier: non-empty identifier characters; a numeric one
/// is all digits without a leading zero, an alphanumeric one has a non-digit.
pub open spec fn token_valid(t: Token) -> bool {
    &&& t.1.len() > 0
    &&& all_ident(t.1)
    &&& t.0 == all_digits(t.1)
    &&& (t.0 ==> t.1.len() == 1 || t.1[0] != '0')
}

/// The least identifier, numeric zero.
pub open spec fn token_zero() -> Token {
    (true, seq!['0'])
}

/// Position of the first character that is not an identifier character.
pub open spec fn first_bad(s: Seq<char>, k: int) -> bool {
    0 <= k < s.len() && !is_ident_char(s[k]) && forall|i: int| 0 <= i < k ==> is_ident_char(
        #[trigger] s[i],
    )
}

/// What `Prerelease::parse` reports for a text that is not an identifier.
pub open spec fn prerelease_error(s: Seq<char>, e: InvalidPrerelease) -> bool {
    match e {
        InvalidPrerelease::Empty => s.len() == 0,
        InvalidPrerelease::InvalidCharacters { id, ch } => id@ == s && s.len() > 0 && exists|k: int|
            first_bad(s, k) && s[k] == ch,
        InvalidPrerelease::LeadingZeros { id } => id@ == s && s.len() > 1 && all_ident(s) && all_digits(s)
            && s[0] == '0',
    }
}

/// No well-formed identifier precedes numeric zero.
pub proof fn lemma_zero_least(t: Token)
    requires
        token_valid(t),
    ensures
        !token_less(t, token_zero()),
{
    let z = seq!['0'];
    assert(z[0] == '0' && z.len() == 1);
    if t.0 {
        assert(is_digit(t.1[0]));
        if t.1.len() == 1 {
            assert(t.1.drop_first().len() == 0);
            assert(z.drop_first().len() == 0);
            assert(!chars_less(t.1.drop_first(), z.drop_first()));
        }
    }
}

/// A prerelease identifier.
#[derive(Debug, Clone, PartialEq, Eq, Hash)]
pub enum Prerelease {
    Numeric(NumericPrerelease),
    Alpha(AlphaPrerelease),
}

/// A numeric identifier, held as its decimal text without leading zeros, so
/// that it has no size limit.
#[derive(Debug, Clone, PartialEq, Eq, Hash)]
pub struct NumericPrerelease(String);

/// An alphanumeric identifier.
#[derive(Debug, Clone, PartialEq, Eq, Hash)]
pub struct AlphaPrerelease(String);

/// Why a text is not a prerelease identifier.
#[derive(Debug, Clone)]
pub enum InvalidPrerelease {
    Empty,
    LeadingZeros { id: String },
    InvalidCharacters { id: String, ch: char },
}

impl View for Prerelease {
    type V = Token;

    closed spec fn view(&self) -> Token {
        match self {
            Prerelease::Numeric(n) => (true, n.0@),
            Prerelease::Alpha(a) => (false, a.0@),
        }
    }
}

/// Three-way comparison of two texts.
fn compare_text(a: &str, b: &str) -> (r: Ordering)
    ensures
        (r == Ordering::Less) == chars_less(a@, b@),
        (r == Ordering::Equal) == (a@ == b@),
        (r == Ordering::Greater) == chars_less(b@, a@),
{
    let n = a.unicode_len();
    let m = b.unicode_len();
    let mut i: usize = 0;
    while i < n && i < m
        invariant
            n == a@.len(),
            m == b@.len(),
            0 <= i <= n,
            i <= m,
            a@.subrange(0, i as int) == b@.subrange(0, i as int),
        decreases n - i,
    {
        let x = a.get_char(i);
        let y = b.get_char(i);
        if x != y {
            proof {
                lemma_chars_skip(a@, b@, i as int);
                lemma_chars_skip(b@, a@, i as int);
                assert(a@.skip(i as int)[0] == x && b@.skip(i as int)[0] == y);
                assert(a@ != b@ ) by {
                    assert(a@[i as int] != b@[i as int]);
                }
            }
            if x < y {
                return Ordering::Less;
            } else {
                return Ordering::Greater;
            }
        }
        proof {
            assert(a@.subrange(0, i + 1) =~= a@.subrange(0, i as int).push(x));
            assert(b@.subrange(0, i + 1) =~= b@.subrange(0, i as int).push(y));
        }
        i = i + 1;
    }
    proof {
        lemma_chars_skip(a@, b@, i as int);
        lemma_chars_skip(b@, a@, i as int);
        assert(a@.skip(i as int).len() == 0 || b@.skip(i as int).len() == 0);
        if n == m {
            assert(a@ =~= a@.subrange(0, i as int));
            assert(b@ =~= b@.subrange(0, i as int));
        }
    }
    if n < m {
        Ordering::Less
    } else if n == m {
        Ordering::Equal
    } else {
        Ordering::Greater
    }
}

impl Prerelease {
    /// Numeric zero, the least identifier.
    pub fn zero() -> (r: Self)
        ensures
            r@ == token_zero(),
    {
        let s = String::from_str("0");
        proof {
            reveal_strlit("0");
            assert(s@ =~= seq!['0']);
        }
        Prerelease::Numeric(NumericPrerelease(s))
    }

    /// Whether the identifier is numeric.
    pub fn is_numeric(&self) -> (r: bool)
        ensures
            r == self@.0,
    {
        match self {
            Prerelease::Numeric(_) => true,
            Prerelease::Alpha(_) => false,
        }
    }

    /// The text of the identifier.
    pub fn text(&self) -> (r: &str)
        ensures
            r@ == self@.1,
    {
        match self {
            Prerelease::Numeric(n) => n.0.as_str(),
            Prerelease::Alpha(a) => a.0.as_str(),
        }
    }

    /// A copy of the identifier.
    pub fn duplicate(&self) -> (r: Self)
        ensures
            r@ == self@,
    {
        match self {
            Prerelease::Numeric(n) => Prerelease::Numeric(NumericPrerelease(n.0.clone())),
            Prerelease::Alpha(a) => Prerelease::Alpha(AlphaPrerelease(a.0.clone())),
        }
    }

    /// Three-way comparison: numeric identifiers by value and before
    /// alphanumeric ones, which compare as strings.
    pub fn compare(&self, other: &Self) -> (r: Ordering)
        ensures
            (r == Ordering::Less) == token_less(self@, other@),
            (r == Ordering::Equal) == (self@ == other@),
            (r == Ordering::Greater) == token_less(other@, self@),
    {
        proof {
            lemma_chars_irreflexive(self@.1);
        }
        match (self, other) {
            (Prerelease::Numeric(a), Prerelease::Numeric(b)) => {
                let n = a.0.as_str().unicode_len();
                let m = b.0.as_str().unicode_len();
                if n < m {
                    Ordering::Less
                } else if n > m {
                    Ordering::Greater
                } else {
                    compare_text(a.0.as_str(), b.0.as_str())
                }
            },
            (Prerelease::Numeric(_), Prerelease::Alpha(_)) => Ordering::Less,
            (Prerelease::Alpha(_), Prerelease::Numeric(_)) => Ordering::Greater,
            (Prerelease::Alpha(a), Prerelease::Alpha(b)) => compare_text(a.0.as_str(), b.0.as_str()),
        }
    }

    /// Reads an identifier: numeric when all digits (then without a leading
    /// zero), alphanumeric otherwise.
    pub fn parse(s: &str) -> (r: Result<Self, InvalidPrerelease>)
        ensures
            r is Ok <==> token_valid(token_of(s@)),
            r matches Ok(p) ==> p@ == token_of(s@),
            r matches Err(InvalidPrerelease::Empty) <==> s@.len() == 0,
            r matches Err(InvalidPrerelease::InvalidCharacters { id, ch }) <==> (s@.len() > 0
                && !all_ident(s@)),
            r matches Err(InvalidPrerelease::InvalidCharacters { id, ch }) ==> id@ == s@
                && exists|k: int| first_bad(s@, k) && s@[k] == ch,
            r matches Err(InvalidPrerelease::LeadingZeros { id }) <==> (s@.len() > 1 && all_digits(
                s@,
            ) && s@[0] == '0'),
            r matches Err(InvalidPrerelease::LeadingZeros { id }) ==> id@ == s@,
            r matches Err(e) ==> prerelease_error(s@, e),
    {
        let n = s.unicode_len();
        if n == 0 {
            return Err(InvalidPrerelease::Empty);
        }
        let mut i: usize = 0;
        let mut digits = true;
        while i < n
            invariant
                n == s@.len(),
                0 <= i <= n,
                forall|k: int| 0 <= k < i ==> is_ident_char(#[trigger] s@[k]),
                digits == (forall|k: int| 0 <= k < i ==> is_digit(#[trigger] s@[k])),
            decreases n - i,
        {
            let c = s.get_char(i);
            let digit = '0' <= c && c <= '9';
            let ident = digit || ('a' <= c && c <= 'z') || ('A' <= c && c <= 'Z') || c == '-';
            if !ident {
                proof {
                    assert(first_bad(s@, i as int));
                }
                return Err(InvalidPrerelease::InvalidCharacters { id: s.to_owned(), ch: c });
            }
            digits = digits && digit;
            i = i + 1;
        }
        if digits {
            if n > 1 && s.get_char(0) == '0' {
                Err(InvalidPrerelease::LeadingZeros { id: s.to_owned() })
            } else {
                Ok(Prerelease::Numeric(NumericPrerelease(s.to_owned())))
            }
        } else {
            Ok(Prerelease::Alpha(AlphaPrerelease(s.to_owned())))
        }
    }
}

} // verus!
