//! Reading ASCII text: characters, runs of digits or identifier characters,
//! and decimal numbers.

use vstd::prelude::*;
use vstd::string::*;
use crate::version::prerelease::{is_digit, is_ident_char};

verus! {

/// The end of the run of digits that starts at `i`.
pub open spec fn digits_end(s: Seq<char>, i: int) -> int
    decreases s.len() - i,
{
    if 0 <= i < s.len() && is_digit(s[i]) {
        digits_end(s, i + 1)
    } else {
        i
    }
}

/// The end of the run of identifier characters that starts at `i`.
pub open spec fn ident_end(s: Seq<char>, i: int) -> int
    decreases s.len() - i,
{
    if 0 <= i < s.len() && is_ident_char(s[i]) {
        ident_end(s, i + 1)
    } else {
        i
    }
}

/// The first position in `from..to` that holds `c`, or `to`.
pub open spec fn find(s: Seq<char>, c: char, from: int, to: int) -> int
    decreases to - from,
{
    if from < to && s[from] != c {
        find(s, c, from + 1, to)
    } else {
        from
    }
}

/// Bounds of `find`.
pub proof fn lemma_find(s: Seq<char>, c: char, from: int, to: int)
    requires
        from <= to,
    ensures
        from <= find(s, c, from, to) <= to,
        find(s, c, from, to) < to ==> s[find(s, c, from, to)] == c,
        forall|k: int| from <= k < find(s, c, from, to) ==> s[k] != c,
    decreases to - from,
{
    if from < to && s[from] != c {
        lemma_find(s, c, from + 1, to);
    }
}

/// Finds `c` in `from..to`.
pub fn find_char(s: &str, c: char, from: usize, to: usize) -> (r: usize)
    requires
        from <= to <= s@.len(),
    ensures
        r == find(s@, c, from as int, to as int),
        from <= r <= to,
{
    let mut k = from;
    while k < to && s.get_char(k) != c
        invariant
            from <= k <= to <= s@.len(),
            find(s@, c, from as int, to as int) == find(s@, c, k as int, to as int),
        decreases to - k,
    {
        k = k + 1;
    }
    k
}

/// Whether `s[from..to]` is digits without a leading zero.
pub open spec fn number_text(t: Seq<char>) -> bool {
    t.len() > 0 && (forall|k: int| 0 <= k < t.len() ==> is_digit(#[trigger] t[k])) && (t.len() == 1
        || t[0] != '0')
}

/// Checks `s[from..to]` as a number: `None` when it is not digits without a
/// leading zero, else its value when it fits in 64 bits.
pub fn read_number_text(s: &str, from: usize, to: usize) -> (r: Option<Option<u64>>)
    requires
        from <= to <= s@.len(),
    ensures
        r is None <==> !number_text(s@.subrange(from as int, to as int)),
        r matches Some(o) ==> (o is None <==> decimal_value(s@.subrange(from as int, to as int)) > u64::MAX),
        r matches Some(Some(v)) ==> v as nat == decimal_value(s@.subrange(from as int, to as int)),
{
    let ghost t = s@.subrange(from as int, to as int);
    if from == to {
        return None;
    }
    let mut k = from;
    while k < to
        invariant
            from <= k <= to <= s@.len(),
            t == s@.subrange(from as int, to as int),
            forall|q: int| from <= q < k ==> is_digit(#[trigger] s@[q]),
        decreases to - k,
    {
        if !is_digit_char(s.get_char(k)) {
            proof {
                assert(!is_digit(t[k - from]));
            }
            return None;
        }
        k = k + 1;
    }
    proof {
        assert forall|q: int| 0 <= q < t.len() implies is_digit(#[trigger] t[q]) by {
            assert(t[q] == s@[from + q]);
        }
    }
    if to - from > 1 && s.get_char(from) == '0' {
        return None;
    }
    Some(parse_decimal(s, from, to))
}

/// The value of a digit.
pub open spec fn digit_value(c: char) -> nat {
    (c as u32 - '0' as u32) as nat
}

/// The value of a string of decimal digits.
pub open spec fn decimal_value(s: Seq<char>) -> nat
    decreases s.len(),
{
    if s.len() == 0 {
        0
    } else {
        decimal_value(s.drop_last()) * 10 + digit_value(s.last())
    }
}

/// The digit for a value below ten.
pub open spec fn digit_char(d: nat) -> char {
    seq!['0', '1', '2', '3', '4', '5', '6', '7', '8', '9'][d as int]
}

/// The decimal text of a number, without leading zeros.
pub open spec fn decimal(n: nat) -> Seq<char>
    decreases n,
{
    if n < 10 {
        seq![digit_char(n)]
    } else {
        decimal(n / 10).push(digit_char(n % 10))
    }
}

/// The digit of a value below ten has that value.
pub proof fn lemma_digit(d: nat)
    requires
        d < 10,
    ensures
        is_digit(digit_char(d)),
        digit_value(digit_char(d)) == d,
        d != 0 ==> digit_char(d) != '0',
{
    let t = seq!['0', '1', '2', '3', '4', '5', '6', '7', '8', '9'];
    assert(t[0] == '0' && t[1] == '1' && t[2] == '2' && t[3] == '3' && t[4] == '4');
    assert(t[5] == '5' && t[6] == '6' && t[7] == '7' && t[8] == '8' && t[9] == '9');
}

/// The decimal text of a number is digits, has no leading zero, and reads
/// back as the number.
pub proof fn lemma_decimal(n: nat)
    ensures
        decimal(n).len() > 0,
        forall|k: int| 0 <= k < decimal(n).len() ==> is_digit(#[trigger] decimal(n)[k]),
        decimal(n).len() == 1 || decimal(n)[0] != '0',
        n != 0 ==> decimal(n)[0] != '0',
        decimal_value(decimal(n)) == n,
    decreases n,
{
    if n < 10 {
        lemma_digit(n);
        assert(seq![digit_char(n)].drop_last() =~= Seq::<char>::empty());
        assert(decimal_value(Seq::<char>::empty()) == 0);
    } else {
        lemma_decimal(n / 10);
        lemma_digit(n % 10);
        let t = decimal(n / 10);
        assert(decimal(n) == t.push(digit_char(n % 10)));
        assert(t.push(digit_char(n % 10)).drop_last() =~= t);
        assert(decimal(n)[0] == t[0]);
        assert(decimal_value(decimal(n)) == decimal_value(t) * 10 + digit_value(digit_char(n % 10)));
        assert((n / 10) * 10 + n % 10 == n) by (nonlinear_arith);
    }
}

/// A run of digits ends where the digits stop.
pub proof fn lemma_digits_end_at(s: Seq<char>, i: int, j: int)
    requires
        0 <= i <= j <= s.len(),
        forall|k: int| i <= k < j ==> is_digit(#[trigger] s[k]),
        j == s.len() || !is_digit(s[j]),
    ensures
        digits_end(s, i) == j,
    decreases j - i,
{
    if i < j {
        lemma_digits_end_at(s, i + 1, j);
    }
}

/// A run of identifier characters ends where they stop.
pub proof fn lemma_ident_end_at(s: Seq<char>, i: int, j: int)
    requires
        0 <= i <= j <= s.len(),
        forall|k: int| i <= k < j ==> is_ident_char(#[trigger] s[k]),
        j == s.len() || !is_ident_char(s[j]),
    ensures
        ident_end(s, i) == j,
    decreases j - i,
{
    if i < j {
        lemma_ident_end_at(s, i + 1, j);
    }
}

/// The character at `i` of a text.
pub fn char_at(s: &str, i: usize) -> (c: char)
    requires
        i < s@.len(),
    ensures
        c == s@[i as int],
{
    s.get_char(i)
}

/// Runs of a class of characters end where the class stops.
pub proof fn lemma_run_end(s: Seq<char>, i: int)
    requires
        0 <= i <= s.len(),
    ensures
        i <= digits_end(s, i) <= s.len(),
        forall|k: int| i <= k < digits_end(s, i) ==> is_digit(#[trigger] s[k]),
        digits_end(s, i) < s.len() ==> !is_digit(s[digits_end(s, i)]),
        i <= ident_end(s, i) <= s.len(),
        forall|k: int| i <= k < ident_end(s, i) ==> is_ident_char(#[trigger] s[k]),
        ident_end(s, i) < s.len() ==> !is_ident_char(s[ident_end(s, i)]),
    decreases s.len() - i,
{
    if i < s.len() {
        lemma_run_end(s, i + 1);
    }
}

/// Where the run of digits from `i` ends.
pub fn scan_digits(s: &str, n: usize, i: usize) -> (r: usize)
    requires
        n == s@.len(),
        i <= n,
    ensures
        r == digits_end(s@, i as int),
{
    let mut j = i;
    while j < n && is_digit_char(char_at(s, j))
        invariant
            n == s@.len(),
            i <= j <= n,
            digits_end(s@, i as int) == digits_end(s@, j as int),
        decreases n - j,
    {
        j = j + 1;
    }
    j
}

/// Where the run of identifier characters from `i` ends.
pub fn scan_ident(s: &str, n: usize, i: usize) -> (r: usize)
    requires
        n == s@.len(),
        i <= n,
    ensures
        r == ident_end(s@, i as int),
{
    let mut j = i;
    while j < n && is_ident(char_at(s, j))
        invariant
            n == s@.len(),
            i <= j <= n,
            ident_end(s@, i as int) == ident_end(s@, j as int),
        decreases n - j,
    {
        j = j + 1;
    }
    j
}

/// Whether `c` is a decimal digit.
pub fn is_digit_char(c: char) -> (r: bool)
    ensures
        r == is_digit(c),
{
    '0' <= c && c <= '9'
}

/// Whether `c` is an identifier character.
pub fn is_ident(c: char) -> (r: bool)
    ensures
        r == is_ident_char(c),
{
    is_digit_char(c) || ('a' <= c && c <= 'z') || ('A' <= c && c <= 'Z') || c == '-'
}

/// The value of the digits from `i` to `j`, when it fits in 64 bits.
pub fn parse_decimal(s: &str, i: usize, j: usize) -> (r: Option<u64>)
    requires
        i <= j <= s@.len(),
        forall|k: int| i <= k < j ==> is_digit(#[trigger] s@[k]),
    ensures
        r matches Some(v) ==> v as nat == decimal_value(s@.subrange(i as int, j as int)),
        r is None <==> decimal_value(s@.subrange(i as int, j as int)) > u64::MAX,
{
    let mut acc: u64 = 0;
    let mut k = i;
    while k < j
        invariant
            i <= k <= j <= s@.len(),
            forall|q: int| i <= q < j ==> is_digit(#[trigger] s@[q]),
            acc as nat == decimal_value(s@.subrange(i as int, k as int)),
        decreases j - k,
    {
        let c = s.get_char(k);
        let d = (c as u32 - '0' as u32) as u64;
        proof {
            assert(is_digit(s@[k as int]));
            assert(s@.subrange(i as int, k + 1).drop_last() =~= s@.subrange(i as int, k as int));
            assert(s@.subrange(i as int, k + 1).last() == c);
        }
        if acc > (u64::MAX - d) / 10 {
            proof {
                assert(s@.subrange(i as int, k + 1) =~= s@.subrange(i as int, j as int).subrange(
                    0,
                    k + 1 - i,
                ));
                lemma_decimal_grows(s@.subrange(i as int, k + 1), s@.subrange(i as int, j as int));
                assert(acc * 10 + d > u64::MAX) by (nonlinear_arith)
                    requires
                        acc > (u64::MAX - d) / 10,
                        d <= 9,
                ;
            }
            return None;
        }
        acc = acc * 10 + d;
        k = k + 1;
    }
    Some(acc)
}

/// Appending digits never lowers the value.
proof fn lemma_decimal_grows(a: Seq<char>, b: Seq<char>)
    requires
        a.len() <= b.len(),
        a == b.subrange(0, a.len() as int),
    ensures
        decimal_value(a) <= decimal_value(b),
    decreases b.len(),
{
    if a.len() < b.len() {
        assert(b.drop_last().subrange(0, a.len() as int) =~= b.subrange(0, a.len() as int));
        lemma_decimal_grows(a, b.drop_last());
    } else {
        assert(a =~= b);
    }
}

/// The text of a digit.
fn digit_str(d: u128) -> (r: &'static str)
    requires
        d < 10,
    ensures
        r@ == seq![digit_char(d as nat)],
{
    proof {
        let t = seq!['0', '1', '2', '3', '4', '5', '6', '7', '8', '9'];
        assert(t[0] == '0' && t[1] == '1' && t[2] == '2' && t[3] == '3' && t[4] == '4');
        assert(t[5] == '5' && t[6] == '6' && t[7] == '7' && t[8] == '8' && t[9] == '9');
    }
    if d == 0 {
        proof { reveal_strlit("0"); }
        "0"
    } else if d == 1 {
        proof { reveal_strlit("1"); }
        "1"
    } else if d == 2 {
        proof { reveal_strlit("2"); }
        "2"
    } else if d == 3 {
        proof { reveal_strlit("3"); }
        "3"
    } else if d == 4 {
        proof { reveal_strlit("4"); }
        "4"
    } else if d == 5 {
        proof { reveal_strlit("5"); }
        "5"
    } else if d == 6 {
        proof { reveal_strlit("6"); }
        "6"
    } else if d == 7 {
        proof { reveal_strlit("7"); }
        "7"
    } else if d == 8 {
        proof { reveal_strlit("8"); }
        "8"
    } else {
        proof { reveal_strlit("9"); }
        "9"
    }
}

/// The decimal digits of a number, without sign or leading zeros.
pub fn write_decimal(n: u128) -> (r: String)
    ensures
        r@ == decimal(n as nat),
    decreases n,
{
    if n < 10 {
        String::from_str(digit_str(n))
    } else {
        let mut out = write_decimal(n / 10);
        out.append(digit_str(n % 10));
        proof {
            assert(decimal(n as nat) == decimal((n / 10) as nat).push(digit_char((n % 10) as nat)));
            assert(decimal((n / 10) as nat).push(digit_char((n % 10) as nat)) =~= decimal((n / 10) as nat)
                + seq![digit_char((n % 10) as nat)]);
        }
        out
    }
}

/// The text of a number: a `-` before the digits of a negative one.
pub open spec fn signed_text(v: int) -> Seq<char> {
    if v < 0 {
        seq!['-'] + decimal((-v) as nat)
    } else {
        decimal(v as nat)
    }
}

/// Writes a signed number.
pub fn write_signed(v: i128) -> (r: String)
    ensures
        r@ == signed_text(v as int),
{
    if v < 0 {
        let m: u128 = if v == i128::MIN {
            (i128::MAX as u128) + 1
        } else {
            (-v) as u128
        };
        let mut out = String::from_str("-");
        proof {
            reveal_strlit("-");
        }
        let digits = write_decimal(m);
        out.append(digits.as_str());
        out
    } else {
        write_decimal(v as u128)
    }
}

/// The decimal digits of a number.
pub(crate) fn decimal_text(n: u64) -> (r: String)
    ensures
        r@ == decimal(n as nat),
{
    write_decimal(n as u128)
}

/// Why a text is not a number of the expected type.
#[derive(Debug, Clone, PartialEq, Eq)]
pub enum InvalidNumber {
    /// No digit.
    Empty,
    /// The number lies outside the range of the type.
    TooLarge,
}

/// The number written at `i`: for a type whose values go below zero, an
/// optional `-`, then a run of digits; its value must lie in `lo..=hi`.
pub open spec fn int_at(s: Seq<char>, i: int, lo: int, hi: int) -> Option<(int, int)> {
    let neg = lo < 0 && 0 <= i < s.len() && s[i] == '-';
    let d = if neg { i + 1 } else { i };
    let j = digits_end(s, d);
    let v = decimal_value(s.subrange(d, j));
    if d < j && (if neg { v <= -lo } else { v <= hi }) {
        Some((if neg { -v } else { v as int }, j))
    } else {
        None
    }
}

/// The text of a number in range, followed by a non-digit or the end, reads
/// back as that number.
pub proof fn lemma_int_read_back(s: Seq<char>, i: int, v: int, lo: int, hi: int)
    requires
        lo <= v <= hi,
        lo <= 0,
        0 <= i,
        i + signed_text(v).len() <= s.len(),
        s.subrange(i, i + signed_text(v).len()) == signed_text(v),
        i + signed_text(v).len() == s.len() || !is_digit(s[i + signed_text(v).len()]),
    ensures
        int_at(s, i, lo, hi) == Some((v, i + signed_text(v).len())),
{
    let w = signed_text(v);
    let e = i + w.len();
    assert forall|k: int| i <= k < e implies #[trigger] s[k] == w[k - i] by {
        assert(s[k] == s.subrange(i, e)[k - i]);
    }
    if v < 0 {
        let d = decimal((-v) as nat);
        lemma_decimal((-v) as nat);
        assert(s[i] == '-');
        assert forall|k: int| i + 1 <= k < e implies is_digit(#[trigger] s[k]) by {
            assert(s[k] == d[k - i - 1]);
        }
        lemma_digits_end_at(s, i + 1, e);
        assert(s.subrange(i + 1, e) =~= d);
    } else {
        let d = decimal(v as nat);
        lemma_decimal(v as nat);
        assert(s[i] == d[0]);
        assert forall|k: int| i <= k < e implies is_digit(#[trigger] s[k]) by {
            assert(s[k] == d[k - i]);
        }
        lemma_digits_end_at(s, i, e);
        assert(s.subrange(i, e) =~= d);
    }
}

/// What reading a number at `i` reports when it fails.
pub open spec fn int_error(s: Seq<char>, i: int, lo: int, e: InvalidNumber) -> bool {
    let neg = lo < 0 && 0 <= i < s.len() && s[i] == '-';
    let d = if neg { i + 1 } else { i };
    if digits_end(s, d) == d {
        e == InvalidNumber::Empty
    } else {
        e == InvalidNumber::TooLarge
    }
}

/// The value of digits from `i` to `j`, when it is at most `bound`.
fn parse_bounded(s: &str, i: usize, j: usize, bound: u128) -> (r: Option<u128>)
    requires
        i <= j <= s@.len(),
        forall|k: int| i <= k < j ==> is_digit(#[trigger] s@[k]),
        bound >= 9,
    ensures
        r matches Some(v) ==> v as nat == decimal_value(s@.subrange(i as int, j as int)),
        r is None <==> decimal_value(s@.subrange(i as int, j as int)) > bound,
{
    let mut acc: u128 = 0;
    let mut k = i;
    while k < j
        invariant
            i <= k <= j <= s@.len(),
            forall|q: int| i <= q < j ==> is_digit(#[trigger] s@[q]),
            acc as nat == decimal_value(s@.subrange(i as int, k as int)),
            acc <= bound,
            bound >= 9,
        decreases j - k,
    {
        let c = s.get_char(k);
        let d = (c as u32 - '0' as u32) as u128;
        proof {
            assert(is_digit(s@[k as int]));
            assert(s@.subrange(i as int, k + 1).drop_last() =~= s@.subrange(i as int, k as int));
            assert(s@.subrange(i as int, k + 1).last() == c);
        }
        if acc > (bound - d) / 10 {
            proof {
                assert(s@.subrange(i as int, k + 1) =~= s@.subrange(i as int, j as int).subrange(
                    0,
                    k + 1 - i,
                ));
                lemma_decimal_grows(s@.subrange(i as int, k + 1), s@.subrange(i as int, j as int));
                assert(acc * 10 + d > bound) by (nonlinear_arith)
                    requires
                        acc > (bound - d) / 10,
                        d <= 9,
                ;
            }
            return None;
        }
        proof {
            assert(acc * 10 + d <= bound) by (nonlinear_arith)
                requires
                    acc <= (bound - d) / 10,
                    d <= 9,
                    bound >= 9,
            ;
        }
        acc = acc * 10 + d;
        k = k + 1;
    }
    proof {
        assert(s@.subrange(i as int, k as int) == s@.subrange(i as int, j as int));
    }
    Some(acc)
}

/// Reads a number at `i`: whether it is negative, its magnitude and where it
/// ends. `min_mag` is the magnitude of the least value, zero when the type
/// has no negative values.
pub fn read_int(s: &str, i: usize, min_mag: u128, max: u128) -> (r: Result<(bool, u128, usize), InvalidNumber>)
    requires
        i <= s@.len(),
        max >= 9,
        min_mag == 0 || min_mag >= 9,
    ensures
        r is Ok <==> int_at(s@, i as int, -(min_mag as int), max as int) is Some,
        r matches Ok((neg, m, j)) ==> int_at(s@, i as int, -(min_mag as int), max as int) == Some(
            (if neg { -(m as int) } else { m as int }, j as int),
        ) && (neg ==> m <= min_mag) && (!neg ==> m <= max),
        r matches Err(e) ==> int_error(s@, i as int, -(min_mag as int), e),
{
    let n = s.unicode_len();
    let neg = min_mag > 0 && i < n && s.get_char(i) == '-';
    let d = if neg { i + 1 } else { i };
    let j = scan_digits(s, n, d);
    proof {
        lemma_run_end(s@, d as int);
    }
    if j == d {
        return Err(InvalidNumber::Empty);
    }
    let bound = if neg { min_mag } else { max };
    match parse_bounded(s, d, j, bound) {
        Some(m) => Ok((neg, m, j)),
        None => Err(InvalidNumber::TooLarge),
    }
}

} // verus!
