//! Semantic versions without build metadata, ordered as semantic versioning
//! orders them, with a successor that makes "exactly this version" the
//! half-open interval from it to its successor.

use vstd::prelude::*;
use std::cmp::Ordering;
use crate::boundaries::{views, lemma_views_index, lemma_views_len};
use crate::extreme::{RangeExtreme, RangeExtremeDisplay, RangeExtremeFromStr, RangeExtremeText};
use crate::text::{
    decimal, decimal_text, digits_end, ident_end, decimal_value, char_at, scan_digits, scan_ident,
    parse_decimal, lemma_run_end, lemma_decimal, lemma_digits_end_at, lemma_ident_end_at, find,
    find_char, lemma_find, number_text, read_number_text,
};
use vstd::string::*;
use crate::order::{
    Token, list_less, lemma_list_irreflexive, lemma_list_transitive, lemma_list_total,
    lemma_list_skip, lemma_list_extend,
};
use crate::version::prerelease::{
    Prerelease, InvalidPrerelease, token_valid, token_zero, token_of, lemma_zero_least, all_ident,
    all_digits, is_ident_char, is_digit, prerelease_error,
};

verus! {

broadcast use {lemma_views_index, lemma_views_len};

/// A version as plain values: major, minor, patch and prerelease identifiers.
pub type VersionModel = (u64, u64, u64, Seq<Token>);

/// A prerelease sorts before the release of the same numbers; two
/// prereleases compare by their identifier lists.
pub open spec fn pre_less(p: Seq<Token>, q: Seq<Token>) -> bool {
    if p.len() == 0 {
        false
    } else if q.len() == 0 {
        true
    } else {
        list_less(p, q)
    }
}

/// Major, then minor, then patch, then prerelease.
pub open spec fn version_less(a: VersionModel, b: VersionModel) -> bool {
    a.0 < b.0 || (a.0 == b.0 && (a.1 < b.1 || (a.1 == b.1 && (a.2 < b.2 || (a.2 == b.2
        && pre_less(a.3, b.3))))))
}

/// Well-formed identifiers, and a release never has the greatest patch
/// number unless it is the greatest version.
pub open spec fn version_valid(v: VersionModel) -> bool {
    &&& forall|i: int| 0 <= i < v.3.len() ==> token_valid(#[trigger] v.3[i])
    &&& (v.3.len() == 0 && v.2 == u64::MAX ==> v.0 == u64::MAX && v.1 == u64::MAX)
}

/// `0.0.0-0`.
pub open spec fn version_lowest() -> VersionModel {
    (0, 0, 0, seq![token_zero()])
}

/// The greatest release numbers.
pub open spec fn version_highest() -> VersionModel {
    (u64::MAX, u64::MAX, u64::MAX, Seq::empty())
}

/// A release moves to the next patch; then a zero identifier is appended.
pub open spec fn version_successor(v: VersionModel) -> VersionModel {
    (v.0, v.1, if v.3.len() == 0 { (v.2 + 1) as u64 } else { v.2 }, v.3.push(token_zero()))
}

/// Ends in a zero identifier, and is not a first prerelease of patch zero.
pub open spec fn version_has_previous(v: VersionModel) -> bool {
    v.3.len() > 0 && v.3.last() == token_zero() && (v.3.len() == 1 ==> v.2 != 0)
}

/// Undoes the successor.
pub open spec fn version_previous(v: VersionModel) -> VersionModel {
    (v.0, v.1, if v.3.len() == 1 { (v.2 - 1) as u64 } else { v.2 }, v.3.drop_last())
}

/// Identifiers joined by dots.
pub open spec fn join_tokens(p: Seq<Token>) -> Seq<char>
    decreases p.len(),
{
    if p.len() == 0 {
        Seq::empty()
    } else if p.len() == 1 {
        p[0].1
    } else {
        join_tokens(p.drop_last()) + seq!['.'] + p.last().1
    }
}

/// `MAJOR.MINOR.PATCH`, then `-` and the dot-separated identifiers if any.
pub open spec fn version_text(v: VersionModel) -> Seq<char> {
    decimal(v.0 as nat) + seq!['.'] + decimal(v.1 as nat) + seq!['.'] + decimal(v.2 as nat) + if v.3.len()
        > 0 {
        seq!['-'] + join_tokens(v.3)
    } else {
        Seq::empty()
    }
}

/// Writes a version made of the given numbers and the first `count` identifiers of `pre`.
fn render_parts(major: u64, minor: u64, patch: u64, pre: &Vec<Prerelease>, count: usize) -> (r:
    String)
    requires
        count <= pre@.len(),
    ensures
        r@ == version_text((major, minor, patch, views(pre@).take(count as int))),
{
    let mut out = decimal_text(major);
    let dot = ".";
    let dash = "-";
    proof {
        reveal_strlit(".");
        reveal_strlit("-");
    }
    out.append(dot);
    let m = decimal_text(minor);
    out.append(m.as_str());
    out.append(dot);
    let p = decimal_text(patch);
    out.append(p.as_str());
    let ghost head = out@;
    if count > 0 {
        out.append(dash);
        let mut i: usize = 0;
        while i < count
            invariant
                count <= pre@.len(),
                0 <= i <= count,
                out@ == head + seq!['-'] + join_tokens(views(pre@).take(i as int)),
                dot@ == seq!['.'],
            decreases count - i,
        {
            if i > 0 {
                out.append(dot);
            }
            out.append(pre[i].text());
            proof {
                let t = views(pre@).take(i + 1);
                assert(t.drop_last() =~= views(pre@).take(i as int));
                if i == 0 {
                    assert(views(pre@).take(0) =~= Seq::<Token>::empty());
                }
            }
            i = i + 1;
        }
    } else {
        proof {
            assert(out@ =~= head + Seq::<char>::empty());
        }
    }
    out
}

proof fn lemma_pre_order(p: Seq<Token>, q: Seq<Token>, r: Seq<Token>)
    ensures
        !pre_less(p, p),
        pre_less(p, q) && pre_less(q, r) ==> pre_less(p, r),
        pre_less(p, q) || p == q || pre_less(q, p),
{
    lemma_list_irreflexive(p);
    if pre_less(p, q) && pre_less(q, r) && r.len() > 0 {
        lemma_list_transitive(p, q, r);
    }
    if p.len() == 0 && q.len() == 0 {
        assert(p =~= q);
    }
    lemma_list_total(p, q);
}

/// No list of well-formed identifiers precedes the zero identifier alone.
proof fn lemma_not_below_zero(x: Seq<Token>)
    requires
        x.len() > 0,
        forall|i: int| 0 <= i < x.len() ==> token_valid(#[trigger] x[i]),
    ensures
        !list_less(x, seq![token_zero()]),
{
    assert forall|i: int| 0 <= i < x.len() implies !crate::order::token_less(#[trigger] x[i], token_zero()) by {
        lemma_zero_least(x[i]);
    }
    lemma_list_extend(Seq::empty(), x, token_zero());
    assert(Seq::<Token>::empty().push(token_zero()) =~= seq![token_zero()]);
}

proof fn lemma_zero_valid()
    ensures
        token_valid(token_zero()),
{
    let z = seq!['0'];
    assert(z[0] == '0');
    assert(all_ident(z));
    assert(all_digits(z));
}

/// The number written at `i`: digits without a leading zero, within 64 bits.
pub open spec fn number_at(s: Seq<char>, i: int) -> Option<(u64, int)> {
    let j = digits_end(s, i);
    if i < j && (j == i + 1 || s[i] != '0') && decimal_value(s.subrange(i, j)) <= u64::MAX {
        Some((decimal_value(s.subrange(i, j)) as u64, j))
    } else {
        None
    }
}

/// Prepends identifiers to what a reading found.
pub open spec fn prepend(p: Seq<Token>, o: Option<(Seq<Token>, int)>) -> Option<(Seq<Token>, int)> {
    match o {
        Some((rest, e)) => Some((p + rest, e)),
        None => None,
    }
}

/// The dot-separated identifiers written at `i`.
pub open spec fn tokens_at(s: Seq<char>, i: int) -> Option<(Seq<Token>, int)>
    decreases s.len() - i,
{
    let j = ident_end(s, i);
    if 0 <= i < j <= s.len() && token_valid(token_of(s.subrange(i, j))) {
        if j < s.len() && s[j] == '.' {
            prepend(seq![token_of(s.subrange(i, j))], tokens_at(s, j + 1))
        } else {
            Some((seq![token_of(s.subrange(i, j))], j))
        }
    } else {
        None
    }
}

/// The version written at `i`: `MAJOR.MINOR.PATCH`, then optionally `-` and
/// identifiers; a release with the greatest patch number is refused.
pub open spec fn version_at(s: Seq<char>, i: int) -> Option<(VersionModel, int)> {
    match number_at(s, i) {
        None => None,
        Some((major, j1)) => if !(j1 < s.len() && s[j1] == '.') {
            None
        } else {
            match number_at(s, j1 + 1) {
                None => None,
                Some((minor, j2)) => if !(j2 < s.len() && s[j2] == '.') {
                    None
                } else {
                    match number_at(s, j2 + 1) {
                        None => None,
                        Some((patch, j3)) => if j3 < s.len() && s[j3] == '-' {
                            match tokens_at(s, j3 + 1) {
                                None => None,
                                Some((pre, j4)) => Some(((major, minor, patch, pre), j4)),
                            }
                        } else if patch == u64::MAX {
                            None
                        } else {
                            Some(((major, minor, patch, Seq::empty()), j3))
                        },
                    }
                },
            }
        },
    }
}

/// Identifiers read are well-formed, at least one, and within the text.
pub proof fn lemma_tokens_at(s: Seq<char>, i: int)
    requires
        0 <= i <= s.len(),
    ensures
        tokens_at(s, i) matches Some((p, j)) ==> p.len() > 0 && i < j <= s.len() && forall|k: int|
            0 <= k < p.len() ==> token_valid(#[trigger] p[k]),
    decreases s.len() - i,
{
    let j = ident_end(s, i);
    lemma_run_end(s, i);
    if 0 <= i < j <= s.len() && token_valid(token_of(s.subrange(i, j))) && j < s.len() && s[j]
        == '.' {
        lemma_tokens_at(s, j + 1);
        if let Some((rest, e)) = tokens_at(s, j + 1) {
            let p = seq![token_of(s.subrange(i, j))] + rest;
            assert forall|k: int| 0 <= k < p.len() implies token_valid(#[trigger] p[k]) by {
                if k > 0 {
                    assert(p[k] == rest[k - 1]);
                }
            }
        }
    }
}

/// Which part of a version a number is.
#[derive(Debug, Clone, Copy, PartialEq, Eq)]
pub enum NumericPart {
    Major,
    Minor,
    Patch,
}

/// Why a text is not a version.
#[derive(Debug, Clone)]
pub enum InvalidPureVersion {
    /// The number does not fit in 64 bits.
    NumericPartTooLong { part: NumericPart },
    /// The number, or the dot before it, is missing.
    MissingNumericPart { part: NumericPart },
    /// Text after the patch number that does not start a prerelease.
    ExtraBeforePrereleases { extra: String },
    /// The number has a leading zero.
    InvalidNumericPart { part: NumericPart, value: String },
    /// A prerelease identifier is malformed.
    InvalidPrerelease { source: InvalidPrerelease },
    /// A release cannot have the greatest patch number.
    PatchCannotBeUIntMax,
}

/// The error reported for the number at `i` that `number_at` refuses: no
/// digit, a leading zero, or more than 64 bits.
pub open spec fn number_error(s: Seq<char>, i: int, part: NumericPart, e: InvalidPureVersion) -> bool {
    let j = digits_end(s, i);
    if j == i {
        e == InvalidPureVersion::MissingNumericPart { part }
    } else if j > i + 1 && s[i] == '0' {
        e matches InvalidPureVersion::InvalidNumericPart { part: p, value } && p == part && value@
            == s.subrange(i, j)
    } else {
        e == InvalidPureVersion::NumericPartTooLong { part }
    }
}

/// The error reported for the first malformed identifier at or after `i`.
pub open spec fn tokens_error(s: Seq<char>, i: int, e: InvalidPureVersion) -> bool
    decreases s.len() - i,
{
    let j = ident_end(s, i);
    if !(0 <= i < j <= s.len() && token_valid(token_of(s.subrange(i, j)))) {
        e matches InvalidPureVersion::InvalidPrerelease { source } && prerelease_error(
            s.subrange(i, j),
            source,
        )
    } else if j < s.len() && s[j] == '.' {
        tokens_error(s, j + 1, e)
    } else {
        false
    }
}

/// The error reported where reading a version at `i` stops.
pub open spec fn version_error_at(s: Seq<char>, i: int, e: InvalidPureVersion) -> bool {
    match number_at(s, i) {
        None => number_error(s, i, NumericPart::Major, e),
        Some((major, j1)) => if !(j1 < s.len() && s[j1] == '.') {
            e == InvalidPureVersion::MissingNumericPart { part: NumericPart::Minor }
        } else {
            match number_at(s, j1 + 1) {
                None => number_error(s, j1 + 1, NumericPart::Minor, e),
                Some((minor, j2)) => if !(j2 < s.len() && s[j2] == '.') {
                    e == InvalidPureVersion::MissingNumericPart { part: NumericPart::Patch }
                } else {
                    match number_at(s, j2 + 1) {
                        None => number_error(s, j2 + 1, NumericPart::Patch, e),
                        Some((patch, j3)) => if j3 < s.len() && s[j3] == '-' {
                            tokens_error(s, j3 + 1, e)
                        } else {
                            e == InvalidPureVersion::PatchCannotBeUIntMax
                        },
                    }
                },
            }
        },
    }
}

/// Reads the number at `i`.
fn read_number(s: &str, n: usize, i: usize, part: NumericPart) -> (r: Result<(u64, usize), InvalidPureVersion>)
    requires
        n == s@.len(),
        i <= n,
    ensures
        r is Ok <==> number_at(s@, i as int) is Some,
        r matches Ok((v, j)) ==> number_at(s@, i as int) == Some((v, j as int)),
        r matches Err(e) ==> number_error(s@, i as int, part, e),
{
    let j = scan_digits(s, n, i);
    proof {
        lemma_run_end(s@, i as int);
    }
    if j == i {
        return Err(InvalidPureVersion::MissingNumericPart { part });
    }
    if j > i + 1 && char_at(s, i) == '0' {
        return Err(
            InvalidPureVersion::InvalidNumericPart { part, value: s.substring_char(i, j).to_owned() },
        );
    }
    match parse_decimal(s, i, j) {
        None => Err(InvalidPureVersion::NumericPartTooLong { part }),
        Some(v) => Ok((v, j)),
    }
}

/// Reads the dot-separated identifiers at `i`.
fn read_tokens(s: &str, n: usize, i: usize) -> (r: Result<(Vec<Prerelease>, usize), InvalidPureVersion>)
    requires
        n == s@.len(),
        i <= n,
    ensures
        r is Ok <==> tokens_at(s@, i as int) is Some,
        r matches Ok((p, j)) ==> tokens_at(s@, i as int) == Some((views(p@), j as int)),
        r matches Err(e) ==> tokens_error(s@, i as int, e),
{
    let mut out: Vec<Prerelease> = Vec::new();
    let mut k = i;
    proof {
        if let Some((rest, e)) = tokens_at(s@, i as int) {
            assert(Seq::<Token>::empty() + rest =~= rest);
        }
        assert(views(out@) =~= Seq::<Token>::empty());
    }
    loop
        invariant
            n == s@.len(),
            k <= n,
            tokens_at(s@, i as int) == prepend(views(out@), tokens_at(s@, k as int)),
            forall|e: InvalidPureVersion| #[trigger] tokens_error(s@, i as int, e) == tokens_error(s@, k as int, e),
        decreases n - k,
    {
        let j = scan_ident(s, n, k);
        proof {
            lemma_run_end(s@, k as int);
        }
        let piece = s.substring_char(k, j);
        let tok = match Prerelease::parse(piece) {
            Ok(t) => t,
            Err(source) => {
                proof {
                    assert(piece@ == s@.subrange(k as int, j as int));
                    if k < j {
                        assert(all_ident(piece@));
                    }
                    let err = InvalidPureVersion::InvalidPrerelease { source };
                    assert(tokens_error(s@, k as int, err));
                }
                return Err(InvalidPureVersion::InvalidPrerelease { source });
            },
        };
        proof {
            assert(all_ident(piece@));
        }
        let ghost before = views(out@);
        out.push(tok);
        proof {
            assert(views(out@) =~= before.push(token_of(s@.subrange(k as int, j as int))));
        }
        if j < n && char_at(s, j) == '.' {
            proof {
                let t = seq![token_of(s@.subrange(k as int, j as int))];
                assert(before.push(t[0]) =~= before + t);
                if let Some((rest, e)) = tokens_at(s@, j + 1) {
                    assert(before + (t + rest) =~= (before + t) + rest);
                }
            }
            proof {
                assert forall|e: InvalidPureVersion| #[trigger] tokens_error(s@, i as int, e)
                    == tokens_error(s@, j + 1, e) by {
                    assert(tokens_error(s@, k as int, e) == tokens_error(s@, j + 1, e));
                }
            }
            k = j + 1;
        } else {
            proof {
                let t = seq![token_of(s@.subrange(k as int, j as int))];
                assert(before + t =~= views(out@));
            }
            return Ok((out, j));
        }
    }
}

/// A semantic version without build metadata.
#[derive(Debug, Clone, PartialEq, Eq, Hash)]
pub struct PureVersion {
    pub major: u64,
    pub minor: u64,
    pub patch: u64,
    pub pre: Vec<Prerelease>,
}

impl View for PureVersion {
    type V = VersionModel;

    open spec fn view(&self) -> VersionModel {
        (self.major, self.minor, self.patch, views(self.pre@))
    }
}

/// A copy of a list of identifiers.
fn copy_pre(pre: &Vec<Prerelease>) -> (r: Vec<Prerelease>)
    ensures
        views(r@) == views(pre@),
{
    let mut out: Vec<Prerelease> = Vec::new();
    let mut i: usize = 0;
    while i < pre.len()
        invariant
            0 <= i <= pre@.len(),
            views(out@) == views(pre@).take(i as int),
        decreases pre@.len() - i,
    {
        let ghost before = views(out@);
        out.push(pre[i].duplicate());
        proof {
            assert(views(out@) =~= before.push(views(pre@)[i as int]));
            assert(views(pre@).take(i + 1) =~= views(pre@).take(i as int).push(views(pre@)[i as int]));
        }
        i = i + 1;
    }
    proof {
        assert(views(pre@).take(pre@.len() as int) =~= views(pre@));
    }
    out
}

/// Compares two identifier lists as prerelease parts.
fn compare_pre(a: &Vec<Prerelease>, b: &Vec<Prerelease>) -> (r: Ordering)
    ensures
        (r == Ordering::Less) == pre_less(views(a@), views(b@)),
        (r == Ordering::Equal) == (views(a@) == views(b@)),
        (r == Ordering::Greater) == pre_less(views(b@), views(a@)),
{
    let ghost x = views(a@);
    let ghost y = views(b@);
    proof {
        lemma_pre_order(x, y, y);
        lemma_pre_order(y, x, x);
    }
    let n = a.len();
    let m = b.len();
    if n == 0 || m == 0 {
        proof {
            if n == 0 && m == 0 {
                assert(x =~= y);
            }
        }
        return if n == m {
            Ordering::Equal
        } else if n == 0 {
            Ordering::Greater
        } else {
            Ordering::Less
        };
    }
    let mut i: usize = 0;
    while i < n && i < m
        invariant
            n == x.len(),
            m == y.len(),
            x == views(a@),
            y == views(b@),
            0 <= i <= n,
            i <= m,
            x.subrange(0, i as int) == y.subrange(0, i as int),
        decreases n - i,
    {
        let c = a[i].compare(&b[i]);
        match c {
            Ordering::Equal => {
                proof {
                    assert(x.subrange(0, i + 1) =~= x.subrange(0, i as int).push(x[i as int]));
                    assert(y.subrange(0, i + 1) =~= y.subrange(0, i as int).push(y[i as int]));
                }
                i = i + 1;
            },
            _ => {
                proof {
                    lemma_list_skip(x, y, i as int);
                    lemma_list_skip(y, x, i as int);
                    assert(x.skip(i as int)[0] == x[i as int] && y.skip(i as int)[0] == y[i as int]);
                    assert(x[i as int] != y[i as int]);
                    crate::order::lemma_token_order(x[i as int], y[i as int], y[i as int]);
                }
                return c;
            },
        }
    }
    proof {
        lemma_list_skip(x, y, i as int);
        lemma_list_skip(y, x, i as int);
        if n == m {
            assert(x =~= x.subrange(0, i as int));
            assert(y =~= y.subrange(0, i as int));
        }
    }
    if n < m {
        Ordering::Less
    } else if n == m {
        Ordering::Equal
    } else {
        Ordering::Greater
    }
}

/// Three-way comparison of versions.
fn compare_versions(a: &PureVersion, b: &PureVersion) -> (r: Ordering)
    ensures
        (r == Ordering::Less) == version_less(a@, b@),
        (r == Ordering::Equal) == (a@ == b@),
        (r == Ordering::Greater) == version_less(b@, a@),
{
    if a.major != b.major {
        if a.major < b.major { Ordering::Less } else { Ordering::Greater }
    } else if a.minor != b.minor {
        if a.minor < b.minor { Ordering::Less } else { Ordering::Greater }
    } else if a.patch != b.patch {
        if a.patch < b.patch { Ordering::Less } else { Ordering::Greater }
    } else {
        compare_pre(&a.pre, &b.pre)
    }
}

/// The three-way comparison that `version_less` gives.
pub open spec fn version_cmp(a: VersionModel, b: VersionModel) -> Ordering {
    if version_less(a, b) {
        Ordering::Less
    } else if a == b {
        Ordering::Equal
    } else {
        Ordering::Greater
    }
}

impl PartialOrd for PureVersion {
    fn partial_cmp(&self, other: &Self) -> (r: Option<Ordering>) {
        Some(compare_versions(self, other))
    }
}

impl vstd::std_specs::cmp::PartialOrdSpecImpl for PureVersion {
    open spec fn obeys_partial_cmp_spec() -> bool {
        true
    }

    open spec fn partial_cmp_spec(&self, other: &Self) -> Option<Ordering> {
        Some(version_cmp(self@, other@))
    }
}

impl PureVersion {
    /// A release version.
    pub fn new(major: u64, minor: u64, patch: u64) -> (r: Self)
        ensures
            r@ == (major, minor, patch, Seq::<Token>::empty()),
    {
        let r = PureVersion { major, minor, patch, pre: Vec::new() };
        proof {
            assert(r@.3 =~= Seq::<Token>::empty());
        }
        r
    }

    /// Whether the major number is zero.
    pub fn is_major_zero(&self) -> (r: bool)
        ensures
            r == (self.major == 0),
    {
        self.major == 0
    }

    /// Whether the version has prerelease identifiers.
    pub fn is_prerelease(&self) -> (r: bool)
        ensures
            r == (self@.3.len() > 0),
    {
        self.pre.len() > 0
    }
}

impl RangeExtremeDisplay for PureVersion {
    open spec fn has_previous(v: VersionModel) -> bool {
        version_has_previous(v)
    }

    open spec fn previous(v: VersionModel) -> VersionModel {
        version_previous(v)
    }

    open spec fn text(v: VersionModel) -> Seq<char> {
        version_text(v)
    }

    proof fn lemma_previous(v: VersionModel) {
        let p = version_previous(v);
        assert forall|i: int| 0 <= i < p.3.len() implies token_valid(#[trigger] p.3[i]) by {
            assert(p.3[i] == v.3[i]);
        }
        assert(p.3.push(token_zero()) =~= v.3);
        if v.3.len() > 1 {
            assert(p.3.len() > 0);
        }
    }

    fn has_prev(&self) -> (r: bool) {
        let n = self.pre.len();
        if n == 0 {
            return false;
        }
        let ends_in_zero = matches!(self.pre[n - 1].compare(&Prerelease::zero()), Ordering::Equal);
        ends_in_zero && (n > 1 || self.patch != 0)
    }

    fn display(&self) -> (r: String) {
        let r = render_parts(self.major, self.minor, self.patch, &self.pre, self.pre.len());
        proof {
            assert(views(self.pre@).take(self.pre@.len() as int) =~= views(self.pre@));
        }
        r
    }

    fn display_prev(&self) -> (r: Option<String>) {
        if !self.has_prev() {
            return None;
        }
        let n = self.pre.len();
        let patch = if n == 1 {
            self.patch - 1
        } else {
            self.patch
        };
        let r = render_parts(self.major, self.minor, patch, &self.pre, n - 1);
        proof {
            assert(views(self.pre@).take(n - 1) =~= views(self.pre@).drop_last());
        }
        Some(r)
    }
}

/// The successor of a version has a previous version, and it is that version.
pub proof fn lemma_previous_of_successor(v: VersionModel)
    requires
        version_valid(v),
        v != version_highest(),
    ensures
        version_has_previous(version_successor(v)),
        version_previous(version_successor(v)) == v,
{
    let s = version_successor(v);
    if v.3.len() == 0 && v.2 == u64::MAX {
        assert(v.3 =~= Seq::<Token>::empty());
    }
    assert(s.3.drop_last() =~= v.3);
}

impl RangeExtreme for PureVersion {
    open spec fn valid(v: VersionModel) -> bool {
        version_valid(v)
    }

    open spec fn less(a: VersionModel, b: VersionModel) -> bool {
        version_less(a, b)
    }

    open spec fn lowest() -> VersionModel {
        version_lowest()
    }

    open spec fn highest() -> VersionModel {
        version_highest()
    }

    open spec fn successor(v: VersionModel) -> VersionModel {
        version_successor(v)
    }

    proof fn lemma_order(a: VersionModel, b: VersionModel, c: VersionModel) {
        lemma_pre_order(a.3, b.3, c.3);
        lemma_pre_order(a.3, a.3, a.3);
        if a.3.len() > 0 && a.0 == 0 && a.1 == 0 && a.2 == 0 {
            lemma_not_below_zero(a.3);
        }
        if a.0 == u64::MAX && a.1 == u64::MAX && a.2 == u64::MAX && a.3.len() == 0 {
            assert(a.3 =~= Seq::<Token>::empty());
        }
    }

    proof fn lemma_successor(a: VersionModel, b: VersionModel) {
        let s = version_successor(a);
        lemma_zero_valid();
        if a.3.len() == 0 && a.2 == u64::MAX {
            assert(a.3 =~= Seq::<Token>::empty());
            assert(a == version_highest());
        }
        assert forall|i: int| 0 <= i < s.3.len() implies token_valid(#[trigger] s.3[i]) by {
            if i < a.3.len() {
                assert(s.3[i] == a.3[i]);
            }
        }
        assert forall|i: int| 0 <= i < b.3.len() implies !crate::order::token_less(
            #[trigger] b.3[i],
            token_zero(),
        ) by {
            lemma_zero_least(b.3[i]);
        }
        lemma_list_extend(a.3, b.3, token_zero());
        if a.3.len() == 0 && b.3.len() > 0 {
            lemma_not_below_zero(b.3);
            assert(a.3.push(token_zero()) =~= seq![token_zero()]);
        }
    }

    proof fn lemma_extremes() {
        lemma_zero_valid();
        assert forall|i: int| 0 <= i < version_lowest().3.len() implies token_valid(
            #[trigger] version_lowest().3[i],
        ) by {
        }
    }

    fn min_extreme() -> (r: Self) {
        let mut pre = Vec::new();
        pre.push(Prerelease::zero());
        let r = PureVersion { major: 0, minor: 0, patch: 0, pre };
        proof {
            assert(r@.3 =~= seq![token_zero()]);
        }
        r
    }

    fn max_extreme() -> (r: Self) {
        PureVersion::new(u64::MAX, u64::MAX, u64::MAX)
    }

    fn next(self) -> (r: Self) {
        let mut v = self;
        proof {
            if v@.3.len() == 0 && v.patch == u64::MAX {
                assert(v@.3 =~= Seq::<Token>::empty());
                assert(v@ == version_highest());
            }
        }
        if v.pre.len() == 0 {
            v.patch = v.patch + 1;
        }
        let ghost before = views(v.pre@);
        v.pre.push(Prerelease::zero());
        proof {
            assert(views(v.pre@) =~= before.push(token_zero()));
        }
        v
    }

    fn compare(&self, other: &Self) -> (r: Ordering) {
        compare_versions(self, other)
    }

    fn duplicate(&self) -> (r: Self) {
        PureVersion { major: self.major, minor: self.minor, patch: self.patch, pre: copy_pre(&self.pre) }
    }

    fn compare_next_to(&self, other: &Self) -> (r: bool) {
        let n = self.pre.len();
        if other.pre.len() == 0 || other.pre.len() - 1 != n || self.major != other.major || self.minor != other.minor {
            proof {
                if self@ != version_highest() && version_successor(self@) == other@ {
                    assert(version_successor(self@).3.len() == n + 1);
                }
            }
            return false;
        }
        let expected_patch = if n == 0 {
            if self.patch == u64::MAX {
                proof {
                    assert(self@.3 =~= Seq::<Token>::empty());
                }
                return false;
            }
            self.patch + 1
        } else {
            self.patch
        };
        if other.patch != expected_patch {
            return false;
        }
        let mut i: usize = 0;
        while i < n
            invariant
                n == self@.3.len(),
                other@.3.len() == n + 1,
                0 <= i <= n,
                forall|k: int| 0 <= k < i ==> self@.3[k] == other@.3[k],
            decreases n - i,
        {
            if !matches!(self.pre[i].compare(&other.pre[i]), Ordering::Equal) {
                return false;
            }
            i = i + 1;
        }
        let last_zero = matches!(other.pre[n].compare(&Prerelease::zero()), Ordering::Equal);
        proof {
            let x = version_successor(self@);
            if last_zero {
                assert(x.3 =~= other@.3);
            } else {
                assert(x.3[n as int] == token_zero());
            }
        }
        last_zero
    }
}

impl RangeExtremeFromStr for PureVersion {
    type Err = InvalidPureVersion;

    open spec fn value_at(s: Seq<char>, i: int) -> Option<(VersionModel, int)> {
        version_at(s, i)
    }

    open spec fn error_at(s: Seq<char>, i: int, e: InvalidPureVersion) -> bool {
        version_error_at(s, i, e)
    }

    proof fn lemma_value_at(s: Seq<char>, i: int) {
        lemma_run_end(s, i);
        if let Some((major, j1)) = number_at(s, i) {
            if j1 < s.len() && s[j1] == '.' {
                lemma_run_end(s, j1 + 1);
                if let Some((minor, j2)) = number_at(s, j1 + 1) {
                    if j2 < s.len() && s[j2] == '.' {
                        lemma_run_end(s, j2 + 1);
                        if let Some((patch, j3)) = number_at(s, j2 + 1) {
                            if j3 < s.len() && s[j3] == '-' {
                                lemma_tokens_at(s, j3 + 1);
                            }
                        }
                    }
                }
            }
        }
    }

    fn parse_at(s: &str, i: usize) -> (r: Result<(Self, usize), InvalidPureVersion>) {
        read_version(s, i)
    }
}

/// Reads the version at `i`.
fn read_version(s: &str, i: usize) -> (r: Result<(PureVersion, usize), InvalidPureVersion>)
    requires
        i <= s@.len(),
    ensures
        r is Ok <==> version_at(s@, i as int) is Some,
        r matches Ok((v, j)) ==> version_at(s@, i as int) == Some((v@, j as int)),
        r matches Err(e) ==> version_error_at(s@, i as int, e),
{
    let n = s.unicode_len();
    let (major, j1) = read_number(s, n, i, NumericPart::Major)?;
    if !(j1 < n && char_at(s, j1) == '.') {
        return Err(InvalidPureVersion::MissingNumericPart { part: NumericPart::Minor });
    }
    let (minor, j2) = read_number(s, n, j1 + 1, NumericPart::Minor)?;
    if !(j2 < n && char_at(s, j2) == '.') {
        return Err(InvalidPureVersion::MissingNumericPart { part: NumericPart::Patch });
    }
    let (patch, j3) = read_number(s, n, j2 + 1, NumericPart::Patch)?;
    if j3 < n && char_at(s, j3) == '-' {
        let (pre, j4) = read_tokens(s, n, j3 + 1)?;
        Ok((PureVersion { major, minor, patch, pre }, j4))
    } else if patch == u64::MAX {
        Err(InvalidPureVersion::PatchCannotBeUIntMax)
    } else {
        let v = PureVersion::new(major, minor, patch);
        Ok((v, j3))
    }
}

/// Where the prerelease part of a whole text starts: its first `-`, or the end.
pub open spec fn dash_at(s: Seq<char>) -> int {
    find(s, '-', 0, s.len() as int)
}

/// The position of the `k`-th dot (from zero) before the first `-`, or that
/// `-` (or the end) when there are fewer dots.
pub open spec fn dot_at(s: Seq<char>, k: int) -> int
    decreases k,
{
    if k <= 0 {
        find(s, '.', 0, dash_at(s))
    } else if dot_at(s, k - 1) < dash_at(s) {
        find(s, '.', dot_at(s, k - 1) + 1, dash_at(s))
    } else {
        dash_at(s)
    }
}

/// The text of numeric part `k` (0 major, 1 minor, 2 patch), when there are
/// exactly two dots before the first `-`.
pub open spec fn part_text(s: Seq<char>, k: int) -> Seq<char> {
    let start = if k == 0 { 0 } else { dot_at(s, k - 1) + 1 };
    let end = if k < 2 { dot_at(s, k) } else { dash_at(s) };
    s.subrange(start, end)
}

/// The name of numeric part `k`.
pub open spec fn part_of(k: int) -> NumericPart {
    if k == 0 {
        NumericPart::Major
    } else if k == 1 {
        NumericPart::Minor
    } else {
        NumericPart::Patch
    }
}

/// Exactly two dots before the first `-`.
pub open spec fn dots_ok(s: Seq<char>) -> bool {
    dot_at(s, 1) < dash_at(s) && dot_at(s, 2) == dash_at(s)
}

/// Numeric part `k` is digits without a leading zero, within 64 bits.
pub open spec fn part_fits(s: Seq<char>, k: int) -> bool {
    number_text(part_text(s, k)) && decimal_value(part_text(s, k)) <= u64::MAX
}

/// The first numeric part that does not fit, or 3.
pub open spec fn first_unfit(s: Seq<char>) -> int {
    if !part_fits(s, 0) {
        0
    } else if !part_fits(s, 1) {
        1
    } else if !part_fits(s, 2) {
        2
    } else {
        3
    }
}

/// The identifiers from `i` to the end, split at dots; or the bounds of the
/// first one that is malformed.
pub open spec fn pre_scan(s: Seq<char>, i: int) -> Result<Seq<Token>, (int, int)>
    decreases s.len() - i,
{
    let k = find(s, '.', i, s.len() as int);
    if !(0 <= i <= k <= s.len()) || !token_valid(token_of(s.subrange(i, k))) {
        Err((i, k))
    } else if k < s.len() {
        match pre_scan(s, k + 1) {
            Ok(rest) => Ok(seq![token_of(s.subrange(i, k))] + rest),
            Err(x) => Err(x),
        }
    } else {
        Ok(seq![token_of(s.subrange(i, k))])
    }
}

/// The prerelease identifiers of a whole text.
pub open spec fn pre_list(s: Seq<char>) -> Seq<Token> {
    if dash_at(s) < s.len() {
        match pre_scan(s, dash_at(s) + 1) {
            Ok(p) => p,
            Err(_) => Seq::empty(),
        }
    } else {
        Seq::empty()
    }
}

/// The text has the form of a version: numbers without leading zeros
/// (of any size), and well-formed identifiers after a `-`.
pub open spec fn version_shape(s: Seq<char>) -> bool {
    &&& dots_ok(s)
    &&& number_text(part_text(s, 0)) && number_text(part_text(s, 1)) && number_text(part_text(s, 2))
    &&& (dash_at(s) == s.len() || pre_scan(s, dash_at(s) + 1) is Ok)
}

/// Prepends identifiers to the result of a scan.
pub open spec fn prepend_scan(p: Seq<Token>, r: Result<Seq<Token>, (int, int)>) -> Result<Seq<Token>, (int, int)> {
    match r {
        Ok(x) => Ok(p + x),
        Err(e) => Err(e),
    }
}

/// Reads the dot-separated identifiers from `i` to the end of the text.
fn scan_pre(s: &str, n: usize, i: usize) -> (r: Result<Vec<Prerelease>, InvalidPrerelease>)
    requires
        n == s@.len(),
        i <= n,
    ensures
        r is Ok <==> pre_scan(s@, i as int) is Ok,
        r matches Ok(v) ==> pre_scan(s@, i as int) == Ok::<Seq<Token>, (int, int)>(views(v@)),
        r matches Err(e) ==> (pre_scan(s@, i as int) matches Err((a, b)) && prerelease_error(
            s@.subrange(a, b),
            e,
        )),
{
    let mut out: Vec<Prerelease> = Vec::new();
    let mut k = i;
    proof {
        if let Ok(rest) = pre_scan(s@, i as int) {
            assert(Seq::<Token>::empty() + rest =~= rest);
        }
        assert(views(out@) =~= Seq::<Token>::empty());
    }
    loop
        invariant
            n == s@.len(),
            k <= n,
            pre_scan(s@, i as int) == prepend_scan(views(out@), pre_scan(s@, k as int)),
        decreases n - k,
    {
        let j = find_char(s, '.', k, n);
        let piece = s.substring_char(k, j);
        let tok = match Prerelease::parse(piece) {
            Ok(t) => t,
            Err(e) => {
                return Err(e);
            },
        };
        let ghost t = token_of(s@.subrange(k as int, j as int));
        let ghost before = views(out@);
        out.push(tok);
        proof {
            assert(views(out@) =~= before.push(t));
            assert(before.push(t) =~= before + seq![t]);
        }
        if j < n {
            proof {
                if let Ok(rest) = pre_scan(s@, j + 1) {
                    assert(before + (seq![t] + rest) =~= (before + seq![t]) + rest);
                }
            }
            k = j + 1;
        } else {
            return Ok(out);
        }
    }
}

impl PureVersion {
    /// Reads a whole text as a version. When the text has the form of a
    /// version, a number over 64 bits or a release with the greatest patch
    /// number is refused. Otherwise the first problem is reported, in this
    /// order: a missing dot, text after a third dot, a malformed number, a
    /// malformed prerelease identifier.
    pub fn from_str(s: &str) -> (r: Result<Self, InvalidPureVersion>)
        ensures
            r is Ok <==> (version_shape(s@) && first_unfit(s@) == 3 && !(dash_at(s@) == s@.len()
                && decimal_value(part_text(s@, 2)) == u64::MAX)),
            r matches Ok(v) ==> v@ == (
                decimal_value(part_text(s@, 0)) as u64,
                decimal_value(part_text(s@, 1)) as u64,
                decimal_value(part_text(s@, 2)) as u64,
                pre_list(s@),
            ),
            (r matches Err(InvalidPureVersion::NumericPartTooLong { .. })) <==> (version_shape(s@)
                && first_unfit(s@) < 3),
            r matches Err(InvalidPureVersion::NumericPartTooLong { part }) ==> part == part_of(
                first_unfit(s@),
            ),
            (r matches Err(InvalidPureVersion::PatchCannotBeUIntMax)) <==> (version_shape(s@)
                && first_unfit(s@) == 3 && dash_at(s@) == s@.len() && decimal_value(part_text(s@, 2))
                == u64::MAX),
            (r matches Err(InvalidPureVersion::MissingNumericPart { .. })) <==> dot_at(s@, 1) == dash_at(
                s@,
            ),
            r matches Err(InvalidPureVersion::MissingNumericPart { part }) ==> part == (if dot_at(s@, 0)
                == dash_at(s@) {
                NumericPart::Minor
            } else {
                NumericPart::Patch
            }),
            (r matches Err(InvalidPureVersion::ExtraBeforePrereleases { .. })) <==> (dot_at(s@, 1)
                < dash_at(s@) && dot_at(s@, 2) < dash_at(s@)),
            r matches Err(InvalidPureVersion::ExtraBeforePrereleases { extra }) ==> extra@ == s@.subrange(
                dot_at(s@, 2) + 1,
                dash_at(s@),
            ),
            (r matches Err(InvalidPureVersion::InvalidNumericPart { .. })) <==> (!version_shape(s@)
                && dots_ok(s@) && first_unfit(s@) < 3),
            r matches Err(InvalidPureVersion::InvalidNumericPart { part, value }) ==> part == part_of(
                first_unfit(s@),
            ) && value@ == part_text(s@, first_unfit(s@)),
            (r matches Err(InvalidPureVersion::InvalidPrerelease { .. })) <==> (!version_shape(s@)
                && dots_ok(s@) && first_unfit(s@) == 3),
            r matches Err(InvalidPureVersion::InvalidPrerelease { source }) ==> (pre_scan(
                s@,
                dash_at(s@) + 1,
            ) matches Err((a, b)) && prerelease_error(s@.subrange(a, b), source)),
    {
        let n = s.unicode_len();
        let dash = find_char(s, '-', 0, n);
        let d0 = find_char(s, '.', 0, dash);
        proof {
            assert(dot_at(s@, 0) == d0);
        }
        if d0 == dash {
            proof {
                assert(dot_at(s@, 1) == dash);
            }
            return Err(InvalidPureVersion::MissingNumericPart { part: NumericPart::Minor });
        }
        let d1 = find_char(s, '.', d0 + 1, dash);
        proof {
            assert(dot_at(s@, 1) == d1);
        }
        if d1 == dash {
            return Err(InvalidPureVersion::MissingNumericPart { part: NumericPart::Patch });
        }
        let d2 = find_char(s, '.', d1 + 1, dash);
        proof {
            assert(dot_at(s@, 2) == d2);
        }
        if d2 < dash {
            return Err(
                InvalidPureVersion::ExtraBeforePrereleases {
                    extra: s.substring_char(d2 + 1, dash).to_owned(),
                },
            );
        }
        let a = read_number_text(s, 0, d0);
        let b = read_number_text(s, d0 + 1, d1);
        let c = read_number_text(s, d1 + 1, dash);
        let pre = if dash < n {
            scan_pre(s, n, dash + 1)
        } else {
            Ok(Vec::new())
        };
        proof {
            assert(part_text(s@, 0) == s@.subrange(0, d0 as int));
            assert(part_text(s@, 1) == s@.subrange(d0 + 1, d1 as int));
            assert(part_text(s@, 2) == s@.subrange(d1 + 1, dash as int));
            if dash >= n {
                assert(pre matches Ok(v) && views(v@) =~= Seq::<Token>::empty());
            }
        }
        if matches!(a, Some(_)) && matches!(b, Some(_)) && matches!(c, Some(_)) && matches!(pre, Ok(_)) {
            match (a, b, c, pre) {
                (Some(Some(major)), Some(Some(minor)), Some(Some(patch)), Ok(pre)) => {
                    if dash == n && patch == u64::MAX {
                        Err(InvalidPureVersion::PatchCannotBeUIntMax)
                    } else {
                        Ok(PureVersion { major, minor, patch, pre })
                    }
                },
                (Some(None), _, _, _) => Err(
                    InvalidPureVersion::NumericPartTooLong { part: NumericPart::Major },
                ),
                (_, Some(None), _, _) => Err(
                    InvalidPureVersion::NumericPartTooLong { part: NumericPart::Minor },
                ),
                _ => Err(InvalidPureVersion::NumericPartTooLong { part: NumericPart::Patch }),
            }
        } else if !(a matches Some(Some(_))) {
            Err(
                InvalidPureVersion::InvalidNumericPart {
                    part: NumericPart::Major,
                    value: s.substring_char(0, d0).to_owned(),
                },
            )
        } else if !(b matches Some(Some(_))) {
            Err(
                InvalidPureVersion::InvalidNumericPart {
                    part: NumericPart::Minor,
                    value: s.substring_char(d0 + 1, d1).to_owned(),
                },
            )
        } else if !(c matches Some(Some(_))) {
            Err(
                InvalidPureVersion::InvalidNumericPart {
                    part: NumericPart::Patch,
                    value: s.substring_char(d1 + 1, dash).to_owned(),
                },
            )
        } else {
            match pre {
                Err(source) => Err(InvalidPureVersion::InvalidPrerelease { source }),
                Ok(_) => Err(InvalidPureVersion::PatchCannotBeUIntMax),
            }
        }
    }
}

/// A version that the text grammar can produce: valid, and not a release
/// with the greatest patch number.
pub open spec fn version_writable(v: VersionModel) -> bool {
    version_valid(v) && !(v.3.len() == 0 && v.2 == u64::MAX)
}

/// Dot-joined identifiers, read from the front.
proof fn lemma_join_front(p: Seq<Token>)
    requires
        p.len() >= 2,
    ensures
        join_tokens(p) == p[0].1 + seq!['.'] + join_tokens(p.drop_first()),
    decreases p.len(),
{
    if p.len() == 2 {
        assert(p.drop_last()[0] == p[0]);
        assert(p.drop_first()[0] == p[1]);
        assert(join_tokens(p.drop_last()) == p[0].1);
        assert(join_tokens(p.drop_first()) == p[1].1);
    } else {
        lemma_join_front(p.drop_last());
        assert(p.drop_first().drop_last() =~= p.drop_last().drop_first());
        assert(join_tokens(p.drop_first()) == join_tokens(p.drop_first().drop_last()) + seq!['.']
            + p.drop_first().last().1);
        assert(join_tokens(p) =~= p[0].1 + seq!['.'] + join_tokens(p.drop_first()));
    }
}

/// The number written at `i` reads back.
proof fn lemma_number_round_trip(s: Seq<char>, i: int, n: u64)
    requires
        0 <= i,
        i + decimal(n as nat).len() <= s.len(),
        s.subrange(i, i + decimal(n as nat).len()) == decimal(n as nat),
        i + decimal(n as nat).len() == s.len() || !is_digit(s[i + decimal(n as nat).len()]),
    ensures
        number_at(s, i) == Some((n, i + decimal(n as nat).len())),
{
    let d = decimal(n as nat);
    let j = i + d.len();
    lemma_decimal(n as nat);
    assert forall|k: int| i <= k < j implies is_digit(#[trigger] s[k]) by {
        assert(s[k] == s.subrange(i, j)[k - i]);
    }
    lemma_digits_end_at(s, i, j);
    assert(s[i] == d[0]);
}

/// Dot-joined identifiers read back.
proof fn lemma_tokens_round_trip(s: Seq<char>, i: int, p: Seq<Token>)
    requires
        p.len() > 0,
        forall|k: int| 0 <= k < p.len() ==> token_valid(#[trigger] p[k]),
        0 <= i,
        i + join_tokens(p).len() <= s.len(),
        s.subrange(i, i + join_tokens(p).len()) == join_tokens(p),
        i + join_tokens(p).len() == s.len() || (!is_ident_char(s[i + join_tokens(p).len()])
            && s[i + join_tokens(p).len()] != '.'),
    ensures
        tokens_at(s, i) == Some((p, i + join_tokens(p).len())),
    decreases p.len(),
{
    let t = p[0].1;
    let j = i + t.len();
    assert(token_valid(p[0]));
    if p.len() >= 2 {
        lemma_join_front(p);
    }
    assert(s.subrange(i, j) =~= t) by {
        assert forall|k: int| 0 <= k < t.len() implies s.subrange(i, j)[k] == t[k] by {
            assert(s[i + k] == s.subrange(i, i + join_tokens(p).len())[k]);
            assert(join_tokens(p)[k] == t[k]);
        }
    }
    assert forall|k: int| i <= k < j implies is_ident_char(#[trigger] s[k]) by {
        assert(s[k] == s.subrange(i, j)[k - i]);
    }
    assert(token_of(s.subrange(i, j)) == p[0]);
    if p.len() == 1 {
        lemma_ident_end_at(s, i, j);
        assert(seq![p[0]] =~= p);
    } else {
        lemma_join_front(p);
        let q = p.drop_first();
        assert(s[j] == join_tokens(p)[t.len() as int]);
        assert(s[j] == '.');
        lemma_ident_end_at(s, i, j);
        assert forall|k: int| 0 <= k < q.len() implies token_valid(#[trigger] q[k]) by {
            assert(q[k] == p[k + 1]);
        }
        assert(s.subrange(j + 1, j + 1 + join_tokens(q).len()) =~= join_tokens(q)) by {
            assert forall|k: int| 0 <= k < join_tokens(q).len() implies s.subrange(
                j + 1,
                j + 1 + join_tokens(q).len(),
            )[k] == join_tokens(q)[k] by {
                assert(s[j + 1 + k] == s.subrange(i, i + join_tokens(p).len())[t.len() + 1 + k]);
            }
        }
        lemma_tokens_round_trip(s, j + 1, q);
        assert(seq![p[0]] + q =~= p);
    }
}

/// The text of a version written at `i` reads back as that version, when
/// what follows it cannot continue it.
pub proof fn lemma_version_at(s: Seq<char>, i: int, v: VersionModel)
    requires
        version_writable(v),
        0 <= i,
        i + version_text(v).len() <= s.len(),
        s.subrange(i, i + version_text(v).len()) == version_text(v),
        i + version_text(v).len() == s.len() || (!is_ident_char(s[i + version_text(v).len()])
            && s[i + version_text(v).len()] != '.'),
    ensures
        version_at(s, i) == Some((v, i + version_text(v).len())),
{
    let d0 = decimal(v.0 as nat);
    let d1 = decimal(v.1 as nat);
    let d2 = decimal(v.2 as nat);
    let tail = if v.3.len() > 0 {
        seq!['-'] + join_tokens(v.3)
    } else {
        Seq::<char>::empty()
    };
    let w = version_text(v);
    assert(w == d0 + seq!['.'] + d1 + seq!['.'] + d2 + tail);
    let j1 = i + d0.len();
    let j2 = j1 + 1 + d1.len();
    let j3 = j2 + 1 + d2.len();
    let e = i + w.len();
    assert forall|k: int| i <= k < e implies #[trigger] s[k] == w[k - i] by {
        assert(s[k] == s.subrange(i, e)[k - i]);
    }
    lemma_decimal(v.0 as nat);
    lemma_decimal(v.1 as nat);
    lemma_decimal(v.2 as nat);
    assert(s.subrange(i, j1) =~= d0);
    assert(s[j1] == w[j1 - i]);
    assert(s[j1] == '.');
    lemma_number_round_trip(s, i, v.0);
    assert(s.subrange(j1 + 1, j2) =~= d1);
    assert(s[j2] == w[j2 - i]);
    assert(s[j2] == '.');
    lemma_number_round_trip(s, j1 + 1, v.1);
    assert(s.subrange(j2 + 1, j3) =~= d2);
    if v.3.len() > 0 {
        assert(s[j3] == w[j3 - i]);
        assert(s[j3] == '-');
        lemma_number_round_trip(s, j2 + 1, v.2);
        let jt = join_tokens(v.3);
        assert(s.subrange(j3 + 1, j3 + 1 + jt.len()) =~= jt);
        assert(e == j3 + 1 + jt.len());
        lemma_tokens_round_trip(s, j3 + 1, v.3);
    } else {
        assert(e == j3);
        lemma_number_round_trip(s, j2 + 1, v.2);
        assert(v.3 =~= Seq::<Token>::empty());
    }
}

/// Writing a version and reading the text back gives the same version.
pub proof fn lemma_version_round_trip(v: VersionModel)
    requires
        version_writable(v),
    ensures
        version_at(version_text(v), 0) == Some((v, version_text(v).len() as int)),
{
    let w = version_text(v);
    assert(w.subrange(0, w.len() as int) =~= w);
    lemma_version_at(w, 0, v);
}

impl RangeExtremeText for PureVersion {
    open spec fn writable(v: VersionModel) -> bool {
        version_writable(v)
    }

    proof fn lemma_writable(v: VersionModel) {
        Self::lemma_extremes();
        if version_writable(v) && v != version_highest() {
            Self::lemma_successor(v, v);
        }
        if version_valid(v) && version_has_previous(v) {
            Self::lemma_previous(v);
        }
        lemma_decimal(v.0 as nat);
        assert(version_text(v)[0] == decimal(v.0 as nat)[0]);
    }

    proof fn lemma_read_back(s: Seq<char>, i: int, v: VersionModel) {
        lemma_version_at(s, i, v);
    }

    proof fn lemma_read_writable(s: Seq<char>, i: int) {
        Self::lemma_value_at(s, i);
        if let Some((major, j1)) = number_at(s, i) {
            if j1 < s.len() && s[j1] == '.' {
                if let Some((minor, j2)) = number_at(s, j1 + 1) {
                    if j2 < s.len() && s[j2] == '.' {
                        if let Some((patch, j3)) = number_at(s, j2 + 1) {
                            lemma_run_end(s, j2 + 1);
                            if j3 < s.len() && s[j3] == '-' {
                                lemma_tokens_at(s, j3 + 1);
                            }
                        }
                    }
                }
            }
        }
    }
}
} // verus!
