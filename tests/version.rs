use areq::extreme::{RangeExtreme, RangeExtremeDisplay};
use areq::version::prerelease::{InvalidPrerelease, Prerelease};
use areq::version::pure::{InvalidPureVersion, NumericPart, PureVersion};
use std::cmp::Ordering;

const SORTED: &[&str] = &[
    "1.0.0-alpha",
    "1.0.0-alpha.1",
    "1.0.0-alpha.beta",
    "1.0.0-beta",
    "1.0.0-beta.2",
    "1.0.0-beta.11",
    "1.0.0-rc.1",
    "1.0.0",
];

#[test]
fn pure_can_parse() {
    for v in SORTED {
        PureVersion::from_str(v).unwrap();
    }
}

#[test]
fn pure_prereleases_are_sorted() {
    assert!(SORTED.is_sorted_by_key(|v| PureVersion::from_str(v).unwrap()))
}

#[test]
fn pure_roundtrips() {
    for v in SORTED {
        let back = PureVersion::from_str(v).unwrap().display();
        assert_eq!(v, &back)
    }
}

#[test]
fn tests_can_parse() {
    for v in SORTED {
        PureVersion::from_str(v).unwrap();
    }
}

#[test]
fn tests_prereleases_are_sorted() {
    assert!(SORTED.is_sorted_by_key(|v| PureVersion::from_str(v).unwrap()))
}

#[test]
fn tests_roundtrips() {
    for v in SORTED {
        let back = PureVersion::from_str(v).unwrap().display();
        assert_eq!(v, &back)
    }
}

fn v(s: &str) -> PureVersion {
    PureVersion::from_str(s).unwrap()
}

#[test]
fn strictly_increasing_chain() {
    let chain = ["1.0.0-alpha", "1.0.0-alpha.1", "1.0.0-alpha.beta", "1.0.0-beta", "1.0.0-rc.1", "1.0.0"];
    for w in chain.windows(2) {
        assert_eq!(v(w[0]).compare(&v(w[1])), Ordering::Less);
        assert_eq!(v(w[1]).compare(&v(w[0])), Ordering::Greater);
        assert!(v(w[0]) < v(w[1]));
    }
    assert_eq!(v("1.0.0-beta.11").compare(&v("1.0.0-beta.2")), Ordering::Greater);
    assert_eq!(v("2.0.0").compare(&v("10.0.0")), Ordering::Less);
    assert_eq!(v("1.2.3-x").compare(&v("1.2.3-x")), Ordering::Equal);
}

#[test]
fn successor_and_previous() {
    let a = v("1.2.3");
    let n = a.duplicate().next();
    assert_eq!(n.display(), "1.2.4-0");
    assert!(n.has_prev());
    assert_eq!(n.display_prev(), Some("1.2.3".to_string()));
    let b = v("1.2.3-alpha");
    let m = b.duplicate().next();
    assert_eq!(m.display(), "1.2.3-alpha.0");
    assert!(m.has_prev());
    assert_eq!(m.display_prev(), Some("1.2.3-alpha".to_string()));
    assert_eq!(v("1.2.3").display_prev(), None);
    assert!(a.compare_next_to(&n));
    assert!(!a.compare_next_to(&m));
    assert!(!v("1.2.3").has_prev());
    assert!(!v("1.2.3-alpha").has_prev());
    assert!(!v("1.2.0-0").has_prev());
    assert!(v("1.2.1-0").has_prev());
}

#[test]
fn extremes() {
    assert_eq!(PureVersion::min_extreme().display(), "0.0.0-0");
    let max = PureVersion::max_extreme();
    assert_eq!(max.major, u64::MAX);
    assert!(!max.is_prerelease());
    assert!(PureVersion::new(0, 1, 2).is_major_zero());
}

#[test]
fn version_errors() {
    assert!(matches!(PureVersion::from_str("1.2"), Err(InvalidPureVersion::MissingNumericPart { part: NumericPart::Patch })));
    assert!(matches!(PureVersion::from_str("1"), Err(InvalidPureVersion::MissingNumericPart { part: NumericPart::Minor })));
    assert!(matches!(PureVersion::from_str("x"), Err(InvalidPureVersion::MissingNumericPart { part: NumericPart::Minor })));
    match PureVersion::from_str("x.2.3") {
        Err(InvalidPureVersion::InvalidNumericPart { part: NumericPart::Major, value }) => assert_eq!(value, "x"),
        other => panic!("{:?}", other),
    }
    assert!(matches!(PureVersion::from_str("01.2.3"), Err(InvalidPureVersion::InvalidNumericPart { part: NumericPart::Major, .. })));
    assert!(matches!(PureVersion::from_str("1.99999999999999999999.3"), Err(InvalidPureVersion::NumericPartTooLong { part: NumericPart::Minor })));
    assert!(matches!(PureVersion::from_str("99999999999999999999.99999999999999999999.3"), Err(InvalidPureVersion::NumericPartTooLong { part: NumericPart::Major })));
    assert!(matches!(PureVersion::from_str("1.99999999999999999999.x"), Err(InvalidPureVersion::InvalidNumericPart { part: NumericPart::Minor, .. })));
    assert!(matches!(PureVersion::from_str("1.2.18446744073709551615"), Err(InvalidPureVersion::PatchCannotBeUIntMax)));
    assert!(PureVersion::from_str("1.2.18446744073709551615-0").is_ok());
    match PureVersion::from_str("1.2.3.4") {
        Err(InvalidPureVersion::ExtraBeforePrereleases { extra }) => assert_eq!(extra, "4"),
        other => panic!("{:?}", other),
    }
    match PureVersion::from_str("1.2.3-a_b") {
        Err(InvalidPureVersion::InvalidPrerelease { source: InvalidPrerelease::InvalidCharacters { id, ch } }) => {
            assert_eq!(id, "a_b");
            assert_eq!(ch, '_');
        }
        other => panic!("{:?}", other),
    }
    assert!(matches!(PureVersion::from_str("1.2.3-a+b"), Err(InvalidPureVersion::InvalidPrerelease { source: InvalidPrerelease::InvalidCharacters { ch: '+', .. } })));
    assert!(matches!(PureVersion::from_str("1.2.3-01"), Err(InvalidPureVersion::InvalidPrerelease { source: InvalidPrerelease::LeadingZeros { .. } })));
    assert!(matches!(PureVersion::from_str("1.2.3-"), Err(InvalidPureVersion::InvalidPrerelease { source: InvalidPrerelease::Empty })));
    assert!(matches!(PureVersion::from_str("1.2.3-é"), Err(InvalidPureVersion::InvalidPrerelease { source: InvalidPrerelease::InvalidCharacters { ch: 'é', .. } })));
    assert_eq!(PureVersion::from_str("1.2.3-rc.1").unwrap().display(), "1.2.3-rc.1");
}

#[test]
fn prerelease_identifiers() {
    assert!(Prerelease::parse("12").unwrap().is_numeric());
    assert!(!Prerelease::parse("1a").unwrap().is_numeric());
    assert_eq!(Prerelease::parse("rc-1").unwrap().text(), "rc-1");
    assert!(matches!(Prerelease::parse(""), Err(InvalidPrerelease::Empty)));
    assert!(matches!(Prerelease::parse("007"), Err(InvalidPrerelease::LeadingZeros { .. })));
    assert!(matches!(Prerelease::parse("a.b"), Err(InvalidPrerelease::InvalidCharacters { ch: '.', .. })));
    assert_eq!(Prerelease::parse("9").unwrap().compare(&Prerelease::parse("10").unwrap()), Ordering::Less);
    assert_eq!(Prerelease::parse("999").unwrap().compare(&Prerelease::parse("a").unwrap()), Ordering::Less);
    assert_eq!(Prerelease::zero().text(), "0");
}
