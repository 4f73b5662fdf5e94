use areq::parse::RangeParseError;
use areq::range::Range;
use areq::version::pure::{InvalidPureVersion, NumericPart, PureVersion};

fn v(s: &str) -> PureVersion {
    PureVersion::from_str(s).unwrap()
}

fn r(s: &str) -> Range<PureVersion> {
    Range::from_str(s).unwrap()
}

#[test]
fn containment_and_adjacency() {
    let x = v("1.0.0-alpha.1");
    assert!(r(">=1.0.0-alpha && <1.0.0-beta").contains(&x));
    assert!(!r("==1.0.0-alpha").contains(&x));
    assert!(r("==1.0.0-alpha").contains(&v("1.0.0-alpha")));
}

#[test]
fn literals_and_negation() {
    assert!(r("-").is_empty());
    assert!(r("*").is_full());
    assert!(r("!*").is_empty());
    assert!(r("!!*").is_full());
    assert!(r("! ! -").is_empty());
    assert_eq!(r("!=1.2.3"), r("<1.2.3 || >1.2.3"));
    assert_eq!(r("!=1.2.3"), Range::except(v("1.2.3")));
    assert_eq!(r("!(==1.2.3)"), Range::except(v("1.2.3")));
}

#[test]
fn lone_bang_is_not_an_expression() {
    assert!(Range::<PureVersion>::from_str("!").is_err());
}

#[test]
fn precedence_and_whitespace() {
    let a = r(">=1.0.0 && <2.0.0 || >=3.0.0");
    let b = r("( >=1.0.0&&<2.0.0 ) || ( >=3.0.0 )");
    assert_eq!(a, b);
    assert!(a.contains(&v("1.5.0")));
    assert!(!a.contains(&v("2.5.0")));
    assert!(a.contains(&v("3.0.0")));
    let c = r(">=1.0.0 && (<2.0.0 || >=3.0.0)");
    assert_eq!(a, c);
    let d = r("<= 1.2.3");
    assert!(d.contains(&v("1.2.3")));
    assert!(!d.contains(&v("1.2.4-0")));
}

#[test]
fn rendering() {
    assert_eq!(r(">=1.0.0 && <2.0.0").display(), ">=1.0.0 && <2.0.0");
    assert_eq!(r("==1.2.3").display(), "==1.2.3");
    assert_eq!(r("<=1.2.3").display(), "<=1.2.3");
    assert_eq!(r(">1.2.3").display(), ">1.2.3");
    assert_eq!(r("*").display(), "*");
    assert_eq!(r("-").display(), "-");
    assert_eq!(r("!=1.2.3").display(), "<1.2.3 || >1.2.3");
    assert_eq!(r(">1.0.0-alpha && <=2.0.0").display(), ">1.0.0-alpha && <=2.0.0");
}

#[test]
fn render_then_parse_gives_the_same_range() {
    let texts = [
        ">=1.0.0 && <2.0.0 || >=3.0.0-rc.1",
        "!=1.2.3",
        "==0.0.0-0",
        "<=1.0.0-alpha.0",
        ">1.0.0-alpha && <1.0.0-beta.2 || ==4.5.6",
        "*",
        "-",
        "!(>=1.0.0) || ==2.0.0-x",
    ];
    for t in texts {
        let a = r(t);
        let b = r(&a.display());
        assert_eq!(a, b, "{}", t);
    }
}

#[test]
fn ordering_chain_renders_back() {
    let chain = ["1.0.0-alpha", "1.0.0-alpha.1", "1.0.0-alpha.beta", "1.0.0-beta", "1.0.0-rc.1", "1.0.0"];
    for w in chain.windows(2) {
        let lo = v(w[0]);
        let hi = v(w[1]);
        assert!(r(&format!("=={}", w[1])).and(&r(&format!("<={}", w[0]))).is_empty());
        assert!(lo < hi);
        assert_eq!(r(&format!("=={}", w[0])).display(), format!("=={}", w[0]));
    }
}

#[test]
fn parse_errors() {
    let e = Range::<PureVersion>::from_str(">=1.x").unwrap_err();
    assert!(matches!(e[0], RangeParseError::ParseExtreme { source: InvalidPureVersion::MissingNumericPart { .. }, at: 2 }));
    let e = Range::<PureVersion>::from_str("<1.2").unwrap_err();
    assert!(matches!(e[0], RangeParseError::ParseExtreme { source: InvalidPureVersion::MissingNumericPart { part: NumericPart::Patch }, at: 1 }));
    let e = Range::<PureVersion>::from_str("<1.99999999999999999999.0").unwrap_err();
    assert!(matches!(e[0], RangeParseError::ParseExtreme { source: InvalidPureVersion::NumericPartTooLong { part: NumericPart::Minor }, .. }));
    let e = Range::<PureVersion>::from_str("~1.2.3").unwrap_err();
    assert!(matches!(e[0], RangeParseError::UnrecognizedConstraintOperator { at: 0, .. }));
    let e = Range::<PureVersion>::from_str("(<1.0.0").unwrap_err();
    assert!(matches!(e[0], RangeParseError::UnexpectedInput { at: 7 }));
    let e = Range::<PureVersion>::from_str("<1.0.0 )").unwrap_err();
    assert!(matches!(e[0], RangeParseError::UnexpectedInput { at: 7 }));
    let e = Range::<PureVersion>::from_str("<1.0.0 && é").unwrap_err();
    assert!(matches!(e[0], RangeParseError::UnrecognizedConstraintOperator { at: 10, .. }));
    assert_eq!(r("<1.0.0\u{a0}&&\u{3000}>=0.1.0"), r("<1.0.0 && >=0.1.0"));
    assert!(Range::<PureVersion>::from_str("").is_err());
    assert!(Range::<PureVersion>::from_str("<1.0.0 &&").is_err());
}
