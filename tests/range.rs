use areq::extreme::RangeExtremeDisplay;
use areq::range::Range;

#[test]
fn empty() {
    assert!(Range::<u64>::empty().is_empty());
}

#[test]
fn empty_eval_equal() {
    assert_eq!(Range::between(4, 2), Range::between(400, 20));
}

#[test]
fn intersect_extremals() {
    assert!(Range::between_include_end(4, 6).intersect(&Range::between(6, 7)));
    assert!(!Range::between(4, 6).intersect(&Range::between(6, 9)));
}

#[test]
fn between_keeps_start_drops_end() {
    let r = Range::<u64>::between(3, 7);
    assert!(!r.contains(&2));
    assert!(r.contains(&3));
    assert!(r.contains(&6));
    assert!(!r.contains(&7));
    assert_eq!(r.boundaries(), &vec![3, 7]);
}

#[test]
fn inclusive_variants() {
    let r = Range::<u64>::between_exclude_start_include_end(3, 7);
    assert!(!r.contains(&3));
    assert!(r.contains(&4));
    assert!(r.contains(&7));
    assert!(!r.contains(&8));
    assert_eq!(Range::<u64>::between_exclude_start(3, 7), Range::between(4, 7));
    assert_eq!(Range::<u64>::between_include_end(3, 7), Range::between(3, 8));
}

#[test]
fn greatest_value_is_included_by_unbounded_ranges() {
    assert!(Range::<u64>::from(5).contains(&u64::MAX));
    assert!(!Range::<u64>::between(5, u64::MAX).contains(&u64::MAX));
    assert!(Range::<u64>::to_inclusive(u64::MAX).is_full());
    assert!(Range::<u64>::from_exclusive(u64::MAX).is_empty());
    assert!(Range::<u64>::single(u64::MAX).is_single());
    assert!(Range::<u64>::single(u64::MAX).contains(&u64::MAX));
    assert_eq!(Range::<u64>::between_include_end(5, u64::MAX), Range::from(5));
}

#[test]
fn least_value() {
    assert!(Range::<u64>::from(0).is_full());
    assert!(Range::<u64>::to(0).is_empty());
    assert_eq!(Range::<u64>::full().boundaries(), &vec![0]);
    assert!(Range::<i32>::full().contains(&i32::MIN));
}

#[test]
fn single_and_except() {
    let s = Range::<u64>::single(9);
    assert!(s.is_single());
    assert!(s.contains(&9));
    assert!(!s.contains(&10));
    let e = Range::<u64>::except(9);
    assert!(!e.contains(&9));
    assert!(e.contains(&8) && e.contains(&10));
    assert_eq!(e, s.not());
    assert!(!Range::<u64>::between(1, 3).is_single());
    assert!(!Range::<u64>::empty().is_single());
}

#[test]
fn union_and_intersection() {
    let a = Range::<u64>::between(1, 5);
    let b = Range::<u64>::between(3, 9);
    assert_eq!(a.or(&b), Range::between(1, 9));
    assert_eq!(a.and(&b), Range::between(3, 5));
    assert_eq!(a.intersection(&b), Range::between(3, 5));
    let c = Range::<u64>::between(10, 12);
    assert_eq!(a.or(&c).boundaries(), &vec![1, 5, 10, 12]);
    assert!(a.and(&c).is_empty());
    assert!(Range::<u64>::between(5, 7).or(&Range::between(1, 5)) == Range::between(1, 7));
}

#[test]
fn symmetric_difference_of_many() {
    let a = Range::<u64>::between(1, 5);
    let b = Range::<u64>::between(3, 9);
    let c = Range::<u64>::between(4, 6);
    let x = Range::xor(&[a, b, c]);
    assert_eq!(x.boundaries(), &vec![1, 3, 4, 5, 6, 9]);
    assert!(Range::<u64>::xor(&[]).is_empty());
}

#[test]
fn containment_of_ranges() {
    let a = Range::<u64>::between(1, 10);
    assert!(a.contains_range(&Range::between(2, 5)));
    assert!(!a.contains_range(&Range::between(5, 11)));
    assert!(a.contains_range(&Range::empty()));
    assert!(!Range::<u64>::empty().contains_range(&a));
}

#[test]
fn complement_toggles_least_value() {
    let a = Range::<u64>::between(3, 7);
    assert_eq!(a.not().boundaries(), &vec![0, 3, 7]);
    assert_eq!(a.not().not(), a);
    assert!(Range::<u64>::empty().not().is_full());
    assert!(Range::<u64>::full().not().is_empty());
}

#[test]
fn laws_on_values() {
    let r = Range::<u64>::between(3, 7).or(&Range::from(20));
    let s = Range::<u64>::between(5, 25);
    assert_eq!(r.or(&s), s.or(&r));
    assert_eq!(r.and(&s), s.and(&r));
    assert_eq!(r.and(&s).and(&s), r.and(&s));
    assert!(r.and(&r.not()).is_empty());
    assert!(r.or(&r.not()).is_full());
}

#[test]
fn numbers_render() {
    assert_eq!(Range::<u64>::between(3, 7).display(), ">2 && <=6");
    assert_eq!(Range::<u64>::to(7).display(), "<=6");
    assert_eq!(Range::<u64>::from(3).display(), ">2");
    assert_eq!(Range::<u64>::from(0).display(), "*");
    assert_eq!(Range::<u64>::empty().display(), "-");
    assert_eq!(Range::<u64>::single(4).display(), "==4");
    assert_eq!(Range::<u64>::between(0, 2).or(&Range::from(5)).display(), "<=1 || >4");
    assert_eq!(7u64.display_prev(), Some("6".to_string()));
    assert_eq!(0u64.display_prev(), None);
    assert_eq!(Range::<u64>::from(u64::MAX).display(), "==18446744073709551615");
}

#[test]
fn numbers_parse() {
    let r = Range::<u64>::from_str(">2 && <=6").unwrap();
    assert_eq!(r, Range::between(3, 7));
    assert_eq!(Range::<u64>::from_str("  ( <4 || >=10 ) && !(==12) ").unwrap(), Range::to(4).or(&Range::from(10).and(&Range::except(12))));
    assert!(Range::<u64>::from_str("<99999999999999999999").is_err());
    assert!(Range::<u64>::from_str("!==12").is_err());
}

#[test]
fn signed_numbers_render_and_parse() {
    assert_eq!(Range::<i32>::between(-3, 7).display(), ">-4 && <=6");
    assert_eq!(Range::<i8>::single(i8::MIN).display(), "==-128");
    assert_eq!(Range::<i8>::to(-100).display(), "<=-101");
    assert_eq!(i8::MIN.display_prev(), None);
    let r = Range::<i8>::from_str(">=-128 && <127").unwrap();
    assert_eq!(r, Range::between(i8::MIN, 127));
    assert_eq!(Range::<i8>::from_str(&r.display()).unwrap(), r);
    assert!(Range::<i8>::from_str("<128").is_err());
    assert!(Range::<i8>::from_str("<-129").is_err());
    assert!(Range::<u8>::from_str("<-1").is_err());
    assert_eq!(Range::<u128>::from_str("==340282366920938463463374607431768211455").unwrap(), Range::single(u128::MAX));
    assert_eq!(Range::<i128>::single(i128::MIN).display(), "==-170141183460469231731687303715884105728");
}

#[test]
fn integer_ranges_read_back() {
    let texts = ["<=5 || >9 && <20", "!=0", "*", "-", "==18446744073709551615", ">18446744073709551614", "!(<3)"];
    for t in texts {
        let a = Range::<u64>::from_str(t).unwrap();
        assert_eq!(Range::<u64>::from_str(&a.display()).unwrap(), a, "{}", t);
    }
    let b = Range::<i16>::from_str(">=-32768 && <-5 || ==7").unwrap();
    assert_eq!(Range::<i16>::from_str(&b.display()).unwrap(), b);
}
