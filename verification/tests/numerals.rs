use core::cmp::Ordering;
use rustchain::numeral::{compare, Number};

fn num(s: &str) -> Number {
    Number::from_str(s).unwrap()
}

#[test]
fn parses_plain_digits() {
    let n = num("123");
    assert!(!n.is_negative);
    assert_eq!(n.digits, vec![1, 2, 3]);
}

#[test]
fn parses_signs_and_strips_leading_zeros() {
    let n = num("-0042");
    assert!(n.is_negative);
    assert_eq!(n.digits, vec![4, 2]);
    let p = num("+7");
    assert!(!p.is_negative);
    assert_eq!(p.digits, vec![7]);
}

#[test]
fn trims_surrounding_whitespace() {
    let n = num("  42\n");
    assert!(!n.is_negative);
    assert_eq!(n.digits, vec![4, 2]);
}

#[test]
fn all_zeros_is_canonical_zero() {
    for s in ["0", "000", "-0", "+0", "-", "+"] {
        let n = num(s);
        assert!(!n.is_negative, "{s}");
        assert!(n.digits.is_empty(), "{s}");
    }
}

#[test]
fn rejects_empty_and_non_digits() {
    assert!(Number::from_str("").is_none());
    assert!(Number::from_str("   ").is_none());
    assert!(Number::from_str("abc").is_none());
    assert!(Number::from_str("12a").is_none());
    assert!(Number::from_str("1 2").is_none());
    assert!(Number::from_str("--1").is_none());
}

#[test]
fn compares_by_value() {
    assert_eq!(compare(&num("21"), &num("13")), Ordering::Greater);
    assert_eq!(compare(&num("13"), &num("21")), Ordering::Less);
    assert_eq!(compare(&num("5"), &num("0005")), Ordering::Equal);
    assert_eq!(compare(&num("99"), &num("100")), Ordering::Less);
}

#[test]
fn compares_signed_values() {
    assert_eq!(compare(&num("-21"), &num("-13")), Ordering::Less);
    assert_eq!(compare(&num("-13"), &num("-21")), Ordering::Greater);
    assert_eq!(compare(&num("0"), &num("-5")), Ordering::Greater);
    assert_eq!(compare(&num("-5"), &num("5")), Ordering::Less);
    assert_eq!(compare(&num("-0"), &num("0")), Ordering::Equal);
    assert_eq!(compare(&num("-100"), &num("-99")), Ordering::Less);
}

#[test]
fn handles_numbers_of_different_magnitude() {
    assert_eq!(
        compare(&num("123456789123456789"), &num("123456789123456788")),
        Ordering::Greater
    );
    assert_eq!(compare(&num("1000000"), &num("999999")), Ordering::Greater);
}
