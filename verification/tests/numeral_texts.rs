use names_etl::numerals::{check_real, parse_i32};

#[test]
fn integers_parse_to_their_values() {
    assert_eq!(parse_i32("0"), Some(0));
    assert_eq!(parse_i32("42"), Some(42));
    assert_eq!(parse_i32("+0007"), Some(7));
    assert_eq!(parse_i32("-15"), Some(-15));
    assert_eq!(parse_i32("2147483647"), Some(i32::MAX));
    assert_eq!(parse_i32("-2147483648"), Some(i32::MIN));
}

#[test]
fn out_of_range_integers_are_rejected() {
    assert_eq!(parse_i32("2147483648"), None);
    assert_eq!(parse_i32("-2147483649"), None);
    assert_eq!(parse_i32("99999999999999999999"), None);
}

#[test]
fn malformed_integers_are_rejected() {
    assert_eq!(parse_i32(""), None);
    assert_eq!(parse_i32("+"), None);
    assert_eq!(parse_i32("-"), None);
    assert_eq!(parse_i32(" 1"), None);
    assert_eq!(parse_i32("1 "), None);
    assert_eq!(parse_i32("12a"), None);
    assert_eq!(parse_i32("1.5"), None);
    assert_eq!(parse_i32("--1"), None);
}

#[test]
fn real_literals_are_accepted() {
    assert!(check_real("1"));
    assert!(check_real("1."));
    assert!(check_real(".5"));
    assert!(check_real("0.45"));
    assert!(check_real("-0.5"));
    assert!(check_real("+3.14"));
    assert!(check_real("1e5"));
    assert!(check_real("1E-5"));
    assert!(check_real("-2.5e+10"));
    assert!(check_real("0.0"));
}

#[test]
fn non_numeric_texts_are_rejected() {
    assert!(!check_real(""));
    assert!(!check_real("."));
    assert!(!check_real("+"));
    assert!(!check_real("e5"));
    assert!(!check_real("1e"));
    assert!(!check_real("1e+"));
    assert!(!check_real("1.2.3"));
    assert!(!check_real("1..2"));
    assert!(!check_real("--1"));
    assert!(!check_real("abc"));
    assert!(!check_real(" 1"));
    assert!(!check_real("half"));
}
