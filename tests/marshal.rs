use dllbridge32::marshal::{parse_arguments, parse_i32, render_i32};

#[test]
fn reads_plain_and_signed_integers() {
    assert_eq!(parse_i32("3"), Some(3));
    assert_eq!(parse_i32("+17"), Some(17));
    assert_eq!(parse_i32("-42"), Some(-42));
    assert_eq!(parse_i32("0007"), Some(7));
    assert_eq!(parse_i32("-0"), Some(0));
}

#[test]
fn reads_the_limits_of_i32() {
    assert_eq!(parse_i32("2147483647"), Some(i32::MAX));
    assert_eq!(parse_i32("-2147483648"), Some(i32::MIN));
    assert_eq!(parse_i32("2147483648"), None);
    assert_eq!(parse_i32("-2147483649"), None);
    assert_eq!(parse_i32("99999999999999999999"), None);
}

#[test]
fn rejects_what_is_no_integer() {
    assert_eq!(parse_i32(""), None);
    assert_eq!(parse_i32("-"), None);
    assert_eq!(parse_i32("+"), None);
    assert_eq!(parse_i32("x"), None);
    assert_eq!(parse_i32("1x"), None);
    assert_eq!(parse_i32("--1"), None);
    assert_eq!(parse_i32("1.5"), None);
    assert_eq!(parse_i32(" 1"), None);
}

#[test]
fn arguments_are_read_in_order() {
    let args = vec!["3".to_string(), "-4".to_string(), "+5".to_string()];
    assert_eq!(parse_arguments(&args), Some(vec![3, -4, 5]));
    assert_eq!(parse_arguments(&Vec::new()), Some(Vec::new()));
}

#[test]
fn one_bad_argument_fails_all() {
    let args = vec!["3".to_string(), "x".to_string()];
    assert_eq!(parse_arguments(&args), None);
}

#[test]
fn renders_decimal_text() {
    assert_eq!(render_i32(0), "0");
    assert_eq!(render_i32(42), "42");
    assert_eq!(render_i32(-7), "-7");
    assert_eq!(render_i32(1000), "1000");
    assert_eq!(render_i32(i32::MAX), "2147483647");
    assert_eq!(render_i32(i32::MIN), "-2147483648");
}
