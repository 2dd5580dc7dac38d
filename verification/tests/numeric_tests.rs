use rorthi::numeric::parse_i32;
use rorthi::numeric::pow_checked;

#[test]
fn parses_plain_and_signed_integers() {
    assert_eq!(parse_i32("0"), Some(0));
    assert_eq!(parse_i32("42"), Some(42));
    assert_eq!(parse_i32("-42"), Some(-42));
    assert_eq!(parse_i32("+7"), Some(7));
    assert_eq!(parse_i32("007"), Some(7));
}

#[test]
fn parses_the_extremes() {
    assert_eq!(parse_i32("2147483647"), Some(i32::MAX));
    assert_eq!(parse_i32("-2147483648"), Some(i32::MIN));
    assert_eq!(parse_i32("2147483648"), None);
    assert_eq!(parse_i32("-2147483649"), None);
    assert_eq!(parse_i32("99999999999999999999"), None);
}

#[test]
fn rejects_malformed_literals() {
    assert_eq!(parse_i32(""), None);
    assert_eq!(parse_i32("-"), None);
    assert_eq!(parse_i32("+"), None);
    assert_eq!(parse_i32("12a"), None);
    assert_eq!(parse_i32("a12"), None);
    assert_eq!(parse_i32("1 2"), None);
    assert_eq!(parse_i32("--1"), None);
}

#[test]
fn power_has_exact_values() {
    assert_eq!(pow_checked(2, 10), Some(1024));
    assert_eq!(pow_checked(0, 0), Some(1));
    assert_eq!(pow_checked(-2, 3), Some(-8));
    assert_eq!(pow_checked(1, 4_000_000_000), Some(1));
}

#[test]
fn power_reports_overflow() {
    assert_eq!(pow_checked(2, 31), None);
    assert_eq!(pow_checked(10, 10), None);
}
