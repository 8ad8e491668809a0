use visit_recorder::simple_math::{add, add_with_extra, is_even};
use visit_recorder::text::u32_to_decimal;

#[test]
fn is_even_checks_parity() {
    assert!(is_even(2));
    assert!(!is_even(3));
    assert!(is_even(0));
    assert!(is_even(-4));
    assert!(!is_even(-3));
}

#[test]
fn add_includes_the_extra_ten() {
    assert_eq!(add(1, 2), 13);
    assert_eq!(add_with_extra(1, 2), 13);
    assert_eq!(add(add(1, 2), add(30, 30)), 93);
    assert_eq!(add(-10, 0), 0);
}

#[test]
fn decimal_rendering_is_exact() {
    assert_eq!(u32_to_decimal(0), "0");
    assert_eq!(u32_to_decimal(7), "7");
    assert_eq!(u32_to_decimal(10), "10");
    assert_eq!(u32_to_decimal(123), "123");
    assert_eq!(u32_to_decimal(u32::MAX), "4294967295");
}
