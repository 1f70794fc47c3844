use playground::text::{decimal_string, push_decimal, push_signed_decimal};

#[test]
fn decimal_of_zero_and_small_numbers() {
    assert_eq!(decimal_string(0), "0");
    assert_eq!(decimal_string(7), "7");
    assert_eq!(decimal_string(10), "10");
    assert_eq!(decimal_string(1234), "1234");
}

#[test]
fn decimal_of_largest_number() {
    assert_eq!(decimal_string(u64::MAX), u64::MAX.to_string());
}

#[test]
fn decimal_appends_to_existing_text() {
    let mut s = String::from("n=");
    push_decimal(&mut s, 905);
    assert_eq!(s, "n=905");
}

#[test]
fn signed_decimal_renders_sign() {
    let mut s = String::new();
    push_signed_decimal(&mut s, -42);
    s.push(' ');
    push_signed_decimal(&mut s, 42);
    s.push(' ');
    push_signed_decimal(&mut s, i64::MIN);
    assert_eq!(s, format!("-42 42 {}", i64::MIN));
}
