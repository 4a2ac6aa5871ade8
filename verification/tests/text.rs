use json_to_tables::text::{i64_to_string, join, push_decimal, str_eq, u64_to_string};

#[test]
fn decimal_of_zero_is_one_digit() {
    assert_eq!(u64_to_string(0), "0");
}

#[test]
fn decimal_has_no_leading_zeros() {
    assert_eq!(u64_to_string(7), "7");
    assert_eq!(u64_to_string(10), "10");
    assert_eq!(u64_to_string(1203), "1203");
    assert_eq!(u64_to_string(u64::MAX), "18446744073709551615");
}

#[test]
fn negative_numbers_get_a_minus_sign() {
    assert_eq!(i64_to_string(-1), "-1");
    assert_eq!(i64_to_string(-250), "-250");
    assert_eq!(i64_to_string(42), "42");
    assert_eq!(i64_to_string(0), "0");
}

#[test]
fn the_extremes_of_i64_are_written_in_full() {
    assert_eq!(i64_to_string(i64::MIN), "-9223372036854775808");
    assert_eq!(i64_to_string(i64::MAX), "9223372036854775807");
}

#[test]
fn push_decimal_appends() {
    let mut out = String::from("table_");
    push_decimal(&mut out, 12);
    assert_eq!(out, "table_12");
}

#[test]
fn join_puts_the_separator_between_neighbours() {
    let parts = vec![String::from("a"), String::from("b"), String::from("c")];
    assert_eq!(join(&parts, ","), "a,b,c");
    assert_eq!(join(&parts, "_in_"), "a_in_b_in_c");
}

#[test]
fn join_of_nothing_and_of_one() {
    let none: Vec<String> = Vec::new();
    assert_eq!(join(&none, ","), "");
    assert_eq!(join(&vec![String::from("x")], ","), "x");
    assert_eq!(join(&vec![String::new(), String::new()], ","), ",");
}

#[test]
fn str_eq_compares_characters() {
    assert!(str_eq("abc", "abc"));
    assert!(!str_eq("abc", "abd"));
    assert!(!str_eq("abc", "ab"));
    assert!(str_eq("", ""));
}
