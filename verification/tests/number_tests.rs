use json_parser::number::parse_i32;

#[test]
fn test_parse_i32_plain_values() {
    assert_eq!(parse_i32("0"), Some(0));
    assert_eq!(parse_i32("7"), Some(7));
    assert_eq!(parse_i32("1337"), Some(1337));
    assert_eq!(parse_i32("-1234"), Some(-1234));
    assert_eq!(parse_i32("-0"), Some(0));
}

#[test]
fn test_parse_i32_leading_zeros() {
    assert_eq!(parse_i32("007"), Some(7));
    assert_eq!(parse_i32("-007"), Some(-7));
    assert_eq!(parse_i32("0000000000000000042"), Some(42));
}

#[test]
fn test_parse_i32_range_boundaries() {
    assert_eq!(parse_i32("2147483647"), Some(i32::MAX));
    assert_eq!(parse_i32("-2147483648"), Some(i32::MIN));
    assert_eq!(parse_i32("2147483648"), None);
    assert_eq!(parse_i32("-2147483649"), None);
    assert_eq!(parse_i32("99999999999999999999999"), None);
}

#[test]
fn test_parse_i32_malformed() {
    assert_eq!(parse_i32(""), None);
    assert_eq!(parse_i32("-"), None);
    assert_eq!(parse_i32("+5"), None);
    assert_eq!(parse_i32("12a"), None);
    assert_eq!(parse_i32("3.5"), None);
    assert_eq!(parse_i32("1e3"), None);
    assert_eq!(parse_i32(" 1"), None);
}
