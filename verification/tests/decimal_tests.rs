use rayitolib::decimal::append_decimal;
use rayitolib::decimal::get_uint_or;
use rayitolib::decimal::parse_u32;

#[test]
fn decimal_digits_exact() {
    let mut s = String::new();
    append_decimal(&mut s, 0);
    assert_eq!(s, "0");
    let mut s = String::new();
    append_decimal(&mut s, 305);
    assert_eq!(s, "305");
    let mut s = String::from("x=");
    append_decimal(&mut s, 4294967295);
    assert_eq!(s, "x=4294967295");
}

#[test]
fn parse_accepts_plain_numerals() {
    assert_eq!(parse_u32("0"), Some(0));
    assert_eq!(parse_u32("123"), Some(123));
    assert_eq!(parse_u32("007"), Some(7));
    assert_eq!(parse_u32("+42"), Some(42));
    assert_eq!(parse_u32("4294967295"), Some(4294967295));
}

#[test]
fn parse_rejects_malformed_numerals() {
    assert_eq!(parse_u32(""), None);
    assert_eq!(parse_u32("+"), None);
    assert_eq!(parse_u32("-3"), None);
    assert_eq!(parse_u32("12a"), None);
    assert_eq!(parse_u32(" 12"), None);
    assert_eq!(parse_u32("4294967296"), None);
    assert_eq!(parse_u32("99999999999999999999"), None);
}

#[test]
fn get_uint_or_takes_value_or_default() {
    let good = String::from("640");
    let bad = String::from("wide");
    assert_eq!(get_uint_or(Some(&good), 200), 640);
    assert_eq!(get_uint_or(Some(&bad), 200), 200);
    assert_eq!(get_uint_or(None, 100), 100);
}
