use ssb_parser::values::{
    alpha_from_str, bool_from_str, map_else_err_str, map_or_err_str, parse_timestamp,
    rgb_from_str,
};

#[test]
fn parse_timestamp_various() {
    assert_eq!(parse_timestamp(""), Ok(0));
    assert_eq!(parse_timestamp("1:2.3"), Ok(62_003));
    assert_eq!(parse_timestamp("59:59.999"), Ok(3_599_999));
    assert_eq!(parse_timestamp("1::.1"), Ok(3_600_001));
}

#[test]
fn parse_timestamp_forms() {
    assert_eq!(parse_timestamp("5"), Ok(5));
    assert_eq!(parse_timestamp("2.5"), Ok(2_005));
    assert_eq!(parse_timestamp("3:7"), Ok(180_007));
    assert_eq!(parse_timestamp("1:2:3"), Ok(3_720_003));
    assert_eq!(parse_timestamp("99:99:99.999"), Ok(362_439_999));
    assert_eq!(parse_timestamp("::."), Ok(0));
}

#[test]
fn parse_timestamp_rejects() {
    assert_eq!(parse_timestamp("1234"), Err(()));
    assert_eq!(parse_timestamp("123.4"), Err(()));
    assert_eq!(parse_timestamp("1:2:3:4"), Err(()));
    assert_eq!(parse_timestamp("1.2.3"), Err(()));
    assert_eq!(parse_timestamp("1.2:3"), Err(()));
    assert_eq!(parse_timestamp("a"), Err(()));
    assert_eq!(parse_timestamp("1:2.3x"), Err(()));
    assert_eq!(parse_timestamp("\u{0663}"), Err(()));
}

#[test]
fn parse_bool() {
    assert_eq!(bool_from_str("y"), Ok(true));
    assert_eq!(bool_from_str("n"), Ok(false));
    assert_eq!(bool_from_str("no"), Err(()));
}

#[test]
fn parse_bool_rejects() {
    assert_eq!(bool_from_str(""), Err(()));
    assert_eq!(bool_from_str("Y"), Err(()));
    assert_eq!(bool_from_str("yy"), Err(()));
}

#[test]
fn parse_rgb_alpha() {
    assert_eq!(alpha_from_str(""), Err(()));
    assert_eq!(alpha_from_str("A"), Ok(10));
    assert_eq!(alpha_from_str("C1"), Ok(193));
    assert_eq!(alpha_from_str("1FF"), Err(()));
    assert_eq!(rgb_from_str(""), Err(()));
    assert_eq!(rgb_from_str("1FF"), Ok([0, 1, 255]));
    assert_eq!(rgb_from_str("808080"), Ok([128, 128, 128]));
    assert_eq!(rgb_from_str("FFFF01"), Ok([255, 255, 1]));
    assert_eq!(rgb_from_str("1FFFFFF"), Err(()));
}

#[test]
fn parse_rgb_alpha_edges() {
    assert_eq!(alpha_from_str("ff"), Ok(255));
    assert_eq!(alpha_from_str("+f"), Ok(15));
    assert_eq!(alpha_from_str("+"), Err(()));
    assert_eq!(alpha_from_str("-1"), Err(()));
    assert_eq!(alpha_from_str("g"), Err(()));
    assert_eq!(alpha_from_str("\u{e9}"), Err(()));
    assert_eq!(rgb_from_str("+12345"), Ok([0x01, 0x23, 0x45]));
    assert_eq!(rgb_from_str("a1B2c3"), Ok([0xa1, 0xb2, 0xc3]));
    assert_eq!(rgb_from_str("12 456"), Err(()));
}

#[test]
fn map_err_str() {
    assert_eq!(map_or_err_str(Some("123"), |value| value.parse()), Ok(123));
    assert_eq!(map_else_err_str(Some("987a"), |value| value.parse::<i32>().ok()), Err("987a"));
}

#[test]
fn map_err_str_other_cases() {
    assert_eq!(map_or_err_str(Some("12x"), |value| value.parse::<u8>()), Err("12x"));
    assert_eq!(map_or_err_str(None, |value| value.parse::<u8>()), Err(""));
    assert_eq!(map_else_err_str(Some("42"), |value| value.parse::<i32>().ok()), Ok(42));
    assert_eq!(map_else_err_str(None, |value| value.parse::<i32>().ok()), Err(""));
}
