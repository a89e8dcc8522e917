use tower_aws::decimal::decimal_text;
use tower_aws::decimal::parse_i64;

#[test]
fn parses_signed_decimals() {
    assert_eq!(parse_i64("123"), Some(123));
    assert_eq!(parse_i64("-45"), Some(-45));
    assert_eq!(parse_i64("+7"), Some(7));
    assert_eq!(parse_i64("007"), Some(7));
    assert_eq!(parse_i64("9223372036854775807"), Some(i64::MAX));
    assert_eq!(parse_i64("-9223372036854775808"), Some(i64::MIN));
}

#[test]
fn rejects_what_i64_parsing_rejects() {
    for bad in ["", "-", "+", "12a", " 1", "1.5", "9223372036854775808", "-9223372036854775809", "--1"] {
        assert_eq!(parse_i64(bad), None, "{}", bad);
        assert!(bad.parse::<i64>().is_err());
    }
}

#[test]
fn writes_decimals() {
    assert_eq!(decimal_text(0), "0");
    assert_eq!(decimal_text(7), "7");
    assert_eq!(decimal_text(-15), "-15");
    assert_eq!(decimal_text(1_700_000_060), "1700000060");
    assert_eq!(decimal_text(i64::MAX), i64::MAX.to_string());
    assert_eq!(decimal_text(i64::MIN), i64::MIN.to_string());
}
