use orderbook::decimal::parse_fixed8;
use orderbook::text::text_equals;

#[test]
fn fixed8_reads_integers_and_fractions() {
    assert_eq!(parse_fixed8("12"), Some(1_200_000_000));
    assert_eq!(parse_fixed8("0.1"), Some(10_000_000));
    assert_eq!(parse_fixed8("43210.5"), Some(4_321_050_000_000));
    assert_eq!(parse_fixed8("5."), Some(500_000_000));
    assert_eq!(parse_fixed8(".5"), Some(50_000_000));
    assert_eq!(parse_fixed8("0.00000001"), Some(1));
    assert_eq!(parse_fixed8("007"), Some(700_000_000));
}

#[test]
fn fixed8_takes_quotes_out() {
    assert_eq!(parse_fixed8("\"2.5\""), Some(250_000_000));
    assert_eq!(parse_fixed8("\"1\"0"), Some(1_000_000_000));
}

#[test]
fn fixed8_refuses_what_is_not_a_numeral() {
    assert_eq!(parse_fixed8(""), None);
    assert_eq!(parse_fixed8("\"\""), None);
    assert_eq!(parse_fixed8("."), None);
    assert_eq!(parse_fixed8("1.2.3"), None);
    assert_eq!(parse_fixed8("-1"), None);
    assert_eq!(parse_fixed8("1e5"), None);
    assert_eq!(parse_fixed8("abc"), None);
    assert_eq!(parse_fixed8("1.123456789"), None);
}

#[test]
fn fixed8_stops_at_i64() {
    assert_eq!(parse_fixed8("92233720368.54775807"), Some(i64::MAX));
    assert_eq!(parse_fixed8("92233720368.54775808"), None);
    assert_eq!(parse_fixed8("100000000000000000000000000000"), None);
}

#[test]
fn text_equals_compares_characters() {
    assert!(text_equals("Sell", "Sell"));
    assert!(!text_equals("Sell", "Buy"));
    assert!(!text_equals("Sell", "Sel"));
    assert!(text_equals("", ""));
    assert!(!text_equals("é", "e"));
}
