use exchange::text::{decimal_string, parse_u32, split_pair, text_eq};

#[test]
fn parse_accepts_plain_and_plus_signed_numbers() {
    assert_eq!(parse_u32("42"), Some(42));
    assert_eq!(parse_u32("+7"), Some(7));
    assert_eq!(parse_u32("007"), Some(7));
    assert_eq!(parse_u32("0"), Some(0));
    assert_eq!(parse_u32("4294967295"), Some(u32::MAX));
}

#[test]
fn parse_refuses_what_str_parse_refuses() {
    assert_eq!(parse_u32(""), None);
    assert_eq!(parse_u32("+"), None);
    assert_eq!(parse_u32("-1"), None);
    assert_eq!(parse_u32("12a"), None);
    assert_eq!(parse_u32(" 1"), None);
    assert_eq!(parse_u32("4294967296"), None);
    assert_eq!(parse_u32("99999999999999999999"), None);
}

#[test]
fn parse_agrees_with_std() {
    for s in ["", "+", "0", "+0", "12", "-3", "4294967295", "4294967296", "1x", "٣"] {
        assert_eq!(parse_u32(s), s.parse::<u32>().ok(), "{s}");
    }
}

#[test]
fn decimal_writes_what_to_string_writes() {
    assert_eq!(decimal_string(0), "0");
    assert_eq!(decimal_string(9), "9");
    assert_eq!(decimal_string(10), "10");
    assert_eq!(decimal_string(1234567890123), "1234567890123");
    assert_eq!(decimal_string(u128::MAX), u128::MAX.to_string());
}

#[test]
fn decimal_then_parse_gives_the_number_back() {
    for n in [0u32, 1, 9, 10, 4096, 123456, u32::MAX] {
        assert_eq!(parse_u32(&decimal_string(n as u128)), Some(n));
    }
}

#[test]
fn split_pair_takes_the_first_two_pieces() {
    assert_eq!(split_pair("SOL/USDT", '/'), ("SOL".to_string(), "USDT".to_string()));
    assert_eq!(split_pair("A/B/C", '/'), ("A".to_string(), "B".to_string()));
    assert_eq!(split_pair("/X", '/'), ("".to_string(), "X".to_string()));
    assert_eq!(split_pair("X/", '/'), ("X".to_string(), "".to_string()));
}

#[test]
fn text_eq_compares_characters() {
    assert!(text_eq("abc", "abc"));
    assert!(!text_eq("abc", "abd"));
    assert!(!text_eq("abc", "ab"));
    assert!(text_eq("", ""));
}

#[test]
fn contains_char_finds_characters() {
    assert!(exchange::text::contains_char("SOL/USDT", '/'));
    assert!(!exchange::text::contains_char("SOLUSDT", '/'));
    assert!(!exchange::text::contains_char("", '/'));
}
