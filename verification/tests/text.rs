use redis_core::text::{has_text, join, parse_u64};

#[test]
fn test_join_puts_the_separator_between_words() {
    let ws: Vec<String> = vec![String::from("a"), String::from("bc"), String::from("d")];
    assert_eq!(join(&ws, " "), "a bc d");
    assert_eq!(join(&ws, ", "), "a, bc, d");
    assert_eq!(join(&vec![String::from("only")], " "), "only");
    assert_eq!(join(&Vec::new(), " "), "");
}

#[test]
fn test_has_text_compares_exactly() {
    assert!(has_text(&String::from("get"), "get"));
    assert!(!has_text(&String::from("GET"), "get"));
    assert!(!has_text(&String::from("gets"), "get"));
}

#[test]
fn test_parse_u64_reads_decimal_numbers() {
    assert_eq!(parse_u64("0"), Some(0));
    assert_eq!(parse_u64("+42"), Some(42));
    assert_eq!(parse_u64("0042"), Some(42));
    assert_eq!(parse_u64("18446744073709551615"), Some(u64::MAX));
    assert_eq!(parse_u64("18446744073709551616"), None);
    assert_eq!(parse_u64("99999999999999999999x"), None);
    for bad in ["", "+", "-1", "-", " 1", "1 ", "1_0", "++1", "\u{661}", "x"] {
        assert_eq!(parse_u64(bad), None, "{:?}", bad);
        assert_eq!(bad.parse::<u64>().ok(), None);
    }
    for good in ["7", "+0", "123456789", "000"] {
        assert_eq!(parse_u64(good), good.parse::<u64>().ok());
    }
}
