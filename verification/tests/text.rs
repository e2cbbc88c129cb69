use storage::text::{
    debug_strings, int_to_string, join, less_text, order_by_text, parse_i32, parse_i8, parse_u16, parse_u64,
    parse_u8, split_char, starts_with,
};

#[test]
fn parse_like_str_parse() {
    assert_eq!(parse_i32("-12"), Some(-12));
    assert_eq!(parse_i32("+7"), Some(7));
    assert_eq!(parse_i32(""), None);
    assert_eq!(parse_i32("-"), None);
    assert_eq!(parse_i32("1a"), None);
    assert_eq!(parse_i32("2147483647"), Some(i32::MAX));
    assert_eq!(parse_i32("2147483648"), None);
    assert_eq!(parse_i32("-2147483648"), Some(i32::MIN));
    assert_eq!(parse_i8("127"), Some(127));
    assert_eq!(parse_i8("128"), None);
    assert_eq!(parse_u8("-0"), None);
    assert_eq!(parse_u8("+255"), Some(255));
    assert_eq!(parse_u16("65536"), None);
    assert_eq!(parse_u64("18446744073709551615"), Some(u64::MAX));
    assert_eq!(parse_u64("18446744073709551616"), None);
}

#[test]
fn decimal_text_reads_back() {
    for n in [0i32, 1, -1, 42, -2024, i32::MAX, i32::MIN] {
        assert_eq!(int_to_string(n as i128), n.to_string());
        assert_eq!(parse_i32(&int_to_string(n as i128)), Some(n));
    }
}

#[test]
fn join_undoes_split() {
    let parts = split_char("a,,b", ',');
    assert_eq!(parts, vec!["a".to_string(), "".to_string(), "b".to_string()]);
    assert_eq!(join(&parts, ","), "a,,b");
    assert_eq!(split_char("", ','), vec!["".to_string()]);
    assert_eq!(join(&split_char("p1,p2", ','), ","), "p1,p2");
}

#[test]
fn debug_of_list_of_strings() {
    assert_eq!(debug_strings(&vec!["a".to_string(), "b\"c".to_string()]), "[\"a\", \"b\\\"c\"]");
    assert_eq!(debug_strings(&Vec::new()), "[]");
}

#[test]
fn text_order_as_strings() {
    assert!(less_text("chunk10", "chunk2"));
    assert!(less_text("ab", "abc"));
    assert!(!less_text("b", "a"));
    assert!(!less_text("a", "a"));
    let keys = vec!["b".to_string(), "a".to_string(), "ab".to_string()];
    assert_eq!(order_by_text(&keys), vec![1, 2, 0]);
}

#[test]
fn prefix_test() {
    assert!(starts_with("f1_0_chunk0", "f1_"));
    assert!(!starts_with("f1", "f1_"));
}
