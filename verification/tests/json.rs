use storage::json::parse_string_map;

#[test]
fn object_of_strings() {
    let m = parse_string_map(r#"{"a":"1","b":"x y"}"#).unwrap();
    assert_eq!(m.len(), 2);
    assert_eq!(m.get("a"), Some(&"1".to_string()));
    assert_eq!(m.get("b"), Some(&"x y".to_string()));
}

#[test]
fn value_that_is_not_a_string_reads_empty() {
    let m = parse_string_map(r#"{"a":2}"#).unwrap();
    assert_eq!(m.get("a"), Some(&String::new()));
}

#[test]
fn json_that_is_not_an_object_reads_empty_map() {
    assert_eq!(parse_string_map("[1, 2]").unwrap().len(), 0);
    assert_eq!(parse_string_map("{}").unwrap().len(), 0);
}

#[test]
fn text_that_is_not_json() {
    assert!(parse_string_map("not json").is_none());
    assert!(parse_string_map("").is_none());
}
