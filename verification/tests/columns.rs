use storage::columns::ColumnValues;

#[test]
fn set_column_then_read_it() {
    let mut m = ColumnValues::new();
    m.insert("a", "1".to_string());
    m.insert("b", "2".to_string());
    assert_eq!(m.get("a"), Some(&"1".to_string()));
    m.insert("a", "3".to_string());
    assert_eq!(m.len(), 2);
    assert_eq!(m.get("a"), Some(&"3".to_string()));
    assert_eq!(m.get("b"), Some(&"2".to_string()));
    assert_eq!(m.names(), vec!["a".to_string(), "b".to_string()]);
}

#[test]
fn remove_column_then_read_it() {
    let mut m = ColumnValues::new();
    m.insert("a", "1".to_string());
    m.insert("b", "2".to_string());
    m.insert("c", "3".to_string());
    m.remove("b");
    assert_eq!(m.get("b"), None);
    assert_eq!(m.get("c"), Some(&"3".to_string()));
    assert_eq!(m.values(), vec!["1".to_string(), "3".to_string()]);
    m.remove("zzz");
    assert_eq!(m.len(), 2);
}

#[test]
fn joined_names_and_values() {
    let mut m = ColumnValues::new();
    m.insert("x", "1".to_string());
    m.insert("y", "2".to_string());
    assert_eq!(m.joined_names(", "), "x, y");
    assert_eq!(m.joined_values("', '"), "1', '2");
    assert_eq!(m.find("y"), Some(1));
    assert_eq!(m.column(0), "x");
    assert_eq!(m.value(1), "2");
}

#[test]
fn column_list_from_pairs() {
    let m = ColumnValues::from_pairs(vec![("a".to_string(), "1".to_string()), ("b".to_string(), "2".to_string())]);
    assert_eq!(m.pairs(), vec![("a".to_string(), "1".to_string()), ("b".to_string(), "2".to_string())]);
    assert_eq!(m.get("b"), Some(&"2".to_string()));
}
