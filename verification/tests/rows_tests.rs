use codetype::rows::KeyedRows;

fn keys<T>(rows: &KeyedRows<T>) -> Vec<(String, String)> {
    rows.rows().iter().map(|(p, l, _)| (p.clone(), l.clone())).collect()
}

fn key(p: &str, l: &str) -> (String, String) {
    (p.to_string(), l.to_string())
}

#[test]
fn rows_come_out_by_player_then_language() {
    let mut rows = KeyedRows::new();
    rows.insert("Sam".to_string(), "rust".to_string(), 1);
    rows.insert("Ada".to_string(), "swift".to_string(), 2);
    rows.insert("Sam".to_string(), "overall".to_string(), 3);
    rows.insert("Ada".to_string(), "overall".to_string(), 4);
    assert_eq!(
        keys(&rows),
        vec![
            key("Ada", "overall"),
            key("Ada", "swift"),
            key("Sam", "overall"),
            key("Sam", "rust"),
        ]
    );
}

#[test]
fn writing_an_existing_key_replaces_its_value_in_place() {
    let mut rows = KeyedRows::new();
    rows.insert("Ada".to_string(), "rust".to_string(), 1);
    rows.insert("Bob".to_string(), "rust".to_string(), 2);
    rows.insert("Ada".to_string(), "rust".to_string(), 7);
    assert_eq!(keys(&rows), vec![key("Ada", "rust"), key("Bob", "rust")]);
    assert_eq!(rows.get("Ada", "rust"), Some(&7));
    assert_eq!(rows.get("Bob", "rust"), Some(&2));
}

#[test]
fn missing_key_reads_as_none() {
    let mut rows = KeyedRows::new();
    assert_eq!(rows.get("Ada", "rust"), None);
    rows.insert("Ada".to_string(), "rust".to_string(), 1);
    assert_eq!(rows.get("Ada", "swift"), None);
    assert_eq!(rows.get("ada", "rust"), None);
}

#[test]
fn prefix_sorts_first_and_order_is_by_code_point() {
    let mut rows = KeyedRows::new();
    rows.insert("ada".to_string(), "x".to_string(), 1);
    rows.insert("Ada".to_string(), "x".to_string(), 2);
    rows.insert("Ad".to_string(), "x".to_string(), 3);
    rows.insert("Zed".to_string(), "x".to_string(), 4);
    rows.insert("Ådne".to_string(), "x".to_string(), 5);
    assert_eq!(
        keys(&rows),
        vec![key("Ad", "x"), key("Ada", "x"), key("Zed", "x"), key("ada", "x"), key("Ådne", "x")]
    );
}

#[test]
fn writing_one_player_leaves_other_rows_unchanged() {
    let mut rows = KeyedRows::new();
    rows.insert("Ada".to_string(), "rust".to_string(), "70".to_string());
    let before = rows.get("Ada", "rust").cloned();
    rows.insert("Sam".to_string(), "rust".to_string(), "90".to_string());
    rows.insert("Sam".to_string(), "rust".to_string(), "95".to_string());
    assert_eq!(rows.get("Ada", "rust").cloned(), before);
    assert_eq!(rows.get("Sam", "rust"), Some(&"95".to_string()));
}
