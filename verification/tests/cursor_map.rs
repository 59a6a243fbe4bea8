use sequencer_block::cursor::Cursor;

#[test]
fn new_cursor_is_empty() {
    let cursor = Cursor::new();
    assert_eq!(cursor.get("t".to_string()), None);
    assert!(cursor.entries().is_empty());
}

#[test]
fn insert_then_get() {
    let mut cursor = Cursor::new();
    cursor.insert("t".to_string(), "17".to_string());
    assert_eq!(cursor.get("t".to_string()), Some("17".to_string()));
    assert_eq!(cursor.get("b".to_string()), None);
}

#[test]
fn insert_replaces_the_value() {
    let mut cursor = Cursor::new();
    cursor.insert("t".to_string(), "17".to_string());
    cursor.insert("b".to_string(), "3".to_string());
    cursor.insert("t".to_string(), "12".to_string());
    assert_eq!(cursor.get("t".to_string()), Some("12".to_string()));
    assert_eq!(cursor.get("b".to_string()), Some("3".to_string()));
    assert_eq!(cursor.entries().len(), 2);
}
