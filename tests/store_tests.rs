use kvstore::{decode, encode, has_reserved, Database, Store, StoreError};

#[test]
fn example_color_blue() {
    let mut db = Database::new("kv.db", None).unwrap();
    db.insert("color", "blue");
    let text = db.flush().unwrap().unwrap();
    assert_eq!(text, "color\tblue\n");
    db.mark_flushed();
    let back = decode(&text).unwrap();
    assert_eq!(back.len(), 1);
    assert_eq!(back.get("color"), Some("blue".to_string()));
}

#[test]
fn round_trip_keeps_mapping() {
    let mut s = Store::new();
    s.insert("alpha", "1");
    s.insert("beta", "two words");
    s.insert("", "empty key");
    s.insert("gamma", "");
    let text = encode(&s).unwrap();
    let back = decode(&text).unwrap();
    assert_eq!(back.len(), 4);
    assert_eq!(back.get("alpha"), Some("1".to_string()));
    assert_eq!(back.get("beta"), Some("two words".to_string()));
    assert_eq!(back.get(""), Some("empty key".to_string()));
    assert_eq!(back.get("gamma"), Some("".to_string()));
}

#[test]
fn flush_twice_gives_same_content() {
    let mut db = Database::new("kv.db", Some("a\t1\n")).unwrap();
    db.insert("b", "2");
    let first = db.flush().unwrap();
    let again = db.flush().unwrap();
    assert_eq!(first, again);
    assert_eq!(first, Some("a\t1\nb\t2\n".to_string()));
    db.mark_flushed();
    assert!(!db.is_dirty());
    assert_eq!(db.flush(), Ok(None));
}

#[test]
fn last_write_wins_on_insert() {
    let mut db = Database::new("kv.db", None).unwrap();
    db.insert("k", "first");
    db.insert("k", "second");
    assert_eq!(db.lookup("k"), Some("second".to_string()));
    assert_eq!(db.len(), 1);
    assert_eq!(db.flush(), Ok(Some("k\tsecond\n".to_string())));
}

#[test]
fn absent_file_is_empty_and_clean() {
    let db = Database::new("missing.db", None).unwrap();
    assert_eq!(db.len(), 0);
    assert!(!db.is_dirty());
    assert_eq!(db.path(), "missing.db");
    assert_eq!(db.flush(), Ok(None));
}

#[test]
fn malformed_line_is_rejected() {
    assert_eq!(decode("a\t1\nno tab here\nb\t2\n").err(), Some(StoreError::MalformedRecord));
    assert_eq!(decode("last line bad").err(), Some(StoreError::MalformedRecord));
    assert_eq!(
        Database::new("kv.db", Some("x\n")).err(),
        Some(StoreError::MalformedRecord)
    );
}

#[test]
fn tab_in_value_is_rejected_on_flush() {
    let mut db = Database::new("kv.db", Some("a\t1\n")).unwrap();
    db.insert("k", "has\ttab");
    assert_eq!(db.flush(), Err(StoreError::EncodingConflict));
    assert!(db.is_dirty());
}

#[test]
fn newline_in_key_is_rejected_on_encode() {
    let mut s = Store::new();
    s.insert("ok", "fine");
    s.insert("bad\nkey", "v");
    assert_eq!(encode(&s), Err(StoreError::EncodingConflict));
}

#[test]
fn decode_empty_text_is_empty_store() {
    let s = decode("").unwrap();
    assert_eq!(s.len(), 0);
}

#[test]
fn decode_without_final_newline() {
    let s = decode("a\t1\nb\t2").unwrap();
    assert_eq!(s.len(), 2);
    assert_eq!(s.get("b"), Some("2".to_string()));
}

#[test]
fn decode_skips_empty_lines() {
    let s = decode("\n\na\t1\n\n").unwrap();
    assert_eq!(s.len(), 1);
    assert_eq!(s.get("a"), Some("1".to_string()));
}

#[test]
fn decode_splits_at_first_tab() {
    let s = decode("ab\tcd\tef\n").unwrap();
    assert_eq!(s.get("ab"), Some("cd\tef".to_string()));
    assert_eq!(s.get("ab\tcd"), None);
}

#[test]
fn decode_duplicate_keys_last_wins() {
    let s = decode("k\t1\nk\t2\n").unwrap();
    assert_eq!(s.len(), 1);
    assert_eq!(s.get("k"), Some("2".to_string()));
}

#[test]
fn decode_empty_key_and_value() {
    let s = decode("\t\n").unwrap();
    assert_eq!(s.len(), 1);
    assert_eq!(s.get(""), Some("".to_string()));
}

#[test]
fn encode_keeps_insertion_order_and_updates_in_place() {
    let mut s = Store::new();
    s.insert("a", "1");
    s.insert("b", "2");
    s.insert("a", "3");
    assert_eq!(encode(&s), Ok("a\t3\nb\t2\n".to_string()));
    let (k, v) = s.entry(0);
    assert_eq!((k.as_str(), v.as_str()), ("a", "3"));
}

#[test]
fn encode_empty_store_is_empty_text() {
    assert_eq!(encode(&Store::new()), Ok(String::new()));
}

#[test]
fn remove_marks_dirty_only_on_removal() {
    let mut db = Database::new("kv.db", Some("a\t1\nb\t2\n")).unwrap();
    assert!(!db.is_dirty());
    assert!(!db.remove("zzz"));
    assert!(!db.is_dirty());
    assert!(db.remove("a"));
    assert!(db.is_dirty());
    assert_eq!(db.lookup("a"), None);
    assert_eq!(db.flush(), Ok(Some("b\t2\n".to_string())));
}

#[test]
fn store_remove_and_get() {
    let mut s = Store::new();
    s.insert("x", "1");
    assert!(s.remove("x"));
    assert!(!s.remove("x"));
    assert_eq!(s.get("x"), None);
    assert_eq!(s.len(), 0);
}

#[test]
fn opened_store_is_clean_and_readable() {
    let db = Database::new("kv.db", Some("color\tblue\nsize\tL\n")).unwrap();
    assert!(!db.is_dirty());
    assert_eq!(db.len(), 2);
    assert_eq!(db.lookup("size"), Some("L".to_string()));
    assert_eq!(db.flush(), Ok(None));
}

#[test]
fn reserved_characters_are_found() {
    assert!(has_reserved("a\tb"));
    assert!(has_reserved("a\n"));
    assert!(!has_reserved("plain text"));
    assert!(!has_reserved(""));
}
