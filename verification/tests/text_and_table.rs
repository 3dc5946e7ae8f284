use liveion_core::keyed::KeyedTable;
use liveion_core::text::{
    is_blank, joined_lines, nonblank_lines_of, push_decimal, push_signed_decimal, same_text,
    trim_end_matching, trim_text,
};

#[test]
fn decimal_rendering() {
    let mut s = String::from("n=");
    push_decimal(&mut s, 0);
    assert_eq!(s, "n=0");
    let mut s = String::new();
    push_decimal(&mut s, 1234567890);
    assert_eq!(s, "1234567890");
    let mut s = String::new();
    push_decimal(&mut s, u64::MAX);
    assert_eq!(s, u64::MAX.to_string());
}

#[test]
fn signed_decimal_rendering() {
    let mut s = String::new();
    push_signed_decimal(&mut s, -42);
    assert_eq!(s, "-42");
    let mut s = String::new();
    push_signed_decimal(&mut s, i64::MIN);
    assert_eq!(s, i64::MIN.to_string());
    let mut s = String::new();
    push_signed_decimal(&mut s, 1700000000123);
    assert_eq!(s, "1700000000123");
}

#[test]
fn trimming_matches_std() {
    for text in ["  a b  ", "\t\r\nx\u{3000}", "", "   ", "\u{85}y\u{a0}", "z"] {
        assert_eq!(trim_text(text), text.trim());
        assert_eq!(is_blank(text), text.trim().is_empty());
    }
    assert_eq!(trim_end_matching("http://host:7777///", '/'), "http://host:7777");
    assert_eq!(trim_end_matching("///", '/'), "");
}

#[test]
fn text_equality() {
    assert!(same_text("GET", "GET"));
    assert!(!same_text("GET", "get"));
    assert!(!same_text("GET", "GETS"));
}

#[test]
fn nonblank_lines_skip_blank_and_trim() {
    let text = "  {\"a\":1}  \r\n\n   \n{\"b\":2}\n{\"c\":3}";
    let lines = nonblank_lines_of(text);
    assert_eq!(lines, vec!["{\"a\":1}", "{\"b\":2}", "{\"c\":3}"]);
    assert!(nonblank_lines_of("").is_empty());
    assert!(nonblank_lines_of("\n\n \n").is_empty());
}

#[test]
fn lines_round_trip() {
    let lines = vec![String::from("{\"id\":\"a\"}"), String::from("{\"id\":\"b\"}")];
    let text = joined_lines(&lines);
    assert_eq!(text, "{\"id\":\"a\"}\n{\"id\":\"b\"}\n");
    assert_eq!(nonblank_lines_of(&text), lines);
    assert_eq!(joined_lines(&Vec::new()), "");
}

#[test]
fn keyed_table_insert_get_remove() {
    let mut t: KeyedTable<u32> = KeyedTable::new();
    t.insert(String::from("a"), 1);
    t.insert(String::from("b"), 2);
    t.insert(String::from("a"), 3);
    assert_eq!(t.len(), 2);
    assert_eq!(t.get("a"), Some(&3));
    assert_eq!(t.get("b"), Some(&2));
    assert_eq!(t.get("c"), None);
    assert_eq!(t.key_at(0), "a");
    assert_eq!(t.find("b"), Some(1));
    assert_eq!(t.remove("a"), Some(3));
    assert_eq!(t.remove("a"), None);
    assert_eq!(t.len(), 1);
    assert_eq!(t.key_at(0), "b");
    assert_eq!(*t.value_at(0), 2);
}
