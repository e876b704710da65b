use kanji_ledger::input::{kanji_of, parse_count, read_count, read_kanji};
use kanji_ledger::ledger::Database;

#[test]
fn two_characters_are_rejected() {
    let mut db = Database::new(3, 5).unwrap();
    db.add_kanji('A').unwrap();
    assert_eq!(read_kanji("AB\n"), None);
    assert_eq!(db.current_id, 1);
    assert_eq!(db.items.len(), 1);
}

#[test]
fn one_character_is_accepted() {
    assert_eq!(read_kanji("漢\n"), Some('漢'));
    assert_eq!(read_kanji("  字 \r\n"), Some('字'));
    assert_eq!(kanji_of("字"), Some('字'));
}

#[test]
fn empty_and_padded_input() {
    assert_eq!(read_kanji("\n"), None);
    assert_eq!(read_kanji(""), None);
    assert_eq!(kanji_of(" A"), None);
    assert_eq!(kanji_of(""), None);
}

#[test]
fn counts_are_decimal() {
    assert_eq!(parse_count("4"), Some(4));
    assert_eq!(parse_count("10"), Some(10));
    assert_eq!(parse_count("+42"), Some(42));
    assert_eq!(parse_count("007"), Some(7));
    assert_eq!(parse_count("65535"), Some(65535));
    assert_eq!(parse_count("0"), Some(0));
}

#[test]
fn malformed_counts_are_refused() {
    assert_eq!(parse_count("65536"), None);
    assert_eq!(parse_count("1000000"), None);
    assert_eq!(parse_count("-1"), None);
    assert_eq!(parse_count(""), None);
    assert_eq!(parse_count("+"), None);
    assert_eq!(parse_count("4x"), None);
    assert_eq!(parse_count("ten"), None);
    assert_eq!(parse_count(" 4"), None);
}

#[test]
fn count_lines_are_trimmed() {
    assert_eq!(read_count("4\n"), Some(4));
    assert_eq!(read_count("  10 \r\n"), Some(10));
    assert_eq!(read_count("abc\n"), None);
}

#[test]
fn configuration_from_lines() {
    let k = read_count("4\n").unwrap();
    let r = read_count("10\n").unwrap();
    let db = Database::new(k, r).unwrap();
    assert_eq!(db.current_id, 0);
    assert!(db.items.is_empty());
}
