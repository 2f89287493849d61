use json::{Cursor, JsonParseError, JsonParseErrorKind};

fn offset(cursor: &Cursor) -> usize {
    cursor.create_error(JsonParseErrorKind::UnexpectedEnd).pos
}

#[test]
fn new_cursor_stands_at_the_start() {
    let cursor = Cursor::new("abc");
    assert_eq!(offset(&cursor), 0);
    assert_eq!(cursor.peek(), Some('a'));
}

#[test]
fn peek_does_not_advance() {
    let cursor = Cursor::new("xy");
    assert_eq!(cursor.peek(), Some('x'));
    assert_eq!(cursor.peek(), Some('x'));
    assert_eq!(offset(&cursor), 0);
}

#[test]
fn peek_at_end_is_none() {
    let cursor = Cursor::new("");
    assert_eq!(cursor.peek(), None);
}

#[test]
fn consume_returns_each_character_in_turn() {
    let mut cursor = Cursor::new("ab");
    assert_eq!(cursor.consume(), Some('a'));
    assert_eq!(offset(&cursor), 1);
    assert_eq!(cursor.consume(), Some('b'));
    assert_eq!(offset(&cursor), 2);
    assert_eq!(cursor.consume(), None);
    assert_eq!(offset(&cursor), 2);
}

#[test]
fn consume_advances_by_the_width_of_the_character() {
    let mut cursor = Cursor::new("a\u{e9}\u{20ac}\u{1f600}z");
    assert_eq!(cursor.consume(), Some('a'));
    assert_eq!(offset(&cursor), 1);
    assert_eq!(cursor.consume(), Some('\u{e9}'));
    assert_eq!(offset(&cursor), 3);
    assert_eq!(cursor.consume(), Some('\u{20ac}'));
    assert_eq!(offset(&cursor), 6);
    assert_eq!(cursor.consume(), Some('\u{1f600}'));
    assert_eq!(offset(&cursor), 10);
    assert_eq!(cursor.peek(), Some('z'));
}

#[test]
fn consume_n_chars_returns_what_it_passed() {
    let mut cursor = Cursor::new("x\u{e9}yz!");
    cursor.consume();
    assert_eq!(cursor.consume_n_chars(3), Some("\u{e9}yz"));
    assert_eq!(offset(&cursor), 5);
    assert_eq!(cursor.peek(), Some('!'));
}

#[test]
fn consume_n_chars_of_nothing() {
    let mut cursor = Cursor::new("ab");
    assert_eq!(cursor.consume_n_chars(0), Some(""));
    assert_eq!(offset(&cursor), 0);
}

#[test]
fn consume_n_chars_to_the_very_end() {
    let mut cursor = Cursor::new("abcd");
    assert_eq!(cursor.consume_n_chars(4), Some("abcd"));
    assert_eq!(cursor.peek(), None);
    assert_eq!(offset(&cursor), 4);
}

#[test]
fn consume_n_chars_leaves_the_cursor_when_too_few_remain() {
    let mut cursor = Cursor::new("xabc");
    cursor.consume();
    assert_eq!(cursor.consume_n_chars(4), None);
    assert_eq!(offset(&cursor), 1);
    assert_eq!(cursor.peek(), Some('a'));
}

#[test]
fn skip_whitespaces_stops_at_the_first_other_character() {
    let mut cursor = Cursor::new(" \t\r\n\u{b}\u{c}\u{a0}\u{3000}x y");
    cursor.skip_whitespaces();
    assert_eq!(cursor.peek(), Some('x'));
    assert_eq!(offset(&cursor), 11);
    cursor.skip_whitespaces();
    assert_eq!(cursor.peek(), Some('x'));
}

#[test]
fn skip_whitespaces_runs_to_the_end() {
    let mut cursor = Cursor::new("   ");
    cursor.skip_whitespaces();
    assert_eq!(cursor.peek(), None);
    assert_eq!(offset(&cursor), 3);
}

#[test]
fn consume_str_passes_a_literal_that_is_there() {
    let mut cursor = Cursor::new("nullable");
    assert_eq!(cursor.consume_str("null"), Some("null"));
    assert_eq!(offset(&cursor), 4);
    assert_eq!(cursor.peek(), Some('a'));
}

#[test]
fn consume_str_leaves_the_cursor_on_a_mismatch() {
    let mut cursor = Cursor::new("nulx");
    assert_eq!(cursor.consume_str("null"), None);
    assert_eq!(offset(&cursor), 0);
    assert_eq!(cursor.peek(), Some('n'));
}

#[test]
fn consume_str_leaves_the_cursor_when_the_text_ends_early() {
    let mut cursor = Cursor::new("tr");
    assert_eq!(cursor.consume_str("true"), None);
    assert_eq!(offset(&cursor), 0);
}

#[test]
fn consume_str_of_the_empty_literal() {
    let mut cursor = Cursor::new("a");
    assert_eq!(cursor.consume_str(""), Some(""));
    assert_eq!(offset(&cursor), 0);
}

#[test]
fn consume_str_with_wide_characters() {
    let mut cursor = Cursor::new("\u{e9}t\u{e9}!");
    assert_eq!(cursor.consume_str("\u{e9}t\u{e9}"), Some("\u{e9}t\u{e9}"));
    assert_eq!(offset(&cursor), 5);
}

#[test]
fn create_error_carries_kind_and_byte_offset() {
    let mut cursor = Cursor::new("\u{20ac}x");
    cursor.consume();
    assert_eq!(
        cursor.create_error(JsonParseErrorKind::UnexpectedChar('x')),
        JsonParseError { kind: JsonParseErrorKind::UnexpectedChar('x'), pos: 3 }
    );
    assert_eq!(
        cursor.create_error(JsonParseErrorKind::InvalidNumber),
        JsonParseError { kind: JsonParseErrorKind::InvalidNumber, pos: 3 }
    );
}
