use json::text::{digit, hex_digit, whitespace, width};

fn every_char() -> Vec<char> {
    (0u32..=0x10FFFF).filter_map(char::from_u32).collect()
}

#[test]
fn whitespace_is_the_unicode_property() {
    for c in every_char() {
        assert_eq!(whitespace(c), c.is_whitespace(), "{:?}", c);
    }
}

#[test]
fn whitespace_of_the_four_json_blanks() {
    assert!(whitespace(' '));
    assert!(whitespace('\t'));
    assert!(whitespace('\n'));
    assert!(whitespace('\r'));
    assert!(!whitespace('a'));
    assert!(!whitespace('"'));
}

#[test]
fn digit_is_the_ascii_digit() {
    for c in every_char() {
        assert_eq!(digit(c), c.is_digit(10), "{:?}", c);
    }
}

#[test]
fn width_is_the_utf8_length() {
    for c in every_char() {
        assert_eq!(width(c), c.len_utf8(), "{:?}", c);
    }
    assert_eq!(width('a'), 1);
    assert_eq!(width('\u{7f}'), 1);
    assert_eq!(width('\u{80}'), 2);
    assert_eq!(width('\u{7ff}'), 2);
    assert_eq!(width('\u{800}'), 3);
    assert_eq!(width('\u{ffff}'), 3);
    assert_eq!(width('\u{10000}'), 4);
}

#[test]
fn hex_digit_is_the_value_in_base_sixteen() {
    for c in every_char() {
        assert_eq!(hex_digit(c), c.to_digit(16), "{:?}", c);
    }
    assert_eq!(hex_digit('0'), Some(0));
    assert_eq!(hex_digit('9'), Some(9));
    assert_eq!(hex_digit('a'), Some(10));
    assert_eq!(hex_digit('F'), Some(15));
    assert_eq!(hex_digit('g'), None);
    assert_eq!(hex_digit('+'), None);
}
