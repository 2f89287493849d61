use json::parser::{parse_array, parse_number, parse_object, parse_string, parse_value};
use json::{parse_json, Cursor, JsonParseError, JsonParseErrorKind, JsonType};

fn fails(kind: JsonParseErrorKind, pos: usize) -> Result<JsonType, JsonParseError> {
    Err(JsonParseError { kind, pos })
}

fn string(s: &str) -> JsonType {
    JsonType::String(s.to_string())
}

fn number(s: &str) -> JsonType {
    JsonType::Number(s.to_string())
}

fn offset(cursor: &Cursor) -> usize {
    cursor.create_error(JsonParseErrorKind::UnexpectedEnd).pos
}

#[test]
fn null_parses_to_null() {
    assert_eq!(parse_json("null"), Ok(JsonType::Null));
}

#[test]
fn keywords_parse_to_their_values() {
    assert_eq!(parse_json("true"), Ok(JsonType::Bool(true)));
    assert_eq!(parse_json("false"), Ok(JsonType::Bool(false)));
}

#[test]
fn a_keyword_is_matched_as_a_prefix() {
    assert_eq!(parse_json("nullx"), Ok(JsonType::Null));
    assert_eq!(parse_json("truest"), Ok(JsonType::Bool(true)));
}

#[test]
fn a_broken_keyword_is_an_unexpected_character() {
    assert_eq!(parse_json("nul"), fails(JsonParseErrorKind::UnexpectedChar('n'), 0));
    assert_eq!(parse_json(" True"), fails(JsonParseErrorKind::UnexpectedChar('T'), 1));
}

#[test]
fn empty_array_parses_to_no_elements() {
    assert_eq!(parse_json("[]"), Ok(JsonType::Array(vec![])));
    assert_eq!(parse_json("[ \n ]"), Ok(JsonType::Array(vec![])));
}

#[test]
fn empty_object_parses_to_no_members() {
    assert_eq!(parse_json("{}"), Ok(JsonType::Object(vec![])));
    assert_eq!(parse_json("{\t}"), Ok(JsonType::Object(vec![])));
}

#[test]
fn whitespace_around_a_value_is_ignored() {
    for text in ["[1, \"a\"]", "null", "{\"k\": [true]}", "12.5", "\"s\""] {
        let padded = format!(" \t\r\n{}\n \u{a0}\u{3000}", text);
        assert_eq!(parse_json(&padded), parse_json(text));
        assert!(parse_json(text).is_ok());
    }
}

#[test]
fn leading_whitespace_shifts_the_offset_of_an_error() {
    assert_eq!(parse_json("[1 2]"), fails(JsonParseErrorKind::UnexpectedChar('2'), 3));
    assert_eq!(parse_json("\u{a0} [1 2]"), fails(JsonParseErrorKind::UnexpectedChar('2'), 6));
}

#[test]
fn what_follows_the_value_is_not_read() {
    assert_eq!(parse_json("null xyz"), Ok(JsonType::Null));
    assert_eq!(parse_json("[1] ]"), Ok(JsonType::Array(vec![number("1")])));
}

#[test]
fn empty_and_blank_texts_end_unexpectedly() {
    assert_eq!(parse_json(""), fails(JsonParseErrorKind::UnexpectedEnd, 0));
    assert_eq!(parse_json("  \n"), fails(JsonParseErrorKind::UnexpectedEnd, 3));
}

#[test]
fn an_unknown_character_is_reported_where_it_stands() {
    assert_eq!(parse_json("  ?"), fails(JsonParseErrorKind::UnexpectedChar('?'), 2));
    assert_eq!(parse_json("]"), fails(JsonParseErrorKind::UnexpectedChar(']'), 0));
}

#[test]
fn numbers_keep_their_literal() {
    assert_eq!(parse_json("0"), Ok(number("0")));
    assert_eq!(parse_json("43"), Ok(number("43")));
    assert_eq!(parse_json("123.456"), Ok(number("123.456")));
    assert_eq!(parse_json("007"), Ok(number("007")));
    assert_eq!(parse_json("1."), Ok(number("1.")));
}

#[test]
fn number_literals_convert_to_floating_point() {
    for (text, value) in [("0", 0.0), ("43", 43.0), ("123.456", 123.456), ("1.", 1.0), ("007", 7.0)] {
        match parse_json(text) {
            Ok(JsonType::Number(literal)) => assert_eq!(literal.parse::<f64>(), Ok(value)),
            other => panic!("{:?}", other),
        }
    }
}

#[test]
fn a_number_ends_where_its_digits_end() {
    assert_eq!(
        parse_json("[12,3.5 ]"),
        Ok(JsonType::Array(vec![number("12"), number("3.5")]))
    );
    assert_eq!(parse_json("12e5"), Ok(number("12")));
}

#[test]
fn two_decimal_points_are_no_number() {
    assert_eq!(parse_json("123.456.789"), fails(JsonParseErrorKind::InvalidNumber, 11));
    assert_eq!(parse_json("1..2,"), fails(JsonParseErrorKind::InvalidNumber, 4));
    assert_eq!(parse_json("[ 1.2.3 ]"), fails(JsonParseErrorKind::InvalidNumber, 7));
}

#[test]
fn a_sign_begins_an_empty_run() {
    assert_eq!(parse_json("-"), fails(JsonParseErrorKind::InvalidNumber, 0));
    assert_eq!(parse_json("-5"), fails(JsonParseErrorKind::InvalidNumber, 0));
    assert_eq!(parse_json(" [-1]"), fails(JsonParseErrorKind::InvalidNumber, 2));
}

#[test]
fn a_decimal_point_does_not_begin_a_value() {
    assert_eq!(parse_json(".5"), fails(JsonParseErrorKind::UnexpectedChar('.'), 0));
}

#[test]
fn parse_number_reads_a_run_that_begins_with_a_point() {
    let mut cursor = Cursor::new(".5,");
    assert_eq!(parse_number(&mut cursor), Ok(number(".5")));
    assert_eq!(cursor.peek(), Some(','));
    let mut cursor = Cursor::new(".");
    assert_eq!(parse_number(&mut cursor), fails(JsonParseErrorKind::InvalidNumber, 1));
    let mut cursor = Cursor::new("x");
    assert_eq!(parse_number(&mut cursor), fails(JsonParseErrorKind::InvalidNumber, 0));
}

#[test]
fn plain_strings() {
    assert_eq!(parse_json("\"\""), Ok(string("")));
    assert_eq!(parse_json("\"hello world\""), Ok(string("hello world")));
    assert_eq!(parse_json("\"a\nb\""), Ok(string("a\nb")));
    assert_eq!(parse_json("\"\u{e9}\u{1f600}\""), Ok(string("\u{e9}\u{1f600}")));
}

#[test]
fn every_one_letter_escape() {
    assert_eq!(
        parse_json(r#""\"\\\/\b\f\n\r\t""#),
        Ok(string("\"\\/\u{8}\u{c}\n\r\t"))
    );
}

#[test]
fn an_unknown_escape_is_reported_at_its_letter() {
    assert_eq!(parse_json(r#""\q""#), fails(JsonParseErrorKind::InvalidEscape, 2));
    assert_eq!(parse_json(r#""ab\x41""#), fails(JsonParseErrorKind::InvalidEscape, 4));
    assert_eq!(parse_json("\"\u{e9}\\U\""), fails(JsonParseErrorKind::InvalidEscape, 4));
}

#[test]
fn an_unclosed_string_ends_unexpectedly() {
    assert_eq!(parse_json("\"abc"), fails(JsonParseErrorKind::UnexpectedEnd, 4));
    assert_eq!(parse_json("\"abc\\"), fails(JsonParseErrorKind::UnexpectedEnd, 5));
    assert_eq!(parse_json("\""), fails(JsonParseErrorKind::UnexpectedEnd, 1));
}

#[test]
fn a_unicode_escape_names_a_character() {
    assert_eq!(parse_json(r#""\u0041!""#), Ok(string("A")));
    assert_eq!(parse_json(r#""\u00e9!\u20AC!""#), Ok(string("\u{e9}\u{20ac}")));
    assert_eq!(parse_json(r#""\uFFFF!""#), Ok(string("\u{ffff}")));
    assert_eq!(parse_json(r#""\u0000!""#), Ok(string("\u{0}")));
}

#[test]
fn the_character_behind_a_unicode_escape_is_passed() {
    assert_eq!(parse_json(r#""\u0041bc""#), Ok(string("Ac")));
    assert_eq!(parse_json(r#""\u0041"""#), Ok(string("A")));
    assert_eq!(parse_json(r#""\u0041""#), fails(JsonParseErrorKind::UnexpectedEnd, 8));
    assert_eq!(parse_json(r#""\u0041"#), fails(JsonParseErrorKind::UnexpectedEnd, 7));
}

#[test]
fn a_unicode_escape_needs_four_hexadecimal_digits() {
    assert_eq!(parse_json(r#""\u{110000}""#), fails(JsonParseErrorKind::InvalidUnicode, 7));
    assert_eq!(parse_json(r#""\u00g0""#), fails(JsonParseErrorKind::InvalidUnicode, 7));
    assert_eq!(parse_json(r#""\u+041""#), fails(JsonParseErrorKind::InvalidUnicode, 7));
    assert_eq!(parse_json(r#""\u-041""#), fails(JsonParseErrorKind::InvalidUnicode, 7));
    assert_eq!(parse_json("\"\\u00\u{e9}0\""), fails(JsonParseErrorKind::InvalidUnicode, 8));
}

#[test]
fn a_unicode_escape_cannot_name_a_surrogate() {
    assert_eq!(parse_json(r#""\ud800x""#), fails(JsonParseErrorKind::InvalidUnicode, 7));
    assert_eq!(parse_json(r#""\uDFFFx""#), fails(JsonParseErrorKind::InvalidUnicode, 7));
    assert_eq!(parse_json(r#""\ud7ffx""#), Ok(string("\u{d7ff}")));
    assert_eq!(parse_json(r#""\ue000x""#), Ok(string("\u{e000}")));
}

#[test]
fn a_short_unicode_escape_is_reported_behind_the_letter() {
    assert_eq!(parse_json(r#""\u12"#), fails(JsonParseErrorKind::InvalidUnicode, 3));
    assert_eq!(parse_json(r#""\u"#), fails(JsonParseErrorKind::InvalidUnicode, 3));
    assert_eq!(parse_json(r#"   "ab\u123"#), fails(JsonParseErrorKind::InvalidUnicode, 8));
}

#[test]
fn parse_string_passes_whatever_stands_first() {
    let mut cursor = Cursor::new("xab\" ");
    assert_eq!(parse_string(&mut cursor), Ok(string("ab")));
    assert_eq!(offset(&cursor), 4);
    let mut cursor = Cursor::new("");
    assert_eq!(parse_string(&mut cursor), fails(JsonParseErrorKind::UnexpectedEnd, 0));
}

#[test]
fn arrays_keep_the_order_of_their_elements() {
    assert_eq!(
        parse_json("[3, 1, 2, 1]"),
        Ok(JsonType::Array(vec![number("3"), number("1"), number("2"), number("1")]))
    );
    assert_eq!(
        parse_json("[[], [null, [true]], {}]"),
        Ok(JsonType::Array(vec![
            JsonType::Array(vec![]),
            JsonType::Array(vec![JsonType::Null, JsonType::Array(vec![JsonType::Bool(true)])]),
            JsonType::Object(vec![]),
        ]))
    );
}

#[test]
fn a_comma_may_stand_before_the_closing_mark() {
    assert_eq!(parse_json("[1, ]"), Ok(JsonType::Array(vec![number("1")])));
    assert_eq!(
        parse_json("{\"a\": 1, }"),
        Ok(JsonType::Object(vec![("a".to_string(), number("1"))]))
    );
}

#[test]
fn array_faults() {
    assert_eq!(parse_json("[1 2]"), fails(JsonParseErrorKind::UnexpectedChar('2'), 3));
    assert_eq!(parse_json("[1"), fails(JsonParseErrorKind::UnexpectedEnd, 2));
    assert_eq!(parse_json("["), fails(JsonParseErrorKind::UnexpectedEnd, 1));
    assert_eq!(parse_json("[1, "), fails(JsonParseErrorKind::UnexpectedEnd, 4));
    assert_eq!(parse_json("[,]"), fails(JsonParseErrorKind::UnexpectedChar(','), 1));
    assert_eq!(parse_json("[1}"), fails(JsonParseErrorKind::UnexpectedChar('}'), 2));
    assert_eq!(parse_json("[\"a\" : 1]"), fails(JsonParseErrorKind::UnexpectedChar(':'), 5));
}

#[test]
fn objects_keep_order_and_repeated_keys() {
    assert_eq!(
        parse_json(r#"{"b": 1, "a": 2, "b": 3}"#),
        Ok(JsonType::Object(vec![
            ("b".to_string(), number("1")),
            ("a".to_string(), number("2")),
            ("b".to_string(), number("3")),
        ]))
    );
}

#[test]
fn keys_are_unescaped() {
    assert_eq!(
        parse_json(r#"{ "a\tb" :"c"}"#),
        Ok(JsonType::Object(vec![("a\tb".to_string(), string("c"))]))
    );
}

#[test]
fn object_faults() {
    assert_eq!(parse_json("{"), fails(JsonParseErrorKind::UnexpectedEnd, 1));
    assert_eq!(parse_json("{ 1: 2}"), fails(JsonParseErrorKind::UnexpectedChar('1'), 2));
    assert_eq!(parse_json("{\"a\" 1}"), fails(JsonParseErrorKind::UnexpectedChar('1'), 5));
    assert_eq!(parse_json("{\"a\": }"), fails(JsonParseErrorKind::UnexpectedChar('}'), 6));
    assert_eq!(parse_json("{\"a\": 1"), fails(JsonParseErrorKind::UnexpectedEnd, 7));
    assert_eq!(parse_json("{\"a\": 1 \"b\""), fails(JsonParseErrorKind::UnexpectedChar('"'), 8));
    assert_eq!(parse_json("{\"a\": 1]"), fails(JsonParseErrorKind::UnexpectedChar(']'), 7));
    assert_eq!(parse_json("{\"a"), fails(JsonParseErrorKind::UnexpectedEnd, 3));
    assert_eq!(parse_json("{\"a\\q\": 1}"), fails(JsonParseErrorKind::InvalidEscape, 4));
}

#[test]
fn a_text_that_ends_before_the_colon_reports_the_colon() {
    assert_eq!(parse_json("{\"a\""), fails(JsonParseErrorKind::UnexpectedChar(':'), 4));
    assert_eq!(parse_json("{\"a\"  "), fails(JsonParseErrorKind::UnexpectedChar(':'), 6));
}

#[test]
fn offsets_count_bytes() {
    assert_eq!(
        parse_json("[\"\u{e9}\", x]"),
        fails(JsonParseErrorKind::UnexpectedChar('x'), 7)
    );
    assert_eq!(
        parse_json("{\"\u{1f600}\": \u{20ac}}"),
        fails(JsonParseErrorKind::UnexpectedChar('\u{20ac}'), 9)
    );
    assert_eq!(parse_json("\u{3000}[1"), fails(JsonParseErrorKind::UnexpectedEnd, 5));
}

#[test]
fn the_first_fault_is_the_one_reported() {
    assert_eq!(
        parse_json("[1.2.3, \"\\q\", ?]"),
        fails(JsonParseErrorKind::InvalidNumber, 6)
    );
    assert_eq!(
        parse_json("[\"\\q\", 1.2.3]"),
        fails(JsonParseErrorKind::InvalidEscape, 3)
    );
}

#[test]
fn parsing_twice_gives_equal_results() {
    for text in ["{\"a\": [1, 2, {\"b\": null}]}", "[1 2]", "\"\\u0041!", "", "007"] {
        assert_eq!(parse_json(text), parse_json(text));
    }
}

#[test]
fn deep_nesting() {
    let depth = 200;
    let text = format!("{}{}", "[".repeat(depth), "]".repeat(depth));
    let mut value = parse_json(&text).unwrap();
    for _ in 1..depth {
        value = match value {
            JsonType::Array(mut items) => {
                assert_eq!(items.len(), 1);
                items.pop().unwrap()
            }
            other => panic!("{:?}", other),
        };
    }
    assert_eq!(value, JsonType::Array(vec![]));
}

#[test]
fn parse_value_moves_the_cursor_behind_the_value() {
    let mut cursor = Cursor::new("  [1, 2] ,x");
    assert_eq!(
        parse_value(&mut cursor),
        Ok(JsonType::Array(vec![number("1"), number("2")]))
    );
    assert_eq!(offset(&cursor), 8);
    assert_eq!(cursor.peek(), Some(' '));
}

#[test]
fn parse_value_leaves_the_cursor_at_the_fault() {
    let mut cursor = Cursor::new(" {\"a\" ; 1}");
    assert_eq!(parse_value(&mut cursor), fails(JsonParseErrorKind::UnexpectedChar(';'), 6));
    assert_eq!(offset(&cursor), 6);
    assert_eq!(cursor.peek(), Some(';'));
}

#[test]
fn parse_array_and_parse_object_pass_the_opening_mark_unread() {
    let mut cursor = Cursor::new("(true]");
    assert_eq!(parse_array(&mut cursor), Ok(JsonType::Array(vec![JsonType::Bool(true)])));
    let mut cursor = Cursor::new("(\"k\":null}");
    assert_eq!(
        parse_object(&mut cursor),
        Ok(JsonType::Object(vec![("k".to_string(), JsonType::Null)]))
    );
    let mut cursor = Cursor::new("");
    assert_eq!(parse_array(&mut cursor), fails(JsonParseErrorKind::UnexpectedEnd, 0));
    let mut cursor = Cursor::new("");
    assert_eq!(parse_object(&mut cursor), fails(JsonParseErrorKind::UnexpectedEnd, 0));
}

#[test]
fn a_written_document_is_read_back() {
    let text = "\n{ \"name\" :\"J\\\"D\\\\\" ,\"n\": [ 0.5 ,10,[ ] , { } ],\t\"t\":true,\"f\":false,\"z\":null }\r\n";
    assert_eq!(
        parse_json(text),
        Ok(JsonType::Object(vec![
            ("name".to_string(), string("J\"D\\")),
            (
                "n".to_string(),
                JsonType::Array(vec![
                    number("0.5"),
                    number("10"),
                    JsonType::Array(vec![]),
                    JsonType::Object(vec![]),
                ])
            ),
            ("t".to_string(), JsonType::Bool(true)),
            ("f".to_string(), JsonType::Bool(false)),
            ("z".to_string(), JsonType::Null),
        ]))
    );
}

#[test]
fn a_run_is_a_number_exactly_when_it_converts_to_floating_point() {
    let alphabet = ['0', '7', '.'];
    let mut runs = vec![String::new()];
    for _ in 0..7 {
        let mut longer = Vec::new();
        for run in &runs {
            for c in alphabet {
                let mut next = run.clone();
                next.push(c);
                longer.push(next);
            }
        }
        for run in &longer {
            let mut cursor = Cursor::new(run);
            let parsed = parse_number(&mut cursor);
            assert_eq!(parsed.is_ok(), run.parse::<f64>().is_ok(), "{:?}", run);
            match parsed {
                Ok(value) => assert_eq!(value, number(run)),
                Err(e) => assert_eq!(
                    e,
                    JsonParseError { kind: JsonParseErrorKind::InvalidNumber, pos: run.len() }
                ),
            }
        }
        runs = longer;
    }
    let mut cursor = Cursor::new("");
    assert_eq!(parse_number(&mut cursor), fails(JsonParseErrorKind::InvalidNumber, 0));
    assert!("".parse::<f64>().is_err());
}
