//! The parser: one function for each construct of the grammar, each proved to
//! return what the matching `scan_*` function of `grammar` describes.
use crate::cursor::Cursor;
use crate::grammar::{
    escape_value, hex4, lemma_after_after, lemma_elements_close, lemma_elements_step,
    lemma_members_start, lemma_members_step, lemma_value_dispatch, lemma_value_skips_whitespace,
    number_run, parse_outcome, scan_array, scan_elements, scan_members, scan_number, scan_object,
    scan_string, scan_string_body, scan_text, scan_value, Scan,
};
use crate::results::lemma_outcome;
use crate::text::{
    digit, hex_digit, is_digit, is_number_char, leading_whitespace, lemma_leading_whitespace,
    utf8_len,
};
use crate::value::{
    items_view, members_view, JsonParseError, JsonParseErrorKind, JsonType, JsonValue,
};
use vstd::prelude::*;
use vstd::std_specs::iter::IteratorSpec;

verus! {

/// A parsing function that found the cursor at `before` has done what `scan`
/// says: the cursor has moved on to where the construct ends or the failure
/// was detected, and `r` holds the value, or the cause and the byte offset of
/// that place.
pub open spec fn yields<'a>(
    before: Cursor<'a>,
    after: Cursor<'a>,
    r: Result<JsonType, JsonParseError>,
    scan: Scan<JsonValue>,
) -> bool {
    &&& after.follows(before, scan.span())
    &&& match scan {
        Scan::Done(v, _) => r matches Ok(x) && x@ == v,
        Scan::Fail(kind, _) => r matches Err(e) && e.kind == kind && e.pos == after.offset(),
    }
}

/// The character that the escape letter `c` stands for.
fn unescape(c: char) -> (r: Option<char>)
    ensures
        r == escape_value(c),
{
    if c == '"' {
        Some('"')
    } else if c == '\\' {
        Some('\\')
    } else if c == '/' {
        Some('/')
    } else if c == 'b' {
        Some('\u{8}')
    } else if c == 'f' {
        Some('\u{c}')
    } else if c == 'n' {
        Some('\n')
    } else if c == 'r' {
        Some('\r')
    } else if c == 't' {
        Some('\t')
    } else {
        None
    }
}

/// The number that the four hexadecimal digits of `digits` write.
fn parse_hex4(digits: &str) -> (r: Option<u32>)
    requires
        digits@.len() == 4,
    ensures
        r is Some <==> hex4(digits@) is Some,
        r matches Some(v) ==> v == hex4(digits@)->0 && v <= 0xFFFF,
{
    broadcast use vstd::string::group_string_axioms;

    let mut chars = digits.chars();
    let c0 = chars.next();
    let c1 = chars.next();
    let c2 = chars.next();
    let c3 = chars.next();
    match (c0, c1, c2, c3) {
        (Some(c0), Some(c1), Some(c2), Some(c3)) => {
            match (hex_digit(c0), hex_digit(c1), hex_digit(c2), hex_digit(c3)) {
                (Some(a), Some(b), Some(c), Some(d)) => Some(((a * 16 + b) * 16 + c) * 16 + d),
                _ => None,
            }
        },
        _ => None,
    }
}

/// Reads a string literal. The cursor is expected at the opening quote;
/// whatever character stands there is passed unread.
///
/// After the four digits of a `\u` escape one more character, if there is one,
/// is passed unread.
pub fn parse_string(cursor: &mut Cursor) -> (r: Result<JsonType, JsonParseError>)
    ensures
        yields(*old(cursor), *final(cursor), r, scan_string(old(cursor).remaining())),
{
    let ghost start = *cursor;
    cursor.consume();
    let mut string = String::new();
    let ghost mut k: nat = (cursor.index() - start.index()) as nat;
    proof {
        reveal_with_fuel(scan_string_body, 1);
        cursor.lemma_follows(start, k);
        assert(start.remaining().skip(0) =~= start.remaining());
    }
    loop
        invariant
            start == *old(cursor),
            cursor.follows(start, k),
            scan_text(start.remaining()) == scan_string_body(cursor.remaining(), string@).after(k),
        decreases cursor.text().len() - cursor.index(),
    {
        let ghost here = *cursor;
        let ghost t = cursor.remaining();
        proof {
            reveal_with_fuel(scan_string_body, 1);
        }
        let c = match cursor.peek() {
            Some(c) => c,
            None => {
                return Err(cursor.create_error(JsonParseErrorKind::UnexpectedEnd));
            },
        };
        if c == '"' {
            cursor.consume();
            return Ok(JsonType::String(string));
        } else if c == '\\' {
            cursor.consume();
            let e = match cursor.peek() {
                Some(e) => e,
                None => {
                    return Err(cursor.create_error(JsonParseErrorKind::UnexpectedEnd));
                },
            };
            if e == 'u' {
                cursor.consume();
                let ghost at_digits = *cursor;
                proof {
                    at_digits.lemma_follows(here, 2);
                }
                let digits = match cursor.consume_n_chars(4) {
                    Some(digits) => digits,
                    None => {
                        return Err(cursor.create_error(JsonParseErrorKind::InvalidUnicode));
                    },
                };
                proof {
                    assert(digits@ =~= t.subrange(2, 6));
                }
                let code = match parse_hex4(digits) {
                    Some(code) => code,
                    None => {
                        return Err(cursor.create_error(JsonParseErrorKind::InvalidUnicode));
                    },
                };
                let ch = match char::from_u32(code) {
                    Some(ch) => ch,
                    None => {
                        return Err(cursor.create_error(JsonParseErrorKind::InvalidUnicode));
                    },
                };
                string.push(ch);
            } else {
                match unescape(e) {
                    Some(ch) => {
                        string.push(ch);
                    },
                    None => {
                        return Err(cursor.create_error(JsonParseErrorKind::InvalidEscape));
                    },
                }
            }
            cursor.consume();
            proof {
                let n = (cursor.index() - here.index()) as nat;
                cursor.lemma_follows(here, n);
                k = k + n;
            }
        } else {
            string.push(c);
            cursor.consume();
            proof {
                cursor.lemma_follows(here, 1);
                k = k + 1;
            }
        }
    }
}

/// Reads the longest run of digits and decimal points and takes it for a
/// number if it holds a digit and no second decimal point. A failure is
/// reported at the end of the run.
pub fn parse_number(cursor: &mut Cursor) -> (r: Result<JsonType, JsonParseError>)
    ensures
        yields(*old(cursor), *final(cursor), r, scan_number(old(cursor).remaining())),
{
    let ghost start = *cursor;
    let ghost rem = cursor.remaining();
    let ghost mut k: nat = 0;
    let ghost mut first_point: int = 0;
    let mut number = String::new();
    let mut digits: bool = false;
    let mut points: bool = false;
    let mut repeated: bool = false;
    proof {
        reveal_with_fuel(number_run, 1);
        use_type_invariant(&*cursor);
        cursor.lemma_inside();
        assert(rem.skip(0) =~= rem);
        assert(rem.take(0) =~= number@);
    }
    loop
        invariant
            start == *old(cursor),
            cursor.follows(start, k),
            rem == start.remaining(),
            number@ == rem.take(k as int),
            number_run(rem) == k + number_run(cursor.remaining()),
            forall|i: int| 0 <= i < k ==> is_number_char(#[trigger] rem[i]),
            digits <==> exists|i: int| 0 <= i < k && is_digit(#[trigger] rem[i]),
            points <==> exists|i: int| 0 <= i < k && #[trigger] rem[i] == '.',
            points ==> 0 <= first_point < k && rem[first_point] == '.',
            repeated <==> exists|i: int, j: int|
                #![trigger rem[i], rem[j]]
                0 <= i < j < k && rem[i] == '.' && rem[j] == '.',
        ensures
            start == *old(cursor),
            cursor.follows(start, k),
            rem == start.remaining(),
            k == number_run(rem),
            number@ == rem.take(k as int),
            forall|i: int| 0 <= i < k ==> is_number_char(#[trigger] rem[i]),
            digits <==> exists|i: int| 0 <= i < k && is_digit(#[trigger] rem[i]),
            repeated <==> exists|i: int, j: int|
                #![trigger rem[i], rem[j]]
                0 <= i < j < k && rem[i] == '.' && rem[j] == '.',
        decreases cursor.text().len() - cursor.index(),
    {
        let ghost here = *cursor;
        proof {
            reveal_with_fuel(number_run, 1);
        }
        let c = match cursor.peek() {
            Some(c) => c,
            None => {
                break ;
            },
        };
        proof {
            here.lemma_follows(start, k);
        }
        let is_point = c == '.';
        if !(digit(c) || is_point) {
            break ;
        }
        number.push(c);
        cursor.consume();
        proof {
            cursor.lemma_follows(here, 1);
            assert(rem.take(k as int + 1) =~= rem.take(k as int).push(c));
            assert(rem[k as int] == c);
        }
        if is_point {
            if points {
                repeated = true;
                proof {
                    assert(rem[first_point] == '.' && rem[k as int] == '.');
                }
            } else {
                proof {
                    first_point = k as int;
                }
            }
            points = true;
        } else {
            digits = true;
        }
        proof {
            k = k + 1;
        }
    }
    proof {
        let literal = rem.take(k as int);
        assert forall|i: int| 0 <= i < literal.len() implies is_number_char(
            #[trigger] literal[i],
        ) by {
            assert(literal[i] == rem[i]);
        }
        if digits {
            let i = choose|i: int| 0 <= i < k && is_digit(#[trigger] rem[i]);
            assert(is_digit(literal[i]));
        }
        if exists|i: int| 0 <= i < literal.len() && is_digit(#[trigger] literal[i]) {
            let i = choose|i: int| 0 <= i < literal.len() && is_digit(#[trigger] literal[i]);
            assert(is_digit(rem[i]));
        }
        if repeated {
            let (i, j) = choose|i: int, j: int|
                #![trigger rem[i], rem[j]]
                0 <= i < j < k && rem[i] == '.' && rem[j] == '.';
            assert(literal[i] == '.' && literal[j] == '.');
        } else {
            assert forall|i: int, j: int|
                #![trigger literal[i], literal[j]]
                0 <= i < j < literal.len() implies !(literal[i] == '.' && literal[j] == '.') by {
                assert(literal[i] == rem[i] && literal[j] == rem[j]);
            }
        }
    }
    if digits && !repeated {
        Ok(JsonType::Number(number))
    } else {
        Err(cursor.create_error(JsonParseErrorKind::InvalidNumber))
    }
}

/// Reads an array. The cursor is expected at the opening bracket; whatever
/// character stands there is passed unread. Elements are separated by commas,
/// and a comma may stand before the closing bracket.
pub fn parse_array(cursor: &mut Cursor) -> (r: Result<JsonType, JsonParseError>)
    ensures
        yields(*old(cursor), *final(cursor), r, scan_array(old(cursor).remaining())),
    decreases old(cursor).remaining().len(), 0nat,
{
    let ghost start = *cursor;
    if cursor.consume().is_none() {
        return Err(cursor.create_error(JsonParseErrorKind::UnexpectedEnd));
    }
    let mut array: Vec<JsonType> = Vec::new();
    let ghost mut k: nat = 1;
    proof {
        cursor.lemma_follows(start, 1);
        assert(items_view(array@) =~= Seq::empty());
    }
    loop
        invariant
            start == *old(cursor),
            k >= 1,
            cursor.follows(start, k),
            scan_array(start.remaining()) == scan_elements(
                cursor.remaining(),
                items_view(array@),
            ).after(k),
        decreases cursor.remaining().len(),
    {
        let ghost here = *cursor;
        let ghost t = cursor.remaining();
        let ghost acc = items_view(array@);
        let ghost w = leading_whitespace(t);
        proof {
            here.lemma_follows(start, k);
        }
        cursor.skip_whitespaces();
        proof {
            cursor.lemma_follows(here, w);
        }
        if let Some(c) = cursor.peek() {
            if c == ']' {
                proof {
                    lemma_elements_close(t, acc);
                }
                cursor.consume();
                return Ok(JsonType::Array(array));
            }
        }
        proof {
            lemma_elements_step(t, acc);
            lemma_value_skips_whitespace(t);
        }
        let value = match parse_value(cursor) {
            Ok(value) => value,
            Err(e) => {
                return Err(e);
            },
        };
        let ghost n = (cursor.index() - here.index()) as nat;
        proof {
            cursor.lemma_follows(here, n);
        }
        array.push(value);
        proof {
            assert(items_view(array@) =~= acc.push(value@));
        }
        cursor.skip_whitespaces();
        let ghost p = (cursor.index() - here.index()) as nat;
        proof {
            cursor.lemma_follows(here, p);
        }
        match cursor.peek() {
            Some(c) => {
                if c == ',' {
                    cursor.consume();
                    proof {
                        cursor.lemma_follows(here, p + 1);
                        lemma_after_after(
                            scan_elements(cursor.remaining(), items_view(array@)),
                            p + 1,
                            k,
                        );
                        k = k + p + 1;
                    }
                } else if c == ']' {
                    cursor.consume();
                    return Ok(JsonType::Array(array));
                } else {
                    return Err(cursor.create_error(JsonParseErrorKind::UnexpectedChar(c)));
                }
            },
            None => {
                return Err(cursor.create_error(JsonParseErrorKind::UnexpectedEnd));
            },
        }
    }
}

/// A text goes on with the literal `":"` exactly where its first character is
/// a colon.
proof fn lemma_colon_prefix(t: Seq<char>)
    ensures
        ":"@.len() == 1,
        ":"@.is_prefix_of(t) <==> t.len() > 0 && t[0] == ':',
{
    reveal_strlit(":");
    if t.len() > 0 && t[0] == ':' {
        assert(":"@ =~= t.subrange(0, 1));
    }
    if ":"@.is_prefix_of(t) {
        assert(t.subrange(0, 1)[0] == ':');
    }
}

/// Reads an object. The cursor is expected at the opening brace; whatever
/// character stands there is passed unread. Members are separated by commas,
/// and a comma may stand before the closing brace. Keys that repeat are kept.
///
/// A character other than a quote where a key must begin, or other than a
/// colon after the key, is reported as that character. Where the text ends in
/// place of the colon, the colon is reported.
pub fn parse_object(cursor: &mut Cursor) -> (r: Result<JsonType, JsonParseError>)
    ensures
        yields(*old(cursor), *final(cursor), r, scan_object(old(cursor).remaining())),
    decreases old(cursor).remaining().len(), 0nat,
{
    let ghost start = *cursor;
    if cursor.consume().is_none() {
        return Err(cursor.create_error(JsonParseErrorKind::UnexpectedEnd));
    }
    let mut object: Vec<(String, JsonType)> = Vec::new();
    let ghost mut k: nat = 1;
    proof {
        cursor.lemma_follows(start, 1);
        assert(members_view(object@) =~= Seq::empty());
    }
    loop
        invariant
            start == *old(cursor),
            k >= 1,
            cursor.follows(start, k),
            scan_object(start.remaining()) == scan_members(
                cursor.remaining(),
                members_view(object@),
            ).after(k),
        decreases cursor.remaining().len(),
    {
        let ghost here = *cursor;
        let ghost t = cursor.remaining();
        let ghost acc = members_view(object@);
        let ghost w = leading_whitespace(t);
        proof {
            here.lemma_follows(start, k);
        }
        cursor.skip_whitespaces();
        proof {
            cursor.lemma_follows(here, w);
            lemma_members_start(t, acc);
        }
        match cursor.peek() {
            Some(c) => {
                if c == '}' {
                    cursor.consume();
                    return Ok(JsonType::Object(object));
                } else if c != '"' {
                    return Err(cursor.create_error(JsonParseErrorKind::UnexpectedChar(c)));
                }
            },
            None => {
                return Err(cursor.create_error(JsonParseErrorKind::UnexpectedEnd));
            },
        }
        proof {
            lemma_members_step(t, acc);
        }
        let key = match parse_string(cursor) {
            Ok(JsonType::String(key)) => key,
            Ok(_) => {
                return Err(cursor.create_error(JsonParseErrorKind::UnexpectedChar('"')));
            },
            Err(e) => {
                return Err(e);
            },
        };
        let ghost n = (cursor.index() - here.index()) as nat;
        proof {
            cursor.lemma_follows(here, n);
        }
        cursor.skip_whitespaces();
        let ghost a = (cursor.index() - here.index()) as nat;
        proof {
            cursor.lemma_follows(here, a);
        }
        proof {
            lemma_colon_prefix(cursor.remaining());
        }
        if cursor.consume_str(":").is_none() {
            let found = match cursor.peek() {
                Some(c) => c,
                None => ':',
            };
            return Err(cursor.create_error(JsonParseErrorKind::UnexpectedChar(found)));
        }
        let ghost after_colon = *cursor;
        proof {
            after_colon.lemma_follows(here, a + 1);
            lemma_value_skips_whitespace(after_colon.remaining());
        }
        cursor.skip_whitespaces();
        proof {
            cursor.lemma_follows(after_colon, leading_whitespace(after_colon.remaining()));
        }
        let value = match parse_value(cursor) {
            Ok(value) => value,
            Err(e) => {
                return Err(e);
            },
        };
        let ghost m = (cursor.index() - after_colon.index()) as nat;
        proof {
            cursor.lemma_follows(here, a + 1 + m);
        }
        let ghost entry = (key@, value@);
        object.push((key, value));
        proof {
            assert(members_view(object@) =~= acc.push(entry));
        }
        cursor.skip_whitespaces();
        let ghost p = (cursor.index() - here.index()) as nat;
        proof {
            cursor.lemma_follows(here, p);
        }
        match cursor.peek() {
            Some(c) => {
                if c == ',' {
                    cursor.consume();
                    proof {
                        cursor.lemma_follows(here, p + 1);
                        lemma_after_after(
                            scan_members(cursor.remaining(), members_view(object@)),
                            p + 1,
                            k,
                        );
                        k = k + p + 1;
                    }
                } else if c == '}' {
                    cursor.consume();
                    return Ok(JsonType::Object(object));
                } else {
                    return Err(cursor.create_error(JsonParseErrorKind::UnexpectedChar(c)));
                }
            },
            None => {
                return Err(cursor.create_error(JsonParseErrorKind::UnexpectedEnd));
            },
        }
    }
}

/// Reads a value: passes whitespace, then reads one of the keywords `null`,
/// `true` and `false`, or the string, array, object or number that the next
/// character announces.
pub fn parse_value(cursor: &mut Cursor) -> (r: Result<JsonType, JsonParseError>)
    ensures
        yields(*old(cursor), *final(cursor), r, scan_value(old(cursor).remaining())),
    decreases old(cursor).remaining().len(), 1nat,
{
    let ghost start = *cursor;
    let ghost t = cursor.remaining();
    let ghost w = leading_whitespace(t);
    cursor.skip_whitespaces();
    let ghost here = *cursor;
    let ghost u = cursor.remaining();
    proof {
        use_type_invariant(&*cursor);
        here.lemma_follows(start, w);
        here.lemma_follows(here, 0);
        lemma_leading_whitespace(t);
        lemma_value_skips_whitespace(t);
        lemma_value_dispatch(u);
        lemma_after_after(scan_value(u), w, 0);
    }
    if cursor.consume_str("null").is_some() {
        return Ok(JsonType::Null);
    } else if cursor.consume_str("true").is_some() {
        return Ok(JsonType::Bool(true));
    } else if cursor.consume_str("false").is_some() {
        return Ok(JsonType::Bool(false));
    }
    let next_char = match cursor.peek() {
        Some(c) => c,
        None => {
            return Err(cursor.create_error(JsonParseErrorKind::UnexpectedEnd));
        },
    };
    if next_char == '"' {
        parse_string(cursor)
    } else if next_char == '[' {
        parse_array(cursor)
    } else if next_char == '{' {
        parse_object(cursor)
    } else if next_char == '-' || digit(next_char) {
        parse_number(cursor)
    } else {
        Err(cursor.create_error(JsonParseErrorKind::UnexpectedChar(next_char)))
    }
}

/// `r` is the result of parsing `text`: the value of `parse_outcome`, or its
/// cause of failure at its byte offset.
pub open spec fn parsed(text: Seq<char>, r: Result<JsonType, JsonParseError>) -> bool {
    match parse_outcome(text) {
        Ok(v) => r matches Ok(x) && x@ == v,
        Err((kind, pos)) => r matches Err(e) && e.kind == kind && e.pos == pos,
    }
}

/// Parses the value that `text` begins with. What follows the value is not
/// read. A failure carries the byte offset in `text` at which it was detected.
pub fn parse_json(text: &str) -> (r: Result<JsonType, JsonParseError>)
    ensures
        parsed(text@, r),
        r matches Ok(x) ==> x@.wf(),
        r matches Err(e) ==> e.pos <= utf8_len(text@),
{
    let mut cursor = Cursor::new(text);
    proof {
        assert(cursor.remaining() =~= text@);
        lemma_outcome(text@);
    }
    parse_value(&mut cursor)
}

/// Parsing the same text twice gives equal results: values with the same
/// view, or the same error.
pub proof fn lemma_parse_is_repeatable(
    text: Seq<char>,
    first: Result<JsonType, JsonParseError>,
    second: Result<JsonType, JsonParseError>,
)
    requires
        parsed(text, first),
        parsed(text, second),
    ensures
        match (first, second) {
            (Ok(x), Ok(y)) => x@ == y@,
            (Err(e), Err(f)) => e == f,
            _ => false,
        },
{
}

} // verus!
