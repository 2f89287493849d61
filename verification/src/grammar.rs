//! What the parser computes, as functions on sequences of characters.
//!
//! Each `scan_*` function reads one construct at the start of a text and says
//! how far it got, in characters. The executable parser is proved to return
//! exactly these results.
use crate::text::{
    hex_value, is_decimal, is_digit, is_number_char, leading_whitespace, lemma_leading_whitespace,
    utf8_len,
};
use crate::value::{JsonParseErrorKind, JsonValue};
use vstd::prelude::*;

verus! {

/// The result of reading a construct at the start of a text.
pub enum Scan<T> {
    /// The construct was read: its value, and the number of characters that
    /// were passed.
    Done(T, nat),
    /// The text is malformed: the cause, and the number of characters that lie
    /// before the point at which it was detected.
    Fail(JsonParseErrorKind, nat),
}

impl<T> Scan<T> {
    /// The same result, counted from `k` characters further back.
    pub open spec fn after(self, k: nat) -> Scan<T> {
        match self {
            Scan::Done(v, n) => Scan::Done(v, k + n),
            Scan::Fail(kind, n) => Scan::Fail(kind, k + n),
        }
    }

    /// The number of characters up to the end of the construct or to the point
    /// of failure.
    pub open spec fn span(self) -> nat {
        match self {
            Scan::Done(_, n) => n,
            Scan::Fail(_, n) => n,
        }
    }
}

/// The character that a one-letter escape stands for.
pub open spec fn escape_value(c: char) -> Option<char> {
    if c == '"' {
        Some('"')
    } else if c == '\\' {
        Some('\\')
    } else if c == '/' {
        Some('/')
    } else if c == 'b' {
        Some('\u{8}')
    } else if c == 'f' {
        Some('\u{c}')
    } else if c == 'n' {
        Some('\n')
    } else if c == 'r' {
        Some('\r')
    } else if c == 't' {
        Some('\t')
    } else {
        None
    }
}

/// The number that four hexadecimal digits write.
pub open spec fn hex4(s: Seq<char>) -> Option<nat>
    recommends
        s.len() == 4,
{
    match (hex_value(s[0]), hex_value(s[1]), hex_value(s[2]), hex_value(s[3])) {
        (Some(a), Some(b), Some(c), Some(d)) => Some(((a * 16 + b) * 16 + c) * 16 + d),
        _ => None,
    }
}

/// The code points that `\u` cannot name: the surrogates.
pub open spec fn is_surrogate(v: nat) -> bool {
    0xD800 <= v <= 0xDFFF
}

/// Reads the inside of a string literal up to and including the closing quote.
/// `acc` holds the characters read so far.
///
/// After the four digits of a `\u` escape one more character, if there is one,
/// is passed unread.
#[verifier::opaque]
pub open spec fn scan_string_body(t: Seq<char>, acc: Seq<char>) -> Scan<Seq<char>>
    decreases t.len(),
{
    if t.len() == 0 {
        Scan::Fail(JsonParseErrorKind::UnexpectedEnd, 0)
    } else if t[0] == '"' {
        Scan::Done(acc, 1)
    } else if t[0] != '\\' {
        scan_string_body(t.skip(1), acc.push(t[0])).after(1)
    } else if t.len() == 1 {
        Scan::Fail(JsonParseErrorKind::UnexpectedEnd, 1)
    } else if t[1] == 'u' {
        if t.len() < 6 {
            Scan::Fail(JsonParseErrorKind::InvalidUnicode, 2)
        } else {
            match hex4(t.subrange(2, 6)) {
                Some(v) if !is_surrogate(v) => {
                    let k: nat = if t.len() == 6 {
                        6
                    } else {
                        7
                    };
                    scan_string_body(t.skip(k as int), acc.push(v as char)).after(k)
                },
                _ => Scan::Fail(JsonParseErrorKind::InvalidUnicode, 6),
            }
        }
    } else {
        match escape_value(t[1]) {
            Some(c) => scan_string_body(t.skip(2), acc.push(c)).after(2),
            None => Scan::Fail(JsonParseErrorKind::InvalidEscape, 1),
        }
    }
}

/// Reads a string literal. The first character of `t` is taken for the opening
/// quote and passed unread.
pub open spec fn scan_text(t: Seq<char>) -> Scan<Seq<char>> {
    if t.len() == 0 {
        Scan::Fail(JsonParseErrorKind::UnexpectedEnd, 0)
    } else {
        scan_string_body(t.skip(1), Seq::empty()).after(1)
    }
}

/// Reads a string literal as a value.
pub open spec fn scan_string(t: Seq<char>) -> Scan<JsonValue> {
    match scan_text(t) {
        Scan::Done(s, n) => Scan::Done(JsonValue::String(s), n),
        Scan::Fail(kind, n) => Scan::Fail(kind, n),
    }
}

/// The number of digits and decimal points that `t` begins with.
#[verifier::opaque]
pub open spec fn number_run(t: Seq<char>) -> nat
    decreases t.len(),
{
    if t.len() > 0 && is_number_char(t[0]) {
        1 + number_run(t.skip(1))
    } else {
        0
    }
}

/// Reads the longest run of digits and decimal points. The point of failure
/// is the end of the run, not its start.
pub open spec fn scan_number(t: Seq<char>) -> Scan<JsonValue> {
    let n = number_run(t);
    let literal = t.take(n as int);
    if is_decimal(literal) {
        Scan::Done(JsonValue::Number(literal), n)
    } else {
        Scan::Fail(JsonParseErrorKind::InvalidNumber, n)
    }
}

/// Reads a value: whitespace, then one of the three keywords, a string, an
/// array, an object or a number.
#[verifier::opaque]
pub open spec fn scan_value(t: Seq<char>) -> Scan<JsonValue>
    decreases t.len(), 1nat,
{
    let w = leading_whitespace(t);
    let u = t.skip(w as int);
    if "null"@.is_prefix_of(u) {
        Scan::Done(JsonValue::Null, w + "null"@.len())
    } else if "true"@.is_prefix_of(u) {
        Scan::Done(JsonValue::Bool(true), w + "true"@.len())
    } else if "false"@.is_prefix_of(u) {
        Scan::Done(JsonValue::Bool(false), w + "false"@.len())
    } else if w >= t.len() {
        Scan::Fail(JsonParseErrorKind::UnexpectedEnd, w)
    } else if t[w as int] == '"' {
        scan_string(u).after(w)
    } else if t[w as int] == '[' {
        scan_array(u).after(w)
    } else if t[w as int] == '{' {
        scan_object(u).after(w)
    } else if t[w as int] == '-' || is_digit(t[w as int]) {
        scan_number(u).after(w)
    } else {
        Scan::Fail(JsonParseErrorKind::UnexpectedChar(t[w as int]), w)
    }
}

/// Reads an array. The first character of `t` is taken for the opening
/// bracket and passed unread.
pub open spec fn scan_array(t: Seq<char>) -> Scan<JsonValue>
    decreases t.len(), 0nat,
{
    if t.len() == 0 {
        Scan::Fail(JsonParseErrorKind::UnexpectedEnd, 0)
    } else {
        scan_elements(t.skip(1), Seq::empty()).after(1)
    }
}

/// Reads the elements of an array up to and including the closing bracket.
/// `acc` holds the elements read so far. A comma may stand before the closing
/// bracket.
#[verifier::opaque]
pub open spec fn scan_elements(t: Seq<char>, acc: Seq<JsonValue>) -> Scan<JsonValue>
    decreases t.len(), 2nat,
{
    let w = leading_whitespace(t);
    if w < t.len() && t[w as int] == ']' {
        Scan::Done(JsonValue::Array(acc), w + 1)
    } else {
        match scan_value(t) {
            Scan::Fail(kind, n) => Scan::Fail(kind, n),
            Scan::Done(v, n) => {
                let p = n + leading_whitespace(t.skip(n as int));
                if p >= t.len() {
                    Scan::Fail(JsonParseErrorKind::UnexpectedEnd, p)
                } else if t[p as int] == ',' {
                    scan_elements(t.skip(p as int + 1), acc.push(v)).after(p + 1)
                } else if t[p as int] == ']' {
                    Scan::Done(JsonValue::Array(acc.push(v)), p + 1)
                } else {
                    Scan::Fail(JsonParseErrorKind::UnexpectedChar(t[p as int]), p)
                }
            },
        }
    }
}

/// Reads an object. The first character of `t` is taken for the opening brace
/// and passed unread.
pub open spec fn scan_object(t: Seq<char>) -> Scan<JsonValue>
    decreases t.len(), 0nat,
{
    if t.len() == 0 {
        Scan::Fail(JsonParseErrorKind::UnexpectedEnd, 0)
    } else {
        scan_members(t.skip(1), Seq::empty()).after(1)
    }
}

/// Reads the members of an object up to and including the closing brace.
/// `acc` holds the members read so far. A comma may stand before the closing
/// brace.
///
/// A character other than a quote where a key must begin, or other than a
/// colon after the key, is reported as that character. Where the text ends in
/// place of the colon, the colon is reported.
#[verifier::opaque]
pub open spec fn scan_members(t: Seq<char>, acc: Seq<(Seq<char>, JsonValue)>) -> Scan<JsonValue>
    decreases t.len(), 2nat,
{
    let w = leading_whitespace(t);
    if w >= t.len() {
        Scan::Fail(JsonParseErrorKind::UnexpectedEnd, w)
    } else if t[w as int] == '}' {
        Scan::Done(JsonValue::Object(acc), w + 1)
    } else if t[w as int] != '"' {
        Scan::Fail(JsonParseErrorKind::UnexpectedChar(t[w as int]), w)
    } else {
        match scan_text(t.skip(w as int)) {
            Scan::Fail(kind, n) => Scan::Fail(kind, w + n),
            Scan::Done(key, n) => {
                let a = w + n + leading_whitespace(t.skip((w + n) as int));
                if a >= t.len() {
                    Scan::Fail(JsonParseErrorKind::UnexpectedChar(':'), a)
                } else if t[a as int] != ':' {
                    Scan::Fail(JsonParseErrorKind::UnexpectedChar(t[a as int]), a)
                } else {
                    match scan_value(t.skip(a as int + 1)) {
                        Scan::Fail(kind, m) => Scan::Fail(kind, a + 1 + m),
                        Scan::Done(v, m) => {
                            let p = a + 1 + m + leading_whitespace(t.skip((a + 1 + m) as int));
                            if p >= t.len() {
                                Scan::Fail(JsonParseErrorKind::UnexpectedEnd, p)
                            } else if t[p as int] == ',' {
                                scan_members(t.skip(p as int + 1), acc.push((key, v))).after(p + 1)
                            } else if t[p as int] == '}' {
                                Scan::Done(JsonValue::Object(acc.push((key, v))), p + 1)
                            } else {
                                Scan::Fail(JsonParseErrorKind::UnexpectedChar(t[p as int]), p)
                            }
                        },
                    }
                }
            },
        }
    }
}

/// The result of parsing a whole document: its value, or the cause of the
/// failure and the byte offset at which it was detected. What follows the
/// value is not read.
pub open spec fn parse_outcome(text: Seq<char>) -> Result<JsonValue, (JsonParseErrorKind, nat)> {
    match scan_value(text) {
        Scan::Done(v, _) => Ok(v),
        Scan::Fail(kind, n) => Err((kind, utf8_len(text.take(n as int)))),
    }
}

/// Counting a result from `a` characters back and then from `b` more is
/// counting it from `a + b` characters back.
pub proof fn lemma_after_after<T>(scan: Scan<T>, a: nat, b: nat)
    ensures
        scan.after(a).after(b) == scan.after(a + b),
        scan.after(0) == scan,
        scan.after(a).span() == a + scan.span(),
{
}

/// Whitespace before a value is passed and changes nothing else: reading a
/// value gives what reading it behind its leading whitespace gives.
pub proof fn lemma_value_skips_whitespace(t: Seq<char>)
    ensures
        scan_value(t) == scan_value(t.skip(leading_whitespace(t) as int)).after(
            leading_whitespace(t),
        ),
{
    reveal_with_fuel(scan_value, 1);
    let w = leading_whitespace(t);
    let u = t.skip(w as int);
    lemma_leading_whitespace(t);
    assert(u.skip(0) =~= u);
}

/// What a value is read as where no whitespace stands before it.
pub proof fn lemma_value_dispatch(u: Seq<char>)
    requires
        leading_whitespace(u) == 0,
    ensures
        scan_value(u) == if "null"@.is_prefix_of(u) {
            Scan::Done(JsonValue::Null, "null"@.len())
        } else if "true"@.is_prefix_of(u) {
            Scan::Done(JsonValue::Bool(true), "true"@.len())
        } else if "false"@.is_prefix_of(u) {
            Scan::Done(JsonValue::Bool(false), "false"@.len())
        } else if u.len() == 0 {
            Scan::Fail(JsonParseErrorKind::UnexpectedEnd, 0)
        } else if u[0] == '"' {
            scan_string(u)
        } else if u[0] == '[' {
            scan_array(u)
        } else if u[0] == '{' {
            scan_object(u)
        } else if u[0] == '-' || is_digit(u[0]) {
            scan_number(u)
        } else {
            Scan::Fail(JsonParseErrorKind::UnexpectedChar(u[0]), 0)
        },
{
    reveal_with_fuel(scan_value, 1);
    assert(u.skip(0) =~= u);
}

/// The elements end where a closing bracket follows the whitespace.
pub proof fn lemma_elements_close(t: Seq<char>, acc: Seq<JsonValue>)
    requires
        leading_whitespace(t) < t.len(),
        t[leading_whitespace(t) as int] == ']',
    ensures
        scan_elements(t, acc) == Scan::Done(JsonValue::Array(acc), leading_whitespace(t) + 1),
{
    reveal_with_fuel(scan_elements, 1);
}

/// Where no closing bracket follows the whitespace, an element is read, and
/// then a comma or the closing bracket.
pub proof fn lemma_elements_step(t: Seq<char>, acc: Seq<JsonValue>)
    requires
        !(leading_whitespace(t) < t.len() && t[leading_whitespace(t) as int] == ']'),
    ensures
        scan_elements(t, acc) == match scan_value(t) {
            Scan::Fail(kind, n) => Scan::Fail(kind, n),
            Scan::Done(v, n) => {
                let p = n + leading_whitespace(t.skip(n as int));
                if p >= t.len() {
                    Scan::Fail(JsonParseErrorKind::UnexpectedEnd, p)
                } else if t[p as int] == ',' {
                    scan_elements(t.skip(p as int + 1), acc.push(v)).after(p + 1)
                } else if t[p as int] == ']' {
                    Scan::Done(JsonValue::Array(acc.push(v)), p + 1)
                } else {
                    Scan::Fail(JsonParseErrorKind::UnexpectedChar(t[p as int]), p)
                }
            },
        },
{
    reveal_with_fuel(scan_elements, 1);
    reveal_with_fuel(scan_value, 1);
}

/// The members end where the text ends or a closing brace follows the
/// whitespace, and a key begins with a quote.
pub proof fn lemma_members_start(t: Seq<char>, acc: Seq<(Seq<char>, JsonValue)>)
    ensures
        ({
            let w = leading_whitespace(t);
            &&& w >= t.len() ==> scan_members(t, acc) == Scan::<JsonValue>::Fail(
                JsonParseErrorKind::UnexpectedEnd,
                w,
            )
            &&& w < t.len() && t[w as int] == '}' ==> scan_members(t, acc) == Scan::Done(
                JsonValue::Object(acc),
                w + 1,
            )
            &&& w < t.len() && t[w as int] != '}' && t[w as int] != '"' ==> scan_members(t, acc)
                == Scan::<JsonValue>::Fail(JsonParseErrorKind::UnexpectedChar(t[w as int]), w)
        }),
{
    reveal_with_fuel(scan_members, 1);
}

/// Where a key begins: the key, the colon, the value, and then a comma or the
/// closing brace.
pub proof fn lemma_members_step(t: Seq<char>, acc: Seq<(Seq<char>, JsonValue)>)
    requires
        leading_whitespace(t) < t.len(),
        t[leading_whitespace(t) as int] == '"',
    ensures
        ({
            let w = leading_whitespace(t);
            scan_members(t, acc) == match scan_text(t.skip(w as int)) {
                Scan::Fail(kind, n) => Scan::Fail(kind, w + n),
                Scan::Done(key, n) => {
                    let a = w + n + leading_whitespace(t.skip((w + n) as int));
                    if a >= t.len() {
                        Scan::Fail(JsonParseErrorKind::UnexpectedChar(':'), a)
                    } else if t[a as int] != ':' {
                        Scan::Fail(JsonParseErrorKind::UnexpectedChar(t[a as int]), a)
                    } else {
                        match scan_value(t.skip(a as int + 1)) {
                            Scan::Fail(kind, m) => Scan::Fail(kind, a + 1 + m),
                            Scan::Done(v, m) => {
                                let p = a + 1 + m + leading_whitespace(
                                    t.skip((a + 1 + m) as int),
                                );
                                if p >= t.len() {
                                    Scan::Fail(JsonParseErrorKind::UnexpectedEnd, p)
                                } else if t[p as int] == ',' {
                                    scan_members(t.skip(p as int + 1), acc.push((key, v))).after(
                                        p + 1,
                                    )
                                } else if t[p as int] == '}' {
                                    Scan::Done(JsonValue::Object(acc.push((key, v))), p + 1)
                                } else {
                                    Scan::Fail(JsonParseErrorKind::UnexpectedChar(t[p as int]), p)
                                }
                            },
                        }
                    }
                },
            }
        }),
{
    reveal_with_fuel(scan_members, 1);
    reveal_with_fuel(scan_value, 1);
}

} // verus!
