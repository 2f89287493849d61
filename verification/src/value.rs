//! The value tree that a parse produces, and the error that it reports.
use crate::text::is_decimal;
use vstd::prelude::*;

verus! {

/// A parsed JSON document.
///
/// A number keeps the literal as it stood in the text: digits with at most one
/// decimal point among them, which is a literal that converts to a
/// floating-point number. Arrays and objects keep their entries in the order of the
/// text, and an object keeps every entry of a key that occurs more than once.
#[derive(Debug, PartialEq)]
pub enum JsonType {
    Null,
    Bool(bool),
    Number(String),
    String(String),
    Array(Vec<JsonType>),
    Object(Vec<(String, JsonType)>),
}

/// The mathematical value of a `JsonType`.
pub enum JsonValue {
    Null,
    Bool(bool),
    Number(Seq<char>),
    String(Seq<char>),
    Array(Seq<JsonValue>),
    Object(Seq<(Seq<char>, JsonValue)>),
}

impl JsonValue {
    /// Every number in the value is a run of digits that holds at most one
    /// decimal point.
    pub open spec fn wf(self) -> bool
        decreases self,
    {
        match self {
            JsonValue::Number(literal) => is_decimal(literal),
            JsonValue::Array(items) => values_wf(items),
            JsonValue::Object(members) => entries_wf(members),
            _ => true,
        }
    }
}

/// Each of the values is well-formed.
pub open spec fn values_wf(items: Seq<JsonValue>) -> bool
    decreases items,
{
    forall|i: int| 0 <= i < items.len() ==> (#[trigger] items[i]).wf()
}

/// The value of each of the entries is well-formed.
pub open spec fn entries_wf(members: Seq<(Seq<char>, JsonValue)>) -> bool
    decreases members,
{
    forall|i: int| 0 <= i < members.len() ==> (#[trigger] members[i]).1.wf()
}

impl View for JsonType {
    type V = JsonValue;

    open spec fn view(&self) -> JsonValue
        decreases self,
    {
        match self {
            JsonType::Null => JsonValue::Null,
            JsonType::Bool(b) => JsonValue::Bool(*b),
            JsonType::Number(literal) => JsonValue::Number(literal@),
            JsonType::String(s) => JsonValue::String(s@),
            JsonType::Array(items) => JsonValue::Array(items_view(items@)),
            JsonType::Object(members) => JsonValue::Object(members_view(members@)),
        }
    }
}

/// The values of the items of an array, in order.
pub open spec fn items_view(items: Seq<JsonType>) -> Seq<JsonValue>
    decreases items,
{
    Seq::new(
        items.len(),
        |i: int|
            if 0 <= i < items.len() {
                items[i]@
            } else {
                JsonValue::Null
            },
    )
}

/// The keys and values of the members of an object, in order.
pub open spec fn members_view(members: Seq<(String, JsonType)>) -> Seq<(Seq<char>, JsonValue)>
    decreases members,
{
    Seq::new(
        members.len(),
        |i: int|
            if 0 <= i < members.len() {
                (members[i].0@, members[i].1@)
            } else {
                (Seq::empty(), JsonValue::Null)
            },
    )
}

/// Why a document could not be parsed.
#[derive(Debug, Clone, Copy, PartialEq, Eq)]
pub enum JsonParseErrorKind {
    /// A character stands where the grammar allows another.
    UnexpectedChar(char),
    /// The text ends where the grammar asks for more.
    UnexpectedEnd,
    /// A run of digits and decimal points is no number.
    InvalidNumber,
    /// A backslash in a string is followed by a character that names no escape.
    InvalidEscape,
    /// The four characters after `\u` are not hexadecimal digits, or name a
    /// surrogate.
    InvalidUnicode,
}

/// A parse failure: its cause and the byte offset in the text at which it was
/// detected.
#[derive(Debug, Clone, Copy, PartialEq, Eq)]
pub struct JsonParseError {
    pub kind: JsonParseErrorKind,
    pub pos: usize,
}

} // verus!
