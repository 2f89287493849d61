//! A recursive-descent JSON parser that reports where and why a document is
//! malformed.
//!
//! `parse_json` reads the value that a text begins with and returns it as a
//! `JsonType`, or returns a `JsonParseError` with the cause and the byte
//! offset of the first fault.
//!
//! `grammar` states what is parsed as functions on sequences of characters,
//! and `parser` holds the executable parser over a `cursor`. `results` and
//! `locality` prove what holds of everything that is read, and `syntax` proves
//! that well-formed documents are read back as what they denote.
pub mod cursor;
pub mod grammar;
pub mod locality;
pub mod parser;
pub mod results;
pub mod std_contracts;
pub mod syntax;
pub mod text;
pub mod value;

pub use cursor::Cursor;
pub use parser::parse_json;
pub use value::{JsonParseError, JsonParseErrorKind, JsonType};
