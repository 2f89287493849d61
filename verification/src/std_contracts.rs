//! Contracts for the two functions of the standard library that the parser
//! calls and that vstd leaves without one. Verus takes them on trust.
use vstd::prelude::*;
use vstd::utf8::is_scalar;

verus! {

/// `String::push` appends the character to the end of the string and leaves
/// what the string held before in place.
pub assume_specification[ std::string::String::push ](s: &mut std::string::String, ch: char)
    ensures
        final(s)@ == old(s)@.push(ch),
;

/// `char::from_u32` returns the character with the given code point. It
/// returns `None` exactly for the numbers that are no Unicode scalar value:
/// the surrogates, `0xD800` to `0xDFFF`, and what lies above `0x10FFFF`.
pub assume_specification[ char::from_u32 ](i: u32) -> (r: Option<char>)
    ensures
        r == if is_scalar(i) {
            Some(i as char)
        } else {
            None::<char>
        },
;

} // verus!
