//! Character classes of the grammar, and the UTF-8 length of text.
//!
//! Positions inside a document are counted in characters by the parser's
//! mathematical model and in bytes by the errors it reports. `utf8_len` is the
//! bridge between the two.
use vstd::prelude::*;
use vstd::utf8::*;

verus! {

/// The characters with the Unicode property `White_Space`.
pub open spec fn is_whitespace(c: char) -> bool {
    let v = c as u32;
    ||| 0x09 <= v <= 0x0D
    ||| v == 0x20
    ||| v == 0x85
    ||| v == 0xA0
    ||| v == 0x1680
    ||| 0x2000 <= v <= 0x200A
    ||| v == 0x2028
    ||| v == 0x2029
    ||| v == 0x202F
    ||| v == 0x205F
    ||| v == 0x3000
}

/// The ten ASCII digits.
pub open spec fn is_digit(c: char) -> bool {
    '0' <= c <= '9'
}

/// A character that a number literal may hold: a digit or the decimal point.
pub open spec fn is_number_char(c: char) -> bool {
    is_digit(c) || c == '.'
}

/// A run of digits and decimal points is a number when it holds a digit and no
/// second decimal point. These are the runs that the standard library converts
/// to a floating-point number.
pub open spec fn is_decimal(s: Seq<char>) -> bool {
    &&& forall|i: int| 0 <= i < s.len() ==> is_number_char(#[trigger] s[i])
    &&& exists|i: int| 0 <= i < s.len() && is_digit(#[trigger] s[i])
    &&& forall|i: int, j: int|
        #![trigger s[i], s[j]]
        0 <= i < j < s.len() ==> !(s[i] == '.' && s[j] == '.')
}

/// The value of a hexadecimal digit of either case.
pub open spec fn hex_value(c: char) -> Option<nat> {
    if '0' <= c <= '9' {
        Some((c as u32 - '0' as u32) as nat)
    } else if 'a' <= c <= 'f' {
        Some((c as u32 - 'a' as u32 + 10) as nat)
    } else if 'A' <= c <= 'F' {
        Some((c as u32 - 'A' as u32 + 10) as nat)
    } else {
        None
    }
}

/// The number of bytes that the UTF-8 encoding of `c` takes.
pub open spec fn utf8_width(c: char) -> nat {
    let v = c as u32;
    if v < 0x80 {
        1
    } else if v < 0x800 {
        2
    } else if v < 0x10000 {
        3
    } else {
        4
    }
}

/// The number of bytes that the UTF-8 encoding of `s` takes.
pub open spec fn utf8_len(s: Seq<char>) -> nat
    decreases s.len(),
{
    if s.len() == 0 {
        0
    } else {
        utf8_width(s[0]) + utf8_len(s.drop_first())
    }
}

/// The number of whitespace characters that `t` begins with.
pub open spec fn leading_whitespace(t: Seq<char>) -> nat
    decreases t.len(),
{
    if t.len() > 0 && is_whitespace(t[0]) {
        1 + leading_whitespace(t.skip(1))
    } else {
        0
    }
}

/// All characters of `ws` are whitespace.
pub open spec fn is_blank(ws: Seq<char>) -> bool {
    forall|i: int| 0 <= i < ws.len() ==> is_whitespace(#[trigger] ws[i])
}

/// Whether `c` is whitespace.
pub fn whitespace(c: char) -> (r: bool)
    ensures
        r == is_whitespace(c),
{
    let v: u32 = c as u32;
    (0x09 <= v && v <= 0x0D) || v == 0x20 || v == 0x85 || v == 0xA0 || v == 0x1680 || (0x2000 <= v
        && v <= 0x200A) || v == 0x2028 || v == 0x2029 || v == 0x202F || v == 0x205F || v == 0x3000
}

/// Whether `c` is one of the ten ASCII digits.
pub fn digit(c: char) -> (r: bool)
    ensures
        r == is_digit(c),
{
    '0' <= c && c <= '9'
}

/// The value of `c` as a hexadecimal digit, if it is one.
pub fn hex_digit(c: char) -> (r: Option<u32>)
    ensures
        r is Some <==> hex_value(c) is Some,
        r matches Some(v) ==> v == hex_value(c)->0 && v < 16,
{
    let v: u32 = c as u32;
    if '0' <= c && c <= '9' {
        Some(v - 0x30)
    } else if 'a' <= c && c <= 'f' {
        Some(v - 0x61 + 10)
    } else if 'A' <= c && c <= 'F' {
        Some(v - 0x41 + 10)
    } else {
        None
    }
}

/// The number of bytes that `c` takes in UTF-8.
pub fn width(c: char) -> (r: usize)
    ensures
        r == utf8_width(c),
{
    let v: u32 = c as u32;
    if v < 0x80 {
        1
    } else if v < 0x800 {
        2
    } else if v < 0x10000 {
        3
    } else {
        4
    }
}

/// `leading_whitespace(t)` is the index of the first character of `t` that is
/// not whitespace, or the length of `t` where there is none.
pub proof fn lemma_leading_whitespace(t: Seq<char>)
    ensures
        leading_whitespace(t) <= t.len(),
        forall|i: int| 0 <= i < leading_whitespace(t) ==> is_whitespace(#[trigger] t[i]),
        leading_whitespace(t) < t.len() ==> !is_whitespace(t[leading_whitespace(t) as int]),
        leading_whitespace(t.skip(leading_whitespace(t) as int)) == 0,
    decreases t.len(),
{
    if t.len() > 0 && is_whitespace(t[0]) {
        let u = t.skip(1);
        lemma_leading_whitespace(u);
        let w = leading_whitespace(u);
        assert forall|i: int| 0 <= i < leading_whitespace(t) implies is_whitespace(
            #[trigger] t[i],
        ) by {
            if i > 0 {
                assert(t[i] == u[i - 1]);
            }
        }
        assert(t.skip(w as int + 1) =~= u.skip(w as int));
    } else {
        assert(t.skip(0) =~= t);
    }
}

/// Whitespace that is followed by another character, or by nothing, is all
/// the whitespace that the text begins with.
pub proof fn lemma_blank_prefix(ws: Seq<char>, t: Seq<char>)
    requires
        is_blank(ws),
        t.len() == 0 || !is_whitespace(t[0]),
    ensures
        leading_whitespace(ws + t) == ws.len(),
        (ws + t).skip(ws.len() as int) == t,
    decreases ws.len(),
{
    assert((ws + t).skip(ws.len() as int) =~= t);
    if ws.len() == 0 {
        assert(ws + t =~= t);
    } else {
        assert((ws + t).skip(1) =~= ws.skip(1) + t);
        lemma_blank_prefix(ws.skip(1), t);
    }
}

/// Equal encodings come from equal texts.
pub proof fn lemma_encode_injective(a: Seq<char>, b: Seq<char>)
    requires
        encode_utf8(a) == encode_utf8(b),
    ensures
        a == b,
{
    encode_utf8_decode_utf8(a);
    encode_utf8_decode_utf8(b);
}

/// `utf8_width` is the length of the encoding that vstd's UTF-8 model gives.
pub proof fn lemma_width_is_encoded_len(c: char)
    ensures
        utf8_width(c) == encode_scalar(c as u32).len(),
        1 <= utf8_width(c) <= 4,
{
    char_is_scalar(c);
}

/// `utf8_len` is the length of the encoding that vstd's UTF-8 model gives.
pub proof fn lemma_len_is_encoded_len(s: Seq<char>)
    ensures
        utf8_len(s) == encode_utf8(s).len(),
    decreases s.len(),
{
    if s.len() > 0 {
        lemma_width_is_encoded_len(s[0]);
        lemma_len_is_encoded_len(s.drop_first());
    }
}

/// Encoding distributes over concatenation.
pub proof fn lemma_encode_concat(a: Seq<char>, b: Seq<char>)
    ensures
        encode_utf8(a + b) == encode_utf8(a) + encode_utf8(b),
        utf8_len(a + b) == utf8_len(a) + utf8_len(b),
    decreases a.len(),
{
    if a.len() == 0 {
        assert(a + b =~= b);
        assert(encode_utf8(a) + encode_utf8(b) =~= encode_utf8(b));
    } else {
        lemma_encode_concat(a.drop_first(), b);
        assert((a + b).drop_first() =~= a.drop_first() + b);
        assert(encode_utf8(a + b) =~= encode_utf8(a) + encode_utf8(b));
    }
    lemma_len_is_encoded_len(a + b);
    lemma_len_is_encoded_len(a);
    lemma_len_is_encoded_len(b);
}

/// The byte offset of a character index never decreases with the index, and
/// grows by the width of the character that is passed.
pub proof fn lemma_offset_step(s: Seq<char>, i: int)
    requires
        0 <= i < s.len(),
    ensures
        utf8_len(s.take(i + 1)) == utf8_len(s.take(i)) + utf8_width(s[i]),
        utf8_len(s.take(i + 1)) <= utf8_len(s),
{
    assert(s.take(i + 1) =~= s.take(i) + seq![s[i]]);
    lemma_encode_concat(s.take(i), seq![s[i]]);
    assert(utf8_len(seq![s[i]]) == utf8_width(s[i])) by {
        reveal_with_fuel(utf8_len, 2);
    }
    assert(s =~= s.take(i + 1) + s.skip(i + 1));
    lemma_encode_concat(s.take(i + 1), s.skip(i + 1));
}

/// Where the first `i` characters end in the encoding of `s` is a character
/// boundary, and the bytes from there on encode the characters from `i` on.
pub proof fn lemma_split_at_index(s: Seq<char>, i: int)
    requires
        0 <= i <= s.len(),
    ensures
        utf8_len(s.take(i)) <= encode_utf8(s).len(),
        is_char_boundary(encode_utf8(s), utf8_len(s.take(i)) as int),
        encode_utf8(s).subrange(0, utf8_len(s.take(i)) as int) == encode_utf8(s.take(i)),
        encode_utf8(s).subrange(utf8_len(s.take(i)) as int, encode_utf8(s).len() as int)
            == encode_utf8(s.skip(i)),
    decreases i,
{
    broadcast use encode_utf8_valid_utf8;

    let bytes = encode_utf8(s);
    let head = s.take(i);
    let tail = s.skip(i);
    assert(s =~= head + tail);
    lemma_encode_concat(head, tail);
    lemma_len_is_encoded_len(head);
    let k = utf8_len(head) as int;
    assert(bytes.subrange(0, k) =~= encode_utf8(head));
    assert(bytes.subrange(k, bytes.len() as int) =~= encode_utf8(tail));
    if i > 0 {
        let rest = s.drop_first();
        lemma_split_at_index(rest, i - 1);
        encode_utf8_first_scalar(s);
        lemma_width_is_encoded_len(s[0]);
        assert(pop_first_scalar(bytes) =~= encode_utf8(rest));
        assert(head.drop_first() =~= rest.take(i - 1));
        assert(utf8_len(head) == utf8_width(s[0]) + utf8_len(rest.take(i - 1)));
    }
}

} // verus!
