//! What holds of every result of reading. No construct is read beyond the
//! end of the text: the end of every value, and the place of every failure,
//! lies inside it. And every value that is read is well-formed.
use crate::grammar::{
    escape_value, hex4, lemma_elements_close, lemma_elements_step, lemma_members_start,
    lemma_members_step, number_run, parse_outcome, scan_array, scan_elements, scan_members,
    scan_number, scan_object, scan_string, scan_string_body, scan_text, scan_value, Scan,
};
use crate::text::{leading_whitespace, lemma_encode_concat, lemma_leading_whitespace, utf8_len};
use crate::value::{entries_wf, values_wf, JsonValue};
use vstd::prelude::*;

verus! {

/// The inside of a string literal is read within the text.
pub proof fn lemma_string_body_in_bounds(t: Seq<char>, acc: Seq<char>)
    ensures
        scan_string_body(t, acc).span() <= t.len(),
    decreases t.len(),
{
    reveal_with_fuel(scan_string_body, 1);
    if t.len() == 0 || t[0] == '"' {
    } else if t[0] != '\\' {
        lemma_string_body_in_bounds(t.skip(1), acc.push(t[0]));
    } else if t.len() >= 2 {
        if t[1] == 'u' {
            if t.len() >= 6 {
                if let Some(v) = hex4(t.subrange(2, 6)) {
                    if t.len() == 6 {
                        lemma_string_body_in_bounds(t.skip(6), acc.push(v as char));
                    } else {
                        lemma_string_body_in_bounds(t.skip(7), acc.push(v as char));
                    }
                }
            }
        } else if let Some(c) = escape_value(t[1]) {
            lemma_string_body_in_bounds(t.skip(2), acc.push(c));
        }
    }
}

/// A string literal is read within the text.
pub proof fn lemma_string_in_bounds(t: Seq<char>)
    ensures
        scan_text(t).span() <= t.len(),
        scan_string(t).span() <= t.len(),
{
    if t.len() > 0 {
        lemma_string_body_in_bounds(t.skip(1), Seq::empty());
    }
}

/// A run of digits and decimal points lies within the text.
pub proof fn lemma_number_in_bounds(t: Seq<char>)
    ensures
        number_run(t) <= t.len(),
        scan_number(t).span() <= t.len(),
        scan_number(t) matches Scan::Done(v, _) ==> v.wf(),
    decreases t.len(),
{
    reveal_with_fuel(number_run, 1);
    if t.len() > 0 {
        lemma_number_in_bounds(t.skip(1));
    }
}

/// A value is read within the text, and a value that is read spans at least
/// one character and is well-formed.
pub proof fn lemma_value_in_bounds(t: Seq<char>)
    ensures
        scan_value(t).span() <= t.len(),
        scan_value(t) is Done ==> scan_value(t).span() > 0,
        scan_value(t) matches Scan::Done(v, _) ==> v.wf(),
    decreases t.len(), 1nat,
{
    reveal_with_fuel(scan_value, 1);
    reveal_strlit("null");
    reveal_strlit("true");
    reveal_strlit("false");
    let w = leading_whitespace(t);
    let u = t.skip(w as int);
    lemma_leading_whitespace(t);
    if w < t.len() {
        lemma_string_in_bounds(u);
        lemma_number_in_bounds(u);
        if t[w as int] == '[' {
            lemma_array_in_bounds(u);
        }
        if t[w as int] == '{' {
            lemma_object_in_bounds(u);
        }
        assert(u[0] == t[w as int]);
        assert(scan_number(u) is Done ==> scan_number(u).span() > 0);
        assert(scan_string(u) is Done ==> scan_string(u).span() > 0);
    }
}

/// An array is read within the text.
pub proof fn lemma_array_in_bounds(t: Seq<char>)
    ensures
        scan_array(t).span() <= t.len(),
        scan_array(t) is Done ==> scan_array(t).span() > 0,
        scan_array(t) matches Scan::Done(v, _) ==> v.wf(),
    decreases t.len(), 0nat,
{
    if t.len() > 0 {
        lemma_elements_in_bounds(t.skip(1), Seq::empty());
    }
}

/// The elements of an array are read within the text, and are well-formed
/// where those read before them are.
pub proof fn lemma_elements_in_bounds(t: Seq<char>, acc: Seq<JsonValue>)
    requires
        values_wf(acc),
    ensures
        scan_elements(t, acc).span() <= t.len(),
        scan_elements(t, acc) matches Scan::Done(v, _) ==> v.wf(),
    decreases t.len(), 2nat,
{
    let w = leading_whitespace(t);
    lemma_leading_whitespace(t);
    if w < t.len() && t[w as int] == ']' {
        lemma_elements_close(t, acc);
    } else {
        lemma_elements_step(t, acc);
        lemma_value_in_bounds(t);
        if let Scan::Done(v, n) = scan_value(t) {
            lemma_leading_whitespace(t.skip(n as int));
            let p = n + leading_whitespace(t.skip(n as int));
            if p < t.len() && t[p as int] == ',' {
                lemma_elements_in_bounds(t.skip(p as int + 1), acc.push(v));
            }
        }
    }
}

/// An object is read within the text.
pub proof fn lemma_object_in_bounds(t: Seq<char>)
    ensures
        scan_object(t).span() <= t.len(),
        scan_object(t) is Done ==> scan_object(t).span() > 0,
        scan_object(t) matches Scan::Done(v, _) ==> v.wf(),
    decreases t.len(), 0nat,
{
    if t.len() > 0 {
        lemma_members_in_bounds(t.skip(1), Seq::empty());
    }
}

/// The members of an object are read within the text, and are well-formed
/// where those read before them are.
pub proof fn lemma_members_in_bounds(t: Seq<char>, acc: Seq<(Seq<char>, JsonValue)>)
    requires
        entries_wf(acc),
    ensures
        scan_members(t, acc).span() <= t.len(),
        scan_members(t, acc) matches Scan::Done(v, _) ==> v.wf(),
    decreases t.len(), 2nat,
{
    let w = leading_whitespace(t);
    lemma_leading_whitespace(t);
    lemma_members_start(t, acc);
    if w < t.len() && t[w as int] == '"' {
        lemma_members_step(t, acc);
        lemma_string_in_bounds(t.skip(w as int));
        if let Scan::Done(key, n) = scan_text(t.skip(w as int)) {
            lemma_leading_whitespace(t.skip((w + n) as int));
            let a = w + n + leading_whitespace(t.skip((w + n) as int));
            if a < t.len() && t[a as int] == ':' {
                lemma_value_in_bounds(t.skip(a as int + 1));
                if let Scan::Done(v, m) = scan_value(t.skip(a as int + 1)) {
                    let q = a + 1 + m;
                    lemma_leading_whitespace(t.skip(q as int));
                    let p = q + leading_whitespace(t.skip(q as int));
                    if p < t.len() && t[p as int] == ',' {
                        lemma_members_in_bounds(t.skip(p as int + 1), acc.push((key, v)));
                    }
                }
            }
        }
    }
}

/// The byte offset of a failure is an offset into the text: it is at most the
/// number of bytes that the text takes. And the value of a text that parses is
/// well-formed.
pub proof fn lemma_outcome(text: Seq<char>)
    ensures
        parse_outcome(text) matches Err((_, pos)) ==> pos <= utf8_len(text),
        parse_outcome(text) matches Ok(v) ==> v.wf(),
{
    lemma_value_in_bounds(text);
    let n = scan_value(text).span() as int;
    assert(text =~= text.take(n) + text.skip(n));
    lemma_encode_concat(text.take(n), text.skip(n));
}

} // verus!
