//! A value that has been read does not depend on what stands around it.
//!
//! Each `lemma_*_extends` says of one construct: where it is read
//! successfully from a text `t`, it is read to the same end, with the same
//! value, from `t` followed by any `x`. For a number, which ends where the
//! digits end, `x` must not go on with another digit or decimal point.
//! Whitespace before a value is passed, so that whitespace on either side of
//! a document changes nothing of its value.
use crate::grammar::{
    escape_value, hex4, is_surrogate, lemma_elements_close, lemma_elements_step,
    lemma_members_start, lemma_members_step, lemma_value_skips_whitespace, number_run,
    parse_outcome, scan_array, scan_elements, scan_members, scan_number, scan_object, scan_string,
    scan_string_body, scan_text, scan_value,
};
use crate::text::{
    is_blank, is_number_char, is_whitespace, leading_whitespace, lemma_blank_prefix,
    lemma_leading_whitespace,
};
use crate::value::JsonValue;
use vstd::prelude::*;

verus! {

/// `x` does not begin with a character that would lengthen a number.
pub open spec fn ends_number(x: Seq<char>) -> bool {
    x.len() == 0 || !is_number_char(x[0])
}

/// Whitespace that ends inside `t` ends at the same place in `t + x`; where
/// all of `t` is whitespace, the whitespace of `x` adds to it.
pub proof fn lemma_whitespace_extends(t: Seq<char>, x: Seq<char>)
    ensures
        leading_whitespace(t) <= t.len(),
        leading_whitespace(t + x) == if leading_whitespace(t) < t.len() {
            leading_whitespace(t)
        } else {
            t.len() + leading_whitespace(x)
        },
    decreases t.len(),
{
    if t.len() == 0 {
        assert(t + x =~= x);
    } else if is_whitespace(t[0]) {
        lemma_whitespace_extends(t.skip(1), x);
        assert((t + x).skip(1) =~= t.skip(1) + x);
    }
}

/// The inside of a string literal that closes in `t` is the same in `t + x`.
pub proof fn lemma_string_body_extends(t: Seq<char>, acc: Seq<char>, x: Seq<char>)
    requires
        scan_string_body(t, acc) is Done,
    ensures
        scan_string_body(t + x, acc) == scan_string_body(t, acc),
    decreases t.len(),
{
    reveal_with_fuel(scan_string_body, 1);
    let tx = t + x;
    assert(t.len() > 0);
    assert(tx[0] == t[0]);
    if t[0] == '"' {
    } else if t[0] != '\\' {
        assert(tx.skip(1) =~= t.skip(1) + x);
        lemma_string_body_extends(t.skip(1), acc.push(t[0]), x);
    } else {
        assert(t.len() > 1);
        assert(tx[1] == t[1]);
        if t[1] == 'u' {
            assert(t.len() >= 6);
            assert(tx.subrange(2, 6) =~= t.subrange(2, 6));
            let v = hex4(t.subrange(2, 6))->0;
            assert(hex4(t.subrange(2, 6)) is Some && !is_surrogate(v));
            if t.len() == 6 {
                assert(t.skip(6).len() == 0);
                assert(scan_string_body(t.skip(6), acc.push(v as char)) is Fail);
                assert(false);
            }
            assert(tx.skip(7) =~= t.skip(7) + x);
            lemma_string_body_extends(t.skip(7), acc.push(v as char), x);
        } else {
            let c = escape_value(t[1])->0;
            assert(escape_value(t[1]) is Some);
            assert(tx.skip(2) =~= t.skip(2) + x);
            lemma_string_body_extends(t.skip(2), acc.push(c), x);
        }
    }
}

/// A string literal that closes in `t` is the same in `t + x`.
pub proof fn lemma_string_extends(t: Seq<char>, x: Seq<char>)
    requires
        scan_text(t) is Done,
    ensures
        scan_text(t + x) == scan_text(t),
        scan_string(t + x) == scan_string(t),
{
    assert((t + x).skip(1) =~= t.skip(1) + x);
    lemma_string_body_extends(t.skip(1), Seq::empty(), x);
}

/// A run of digits and decimal points in `t` is not lengthened by an `x` that
/// begins with another character.
pub proof fn lemma_number_extends(t: Seq<char>, x: Seq<char>)
    requires
        ends_number(x),
    ensures
        number_run(t) <= t.len(),
        number_run(t + x) == number_run(t),
        scan_number(t + x) == scan_number(t),
    decreases t.len(),
{
    reveal_with_fuel(number_run, 1);
    if t.len() == 0 {
        assert(t + x =~= x);
    } else if is_number_char(t[0]) {
        lemma_number_extends(t.skip(1), x);
        assert((t + x).skip(1) =~= t.skip(1) + x);
    }
    assert((t + x).take(number_run(t) as int) =~= t.take(number_run(t) as int));
}

/// A value that is read from `t` is read in the same way from `t + x`.
pub proof fn lemma_value_extends(t: Seq<char>, x: Seq<char>)
    requires
        scan_value(t) is Done,
        ends_number(x),
    ensures
        scan_value(t + x) == scan_value(t),
    decreases t.len(), 1nat,
{
    reveal_with_fuel(scan_value, 1);
    reveal_strlit("null");
    reveal_strlit("true");
    reveal_strlit("false");
    let w = leading_whitespace(t);
    let u = t.skip(w as int);
    lemma_whitespace_extends(t, x);
    assert(w < t.len());
    assert((t + x).skip(w as int) =~= u + x);
    assert(u[0] == t[w as int]);
    assert((u + x)[0] == u[0]);
    assert((t + x)[w as int] == t[w as int]);
    assert forall|lit: Seq<char>| lit.is_prefix_of(u) implies #[trigger] lit.is_prefix_of(
        u + x,
    ) by {
        assert((u + x).subrange(0, lit.len() as int) =~= u.subrange(0, lit.len() as int));
    }
    assert forall|lit: Seq<char>|
        lit.len() > 0 && lit[0] != u[0] implies !#[trigger] lit.is_prefix_of(u + x) by {
        if lit.is_prefix_of(u + x) {
            assert((u + x).subrange(0, lit.len() as int)[0] == lit[0]);
        }
    }
    assert forall|lit: Seq<char>|
        lit.len() > 0 && lit[0] != u[0] implies !#[trigger] lit.is_prefix_of(u) by {
        if lit.is_prefix_of(u) {
            assert(u.subrange(0, lit.len() as int)[0] == lit[0]);
        }
    }
    if "null"@.is_prefix_of(u) {
    } else if "true"@.is_prefix_of(u) {
        assert(u.subrange(0, 4)[0] == 't');
    } else if "false"@.is_prefix_of(u) {
        assert(u.subrange(0, 5)[0] == 'f');
    } else if t[w as int] == '"' {
        lemma_string_extends(u, x);
    } else if t[w as int] == '[' {
        lemma_array_extends(u, x);
    } else if t[w as int] == '{' {
        lemma_object_extends(u, x);
    } else {
        lemma_number_extends(u, x);
    }
}

/// An array that is read from `t` is read in the same way from `t + x`.
pub proof fn lemma_array_extends(t: Seq<char>, x: Seq<char>)
    requires
        scan_array(t) is Done,
        ends_number(x),
    ensures
        scan_array(t + x) == scan_array(t),
    decreases t.len(), 0nat,
{
    assert((t + x).skip(1) =~= t.skip(1) + x);
    lemma_elements_extends(t.skip(1), Seq::empty(), x);
}

/// The elements of an array that closes in `t` are the same in `t + x`.
pub proof fn lemma_elements_extends(t: Seq<char>, acc: Seq<JsonValue>, x: Seq<char>)
    requires
        scan_elements(t, acc) is Done,
        ends_number(x),
    ensures
        scan_elements(t + x, acc) == scan_elements(t, acc),
    decreases t.len(), 2nat,
{
    let tx = t + x;
    let w = leading_whitespace(t);
    lemma_whitespace_extends(t, x);
    if w < t.len() && t[w as int] == ']' {
        assert(tx[w as int] == ']');
        lemma_elements_close(t, acc);
        lemma_elements_close(tx, acc);
    } else {
        lemma_elements_step(t, acc);
        assert(scan_value(t) is Done);
        assert(w < t.len()) by {
            reveal_with_fuel(scan_value, 1);
            reveal_strlit("null");
            reveal_strlit("true");
            reveal_strlit("false");
        }
        assert(tx[w as int] == t[w as int]);
        lemma_elements_step(tx, acc);
        lemma_value_extends(t, x);
        let v = scan_value(t)->Done_0;
        let n = scan_value(t)->Done_1;
        let p = n + leading_whitespace(t.skip(n as int));
        assert(p < t.len());
        assert(tx.skip(n as int) =~= t.skip(n as int) + x);
        lemma_whitespace_extends(t.skip(n as int), x);
        assert(tx[p as int] == t[p as int]);
        if t[p as int] == ',' {
            assert(tx.skip(p as int + 1) =~= t.skip(p as int + 1) + x);
            lemma_elements_extends(t.skip(p as int + 1), acc.push(v), x);
        }
    }
}

/// An object that is read from `t` is read in the same way from `t + x`.
pub proof fn lemma_object_extends(t: Seq<char>, x: Seq<char>)
    requires
        scan_object(t) is Done,
        ends_number(x),
    ensures
        scan_object(t + x) == scan_object(t),
    decreases t.len(), 0nat,
{
    assert((t + x).skip(1) =~= t.skip(1) + x);
    lemma_members_extends(t.skip(1), Seq::empty(), x);
}

/// The members of an object that closes in `t` are the same in `t + x`.
pub proof fn lemma_members_extends(
    t: Seq<char>,
    acc: Seq<(Seq<char>, JsonValue)>,
    x: Seq<char>,
)
    requires
        scan_members(t, acc) is Done,
        ends_number(x),
    ensures
        scan_members(t + x, acc) == scan_members(t, acc),
    decreases t.len(), 2nat,
{
    let tx = t + x;
    let w = leading_whitespace(t);
    lemma_whitespace_extends(t, x);
    lemma_members_start(t, acc);
    lemma_members_start(tx, acc);
    assert(w < t.len());
    assert(tx[w as int] == t[w as int]);
    if t[w as int] == '}' {
    } else {
        assert(t[w as int] == '"');
        lemma_members_step(t, acc);
        lemma_members_step(tx, acc);
        let u = t.skip(w as int);
        assert(tx.skip(w as int) =~= u + x);
        assert(scan_text(u) is Done);
        lemma_string_extends(u, x);
        let key = scan_text(u)->Done_0;
        let n = scan_text(u)->Done_1;
        let a = w + n + leading_whitespace(t.skip((w + n) as int));
        assert(a < t.len());
        assert(tx.skip((w + n) as int) =~= t.skip((w + n) as int) + x);
        lemma_whitespace_extends(t.skip((w + n) as int), x);
        assert(tx[a as int] == t[a as int]);
        assert(t[a as int] == ':');
        let after_colon = t.skip(a as int + 1);
        assert(tx.skip(a as int + 1) =~= after_colon + x);
        assert(scan_value(after_colon) is Done);
        lemma_value_extends(after_colon, x);
        let v = scan_value(after_colon)->Done_0;
        let m = scan_value(after_colon)->Done_1;
        let q = a + 1 + m;
        let p = q + leading_whitespace(t.skip(q as int));
        assert(p < t.len());
        assert(tx.skip(q as int) =~= t.skip(q as int) + x);
        lemma_whitespace_extends(t.skip(q as int), x);
        assert(tx[p as int] == t[p as int]);
        if t[p as int] == ',' {
            assert(tx.skip(p as int + 1) =~= t.skip(p as int + 1) + x);
            lemma_members_extends(t.skip(p as int + 1), acc.push((key, v)), x);
        }
    }
}

/// Whitespace before a text is passed, and the value behind it is read as
/// without it.
pub proof fn lemma_leading_blank(ws: Seq<char>, t: Seq<char>)
    requires
        is_blank(ws),
    ensures
        scan_value(ws + t) == scan_value(t).after(ws.len()),
{
    let w = leading_whitespace(t);
    let u = t.skip(w as int);
    lemma_leading_whitespace(t);
    assert(t =~= t.take(w as int) + u);
    let all = ws + t.take(w as int);
    assert(is_blank(all)) by {
        assert forall|i: int| 0 <= i < all.len() implies is_whitespace(#[trigger] all[i]) by {
            if i >= ws.len() {
                assert(all[i] == t[i - ws.len()]);
            }
        }
    }
    assert(ws + t =~= all + u);
    assert(u.len() == 0 || !is_whitespace(u[0]));
    lemma_blank_prefix(all, u);
    lemma_value_skips_whitespace(ws + t);
    lemma_value_skips_whitespace(t);
}

/// Whitespace around a text that parses is ignored: with it the text parses
/// to the same value.
pub proof fn lemma_padding_ignored(before: Seq<char>, t: Seq<char>, after: Seq<char>)
    requires
        is_blank(before),
        is_blank(after),
        parse_outcome(t) is Ok,
    ensures
        parse_outcome(before + t + after) == parse_outcome(t),
{
    assert(ends_number(after));
    lemma_value_extends(t, after);
    lemma_leading_blank(before, t + after);
    assert(before + t + after =~= before + (t + after));
}

} // verus!
