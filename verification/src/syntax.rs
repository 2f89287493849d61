//! Well-formed documents, and the proof that the parser reads each of them as
//! the value that it denotes.
//!
//! A `Document` is a syntax tree: it records the value together with the
//! choices that a writer has, the whitespace around every value and the
//! spelling of every character of a string. Its `text` is a JSON text, and
//! every JSON text without a sign, an exponent or a `\u` escape is the text of
//! some document. `lemma_wellformed_text_parses` shows that parsing that text
//! gives the document's `value`.
//!
//! Signs and `\u` escapes are left out because the parser does not read them
//! as JSON does: a number that begins with `-` is rejected, and the character
//! behind the four digits of a `\u` escape is passed unread.
use crate::grammar::{
    escape_value, lemma_elements_close, lemma_elements_step, lemma_members_start,
    lemma_members_step, lemma_value_dispatch, number_run, parse_outcome, scan_elements,
    scan_members, scan_string_body, scan_text, scan_value, Scan,
};
use crate::locality::{ends_number, lemma_leading_blank};
use crate::text::{
    is_blank, is_decimal, is_digit, is_number_char, is_whitespace, leading_whitespace,
    lemma_blank_prefix,
};
use crate::value::{JsonParseErrorKind, JsonValue};
use vstd::prelude::*;

verus! {

/// One character of a string, as it is spelled in a string literal.
pub enum Piece {
    /// A character that stands for itself.
    Plain(char),
    /// A backslash and the letter of a one-letter escape.
    Escape(char),
}

impl Piece {
    /// A plain character is neither the quote nor the backslash, and the
    /// letter of an escape is one of the eight that name a character.
    pub open spec fn wf(self) -> bool {
        match self {
            Piece::Plain(c) => c != '"' && c != '\\',
            Piece::Escape(c) => escape_value(c) is Some,
        }
    }

    /// How the piece is written.
    pub open spec fn text(self) -> Seq<char> {
        match self {
            Piece::Plain(c) => seq![c],
            Piece::Escape(c) => seq!['\\', c],
        }
    }

    /// The character that the piece stands for.
    pub open spec fn value(self) -> char {
        match self {
            Piece::Plain(c) => c,
            Piece::Escape(c) => escape_value(c)->0,
        }
    }
}

/// The spelling of a string's characters, without the quotes around them.
pub open spec fn pieces_text(pieces: Seq<Piece>) -> Seq<char>
    decreases pieces.len(),
{
    if pieces.len() == 0 {
        Seq::empty()
    } else {
        pieces[0].text() + pieces_text(pieces.skip(1))
    }
}

/// The characters that the pieces spell.
pub open spec fn pieces_value(pieces: Seq<Piece>) -> Seq<char> {
    Seq::new(pieces.len(), |i: int| pieces[i].value())
}

/// Each of the pieces is well-formed.
pub open spec fn pieces_wf(pieces: Seq<Piece>) -> bool {
    forall|i: int| 0 <= i < pieces.len() ==> (#[trigger] pieces[i]).wf()
}

/// A string literal: the pieces between two quotes.
pub open spec fn quoted(pieces: Seq<Piece>) -> Seq<char> {
    seq!['"'] + pieces_text(pieces) + seq!['"']
}

/// A value with the whitespace before and after it.
pub struct Document {
    pub before: Seq<char>,
    pub content: Content,
    pub after: Seq<char>,
}

/// A value as it is written.
pub enum Content {
    Null,
    True,
    False,
    /// The digits of a number, with or without a decimal point.
    Number(Seq<char>),
    String(Seq<Piece>),
    /// The elements of an array, and the whitespace between the brackets of
    /// an array that has none.
    Array(Seq<Document>, Seq<char>),
    /// The members of an object, and the whitespace between the braces of an
    /// object that has none.
    Object(Seq<Member>, Seq<char>),
}

/// A member of an object: the key with the whitespace around it, and, behind
/// the colon, the value.
pub struct Member {
    pub before: Seq<char>,
    pub key: Seq<Piece>,
    pub after: Seq<char>,
    pub value: Document,
}

impl Document {
    /// What stands around the value is whitespace, and the value is
    /// well-formed.
    pub open spec fn wf(self) -> bool
        decreases self,
    {
        is_blank(self.before) && is_blank(self.after) && self.content.wf()
    }

    /// The document as it is written.
    pub open spec fn text(self) -> Seq<char>
        decreases self,
    {
        self.before + self.content.text() + self.after
    }

    /// The value that the document denotes.
    pub open spec fn value(self) -> JsonValue
        decreases self,
    {
        self.content.value()
    }
}

impl Member {
    /// What stands around the key is whitespace, and the key and the value
    /// are well-formed.
    pub open spec fn wf(self) -> bool
        decreases self,
    {
        is_blank(self.before) && is_blank(self.after) && pieces_wf(self.key) && self.value.wf()
    }

    /// The member as it is written.
    pub open spec fn text(self) -> Seq<char>
        decreases self,
    {
        self.before + quoted(self.key) + self.after + seq![':'] + self.value.text()
    }

    /// The key and the value that the member denotes.
    pub open spec fn value(self) -> (Seq<char>, JsonValue)
        decreases self,
    {
        (pieces_value(self.key), self.value.value())
    }
}

impl Content {
    /// A number is a run of digits that begins with a digit and holds at most
    /// one decimal point. The parts of a string, an array and an object are
    /// well-formed, and the whitespace of an empty array or object is
    /// whitespace.
    pub open spec fn wf(self) -> bool
        decreases self,
    {
        match self {
            Content::Number(literal) => is_decimal(literal) && is_digit(literal[0]),
            Content::String(pieces) => pieces_wf(pieces),
            Content::Array(items, gap) => is_blank(gap) && forall|i: int|
                0 <= i < items.len() ==> (#[trigger] items[i]).wf(),
            Content::Object(members, gap) => is_blank(gap) && forall|i: int|
                0 <= i < members.len() ==> (#[trigger] members[i]).wf(),
            _ => true,
        }
    }

    /// The value as it is written.
    pub open spec fn text(self) -> Seq<char>
        decreases self,
    {
        match self {
            Content::Null => "null"@,
            Content::True => "true"@,
            Content::False => "false"@,
            Content::Number(literal) => literal,
            Content::String(pieces) => quoted(pieces),
            Content::Array(items, gap) => seq!['['] + (if items.len() == 0 {
                gap
            } else {
                elements_text(items)
            }) + seq![']'],
            Content::Object(members, gap) => seq!['{'] + (if members.len() == 0 {
                gap
            } else {
                members_text(members)
            }) + seq!['}'],
        }
    }

    /// The value that is written.
    pub open spec fn value(self) -> JsonValue
        decreases self,
    {
        match self {
            Content::Null => JsonValue::Null,
            Content::True => JsonValue::Bool(true),
            Content::False => JsonValue::Bool(false),
            Content::Number(literal) => JsonValue::Number(literal),
            Content::String(pieces) => JsonValue::String(pieces_value(pieces)),
            Content::Array(items, _) => JsonValue::Array(elements_value(items)),
            Content::Object(members, _) => JsonValue::Object(members_value(members)),
        }
    }
}

/// The texts of the elements, with a comma between each two.
pub open spec fn elements_text(items: Seq<Document>) -> Seq<char>
    decreases items,
{
    if items.len() == 0 {
        Seq::empty()
    } else if items.len() == 1 {
        items[0].text()
    } else {
        items[0].text() + seq![','] + elements_text(items.skip(1))
    }
}

/// The values of the elements, in order.
pub open spec fn elements_value(items: Seq<Document>) -> Seq<JsonValue>
    decreases items,
{
    Seq::new(
        items.len(),
        |i: int|
            if 0 <= i < items.len() {
                items[i].value()
            } else {
                JsonValue::Null
            },
    )
}

/// The texts of the members, with a comma between each two.
pub open spec fn members_text(members: Seq<Member>) -> Seq<char>
    decreases members,
{
    if members.len() == 0 {
        Seq::empty()
    } else if members.len() == 1 {
        members[0].text()
    } else {
        members[0].text() + seq![','] + members_text(members.skip(1))
    }
}

/// The keys and values of the members, in order.
pub open spec fn members_value(members: Seq<Member>) -> Seq<(Seq<char>, JsonValue)>
    decreases members,
{
    Seq::new(
        members.len(),
        |i: int|
            if 0 <= i < members.len() {
                members[i].value()
            } else {
                (Seq::empty(), JsonValue::Null)
            },
    )
}

/// The pieces of a string, the closing quote and whatever follows are read as
/// the characters that the pieces spell.
pub proof fn lemma_pieces_parse(pieces: Seq<Piece>, acc: Seq<char>, rest: Seq<char>)
    requires
        pieces_wf(pieces),
    ensures
        scan_string_body(pieces_text(pieces) + seq!['"'] + rest, acc) == Scan::Done(
            acc + pieces_value(pieces),
            pieces_text(pieces).len() + 1,
        ),
    decreases pieces.len(),
{
    reveal_with_fuel(scan_string_body, 1);
    let t = pieces_text(pieces) + seq!['"'] + rest;
    if pieces.len() == 0 {
        assert(t[0] == '"');
        assert(acc + pieces_value(pieces) =~= acc);
    } else {
        let first = pieces[0];
        let tail = pieces.skip(1);
        let next = pieces_text(tail) + seq!['"'] + rest;
        assert(first.wf());
        assert(pieces_wf(tail)) by {
            assert forall|i: int| 0 <= i < tail.len() implies (#[trigger] tail[i]).wf() by {
                assert(tail[i] == pieces[i + 1]);
            }
        }
        assert(t =~= first.text() + next);
        lemma_pieces_parse(tail, acc.push(first.value()), rest);
        assert(acc.push(first.value()) + pieces_value(tail) =~= acc + pieces_value(pieces));
        match first {
            Piece::Plain(c) => {
                assert(t[0] == c);
                assert(t.skip(1) =~= next);
            },
            Piece::Escape(c) => {
                assert(t[0] == '\\');
                assert(t[1] == c);
                assert(t.skip(2) =~= next);
            },
        }
    }
}

/// A string literal and whatever follows it are read as the string.
pub proof fn lemma_quoted_parses(pieces: Seq<Piece>, rest: Seq<char>)
    requires
        pieces_wf(pieces),
    ensures
        scan_text(quoted(pieces) + rest) == Scan::Done(
            pieces_value(pieces),
            quoted(pieces).len(),
        ),
{
    let t = quoted(pieces) + rest;
    assert(t.skip(1) =~= pieces_text(pieces) + seq!['"'] + rest);
    lemma_pieces_parse(pieces, Seq::empty(), rest);
    assert(Seq::<char>::empty() + pieces_value(pieces) =~= pieces_value(pieces));
}

/// A run of digits and decimal points, followed by another character or by
/// nothing, is read as a whole.
pub proof fn lemma_number_run_all(literal: Seq<char>, rest: Seq<char>)
    requires
        forall|i: int| 0 <= i < literal.len() ==> is_number_char(#[trigger] literal[i]),
        ends_number(rest),
    ensures
        number_run(literal + rest) == literal.len(),
    decreases literal.len(),
{
    reveal_with_fuel(number_run, 1);
    if literal.len() == 0 {
        assert(literal + rest =~= rest);
    } else {
        assert((literal + rest).skip(1) =~= literal.skip(1) + rest);
        lemma_number_run_all(literal.skip(1), rest);
    }
}

/// A text that begins with another character than a keyword does is not
/// that keyword.
proof fn lemma_not_prefix(lit: Seq<char>, u: Seq<char>)
    requires
        lit.len() > 0,
        u.len() == 0 || u[0] != lit[0],
    ensures
        !lit.is_prefix_of(u),
{
    if lit.is_prefix_of(u) {
        assert(u.subrange(0, lit.len() as int)[0] == lit[0]);
    }
}

/// A value begins with a character that is neither whitespace nor one of the
/// marks that separate and close.
pub proof fn lemma_content_first(c: Content)
    requires
        c.wf(),
    ensures
        c.text().len() > 0,
        !is_whitespace(c.text()[0]),
        !is_number_char(c.text()[0]) || c is Number,
        c.text()[0] != ']',
        c.text()[0] != '}',
        c.text()[0] != ',',
        c.text()[0] != ':',
{
    reveal_strlit("null");
    reveal_strlit("true");
    reveal_strlit("false");
}

/// Whitespace goes on with no digit and no decimal point.
proof fn lemma_blank_ends_number(ws: Seq<char>, rest: Seq<char>)
    requires
        is_blank(ws),
        ends_number(rest),
    ensures
        ends_number(ws + rest),
{
    if ws.len() == 0 {
        assert(ws + rest =~= rest);
    } else {
        assert((ws + rest)[0] == ws[0]);
    }
}

/// A value that is written without whitespace before it, and whatever
/// follows it, are read as the value to the end of what was written.
pub proof fn lemma_content_parses(c: Content, rest: Seq<char>)
    requires
        c.wf(),
        ends_number(rest),
    ensures
        scan_value(c.text() + rest) == Scan::Done(c.value(), c.text().len()),
    decreases c,
{
    reveal_strlit("null");
    reveal_strlit("true");
    reveal_strlit("false");
    let u = c.text() + rest;
    lemma_content_first(c);
    assert(u[0] == c.text()[0]);
    assert(leading_whitespace(u) == 0);
    lemma_value_dispatch(u);
    match c {
        Content::Null => {
            assert(u.subrange(0, 4) =~= "null"@);
        },
        Content::True => {
            lemma_not_prefix("null"@, u);
            assert(u.subrange(0, 4) =~= "true"@);
        },
        Content::False => {
            lemma_not_prefix("null"@, u);
            lemma_not_prefix("true"@, u);
            assert(u.subrange(0, 5) =~= "false"@);
        },
        Content::Number(literal) => {
            lemma_not_prefix("null"@, u);
            lemma_not_prefix("true"@, u);
            lemma_not_prefix("false"@, u);
            lemma_number_run_all(literal, rest);
            assert(u.take(literal.len() as int) =~= literal);
        },
        Content::String(pieces) => {
            lemma_not_prefix("null"@, u);
            lemma_not_prefix("true"@, u);
            lemma_not_prefix("false"@, u);
            lemma_quoted_parses(pieces, rest);
        },
        Content::Array(items, gap) => {
            lemma_not_prefix("null"@, u);
            lemma_not_prefix("true"@, u);
            lemma_not_prefix("false"@, u);
            if items.len() == 0 {
                let closing = seq![']'] + rest;
                assert(u.skip(1) =~= gap + closing);
                lemma_blank_prefix(gap, closing);
                assert((gap + closing)[gap.len() as int] == ']');
                lemma_elements_close(gap + closing, Seq::empty());
                assert(elements_value(items) =~= Seq::empty());
            } else {
                assert(u.skip(1) =~= elements_text(items) + seq![']'] + rest);
                lemma_elements_parse(items, Seq::empty(), rest);
                assert(Seq::<JsonValue>::empty() + elements_value(items) =~= elements_value(
                    items,
                ));
            }
        },
        Content::Object(members, gap) => {
            lemma_not_prefix("null"@, u);
            lemma_not_prefix("true"@, u);
            lemma_not_prefix("false"@, u);
            if members.len() == 0 {
                let closing = seq!['}'] + rest;
                assert(u.skip(1) =~= gap + closing);
                lemma_blank_prefix(gap, closing);
                assert((gap + closing)[gap.len() as int] == '}');
                lemma_members_start(gap + closing, Seq::empty());
                assert(members_value(members) =~= Seq::empty());
            } else {
                assert(u.skip(1) =~= members_text(members) + seq!['}'] + rest);
                lemma_members_parse(members, Seq::empty(), rest);
                assert(Seq::<(Seq<char>, JsonValue)>::empty() + members_value(members)
                    =~= members_value(members));
            }
        },
    }
}

/// A well-formed document, and whatever follows it, are read as the value of
/// the document, up to the whitespace behind the value. What follows must not
/// lengthen a number that the document ends with.
pub proof fn lemma_document_parses(d: Document, rest: Seq<char>)
    requires
        d.wf(),
        ends_number(rest),
    ensures
        scan_value(d.text() + rest) == Scan::Done(
            d.value(),
            d.before.len() + d.content.text().len(),
        ),
    decreases d,
{
    let tail = d.after + rest;
    lemma_blank_ends_number(d.after, rest);
    lemma_content_parses(d.content, tail);
    lemma_leading_blank(d.before, d.content.text() + tail);
    assert(d.text() + rest =~= d.before + (d.content.text() + tail));
}

/// The elements of an array, the closing bracket and whatever follows are
/// read as the values of the elements, in their order, behind those that were
/// read before.
pub proof fn lemma_elements_parse(items: Seq<Document>, acc: Seq<JsonValue>, rest: Seq<char>)
    requires
        items.len() > 0,
        forall|i: int| 0 <= i < items.len() ==> (#[trigger] items[i]).wf(),
    ensures
        scan_elements(elements_text(items) + seq![']'] + rest, acc) == Scan::Done(
            JsonValue::Array(acc + elements_value(items)),
            elements_text(items).len() + 1,
        ),
    decreases items,
{
    let first = items[0];
    let tail = items.skip(1);
    let t = elements_text(items) + seq![']'] + rest;
    let r = if tail.len() == 0 {
        seq![']'] + rest
    } else {
        seq![','] + elements_text(tail) + seq![']'] + rest
    };
    let v = first.value();
    let n = first.before.len() + first.content.text().len();
    let p = first.text().len();
    assert(first.wf());
    assert(t =~= first.text() + r);
    assert(!is_number_char(r[0]) && !is_whitespace(r[0]));
    lemma_content_first(first.content);
    // The element begins behind its whitespace, with no closing bracket.
    let body = first.content.text() + first.after + r;
    assert(t =~= first.before + body);
    lemma_blank_prefix(first.before, body);
    assert(t[first.before.len() as int] == body[0]);
    lemma_elements_step(t, acc);
    // The element is read.
    lemma_document_parses(first, r);
    // Behind it stands its whitespace, then a comma or the bracket.
    assert(t.skip(n as int) =~= first.after + r);
    lemma_blank_prefix(first.after, r);
    assert(t[p as int] == r[0]);
    if tail.len() == 0 {
        assert(acc.push(v) =~= acc + elements_value(items));
    } else {
        assert forall|i: int| 0 <= i < tail.len() implies (#[trigger] tail[i]).wf() by {
            assert(tail[i] == items[i + 1]);
        }
        assert(t.skip(p as int + 1) =~= elements_text(tail) + seq![']'] + rest);
        lemma_elements_parse(tail, acc.push(v), rest);
        assert(acc.push(v) + elements_value(tail) =~= acc + elements_value(items)) by {
            assert forall|i: int| 0 <= i < tail.len() implies elements_value(tail)[i]
                == elements_value(items)[i + 1] by {
                assert(tail[i] == items[i + 1]);
            }
        }
    }
}

/// A member, and behind it a comma or a closing brace, are read as the key
/// and the value of the member; the members behind a comma are read next.
pub proof fn lemma_member_parses(
    first: Member,
    r: Seq<char>,
    acc: Seq<(Seq<char>, JsonValue)>,
)
    requires
        first.wf(),
        r.len() > 0,
        r[0] == ',' || r[0] == '}',
    ensures
        scan_members(first.text() + r, acc) == if r[0] == '}' {
            Scan::Done(JsonValue::Object(acc.push(first.value())), first.text().len() + 1)
        } else {
            scan_members(r.skip(1), acc.push(first.value())).after(first.text().len() + 1)
        },
    decreases first,
{
    let t = first.text() + r;
    let doc = first.value;
    let w = first.before.len();
    let n = quoted(first.key).len();
    let a = w + n + first.after.len();
    let m = doc.before.len() + doc.content.text().len();
    let q = a + 1 + m;
    let p = q + doc.after.len();
    let from_colon = seq![':'] + doc.text() + r;
    let from_gap = first.after + from_colon;
    let from_key = quoted(first.key) + from_gap;
    assert(p == first.text().len());
    assert(t =~= first.before + from_key);
    // The key begins behind its whitespace, with a quote.
    assert(leading_whitespace(t) == w && t[w as int] == '"' && t.skip(w as int) == from_key) by {
        assert(from_key[0] == '"');
        lemma_blank_prefix(first.before, from_key);
        assert(t[w as int] == from_key[0]);
    }
    // The key is read.
    assert(scan_text(from_key) == Scan::Done(pieces_value(first.key), n)) by {
        lemma_quoted_parses(first.key, from_gap);
    }
    // Behind it stands its whitespace, then the colon.
    assert(leading_whitespace(t.skip((w + n) as int)) == first.after.len() && t[a as int] == ':')
        by {
        assert(t.skip((w + n) as int) =~= from_gap);
        assert(from_colon[0] == ':');
        lemma_blank_prefix(first.after, from_colon);
        assert(t[a as int] == from_colon[0]);
    }
    // The value is read.
    assert(scan_value(t.skip(a as int + 1)) == Scan::Done(doc.value(), m)) by {
        assert(t.skip(a as int + 1) =~= doc.text() + r);
        lemma_document_parses(doc, r);
    }
    // Behind it stands its whitespace, then the comma or the brace.
    assert(leading_whitespace(t.skip(q as int)) == doc.after.len() && t[p as int] == r[0]
        && t.skip(p as int + 1) == r.skip(1)) by {
        assert(t.skip(q as int) =~= doc.after + r);
        lemma_blank_prefix(doc.after, r);
        assert(t.skip(p as int + 1) =~= r.skip(1));
    }
    assert(p < t.len());
    lemma_members_step(t, acc);
}

/// The members of an object, the closing brace and whatever follows are read
/// as the keys and values of the members, in their order, behind those that
/// were read before.
pub proof fn lemma_members_parse(
    members: Seq<Member>,
    acc: Seq<(Seq<char>, JsonValue)>,
    rest: Seq<char>,
)
    requires
        members.len() > 0,
        forall|i: int| 0 <= i < members.len() ==> (#[trigger] members[i]).wf(),
    ensures
        scan_members(members_text(members) + seq!['}'] + rest, acc) == Scan::Done(
            JsonValue::Object(acc + members_value(members)),
            members_text(members).len() + 1,
        ),
    decreases members,
{
    let first = members[0];
    let tail = members.skip(1);
    let t = members_text(members) + seq!['}'] + rest;
    let r = if tail.len() == 0 {
        seq!['}'] + rest
    } else {
        seq![','] + members_text(tail) + seq!['}'] + rest
    };
    let entry = first.value();
    assert(first.wf());
    assert(t =~= first.text() + r);
    lemma_member_parses(first, r, acc);
    if tail.len() == 0 {
        assert(acc.push(entry) =~= acc + members_value(members));
    } else {
        assert forall|i: int| 0 <= i < tail.len() implies (#[trigger] tail[i]).wf() by {
            assert(tail[i] == members[i + 1]);
        }
        assert(r.skip(1) =~= members_text(tail) + seq!['}'] + rest);
        lemma_members_parse(tail, acc.push(entry), rest);
        assert(acc.push(entry) + members_value(tail) =~= acc + members_value(members)) by {
            assert forall|i: int| 0 <= i < tail.len() implies members_value(tail)[i]
                == members_value(members)[i + 1] by {
                assert(tail[i] == members[i + 1]);
            }
        }
    }
}

/// The text of a well-formed document parses, and to the value of the
/// document: every array holds the values of its elements and every object
/// the keys and values of its members, in the order in which they are
/// written.
pub proof fn lemma_wellformed_text_parses(d: Document)
    requires
        d.wf(),
    ensures
        parse_outcome(d.text()) == Ok::<JsonValue, (JsonParseErrorKind, nat)>(
            d.value(),
        ),
{
    lemma_document_parses(d, Seq::empty());
    assert(d.text() + Seq::<char>::empty() =~= d.text());
}

} // verus!
