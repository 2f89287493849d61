//! A forward-only scanner over the text of a document.
use crate::text::{
    leading_whitespace, lemma_encode_concat, lemma_encode_injective, lemma_len_is_encoded_len,
    lemma_offset_step, lemma_split_at_index, utf8_len, whitespace, width,
};
use crate::value::{JsonParseError, JsonParseErrorKind};
use vstd::prelude::*;
use vstd::std_specs::iter::IteratorSpec;
use vstd::string::StringSliceAdditionalSpecFns;
use vstd::utf8::*;

verus! {

/// A position in a text.
///
/// The model of a cursor is its text, as a sequence of characters, and the
/// number of characters that lie before it. What it stores is the byte offset
/// of that position, which always falls on the first byte of a character or at
/// the end of the text.
pub struct Cursor<'a> {
    data: &'a str,
    pos: usize,
    idx: Ghost<nat>,
}

impl<'a> Cursor<'a> {
    /// What holds of every cursor: it stands inside its text, on the first
    /// byte of a character or at the end.
    #[verifier::type_invariant]
    pub closed spec fn inv(self) -> bool {
        &&& self.idx@ <= self.data@.len()
        &&& self.pos == utf8_len(self.data@.take(self.idx@ as int))
        &&& utf8_len(self.data@) <= usize::MAX
    }

    /// The whole text that the cursor moves over.
    pub closed spec fn text(self) -> Seq<char> {
        self.data@
    }

    /// The number of characters before the cursor.
    pub closed spec fn index(self) -> nat {
        self.idx@
    }

    /// The characters from the cursor to the end of the text.
    pub open spec fn remaining(self) -> Seq<char> {
        self.text().skip(self.index() as int)
    }

    /// The number of bytes before the cursor.
    pub open spec fn offset(self) -> nat {
        utf8_len(self.text().take(self.index() as int))
    }

    /// The character at the cursor, if the text has not ended there.
    pub open spec fn head(self) -> Option<char> {
        if self.index() < self.text().len() {
            Some(self.text()[self.index() as int])
        } else {
            None
        }
    }

    /// `self` stands in the text of `before`, `n` characters further on.
    pub open spec fn follows(self, before: Self, n: nat) -> bool {
        &&& self.text() == before.text()
        &&& self.index() == before.index() + n
        &&& self.index() <= self.text().len()
    }

    /// A cursor never stands beyond the end of its text.
    pub proof fn lemma_inside(self)
        requires
            self.inv(),
        ensures
            self.index() <= self.text().len(),
            self.follows(self, 0),
    {
    }

    /// What a cursor that has moved on has left of the text, and where it
    /// stands in bytes.
    pub proof fn lemma_follows(self, before: Self, n: nat)
        requires
            self.follows(before, n),
        ensures
            n <= before.remaining().len(),
            self.remaining() == before.remaining().skip(n as int),
            self.offset() == before.offset() + utf8_len(before.remaining().take(n as int)),
    {
        let s = self.text();
        let i = before.index() as int;
        assert(self.remaining() =~= before.remaining().skip(n as int));
        assert(s.take(i + n) =~= s.take(i) + s.skip(i).take(n as int));
        lemma_encode_concat(s.take(i), s.skip(i).take(n as int));
    }

    /// A cursor at the start of `data`.
    pub fn new(data: &'a str) -> (cursor: Self)
        ensures
            cursor.text() == data@,
            cursor.index() == 0,
    {
        let bytes = data.as_bytes();
        proof {
            vstd::slice::axiom_spec_len(bytes);
            lemma_len_is_encoded_len(data@);
            assert(data@.take(0) =~= Seq::<char>::empty());
        }
        Cursor { data, pos: 0, idx: Ghost(0) }
    }

    /// The text from the cursor on.
    fn rest(&self) -> (rest: &'a str)
        ensures
            rest@ == self.remaining(),
            self.index() <= self.text().len(),
    {
        proof {
            use_type_invariant(self);
            lemma_split_at_index(self.data@, self.idx@ as int);
        }
        let (_, rest) = self.data.split_at(self.pos);
        proof {
            lemma_encode_injective(rest@, self.data@.skip(self.idx@ as int));
        }
        rest
    }

    /// The text between this cursor and a later one.
    fn upto(&self, end: &Cursor<'a>) -> (part: &'a str)
        requires
            end.follows(*self, (end.index() - self.index()) as nat),
        ensures
            part@ == self.text().subrange(self.index() as int, end.index() as int),
    {
        let rest = self.rest();
        proof {
            use_type_invariant(self);
            use_type_invariant(end);
            let n = (end.index() - self.index()) as nat;
            end.lemma_follows(*self, n);
            lemma_split_at_index(rest@, n as int);
        }
        let (part, _) = rest.split_at(end.pos - self.pos);
        proof {
            let n = (end.index() - self.index()) as int;
            lemma_encode_injective(part@, rest@.take(n));
            assert(rest@.take(n) =~= self.text().subrange(
                self.index() as int,
                end.index() as int,
            ));
        }
        part
    }

    /// The character at the cursor, which stays where it is.
    pub fn peek(&self) -> (r: Option<char>)
        ensures
            r == self.head(),
            self.index() <= self.text().len(),
    {
        broadcast use vstd::string::group_string_axioms;

        let rest = self.rest();
        let mut chars = rest.chars();
        chars.next()
    }

    /// Passes the character at the cursor and returns it. At the end of the
    /// text the cursor stays.
    pub fn consume(&mut self) -> (r: Option<char>)
        ensures
            r == old(self).head(),
            final(self).follows(*old(self), if r is Some { 1nat } else { 0nat }),
    {
        match self.peek() {
            None => None,
            Some(c) => {
                let w = width(c);
                proof {
                    use_type_invariant(&*self);
                    lemma_offset_step(self.data@, self.idx@ as int);
                }
                *self = Cursor { data: self.data, pos: self.pos + w, idx: Ghost(self.idx@ + 1) };
                Some(c)
            },
        }
    }

    /// Passes exactly `n` characters and returns them. Where fewer are left,
    /// the cursor stays.
    pub fn consume_n_chars(&mut self, n: usize) -> (r: Option<&'a str>)
        ensures
            match r {
                Some(part) => {
                    &&& n <= old(self).remaining().len()
                    &&& part@ == old(self).remaining().take(n as int)
                    &&& final(self).follows(*old(self), n as nat)
                },
                None => n > old(self).remaining().len() && final(self).follows(*old(self), 0),
            },
    {
        proof {
            use_type_invariant(&*self);
        }
        let mut probe = Cursor { data: self.data, pos: self.pos, idx: Ghost(self.idx@) };
        let mut k: usize = 0;
        while k < n
            invariant
                k <= n,
                *self == *old(self),
                probe.follows(*self, k as nat),
            decreases n - k,
        {
            match probe.consume() {
                None => {
                    return None;
                },
                Some(_) => {
                    k = k + 1;
                },
            }
        }
        let part = self.upto(&probe);
        *self = probe;
        Some(part)
    }

    /// Passes the whitespace at the cursor.
    pub fn skip_whitespaces(&mut self)
        ensures
            final(self).follows(*old(self), leading_whitespace(old(self).remaining())),
    {
        let ghost start = *self;
        let ghost mut k: nat = 0;
        proof {
            use_type_invariant(&*self);
            assert(start.remaining().skip(0) =~= start.remaining());
        }
        loop
            invariant
                self.follows(start, k),
                leading_whitespace(start.remaining()) == k + leading_whitespace(self.remaining()),
            ensures
                self.follows(start, leading_whitespace(start.remaining())),
            decreases self.text().len() - self.index(),
        {
            let ghost here = *self;
            match self.peek() {
                Some(c) => {
                    if !whitespace(c) {
                        break;
                    }
                    self.consume();
                    proof {
                        self.lemma_follows(here, 1);
                        k = k + 1;
                    }
                },
                None => {
                    break;
                },
            }
        }
    }

    /// Passes `s` if the text goes on with it, and returns that part of the
    /// text. Otherwise the cursor stays.
    pub fn consume_str(&mut self, s: &str) -> (r: Option<&'a str>)
        ensures
            match r {
                Some(part) => {
                    &&& s@.is_prefix_of(old(self).remaining())
                    &&& part@ == s@
                    &&& final(self).follows(*old(self), s@.len())
                },
                None => !s@.is_prefix_of(old(self).remaining()) && final(self).follows(
                    *old(self),
                    0,
                ),
            },
    {
        broadcast use vstd::string::group_string_axioms;

        proof {
            use_type_invariant(&*self);
        }
        let mut probe = Cursor { data: self.data, pos: self.pos, idx: Ghost(self.idx@) };
        let ghost rem = self.remaining();
        let ghost mut k: nat = 0;
        let mut wanted = s.chars();
        loop
            invariant
                k <= s@.len(),
                *self == *old(self),
                wanted.remaining() == s@.skip(k as int),
                probe.follows(*self, k),
                rem == self.remaining(),
                s@.take(k as int) == rem.take(k as int),
            decreases s@.len() - k,
        {
            let ghost here = probe;
            match wanted.next() {
                None => {
                    proof {
                        assert(s@.take(k as int) =~= s@);
                    }
                    let part = self.upto(&probe);
                    proof {
                        assert(part@ =~= rem.take(k as int));
                    }
                    *self = probe;
                    return Some(part);
                },
                Some(c) => {
                    let found = probe.consume();
                    proof {
                        here.lemma_follows(*self, k);
                        assert(s@.skip(k as int).drop_first() =~= s@.skip(k as int + 1));
                    }
                    match found {
                        Some(d) => {
                            if d != c {
                                proof {
                                    assert(rem[k as int] == d);
                                    assert(s@[k as int] == c);
                                    if s@.is_prefix_of(rem) {
                                        assert(rem.subrange(0, s@.len() as int)[k as int] == d);
                                    }
                                }
                                return None;
                            }
                            proof {
                                assert(s@.take(k as int + 1) =~= s@.take(k as int).push(c));
                                assert(rem.take(k as int + 1) =~= rem.take(k as int).push(d));
                                k = k + 1;
                            }
                        },
                        None => {
                            return None;
                        },
                    }
                },
            }
        }
    }

    /// An error of the given kind at the cursor's byte offset.
    pub fn create_error(&self, kind: JsonParseErrorKind) -> (e: JsonParseError)
        ensures
            e.kind == kind,
            e.pos == self.offset(),
    {
        proof {
            use_type_invariant(self);
        }
        JsonParseError { kind, pos: self.pos }
    }
}

} // verus!
