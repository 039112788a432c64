use vstd::prelude::*;

use crate::parser::{decode_span, MarkdownParser, ParseResult};
use crate::tokens::Inline;
use crate::util::{
    AMPERSAND, BACKSLASH, BACKTICK, BANG, CARET, CLOSE_BRACE, CLOSE_BRACKET, CLOSE_PAREN, COLON,
    DASH, DOT, GREATER, HASH, LESS, OPEN_BRACE, OPEN_BRACKET, OPEN_PAREN, PIPE, PLUS, STAR, TILDE,
    UNDERSCORE,
};
use vstd::utf8::{decode_utf8, valid_utf8};

verus! {

/// The punctuation that a backslash turns into plain text.
pub open spec fn is_escapable(b: u8) -> bool {
    b == BACKSLASH || b == BACKTICK || b == STAR || b == UNDERSCORE || b == OPEN_BRACE || b
        == CLOSE_BRACE || b == OPEN_BRACKET || b == CLOSE_BRACKET || b == OPEN_PAREN || b
        == CLOSE_PAREN || b == HASH || b == PLUS || b == DASH || b == DOT || b == BANG || b == COLON
        || b == PIPE || b == AMPERSAND || b == LESS || b == GREATER || b == CARET || b == TILDE
}

fn escapable(b: u8) -> (r: bool)
    ensures
        r == is_escapable(b),
{
    b == BACKSLASH || b == BACKTICK || b == STAR || b == UNDERSCORE || b == OPEN_BRACE || b
        == CLOSE_BRACE || b == OPEN_BRACKET || b == CLOSE_BRACKET || b == OPEN_PAREN || b
        == CLOSE_PAREN || b == HASH || b == PLUS || b == DASH || b == DOT || b == BANG || b == COLON
        || b == PIPE || b == AMPERSAND || b == LESS || b == GREATER || b == CARET || b == TILDE
}

/// One byte below 128 is valid UTF-8.
pub proof fn lemma_ascii_byte(c: u8)
    requires
        c < 128,
    ensures
        valid_utf8(seq![c]),
{
    reveal_with_fuel(valid_utf8, 2);
    let b = seq![c];
    assert(vstd::utf8::pop_first_scalar(b) =~= Seq::<u8>::empty());
}

/// Reads what follows a backslash.
pub trait EscapeParser: Sized {
    fn parse_escape(&mut self) -> ParseResult<Option<Inline>>;
}

impl<'a> EscapeParser for MarkdownParser<'a> {
    /// An escapable byte becomes a one-byte chunk and is consumed; any other
    /// byte is left where it is.
    fn parse_escape(&mut self) -> (r: ParseResult<Option<Inline>>)
        ensures
            old(self).moved(final(self)),
            ({
                let p = old(self).pos();
                let s = old(self).buffer();
                &&& r is End <==> p == s.len()
                &&& !(r is NoParse)
                &&& (r is Success && r->Success_0 is Some) <==> (p < s.len() && is_escapable(s[p]))
                &&& (r is Success && r->Success_0 is Some) ==> r->Success_0->Some_0 is Chunk
                    && r->Success_0->Some_0->Chunk_0@ == decode_utf8(seq![s[p]])
                &&& final(self).pos() == if r is Success && r->Success_0 is Some { p + 1 } else { p }
            }),
    {
        self.cur.position();
        match self.cur.current_byte() {
            Some(c) => {
                if escapable(c) {
                    let mut bytes: Vec<u8> = Vec::new();
                    bytes.push(c);
                    assert(bytes@ == seq![c]);
                    proof {
                        lemma_ascii_byte(c);
                    }
                    match decode_span(bytes) {
                        Ok(s) => {
                            self.cur.next();
                            ParseResult::Success(Some(Inline::Chunk(s)))
                        },
                        Err(_) => ParseResult::Success(None),
                    }
                } else {
                    ParseResult::Success(None)
                }
            },
            None => ParseResult::End,
        }
    }
}

} // verus!
