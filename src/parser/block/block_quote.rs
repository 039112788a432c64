use vstd::prelude::*;

use super::{after_blank_lines, owed_end, owed_kept};
use crate::parser::{
    first_block,
    ascii, ascii_from, at_line_start, lemma_ascii_valid, lemma_next_line_start, lemma_valid_span,
    blank_line_at, blank_rest, blank_tail_at, lemma_line_end, line_end, next_line,
    lemma_space_run, space_run, MarkdownParser, ParseResult};
use crate::result::MarkdownError;
use crate::tokens::{lemma_quote_wf, Block};
use vstd::utf8::valid_utf8;
use crate::util::{GREATER, NEWLINE, SPACE};

verus! {

/// The line at `p` starts with up to three spaces and a `>`.
pub open spec fn quote_prefix_at(s: Seq<u8>, p: int) -> bool {
    let k = space_run(s, p);
    k < 4 && p + k < s.len() && s[p + k] == GREATER
}

/// Where the content of a quote line starts, the prefix at `p` stepped over.
pub open spec fn after_prefix(s: Seq<u8>, p: int) -> int {
    let i = p + space_run(s, p) + 1;
    if i < s.len() && s[i] == SPACE {
        i + 1
    } else {
        i
    }
}

/// Where a quote ends whose current line content starts at `q`: at the end
/// of the buffer, before a blank line that a line without the prefix
/// follows, at a blank tail, or before a non-blank line without the prefix.
pub open spec fn quote_end(s: Seq<u8>, q: int) -> int
    decreases s.len() - q,
{
    if q < 0 || q >= s.len() {
        q
    } else {
        let e = next_line(s, q);
        if e <= q {
            q
        } else if blank_line_at(s, e) && line_end(s, e) >= e {
            let f = line_end(s, e) + 1;
            if quote_prefix_at(s, f) && after_prefix(s, f) > q {
                quote_end(s, after_prefix(s, f))
            } else {
                e
            }
        } else if blank_tail_at(s, e) {
            e
        } else if quote_prefix_at(s, e) && after_prefix(s, e) > q {
            quote_end(s, after_prefix(s, e))
        } else {
            e
        }
    }
}

/// The content gathered by a quote whose current line content starts at
/// `q`: each line without its prefix, and a newline for each blank line
/// that the quote goes on past.
pub open spec fn quote_lines(s: Seq<u8>, q: int) -> Seq<u8>
    decreases s.len() - q,
{
    if q < 0 || q >= s.len() {
        Seq::empty()
    } else {
        let e = next_line(s, q);
        if e <= q {
            Seq::empty()
        } else if blank_line_at(s, e) && line_end(s, e) >= e {
            let f = line_end(s, e) + 1;
            if quote_prefix_at(s, f) && after_prefix(s, f) > q {
                s.subrange(q, e) + seq![NEWLINE] + quote_lines(s, after_prefix(s, f))
            } else {
                s.subrange(q, e)
            }
        } else if blank_tail_at(s, e) {
            s.subrange(q, e)
        } else if quote_prefix_at(s, e) && after_prefix(s, e) > q {
            s.subrange(q, e) + quote_lines(s, after_prefix(s, e))
        } else {
            s.subrange(q, e)
        }
    }
}

/// Parses a block quote.
pub trait BlockQuoteParser: Sized {
    fn parse_block_quote(&mut self) -> Result<ParseResult<Block>, MarkdownError>;
}

impl<'a> MarkdownParser<'a> {
    /// Consumes up to three spaces, a `>` and one optional space, or nothing.
    fn block_quote_prefix(&mut self) -> (r: ParseResult<()>)
        ensures
            old(self).moved(final(self)),
            r is Success <==> quote_prefix_at(old(self).buffer(), old(self).pos()),
            r is Success ==> final(self).pos() > old(self).pos(),
            r is Success ==> final(self).pos() == after_prefix(old(self).buffer(), old(self).pos()),
            r is Success ==> final(self).pos() >= 1 && old(self).buffer()[final(self).pos() - 1] < 128,
            !(r is Success) ==> final(self).pos() == old(self).pos(),
            r is End ==> blank_rest(old(self).buffer(), old(self).pos()),
            r is End <==> (space_run(old(self).buffer(), old(self).pos()) <= 4 && old(self).pos()
                + space_run(old(self).buffer(), old(self).pos()) == old(self).buffer().len()),
    {
        self.cur.position();
        proof {
            lemma_space_run(self.buffer(), self.pos());
        }
        let m = self.cur.mark();
        match self.try_skip_initial_spaces() {
            ParseResult::Success(()) => {},
            ParseResult::NoParse => {
                m.cancel();
                return ParseResult::NoParse;
            },
            ParseResult::End => {
                m.cancel();
                return ParseResult::End;
            },
        }
        match self.try_read_char(GREATER) {
            ParseResult::Success(()) => {},
            ParseResult::NoParse => {
                m.reset(&mut self.cur);
                return ParseResult::NoParse;
            },
            ParseResult::End => {
                m.reset(&mut self.cur);
                return ParseResult::End;
            },
        }
        m.cancel();
        self.try_read_char(SPACE);
        ParseResult::Success(())
    }
}

impl<'a> BlockQuoteParser for MarkdownParser<'a> {
    /// Lines after the first need the prefix too: a line without it ends
    /// the quote, and so does a blank line followed by a line without it (the
    /// cursor is then left before the blank line). The gathered lines,
    /// prefixes removed, are parsed as a document of their own.
    fn parse_block_quote(&mut self) -> (r: Result<ParseResult<Block>, MarkdownError>)
        ensures
            old(self).block_step(final(self), r),
            final(self).queue() == old(self).queue(),
            (r matches Ok(ParseResult::Success(_)) || r is Err) <==> quote_prefix_at(
                old(self).buffer(),
                old(self).pos(),
            ),
            r matches Ok(ParseResult::Success(b)) ==> b is BlockQuote,
            ({
                let inner = quote_lines(old(self).buffer(), after_prefix(old(self).buffer(), old(self).pos()));
                let q = after_blank_lines(inner, 0);
                r matches Ok(ParseResult::Success(b)) ==> (!blank_rest(inner, 0) ==> first_block(
                    inner,
                    q,
                    b->BlockQuote_0@[0],
                    owed_end(inner, q),
                    owed_kept(inner, q),
                    old(self).spec_config().trim_newlines,
                    b->BlockQuote_0.len() as int,
                ))
            }),
            r matches Ok(ParseResult::Success(b)) ==> (b->BlockQuote_0.len() == 0 <==> blank_rest(
                quote_lines(old(self).buffer(), after_prefix(old(self).buffer(), old(self).pos())),
                0,
            )),
            (r matches Ok(ParseResult::End)) <==> (space_run(old(self).buffer(), old(self).pos()) <= 4
                && old(self).pos() + space_run(old(self).buffer(), old(self).pos())
                == old(self).buffer().len()),
            r matches Ok(ParseResult::Success(_)) ==> final(self).pos() == quote_end(
                old(self).buffer(),
                after_prefix(old(self).buffer(), old(self).pos()),
            ),
            valid_utf8(old(self).buffer().subrange(old(self).pos(), old(self).buffer().len() as int))
                ==> r is Ok,
            r matches Ok(ParseResult::Success(_)) ==> at_line_start(old(self).buffer(), final(self).pos()),
            ascii_from(old(self).buffer(), old(self).pos()) ==> r is Ok,
            r matches Ok(ParseResult::End) ==> blank_rest(old(self).buffer(), old(self).pos()),
        decreases old(self).buffer().len(), 4nat,
    {
        let start = self.cur.position();
        match self.block_quote_prefix() {
            ParseResult::Success(()) => {},
            ParseResult::NoParse => {
                return Ok(ParseResult::NoParse);
            },
            ParseResult::End => {
                return Ok(ParseResult::End);
            },
        }
        let mut buf: Vec<u8> = Vec::new();
        let ghost s = self.buffer();
        let ghost first = self.pos();
        let ghost valid = valid_utf8(s.subrange(start as int, s.len() as int));
        proof {
            lemma_ascii_valid(buf@);
        }
        loop
            invariant_except_break
                quote_end(s, self.pos()) == quote_end(s, first),
                buf@ + quote_lines(s, self.pos()) == quote_lines(s, first),
                self.pos() >= 1 && s[self.pos() - 1] < 128,
            invariant
                old(self).moved(self),
                s == self.buffer(),
                start == old(self).pos(),
                buf@.len() + 1 <= self.pos() - start,
                ascii_from(self.buffer(), start as int) ==> ascii(buf@),
                valid == valid_utf8(s.subrange(start as int, s.len() as int)),
                valid ==> valid_utf8(buf@),
                start < self.pos(),
            ensures
                valid ==> valid_utf8(buf@),
                at_line_start(s, self.pos()),
                old(self).moved(self),
                buf@.len() + 1 <= self.pos() - start,
                ascii_from(self.buffer(), start as int) ==> ascii(buf@),
                self.pos() == quote_end(s, first),
                buf@ == quote_lines(s, first),
            decreases self.buffer().len() - self.pos(),
        {
            let ghost q = self.pos();
            proof {
                lemma_line_end(s, q);
            }
            let ghost before = buf@;
            if self.read_line_to(&mut buf).is_end() {
                assert(buf@ =~= before + quote_lines(s, q));
                break ;
            }
            let ghost e = self.pos();
            proof {
                lemma_next_line_start(s, q);
                if valid {
                    lemma_valid_span(s, start as int, q, e);
                    vstd::utf8::valid_utf8_concat(before, s.subrange(q, e));
                    assert(buf@ =~= before + s.subrange(q, e));
                }
                lemma_line_end(s, e);
                lemma_space_run(s, e);
                if blank_line_at(s, e) {
                    lemma_space_run(s, line_end(s, e) + 1);
                }
            }
            let before_blank = self.cur.mark();
            match self.try_parse_empty_line() {
                ParseResult::Success(()) => {
                    if !self.block_quote_prefix().is_success() {
                        before_blank.reset(&mut self.cur);
                        assert(quote_lines(s, q) == s.subrange(q, e));
                        break ;
                    }
                    before_blank.cancel();
                    let ghost mid = buf@;
                    buf.push(NEWLINE);
                    proof {
                        assert(quote_lines(s, q) == s.subrange(q, e) + seq![NEWLINE] + quote_lines(
                            s,
                            self.pos(),
                        ));
                        assert(buf@ =~= mid + seq![NEWLINE]);
                        if valid {
                            lemma_ascii_valid(seq![NEWLINE]);
                            vstd::utf8::valid_utf8_concat(mid, seq![NEWLINE]);
                        }
                    }
                },
                ParseResult::End => {
                    before_blank.cancel();
                    assert(quote_lines(s, q) == s.subrange(q, e));
                    break ;
                },
                ParseResult::NoParse => {
                    if !self.block_quote_prefix().is_success() {
                        before_blank.cancel();
                        assert(quote_lines(s, q) == s.subrange(q, e));
                        break ;
                    }
                    before_blank.cancel();
                    assert(quote_lines(s, q) == s.subrange(q, e) + quote_lines(s, self.pos()));
                },
            }
        }
        let mut sub = self.fork(buf.as_slice());
        proof {
            assert(buf@ == quote_lines(s, first));
            assert(sub.buffer().subrange(0, sub.buffer().len() as int) =~= sub.buffer());
            if ascii_from(self.buffer(), start as int) {
                assert(ascii_from(sub.buffer(), 0));
            }
        }
        match sub.read_all() {
            Ok(doc) => {
                proof {
                    lemma_quote_wf(doc);
                }
                Ok(ParseResult::Success(Block::BlockQuote(doc)))
            },
            Err(e) => Err(e),
        }
    }
}

} // verus!
