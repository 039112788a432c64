use vstd::prelude::*;

use crate::parser::{
    ascii, ascii_from, at_line_start, lemma_ascii_valid, lemma_next_line_start, lemma_valid_span,
    all_spaces, blank_line_at, blank_rest, decode_span, lemma_line_end, line_end, next_line,
    MarkdownParser, ParseResult,
};
use vstd::utf8::{decode_utf8, valid_utf8};
use crate::result::MarkdownError;
use crate::tokens::{lemma_leaf_block_wf, Block};
use crate::util::{NEWLINE, SPACE};

verus! {

/// The line at `p` starts with four spaces.
pub open spec fn code_prefix_at(s: Seq<u8>, p: int) -> bool {
    p + 4 <= s.len() && all_spaces(s, p, p + 4)
}

/// The body of a code block whose line starts at `p`: each line with the
/// four-space prefix gives its rest, each blank line without it a newline,
/// and any other line ends the block.
pub open spec fn code_lines(s: Seq<u8>, p: int) -> Seq<u8>
    decreases s.len() - p,
{
    if p < 0 || p >= s.len() {
        Seq::empty()
    } else if code_prefix_at(s, p) {
        let q = next_line(s, p + 4);
        if q > p + 4 {
            s.subrange(p + 4, q) + code_lines(s, q)
        } else {
            Seq::empty()
        }
    } else if blank_line_at(s, p) && line_end(s, p) >= p {
        seq![NEWLINE] + code_lines(s, line_end(s, p) + 1)
    } else {
        Seq::empty()
    }
}

/// Where the code block whose line starts at `p` ends: the start of the
/// first line that belongs to it no more, or the end of the buffer.
pub open spec fn code_end(s: Seq<u8>, p: int) -> int
    decreases s.len() - p,
{
    if p < 0 || p >= s.len() {
        p
    } else if code_prefix_at(s, p) {
        let q = next_line(s, p + 4);
        if q > p + 4 {
            code_end(s, q)
        } else {
            p + 4
        }
    } else if blank_line_at(s, p) && line_end(s, p) >= p {
        code_end(s, line_end(s, p) + 1)
    } else {
        p
    }
}

/// Parses a code block indented by four spaces.
pub trait BlockCodeParser: Sized {
    fn parse_block_code(&mut self) -> Result<ParseResult<Block>, MarkdownError>;
}

impl<'a> MarkdownParser<'a> {
    /// Consumes four spaces, or nothing.
    fn block_code_prefix(&mut self) -> (r: ParseResult<()>)
        ensures
            old(self).moved(final(self)),
            r is Success <==> code_prefix_at(old(self).buffer(), old(self).pos()),
            r is End ==> blank_rest(old(self).buffer(), old(self).pos()),
            r is End <==> (all_spaces(old(self).buffer(), old(self).pos(), old(self).buffer().len() as int)
                && old(self).buffer().len() - old(self).pos() < 4),
            final(self).pos() == if r is Success { old(self).pos() + 4 } else { old(self).pos() },
    {
        let start = self.cur.position();
        let m = self.cur.mark();
        let mut n: usize = 0;
        while n < 4
            invariant
                old(self).moved(self),
                start == old(self).pos(),
                m.spec_pos() == start,
                self.pos() == start + n,
                n <= 4,
                all_spaces(self.buffer(), start as int, start + n),
            decreases 4 - n,
        {
            match self.try_read_char(SPACE) {
                ParseResult::Success(()) => {},
                ParseResult::NoParse => {
                    m.reset(&mut self.cur);
                    return ParseResult::NoParse;
                },
                ParseResult::End => {
                    m.reset(&mut self.cur);
                    return ParseResult::End;
                },
            }
            n = n + 1;
        }
        m.cancel();
        ParseResult::Success(())
    }
}

impl<'a> BlockCodeParser for MarkdownParser<'a> {
    /// Lines with the four-space prefix give their rest; blank lines without
    /// it give a newline; any other line ends the block.
    fn parse_block_code(&mut self) -> (r: Result<ParseResult<Block>, MarkdownError>)
        ensures
            old(self).block_step(final(self), r),
            final(self).queue() == old(self).queue(),
            ascii_from(old(self).buffer(), old(self).pos()) ==> r is Ok,
            valid_utf8(old(self).buffer().subrange(old(self).pos(), old(self).buffer().len() as int))
                ==> r is Ok,
            ({
                let s = old(self).buffer();
                let p = old(self).pos();
                &&& (r matches Ok(ParseResult::Success(_)) || r is Err) <==> code_prefix_at(s, p)
                &&& code_prefix_at(s, p) ==> (r is Ok <==> valid_utf8(code_lines(s, p)))
                &&& r matches Ok(ParseResult::Success(b)) ==> b is BlockCode && b->BlockCode_tag is None
                    && b->BlockCode_content@ == decode_utf8(code_lines(s, p))
                &&& r matches Ok(ParseResult::End) ==> blank_rest(s, p)
                &&& (r matches Ok(ParseResult::End)) <==> (all_spaces(s, p, s.len() as int) && s.len()
                    - p < 4)
                &&& r matches Ok(ParseResult::Success(_)) ==> final(self).pos() == code_end(s, p)
                &&& r matches Ok(ParseResult::Success(_)) ==> at_line_start(s, final(self).pos())
            }),
        decreases old(self).buffer().len(), 4nat,
    {
        let start = self.cur.position();
        let ghost s = self.buffer();
        match self.block_code_prefix() {
            ParseResult::Success(()) => {},
            ParseResult::NoParse => {
                return Ok(ParseResult::NoParse);
            },
            ParseResult::End => {
                return Ok(ParseResult::End);
            },
        }
        let mut buf: Vec<u8> = Vec::new();
        proof {
            lemma_ascii_valid(buf@);
        }
        loop
            invariant_except_break
                code_prefix_at(s, self.pos() - 4),
                buf@ + code_lines(s, self.pos() - 4) == code_lines(s, start as int),
                code_end(s, self.pos() - 4) == code_end(s, start as int),
            invariant
                old(self).moved(self),
                s == self.buffer(),
                start == old(self).pos(),
                start + 4 <= self.pos(),
                ascii_from(s, start as int) ==> ascii(buf@),
                valid_utf8(s.subrange(start as int, s.len() as int)) ==> valid_utf8(buf@),
            ensures
                ascii_from(s, start as int) ==> ascii(buf@),
                valid_utf8(s.subrange(start as int, s.len() as int)) ==> valid_utf8(buf@),
                old(self).moved(self),
                start + 4 <= self.pos(),
                buf@ == code_lines(s, start as int),
                self.pos() == code_end(s, start as int),
                at_line_start(s, self.pos()),
            decreases self.buffer().len() - self.pos(),
        {
            let ghost line = self.pos() - 4;
            let ghost before = buf@;
            let ghost from = self.pos();
            proof {
                lemma_line_end(s, self.pos());
            }
            if self.read_line_to(&mut buf).is_end() {
                assert(code_lines(s, line) =~= Seq::<u8>::empty());
                assert(buf@ =~= before);
                break ;
            }
            let ghost line_read = self.pos();
            proof {
                lemma_next_line_start(s, from);
                if valid_utf8(s.subrange(start as int, s.len() as int)) {
                    assert(s[from - 1] == SPACE);
                    lemma_valid_span(s, start as int, from, line_read);
                    vstd::utf8::valid_utf8_concat(before, s.subrange(from, line_read));
                    assert(buf@ =~= before + s.subrange(from, line_read));
                }
            }
            assert(code_lines(s, line) == s.subrange(line + 4, line_read) + code_lines(s, line_read));
            assert(buf@ + code_lines(s, line_read) == code_lines(s, start as int)) by {
                assert(buf@ =~= before + s.subrange(line + 4, line_read));
                assert(before + code_lines(s, line) =~= before + s.subrange(line + 4, line_read)
                    + code_lines(s, line_read));
            }
            let mut more = true;
            loop
                invariant_except_break
                    more,
                    at_line_start(s, self.pos()),
                    buf@ + code_lines(s, self.pos()) == code_lines(s, start as int),
                    code_end(s, self.pos()) == code_end(s, start as int),
                invariant
                    old(self).moved(self),
                    s == self.buffer(),
                    start == old(self).pos(),
                    start + 4 <= self.pos(),
                    line_read <= self.pos(),
                    ascii_from(s, start as int) ==> ascii(buf@),
                    valid_utf8(s.subrange(start as int, s.len() as int)) ==> valid_utf8(buf@),
                ensures
                    ascii_from(s, start as int) ==> ascii(buf@),
                    valid_utf8(s.subrange(start as int, s.len() as int)) ==> valid_utf8(buf@),
                    old(self).moved(self),
                    s == self.buffer(),
                    start + 4 <= self.pos(),
                    line_read <= self.pos(),
                    more ==> code_prefix_at(s, self.pos() - 4) && buf@ + code_lines(s, self.pos() - 4)
                        == code_lines(s, start as int) && code_end(s, self.pos() - 4) == code_end(
                        s,
                        start as int,
                    ),
                    !more ==> buf@ == code_lines(s, start as int) && self.pos() == code_end(
                        s,
                        start as int,
                    ) && at_line_start(s, self.pos()),
                decreases self.buffer().len() - self.pos(),
            {
                let ghost y = self.pos();
                let ghost before2 = buf@;
                proof {
                    lemma_line_end(s, y);
                }
                match self.block_code_prefix() {
                    ParseResult::Success(()) => {
                        break ;
                    },
                    ParseResult::End => {
                        assert(!blank_line_at(s, y));
                        assert(code_lines(s, y) =~= Seq::<u8>::empty());
                        assert(buf@ + code_lines(s, y) =~= buf@);
                        more = false;
                        break ;
                    },
                    ParseResult::NoParse => {
                        if self.try_parse_empty_line().is_success() {
                            buf.push(NEWLINE);
                            proof {
                                if valid_utf8(s.subrange(start as int, s.len() as int)) {
                                    lemma_ascii_valid(seq![NEWLINE]);
                                    vstd::utf8::valid_utf8_concat(before2, seq![NEWLINE]);
                                    assert(buf@ =~= before2 + seq![NEWLINE]);
                                }
                            }
                            assert(code_lines(s, y) == seq![NEWLINE] + code_lines(s, self.pos()));
                            assert(buf@ + code_lines(s, self.pos()) =~= before2 + code_lines(s, y));
                        } else {
                            assert(code_lines(s, y) =~= Seq::<u8>::empty());
                            assert(buf@ + code_lines(s, y) =~= buf@);
                            more = false;
                            break ;
                        }
                    },
                }
            }
            if !more {
                break ;
            }
        }
        proof {
            if ascii_from(s, start as int) {
                lemma_ascii_valid(buf@);
            }
        }
        match decode_span(buf) {
            Ok(content) => {
                let b = Block::BlockCode { tag: None, content };
                proof {
                    lemma_leaf_block_wf(b);
                }
                Ok(ParseResult::Success(b))
            },
            Err(e) => Err(e),
        }
    }
}

} // verus!
