use vstd::prelude::*;

use crate::parser::inline::{
    chunk_bytes, inline_rest, lemma_rest_end, pieces_match, plain, plain_text_of, InlineParser,
};
use crate::parser::{
    ascii_edge, ascii_from, at_line_start, lemma_next_line_start, lemma_ascii_valid, lemma_valid_span,
    byte_run, lemma_byte_run, lemma_line_end_skip, next_line, lemma_line_end, lemma_space_run, line_end, space_run, strip_back, MarkdownParser,
    ParseResult,
};
use vstd::utf8::valid_utf8;
use crate::result::MarkdownError;
use crate::tokens::{lemma_text_block_wf, Block};
use crate::util::{HASH, NEWLINE, SPACE};

verus! {

/// The level of a heading whose `#` run starts at `p`.
pub open spec fn atx_level(s: Seq<u8>, p: int) -> int {
    if byte_run(s, p, HASH) < 6 {
        byte_run(s, p, HASH)
    } else {
        6
    }
}

/// Where the text of a heading whose `#` run starts at `p` begins.
pub open spec fn atx_text_start(s: Seq<u8>, p: int) -> int {
    let h = p + atx_level(s, p);
    h + space_run(s, h)
}

/// Where that text ends: the line without its trailing `#`s, then without
/// its trailing spaces.
pub open spec fn atx_text_end(s: Seq<u8>, p: int) -> int {
    let a = atx_text_start(s, p);
    strip_back(s, a, strip_back(s, a, line_end(s, a), HASH), SPACE)
}

/// Parses a heading written with leading `#`s.
pub trait AtxHeadingParser: Sized {
    fn parse_atx_heading(&mut self) -> Result<ParseResult<Block>, MarkdownError>;
}

impl<'a> AtxHeadingParser for MarkdownParser<'a> {
    /// One to six `#`s give the level (more stay in the text), then spaces,
    /// then the rest of the line without its trailing `#`s and spaces.
    fn parse_atx_heading(&mut self) -> (r: Result<ParseResult<Block>, MarkdownError>)
        ensures
            old(self).block_step(final(self), r),
            final(self).queue() == old(self).queue(),
            ascii_from(old(self).buffer(), old(self).pos()) ==> r is Ok,
            valid_utf8(old(self).buffer().subrange(old(self).pos(), old(self).buffer().len() as int))
                ==> r is Ok,
            ({
                let s = old(self).buffer();
                let p = old(self).pos();
                &&& (r matches Ok(ParseResult::End)) <==> p == s.len()
                &&& (r matches Ok(ParseResult::NoParse)) <==> (p < s.len() && s[p] != HASH)
                &&& (r matches Ok(ParseResult::Success(b)) ==> b is Heading && b->Heading_level
                    == atx_level(s, p) && 1 <= b->Heading_level <= 6)
                &&& (r matches Ok(ParseResult::Success(_)) ==> final(self).pos() == next_line(s, p))
                &&& ({
                    let text = s.subrange(atx_text_start(s, p), atx_text_end(s, p));
                    let trim = old(self).spec_config().trim_newlines;
                    inline_rest(text, 0, 0, Seq::empty(), trim) is Some ==> (r matches Ok(
                        ParseResult::Success(b),
                    ) ==> pieces_match(
                        b->Heading_content@,
                        inline_rest(text, 0, 0, Seq::empty(), trim)->Some_0,
                        trim,
                    ))
                })
                &&& (r matches Ok(ParseResult::Success(_)) ==> at_line_start(s, final(self).pos()))
                &&& ({
                    let text = s.subrange(atx_text_start(s, p), atx_text_end(s, p));
                    let c = chunk_bytes(text, old(self).spec_config().trim_newlines);
                    (p < s.len() && s[p] == HASH && plain(text)) ==> (r is Ok <==> (c.len() == 0
                        || valid_utf8(c))) && (r matches Ok(ParseResult::Success(b)) ==> plain_text_of(
                        b->Heading_content@,
                        c,
                    ))
                })
            }),
        decreases old(self).buffer().len(), 4nat,
    {
        let buf = self.cur.buffer();
        let start = self.cur.position();
        proof {
            lemma_next_line_start(buf@, start as int);
        }
        match self.try_read_char(HASH) {
            ParseResult::NoParse => {
                return Ok(ParseResult::NoParse);
            },
            ParseResult::End => {
                return Ok(ParseResult::End);
            },
            ParseResult::Success(()) => {},
        }
        let mut level: usize = 1;
        proof {
            lemma_byte_run(buf@, self.pos(), HASH);
        }
        while level < 6
            invariant
                old(self).moved(self),
                buf@ == self.buffer(),
                start == old(self).pos(),
                self.pos() == start + level,
                1 <= level <= 6,
                byte_run(buf@, start as int, HASH) == level + byte_run(buf@, self.pos(), HASH),
                byte_run(buf@, self.pos(), HASH) >= 0,
                forall|j: int| start <= j < self.pos() ==> buf@[j] == HASH,
            ensures
                old(self).moved(self),
                buf@ == self.buffer(),
                self.pos() == start + level,
                forall|j: int| start <= j < self.pos() ==> buf@[j] == HASH,
                level == atx_level(buf@, start as int),
            decreases 6 - level,
        {
            proof {
                lemma_byte_run(buf@, self.pos(), HASH);
            }
            match self.cur.current_byte() {
                Some(b) => {
                    if b == HASH {
                        self.cur.next();
                        level = level + 1;
                        proof {
                            lemma_byte_run(buf@, self.pos(), HASH);
                        }
                    } else {
                        assert(byte_run(buf@, self.pos(), HASH) == 0);
                        break ;
                    }
                },
                None => {
                    assert(byte_run(buf@, self.pos(), HASH) == 0);
                    break ;
                },
            }
        }
        proof {
            lemma_space_run(buf@, self.pos());
        }
        let ghost hashes_end = self.pos();
        if self.skip_spaces().is_end() {
            proof {
                assert forall|j: int| start <= j < buf@.len() implies buf@[j] != NEWLINE by {
                    if j >= hashes_end {
                        assert(buf@[j] == SPACE);
                    }
                }
                lemma_line_end_skip(buf@, start as int, buf@.len() as int);
            }
            let content = Vec::new();
            proof {
                let text = buf@.subrange(
                    atx_text_start(buf@, start as int),
                    atx_text_end(buf@, start as int),
                );
                lemma_rest_end(text, 0, Seq::empty(), self.spec_config().trim_newlines);
                assert(text.subrange(0, text.len() as int) =~= text);
                assert(Seq::<u8>::empty() + chunk_bytes(text, self.spec_config().trim_newlines)
                    =~= Seq::<u8>::empty());
            }
            assert(buf@.subrange(
                atx_text_start(buf@, start as int),
                atx_text_end(buf@, start as int),
            ).len() == 0);
            proof {
                lemma_text_block_wf(level, content);
            }
            return Ok(ParseResult::Success(Block::Heading { level, content }));
        }
        let pm = self.cur.position();
        proof {
            lemma_line_end(buf@, pm as int);
            assert forall|j: int| start <= j < pm implies buf@[j] != NEWLINE by {
                if j >= hashes_end {
                    assert(buf@[j] == SPACE);
                }
            }
            lemma_line_end_skip(buf@, start as int, pm as int);
        }
        self.read_line();
        let mut n = self.cur.position();
        if n > pm && buf[n - 1] == NEWLINE {
            n = n - 1;
        }
        assert(n == line_end(buf@, pm as int));
        assert(pm > start && buf@[pm - 1] < 128);
        let ghost a = pm as int;
        while n > pm && buf[n - 1] == HASH
            invariant
                pm <= n <= buf@.len(),
                a == pm,
                n == buf@.len() || buf@[n as int] < 128,
                strip_back(buf@, a, line_end(buf@, a), HASH) == strip_back(buf@, a, n as int, HASH),
            decreases n,
        {
            n = n - 1;
        }
        let ghost after_hashes = n as int;
        while n > pm && buf[n - 1] == SPACE
            invariant
                pm <= n <= buf@.len(),
                a == pm,
                n == buf@.len() || buf@[n as int] < 128,
                strip_back(buf@, a, after_hashes, SPACE) == strip_back(buf@, a, n as int, SPACE),
            decreases n,
        {
            n = n - 1;
        }
        assert(n == atx_text_end(buf@, start as int));
        let mut sub = self.fork(&buf[pm..n]);
        proof {
            if ascii_from(buf@, start as int) {
                assert(ascii_from(sub.buffer(), 0));
            }
            if valid_utf8(buf@.subrange(start as int, buf@.len() as int)) {
                lemma_valid_span(buf@, start as int, pm as int, n as int);
            }
        }
        assert(sub.buffer().subrange(0, sub.buffer().len() as int) =~= sub.buffer());
        match sub.parse_inline() {
            Ok(content) => {
                proof {
                    lemma_text_block_wf(level, content);
                }
                Ok(ParseResult::Success(Block::Heading { level, content }))
            },
            Err(e) => Err(e),
        }
    }
}

} // verus!
