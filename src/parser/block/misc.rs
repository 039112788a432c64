use vstd::prelude::*;

use super::atx_heading::{atx_level, atx_text_end, atx_text_start, AtxHeadingParser};
use super::block_quote::{after_prefix, quote_end, quote_prefix_at, BlockQuoteParser};
use crate::parser::inline::{
    chunk_bytes, inline_rest, pieces_match, plain, plain_text_of, InlineParser,
};
use crate::parser::{
    ascii_from, at_line_start, lemma_next_line_start, lemma_valid_span, blank_line_at, blank_rest, blank_tail_at, lemma_blank_rest_line, lemma_line_end,
    lemma_line_end_skip, lemma_space_run, line_end, next_line, space_run, MarkdownParser, ParseResult,
};
use crate::result::MarkdownError;
use crate::tokens::{block_wf, lemma_leaf_block_wf, lemma_text_block_wf, Block};
use vstd::utf8::valid_utf8;
use crate::util::{DASH, EQUALS, HASH, NEWLINE, SPACE, STAR, UNDERSCORE};

verus! {

/// The rest of a rule line from `i`: bytes `c` or spaces, in any order, up
/// to the newline or the end.
pub open spec fn rule_rest(s: Seq<u8>, i: int, c: u8) -> bool
    decreases s.len() - i,
{
    if i < 0 || i >= s.len() || s[i] == NEWLINE {
        true
    } else if s[i] == SPACE || s[i] == c {
        rule_rest(s, i + 1, c)
    } else {
        false
    }
}

/// The rest of an underline from `i`: bytes equal to `c` until the first
/// space, then only spaces, up to the newline or the end.
pub open spec fn underline_rest(s: Seq<u8>, i: int, c: u8) -> bool
    decreases s.len() - i,
{
    if i < 0 || i >= s.len() || s[i] == NEWLINE {
        true
    } else if s[i] == SPACE {
        underline_rest(s, i + 1, SPACE)
    } else if s[i] == c {
        underline_rest(s, i + 1, c)
    } else {
        false
    }
}

/// The line at `p` is a horizontal rule: up to three spaces, then `-`, `*`
/// or `_` and the rest as `rule_rest` says.
pub open spec fn hrule_at(s: Seq<u8>, p: int) -> bool {
    let k = space_run(s, p);
    let i = p + k;
    k < 4 && i < s.len() && (s[i] == DASH || s[i] == STAR || s[i] == UNDERSCORE) && rule_rest(
        s,
        i + 1,
        s[i],
    )
}

/// The line at `p` underlines a heading: `=` or `-`, then as
/// `underline_rest` says.
pub open spec fn underline_at(s: Seq<u8>, p: int) -> bool {
    0 <= p < s.len() && (s[p] == EQUALS || s[p] == DASH) && underline_rest(s, p + 1, s[p])
}

/// A line at `x` that ends a paragraph before it: blank, an underline, or
/// the start of a heading, a rule or a quote.
pub open spec fn para_stop(s: Seq<u8>, x: int) -> bool {
    blank_line_at(s, x) || blank_tail_at(s, x) || underline_at(s, x) || (0 <= x < s.len() && s[x]
        == HASH) || hrule_at(s, x) || quote_prefix_at(s, x)
}

/// Where the text of a paragraph ends whose lines so far end at `x`: the
/// start of the first line from `x` on that ends it.
pub open spec fn para_last(s: Seq<u8>, x: int) -> int
    decreases s.len() - x,
{
    if x < 0 || x >= s.len() || para_stop(s, x) {
        x
    } else if next_line(s, x) > x {
        para_last(s, next_line(s, x))
    } else {
        x
    }
}

/// Where the cursor stands after a paragraph whose text ends at `x`: past
/// a blank line, past an underline, past the heading, rule or quote queued
/// after it, or at `x`.
pub open spec fn para_end(s: Seq<u8>, x: int) -> int {
    if blank_line_at(s, x) {
        line_end(s, x) + 1
    } else if blank_tail_at(s, x) {
        x
    } else if underline_at(s, x) || (0 <= x < s.len() && s[x] == HASH) || hrule_at(s, x) {
        next_line(s, x)
    } else if quote_prefix_at(s, x) {
        quote_end(s, after_prefix(s, x))
    } else {
        x
    }
}

/// The start of the line that ends at `b`, looking no further back than `a`.
pub open spec fn line_back(s: Seq<u8>, a: int, b: int) -> int
    decreases b - a,
{
    if b > a && s[b - 1] != NEWLINE {
        line_back(s, a, b - 1)
    } else {
        b
    }
}

/// Where the text of the line before an underline at `last` ends: before
/// its newline.
pub open spec fn setext_text_end(s: Seq<u8>, last: int) -> int {
    if last >= 1 && s[last - 1] == NEWLINE {
        last - 1
    } else {
        last
    }
}

/// The text of the heading at `x` queued after a paragraph.
pub open spec fn atx_text(s: Seq<u8>, x: int) -> Seq<u8> {
    s.subrange(atx_text_start(s, x), atx_text_end(s, x))
}

/// The level that an underline gives to the line above it.
#[derive(Clone, Copy, PartialEq, Eq, Debug)]
pub enum SetextHeaderLevel {
    StxFirst,
    StxSecond,
}

impl SetextHeaderLevel {
    pub fn to_numeric(self) -> (r: usize)
        ensures
            r == (if self is StxFirst { 1usize } else { 2usize }),
    {
        match self {
            SetextHeaderLevel::StxFirst => 1,
            SetextHeaderLevel::StxSecond => 2,
        }
    }
}

/// Parses horizontal rules and paragraphs.
pub trait MiscParser: Sized {
    fn parse_horizontal_rule(&mut self) -> Result<ParseResult<Block>, MarkdownError>;

    fn parse_paragraph(&mut self) -> Result<ParseResult<Block>, MarkdownError>;
}

impl<'a> MarkdownParser<'a> {
    /// Steps over the rest of a rule line whose bytes so far were `c`; with
    /// `underline`, a space ends the run of `c` for the rest of the line.
    fn rule_tail(&mut self, c: u8, underline: bool) -> (r: bool)
        ensures
            old(self).moved(final(self)),
            r == if underline {
                underline_rest(old(self).buffer(), old(self).pos(), c)
            } else {
                rule_rest(old(self).buffer(), old(self).pos(), c)
            },
            r ==> final(self).pos() == next_line(old(self).buffer(), old(self).pos()),
            final(self).pos() >= old(self).pos(),
    {
        let start = self.cur.position();
        let ghost s = self.buffer();
        let mut cur = c;
        loop
            invariant
                old(self).moved(self),
                s == self.buffer(),
                start == old(self).pos(),
                start <= self.pos(),
                underline ==> underline_rest(s, start as int, c) == underline_rest(s, self.pos(), cur),
                !underline ==> cur == c && rule_rest(s, start as int, c) == rule_rest(s, self.pos(), c),
                line_end(s, start as int) == line_end(s, self.pos()),
            decreases self.buffer().len() - self.pos(),
        {
            let ghost q = self.pos();
            match self.cur.next_byte() {
                Some(b) => {
                    if b == NEWLINE {
                        assert(line_end(s, q) == q);
                        return true;
                    } else if b == SPACE {
                        if underline {
                            cur = SPACE;
                        }
                    } else if b != cur {
                        return false;
                    }
                },
                None => {
                    return true;
                },
            }
        }
    }

    /// Consumes a setext underline.
    fn try_parse_header_line(&mut self) -> (r: ParseResult<SetextHeaderLevel>)
        ensures
            old(self).moved(final(self)),
            r is Success <==> underline_at(old(self).buffer(), old(self).pos()),
            r matches ParseResult::Success(l) ==> (l is StxFirst <==> old(self).at(old(self).pos())
                == EQUALS),
            r is End <==> old(self).pos() == old(self).buffer().len(),
            r is Success ==> final(self).pos() == next_line(old(self).buffer(), old(self).pos()),
            r is Success ==> final(self).pos() > old(self).pos(),
            !(r is Success) ==> final(self).pos() == old(self).pos(),
    {
        let p = self.cur.position();
        let ghost s = self.buffer();
        let m = self.cur.mark();
        let c = match self.cur.next_byte() {
            Some(c) => c,
            None => {
                return ParseResult::End;
            },
        };
        let level = if c == EQUALS {
            SetextHeaderLevel::StxFirst
        } else if c == DASH {
            SetextHeaderLevel::StxSecond
        } else {
            m.reset(&mut self.cur);
            return ParseResult::NoParse;
        };
        proof {
            lemma_line_end_skip(s, p as int, p + 1);
        }
        if self.rule_tail(c, true) {
            m.cancel();
            ParseResult::Success(level)
        } else {
            m.reset(&mut self.cur);
            ParseResult::NoParse
        }
    }
}

impl<'a> MiscParser for MarkdownParser<'a> {
    fn parse_horizontal_rule(&mut self) -> (r: Result<ParseResult<Block>, MarkdownError>)
        ensures
            old(self).block_step(final(self), r),
            final(self).queue() == old(self).queue(),
            (r matches Ok(ParseResult::Success(_))) <==> hrule_at(old(self).buffer(), old(self).pos()),
            r matches Ok(ParseResult::Success(b)) ==> b is HorizontalRule,
            r matches Ok(ParseResult::Success(_)) ==> final(self).pos() == next_line(
                old(self).buffer(),
                old(self).pos(),
            ),
            r matches Ok(ParseResult::Success(_)) ==> at_line_start(old(self).buffer(), final(self).pos()),
            r matches Ok(ParseResult::End) ==> blank_rest(old(self).buffer(), old(self).pos()),
            r is Ok,
        decreases old(self).buffer().len(), 4nat,
    {
        let p = self.cur.position();
        let ghost s = self.buffer();
        proof {
            lemma_space_run(s, p as int);
            lemma_next_line_start(s, p as int);
        }
        let m = self.cur.mark();
        match self.try_skip_initial_spaces() {
            ParseResult::Success(()) => {},
            ParseResult::NoParse => {
                m.cancel();
                return Ok(ParseResult::NoParse);
            },
            ParseResult::End => {
                m.cancel();
                return Ok(ParseResult::End);
            },
        }
        let ghost i = self.pos();
        match self.cur.next_byte() {
            Some(c) => {
                proof {
                    if c == DASH || c == STAR || c == UNDERSCORE {
                        lemma_line_end_skip(s, p as int, i + 1);
                    }
                }
                if (c == DASH || c == STAR || c == UNDERSCORE) && self.rule_tail(c, false) {
                    m.cancel();
                    let b = Block::HorizontalRule;
                    proof {
                        lemma_leaf_block_wf(b);
                    }
                    Ok(ParseResult::Success(b))
                } else {
                    m.reset(&mut self.cur);
                    Ok(ParseResult::NoParse)
                }
            },
            None => {
                m.reset(&mut self.cur);
                Ok(ParseResult::End)
            },
        }
    }

    /// Reads lines up to a blank line, a setext underline (which turns the
    /// last line into a heading), or a line that starts a heading, a rule or
    /// a quote (that block is parsed and queued to come next).
    #[verifier::rlimit(80)]
    #[verifier::spinoff_prover]
    fn parse_paragraph(&mut self) -> (r: Result<ParseResult<Block>, MarkdownError>)
        ensures
            old(self).block_step(final(self), r),
            old(self).queue_wf() ==> final(self).queue_wf(),
            !(r matches Ok(ParseResult::NoParse)),
            ascii_from(old(self).buffer(), old(self).pos()) ==> r is Ok,
            valid_utf8(old(self).buffer().subrange(old(self).pos(), old(self).buffer().len() as int))
                ==> r is Ok,
            r matches Ok(ParseResult::Success(_)) ==> at_line_start(old(self).buffer(), final(self).pos()),
            (r matches Ok(ParseResult::End)) <==> old(self).pos() == old(self).buffer().len(),
            r matches Ok(ParseResult::End) ==> final(self).queue() == old(self).queue(),
            final(self).queue() == old(self).queue() || (final(self).queue().len() == old(
                self,
            ).queue().len() + 1 && final(self).queue().drop_last() == old(self).queue()),
            r matches Ok(ParseResult::Success(b)) ==> b is Paragraph || b is Heading,
            r matches Ok(ParseResult::Success(b)) ==> (b is Heading ==> 1 <= b->Heading_level <= 2),
            ({
                let s = old(self).buffer();
                let p = old(self).pos();
                let last = para_last(s, next_line(s, p));
                let text = s.subrange(p, last);
                let grew = final(self).queue().len() == old(self).queue().len() + 1;
                p < s.len() ==> (r matches Ok(ParseResult::Success(b)) ==> {
                    &&& final(self).pos() == para_end(s, last)
                    &&& !underline_at(s, last) ==> b is Paragraph
                    &&& (!underline_at(s, last) && plain(text)) ==> plain_text_of(
                        b->Paragraph_0@,
                        chunk_bytes(text, old(self).spec_config().trim_newlines),
                    )
                    &&& (!underline_at(s, last) && inline_rest(
                        text,
                        0,
                        0,
                        Seq::empty(),
                        old(self).spec_config().trim_newlines,
                    ) is Some) ==> pieces_match(
                        b->Paragraph_0@,
                        inline_rest(text, 0, 0, Seq::empty(), old(self).spec_config().trim_newlines)->Some_0,
                        old(self).spec_config().trim_newlines,
                    )
                    &&& underline_at(s, last) ==> (b is Heading ==> b->Heading_level == (if s[last]
                        == EQUALS { 1usize } else { 2usize }))
                    &&& underline_at(s, last) && b is Paragraph ==> grew && final(self).queue().last()
                        is Heading
                    &&& (!underline_at(s, last) && last < s.len() && s[last] == HASH) ==> grew
                        && final(self).queue().last() is Heading && final(self).queue().last()->Heading_level
                        == atx_level(s, last) && (plain(atx_text(s, last)) ==> plain_text_of(
                        final(self).queue().last()->Heading_content@,
                        chunk_bytes(atx_text(s, last), old(self).spec_config().trim_newlines),
                    ))
                    &&& underline_at(s, last) ==> {
                        let le = setext_text_end(s, last);
                        let ls = line_back(s, p, le);
                        let head = s.subrange(ls, le);
                        let c = chunk_bytes(head, old(self).spec_config().trim_newlines);
                        &&& ls == p ==> b is Heading && final(self).queue() == old(self).queue() && (plain(
                            head,
                        ) ==> plain_text_of(b->Heading_content@, c))
                        &&& ls > p ==> b is Paragraph && grew && final(self).queue().last() is Heading
                            && final(self).queue().last()->Heading_level == (if s[last] == EQUALS {
                            1usize
                        } else {
                            2usize
                        }) && (plain(head) ==> plain_text_of(
                            final(self).queue().last()->Heading_content@,
                            c,
                        )) && (plain(s.subrange(p, ls)) ==> plain_text_of(
                            b->Paragraph_0@,
                            chunk_bytes(s.subrange(p, ls), old(self).spec_config().trim_newlines),
                        ))
                    }
                    &&& (!underline_at(s, last) && !(last < s.len() && s[last] == HASH) && hrule_at(
                        s,
                        last,
                    )) ==> grew && final(self).queue().last() is HorizontalRule
                    &&& (!underline_at(s, last) && !(last < s.len() && s[last] == HASH) && !hrule_at(
                        s,
                        last,
                    ) && quote_prefix_at(s, last)) ==> grew && final(self).queue().last() is BlockQuote
                    &&& (blank_line_at(s, last) || blank_tail_at(s, last)) ==> final(self).queue()
                        == old(self).queue()
                })
            }),
        decreases old(self).buffer().len(), 7nat,
    {
        let buf = self.cur.buffer();
        let start = self.cur.position();
        proof {
            lemma_next_line_start(buf@, start as int);
        }
        if self.read_line().is_end() {
            return Ok(ParseResult::End);
        }
        let mut last = self.cur.position();
        let ghost s = buf@;
        let ghost first_last = last as int;
        let mut level: Option<SetextHeaderLevel> = None;
        loop
            invariant_except_break
                self.queue() == old(self).queue(),
                level is None,
                self.pos() == last,
                para_last(s, last as int) == para_last(s, first_last),
            invariant
                s == buf@,
                at_line_start(s, last as int),
                old(self).same_source(self),
                old(self).queue_wf() ==> self.queue_wf(),
                buf@ == self.buffer(),
                start == old(self).pos(),
                start < last <= self.pos(),
            ensures
                old(self).same_source(self),
                old(self).queue_wf() ==> self.queue_wf(),
                buf@ == self.buffer(),
                start == old(self).pos(),
                start < last <= self.pos(),
                self.queue() == old(self).queue() || (self.queue().len() == old(self).queue().len()
                    + 1 && self.queue().drop_last() == old(self).queue()),
                level is Some ==> self.queue() == old(self).queue(),
                s == buf@,
                at_line_start(s, last as int),
                at_line_start(s, self.pos()),
                self.pos() == para_end(s, last as int),
                last == para_last(s, first_last),
                level is Some <==> underline_at(s, last as int),
                level matches Some(l) ==> (l is StxFirst <==> s[last as int] == EQUALS),
                (blank_line_at(s, last as int) || blank_tail_at(s, last as int)) ==> self.queue()
                    == old(self).queue(),
                (!underline_at(s, last as int) && last < s.len() && s[last as int] == HASH) ==> (
                self.queue().len() == old(self).queue().len() + 1 && self.queue().last() is Heading
                    && self.queue().last()->Heading_level == atx_level(s, last as int) && (plain(
                    atx_text(s, last as int),
                ) ==> plain_text_of(
                    self.queue().last()->Heading_content@,
                    chunk_bytes(atx_text(s, last as int), self.spec_config().trim_newlines),
                ))),
                (!underline_at(s, last as int) && !(last < s.len() && s[last as int] == HASH)
                    && hrule_at(s, last as int)) ==> (self.queue().len() == old(self).queue().len() + 1
                    && self.queue().last() is HorizontalRule),
                (!underline_at(s, last as int) && !(last < s.len() && s[last as int] == HASH)
                    && !hrule_at(s, last as int) && quote_prefix_at(s, last as int)) ==> (
                self.queue().len() == old(self).queue().len() + 1 && self.queue().last() is BlockQuote),
            decreases self.buffer().len() - self.pos(),
        {
            proof {
                lemma_line_end(s, last as int);
                lemma_next_line_start(s, last as int);
                if valid_utf8(s.subrange(start as int, s.len() as int)) {
                    lemma_valid_span(s, start as int, last as int, s.len() as int);
                }
                lemma_space_run(s, last as int);
                if blank_rest(s, last as int) {
                    lemma_blank_rest_line(s, last as int);
                }
            }
            match self.try_parse_empty_line() {
                ParseResult::NoParse => {},
                _ => {
                    break ;
                },
            }
            match self.try_parse_header_line() {
                ParseResult::Success(l) => {
                    level = Some(l);
                    break ;
                },
                ParseResult::End => {
                    break ;
                },
                ParseResult::NoParse => {},
            }
            match self.parse_atx_heading() {
                Ok(ParseResult::Success(heading)) => {
                    self.enqueue_event(heading);
                    assert(self.queue().drop_last() =~= old(self).queue());
                    break ;
                },
                Ok(ParseResult::End) => {
                    break ;
                },
                Ok(ParseResult::NoParse) => {},
                Err(e) => {
                    return Err(e);
                },
            }
            match self.parse_horizontal_rule() {
                Ok(ParseResult::Success(rule)) => {
                    self.enqueue_event(rule);
                    assert(self.queue().drop_last() =~= old(self).queue());
                    break ;
                },
                Ok(ParseResult::End) => {
                    break ;
                },
                _ => {},
            }
            match self.parse_block_quote() {
                Ok(ParseResult::Success(quote)) => {
                    self.enqueue_event(quote);
                    assert(self.queue().drop_last() =~= old(self).queue());
                    break ;
                },
                Ok(ParseResult::End) => {
                    break ;
                },
                Ok(ParseResult::NoParse) => {},
                Err(e) => {
                    return Err(e);
                },
            }
            self.read_line();
            last = self.cur.position();
        }
        let mut text_end = last;
        let ghost after_loop = self.queue();
        match level {
            Some(l) => {
                // the last line, without its newline, becomes the heading
                let mut line_end = last;
                if buf[line_end - 1] == NEWLINE {
                    line_end = line_end - 1;
                }
                let mut line_start = line_end;
                assert(line_end == setext_text_end(s, last as int));
                while line_start > start && buf[line_start - 1] != NEWLINE
                    invariant
                        start <= line_start <= line_end <= last <= buf@.len(),
                        s == buf@,
                        line_back(s, start as int, line_end as int) == line_back(
                            s,
                            start as int,
                            line_start as int,
                        ),
                    decreases line_start,
                {
                    line_start = line_start - 1;
                }
                let mut sub = self.fork(&buf[line_start..line_end]);
                proof {
                    assert(sub.buffer().subrange(0, sub.buffer().len() as int) =~= sub.buffer());
                    if valid_utf8(s.subrange(start as int, s.len() as int)) {
                        lemma_valid_span(s, start as int, line_start as int, line_end as int);
                    }
                }
                assert(ascii_from(buf@, start as int) ==> ascii_from(sub.buffer(), 0));
                let content = match sub.parse_inline() {
                    Ok(t) => t,
                    Err(e) => {
                        return Err(e);
                    },
                };
                let level = l.to_numeric();
                proof {
                    lemma_text_block_wf(level, content);
                }
                let heading = Block::Heading { level, content };
                if line_start == start {
                    return Ok(ParseResult::Success(heading));
                }
                self.enqueue_event(heading);
                assert(self.queue().drop_last() =~= old(self).queue());
                text_end = line_start;
            },
            None => {},
        }
        proof {
            lemma_line_end(s, last as int);
            if blank_line_at(s, last as int) || blank_tail_at(s, last as int) {
                assert(!underline_at(s, last as int));
            }
            if !underline_at(s, last as int) {
                assert(self.queue() == after_loop);
                assert(text_end == last);
            }
        }
        proof {
            if valid_utf8(s.subrange(start as int, s.len() as int)) {
                lemma_valid_span(s, start as int, start as int, text_end as int);
            }
        }
        let mut sub = self.fork(&buf[start..text_end]);
        assert(ascii_from(buf@, start as int) ==> ascii_from(sub.buffer(), 0));
        assert(sub.buffer().subrange(0, sub.buffer().len() as int) =~= sub.buffer());
        match sub.parse_inline() {
            Ok(content) => {
                proof {
                    lemma_text_block_wf(0, content);
                }
                Ok(ParseResult::Success(Block::Paragraph(content)))
            },
            Err(e) => Err(e),
        }
    }
}

} // verus!
