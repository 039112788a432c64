use vstd::prelude::*;

pub mod atx_heading;
pub mod block_code;
pub mod block_quote;
pub mod lists;
pub mod misc;

pub use self::atx_heading::AtxHeadingParser;
pub use self::block_code::BlockCodeParser;
pub use self::block_quote::BlockQuoteParser;
pub use self::lists::ListsParser;
pub use self::misc::MiscParser;
use self::atx_heading::{atx_level, atx_text_end, atx_text_start};
use self::block_code::{code_end, code_lines, code_prefix_at};
use self::block_quote::{after_prefix, quote_end, quote_lines, quote_prefix_at};
use self::lists::{item_end, list_marker_at, list_rest_count, list_rest_end, marker_is_ordered};
use self::misc::{hrule_at, line_back, para_end, para_last, setext_text_end, underline_at};
use crate::parser::inline::{chunk_bytes, inline_rest, pieces_match, plain, plain_text_of};
use crate::parser::{blank_tail_at, next_line};
use vstd::utf8::decode_utf8;
use crate::parser::{
    ascii_from, at_line_start, blank_line_at, blank_rest, lemma_valid_span, lemma_blank_rest_line, lemma_line_end, line_end, MarkdownParser,
    ParseResult,
};
use crate::util::{EQUALS, HASH, NEWLINE, SPACE};
use vstd::utf8::valid_utf8;
use crate::result::MarkdownError;
use crate::tokens::Block;

verus! {

/// The position after the blank lines that start at `p`.
pub open spec fn after_blank_lines(s: Seq<u8>, p: int) -> int
    decreases s.len() - p,
{
    if 0 <= p && blank_line_at(s, p) && line_end(s, p) >= p {
        after_blank_lines(s, line_end(s, p) + 1)
    } else {
        p
    }
}

/// Which block the dispatcher owes at `q`, the start of the first non-blank
/// line: a quote prefix gives a quote, else four spaces give code, else a
/// rule line gives a rule, else `#` gives a heading, else a list marker
/// gives a list, and anything else a paragraph (or a setext heading).
pub open spec fn dispatch_owed(s: Seq<u8>, q: int, r: Result<ParseResult<Block>, MarkdownError>) -> bool {
    let quote = quote_prefix_at(s, q);
    let code = code_prefix_at(s, q);
    let rule = hrule_at(s, q);
    let ok = r is Ok && r->Ok_0 is Success;
    &&& quote ==> (r is Err || ok && r->Ok_0->Success_0 is BlockQuote)
    &&& (!quote && code) ==> (r is Err || ok && r->Ok_0->Success_0 is BlockCode)
    &&& (!quote && !code && rule) ==> (ok && r->Ok_0->Success_0 is HorizontalRule)
    &&& (!quote && !code && !rule && 0 <= q < s.len() && s[q] == HASH) ==> (r is Err || ok
        && r->Ok_0->Success_0 is Heading)
    &&& (!quote && !code && !rule && 0 <= q < s.len() && s[q] != HASH && list_marker_at(s, q)) ==> (
    r is Err || ok && (r->Ok_0->Success_0 is OrderedList || r->Ok_0->Success_0 is UnorderedList))
    &&& (!quote && !code && !rule && 0 <= q < s.len() && s[q] != HASH && !list_marker_at(s, q)) ==> (
    r is Err || ok && (r->Ok_0->Success_0 is Paragraph || r->Ok_0->Success_0 is Heading))
}

/// What the block owed at `q` holds, where the cursor then stands (`end`),
/// and whether the queue was left as it was (`kept`).
pub open spec fn owed_detail(
    s: Seq<u8>,
    q: int,
    r: Result<ParseResult<Block>, MarkdownError>,
    end: int,
    kept: bool,
    trim: bool,
) -> bool {
    let quote = quote_prefix_at(s, q);
    let code = code_prefix_at(s, q);
    let rule = hrule_at(s, q);
    let hash = 0 <= q < s.len() && s[q] == HASH;
    let list = list_marker_at(s, q);
    let ok = r is Ok && r->Ok_0 is Success;
    let b = r->Ok_0->Success_0;
    &&& (quote && ok) ==> kept && end == quote_end(s, after_prefix(s, q)) && (b->BlockQuote_0.len() == 0
        <==> blank_rest(quote_lines(s, after_prefix(s, q)), 0))
    &&& (!quote && code && ok) ==> kept && end == code_end(s, q) && b->BlockCode_content@ == decode_utf8(
        code_lines(s, q),
    )
    &&& (!quote && !code && rule && ok) ==> kept && end == next_line(s, q)
    &&& (!quote && !code && !rule && hash && ok) ==> {
        let text = s.subrange(atx_text_start(s, q), atx_text_end(s, q));
        &&& kept
        &&& end == next_line(s, q)
        &&& b->Heading_level == atx_level(s, q)
        &&& inline_rest(text, 0, 0, Seq::empty(), trim) is Some ==> pieces_match(
            b->Heading_content@,
            inline_rest(text, 0, 0, Seq::empty(), trim)->Some_0,
            trim,
        )
    }
    &&& (!quote && !code && !rule && !hash && list && ok) ==> {
        let ord = marker_is_ordered(s, q);
        let n = if b is OrderedList { b->OrderedList_items.len() } else { b->UnorderedList_items.len() };
        &&& kept
        &&& (b is OrderedList <==> ord)
        &&& end == list_rest_end(s, item_end(s, q), ord)
        &&& n == 1 + list_rest_count(s, item_end(s, q), ord)
    }
    &&& (!quote && !code && !rule && !hash && !list && ok) ==> {
        let last = para_last(s, next_line(s, q));
        let text = s.subrange(q, last);
        &&& end == para_end(s, last)
        &&& (blank_line_at(s, last) || blank_tail_at(s, last)) ==> kept
        &&& (!underline_at(s, last) && inline_rest(text, 0, 0, Seq::empty(), trim) is Some) ==> b is Paragraph
            && pieces_match(b->Paragraph_0@, inline_rest(text, 0, 0, Seq::empty(), trim)->Some_0, trim)
        &&& (underline_at(s, last) && line_back(s, q, setext_text_end(s, last)) == q) ==> {
            let head = s.subrange(q, setext_text_end(s, last));
            &&& kept
            &&& b is Heading
            &&& b->Heading_level == (if s[last] == EQUALS { 1usize } else { 2usize })
            &&& plain(head) ==> plain_text_of(b->Heading_content@, chunk_bytes(head, trim))
        }
    }
}

/// Where the cursor stands after the block owed at `q`.
pub open spec fn owed_end(s: Seq<u8>, q: int) -> int {
    if quote_prefix_at(s, q) {
        quote_end(s, after_prefix(s, q))
    } else if code_prefix_at(s, q) {
        code_end(s, q)
    } else if hrule_at(s, q) || (0 <= q < s.len() && s[q] == HASH) {
        next_line(s, q)
    } else if list_marker_at(s, q) {
        list_rest_end(s, item_end(s, q), marker_is_ordered(s, q))
    } else {
        para_end(s, para_last(s, next_line(s, q)))
    }
}

/// Whether the block owed at `q` leaves the queue as it was, as far as
/// described.
pub open spec fn owed_kept(s: Seq<u8>, q: int) -> bool {
    if quote_prefix_at(s, q) || code_prefix_at(s, q) || hrule_at(s, q) || (0 <= q < s.len() && s[q]
        == HASH) || list_marker_at(s, q) {
        true
    } else {
        let last = para_last(s, next_line(s, q));
        blank_line_at(s, last) || blank_tail_at(s, last) || (underline_at(s, last) && line_back(
            s,
            q,
            setext_text_end(s, last),
        ) == q)
    }
}

/// The owed block described with the computed end and queue flag.
pub proof fn lemma_owed_canonical(
    s: Seq<u8>,
    p: int,
    q: int,
    b: Block,
    e: int,
    k: bool,
    trim: bool,
    count: int,
)
    requires
        0 <= p,
        !blank_rest(s, p),
        owed_detail(s, q, Ok(ParseResult::Success(b)), e, k, trim),
        k && blank_rest(s, e) ==> count == 1,
    ensures
        owed_detail(s, q, Ok(ParseResult::Success(b)), owed_end(s, q), owed_kept(s, q), trim),
        owed_kept(s, q) && blank_rest(s, owed_end(s, q)) ==> count == 1,
{
}

pub proof fn lemma_after_blank_lines(s: Seq<u8>, p: int)
    requires
        0 <= p,
    ensures
        after_blank_lines(s, p) >= p,
    decreases s.len() - p,
{
    if blank_line_at(s, p) && line_end(s, p) >= p {
        lemma_after_blank_lines(s, line_end(s, p) + 1);
    }
}

/// Parses one block.
pub trait BlockParser: Sized {
    fn parse_block(&mut self) -> Result<ParseResult<Block>, MarkdownError>;
}

impl<'a> BlockParser for MarkdownParser<'a> {
    /// Skips blank lines, then tries block quote, code block, horizontal
    /// rule, heading and list in turn at the same position, and falls back
    /// to a paragraph. `End`: nothing but blank space is left.
    fn parse_block(&mut self) -> (r: Result<ParseResult<Block>, MarkdownError>)
        ensures
            old(self).block_step(final(self), r),
            !(r matches Ok(ParseResult::NoParse)),
            valid_utf8(old(self).buffer().subrange(old(self).pos(), old(self).buffer().len() as int))
                ==> r is Ok,
            r matches Ok(ParseResult::Success(_)) ==> at_line_start(old(self).buffer(), final(self).pos()),
            ascii_from(old(self).buffer(), old(self).pos()) ==> r is Ok,

            old(self).queue_wf() ==> final(self).queue_wf(),
            (r matches Ok(ParseResult::End)) <==> blank_rest(old(self).buffer(), old(self).pos()),
            !blank_rest(old(self).buffer(), old(self).pos()) ==> owed_detail(
                old(self).buffer(),
                after_blank_lines(old(self).buffer(), old(self).pos()),
                r,
                final(self).pos(),
                final(self).queue() == old(self).queue(),
                old(self).spec_config().trim_newlines,
            ),
            !blank_rest(old(self).buffer(), old(self).pos()) ==> dispatch_owed(
                old(self).buffer(),
                after_blank_lines(old(self).buffer(), old(self).pos()),
                r,
            ),
            r matches Ok(ParseResult::End) ==> final(self).queue() == old(self).queue(),
        decreases old(self).buffer().len(), 8nat,
    {
        let start = self.cur.position();
        let m = self.cur.mark();
        loop
            invariant
                old(self).same_source(self),
                old(self).queue() == self.queue(),
                start == old(self).pos(),
                start <= self.pos(),
                m.spec_pos() == start,
                forall|i: int| start <= i < self.pos() ==> #[trigger] self.buffer()[i] == SPACE
                    || self.buffer()[i] == NEWLINE,
                after_blank_lines(self.buffer(), start as int) == after_blank_lines(
                    self.buffer(),
                    self.pos(),
                ),
                self.pos() == start || self.buffer()[self.pos() - 1] == NEWLINE,
            ensures
                self.pos() == start || self.buffer()[self.pos() - 1] == NEWLINE,
                old(self).same_source(self),
                old(self).queue() == self.queue(),
                start == old(self).pos(),
                start <= self.pos(),
                m.spec_pos() == start,
                !blank_rest(old(self).buffer(), start as int),
                after_blank_lines(self.buffer(), start as int) == self.pos(),
                forall|i: int| start <= i < self.pos() ==> #[trigger] self.buffer()[i] == SPACE
                    || self.buffer()[i] == NEWLINE,
            decreases self.buffer().len() - self.pos(),
        {
            proof {
                lemma_line_end(self.buffer(), self.pos());
                if blank_rest(self.buffer(), self.pos()) {
                    lemma_blank_rest_line(self.buffer(), self.pos());
                }
            }
            match self.try_parse_empty_line() {
                ParseResult::Success(()) => {},
                ParseResult::End => {
                    m.reset(&mut self.cur);
                    return Ok(ParseResult::End);
                },
                ParseResult::NoParse => {
                    assert(!blank_rest(old(self).buffer(), start as int));
                    break ;
                },
            }
        }
        proof {
            if valid_utf8(self.buffer().subrange(start as int, self.buffer().len() as int)) {
                lemma_valid_span(self.buffer(), start as int, self.pos(), self.buffer().len() as int);
            }
        }
        match self.parse_block_quote() {
            Ok(ParseResult::NoParse) => {},
            Ok(ParseResult::End) => {
                m.reset(&mut self.cur);
                return Ok(ParseResult::End);
            },
            other => {
                return other;
            },
        }
        match self.parse_block_code() {
            Ok(ParseResult::NoParse) => {},
            Ok(ParseResult::End) => {
                m.reset(&mut self.cur);
                return Ok(ParseResult::End);
            },
            other => {
                return other;
            },
        }
        match self.parse_horizontal_rule() {
            Ok(ParseResult::NoParse) => {},
            Ok(ParseResult::End) => {
                m.reset(&mut self.cur);
                return Ok(ParseResult::End);
            },
            other => {
                return other;
            },
        }
        match self.parse_atx_heading() {
            Ok(ParseResult::NoParse) => {},
            Ok(ParseResult::End) => {
                m.reset(&mut self.cur);
                return Ok(ParseResult::End);
            },
            other => {
                return other;
            },
        }
        match self.parse_list() {
            Ok(ParseResult::NoParse) => {},
            Ok(ParseResult::End) => {
                m.reset(&mut self.cur);
                return Ok(ParseResult::End);
            },
            other => {
                return other;
            },
        }
        self.parse_paragraph()
    }
}

} // verus!
