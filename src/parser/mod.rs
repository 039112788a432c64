use vstd::prelude::*;

pub mod block;
pub mod config;
pub mod cursor;
pub mod inline;

use std::collections::VecDeque;
use vstd::utf8::{decode_utf8, valid_utf8};

pub use self::config::MarkdownConfig;
use self::cursor::Cursor;
use crate::result::MarkdownError;
use crate::tokens::{block_wf, document_wf, Block, Document};
use self::block::{
    after_blank_lines, dispatch_owed, lemma_owed_canonical, owed_detail, owed_end, owed_kept,
    BlockParser,
};
use crate::util::{ByteMatcher, NEWLINE, SPACE};

verus! {

/// What a production returns: a value, "does not apply here" (the cursor is
/// back where the production started), or "the input ended first".
pub enum ParseResult<T> {
    Success(T),
    NoParse,
    End,
}

impl<T> ParseResult<T> {
    pub fn is_success(&self) -> (r: bool)
        ensures
            r == (*self is Success),
    {
        match self {
            ParseResult::Success(_) => true,
            _ => false,
        }
    }

    pub fn is_end(&self) -> (r: bool)
        ensures
            r == (*self is End),
    {
        match self {
            ParseResult::End => true,
            _ => false,
        }
    }

    /// Alternation: `f` is tried only when this production did not apply;
    /// `End` is never handed on to it.
    pub fn or_else<F: FnOnce() -> ParseResult<T>>(self, f: F) -> (r: ParseResult<T>)
        requires
            self is NoParse ==> f.requires(()),
        ensures
            match self {
                ParseResult::Success(v) => r == ParseResult::Success(v),
                ParseResult::End => r is End,
                ParseResult::NoParse => f.ensures((), r),
            },
    {
        match self {
            ParseResult::Success(r) => ParseResult::Success(r),
            ParseResult::End => ParseResult::End,
            ParseResult::NoParse => f(),
        }
    }

    /// Applies `f` to a successful value.
    pub fn map<U, F: FnOnce(T) -> U>(self, f: F) -> (r: ParseResult<U>)
        requires
            self matches ParseResult::Success(v) ==> f.requires((v,)),
        ensures
            match self {
                ParseResult::Success(v) => r matches ParseResult::Success(u) && f.ensures((v,), u),
                ParseResult::End => r is End,
                ParseResult::NoParse => r is NoParse,
            },
    {
        match self {
            ParseResult::Success(r) => ParseResult::Success(f(r)),
            ParseResult::End => ParseResult::End,
            ParseResult::NoParse => ParseResult::NoParse,
        }
    }

    pub fn unwrap(self) -> (r: T)
        requires
            self is Success,
        ensures
            r == self->Success_0,
    {
        match self {
            ParseResult::Success(r) => r,
            _ => unreached(),
        }
    }

    /// A value for `Success`, `None` for `End`; `NoParse` never reaches here.
    pub fn to_option(self) -> (r: Option<T>)
        requires
            !(self is NoParse),
        ensures
            match self {
                ParseResult::Success(v) => r == Some(v),
                _ => r is None,
            },
    {
        match self {
            ParseResult::Success(r) => Some(r),
            _ => None,
        }
    }
}

/// The byte position of the newline that ends the line at `p`, or the end
/// of the buffer.
pub open spec fn line_end(s: Seq<u8>, p: int) -> int
    decreases s.len() - p,
{
    if p < 0 || p >= s.len() {
        s.len() as int
    } else if s[p] == NEWLINE {
        p
    } else {
        line_end(s, p + 1)
    }
}

/// The start of the line after the one at `p` (the end of the buffer when
/// that line has no newline).
pub open spec fn next_line(s: Seq<u8>, p: int) -> int {
    if line_end(s, p) < s.len() {
        line_end(s, p) + 1
    } else {
        s.len() as int
    }
}

/// The line at `p` holds only spaces and ends with a newline.
pub open spec fn blank_line_at(s: Seq<u8>, p: int) -> bool {
    line_end(s, p) < s.len() && all_spaces(s, p, line_end(s, p))
}

/// From `p` to the end the buffer holds only spaces.
pub open spec fn blank_tail_at(s: Seq<u8>, p: int) -> bool {
    line_end(s, p) == s.len() && all_spaces(s, p, s.len() as int)
}

/// From `p` to the end the buffer holds only spaces and newlines.
pub open spec fn blank_rest(s: Seq<u8>, p: int) -> bool {
    forall|i: int| p <= i < s.len() ==> s[i] == SPACE || s[i] == NEWLINE
}

/// Blank input starts with a blank line or is a blank tail.
pub proof fn lemma_blank_rest_line(s: Seq<u8>, p: int)
    requires
        0 <= p <= s.len(),
        blank_rest(s, p),
    ensures
        blank_line_at(s, p) || blank_tail_at(s, p),
        blank_line_at(s, p) ==> blank_rest(s, line_end(s, p) + 1),
{
    lemma_line_end(s, p);
}

pub open spec fn all_spaces(s: Seq<u8>, a: int, b: int) -> bool {
    forall|j: int| a <= j < b ==> s[j] == SPACE
}

/// The number of spaces that start at `p`.
pub open spec fn space_run(s: Seq<u8>, p: int) -> int
    decreases s.len() - p,
{
    if 0 <= p < s.len() && s[p] == SPACE {
        1 + space_run(s, p + 1)
    } else {
        0
    }
}

/// The number of bytes `c` that start at `p`.
pub open spec fn byte_run(s: Seq<u8>, p: int, c: u8) -> int
    decreases s.len() - p,
{
    if 0 <= p < s.len() && s[p] == c {
        1 + byte_run(s, p + 1, c)
    } else {
        0
    }
}

pub proof fn lemma_byte_run(s: Seq<u8>, p: int, c: u8)
    ensures
        byte_run(s, p, c) >= 0,
    decreases s.len() - p,
{
    if 0 <= p < s.len() && s[p] == c {
        lemma_byte_run(s, p + 1, c);
    }
}

/// `b` moved back over the bytes `c` that end `s[a..b]`.
pub open spec fn strip_back(s: Seq<u8>, a: int, b: int, c: u8) -> int
    decreases b - a,
{
    if b > a && s[b - 1] == c {
        strip_back(s, a, b - 1, c)
    } else {
        b
    }
}

/// The first position at or after `p` whose byte `m` does not match.
pub open spec fn matched_run_end<M: ByteMatcher>(s: Seq<u8>, p: int, m: M) -> int
    decreases s.len() - p,
{
    if 0 <= p < s.len() && m.spec_matches(s[p]) {
        matched_run_end(s, p + 1, m)
    } else {
        p
    }
}

pub proof fn lemma_line_end(s: Seq<u8>, p: int)
    requires
        0 <= p <= s.len(),
    ensures
        p <= line_end(s, p) <= s.len(),
        line_end(s, p) < s.len() ==> s[line_end(s, p)] == NEWLINE,
        forall|j: int| p <= j < line_end(s, p) ==> s[j] != NEWLINE,
    decreases s.len() - p,
{
    if p < s.len() && s[p] != NEWLINE {
        lemma_line_end(s, p + 1);
    }
}

/// With no newline in `s[a..b]`, the lines at `a` and `b` end together.
pub proof fn lemma_line_end_skip(s: Seq<u8>, a: int, b: int)
    requires
        0 <= a <= b <= s.len(),
        forall|j: int| a <= j < b ==> s[j] != NEWLINE,
    ensures
        line_end(s, a) == line_end(s, b),
    decreases b - a,
{
    if a < b {
        lemma_line_end_skip(s, a + 1, b);
    }
}

pub proof fn lemma_space_run(s: Seq<u8>, p: int)
    requires
        0 <= p <= s.len(),
    ensures
        0 <= space_run(s, p) <= s.len() - p,
        all_spaces(s, p, p + space_run(s, p)),
        p + space_run(s, p) < s.len() ==> s[p + space_run(s, p)] != SPACE,
    decreases s.len() - p,
{
    if p < s.len() && s[p] == SPACE {
        lemma_space_run(s, p + 1);
    }
}

pub proof fn lemma_matched_run_end<M: ByteMatcher>(s: Seq<u8>, p: int, m: M)
    requires
        0 <= p <= s.len(),
    ensures
        p <= matched_run_end(s, p, m) <= s.len(),
        matched_run_end(s, p, m) < s.len() ==> !m.spec_matches(s[matched_run_end(s, p, m)]),
        forall|j: int| p <= j < matched_run_end(s, p, m) ==> m.spec_matches(#[trigger] s[j]),
    decreases s.len() - p,
{
    if p < s.len() && m.spec_matches(s[p]) {
        lemma_matched_run_end(s, p + 1, m);
    }
}

/// Position `i` starts a line: it follows a newline, or is the end.
pub open spec fn at_line_start(s: Seq<u8>, i: int) -> bool {
    i == s.len() || (0 < i <= s.len() && s[i - 1] == NEWLINE)
}

pub proof fn lemma_next_line_start(s: Seq<u8>, p: int)
    requires
        0 <= p <= s.len(),
    ensures
        at_line_start(s, next_line(s, p)),
{
    lemma_line_end(s, p);
}

/// A block handed out by `next` seen as the dispatcher's result.
pub open spec fn as_step(r: Result<Option<Block>, MarkdownError>) -> Result<ParseResult<Block>, MarkdownError> {
    match r {
        Ok(Some(b)) => Ok(ParseResult::Success(b)),
        Ok(None) => Ok(ParseResult::End),
        Err(e) => Err(e),
    }
}

/// `b` is the block owed at `q` (see `owed_detail`), after which the cursor
/// stands at `end`; when the queue was kept and only blank space follows,
/// it is the only block (`count` is 1).
pub open spec fn first_block(
    s: Seq<u8>,
    q: int,
    b: Block,
    end: int,
    kept: bool,
    trim: bool,
    count: int,
) -> bool {
    owed_detail(s, q, Ok(ParseResult::Success(b)), end, kept, trim) && (kept && blank_rest(s, end)
        ==> count == 1)
}

/// Every byte of `b` is below 128.
pub open spec fn ascii(b: Seq<u8>) -> bool {
    forall|i: int| 0 <= i < b.len() ==> b[i] < 128
}

/// Every byte from `p` to the end is below 128.
pub open spec fn ascii_from(s: Seq<u8>, p: int) -> bool {
    forall|i: int| p <= i < s.len() ==> s[i] < 128
}

/// ASCII bytes are valid UTF-8.
pub proof fn lemma_ascii_valid(b: Seq<u8>)
    requires
        ascii(b),
    ensures
        valid_utf8(b),
    decreases b.len(),
{
    if b.len() > 0 {
        let rest = b.subrange(1, b.len() as int);
        assert(ascii(rest));
        lemma_ascii_valid(rest);
        reveal_with_fuel(valid_utf8, 1);
        assert(vstd::utf8::pop_first_scalar(b) =~= rest);
    }
}

/// Position `i` of `s` lies next to an ASCII byte (or at an end), so it
/// cannot fall inside a multi-byte character.
pub open spec fn ascii_edge(s: Seq<u8>, i: int) -> bool {
    i <= 0 || i >= s.len() || s[i] < 128 || s[i - 1] < 128
}

proof fn lemma_split_at_edge(t: Seq<u8>, i: int)
    requires
        valid_utf8(t),
        0 <= i <= t.len(),
        ascii_edge(t, i),
    ensures
        valid_utf8(t.subrange(0, i)),
        valid_utf8(t.subrange(i, t.len() as int)),
{
    broadcast use vstd::utf8::is_char_boundary_iff_not_is_continuation_byte,
        vstd::utf8::is_char_boundary_start_end_of_seq, vstd::utf8::valid_utf8_split,
        vstd::utf8::valid_utf8_concat;
    if i == 0 || i == t.len() {
        vstd::utf8::is_char_boundary_start_end_of_seq(t);
        vstd::utf8::valid_utf8_split(t, i);
    } else if t[i] < 128 {
        vstd::utf8::is_char_boundary_iff_not_is_continuation_byte(t, i);
        vstd::utf8::valid_utf8_split(t, i);
    } else {
        vstd::utf8::is_char_boundary_iff_not_is_continuation_byte(t, i - 1);
        vstd::utf8::valid_utf8_split(t, i - 1);
        let u = t.subrange(i - 1, t.len() as int);
        reveal_with_fuel(valid_utf8, 1);
        assert(vstd::utf8::pop_first_scalar(u) =~= t.subrange(i, t.len() as int));
        let one = t.subrange(i - 1, i);
        assert(one =~= seq![t[i - 1]]);
        lemma_ascii_valid(one);
        vstd::utf8::valid_utf8_concat(t.subrange(0, i - 1), one);
        assert(t.subrange(0, i - 1) + one =~= t.subrange(0, i));
    }
}

/// A span of valid UTF-8 whose ends lie next to ASCII bytes is valid.
pub proof fn lemma_valid_span(s: Seq<u8>, p: int, a: int, b: int)
    requires
        0 <= p <= a <= b <= s.len(),
        valid_utf8(s.subrange(p, s.len() as int)),
        a == p || ascii_edge(s, a),
        b == p || ascii_edge(s, b),
    ensures
        valid_utf8(s.subrange(a, b)),
{
    let t = s.subrange(p, s.len() as int);
    assert(ascii_edge(t, b - p));
    lemma_split_at_edge(t, b - p);
    let u = t.subrange(0, b - p);
    assert(u =~= s.subrange(p, b));
    if a < b {
        assert(ascii_edge(u, a - p));
    }
    lemma_split_at_edge(u, a - p);
    assert(u.subrange(a - p, u.len() as int) =~= s.subrange(a, b));
}

/// Relies on `String::from_utf8`: it succeeds exactly on valid UTF-8 and
/// then holds the decoded characters.
#[verifier::external_body]
pub(crate) fn decode_bytes(bytes: Vec<u8>) -> (r: Option<String>)
    ensures
        r is Some <==> valid_utf8(bytes@),
        r matches Some(s) ==> s@ == decode_utf8(bytes@),
{
    String::from_utf8(bytes).ok()
}

/// Decodes the bytes of a textual span; invalid UTF-8 is the parse's one
/// fatal error.
pub(crate) fn decode_span(bytes: Vec<u8>) -> (r: Result<String, MarkdownError>)
    ensures
        r is Ok <==> valid_utf8(bytes@),
        r matches Ok(s) ==> s@ == decode_utf8(bytes@),
{
    match decode_bytes(bytes) {
        Some(s) => Ok(s),
        None => Err(MarkdownError::ParseError(String::from_str("invalid UTF-8 in a text span"))),
    }
}

/// A streaming parser over one byte buffer: each call of `next` yields one
/// block.
pub struct MarkdownParser<'a> {
    cur: Cursor<'a>,
    event_queue: VecDeque<Block>,
    config: MarkdownConfig,
}

impl<'a> MarkdownParser<'a> {
    /// The bytes being parsed.
    pub closed spec fn buffer(&self) -> Seq<u8> {
        self.cur.data()
    }

    /// The offset of the next byte to read.
    pub closed spec fn pos(&self) -> int {
        self.cur.pos()
    }

    /// Blocks already produced and waiting to be handed out.
    pub closed spec fn queue(&self) -> Seq<Block> {
        self.event_queue@
    }

    pub closed spec fn spec_config(&self) -> MarkdownConfig {
        self.config
    }

    pub open spec fn wf(&self) -> bool {
        0 <= self.pos() <= self.buffer().len()
    }

    /// Every block waiting in the queue is well formed.
    pub open spec fn queue_wf(&self) -> bool {
        forall|k: int| 0 <= k < self.queue().len() ==> block_wf(#[trigger] self.queue()[k])
    }

    /// `next` parses the same buffer with the same options as `self`.
    pub open spec fn same_source(&self, next: &Self) -> bool {
        &&& next.buffer() == self.buffer()
        &&& next.spec_config() == self.spec_config()
        &&& next.wf()
    }

    /// `next` differs from `self` only in its position.
    pub open spec fn moved(&self, next: &Self) -> bool {
        &&& self.same_source(next)
        &&& next.queue() == self.queue()
    }

    /// What every block production promises: the buffer and the options
    /// stay, `NoParse` and `End` leave the cursor where it was (a production
    /// that does not apply rolls back), and a block comes with progress and
    /// with its texts' chunks merged.
    pub open spec fn block_step(&self, next: &Self, r: Result<ParseResult<Block>, MarkdownError>) -> bool {
        &&& self.same_source(next)
        &&& (r matches Ok(ParseResult::NoParse) ==> next.pos() == self.pos())
        &&& (r matches Ok(ParseResult::End) ==> next.pos() == self.pos())
        &&& (r matches Ok(ParseResult::Success(b)) ==> block_wf(b) && next.pos() > self.pos())
    }

    /// The byte at `i`.
    pub open spec fn at(&self, i: int) -> u8 {
        self.buffer()[i]
    }

    pub fn new(buffer: &'a [u8]) -> (r: MarkdownParser<'a>)
        ensures
            r.buffer() == buffer@,
            r.pos() == 0,
            r.queue().len() == 0,
            r.spec_config() == (MarkdownConfig { trim_newlines: true }),
            r.wf(),
            r.queue_wf(),
    {
        MarkdownParser {
            cur: Cursor::new(buffer),
            event_queue: VecDeque::new(),
            config: MarkdownConfig::default(),
        }
    }

    pub fn with_config(self, config: MarkdownConfig) -> (r: MarkdownParser<'a>)
        ensures
            r.buffer() == self.buffer(),
            r.pos() == self.pos(),
            r.queue() == self.queue(),
            r.spec_config() == config,
            self.queue_wf() ==> r.queue_wf(),
    {
        MarkdownParser { config, ..self }
    }

    /// A fresh parser over `buffer` with the options of this one.
    pub fn fork<'b>(&self, buffer: &'b [u8]) -> (r: MarkdownParser<'b>)
        ensures
            r.buffer() == buffer@,
            r.pos() == 0,
            r.queue().len() == 0,
            r.spec_config() == self.spec_config(),
            r.wf(),
            r.queue_wf(),
    {
        MarkdownParser { cur: Cursor::new(buffer), event_queue: VecDeque::new(), config: self.config }
    }

    /// The next block: a queued one first, else one parsed from the buffer.
    /// `Ok(None)` is the clean end of the input.
    pub fn next(&mut self) -> (r: Result<Option<Block>, MarkdownError>)
        ensures
            old(self).same_source(final(self)),
            r is Ok ==> final(self).pos() >= old(self).pos(),
            old(self).queue().len() == 0 && !blank_rest(old(self).buffer(), old(self).pos())
                ==> owed_detail(
                old(self).buffer(),
                after_blank_lines(old(self).buffer(), old(self).pos()),
                as_step(r),
                final(self).pos(),
                final(self).queue() == old(self).queue(),
                old(self).spec_config().trim_newlines,
            ),
            old(self).queue().len() == 0 && !blank_rest(old(self).buffer(), old(self).pos())
                ==> dispatch_owed(
                old(self).buffer(),
                after_blank_lines(old(self).buffer(), old(self).pos()),
                as_step(r),
            ),
            r matches Ok(Some(_)) ==> final(self).pos() == old(self).pos() || at_line_start(
                old(self).buffer(),
                final(self).pos(),
            ),
            valid_utf8(old(self).buffer().subrange(old(self).pos(), old(self).buffer().len() as int))
                ==> r is Ok,
            ascii_from(old(self).buffer(), old(self).pos()) ==> r is Ok,
            old(self).queue_wf() ==> final(self).queue_wf(),
            old(self).queue_wf() ==> (r matches Ok(Some(b)) ==> block_wf(b)),
            r matches Ok(Some(_)) ==> final(self).pos() > old(self).pos() || (final(self).pos()
                == old(self).pos() && final(self).queue().len() < old(self).queue().len()),
            old(self).queue().len() > 0 ==> r == Ok::<Option<Block>, MarkdownError>(
                Some(old(self).queue()[0]),
            ) && final(self).queue() == old(self).queue().drop_first() && final(self).pos() == old(
                self,
            ).pos(),
            (r matches Ok(None)) <==> (old(self).queue().len() == 0 && blank_rest(
                old(self).buffer(),
                old(self).pos(),
            )),
            r matches Ok(None) ==> final(self).pos() == old(self).pos() && final(self).queue().len()
                == 0,
        decreases old(self).buffer().len(), 9nat,
    {
        self.cur.position();
        match self.event_queue.pop_front() {
            Some(b) => {
                assert(self.queue() =~= old(self).queue().subrange(1, old(self).queue().len() as int));
                assert(old(self).queue_wf() ==> block_wf(old(self).queue()[0]));
                proof {
                    if old(self).queue_wf() {
                        assert forall|k: int| 0 <= k < self.queue().len() implies block_wf(
                            #[trigger] self.queue()[k],
                        ) by {
                            assert(self.queue()[k] == old(self).queue()[k + 1]);
                        }
                    }
                }
                Ok(Some(b))
            },
            None => match self.parse_block() {
                Ok(ParseResult::Success(b)) => Ok(Some(b)),
                Ok(_) => Ok(None),
                Err(e) => Err(e),
            },
        }
    }

    /// Every remaining block, in order.
    pub fn read_all(&mut self) -> (r: Result<Document, MarkdownError>)
        ensures
            old(self).same_source(final(self)),
            old(self).queue_wf() ==> (r matches Ok(d) ==> document_wf(d@)),
            r matches Ok(d) ==> (d.len() == 0 <==> (old(self).queue().len() == 0 && blank_rest(
                old(self).buffer(),
                old(self).pos(),
            ))),
            valid_utf8(old(self).buffer().subrange(old(self).pos(), old(self).buffer().len() as int))
                ==> r is Ok,
            ascii_from(old(self).buffer(), old(self).pos()) ==> r is Ok,

            old(self).queue().len() == 0 && blank_rest(old(self).buffer(), old(self).pos()) ==> (r matches Ok(
                d,
            ) && d.len() == 0),
            r is Ok ==> final(self).queue().len() == 0 && blank_rest(final(self).buffer(), final(self).pos()),
            old(self).queue().len() == 0 && !blank_rest(old(self).buffer(), old(self).pos()) ==> (r matches Ok(
                d,
            ) ==> d.len() >= 1 && first_block(
                old(self).buffer(),
                after_blank_lines(old(self).buffer(), old(self).pos()),
                d@[0],
                owed_end(old(self).buffer(), after_blank_lines(old(self).buffer(), old(self).pos())),
                owed_kept(old(self).buffer(), after_blank_lines(old(self).buffer(), old(self).pos())),
                old(self).spec_config().trim_newlines,
                d.len() as int,
            )),
        decreases old(self).buffer().len(), 10nat,
    {
        let mut doc: Vec<Block> = Vec::new();
        self.cur.position();
        let ghost s = self.buffer();
        let ghost q0 = after_blank_lines(s, self.pos());
        let ghost trim = self.spec_config().trim_newlines;
        let ghost first = old(self).queue().len() == 0 && !blank_rest(s, old(self).pos());
        let ghost mut e1: int = 0;
        let ghost mut k1: bool = false;
        loop
            invariant
                s == self.buffer(),
                trim == self.spec_config().trim_newlines,
                first == (old(self).queue().len() == 0 && !blank_rest(s, old(self).pos())),
                0 <= old(self).pos(),
                q0 == after_blank_lines(s, old(self).pos()),
                first && doc.len() >= 1 ==> owed_detail(s, q0, Ok(ParseResult::Success(doc@[0])), e1, k1, trim)
                    && (k1 && blank_rest(s, e1) ==> doc.len() == 1 && self.pos() == e1
                    && self.queue().len() == 0),
                old(self).same_source(self),
                old(self).pos() <= self.pos(),
                doc.len() == 0 ==> self.pos() == old(self).pos() && self.queue() == old(self).queue(),
                valid_utf8(old(self).buffer().subrange(old(self).pos(), old(self).buffer().len() as int))
                    ==> valid_utf8(self.buffer().subrange(self.pos(), self.buffer().len() as int)),
                old(self).queue_wf() ==> self.queue_wf() && document_wf(doc@),
                old(self).queue().len() == 0 && blank_rest(old(self).buffer(), old(self).pos()) ==> doc.len()
                    == 0 && self.queue().len() == 0 && self.pos() == old(self).pos(),
            decreases self.buffer().len() - self.pos(), self.queue().len(),
        {
            let ghost before = self.pos();
            match self.next() {
                Ok(Some(b)) => {
                    proof {
                        if valid_utf8(self.buffer().subrange(before, self.buffer().len() as int)) && self.pos()
                            != before {
                            lemma_valid_span(self.buffer(), before, self.pos(), self.buffer().len() as int);
                        }
                        if old(self).queue_wf() {
                            assert forall|k: int| 0 <= k < doc@.push(b).len() implies block_wf(
                                #[trigger] doc@.push(b)[k],
                            ) by {
                                if k < doc.len() {
                                    assert(doc@.push(b)[k] == doc@[k]);
                                }
                            }
                        }
                    }
                    proof {
                        if doc.len() == 0 {
                            e1 = self.pos();
                            k1 = self.queue() == old(self).queue();
                        }
                    }
                    doc.push(b);
                },
                Ok(None) => {
                    proof {
                        if first {
                            assert(doc.len() >= 1);
                            assert(owed_detail(s, q0, Ok(ParseResult::Success(doc@[0])), e1, k1, trim));
                            assert(!blank_rest(s, old(self).pos()));
                            assert(k1 && blank_rest(s, e1) ==> doc.len() as int == 1);
                            lemma_owed_canonical(
                                s,
                                old(self).pos(),
                                q0,
                                doc@[0],
                                e1,
                                k1,
                                trim,
                                doc.len() as int,
                            );
                            assert(first_block(
                                s,
                                q0,
                                doc@[0],
                                owed_end(s, q0),
                                owed_kept(s, q0),
                                trim,
                                doc.len() as int,
                            ));
                        }
                    }
                    return Ok(doc);
                },
                Err(e) => {
                    return Err(e);
                },
            }
        }
    }

    pub(crate) fn enqueue_event(&mut self, block: Block)
        requires
            block_wf(block),
        ensures
            old(self).same_source(final(self)),
            final(self).pos() == old(self).pos(),
            final(self).queue() == old(self).queue().push(block),
            old(self).queue_wf() ==> final(self).queue_wf(),
    {
        self.cur.position();
        self.event_queue.push_back(block);
        proof {
            if old(self).queue_wf() {
                assert forall|k: int| 0 <= k < self.queue().len() implies block_wf(
                    #[trigger] self.queue()[k],
                ) by {
                    if k < old(self).queue().len() {
                        assert(self.queue()[k] == old(self).queue()[k]);
                    }
                }
            }
        }
    }

    /// Consumes a line of spaces and its newline.
    pub fn try_parse_empty_line(&mut self) -> (r: ParseResult<()>)
        ensures
            old(self).moved(final(self)),
            r is Success <==> blank_line_at(old(self).buffer(), old(self).pos()),
            r is End <==> blank_tail_at(old(self).buffer(), old(self).pos()),
            r is Success ==> final(self).pos() > old(self).pos(),
            final(self).pos() == if r is Success {
                line_end(old(self).buffer(), old(self).pos()) + 1
            } else {
                old(self).pos()
            },
    {
        self.cur.position();
        let ghost s = self.buffer();
        let ghost p = self.pos();
        proof {
            lemma_line_end(s, p);
        }
        let m = self.cur.mark();
        loop
            invariant
                old(self).moved(self),
                p == old(self).pos(),
                0 <= p,
                m.spec_pos() == p,
                p <= self.pos() <= s.len(),
                s == self.buffer(),
                line_end(s, p) == line_end(s, self.pos()),
                all_spaces(s, p, self.pos()),
            decreases s.len() - self.pos(),
        {
            let ghost q = self.pos();
            proof {
                lemma_line_end(s, q);
            }
            match self.cur.next_byte() {
                Some(b) => {
                    if b == NEWLINE {
                        m.cancel();
                        return ParseResult::Success(());
                    } else if b != SPACE {
                        m.reset(&mut self.cur);
                        return ParseResult::NoParse;
                    }
                },
                None => {
                    m.reset(&mut self.cur);
                    return ParseResult::End;
                },
            }
        }
    }

    /// Steps over up to three leading spaces.
    pub fn try_skip_initial_spaces(&mut self) -> (r: ParseResult<()>)
        ensures
            old(self).moved(final(self)),
            r is Success <==> (space_run(old(self).buffer(), old(self).pos()) < 4 && old(self).pos()
                + space_run(old(self).buffer(), old(self).pos()) < old(self).buffer().len()),
            r is End <==> (space_run(old(self).buffer(), old(self).pos()) <= 4 && old(self).pos()
                + space_run(old(self).buffer(), old(self).pos()) == old(self).buffer().len()),
            final(self).pos() == if r is Success {
                old(self).pos() + space_run(old(self).buffer(), old(self).pos())
            } else {
                old(self).pos()
            },
            final(self).pos() >= old(self).pos(),
            r is End ==> blank_rest(old(self).buffer(), old(self).pos()),
    {
        self.cur.position();
        let ghost s = self.buffer();
        let ghost p = self.pos();
        proof {
            lemma_space_run(s, p);
        }
        let mut n: usize = 0;
        let m = self.cur.mark();
        while self.cur.available()
            invariant
                old(self).moved(self),
                p == old(self).pos(),
                0 <= p,
                m.spec_pos() == p,
                self.pos() == p + n,
                n <= 4,
                s == self.buffer(),
                space_run(s, p) == n + space_run(s, self.pos()),
            decreases s.len() - self.pos(),
        {
            proof {
                lemma_space_run(s, self.pos());
            }
            if n >= 4 {
                m.reset(&mut self.cur);
                return ParseResult::NoParse;
            }
            if self.cur.current() == SPACE {
                n = n + 1;
                self.cur.next();
            } else {
                m.cancel();
                return ParseResult::Success(());
            }
        }
        m.reset(&mut self.cur);
        ParseResult::End
    }

    /// Consumes `expected` if it is the next byte.
    pub fn try_read_char(&mut self, expected: u8) -> (r: ParseResult<()>)
        ensures
            final(self).queue() == old(self).queue(),
            final(self).spec_config() == old(self).spec_config(),
            final(self).buffer() == old(self).buffer(),
            final(self).wf(),
            r is Success <==> (old(self).pos() < old(self).buffer().len() && old(self).at(old(self).pos()) == expected),
            r is End <==> old(self).pos() == old(self).buffer().len(),
            final(self).pos() == if r is Success { old(self).pos() + 1 } else { old(self).pos() },
    {
        self.cur.position();
        match self.cur.next_byte() {
            Some(c) => {
                if c == expected {
                    ParseResult::Success(())
                } else {
                    self.cur.prev();
                    ParseResult::NoParse
                }
            },
            None => ParseResult::End,
        }
    }

    /// Whether the next `n` bytes are all `c`.
    pub fn lookahead_chars(&self, n: usize, c: u8) -> (r: bool)
        ensures
            r == (self.pos() + n <= self.buffer().len() && forall|j: int|
                self.pos() <= j < self.pos() + n ==> self.at(j) == c),
    {
        self.cur.position();
        let buf = self.cur.buffer();
        let p = self.cur.position();
        let len = buf.len();
        let mut i: usize = 0;
        while i < n
            invariant
                buf@ == self.buffer(),
                p == self.pos(),
                len == buf@.len(),
                p <= len,
                0 <= i <= n,
                p + i <= len,
                forall|j: int| p <= j < p + i ==> self.at(j) == c,
            decreases n - i,
        {
            if p + i >= len {
                return false;
            }
            if buf[p + i] != c {
                assert(self.at(p + i) != c);
                return false;
            }
            i = i + 1;
        }
        true
    }

    /// Copies the rest of the line, newline included, onto `dest`.
    pub fn read_line_to(&mut self, dest: &mut Vec<u8>) -> (r: ParseResult<()>)
        ensures
            old(self).moved(final(self)),
            ({
                let s = old(self).buffer();
                let p = old(self).pos();
                &&& r is End <==> p == s.len()
                &&& !(r is NoParse)
                &&& final(self).pos() == if r is End { p } else { next_line(s, p) }
                &&& final(dest)@ == old(dest)@ + s.subrange(p, final(self).pos())
                &&& if r is End { final(self).pos() == p } else { final(self).pos() > p }
            }),
    {
        self.cur.position();
        let ghost s = self.buffer();
        let ghost p = self.pos();
        proof {
            lemma_line_end(s, p);
        }
        if !self.cur.available() {
            assert(s.subrange(p, p) =~= Seq::<u8>::empty());
            assert(dest@ + s.subrange(p, p) =~= dest@);
            return ParseResult::End;
        }
        loop
            invariant
                old(self).moved(self),
                p == old(self).pos(),
                0 <= p,
                p <= self.pos() < s.len(),
                s == self.buffer(),
                line_end(s, p) == line_end(s, self.pos()),
                dest@ == old(dest)@ + s.subrange(p, self.pos()),
            decreases s.len() - self.pos(),
        {
            let ghost q = self.pos();
            let c = self.cur.current();
            self.cur.next();
            dest.push(c);
            assert(s.subrange(p, q + 1) =~= s.subrange(p, q).push(c));
            if c == NEWLINE {
                assert(line_end(s, q) == q);
                return ParseResult::Success(());
            }
            if !self.cur.available() {
                assert(line_end(s, q + 1) == s.len());
                return ParseResult::Success(());
            }
        }
    }

    /// Steps over the rest of the line, newline included.
    pub fn read_line(&mut self) -> (r: ParseResult<()>)
        ensures
            old(self).moved(final(self)),
            ({
                let s = old(self).buffer();
                let p = old(self).pos();
                &&& r is End <==> p == s.len()
                &&& !(r is NoParse)
                &&& final(self).pos() == if r is End { p } else { next_line(s, p) }
                &&& if r is End { final(self).pos() == p } else { final(self).pos() > p }
            }),
    {
        self.cur.position();
        let ghost s = self.buffer();
        let ghost p = self.pos();
        proof {
            lemma_line_end(s, p);
        }
        if !self.cur.available() {
            return ParseResult::End;
        }
        loop
            invariant
                old(self).moved(self),
                p == old(self).pos(),
                0 <= p,
                p <= self.pos() < s.len(),
                s == self.buffer(),
                line_end(s, p) == line_end(s, self.pos()),
            decreases s.len() - self.pos(),
        {
            let ghost q = self.pos();
            let c = self.cur.current();
            self.cur.next();
            if c == NEWLINE {
                assert(line_end(s, q) == q);
                return ParseResult::Success(());
            }
            if !self.cur.available() {
                assert(line_end(s, q + 1) == s.len());
                return ParseResult::Success(());
            }
        }
    }

    /// Steps over the bytes that `m` matches.
    pub fn skip<M: ByteMatcher>(&mut self, m: M) -> (r: ParseResult<()>)
        ensures
            old(self).moved(final(self)),
            ({
                let s = old(self).buffer();
                let p = old(self).pos();
                &&& r is End <==> p == s.len()
                &&& !(r is NoParse)
                &&& final(self).pos() == matched_run_end(s, p, m)
                &&& p <= final(self).pos()
            }),
    {
        self.cur.position();
        let ghost s = self.buffer();
        let ghost p = self.pos();
        proof {
            lemma_matched_run_end(s, p, m);
        }
        if !self.cur.available() {
            return ParseResult::End;
        }
        while self.cur.available()
            invariant
                old(self).moved(self),
                p == old(self).pos(),
                0 <= p,
                p < s.len(),
                p <= self.pos() <= s.len(),
                s == self.buffer(),
                matched_run_end(s, p, m) == matched_run_end(s, self.pos(), m),
            decreases s.len() - self.pos(),
        {
            if m.matches(self.cur.current()) {
                self.cur.next();
            } else {
                return ParseResult::Success(());
            }
        }
        ParseResult::Success(())
    }

    pub fn skip_spaces(&mut self) -> (r: ParseResult<()>)
        ensures
            old(self).moved(final(self)),
            r is End <==> old(self).pos() == old(self).buffer().len(),
            !(r is NoParse),
            final(self).pos() == old(self).pos() + space_run(old(self).buffer(), old(self).pos()),
            final(self).pos() >= old(self).pos(),
    {
        self.cur.position();
        proof {
            lemma_space_run_matched(self.buffer(), self.pos());
        }
        self.skip(SPACE)
    }

    pub fn skip_spaces_and_newlines(&mut self) -> (r: ParseResult<()>)
        ensures
            old(self).moved(final(self)),
            r is End <==> old(self).pos() == old(self).buffer().len(),
            !(r is NoParse),
            final(self).pos() == blank_run_end(old(self).buffer(), old(self).pos()),
            final(self).pos() >= old(self).pos(),
    {
        self.cur.position();
        let set: [u8; 2] = [SPACE, NEWLINE];
        let m: &[u8] = set.as_slice();
        proof {
            assert forall|b: u8| m.spec_matches(b) == (b == SPACE || b == NEWLINE) by {
                if b == SPACE {
                    assert(m@[0] == b);
                }
                if b == NEWLINE {
                    assert(m@[1] == b);
                }
            }
            lemma_blank_run_matched(self.buffer(), self.pos(), m);
        }
        self.skip(m)
    }
}

/// The first position at or after `p` that holds neither a space nor a newline.
pub open spec fn blank_run_end(s: Seq<u8>, p: int) -> int
    decreases s.len() - p,
{
    if 0 <= p < s.len() && (s[p] == SPACE || s[p] == NEWLINE) {
        blank_run_end(s, p + 1)
    } else {
        p
    }
}

/// Stepping over blank bytes ends just after a blank byte, or where it began.
pub proof fn lemma_blank_run_end(s: Seq<u8>, p: int)
    requires
        0 <= p,
    ensures
        blank_run_end(s, p) >= p,
        blank_run_end(s, p) > p ==> s[blank_run_end(s, p) - 1] == SPACE || s[blank_run_end(s, p) - 1]
            == NEWLINE,
    decreases s.len() - p,
{
    if 0 <= p < s.len() && (s[p] == SPACE || s[p] == NEWLINE) {
        lemma_blank_run_end(s, p + 1);
    }
}

proof fn lemma_blank_run_matched<M: ByteMatcher>(s: Seq<u8>, p: int, m: M)
    requires
        forall|b: u8| m.spec_matches(b) == (b == SPACE || b == NEWLINE),
    ensures
        blank_run_end(s, p) == matched_run_end(s, p, m),
    decreases s.len() - p,
{
    if 0 <= p < s.len() && (s[p] == SPACE || s[p] == NEWLINE) {
        lemma_blank_run_matched(s, p + 1, m);
    }
}

proof fn lemma_space_run_matched(s: Seq<u8>, p: int)
    requires
        0 <= p,
    ensures
        p + space_run(s, p) == matched_run_end(s, p, SPACE),
    decreases s.len() - p,
{
    if 0 <= p < s.len() && s[p] == SPACE {
        lemma_space_run_matched(s, p + 1);
    }
}

} // verus!
