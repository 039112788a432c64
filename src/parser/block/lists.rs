use vstd::prelude::*;

use super::{after_blank_lines, lemma_after_blank_lines};
use crate::parser::{
    blank_line_at, blank_tail_at, lemma_line_end, lemma_line_end_skip, line_end, next_line,
    ascii, ascii_from, at_line_start, lemma_ascii_valid, lemma_next_line_start, lemma_space_run,
    lemma_valid_span, space_run, MarkdownParser, ParseResult,
};
use vstd::utf8::valid_utf8;
use crate::result::MarkdownError;
use crate::tokens::{document_wf, lemma_lists_wf, Block, Document};
use crate::util::{
    CharOps, CLOSE_PAREN, DASH, DIGIT_NINE, DIGIT_ZERO, DOT, NEWLINE, PLUS, SPACE, STAR,
};

verus! {

/// The kind of list that the items read so far belong to.
#[derive(Clone, Copy, PartialEq, Eq, Debug)]
pub enum ListItemInfo {
    Ordered { start: usize },
    Unordered { marker: u8 },
    Unknown,
}

/// The number of digits that start at `i`.
pub open spec fn digit_run(s: Seq<u8>, i: int) -> int
    decreases s.len() - i,
{
    if 0 <= i < s.len() && DIGIT_ZERO <= s[i] <= DIGIT_NINE {
        1 + digit_run(s, i + 1)
    } else {
        0
    }
}

proof fn lemma_digit_run(s: Seq<u8>, i: int)
    ensures
        digit_run(s, i) >= 0,
    decreases s.len() - i,
{
    if 0 <= i < s.len() && DIGIT_ZERO <= s[i] <= DIGIT_NINE {
        lemma_digit_run(s, i + 1);
    }
}

/// The value of the `d` digits at `i`.
pub open spec fn digits_value(s: Seq<u8>, i: int, d: int) -> int
    decreases d,
{
    if d <= 0 {
        0
    } else {
        digits_value(s, i, d - 1) * 10 + (s[i + d - 1] - DIGIT_ZERO)
    }
}

/// Ten to the power `d`, for the digit counts a marker may have.
pub open spec fn digits_bound(d: int) -> int {
    if d <= 1 {
        10
    } else if d == 2 {
        100
    } else if d == 3 {
        1000
    } else if d == 4 {
        10000
    } else if d == 5 {
        100000
    } else if d == 6 {
        1000000
    } else if d == 7 {
        10000000
    } else if d == 8 {
        100000000
    } else {
        1000000000
    }
}

/// A marker may end the line or be followed by a space or a newline.
pub open spec fn marker_end_ok(s: Seq<u8>, j: int) -> bool {
    j >= s.len() || s[j] == SPACE || s[j] == NEWLINE
}

/// Where the marker of a line at `p` would start: after up to three spaces.
pub open spec fn marker_start(s: Seq<u8>, p: int) -> int {
    p + space_run(s, p)
}

pub open spec fn marker_is_ordered(s: Seq<u8>, p: int) -> bool {
    let i = marker_start(s, p);
    0 <= i < s.len() && DIGIT_ZERO <= s[i] <= DIGIT_NINE
}

/// The number an ordered marker at the line `p` starts with.
pub open spec fn ordered_start(s: Seq<u8>, p: int) -> int {
    let i = marker_start(s, p);
    digits_value(s, i, digit_run(s, i))
}

/// The line at `p` starts a list item: up to three spaces, then one of `*`,
/// `-`, `+`, or one to nine digits and `.` or `)`, then a space, a newline
/// or the end.
pub open spec fn list_marker_at(s: Seq<u8>, p: int) -> bool {
    let k = space_run(s, p);
    let i = p + k;
    let d = digit_run(s, i);
    &&& k < 4
    &&& i < s.len()
    &&& ((s[i] == STAR || s[i] == DASH || s[i] == PLUS) && marker_end_ok(s, i + 1) || 1 <= d <= 9
        && i + d < s.len() && (s[i + d] == DOT || s[i + d] == CLOSE_PAREN) && marker_end_ok(
        s,
        i + d + 1,
    ))
}

/// Where the marker of the item line at `p` ends.
pub open spec fn marker_end(s: Seq<u8>, p: int) -> int {
    let i = marker_start(s, p);
    if marker_is_ordered(s, p) {
        i + digit_run(s, i) + 1
    } else {
        i + 1
    }
}

/// Where the content of the item line at `p` starts: after the marker and
/// one optional space.
pub open spec fn content_start(s: Seq<u8>, p: int) -> int {
    let j = marker_end(s, p);
    if j < s.len() && s[j] == SPACE {
        j + 1
    } else {
        j
    }
}

/// Where an item ends whose lines so far end at `x`: at the first blank
/// line, line that starts an item, or the end.
pub open spec fn item_tail_end(s: Seq<u8>, x: int) -> int
    decreases s.len() - x,
{
    if x < 0 || x >= s.len() || blank_line_at(s, x) || blank_tail_at(s, x) || list_marker_at(s, x) {
        x
    } else if next_line(s, x) > x {
        item_tail_end(s, next_line(s, x))
    } else {
        x
    }
}

/// Where the item whose marker line starts at `x` ends.
pub open spec fn item_end(s: Seq<u8>, x: int) -> int {
    item_tail_end(s, next_line(s, content_start(s, x)))
}

/// Where a list goes on after an item that ended at `y`: past the items of
/// the same kind (`ordered`) that follow, blank lines between them allowed.
pub open spec fn list_rest_end(s: Seq<u8>, y: int, ordered: bool) -> int
    decreases s.len() - y,
{
    let z = after_blank_lines(s, y);
    if 0 <= y <= z && list_marker_at(s, z) && marker_is_ordered(s, z) == ordered && y < item_end(s, z)
        <= s.len() {
        list_rest_end(s, item_end(s, z), ordered)
    } else {
        y
    }
}

/// How many items of kind `ordered` follow an item that ended at `y`.
pub open spec fn list_rest_count(s: Seq<u8>, y: int, ordered: bool) -> int
    decreases s.len() - y,
{
    let z = after_blank_lines(s, y);
    if 0 <= y <= z && list_marker_at(s, z) && marker_is_ordered(s, z) == ordered && y < item_end(s, z)
        <= s.len() {
        1 + list_rest_count(s, item_end(s, z), ordered)
    } else {
        0
    }
}

/// Whether an item of kind `info` may follow items of kind `current`.
pub open spec fn same_kind(current: ListItemInfo, info: ListItemInfo) -> bool {
    match current {
        ListItemInfo::Unknown => true,
        ListItemInfo::Ordered { .. } => info is Ordered,
        ListItemInfo::Unordered { .. } => info is Unordered,
    }
}

/// Parses ordered and unordered lists.
///
/// An item is up to three spaces, a marker (one to nine digits and `.` or `)`, or one of
/// `*`, `-`, `+`) followed by a space, a newline or the end, then the rest of
/// the line. The lines after it that are neither blank nor start an item
/// belong to it, with up to four leading spaces removed. Blank lines between
/// items of one kind keep the list going; an item of the other kind ends it.
/// The item's lines are parsed as a document of their own.
pub trait ListsParser: Sized {
    fn parse_list(&mut self) -> Result<ParseResult<Block>, MarkdownError>;
}

impl<'a> ListsParser for MarkdownParser<'a> {
    fn parse_list(&mut self) -> (r: Result<ParseResult<Block>, MarkdownError>)
        ensures
            old(self).block_step(final(self), r),
            final(self).queue() == old(self).queue(),
            !(r matches Ok(ParseResult::End)),
            valid_utf8(old(self).buffer().subrange(old(self).pos(), old(self).buffer().len() as int))
                ==> r is Ok,
            r matches Ok(ParseResult::Success(_)) ==> at_line_start(old(self).buffer(), final(self).pos()),
            ascii_from(old(self).buffer(), old(self).pos()) ==> r is Ok,

            r matches Ok(ParseResult::Success(b)) ==> b is OrderedList || b is UnorderedList,
            (r matches Ok(ParseResult::Success(_)) || r is Err) <==> list_marker_at(
                old(self).buffer(),
                old(self).pos(),
            ),
            r matches Ok(ParseResult::Success(b)) ==> (b is OrderedList <==> marker_is_ordered(
                old(self).buffer(),
                old(self).pos(),
            )),
            r matches Ok(ParseResult::Success(Block::OrderedList { start_index, .. })) ==> start_index
                == ordered_start(old(self).buffer(), old(self).pos()),
            ({
                let s = old(self).buffer();
                let p = old(self).pos();
                let ord = marker_is_ordered(s, p);
                let first_end = item_end(s, p);
                r matches Ok(ParseResult::Success(b)) ==> {
                    let n = if b is OrderedList { b->OrderedList_items.len() } else { b->UnorderedList_items.len() };
                    &&& final(self).pos() == list_rest_end(s, first_end, ord)
                    &&& n == 1 + list_rest_count(s, first_end, ord)
                }
            }),
            r matches Ok(ParseResult::Success(b)) ==> (b is OrderedList ==> b->OrderedList_items.len()
                >= 1) && (b is UnorderedList ==> b->UnorderedList_items.len() >= 1),
        decreases old(self).buffer().len(), 6nat,
    {
        let start = self.cur.position();
        let mut items: Vec<Document> = Vec::new();
        let mut current = ListItemInfo::Unknown;
        loop
            invariant
                old(self).moved(self),
                start == old(self).pos(),
                start <= self.pos(),
                current is Unknown <==> self.pos() == start,
                current is Unknown <==> items.len() == 0,
                forall|k: int| 0 <= k < items.len() ==> document_wf(#[trigger] items@[k]@),
                ascii_from(self.buffer(), start as int) ==> ascii_from(self.buffer(), self.pos()),
                !(current is Unknown) ==> at_line_start(self.buffer(), self.pos()),
                !(current is Unknown) ==> list_marker_at(self.buffer(), start as int) && (current is Ordered
                    <==> marker_is_ordered(self.buffer(), start as int)),
                current matches ListItemInfo::Ordered { start: v } ==> v == ordered_start(
                    self.buffer(),
                    start as int,
                ),
                !(current is Unknown) ==> list_rest_end(self.buffer(), item_end(self.buffer(), start as int), marker_is_ordered(self.buffer(), start as int))
                    == list_rest_end(self.buffer(), self.pos(), marker_is_ordered(self.buffer(), start as int))
                    && items.len() + list_rest_count(self.buffer(), self.pos(), marker_is_ordered(self.buffer(), start as int))
                    == 1 + list_rest_count(self.buffer(), item_end(self.buffer(), start as int), marker_is_ordered(self.buffer(), start as int)),
            ensures
                !(current is Unknown) ==> self.pos() == list_rest_end(self.buffer(), item_end(self.buffer(), start as int), marker_is_ordered(self.buffer(), start as int))
                    && items.len() == 1 + list_rest_count(self.buffer(), item_end(self.buffer(), start as int), marker_is_ordered(self.buffer(), start as int)),
                old(self).moved(self),
                start == old(self).pos(),
                start <= self.pos(),
                current is Unknown <==> self.pos() == start,
                current is Unknown <==> items.len() == 0,
                current is Unknown ==> !list_marker_at(self.buffer(), start as int),
                !(current is Unknown) ==> at_line_start(self.buffer(), self.pos()),
                forall|k: int| 0 <= k < items.len() ==> document_wf(#[trigger] items@[k]@),
                !(current is Unknown) ==> list_marker_at(self.buffer(), start as int) && (current is Ordered
                    <==> marker_is_ordered(self.buffer(), start as int)),
                current matches ListItemInfo::Ordered { start: v } ==> v == ordered_start(
                    self.buffer(),
                    start as int,
                ),
            decreases self.buffer().len() - self.pos(),
        {
            proof {
                if valid_utf8(self.buffer().subrange(start as int, self.buffer().len() as int)) {
                    lemma_valid_span(self.buffer(), start as int, self.pos(), self.buffer().len() as int);
                }
            }
            let ghost y = self.pos();
            proof {
                lemma_after_blank_lines(self.buffer(), y);
            }
            let m = self.cur.mark();
            match self.parse_list_item(current) {
                Ok(ParseResult::Success((doc, info))) => {
                    m.cancel();
                    proof {
                        assert forall|k: int| 0 <= k < items@.push(doc).len() implies document_wf(
                            #[trigger] items@.push(doc)[k]@,
                        ) by {
                            if k < items.len() {
                                assert(items@.push(doc)[k] == items@[k]);
                            }
                        }
                    }
                    items.push(doc);
                    if let ListItemInfo::Unknown = current {
                        current = info;
                    }
                },
                Ok(_) => {
                    m.reset(&mut self.cur);
                    break ;
                },
                Err(e) => {
                    return Err(e);
                },
            }
        }
        proof {
            lemma_lists_wf(0, items);
        }
        match current {
            ListItemInfo::Unknown => Ok(ParseResult::NoParse),
            ListItemInfo::Ordered { start } => {
                proof {
                    lemma_lists_wf(start, items);
                }
                Ok(ParseResult::Success(Block::OrderedList { start_index: start, items }))
            },
            ListItemInfo::Unordered { .. } => Ok(ParseResult::Success(Block::UnorderedList { items })),
        }
    }
}

impl<'a> MarkdownParser<'a> {
    /// Reads an item marker after up to three spaces, or nothing.
    fn list_marker(&mut self) -> (r: Option<ListItemInfo>)
        ensures
            old(self).moved(final(self)),
            r is None ==> final(self).pos() == old(self).pos(),
            r is Some ==> final(self).pos() > old(self).pos() && !(r->Some_0 is Unknown),
            r is Some <==> list_marker_at(old(self).buffer(), old(self).pos()),
            r is Some ==> final(self).pos() >= 1 && final(self).buffer()[final(self).pos() - 1] < 128,
            r is Some ==> final(self).pos() == marker_end(old(self).buffer(), old(self).pos()),
            r matches Some(info) ==> (info is Ordered <==> marker_is_ordered(
                old(self).buffer(),
                old(self).pos(),
            )),
            r matches Some(ListItemInfo::Ordered { start }) ==> start == ordered_start(
                old(self).buffer(),
                old(self).pos(),
            ),
    {
        let p = self.cur.position();
        let ghost s = self.buffer();
        proof {
            lemma_space_run(s, p as int);
        }
        let m = self.cur.mark();
        if !self.try_skip_initial_spaces().is_success() {
            m.cancel();
            return None;
        }
        let i = self.cur.position();
        let info = match self.cur.next_byte() {
            Some(b) => {
                if b.is_numeric() {
                    let mut value: usize = (b - DIGIT_ZERO) as usize;
                    let mut digits: usize = 1;
                    let mut closed = false;
                    proof {
                        reveal_with_fuel(digits_value, 2);
                        reveal_with_fuel(digit_run, 2);
                        lemma_digit_run(s, i + 1);
                    }
                    loop
                        invariant_except_break
                            self.pos() == i + digits,
                            digit_run(s, i as int) == digits + digit_run(s, self.pos()),
                            !closed,
                            value < digits_bound(digits as int),
                        invariant
                            old(self).moved(self),
                            s == self.buffer(),
                            m.spec_pos() == old(self).pos(),
                            i < self.pos(),
                            1 <= digits <= 9,
                            value == digits_value(s, i as int, digits as int),
                        ensures
                            digit_run(s, i as int) == digits || digit_run(s, i as int) >= 10,
                            old(self).moved(self),
                            s == self.buffer(),
                            m.spec_pos() == old(self).pos(),
                            i < self.pos(),
                            1 <= digits <= 9,
                            value == digits_value(s, i as int, digits as int),
                            closed <==> (digit_run(s, i as int) == digits && i + digits < s.len()
                                && (s[i + digits] == DOT || s[i + digits] == CLOSE_PAREN)),
                            closed ==> self.pos() == i + digits + 1,
                        decreases self.buffer().len() - self.pos(),
                    {
                        let ghost q = self.pos();
                        proof {
                            lemma_digit_run(s, q);
                        }
                        match self.cur.next_byte() {
                            Some(c) => {
                                if c.is_numeric() && digits < 9 {
                                    value = value * 10 + (c - DIGIT_ZERO) as usize;
                                    digits = digits + 1;
                                } else {
                                    closed = c == DOT || c == CLOSE_PAREN;
                                    break ;
                                }
                            },
                            None => {
                                break ;
                            },
                        }
                    }
                    if closed {
                        Some(ListItemInfo::Ordered { start: value })
                    } else {
                        None
                    }
                } else if b == STAR || b == DASH || b == PLUS {
                    Some(ListItemInfo::Unordered { marker: b })
                } else {
                    None
                }
            },
            None => None,
        };
        match info {
            Some(i) => {
                match self.cur.current_byte() {
                    Some(c) => {
                        if c == SPACE || c == NEWLINE {
                            m.cancel();
                            Some(i)
                        } else {
                            m.reset(&mut self.cur);
                            None
                        }
                    },
                    None => {
                        m.cancel();
                        Some(i)
                    },
                }
            },
            None => {
                m.reset(&mut self.cur);
                None
            },
        }
    }

    /// Reads one item of a list whose items so far are of kind `current`.
    fn parse_list_item(&mut self, current: ListItemInfo) -> (r: Result<
        ParseResult<(Document, ListItemInfo)>,
        MarkdownError,
    >)
        ensures
            old(self).moved(final(self)),
            r matches Ok(ParseResult::Success((d, info))) ==> document_wf(d@) && !(info is Unknown)
                && same_kind(current, info) && final(self).pos() > old(self).pos(),
            r matches Ok(ParseResult::NoParse) ==> final(self).pos() == old(self).pos(),
            r matches Ok(ParseResult::End) ==> final(self).pos() == old(self).pos(),
            valid_utf8(old(self).buffer().subrange(old(self).pos(), old(self).buffer().len() as int))
                ==> r is Ok,
            r matches Ok(ParseResult::Success(_)) ==> at_line_start(old(self).buffer(), final(self).pos()),
            ({
                let s = old(self).buffer();
                let p1 = if current is Unknown { old(self).pos() } else { after_blank_lines(s, old(self).pos()) };
                &&& r matches Ok(ParseResult::Success(_)) ==> final(self).pos() == item_end(s, p1)
                &&& !(current is Unknown) ==> ((r matches Ok(ParseResult::Success(_)) || r is Err) <==> (
                list_marker_at(s, p1) && (marker_is_ordered(s, p1) <==> current is Ordered)))
            }),
            current is Unknown ==> ((r matches Ok(ParseResult::Success(_)) || r is Err) <==> list_marker_at(
                old(self).buffer(),
                old(self).pos(),
            )),
            current is Unknown && r is Ok && r->Ok_0 is Success ==> {
                let info = r->Ok_0->Success_0.1;
                &&& (info is Ordered <==> marker_is_ordered(old(self).buffer(), old(self).pos()))
                &&& (info matches ListItemInfo::Ordered { start } ==> start == ordered_start(
                    old(self).buffer(),
                    old(self).pos(),
                ))
            },
            ascii_from(old(self).buffer(), old(self).pos()) ==> r is Ok,
        decreases old(self).buffer().len(), 5nat,
    {
        let start = self.cur.position();
        let m = self.cur.mark();
        let first = match current {
            ListItemInfo::Unknown => true,
            _ => false,
        };
        if !first {
            while self.try_parse_empty_line().is_success()
                invariant
                    old(self).moved(self),
                    start == old(self).pos(),
                    start <= self.pos(),
                    after_blank_lines(self.buffer(), start as int) == after_blank_lines(
                        self.buffer(),
                        self.pos(),
                    ),
                decreases self.buffer().len() - self.pos(),
            {
            }
        }
        let info = match self.list_marker() {
            Some(info) => info,
            None => {
                m.reset(&mut self.cur);
                return Ok(ParseResult::NoParse);
            },
        };
        let fits = match current {
            ListItemInfo::Unknown => true,
            ListItemInfo::Ordered { .. } => match info {
                ListItemInfo::Ordered { .. } => true,
                _ => false,
            },
            ListItemInfo::Unordered { .. } => match info {
                ListItemInfo::Unordered { .. } => true,
                _ => false,
            },
        };
        if !fits {
            m.reset(&mut self.cur);
            return Ok(ParseResult::NoParse);
        }
        m.cancel();
        let body = self.cur.position();
        let ghost s = self.buffer();
        let ghost p1 = if first { start as int } else { after_blank_lines(s, start as int) };
        let ghost valid = valid_utf8(s.subrange(start as int, s.len() as int));
        self.try_read_char(SPACE);
        let mut buf: Vec<u8> = Vec::new();
        let ghost from = self.pos();
        proof {
            lemma_ascii_valid(buf@);
            lemma_next_line_start(s, from);
        }
        assert(from == content_start(s, p1));
        self.read_line_to(&mut buf);
        proof {
            if valid {
                lemma_valid_span(s, start as int, from, self.pos());
                assert(buf@ =~= s.subrange(from, self.pos()));
            }
        }
        let ghost first_tail = self.pos() as int;
        assert(first_tail == next_line(s, from));
        loop
            invariant_except_break
                item_tail_end(s, self.pos()) == item_tail_end(s, first_tail),
            invariant
                first_tail == next_line(s, content_start(s, p1)),
                old(self).moved(self),
                start == old(self).pos(),
                start < body <= self.pos(),
                buf@.len() <= self.pos() - body,
                ascii_from(self.buffer(), start as int) ==> ascii(buf@),
                s == self.buffer(),
                valid == valid_utf8(s.subrange(start as int, s.len() as int)),
                valid ==> valid_utf8(buf@),
                at_line_start(s, self.pos()),
            ensures
                self.pos() == item_tail_end(s, first_tail),
                old(self).moved(self),
                start < body <= self.pos(),
                buf@.len() <= self.pos() - body,
                ascii_from(self.buffer(), start as int) ==> ascii(buf@),
                s == self.buffer(),
                valid ==> valid_utf8(buf@),
                at_line_start(s, self.pos()),
            decreases self.buffer().len() - self.pos(),
        {
            proof {
                lemma_line_end(s, self.pos());
            }
            if !self.cur.available() {
                break ;
            }
            let line = self.cur.mark();
            let blank = self.try_parse_empty_line();
            if blank.is_success() || blank.is_end() {
                line.reset(&mut self.cur);
                break ;
            }
            if self.list_marker().is_some() {
                line.reset(&mut self.cur);
                break ;
            }
            line.cancel();
            let ghost line_start = self.pos();
            let ghost before = buf@;
            let mut k: usize = 0;
            while k < 4 && self.cur.current_byte() == Some(SPACE)
                invariant
                    old(self).moved(self),
                    line_start <= self.pos(),
                    start < body <= self.pos(),
                    buf@.len() <= self.pos() - body,
                    ascii_from(self.buffer(), start as int) ==> ascii(buf@),
                    s == self.buffer(),
                    buf@ == before,
                    self.pos() == line_start || s[self.pos() - 1] == SPACE,
                    forall|j: int| line_start <= j < self.pos() ==> s[j] == SPACE,
                decreases 4 - k,
            {
                self.cur.next();
                k = k + 1;
            }
            let ghost piece = self.pos();
            proof {
                lemma_next_line_start(s, piece);
                lemma_line_end_skip(s, line_start, piece);
            }
            self.read_line_to(&mut buf);
            proof {
                if valid {
                    assert(line_start > start);
                    lemma_valid_span(s, start as int, piece, self.pos());
                    vstd::utf8::valid_utf8_concat(before, s.subrange(piece, self.pos()));
                    assert(buf@ =~= before + s.subrange(piece, self.pos()));
                }
            }
        }
        match self.parse_list_item_content(buf.as_slice()) {
            Ok(doc) => Ok(ParseResult::Success((doc, info))),
            Err(e) => Err(e),
        }
    }

    /// Parses the gathered lines of an item as a document.
    fn parse_list_item_content(&self, content: &[u8]) -> (r: Result<Document, MarkdownError>)
        requires
            content@.len() < self.buffer().len(),
        ensures
            r matches Ok(d) ==> document_wf(d@),
            ascii(content@) ==> r is Ok,
            valid_utf8(content@) ==> r is Ok,
        decreases self.buffer().len(), 4nat,
    {
        let mut sub = self.fork(content);
        assert(ascii(content@) ==> ascii_from(sub.buffer(), 0));
        assert(sub.buffer().subrange(0, sub.buffer().len() as int) =~= sub.buffer());
        sub.read_all()
    }
}

} // verus!
