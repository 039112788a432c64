use vstd::prelude::*;

use vstd::slice::slice_to_vec;

use super::{chunk_bytes, plain, plain_text_of, InlineParser};
use crate::parser::{
    ascii, ascii_from, blank_run_end, decode_span, lemma_ascii_valid, lemma_blank_run_end,
    lemma_valid_span, MarkdownParser, ParseResult,
};
use vstd::utf8::valid_utf8;
use vstd::utf8::decode_utf8;
use crate::result::MarkdownError;
use crate::tokens::{inline_wf, lemma_link_wf, Inline};
use crate::util::{
    ByteMatcher, ByteSliceOps, BACKSLASH, CLOSE_BRACKET, CLOSE_PAREN, DOUBLE_QUOTE, GREATER, LESS, NEWLINE,
    OPEN_BRACKET, OPEN_PAREN, SINGLE_QUOTE, SPACE,
};

verus! {

/// Where the label that starts at `i` closes: the `]` that brings the
/// bracket depth below zero, escaped bytes stepped over.
pub open spec fn label_close(s: Seq<u8>, i: int, depth: nat, escaping: bool) -> Option<int>
    decreases s.len() - i,
{
    if i < 0 || i >= s.len() {
        None
    } else if escaping {
        label_close(s, i + 1, depth, false)
    } else if s[i] == BACKSLASH {
        label_close(s, i + 1, depth, true)
    } else if s[i] == OPEN_BRACKET {
        label_close(s, i + 1, depth + 1, false)
    } else if s[i] == CLOSE_BRACKET {
        if depth == 0 {
            Some(i)
        } else {
            label_close(s, i + 1, (depth - 1) as nat, false)
        }
    } else {
        label_close(s, i + 1, depth, false)
    }
}

/// After the label that closes at `e` (and any blank space) comes a
/// destination part: `(` or `[`.
pub open spec fn has_destination(s: Seq<u8>, e: int) -> bool {
    let after = blank_run_end(s, e + 1);
    after < s.len() && (s[after] == OPEN_PAREN || s[after] == OPEN_BRACKET)
}

/// The text of a link, or the alt text of an image.
pub open spec fn link_text(i: Inline) -> Seq<Inline> {
    match i {
        Inline::Link { text: Some(t), .. } => t@,
        Inline::Image { alt, .. } => alt@,
        _ => Seq::empty(),
    }
}

/// The first `]` at or after `i`, or the end.
pub open spec fn bracket_close(s: Seq<u8>, i: int) -> int
    decreases s.len() - i,
{
    if i < 0 || i >= s.len() || s[i] == CLOSE_BRACKET {
        if i < 0 { 0 } else { i }
    } else {
        bracket_close(s, i + 1)
    }
}

/// Where the destination of an inline link that starts at `i` ends: the
/// `)` that closes the bracket depth, or a quote after a blank (a title
/// starts there); escaped bytes are stepped over. The end when none comes.
pub open spec fn dest_close(s: Seq<u8>, i: int, depth: nat) -> int
    decreases s.len() - i,
{
    if i < 0 || i >= s.len() {
        s.len() as int
    } else if s[i] == BACKSLASH {
        if i + 1 >= s.len() {
            s.len() as int
        } else {
            dest_close(s, i + 2, depth)
        }
    } else if s[i] == OPEN_PAREN {
        dest_close(s, i + 1, depth + 1)
    } else if s[i] == CLOSE_PAREN {
        if depth == 0 {
            i
        } else {
            dest_close(s, i + 1, (depth - 1) as nat)
        }
    } else if (s[i] == SINGLE_QUOTE || s[i] == DOUBLE_QUOTE) && i >= 1 && (s[i - 1] == SPACE || s[i
        - 1] == NEWLINE) {
        i
    } else {
        dest_close(s, i + 1, depth)
    }
}

/// The first byte `c` at or after `i` that no backslash escapes, or the end.
pub open spec fn unescaped(s: Seq<u8>, i: int, c: u8) -> int
    decreases s.len() - i,
{
    if i < 0 || i >= s.len() {
        s.len() as int
    } else if s[i] == BACKSLASH {
        if i + 1 >= s.len() {
            s.len() as int
        } else {
            unescaped(s, i + 2, c)
        }
    } else if s[i] == c {
        i
    } else {
        unescaped(s, i + 1, c)
    }
}

/// `b` without its trailing spaces and newlines.
pub open spec fn trim_blank_end(b: Seq<u8>) -> Seq<u8>
    decreases b.len(),
{
    if b.len() > 0 && (b.last() == SPACE || b.last() == NEWLINE) {
        trim_blank_end(b.drop_last())
    } else {
        b
    }
}

/// A destination as written: trailing blanks dropped, then one `<` at the
/// start and one `>` at the end.
pub open spec fn trim_dest(b: Seq<u8>) -> Seq<u8> {
    let b1 = trim_blank_end(b);
    let b2 = if b1.len() > 0 && b1[0] == LESS { b1.subrange(1, b1.len() as int) } else { b1 };
    if b2.len() > 0 && b2.last() == GREATER {
        b2.subrange(0, b2.len() - 1)
    } else {
        b2
    }
}

proof fn lemma_trim_blank_end(b: Seq<u8>, k: int)
    requires
        0 <= k <= b.len(),
        forall|j: int| k <= j < b.len() ==> b[j] == SPACE || b[j] == NEWLINE,
        k > 0 ==> !(b[k - 1] == SPACE || b[k - 1] == NEWLINE),
    ensures
        trim_blank_end(b) == b.subrange(0, k),
    decreases b.len(),
{
    if b.len() > 0 && (b.last() == SPACE || b.last() == NEWLINE) {
        assert(k < b.len());
        lemma_trim_blank_end(b.drop_last(), k);
        assert(b.drop_last().subrange(0, k) =~= b.subrange(0, k));
    } else {
        if k < b.len() {
            assert(b[b.len() - 1] == SPACE || b[b.len() - 1] == NEWLINE);
        }
        assert(b.subrange(0, k) =~= b);
    }
}

/// An inline link's `(` follows the label that closes at `e`.
pub open spec fn inline_opens(s: Seq<u8>, e: int) -> bool {
    let after = blank_run_end(s, e + 1);
    after < s.len() && s[after] == OPEN_PAREN
}

/// ... and its destination, and its title if any, close before the end.
pub open spec fn inline_closes(s: Seq<u8>, e: int) -> bool {
    let ds = blank_run_end(s, blank_run_end(s, e + 1) + 1);
    let d = dest_close(s, ds, 0);
    d < s.len() && (s[d] == CLOSE_PAREN || (unescaped(s, d + 1, s[d]) < s.len() && unescaped(
        s,
        unescaped(s, d + 1, s[d]) + 1,
        CLOSE_PAREN,
    ) < s.len()))
}

/// A reference link's `[` follows the label that closes at `e`, and a `]`
/// closes it.
pub open spec fn reference_closes(s: Seq<u8>, e: int) -> bool {
    let after = blank_run_end(s, e + 1);
    after < s.len() && s[after] == OPEN_BRACKET && bracket_close(s, after + 1) < s.len()
}

/// The destination, title and id of a link or image node.
pub open spec fn link_fields(i: Inline) -> (Option<String>, Option<String>, Option<String>) {
    match i {
        Inline::Link { link, title, id, .. } => (link, title, id),
        Inline::Image { link, title, id, .. } => (link, title, id),
        _ => (None, None, None),
    }
}

/// Reads a link or an image after its opening `[`.
pub trait LinkParser: Sized {
    fn parse_link(&mut self, is_image: bool) -> Result<Option<Inline>, MarkdownError>;
}

/// Decodes an optional span of `buf`.
fn decode_opt(buf: &[u8], span: Option<(usize, usize)>) -> (r: Result<
    Option<String>,
    MarkdownError,
>)
    requires
        span matches Some((a, b)) ==> a <= b <= buf@.len(),
    ensures
        span is None ==> r == Ok::<Option<String>, MarkdownError>(None),
        span is Some ==> !(r matches Ok(None)),
        span matches Some((a, b)) && ascii(buf@.subrange(a as int, b as int)) ==> r is Ok,
        span matches Some((a, b)) && valid_utf8(buf@.subrange(a as int, b as int)) ==> r is Ok,
        r matches Ok(Some(t)) ==> span matches Some((a, b)) && t@ == decode_utf8(
            buf@.subrange(a as int, b as int),
        ),
{
    proof {
        if let Some((a, b)) = span {
            if ascii(buf@.subrange(a as int, b as int)) {
                lemma_ascii_valid(buf@.subrange(a as int, b as int));
            }
        }
    }
    match span {
        Some((a, b)) => match decode_span(slice_to_vec(&buf[a..b])) {
            Ok(s) => Ok(Some(s)),
            Err(e) => Err(e),
        },
        None => Ok(None),
    }
}

impl<'a> LinkParser for MarkdownParser<'a> {
    /// The label runs to the matching `]`. An inline link `(dest "title")`
    /// sets the destination and title; a reference link `[id]` or a shortcut
    /// link sets the id (the label itself when the id is empty or absent).
    /// `None`: the input ended before the link did.
    fn parse_link(&mut self, is_image: bool) -> (r: Result<Option<Inline>, MarkdownError>)
        ensures
            old(self).moved(final(self)),
            r matches Ok(Some(i)) ==> inline_wf(i) && final(self).pos() > old(self).pos(),
            r matches Ok(Some(i)) ==> (if is_image { i is Image } else { i is Link }),
            ascii_from(old(self).buffer(), old(self).pos()) ==> r is Ok,
            valid_utf8(old(self).buffer().subrange(old(self).pos(), old(self).buffer().len() as int))
                ==> r is Ok,
            r matches Ok(Some(_)) ==> final(self).pos() >= 1 && final(self).buffer()[final(self).pos()
                - 1] < 128,
            ({
                let s = old(self).buffer();
                let p = old(self).pos();
                let close = label_close(s, p, 0, false);
                &&& close is None ==> r == Ok::<Option<Inline>, MarkdownError>(None)
                &&& r matches Ok(Some(_)) ==> close is Some
                &&& (close is Some && inline_opens(s, close->Some_0) && inline_closes(s, close->Some_0))
                    ==> (r is Ok ==> r->Ok_0 is Some)
                &&& (close is Some && reference_closes(s, close->Some_0)) ==> (r is Ok ==> r->Ok_0 is Some)
                &&& r matches Ok(Some(i)) ==> (plain(s.subrange(p, close->Some_0)) ==> plain_text_of(
                    link_text(i),
                    chunk_bytes(s.subrange(p, close->Some_0), old(self).spec_config().trim_newlines),
                ))
                &&& ({
                    let after = blank_run_end(s, close->Some_0 + 1);
                    let ds = blank_run_end(s, after + 1);
                    let d = dest_close(s, ds, 0);
                    (close is Some && after < s.len() && s[after] == OPEN_PAREN) ==> (r matches Ok(Some(i)) ==> {
                        let (l, t, x) = link_fields(i);
                        &&& d < s.len()
                        &&& x is None
                        &&& l matches Some(v) && v@ == decode_utf8(trim_dest(s.subrange(ds, d)))
                        &&& s[d] == CLOSE_PAREN ==> t is None && final(self).pos() == d + 1
                        &&& s[d] != CLOSE_PAREN ==> {
                            let tc = unescaped(s, d + 1, s[d]);
                            &&& t matches Some(y) && y@ == decode_utf8(s.subrange(d + 1, tc))
                            &&& final(self).pos() == unescaped(s, tc + 1, CLOSE_PAREN) + 1
                        }
                    })
                })
                &&& ({
                    let after = blank_run_end(s, close->Some_0 + 1);
                    let j = bracket_close(s, after + 1);
                    (close is Some && after < s.len() && s[after] == OPEN_BRACKET) ==> (r matches Ok(Some(i)) ==> {
                        let (l, t, d) = link_fields(i);
                        &&& l is None
                        &&& t is None
                        &&& j < s.len()
                        &&& final(self).pos() == j + 1
                        &&& d matches Some(x) && x@ == (if j > after + 1 {
                            decode_utf8(s.subrange(after + 1, j))
                        } else {
                            decode_utf8(s.subrange(p, close->Some_0))
                        })
                    })
                })
                &&& (close is Some && !has_destination(s, close->Some_0)) ==> (r is Ok ==> r->Ok_0 is Some)
                    && (r matches Ok(Some(i)) ==> {
                    let (l, t, id) = link_fields(i);
                    &&& final(self).pos() == close->Some_0 + 1
                    &&& l is None
                    &&& t is None
                    &&& id matches Some(x) && x@ == decode_utf8(s.subrange(p, close->Some_0))
                })
            }),
        decreases old(self).buffer().len(), 1nat,
    {
        let buf = self.cur.buffer();
        let len = buf.len();
        let start = self.cur.position();
        // find the matching closing bracket
        let mut escaping = false;
        let mut depth: usize = 0;
        let mut label_end: usize = start;
        loop
            invariant_except_break
                label_close(buf@, start as int, 0, false) == label_close(
                    buf@,
                    self.pos(),
                    depth as nat,
                    escaping,
                ),
            invariant
                old(self).moved(self),
                buf@ == self.buffer(),
                start == old(self).pos(),
                start <= self.pos(),
                len == buf@.len(),
                depth <= self.pos() - start,
            ensures
                start <= label_end < self.pos(),
                old(self).moved(self),
                buf@ == self.buffer(),
                label_close(buf@, start as int, 0, false) == Some(label_end as int),
                self.pos() == label_end + 1,
                buf@[label_end as int] == CLOSE_BRACKET,
            decreases buf@.len() - self.pos(),
        {
            let ghost at = self.pos();
            let c = match self.cur.next_byte() {
                Some(c) => c,
                None => {
                    return Ok(None);
                },
            };
            if escaping {
                escaping = false;
            } else if c == BACKSLASH {
                escaping = true;
            } else if c == OPEN_BRACKET {
                depth = depth + 1;
            } else if c == CLOSE_BRACKET {
                if depth == 0 {
                    label_end = self.cur.position() - 1;
                    assert(buf@[at] == c);
                    break ;
                }
                depth = depth - 1;
            }
        }
        let after_label = self.cur.mark();
        self.skip_spaces_and_newlines();
        let mut title: Option<(usize, usize)> = None;
        let id: Option<(usize, usize)>;
        match self.cur.current_byte() {
            Some(b) => {
                if b == OPEN_PAREN {
                    // inline link
                    let ghost paren = self.pos();
                    self.cur.next();
                    proof {
                        lemma_blank_run_end(buf@, paren + 1);
                    }
                    if self.skip_spaces_and_newlines().is_end() {
                        return Ok(None);
                    }
                    let dest_start = self.cur.position();
                    assert(buf@[dest_start - 1] < 128);
                    assert(inline_opens(buf@, label_end as int));
                    assert(dest_start == blank_run_end(buf@, blank_run_end(buf@, label_end + 1) + 1));
                    let mut depth: usize = 0;
                    loop
                        invariant_except_break
                            dest_close(buf@, dest_start as int, 0) == dest_close(
                                buf@,
                                self.pos(),
                                depth as nat,
                            ),
                        invariant
                            inline_opens(buf@, label_end as int),
                            dest_start == blank_run_end(buf@, blank_run_end(buf@, label_end + 1) + 1),
                            old(self).moved(self),
                            buf@ == self.buffer(),
                            1 <= dest_start <= self.pos(),
                            depth <= self.pos(),
                            start <= label_end < dest_start,
                            label_close(buf@, old(self).pos(), 0, false) == Some(label_end as int),
                            has_destination(buf@, label_end as int),
                            buf@[dest_start - 1] < 128,
                            buf@[label_end as int] == CLOSE_BRACKET,
                        ensures
                            old(self).moved(self),
                            buf@ == self.buffer(),
                            1 <= dest_start < self.pos(),
                            start <= label_end < dest_start,
                            buf@[dest_start - 1] < 128,
                            buf@[self.pos() - 1] < 128,
                            buf@[self.pos() - 1] == CLOSE_PAREN || buf@[self.pos() - 1] == SINGLE_QUOTE
                                || buf@[self.pos() - 1] == DOUBLE_QUOTE,
                            self.pos() - 1 == dest_close(buf@, dest_start as int, 0),
                            inline_opens(buf@, label_end as int),
                            dest_start == blank_run_end(buf@, blank_run_end(buf@, label_end + 1) + 1),
                            buf@[label_end as int] == CLOSE_BRACKET,
                        decreases buf@.len() - self.pos(),
                    {
                        let c = match self.cur.next_byte() {
                            Some(c) => c,
                            None => {
                                return Ok(None);
                            },
                        };
                        let now = self.cur.position();
                        assert(buf@[now - 1] == c);
                        if c == BACKSLASH {
                            self.cur.next();
                        } else if c == OPEN_PAREN {
                            depth = depth + 1;
                        } else if c == CLOSE_PAREN {
                            if depth == 0 {
                                break ;
                            }
                            depth = depth - 1;
                        } else if (c == SINGLE_QUOTE || c == DOUBLE_QUOTE) && now >= 2 && (buf[now
                            - 2] == SPACE || buf[now - 2] == NEWLINE) {
                            break ;
                        }
                    }
                    let dest_end = self.cur.position() - 1;
                    let pc = buf[dest_end];
                    if pc == SINGLE_QUOTE || pc == DOUBLE_QUOTE {
                        let title_start = self.cur.position();
                        let mut read_title = false;
                        loop
                            invariant_except_break
                                !read_title ==> title is None && unescaped(buf@, title_start as int, pc)
                                    == unescaped(buf@, self.pos(), pc),
                                read_title ==> (title matches Some((a, b)) && b == unescaped(
                                    buf@,
                                    title_start as int,
                                    pc,
                                ) && unescaped(buf@, b + 1, CLOSE_PAREN) == unescaped(
                                    buf@,
                                    self.pos(),
                                    CLOSE_PAREN,
                                )),
                            invariant
                                old(self).moved(self),
                                buf@ == self.buffer(),
                                title_start <= self.pos(),
                                title matches Some((a, b)) ==> title_start <= a <= b <= buf@.len(),
                                label_close(buf@, old(self).pos(), 0, false) == Some(label_end as int),
                                has_destination(buf@, label_end as int),
                                buf@[title_start - 1] < 128,
                                title matches Some((a, b)) ==> a == title_start && b < buf@.len()
                                    && buf@[b as int] < 128,
                                buf@[label_end as int] == CLOSE_BRACKET,
                                pc == SINGLE_QUOTE || pc == DOUBLE_QUOTE,
                                title_start == dest_end + 1,
                                inline_opens(buf@, label_end as int),
                                dest_end == dest_close(
                                    buf@,
                                    blank_run_end(buf@, blank_run_end(buf@, label_end + 1) + 1),
                                    0,
                                ),
                                pc == buf@[dest_end as int],
                            ensures
                                title matches Some((a, b)) && b == unescaped(buf@, title_start as int, pc)
                                    && self.pos() - 1 == unescaped(buf@, b + 1, CLOSE_PAREN),
                                old(self).moved(self),
                                buf@ == self.buffer(),
                                title_start <= self.pos(),
                                title matches Some((a, b)) ==> title_start <= a <= b <= buf@.len(),
                                label_close(buf@, old(self).pos(), 0, false) == Some(label_end as int),
                                has_destination(buf@, label_end as int),
                                buf@[title_start - 1] < 128,
                                title matches Some((a, b)) ==> a == title_start && b < buf@.len()
                                    && buf@[b as int] < 128,
                                self.pos() >= 1 && buf@[self.pos() - 1] == CLOSE_PAREN,
                                buf@[label_end as int] == CLOSE_BRACKET,
                            decreases buf@.len() - self.pos(),
                        {
                            let ghost at = self.pos();
                            let c = match self.cur.next_byte() {
                                Some(c) => c,
                                None => {
                                    return Ok(None);
                                },
                            };
                            if c == BACKSLASH {
                                self.cur.next();
                            } else if c == pc && !read_title {
                                assert(buf@[at] == c);
                                title = Some((title_start, self.cur.position() - 1));
                                read_title = true;
                            } else if c == CLOSE_PAREN && read_title {
                                assert(buf@[at] == c);
                                break ;
                            }
                        }
                    }
                    let spaces: [u8; 2] = [SPACE, NEWLINE];
                    let dest0: &[u8] = &buf[dest_start..dest_end];
                    let blank: &[u8] = spaces.as_slice();
                    let dest1 = dest0.trim_right(blank);
                    let dest2 = dest1.trim_left_one(LESS);
                    let dest = dest2.trim_right_one(GREATER);
                    proof {
                        let k0 = choose|k: int|
                            0 <= k <= dest0@.len() && dest1@ == dest0@.subrange(0, k) && (forall|j: int|
                                k <= j < dest0@.len() ==> blank.spec_matches(#[trigger] dest0@[j])) && (k
                                > 0 ==> !blank.spec_matches(dest0@[k - 1]));
                        assert(blank@.len() == 2 && blank@[0] == SPACE && blank@[1] == NEWLINE);
                        assert forall|x: u8| blank.spec_matches(x) == (x == SPACE || x == NEWLINE) by {
                            if x == SPACE {
                                assert(blank@[0] == x);
                            }
                            if x == NEWLINE {
                                assert(blank@[1] == x);
                            }
                        }
                        lemma_trim_blank_end(dest0@, k0);
                        assert(dest@ =~= trim_dest(dest0@));
                    }
                    proof {
                        if valid_utf8(buf@.subrange(start as int, buf@.len() as int)) {
                            lemma_valid_span(buf@, start as int, dest_start as int, dest_end as int);
                            assert(valid_utf8(dest0@.subrange(0, dest0@.len() as int))) by {
                                assert(dest0@.subrange(0, dest0@.len() as int) =~= dest0@);
                            }
                            let k = choose|k: int|
                                0 <= k <= dest0@.len() && dest1@ == dest0@.subrange(0, k) && (forall|
                                    j: int,
                                | k <= j < dest0@.len() ==> blank.spec_matches(
                                    #[trigger] dest0@[j],
                                )) && (k > 0 ==> !blank.spec_matches(dest0@[k - 1]));
                            if k < dest0@.len() {
                                assert(blank.spec_matches(dest0@[k]));
                                assert(blank@.len() == 2 && blank@[0] == SPACE && blank@[1] == NEWLINE);
                                assert(dest0@[k] < 128);
                            }
                            lemma_valid_span(dest0@, 0, 0, k);
                            assert(valid_utf8(dest1@.subrange(0, dest1@.len() as int))) by {
                                assert(dest1@.subrange(0, dest1@.len() as int) =~= dest1@);
                            }
                            if dest1@.len() > 0 && dest1@[0] == LESS {
                                lemma_valid_span(dest1@, 0, 1, dest1@.len() as int);
                            }
                            assert(valid_utf8(dest2@.subrange(0, dest2@.len() as int))) by {
                                assert(dest2@.subrange(0, dest2@.len() as int) =~= dest2@);
                            }
                            if dest2@.len() > 0 && dest2@.last() == GREATER {
                                lemma_valid_span(dest2@, 0, 0, dest2@.len() - 1);
                            }
                        }
                        if ascii_from(buf@, start as int) {
                            assert(ascii(dest@));
                            lemma_ascii_valid(dest@);
                        }
                    }
                    after_label.cancel();
                    id = None;
                    let link_text = match decode_span(slice_to_vec(dest)) {
                        Ok(s) => s,
                        Err(e) => {
                            return Err(e);
                        },
                    };
                    proof {
                        if valid_utf8(buf@.subrange(start as int, buf@.len() as int)) {
                            lemma_valid_span(buf@, start as int, start as int, label_end as int);
                            if let Some((a, b)) = title {
                                lemma_valid_span(buf@, start as int, a as int, b as int);
                            }
                        }
                    }
                    return self.finish_link(is_image, start, label_end, Some(link_text), title, id);
                } else if b == OPEN_BRACKET {
                    // reference link
                    self.cur.next();
                    let id_start = self.cur.position();
                    assert(buf@[id_start - 1] == OPEN_BRACKET);
                    assert(id_start == blank_run_end(buf@, label_end + 1) + 1);
                    loop
                        invariant_except_break
                            bracket_close(buf@, id_start as int) == bracket_close(buf@, self.pos()),
                        invariant
                            id_start == blank_run_end(buf@, label_end + 1) + 1,
                            old(self).moved(self),
                            buf@ == self.buffer(),
                            id_start <= self.pos(),
                            start <= label_end < id_start,
                            label_close(buf@, old(self).pos(), 0, false) == Some(label_end as int),
                            has_destination(buf@, label_end as int),
                            buf@[id_start - 1] == OPEN_BRACKET,
                            buf@[label_end as int] == CLOSE_BRACKET,
                        ensures
                            self.pos() - 1 == bracket_close(buf@, id_start as int),
                            old(self).moved(self),
                            buf@ == self.buffer(),
                            id_start < self.pos(),
                            start <= label_end < id_start,
                            buf@[id_start - 1] == OPEN_BRACKET,
                            buf@[self.pos() - 1] == CLOSE_BRACKET,
                            buf@[label_end as int] == CLOSE_BRACKET,
                        decreases buf@.len() - self.pos(),
                    {
                        let ghost at = self.pos();
                        match self.cur.next_byte() {
                            Some(c) => {
                                if c == CLOSE_BRACKET {
                                    assert(buf@[at] == c);
                                    break ;
                                }
                            },
                            None => {
                                return Ok(None);
                            },
                        }
                    }
                    let id_end = self.cur.position() - 1;
                    after_label.cancel();
                    if id_end > id_start {
                        id = Some((id_start, id_end));
                    } else {
                        id = Some((start, label_end));
                    }
                } else {
                    // shortcut reference link
                    after_label.reset(&mut self.cur);
                    id = Some((start, label_end));
                }
            },
            None => {
                after_label.reset(&mut self.cur);
                id = Some((start, label_end));
            },
        }
        proof {
            if valid_utf8(buf@.subrange(start as int, buf@.len() as int)) {
                lemma_valid_span(buf@, start as int, start as int, label_end as int);
                if let Some((a, b)) = id {
                    lemma_valid_span(buf@, start as int, a as int, b as int);
                }
            }
        }
        self.finish_link(is_image, start, label_end, None, title, id)
    }
}

impl<'a> MarkdownParser<'a> {
    /// Builds the node once the link's parts are known: the label is parsed
    /// as inline content, the other spans are decoded.
    fn finish_link(
        &mut self,
        is_image: bool,
        start: usize,
        label_end: usize,
        link: Option<String>,
        title: Option<(usize, usize)>,
        id: Option<(usize, usize)>,
    ) -> (r: Result<Option<Inline>, MarkdownError>)
        requires
            start <= label_end < old(self).pos(),
            title matches Some((a, b)) ==> start <= a <= b <= old(self).buffer().len(),
            id matches Some((a, b)) ==> start <= a <= b <= old(self).buffer().len(),
        ensures
            ascii_from(old(self).buffer(), start as int) ==> r is Ok,
            valid_utf8(old(self).buffer().subrange(start as int, label_end as int)) && (title matches Some(
                (a, b),
            ) ==> valid_utf8(old(self).buffer().subrange(a as int, b as int))) && (id matches Some(
                (a, b),
            ) ==> valid_utf8(old(self).buffer().subrange(a as int, b as int))) ==> r is Ok,
            old(self).moved(final(self)),
            final(self).pos() == old(self).pos(),
            r matches Ok(Some(i)) ==> inline_wf(i),
            r matches Ok(Some(i)) ==> (if is_image { i is Image } else { i is Link }),
            r is Ok ==> r->Ok_0 is Some,
            r matches Ok(Some(i)) ==> (plain(old(self).buffer().subrange(start as int, label_end as int))
                ==> plain_text_of(
                link_text(i),
                chunk_bytes(
                    old(self).buffer().subrange(start as int, label_end as int),
                    old(self).spec_config().trim_newlines,
                ),
            )),
            r matches Ok(Some(i)) ==> {
                let (l, t, d) = link_fields(i);
                &&& l == link
                &&& (title is None <==> t is None)
                &&& (t matches Some(x) ==> title matches Some((a, b)) && x@ == decode_utf8(
                    old(self).buffer().subrange(a as int, b as int),
                ))
                &&& (id is None <==> d is None)
                &&& (d matches Some(x) ==> id matches Some((a, b)) && x@ == decode_utf8(
                    old(self).buffer().subrange(a as int, b as int),
                ))
            },
        decreases old(self).buffer().len(), 0nat,
    {
        let buf = self.cur.buffer();
        self.cur.position();
        let mut sub = self.fork(&buf[start..label_end]);
        proof {
            assert(sub.buffer().subrange(0, sub.buffer().len() as int) =~= sub.buffer());
            if ascii_from(buf@, start as int) {
                assert(ascii_from(sub.buffer(), 0));
                if let Some((a, b)) = title {
                    assert(ascii(buf@.subrange(a as int, b as int)));
                }
                if let Some((a, b)) = id {
                    assert(ascii(buf@.subrange(a as int, b as int)));
                }
            }
        }
        let text = match sub.parse_inline() {
            Ok(t) => t,
            Err(e) => {
                return Err(e);
            },
        };
        let title = match decode_opt(buf, title) {
            Ok(t) => t,
            Err(e) => {
                return Err(e);
            },
        };
        let id = match decode_opt(buf, id) {
            Ok(t) => t,
            Err(e) => {
                return Err(e);
            },
        };
        proof {
            lemma_link_wf(text, link, title, id);
        }
        if is_image {
            Ok(Some(Inline::Image { alt: text, link, title, id }))
        } else {
            Ok(Some(Inline::Link { text: Some(text), link, title, id }))
        }
    }
}

} // verus!
