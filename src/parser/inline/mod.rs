use vstd::prelude::*;

pub mod emphasis;
pub mod escape;
pub mod link;

use vstd::slice::slice_to_vec;

pub use self::emphasis::EmphasisParser;
pub use self::escape::EscapeParser;
pub use self::link::LinkParser;
use self::emphasis::emph_result;
use self::escape::is_escapable;
use self::link::{has_destination, label_close, link_fields, link_text};
use super::{
    byte_run,
    ascii, ascii_edge, ascii_from, decode_span, lemma_ascii_valid, lemma_valid_span, MarkdownParser,
    ParseResult,
};
use crate::result::MarkdownError;
use crate::tokens::{lemma_leaf_wf, lemma_text_wf_push, text_wf, Inline, Text, inline_wf};
use crate::util::{BACKSLASH, BACKTICK, BANG, NEWLINE, OPEN_BRACKET, STAR, UNDERSCORE};
use vstd::utf8::{decode_utf8, valid_utf8};

verus! {

/// Bytes that may start markup in inline content.
pub open spec fn is_markup_byte(b: u8) -> bool {
    b == BACKSLASH || b == STAR || b == UNDERSCORE || b == BACKTICK || b == OPEN_BRACKET || b == BANG
}

/// Text with no byte that could start markup.
pub open spec fn plain(s: Seq<u8>) -> bool {
    forall|i: int| 0 <= i < s.len() ==> !is_markup_byte(#[trigger] s[i])
}

pub open spec fn without_trailing_newlines(s: Seq<u8>) -> Seq<u8>
    decreases s.len(),
{
    if s.len() > 0 && s.last() == NEWLINE {
        without_trailing_newlines(s.drop_last())
    } else {
        s
    }
}

/// The bytes that a plain span adds to a chunk.
pub open spec fn chunk_bytes(s: Seq<u8>, trim_newlines: bool) -> Seq<u8> {
    if trim_newlines {
        without_trailing_newlines(s)
    } else {
        s
    }
}

/// `t` is what plain text with chunk bytes `c` parses to: nothing when `c`
/// is empty, else one chunk holding the decoded bytes.
pub open spec fn plain_text_of(t: Seq<Inline>, c: Seq<u8>) -> bool {
    if c.len() == 0 {
        t.len() == 0
    } else {
        t.len() == 1 && t[0] is Chunk && t[0]->Chunk_0@ == decode_utf8(c)
    }
}

/// A piece of inline content described by the bytes it comes from.
pub enum Piece {
    /// A text chunk with these bytes.
    Chunked(Seq<u8>),
    /// An emphasis span (run length 1) or a strong one, over these bytes.
    Emphasized(int, Seq<u8>),
    /// A code span with these bytes.
    Coded(Seq<u8>),
    /// A shortcut reference link whose label has these bytes.
    Linked(Seq<u8>),
}

/// The length of the delimiter run at `i`: every backtick of the run, or one
/// or two emphasis bytes.
pub open spec fn delim_len(s: Seq<u8>, i: int) -> int {
    if s[i] == BACKTICK {
        byte_run(s, i, BACKTICK)
    } else if i + 1 < s.len() && s[i + 1] == s[i] {
        2
    } else {
        1
    }
}

/// The pieces that inline content from `i` on gives, with a plain span open
/// since `pm` and the bytes `acc` gathered for the current chunk. `None`
/// where a link opens (its label closes) or where an emphasis scan meets a
/// link: those are described elsewhere.
#[verifier::opaque]
pub open spec fn inline_rest(s: Seq<u8>, i: int, pm: int, acc: Seq<u8>, trim: bool) -> Option<Seq<Piece>>
    decreases s.len() - i,
{
    if i < 0 || pm < 0 || pm > i || i >= s.len() {
        let a = acc + chunk_bytes(s.subrange(pm, s.len() as int), trim);
        Some(if a.len() == 0 { Seq::empty() } else { seq![Piece::Chunked(a)] })
    } else {
        let c = s[i];
        let a = acc + chunk_bytes(s.subrange(pm, i), trim);
        if c == BACKSLASH {
            if i + 1 < s.len() && is_escapable(s[i + 1]) {
                inline_rest(s, i + 2, i + 2, a + seq![s[i + 1]], trim)
            } else {
                inline_rest(s, i + 1, pm, acc, trim)
            }
        } else if c == STAR || c == UNDERSCORE || c == BACKTICK {
            let n = delim_len(s, i);
            if n < 1 || i + n > s.len() {
                None
            } else {
                match emph_result(s, i + n, c, n) {
                    None => None,
                    Some(None) => inline_rest(s, i + n, i, a, trim),
                    Some(Some(k)) => if i < k + n <= s.len() {
                        let tok = if c == BACKTICK {
                            Piece::Coded(s.subrange(i + n, k))
                        } else {
                            Piece::Emphasized(n, s.subrange(i + n, k))
                        };
                        let head = if a.len() == 0 { Seq::empty() } else { seq![Piece::Chunked(a)] };
                        match inline_rest(s, k + n, k + n, Seq::empty(), trim) {
                            Some(rest) => Some(head + seq![tok] + rest),
                            None => None,
                        }
                    } else {
                        None
                    },
                }
            }
        } else if c == OPEN_BRACKET {
            match label_close(s, i + 1, 0, false) {
                None => inline_rest(s, i + 1, i, a, trim),
                Some(e) => if !has_destination(s, e) && i < e < s.len() {
                    let head = if a.len() == 0 { Seq::empty() } else { seq![Piece::Chunked(a)] };
                    match inline_rest(s, e + 1, e + 1, Seq::empty(), trim) {
                        Some(rest) => Some(head + seq![Piece::Linked(s.subrange(i + 1, e))] + rest),
                        None => None,
                    }
                } else {
                    None
                },
            }
        } else if c == BANG && i + 1 < s.len() && s[i + 1] == OPEN_BRACKET {
            if label_close(s, i + 2, 0, false) is None {
                inline_rest(s, i + 2, i, a, trim)
            } else {
                None
            }
        } else {
            inline_rest(s, i + 1, pm, acc, trim)
        }
    }
}

/// The step of `inline_rest` at `i` for a byte that starts nothing.
proof fn lemma_rest_plain(s: Seq<u8>, i: int, pm: int, acc: Seq<u8>, trim: bool)
    requires
        0 <= pm <= i < s.len(),
        s[i] != BACKSLASH && s[i] != STAR && s[i] != UNDERSCORE && s[i] != BACKTICK && s[i]
            != OPEN_BRACKET,
        !(s[i] == BANG && i + 1 < s.len() && s[i + 1] == OPEN_BRACKET),
    ensures
        inline_rest(s, i, pm, acc, trim) == inline_rest(s, i + 1, pm, acc, trim),
{
    reveal(inline_rest);
}

/// The step at a backslash.
proof fn lemma_rest_escape(s: Seq<u8>, i: int, pm: int, acc: Seq<u8>, trim: bool)
    requires
        0 <= pm <= i < s.len(),
        s[i] == BACKSLASH,
    ensures
        inline_rest(s, i, pm, acc, trim) == if i + 1 < s.len() && is_escapable(s[i + 1]) {
            inline_rest(
                s,
                i + 2,
                i + 2,
                acc + chunk_bytes(s.subrange(pm, i), trim) + seq![s[i + 1]],
                trim,
            )
        } else {
            inline_rest(s, i + 1, pm, acc, trim)
        },
{
    reveal(inline_rest);
}

/// The step at a delimiter run.
proof fn lemma_rest_delim(s: Seq<u8>, i: int, pm: int, acc: Seq<u8>, trim: bool)
    requires
        0 <= pm <= i < s.len(),
        s[i] == STAR || s[i] == UNDERSCORE || s[i] == BACKTICK,
    ensures
        ({
            let c = s[i];
            let a = acc + chunk_bytes(s.subrange(pm, i), trim);
            let n = delim_len(s, i);
            inline_rest(s, i, pm, acc, trim) == if n < 1 || i + n > s.len() {
                None
            } else {
                match emph_result(s, i + n, c, n) {
                    None => None,
                    Some(None) => inline_rest(s, i + n, i, a, trim),
                    Some(Some(k)) => if i < k + n <= s.len() {
                        let tok = if c == BACKTICK {
                            Piece::Coded(s.subrange(i + n, k))
                        } else {
                            Piece::Emphasized(n, s.subrange(i + n, k))
                        };
                        let head = if a.len() == 0 { Seq::empty() } else { seq![Piece::Chunked(a)] };
                        match inline_rest(s, k + n, k + n, Seq::empty(), trim) {
                            Some(rest) => Some(head + seq![tok] + rest),
                            None => None,
                        }
                    } else {
                        None
                    },
                }
            }
        }),
{
    reveal(inline_rest);
}

/// The step at `!` before `[`.
proof fn lemma_rest_bracket(s: Seq<u8>, i: int, pm: int, acc: Seq<u8>, trim: bool)
    requires
        0 <= pm <= i < s.len(),
        s[i] == BANG && i + 1 < s.len() && s[i + 1] == OPEN_BRACKET,
    ensures
        inline_rest(s, i, pm, acc, trim) == if label_close(s, i + 2, 0, false) is None {
            inline_rest(s, i + 2, i, acc + chunk_bytes(s.subrange(pm, i), trim), trim)
        } else {
            None
        },
{
    reveal(inline_rest);
}

/// The step at `[`.
proof fn lemma_rest_link(s: Seq<u8>, i: int, pm: int, acc: Seq<u8>, trim: bool)
    requires
        0 <= pm <= i < s.len(),
        s[i] == OPEN_BRACKET,
    ensures
        ({
            let a = acc + chunk_bytes(s.subrange(pm, i), trim);
            inline_rest(s, i, pm, acc, trim) == match label_close(s, i + 1, 0, false) {
                None => inline_rest(s, i + 1, i, a, trim),
                Some(e) => if !has_destination(s, e) && i < e < s.len() {
                    let head = if a.len() == 0 { Seq::empty() } else { seq![Piece::Chunked(a)] };
                    match inline_rest(s, e + 1, e + 1, Seq::empty(), trim) {
                        Some(rest) => Some(head + seq![Piece::Linked(s.subrange(i + 1, e))] + rest),
                        None => None,
                    }
                } else {
                    None
                },
            }
        }),
{
    reveal(inline_rest);
}

/// The end of the content.
pub proof fn lemma_rest_end(s: Seq<u8>, pm: int, acc: Seq<u8>, trim: bool)
    requires
        0 <= pm <= s.len(),
    ensures
        ({
            let a = acc + chunk_bytes(s.subrange(pm, s.len() as int), trim);
            inline_rest(s, s.len() as int, pm, acc, trim) == Some(if a.len() == 0 {
                Seq::empty()
            } else {
                seq![Piece::Chunked(a)]
            })
        }),
{
    reveal(inline_rest);
}

proof fn lemma_pieces_push(
    t0: Seq<Inline>,
    done: Seq<Piece>,
    t: Seq<Inline>,
    a: Seq<u8>,
    tok: Piece,
    trim: bool,
)
    requires
        pieces_match(t0, done, trim),
        t.len() >= 1,
        t.subrange(0, t0.len() as int) == t0,
        a.len() == 0 ==> t.len() == t0.len() + 1,
        a.len() > 0 ==> t.len() == t0.len() + 2 && t[t0.len() as int] is Chunk && t[t0.len() as int]->Chunk_0@
            == decode_utf8(a),
        piece_matches(t.last(), tok, trim),
    ensures
        pieces_match(
            t,
            done + (if a.len() == 0 { Seq::empty() } else { seq![Piece::Chunked(a)] }) + seq![tok],
            trim,
        ),
{
    let nd = done + (if a.len() == 0 { Seq::empty() } else { seq![Piece::Chunked(a)] }) + seq![tok];
    assert forall|j: int| 0 <= j < t.len() implies piece_matches(#[trigger] t[j], nd[j], trim) by {
        if j < t0.len() {
            assert(t[j] == t.subrange(0, t0.len() as int)[j]);
        }
    }
}

proof fn lemma_pieces_chunk(t0: Seq<Inline>, done: Seq<Piece>, t: Seq<Inline>, a: Seq<u8>, trim: bool)
    requires
        pieces_match(t0, done, trim),
        a.len() == 0 ==> t == t0,
        a.len() > 0 ==> t.len() == t0.len() + 1 && t.drop_last() == t0 && t.last() is Chunk
            && t.last()->Chunk_0@ == decode_utf8(a),
    ensures
        pieces_match(t, done + (if a.len() == 0 { Seq::empty() } else { seq![Piece::Chunked(a)] }), trim),
{
    let nd = done + (if a.len() == 0 { Seq::empty() } else { seq![Piece::Chunked(a)] });
    assert forall|j: int| 0 <= j < t.len() implies piece_matches(#[trigger] t[j], nd[j], trim) by {
        if j < t0.len() && a.len() > 0 {
            assert(t[j] == t.drop_last()[j]);
        }
    }
}

/// The scan so far agrees with `inline_rest`: the pieces `done` are out,
/// and the rest follows from the current state.
spec fn rest_ok(
    ir0: Option<Seq<Piece>>,
    done: Seq<Piece>,
    s: Seq<u8>,
    pos: int,
    pm: int,
    pending: Seq<u8>,
    tokens: Seq<Inline>,
    trim: bool,
) -> bool {
    ir0 is Some ==> inline_rest(s, pos, pm, pending, trim) is Some && ir0->Some_0 == done
        + inline_rest(s, pos, pm, pending, trim)->Some_0 && pieces_match(tokens, done, trim)
}

/// Node `t` is what piece `pc` describes.
pub open spec fn piece_matches(t: Inline, pc: Piece, trim: bool) -> bool {
    match pc {
        Piece::Chunked(b) => t is Chunk && t->Chunk_0@ == decode_utf8(b),
        Piece::Emphasized(n, body) => if n == 1 {
            t is Emphasis && (plain(body) ==> plain_text_of(t->Emphasis_0@, chunk_bytes(body, trim)))
        } else {
            t is MoreEmphasis && (plain(body) ==> plain_text_of(
                t->MoreEmphasis_0@,
                chunk_bytes(body, trim),
            ))
        },
        Piece::Coded(b) => t is Code && t->Code_0@ == decode_utf8(b),
        Piece::Linked(label) => {
            let (l, ti, id) = link_fields(t);
            &&& t is Link
            &&& l is None
            &&& ti is None
            &&& id matches Some(x) && x@ == decode_utf8(label)
            &&& plain(label) ==> plain_text_of(link_text(t), chunk_bytes(label, trim))
        },
    }
}

/// Text `t` consists of the pieces `ps`, in order.
pub open spec fn pieces_match(t: Seq<Inline>, ps: Seq<Piece>, trim: bool) -> bool {
    t.len() == ps.len() && forall|k: int| 0 <= k < t.len() ==> piece_matches(#[trigger] t[k], ps[k], trim)
}

/// Scans the rest of the buffer as inline content.
pub trait InlineParser: Sized {
    fn parse_inline(&mut self) -> Result<Text, MarkdownError>;
}

/// The text built so far by one inline scan: finished tokens, the bytes of
/// the chunk being gathered, and the span `[pm, pm_last)` of plain bytes not
/// yet added to it.
struct InlineParsingState {
    tokens: Vec<Inline>,
    pending: Vec<u8>,
    pm: usize,
    pm_last: usize,
    trim_newlines: bool,
}

impl InlineParsingState {
    #[verifier::opaque]
    spec fn wf(&self) -> bool {
        &&& text_wf(self.tokens@)
        &&& (self.tokens@.len() > 0 ==> !(self.tokens@.last() is Chunk))
        &&& self.pm <= self.pm_last
    }

    fn new(pos: usize, trim_newlines: bool) -> (r: InlineParsingState)
        ensures
            r.wf(),
            r.pm == pos,
            r.pm_last == pos,
            r.tokens@.len() == 0,
            r.pending@.len() == 0,
            r.trim_newlines == trim_newlines,
    {
        reveal(InlineParsingState::wf);
        InlineParsingState { tokens: Vec::new(), pending: Vec::new(), pm: pos, pm_last: pos, trim_newlines }
    }

    /// Starts a new plain span at `now`.
    fn update(&mut self, now: usize)
        requires
            old(self).wf(),
        ensures
            final(self).wf(),
            final(self).pm == now,
            final(self).pm_last == now,
            final(self).tokens == old(self).tokens,
            final(self).pending == old(self).pending,
            final(self).trim_newlines == old(self).trim_newlines,
    {
        reveal(InlineParsingState::wf);
        self.pm = now;
        self.pm_last = now;
    }

    /// Extends the plain span up to `now`.
    fn advance(&mut self, now: usize)
        requires
            old(self).wf(),
            old(self).pm_last <= now,
        ensures
            final(self).wf(),
            final(self).pm == old(self).pm,
            final(self).pm_last == now,
            final(self).tokens == old(self).tokens,
            final(self).pending == old(self).pending,
            final(self).trim_newlines == old(self).trim_newlines,
    {
        reveal(InlineParsingState::wf);
        self.pm_last = now;
    }

    /// Adds the plain span to the chunk being gathered, without its trailing
    /// newlines when the options say so.
    fn push_chunk(&mut self, buf: &[u8])
        requires
            old(self).wf(),
            old(self).pm_last <= buf@.len(),
        ensures
            final(self).wf(),
            final(self).pm == old(self).pm,
            final(self).pm_last == old(self).pm_last,
            final(self).tokens == old(self).tokens,
            final(self).trim_newlines == old(self).trim_newlines,
            final(self).pending@ == old(self).pending@ + chunk_bytes(
                buf@.subrange(old(self).pm as int, old(self).pm_last as int),
                old(self).trim_newlines,
            ),
            ascii(old(self).pending@) && ascii_from(buf@, old(self).pm as int) ==> ascii(
                final(self).pending@,
            ),
            exists|e: int|
                #![trigger buf@.subrange(old(self).pm as int, e)]
                old(self).pm <= e <= old(self).pm_last && (e == old(self).pm_last || buf@[e] == NEWLINE)
                    && final(self).pending@ == old(self).pending@ + buf@.subrange(old(self).pm as int, e),
    {
        reveal(InlineParsingState::wf);
        let ghost span = buf@.subrange(self.pm as int, self.pm_last as int);
        let mut end = self.pm_last;
        if self.trim_newlines {
            while end > self.pm && buf[end - 1] == NEWLINE
                invariant
                    self.pm <= end <= self.pm_last <= buf@.len(),
                    end == self.pm_last || buf@[end as int] == NEWLINE,
                    span == buf@.subrange(self.pm as int, self.pm_last as int),
                    without_trailing_newlines(span) == without_trailing_newlines(
                        buf@.subrange(self.pm as int, end as int),
                    ),
                decreases end,
            {
                assert(buf@.subrange(self.pm as int, end as int).drop_last() =~= buf@.subrange(
                    self.pm as int,
                    end - 1,
                ));
                end = end - 1;
            }
        }
        assert(buf@.subrange(self.pm as int, end as int) =~= chunk_bytes(span, self.trim_newlines));
        let ghost before = self.pending@;
        let mut i = self.pm;
        while i < end
            invariant
                self.wf(),
                self.pm <= i <= end <= self.pm_last <= buf@.len(),
                self.pm == old(self).pm,
                self.pm_last == old(self).pm_last,
                self.tokens == old(self).tokens,
                self.trim_newlines == old(self).trim_newlines,
                before == old(self).pending@,
                self.pending@ == before + buf@.subrange(self.pm as int, i as int),
                ascii(old(self).pending@) && ascii_from(buf@, self.pm as int) ==> ascii(self.pending@),
            decreases end - i,
        {
            reveal(InlineParsingState::wf);
            self.pending.push(buf[i]);
            assert(buf@.subrange(self.pm as int, i + 1) =~= buf@.subrange(self.pm as int, i as int).push(
                buf@[i as int],
            ));
            i = i + 1;
        }
        assert(old(self).pm <= end <= old(self).pm_last && (end == old(self).pm_last || buf@[end as int]
            == NEWLINE) && self.pending@ == old(self).pending@ + buf@.subrange(old(self).pm as int, end as int));
    }

    /// Adds one byte to the chunk being gathered.
    fn push_byte(&mut self, b: u8)
        requires
            old(self).wf(),
        ensures
            final(self).wf(),
            ascii(old(self).pending@) && b < 128 ==> ascii(final(self).pending@),
            final(self).pending@ == old(self).pending@.push(b),
            final(self).tokens == old(self).tokens,
            final(self).trim_newlines == old(self).trim_newlines,
            final(self).pm == old(self).pm,
            final(self).pm_last == old(self).pm_last,
    {
        reveal(InlineParsingState::wf);
        self.pending.push(b);
    }

    /// Ends the chunk being gathered, if it holds anything.
    fn flush(&mut self) -> (r: Result<(), MarkdownError>)
        requires
            old(self).wf(),
        ensures
            r is Ok <==> (old(self).pending@.len() == 0 || valid_utf8(old(self).pending@)),
            r is Ok && old(self).pending@.len() > 0 ==> {
                let t = final(self).tokens@;
                &&& t.len() == old(self).tokens@.len() + 1
                &&& t.last() is Chunk
                &&& t.last()->Chunk_0@ == decode_utf8(old(self).pending@)
                &&& t.drop_last() == old(self).tokens@
            },
            text_wf(final(self).tokens@),
            final(self).pm == old(self).pm,
            final(self).pm_last == old(self).pm_last,
            final(self).trim_newlines == old(self).trim_newlines,
            r is Ok ==> final(self).pending@.len() == 0,
            r is Ok && final(self).tokens@.len() > 0 && final(self).tokens@.last() is Chunk ==> old(self).pending@.len() > 0,
            r is Ok && final(self).tokens@.len() > 0 && !(final(self).tokens@.last() is Chunk) ==> final(self).tokens@ == old(self).tokens@,
            r is Ok && old(self).pending@.len() == 0 ==> final(self).tokens@ == old(self).tokens@,
    {
        reveal(InlineParsingState::wf);
        if self.pending.len() == 0 {
            return Ok(());
        }
        let mut bytes: Vec<u8> = Vec::new();
        core::mem::swap(&mut self.pending, &mut bytes);
        match decode_span(bytes) {
            Ok(s) => {
                let chunk = Inline::Chunk(s);
                proof {
                    lemma_leaf_wf(chunk);
                    lemma_text_wf_push(self.tokens@, chunk);
                }
                self.tokens.push(chunk);
                assert(self.tokens@.drop_last() =~= old(self).tokens@);
                Ok(())
            },
            Err(e) => Err(e),
        }
    }

    /// Ends the chunk being gathered and appends `token` after it.
    fn push_token(&mut self, token: Inline) -> (r: Result<(), MarkdownError>)
        requires
            old(self).wf(),
            inline_wf(token),
            !(token is Chunk),
        ensures
            r is Ok ==> final(self).wf(),
            final(self).trim_newlines == old(self).trim_newlines,
            final(self).pm == old(self).pm,
            final(self).pm_last == old(self).pm_last,
            r is Ok <==> (old(self).pending@.len() == 0 || valid_utf8(old(self).pending@)),
            r is Ok ==> final(self).pending@.len() == 0 && final(self).tokens@.last() == token,
            r is Ok && old(self).pending@.len() == 0 ==> final(self).tokens@ == old(
                self,
            ).tokens@.push(token),
            r is Ok && old(self).pending@.len() > 0 ==> {
                let t = final(self).tokens@;
                let k = old(self).tokens@.len();
                &&& t.len() == k + 2
                &&& t.subrange(0, k as int) == old(self).tokens@
                &&& t[k as int] is Chunk
                &&& t[k as int]->Chunk_0@ == decode_utf8(old(self).pending@)
            },
    {
        reveal(InlineParsingState::wf);
        let ghost before = self.tokens@;
        match self.flush() {
            Ok(()) => {
                proof {
                    lemma_text_wf_push(self.tokens@, token);
                }
                let ghost flushed = self.tokens@;
                self.tokens.push(token);
                proof {
                    if old(self).pending@.len() > 0 {
                        assert(flushed.drop_last() == before);
                        assert(self.tokens@.subrange(0, before.len() as int) =~= before);
                        assert(self.tokens@[before.len() as int] == flushed.last());
                    }
                }
                Ok(())
            },
            Err(e) => Err(e),
        }
    }

    proof fn lemma_spans(&self)
        requires
            self.wf(),
        ensures
            self.pm <= self.pm_last,
    {
        reveal(InlineParsingState::wf);
    }

    /// The finished text.
    fn finish(self) -> (r: Result<Text, MarkdownError>)
        requires
            self.wf(),
        ensures
            r matches Ok(t) ==> text_wf(t@),
            r is Ok <==> (self.pending@.len() == 0 || valid_utf8(self.pending@)),
            r matches Ok(t) ==> (self.pending@.len() == 0 ==> t@ == self.tokens@) && (self.pending@.len()
                > 0 ==> t@.len() == self.tokens@.len() + 1 && t@.drop_last() == self.tokens@ && t@.last() is Chunk
                && t@.last()->Chunk_0@ == decode_utf8(self.pending@)),
            self.tokens@.len() == 0 && self.pending@.len() == 0 ==> (r matches Ok(t) && t@.len()
                == 0),
            self.tokens@.len() == 0 && self.pending@.len() > 0 ==> (r matches Ok(t) ==> t@.len()
                == 1 && t@[0] is Chunk && t@[0]->Chunk_0@ == decode_utf8(self.pending@)),
    {
        reveal(InlineParsingState::wf);
        let mut st = self;
        match st.flush() {
            Ok(()) => Ok(st.tokens),
            Err(e) => Err(e),
        }
    }
}

impl<'a> InlineParser for MarkdownParser<'a> {
    #[verifier::rlimit(100)]
    #[verifier::spinoff_prover]
    fn parse_inline(&mut self) -> (r: Result<Text, MarkdownError>)
        ensures
            old(self).moved(final(self)),
            r matches Ok(t) ==> text_wf(t@),
            r is Ok ==> final(self).pos() == old(self).buffer().len(),
            ascii_from(old(self).buffer(), old(self).pos()) ==> r is Ok,
            valid_utf8(old(self).buffer().subrange(old(self).pos(), old(self).buffer().len() as int))
                ==> r is Ok,
            ({
                let rest = old(self).buffer().subrange(old(self).pos(), old(self).buffer().len() as int);
                let c = chunk_bytes(rest, old(self).spec_config().trim_newlines);
                plain(rest) ==> (r is Ok <==> (c.len() == 0 || valid_utf8(c))) && (r matches Ok(t)
                    ==> plain_text_of(t@, c))
            }),
            ({
                let ir = inline_rest(
                    old(self).buffer(),
                    old(self).pos(),
                    old(self).pos(),
                    Seq::empty(),
                    old(self).spec_config().trim_newlines,
                );
                ir is Some ==> (r matches Ok(t) ==> pieces_match(
                    t@,
                    ir->Some_0,
                    old(self).spec_config().trim_newlines,
                ))
            }),
        decreases old(self).buffer().len(), 3nat,
    {
        let buf = self.cur.buffer();
        let len = buf.len();
        let start = self.cur.position();
        let mut st = InlineParsingState::new(start, self.config.trim_newlines);
        let ghost trim = self.spec_config().trim_newlines;
        let ghost ir0 = inline_rest(buf@, start as int, start as int, Seq::empty(), trim);
        let ghost mut done: Seq<Piece> = Seq::empty();
        assert(st.pending@ =~= Seq::<u8>::empty());
        loop
            invariant_except_break
                st.pm_last == self.pos(),
            invariant
                old(self).moved(self),
                buf@ == self.buffer(),
                len == buf@.len(),
                st.wf(),
                start <= st.pm,
                ascii_from(buf@, start as int) ==> ascii(st.pending@),
                valid_utf8(buf@.subrange(start as int, len as int)) ==> valid_utf8(st.pending@),
                st.pm == start || ascii_edge(buf@, st.pm as int),
                st.pm_last <= self.pos() <= buf@.len(),
                start == old(self).pos(),
                start <= self.pos(),
                st.trim_newlines == self.spec_config().trim_newlines,
                plain(buf@.subrange(start as int, len as int)) ==> st.tokens@.len() == 0
                    && st.pending@.len() == 0 && st.pm == start && st.pm_last == self.pos(),
                trim == self.spec_config().trim_newlines,
                ir0 == inline_rest(buf@, start as int, start as int, Seq::empty(), trim),
                rest_ok(ir0, done, buf@, self.pos(), st.pm as int, st.pending@, st.tokens@, trim),
            ensures
                len == buf@.len(),
                st.pm_last == self.pos(),
                old(self).moved(self),
                buf@ == self.buffer(),
                st.wf(),
                start <= st.pm,
                ascii_from(buf@, start as int) ==> ascii(st.pending@),
                valid_utf8(buf@.subrange(start as int, len as int)) ==> valid_utf8(st.pending@),
                st.pm == start || ascii_edge(buf@, st.pm as int),
                st.pm_last <= self.pos() == buf@.len(),
                st.trim_newlines == self.spec_config().trim_newlines,
                plain(buf@.subrange(start as int, len as int)) ==> st.tokens@.len() == 0
                    && st.pending@.len() == 0 && st.pm == start && st.pm_last == self.pos(),
                trim == self.spec_config().trim_newlines,
                ir0 == inline_rest(buf@, start as int, start as int, Seq::empty(), trim),
                rest_ok(ir0, done, buf@, self.pos(), st.pm as int, st.pending@, st.tokens@, trim),
            decreases buf@.len() - self.pos(),
        {
            let q = self.cur.position();
            let c = match self.cur.next_byte() {
                Some(c) => c,
                None => break,
            };
            proof {
                if plain(buf@.subrange(start as int, len as int)) {
                    assert(buf@.subrange(start as int, len as int)[q - start] == c);
                }
            }
            proof {
                st.lemma_spans();
                assert(buf@[q as int] == c);
            }
            if c == BACKSLASH {
                proof {
                    lemma_rest_escape(buf@, q as int, st.pm as int, st.pending@, trim);
                }
                match self.parse_escape() {
                    ParseResult::Success(Some(_)) => {
                        proof {
                            st.lemma_spans();
                        }
                        let ghost p0 = st.pending@;
                        let ghost pm0 = st.pm as int;
                        st.push_chunk(buf);
                        proof {
                            if valid_utf8(buf@.subrange(start as int, len as int)) {
                                let e = choose|e: int|
                                    pm0 <= e <= q && (e == q || buf@[e] == NEWLINE) && st.pending@
                                        == p0 + buf@.subrange(pm0, e);
                                lemma_valid_span(buf@, start as int, pm0, e);
                                vstd::utf8::valid_utf8_concat(p0, buf@.subrange(pm0, e));
                            }
                        }
                        let ghost p1 = st.pending@;
                        st.push_byte(buf[q + 1]);
                        proof {
                            if valid_utf8(buf@.subrange(start as int, len as int)) {
                                lemma_ascii_valid(seq![buf@[q + 1]]);
                                vstd::utf8::valid_utf8_concat(p1, seq![buf@[q + 1]]);
                                assert(p1 + seq![buf@[q + 1]] =~= st.pending@);
                            }
                        }
                        st.update(q + 2);
                        proof {
                            assert(st.pending@ =~= p0 + chunk_bytes(buf@.subrange(pm0, q as int), trim)
                                + seq![buf@[q + 1]]);
                            assert(rest_ok(ir0, done, buf@, self.pos(), st.pm as int, st.pending@, st.tokens@, trim));
                        }
                    },
                    _ => {
                        st.advance(q + 1);
                        proof {
                            assert(rest_ok(ir0, done, buf@, self.pos(), st.pm as int, st.pending@, st.tokens@, trim));
                        }
                    },
                }
            } else if c == STAR || c == UNDERSCORE || c == BACKTICK {
                proof {
                    st.lemma_spans();
                    if valid_utf8(buf@.subrange(start as int, len as int)) {
                        lemma_valid_span(buf@, start as int, st.pm as int, len as int);
                    }
                }
                let ghost t0 = st.tokens@;
                let ghost a0 = st.pending@ + chunk_bytes(buf@.subrange(st.pm as int, q as int), trim);
                let ghost before = inline_rest(buf@, q as int, st.pm as int, st.pending@, trim);
                proof {
                    lemma_rest_delim(buf@, q as int, st.pm as int, st.pending@, trim);
                }
                match self.inline_emphasis(&mut st, c, q) {
                    Err(e) => {
                        return Err(e);
                    },
                    Ok(()) => {},
                }
                proof {
                    let n = delim_len(buf@, q as int);
                    if ir0 is Some {
                        if let Some(Some(k)) = emph_result(buf@, q + n, c, n) {
                            let tok = if c == BACKTICK {
                                Piece::Coded(buf@.subrange(q + n, k))
                            } else {
                                Piece::Emphasized(n, buf@.subrange(q + n, k))
                            };
                            let head = if a0.len() == 0 {
                                Seq::<Piece>::empty()
                            } else {
                                seq![Piece::Chunked(a0)]
                            };
                            lemma_pieces_push(t0, done, st.tokens@, a0, tok, trim);
                            assert(st.pending@ =~= Seq::<u8>::empty());
                            let rest = inline_rest(buf@, self.pos(), st.pm as int, st.pending@, trim);
                            assert(before == Some(head + seq![tok] + rest->Some_0));
                            assert(done + head + seq![tok] + rest->Some_0 =~= done + (head + seq![tok]
                                + rest->Some_0));
                            done = done + head + seq![tok];
                        }
                    }
                }
                proof {
                    assert(rest_ok(ir0, done, buf@, self.pos(), st.pm as int, st.pending@, st.tokens@, trim));
                }
            } else if c == OPEN_BRACKET || (c == BANG && self.cur.current_byte() == Some(
                OPEN_BRACKET,
            )) {
                proof {
                    st.lemma_spans();
                    if valid_utf8(buf@.subrange(start as int, len as int)) {
                        lemma_valid_span(buf@, start as int, st.pm as int, len as int);
                    }
                }
                let ghost t0 = st.tokens@;
                let ghost a0 = st.pending@ + chunk_bytes(buf@.subrange(st.pm as int, q as int), trim);
                let ghost before = inline_rest(buf@, q as int, st.pm as int, st.pending@, trim);
                proof {
                    if c == BANG {
                        lemma_rest_bracket(buf@, q as int, st.pm as int, st.pending@, trim);
                    } else {
                        lemma_rest_link(buf@, q as int, st.pm as int, st.pending@, trim);
                    }
                }
                match self.inline_link(&mut st, c == BANG, q) {
                    Err(e) => {
                        return Err(e);
                    },
                    Ok(()) => {},
                }
                proof {
                    if ir0 is Some && c == OPEN_BRACKET {
                        if let Some(e) = label_close(buf@, q + 1, 0, false) {
                            let tok = Piece::Linked(buf@.subrange(q + 1, e));
                            let head = if a0.len() == 0 {
                                Seq::<Piece>::empty()
                            } else {
                                seq![Piece::Chunked(a0)]
                            };
                            lemma_pieces_push(t0, done, st.tokens@, a0, tok, trim);
                            assert(st.pending@ =~= Seq::<u8>::empty());
                            let rest = inline_rest(buf@, self.pos(), st.pm as int, st.pending@, trim);
                            assert(before == Some(head + seq![tok] + rest->Some_0));
                            assert(done + head + seq![tok] + rest->Some_0 =~= done + (head + seq![tok]
                                + rest->Some_0));
                            done = done + head + seq![tok];
                        }
                    }
                }
                proof {
                    assert(rest_ok(ir0, done, buf@, self.pos(), st.pm as int, st.pending@, st.tokens@, trim));
                }
            } else {
                proof {
                    st.lemma_spans();
                    lemma_rest_plain(buf@, q as int, st.pm as int, st.pending@, trim);
                }
                st.advance(q + 1);
                proof {
                    assert(rest_ok(ir0, done, buf@, self.pos(), st.pm as int, st.pending@, st.tokens@, trim));
                }
            }
        }
        proof {
            st.lemma_spans();
            assert(start <= st.pm);
            assert(st.pm_last == len);
            lemma_rest_end(buf@, st.pm as int, st.pending@, trim);
        }
        let ghost p0 = st.pending@;
        let ghost pm0 = st.pm as int;
        st.push_chunk(buf);
        proof {
            if valid_utf8(buf@.subrange(start as int, len as int)) {
                assert(exists|e: int|
                    #![trigger buf@.subrange(pm0, e)]
                    pm0 <= e <= len && (e == len || buf@[e] == NEWLINE) && st.pending@ == p0
                        + buf@.subrange(pm0, e));
                let e = choose|e: int|
                    #![trigger buf@.subrange(pm0, e)]
                    pm0 <= e <= len && (e == len || buf@[e] == NEWLINE) && st.pending@ == p0
                        + buf@.subrange(pm0, e);
                lemma_valid_span(buf@, start as int, pm0, e);
                vstd::utf8::valid_utf8_concat(p0, buf@.subrange(pm0, e));
            }
            if ascii_from(buf@, start as int) {
                lemma_ascii_valid(st.pending@);
            }
            if plain(buf@.subrange(start as int, len as int)) {
                assert(st.pending@ =~= chunk_bytes(
                    buf@.subrange(start as int, len as int),
                    st.trim_newlines,
                ));
            }
        }
        let ghost tk = st.tokens@;
        let ghost pd = st.pending@;
        let r = st.finish();
        proof {
            if ir0 is Some {
                if r is Ok {
                    let t = r->Ok_0;
                    lemma_pieces_chunk(tk, done, t@, pd, trim);
                    assert(ir0->Some_0 == done + (if pd.len() == 0 {
                        Seq::empty()
                    } else {
                        seq![Piece::Chunked(pd)]
                    }));
                }
            }
        }
        r
    }
}

impl<'a> MarkdownParser<'a> {
    /// Handles a delimiter run that starts at `q`: an emphasis or code span
    /// if it closes, plain text otherwise.
    fn inline_emphasis(&mut self, st: &mut InlineParsingState, c: u8, q: usize) -> (r: Result<
        (),
        MarkdownError,
    >)
        requires
            old(st).wf(),
            old(st).pm_last <= q,
            old(self).pos() == q + 1,
            old(self).buffer()[q as int] == c,
            c < 128,
            c == STAR || c == UNDERSCORE || c == BACKTICK,
            old(st).trim_newlines == old(self).spec_config().trim_newlines,
        ensures
            ({
                let s = old(self).buffer();
                let trim = old(st).trim_newlines;
                let a = old(st).pending@ + chunk_bytes(s.subrange(old(st).pm as int, q as int), trim);
                let n = delim_len(s, q as int);
                old(st).pm_last == q ==> match emph_result(s, q + n, c, n) {
                    Some(None) => r is Ok && final(self).pos() == q + n && final(st).pm == q
                        && final(st).pending@ == a && final(st).tokens == old(st).tokens,
                    Some(Some(k)) => r is Ok ==> {
                        let t = final(st).tokens@;
                        let m = old(st).tokens@.len();
                        let tok = if c == BACKTICK {
                            Piece::Coded(s.subrange(q + n, k))
                        } else {
                            Piece::Emphasized(n, s.subrange(q + n, k))
                        };
                        &&& final(self).pos() == k + n
                        &&& final(st).pm == k + n
                        &&& final(st).pending@.len() == 0
                        &&& t.subrange(0, m as int) == old(st).tokens@
                        &&& a.len() == 0 ==> t.len() == m + 1
                        &&& a.len() > 0 ==> t.len() == m + 2 && t[m as int] is Chunk && t[m as int]->Chunk_0@
                            == decode_utf8(a)
                        &&& piece_matches(t.last(), tok, trim)
                    },
                    None => true,
                }
            }),
            old(self).moved(final(self)),
            r is Ok ==> final(st).wf() && final(st).pm_last <= final(self).pos() && final(self).pos()
                > q,
            final(st).trim_newlines == old(st).trim_newlines,
            r is Ok ==> final(st).pm >= old(st).pm,
            ascii_from(old(self).buffer(), old(st).pm as int) && ascii(old(st).pending@) ==> r is Ok
                && ascii(final(st).pending@),
            r is Ok ==> final(st).pm_last == final(self).pos(),
            r is Ok ==> ascii_edge(final(self).buffer(), final(st).pm as int),
            old(st).pm_last == q && valid_utf8(old(self).buffer().subrange(
                old(st).pm as int,
                old(self).buffer().len() as int,
            )) && valid_utf8(old(st).pending@) ==> r is Ok && valid_utf8(final(st).pending@),
        decreases old(self).buffer().len(), 2nat,
    {
        let buf = self.cur.buffer();
        let len = buf.len();
        self.cur.position();
        proof {
            st.lemma_spans();
        }
        let ghost p0 = st.pending@;
        let ghost pm0 = st.pm as int;
        let ghost v = old(st).pm_last == q && valid_utf8(buf@.subrange(pm0, len as int))
            && valid_utf8(p0);
        st.push_chunk(buf);
        proof {
            if v {
                let e = choose|e: int|
                    pm0 <= e <= q && (e == q || buf@[e] == NEWLINE) && st.pending@ == p0
                        + buf@.subrange(pm0, e);
                lemma_valid_span(buf@, pm0, pm0, e);
                vstd::utf8::valid_utf8_concat(p0, buf@.subrange(pm0, e));
            }
        }
        let mut n: usize = 1;
        if c == BACKTICK {
            while self.try_read_char(c).is_success()
                invariant
                    old(self).moved(self),
                    buf@ == self.buffer(),
                    len == buf@.len(),
                    self.pos() == q + n,
                    1 <= n,
                    buf@[self.pos() - 1] == c,
                    byte_run(buf@, q as int, c) == n + byte_run(buf@, self.pos(), c),
                decreases buf@.len() - self.pos(),
            {
                n = n + 1;
            }
            assert(byte_run(buf@, self.pos(), c) == 0);
        } else if self.try_read_char(c).is_success() {
            n = 2;
        }
        proof {
            if v {
                lemma_valid_span(buf@, pm0, self.pos(), len as int);
            }
        }
        let m = self.cur.mark();
        match self.parse_emphasis(c, n) {
            Err(e) => Err(e),
            Ok(Some(token)) => {
                m.cancel();
                proof {
                    if ascii(st.pending@) {
                        lemma_ascii_valid(st.pending@);
                    }
                    lemma_ascii_valid(Seq::<u8>::empty());
                }
                match st.push_token(token) {
                    Err(e) => Err(e),
                    Ok(()) => {
                        st.update(self.cur.position());
                        Ok(())
                    },
                }
            },
            Ok(None) => {
                m.reset(&mut self.cur);
                st.update(q);
                st.advance(q + n);
                Ok(())
            },
        }
    }

    /// Handles a `[` (or `![`) at `q`: a link or image if one can be read,
    /// plain text otherwise.
    fn inline_link(&mut self, st: &mut InlineParsingState, is_image: bool, q: usize) -> (r: Result<
        (),
        MarkdownError,
    >)
        requires
            old(st).wf(),
            old(st).pm_last <= q,
            old(self).pos() == q + 1,
            old(self).buffer()[q as int] < 128,
            is_image ==> old(self).pos() < old(self).buffer().len() && old(self).buffer()[q + 1]
                == OPEN_BRACKET,
            old(st).trim_newlines == old(self).spec_config().trim_newlines,
        ensures
            ({
                let s = old(self).buffer();
                let a = old(st).pending@ + chunk_bytes(
                    s.subrange(old(st).pm as int, q as int),
                    old(st).trim_newlines,
                );
                let after = q + 1 + (if is_image { 1int } else { 0int });
                let fin = final(self).pos();
                (old(st).pm_last == q && label_close(s, after, 0, false) is None) ==> r is Ok && fin
                    == after && final(st).pm == q && final(st).pending@ == a && final(st).tokens
                    == old(st).tokens
            }),
            ({
                let s = old(self).buffer();
                let trim = old(st).trim_newlines;
                let a = old(st).pending@ + chunk_bytes(s.subrange(old(st).pm as int, q as int), trim);
                let close = label_close(s, q + 1, 0, false);
                let e = close->Some_0;
                let t = final(st).tokens@;
                let m = old(st).tokens@.len();
                (old(st).pm_last == q && !is_image && close is Some && !has_destination(s, e)) ==> (r is Ok
                    ==> {
                    &&& final(self).pos() == e + 1
                    &&& final(st).pm == e + 1
                    &&& final(st).pending@.len() == 0
                    &&& t.subrange(0, m as int) == old(st).tokens@
                    &&& a.len() == 0 ==> t.len() == m + 1
                    &&& a.len() > 0 ==> t.len() == m + 2 && t[m as int] is Chunk && t[m as int]->Chunk_0@
                        == decode_utf8(a)
                    &&& piece_matches(t.last(), Piece::Linked(s.subrange(q + 1, e)), trim)
                })
            }),
            old(self).moved(final(self)),
            r is Ok ==> final(st).wf() && final(st).pm_last <= final(self).pos() && final(self).pos()
                > q,
            final(st).trim_newlines == old(st).trim_newlines,
            r is Ok ==> final(st).pm >= old(st).pm,
            ascii_from(old(self).buffer(), old(st).pm as int) && ascii(old(st).pending@) ==> r is Ok
                && ascii(final(st).pending@),
            r is Ok ==> final(st).pm_last == final(self).pos(),
            r is Ok ==> ascii_edge(final(self).buffer(), final(st).pm as int),
            old(st).pm_last == q && valid_utf8(old(self).buffer().subrange(
                old(st).pm as int,
                old(self).buffer().len() as int,
            )) && valid_utf8(old(st).pending@) ==> r is Ok && valid_utf8(final(st).pending@),
        decreases old(self).buffer().len(), 2nat,
    {
        let buf = self.cur.buffer();
        self.cur.position();
        let len = buf.len();
        proof {
            st.lemma_spans();
        }
        if is_image {
            self.cur.next();
        }
        let ghost p0 = st.pending@;
        let ghost pm0 = st.pm as int;
        let ghost v = old(st).pm_last == q && valid_utf8(buf@.subrange(pm0, len as int))
            && valid_utf8(p0);
        st.push_chunk(buf);
        proof {
            if v {
                let e = choose|e: int|
                    pm0 <= e <= q && (e == q || buf@[e] == NEWLINE) && st.pending@ == p0
                        + buf@.subrange(pm0, e);
                lemma_valid_span(buf@, pm0, pm0, e);
                vstd::utf8::valid_utf8_concat(p0, buf@.subrange(pm0, e));
                lemma_valid_span(buf@, pm0, self.pos(), len as int);
            }
        }
        let after = self.cur.position();
        let m = self.cur.mark();
        match self.parse_link(is_image) {
            Err(e) => Err(e),
            Ok(Some(link)) => {
                m.cancel();
                proof {
                    if ascii(st.pending@) {
                        lemma_ascii_valid(st.pending@);
                    }
                    lemma_ascii_valid(Seq::<u8>::empty());
                }
                match st.push_token(link) {
                    Err(e) => Err(e),
                    Ok(()) => {
                        st.update(self.cur.position());
                        Ok(())
                    },
                }
            },
            Ok(None) => {
                m.reset(&mut self.cur);
                st.update(q);
                st.advance(after);
                Ok(())
            },
        }
    }
}

} // verus!
