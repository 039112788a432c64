use vstd::prelude::*;

use vstd::slice::slice_to_vec;

use super::InlineParser;
use crate::parser::cursor::Mark;
use crate::parser::{
    ascii, ascii_from, blank_run_end, byte_run, decode_span, lemma_ascii_valid, lemma_valid_span, MarkdownParser, ParseResult,
};
use super::{chunk_bytes, plain, plain_text_of};
use vstd::utf8::{decode_utf8, valid_utf8};
use crate::result::MarkdownError;
use crate::tokens::{inline_wf, lemma_emphasis_wf, lemma_leaf_wf, Inline};
use crate::util::{BACKSLASH, BACKTICK, CLOSE_BRACKET, CLOSE_PAREN, OPEN_BRACKET, OPEN_PAREN, SPACE};

verus! {

/// No byte `c` from `p` to the end.
pub open spec fn no_byte_from(s: Seq<u8>, p: int, c: u8) -> bool {
    forall|i: int| p <= i < s.len() ==> s[i] != c
}

/// Bytes that the closing scan treats specially.
pub open spec fn scan_special(b: u8, ec: u8) -> bool {
    b == ec || b == BACKSLASH || b == BACKTICK || b == OPEN_BRACKET
}

/// The first position at or after `i` holding a byte that the closing scan
/// treats specially, or the end.
pub open spec fn first_special(s: Seq<u8>, i: int, ec: u8) -> int
    decreases s.len() - i,
{
    if i < 0 || i >= s.len() {
        s.len() as int
    } else if scan_special(s[i], ec) {
        i
    } else {
        first_special(s, i + 1, ec)
    }
}

/// The first special byte after `p` starts a run of exactly `n` bytes `ec`
/// (and is not at `p` itself): the span closes there.
pub open spec fn simple_close(s: Seq<u8>, p: int, ec: u8, n: int) -> bool {
    let k = first_special(s, p, ec);
    ec != BACKSLASH && p < k < s.len() && s[k] == ec && byte_run(s, k, ec) == n
}

/// The mark at `m` stands just after a byte `ec` that the next `n - 1`
/// bytes `ec` follow.
pub open spec fn run_after_mark(s: Seq<u8>, m: int, n: int, ec: u8) -> bool {
    1 <= m && m + n - 1 <= s.len() && s[m - 1] == ec && forall|j: int| m <= j < m + n - 1 ==> s[j]
        == ec
}

/// Where a code span closes whose opening run of `sn` backticks ended
/// before `j`, `tn` backticks of the closing run already seen: just after the
/// `sn`-th backtick in a row, or -1 when the input ends first.
pub open spec fn code_close(s: Seq<u8>, j: int, sn: int, tn: int) -> int
    decreases s.len() - j,
{
    if j < 0 || j >= s.len() {
        -1
    } else if s[j] == BACKTICK {
        if tn + 1 >= sn {
            j + 1
        } else {
            code_close(s, j + 1, sn, tn + 1)
        }
    } else {
        code_close(s, j + 1, sn, 0)
    }
}

/// The first byte `c` at or after `i`, or the end.
pub open spec fn first_of(s: Seq<u8>, i: int, c: u8) -> int
    decreases s.len() - i,
{
    if i < 0 || i >= s.len() || s[i] == c {
        if i < 0 { 0 } else { i }
    } else {
        first_of(s, i + 1, c)
    }
}

proof fn lemma_first_of(s: Seq<u8>, i: int, c: u8)
    requires
        0 <= i,
    ensures
        i <= first_of(s, i, c) <= if i < s.len() { s.len() as int } else { i },
        first_of(s, i, c) < s.len() ==> s[first_of(s, i, c)] == c,
    decreases s.len() - i,
{
    if 0 <= i < s.len() && s[i] != c {
        lemma_first_of(s, i + 1, c);
    }
}

/// No byte `c` in `s[a..b]`.
pub open spec fn none_between(s: Seq<u8>, a: int, b: int, c: u8) -> bool {
    forall|j: int| a <= j < b && 0 <= j < s.len() ==> s[j] != c
}

/// How the closing scan steps over a link whose `[` stands just before
/// `i`, when no byte `ec` is inside it: `Some(Some(x))`, the scan goes on
/// at `x`; `Some(None)`, the input ends inside the link and there is no
/// close; `None`, a byte `ec` is inside, which this does not describe.
pub open spec fn link_skip(s: Seq<u8>, i: int, ec: u8) -> Option<Option<int>> {
    let j = first_of(s, i, CLOSE_BRACKET);
    if !none_between(s, i, j, ec) {
        None
    } else if j >= s.len() {
        Some(None)
    } else {
        let a = blank_run_end(s, j + 1);
        if a >= s.len() {
            Some(None)
        } else if s[a] == OPEN_BRACKET || s[a] == OPEN_PAREN {
            let cc = if s[a] == OPEN_BRACKET { CLOSE_BRACKET } else { CLOSE_PAREN };
            let m = first_of(s, a + 1, cc);
            if !none_between(s, a + 1, m, ec) {
                None
            } else if m >= s.len() {
                Some(None)
            } else {
                Some(Some(m + 1))
            }
        } else {
            Some(Some(a))
        }
    }
}

/// What the closing scan from `i` gives (`escaping`: the byte before was a
/// backslash): `Some(Some(c))`, a run of exactly `n` bytes `ec` at `c` after
/// `start`; `Some(None)`, no close; `None`, a link with a byte `ec` inside
/// comes first, whose handling this does not describe. Escaped bytes and
/// wrong-length runs are stepped over one byte at a time, code spans and
/// links as a whole.
pub open spec fn emph_scan(s: Seq<u8>, i: int, escaping: bool, ec: u8, n: int, start: int) -> Option<
    Option<int>,
>
    decreases s.len() - i,
{
    if i < 0 || i >= s.len() {
        Some(None)
    } else if escaping {
        emph_scan(s, i + 1, false, ec, n, start)
    } else if s[i] == BACKSLASH {
        emph_scan(s, i + 1, true, ec, n, start)
    } else if s[i] == ec {
        if byte_run(s, i, ec) == n {
            if i > start {
                Some(Some(i))
            } else {
                Some(None)
            }
        } else {
            emph_scan(s, i + 1, false, ec, n, start)
        }
    } else if s[i] == BACKTICK {
        let sn = byte_run(s, i, BACKTICK);
        let cc = code_close(s, i + sn, sn, 0);
        if sn >= 1 && i < cc <= s.len() {
            emph_scan(s, cc, false, ec, n, start)
        } else if sn >= 1 && i + sn <= s.len() {
            emph_scan(s, i + sn, false, ec, n, start)
        } else {
            None
        }
    } else if s[i] == OPEN_BRACKET {
        match link_skip(s, i + 1, ec) {
            None => None,
            Some(None) => Some(None),
            Some(Some(x)) => if i < x <= s.len() {
                emph_scan(s, x, false, ec, n, start)
            } else {
                None
            },
        }
    } else {
        emph_scan(s, i + 1, false, ec, n, start)
    }
}

proof fn lemma_code_close(s: Seq<u8>, j: int, sn: int, tn: int)
    requires
        0 <= j,
    ensures
        code_close(s, j, sn, tn) == -1 || code_close(s, j, sn, tn) > j,
    decreases s.len() - j,
{
    if 0 <= j < s.len() && !(s[j] == BACKTICK && tn + 1 >= sn) {
        lemma_code_close(s, j + 1, sn, if s[j] == BACKTICK { tn + 1 } else { 0 });
    }
}

/// What reading a span after its opening run at `from` gives, as the span
/// parser goes on past closes that follow a space: `Some(Some(k))`, the
/// span closes at `k`; `Some(None)`, it never closes; `None`, a link comes
/// first.
pub open spec fn emph_result(s: Seq<u8>, from: int, ec: u8, n: int) -> Option<Option<int>>
    decreases s.len() - from,
{
    match emph_scan(s, from, false, ec, n, from) {
        None => None,
        Some(None) => Some(None),
        Some(Some(k)) => if k >= 1 && s[k - 1] != SPACE {
            Some(Some(k))
        } else if from < k + n <= s.len() {
            emph_result(s, k + n, ec, n)
        } else {
            None
        },
    }
}

/// Reads an emphasis or code span after its opening delimiter run.
pub trait EmphasisParser: Sized {
    fn parse_emphasis(&mut self, ec: u8, n: usize) -> Result<Option<Inline>, MarkdownError>
        requires
            n >= 1,
    ;
}

impl<'a> EmphasisParser for MarkdownParser<'a> {
    /// Looks for a closing run of `n` bytes `ec` whose span does not end in a
    /// space. A code span (`ec` is a backtick) keeps its bytes verbatim; an
    /// emphasis span is parsed again as inline content.
    fn parse_emphasis(&mut self, ec: u8, n: usize) -> (r: Result<Option<Inline>, MarkdownError>)
        ensures
            old(self).moved(final(self)),
            r matches Ok(Some(i)) ==> inline_wf(i) && final(self).pos() > old(self).pos(),
            r matches Ok(Some(i)) ==> (i is Code <==> ec == BACKTICK),
            r matches Ok(Some(i)) ==> (i is Code || i is Emphasis || i is MoreEmphasis),
            ascii_from(old(self).buffer(), old(self).pos()) ==> r is Ok,
            ec < 128 && valid_utf8(old(self).buffer().subrange(old(self).pos(), old(self).buffer().len() as int))
                ==> r is Ok,
            r matches Ok(Some(_)) ==> final(self).pos() >= 1 && final(self).buffer()[final(self).pos()
                - 1] == ec,
            no_byte_from(old(self).buffer(), old(self).pos(), ec) ==> r == Ok::<
                Option<Inline>,
                MarkdownError,
            >(None),
            ({
                let s = old(self).buffer();
                let p = old(self).pos();
                let k = first_special(s, p, ec);
                let body = s.subrange(p, k);
                (simple_close(s, p, ec, n as int) && s[k - 1] != SPACE) ==> (r is Ok ==> r->Ok_0 is Some)
                    && (r matches Ok(Some(i)) ==> {
                    &&& final(self).pos() == k + n
                    &&& ec == BACKTICK ==> i->Code_0@ == decode_utf8(body)
                    &&& (ec != BACKTICK && n == 1) ==> i is Emphasis
                    &&& (ec != BACKTICK && n != 1) ==> i is MoreEmphasis
                    &&& (ec != BACKTICK && plain(body)) ==> {
                        let t = if n == 1 { i->Emphasis_0@ } else { i->MoreEmphasis_0@ };
                        plain_text_of(t, chunk_bytes(body, old(self).spec_config().trim_newlines))
                    }
                })
            }),
            ({
                let s = old(self).buffer();
                let p = old(self).pos();
                let sc = emph_scan(s, p, false, ec, n as int, p);
                let k = sc->Some_0->Some_0;
                let body = s.subrange(p, k);
                &&& sc == Some(None::<int>) ==> r == Ok::<Option<Inline>, MarkdownError>(None)
                &&& (sc is Some && sc->Some_0 is Some && s[k - 1] != SPACE) ==> (r is Ok ==> r->Ok_0 is Some)
                    && (r matches Ok(Some(i)) ==> {
                    &&& final(self).pos() == k + n
                    &&& ec == BACKTICK ==> i->Code_0@ == decode_utf8(body)
                    &&& (ec != BACKTICK && n == 1) ==> i is Emphasis
                    &&& (ec != BACKTICK && n != 1) ==> i is MoreEmphasis
                    &&& (ec != BACKTICK && plain(body)) ==> {
                        let t = if n == 1 { i->Emphasis_0@ } else { i->MoreEmphasis_0@ };
                        plain_text_of(t, chunk_bytes(body, old(self).spec_config().trim_newlines))
                    }
                })
            }),
            ({
                let s = old(self).buffer();
                let p = old(self).pos();
                let er = emph_result(s, p, ec, n as int);
                let k = er->Some_0->Some_0;
                let body = s.subrange(p, k);
                &&& er == Some(None::<int>) ==> r == Ok::<Option<Inline>, MarkdownError>(None)
                &&& (er is Some && er->Some_0 is Some) ==> (r is Ok ==> r->Ok_0 is Some) && (r matches Ok(
                    Some(i),
                ) ==> {
                    &&& final(self).pos() == k + n
                    &&& ec == BACKTICK ==> i is Code && i->Code_0@ == decode_utf8(body)
                    &&& (ec != BACKTICK && n == 1) ==> i is Emphasis
                    &&& (ec != BACKTICK && n != 1) ==> i is MoreEmphasis
                    &&& (ec != BACKTICK && plain(body)) ==> {
                        let t = if n == 1 { i->Emphasis_0@ } else { i->MoreEmphasis_0@ };
                        plain_text_of(t, chunk_bytes(body, old(self).spec_config().trim_newlines))
                    }
                })
            }),
        decreases old(self).buffer().len(), 1nat,
    {
        let buf = self.cur.buffer();
        let start = self.cur.position();
        let ghost er = emph_result(buf@, start as int, ec, n as int);
        let ghost sc = emph_scan(buf@, start as int, false, ec, n as int, start as int);
        loop
            invariant
                old(self).moved(self),
                buf@ == self.buffer(),
                start == old(self).pos(),
                start <= self.pos(),
                n >= 1,
                no_byte_from(buf@, start as int, ec) ==> no_byte_from(buf@, self.pos(), ec),
                (simple_close(buf@, start as int, ec, n as int) && buf@[first_special(
                    buf@,
                    start as int,
                    ec,
                ) - 1] != SPACE) ==> self.pos() == start,
                sc == emph_scan(buf@, start as int, false, ec, n as int, start as int),
                (sc == Some(None::<int>) || (sc is Some && sc->Some_0 is Some && buf@[sc->Some_0->Some_0
                    - 1] != SPACE)) ==> self.pos() == start,
                er == emph_result(buf@, start as int, ec, n as int),
                er is Some ==> emph_result(buf@, self.pos(), ec, n as int) == er,
            decreases buf@.len() - self.pos(),
        {
            match self.until_emph_closing(ec, n) {
                None => {
                    return Ok(None);
                },
                Some(close) => {
                    if buf[close - 1] != SPACE {
                        let slice = &buf[start..close];
                        proof {
                            if ec < 128 && valid_utf8(buf@.subrange(start as int, buf@.len() as int)) {
                                lemma_valid_span(buf@, start as int, start as int, close as int);
                            }
                            if ascii_from(buf@, start as int) {
                                assert(ascii(slice@));
                                lemma_ascii_valid(slice@);
                                assert(ascii_from(slice@, 0));
                            }
                        }
                        if ec == BACKTICK {
                            let code = match decode_span(slice_to_vec(slice)) {
                                Ok(code) => code,
                                Err(e) => {
                                    return Err(e);
                                },
                            };
                            proof {
                                lemma_leaf_wf(Inline::Code(code));
                            }
                            return Ok(Some(Inline::Code(code)));
                        }
                        let mut sub = self.fork(slice);
                        assert(sub.buffer().subrange(0, sub.buffer().len() as int) =~= sub.buffer());
                        return match sub.parse_inline() {
                            Ok(t) => {
                                proof {
                                    lemma_emphasis_wf(t);
                                }
                                if n == 1 {
                                    Ok(Some(Inline::Emphasis(t)))
                                } else {
                                    Ok(Some(Inline::MoreEmphasis(t)))
                                }
                            },
                            Err(e) => Err(e),
                        };
                    }
                },
            }
        }
    }
}

impl<'a> MarkdownParser<'a> {
    /// Scans for the closing run of exactly `n` bytes `ec` and returns where
    /// it starts, leaving the cursor after it. Escaped bytes, code spans and
    /// complete links are stepped over; an `ec` run inside a link that never
    /// closes is taken as the closing run.
    fn until_emph_closing(&mut self, ec: u8, n: usize) -> (r: Option<usize>)
        requires
            n >= 1,
        ensures
            old(self).moved(final(self)),
            r matches Some(c) ==> old(self).pos() < c < final(self).pos(),
            r is Some ==> final(self).pos() >= 1 && final(self).buffer()[final(self).pos() - 1] == ec,
            r matches Some(c) ==> old(self).buffer()[c as int] == ec,
            no_byte_from(old(self).buffer(), old(self).pos(), ec) ==> r is None,
            simple_close(old(self).buffer(), old(self).pos(), ec, n as int) ==> (r matches Some(c) && c
                == first_special(old(self).buffer(), old(self).pos(), ec) && final(self).pos() == c + n),
            ({
                let scan = emph_scan(
                    old(self).buffer(),
                    old(self).pos(),
                    false,
                    ec,
                    n as int,
                    old(self).pos(),
                );
                scan is Some ==> (match scan->Some_0 {
                    Some(c) => r is Some && r->Some_0 == c && final(self).pos() == c + n,
                    None => r is None,
                })
            }),
    {
        let buf = self.cur.buffer();
        let len = buf.len();
        let start = self.cur.position();
        let mut escaping = false;
        loop
            invariant
                old(self).moved(self),
                buf@ == self.buffer(),
                len == buf@.len(),
                start == old(self).pos(),
                start <= self.pos(),
                n >= 1,
                no_byte_from(buf@, start as int, ec) ==> no_byte_from(buf@, self.pos(), ec),
                simple_close(buf@, start as int, ec, n as int) ==> !escaping && self.pos()
                    <= first_special(buf@, start as int, ec) && first_special(buf@, start as int, ec)
                    == first_special(buf@, self.pos(), ec),
                emph_scan(buf@, start as int, false, ec, n as int, start as int) is Some ==> emph_scan(
                    buf@,
                    self.pos(),
                    escaping,
                    ec,
                    n as int,
                    start as int,
                ) == emph_scan(buf@, start as int, false, ec, n as int, start as int),
            decreases buf@.len() - self.pos(),
        {
            let q = self.cur.position();
            let c = match self.cur.next_byte() {
                Some(c) => c,
                None => {
                    return None;
                },
            };
            if escaping {
                escaping = false;
            } else if c == BACKSLASH {
                escaping = true;
            } else if c == ec {
                let after = self.cur.mark();
                let mut rn: usize = 1;
                while self.try_read_char(ec).is_success()
                    invariant
                        old(self).moved(self),
                        buf@ == self.buffer(),
                        len == buf@.len(),
                        self.pos() == q + rn,
                        rn >= 1,
                        byte_run(buf@, q as int, ec) == rn + byte_run(buf@, self.pos(), ec),
                        buf@[self.pos() - 1] == ec,
                    decreases buf@.len() - self.pos(),
                {
                    rn = rn + 1;
                }
                assert(byte_run(buf@, self.pos(), ec) == 0);
                if rn == n {
                    after.cancel();
                    if q > start {
                        return Some(q);
                    } else {
                        return None;
                    }
                } else {
                    after.reset(&mut self.cur);
                }
            } else if c == BACKTICK {
                let mut sn: usize = 1;
                while self.try_read_char(BACKTICK).is_success()
                    invariant
                        old(self).moved(self),
                        buf@ == self.buffer(),
                        len == buf@.len(),
                        self.pos() == q + sn,
                        sn >= 1,
                        byte_run(buf@, q as int, BACKTICK) == sn + byte_run(buf@, self.pos(), BACKTICK),
                    decreases buf@.len() - self.pos(),
                {
                    sn = sn + 1;
                }
                assert(byte_run(buf@, self.pos(), BACKTICK) == 0);
                let opened = self.cur.mark();
                let mut tn: usize = 0;
                let mut closed = false;
                proof {
                    lemma_code_close(buf@, q + sn, sn as int, 0);
                }
                loop
                    invariant_except_break
                        code_close(buf@, q + sn, sn as int, 0) == code_close(
                            buf@,
                            self.pos(),
                            sn as int,
                            tn as int,
                        ),
                        tn < sn,
                        !closed,
                    invariant
                        old(self).moved(self),
                        buf@ == self.buffer(),
                        len == buf@.len(),
                        opened.spec_pos() <= self.pos(),
                        opened.spec_pos() == q + sn,
                        tn <= self.pos(),
                    ensures
                        closed ==> self.pos() == code_close(buf@, q + sn, sn as int, 0),
                        !closed ==> code_close(buf@, q + sn, sn as int, 0) == -1,
                    decreases buf@.len() - self.pos(),
                {
                    let ghost at = self.pos();
                    match self.cur.next_byte() {
                        Some(b) => {
                            if b == BACKTICK {
                                tn = tn + 1;
                                if tn == sn {
                                    closed = true;
                                    break ;
                                }
                            } else {
                                tn = 0;
                            }
                        },
                        None => {
                            break ;
                        },
                    }
                }
                if closed {
                    opened.cancel();
                } else {
                    opened.reset(&mut self.cur);
                }
            } else if c == OPEN_BRACKET {
                match self.skip_link_span(ec, n, start) {
                    Some(found) => {
                        return found;
                    },
                    None => {},
                }
            }
        }
    }

    /// Steps over a link met while scanning for a closing run, the `[`
    /// already read. `None`: the scan goes on from the new position.
    /// `Some(found)`: the scan ends with `found`, because the input ended
    /// inside the link or the link had no destination part.
    fn skip_link_span(&mut self, ec: u8, n: usize, start: usize) -> (r: Option<Option<usize>>)
        requires
            n >= 1,
            start < old(self).pos(),
        ensures
            old(self).moved(final(self)),
            final(self).pos() >= old(self).pos(),
            r matches Some(Some(c)) ==> start < c < final(self).pos(),
            r matches Some(Some(_)) ==> final(self).pos() >= 1 && final(self).buffer()[final(self).pos()
                - 1] == ec,
            r matches Some(Some(c)) ==> old(self).buffer()[c as int] == ec,
            no_byte_from(old(self).buffer(), old(self).pos(), ec) ==> !(r matches Some(Some(_)))
                && no_byte_from(old(self).buffer(), final(self).pos(), ec),
            ({
                let ls = link_skip(old(self).buffer(), old(self).pos(), ec);
                &&& ls == Some(None::<int>) ==> r == Some(None::<usize>)
                &&& (ls is Some && ls->Some_0 is Some) ==> r is None && final(self).pos() == ls->Some_0->Some_0
            }),
    {
        let buf = self.cur.buffer();
        let first = self.cur.position();
        let mut tentative: Option<Mark> = None;
        loop
            invariant_except_break
                first_of(buf@, first as int, CLOSE_BRACKET) == first_of(buf@, self.pos(), CLOSE_BRACKET),
            invariant
                old(self).moved(self),
                buf@ == self.buffer(),
                first == old(self).pos(),
                first <= self.pos(),
                n >= 1,
                start < first,
                tentative matches Some(m) ==> first < m.spec_pos() && m.spec_pos() + n - 1
                    <= buf@.len() && run_after_mark(buf@, m.spec_pos(), n as int, ec),
                no_byte_from(buf@, first as int, ec) ==> tentative is None,
                none_between(buf@, first as int, first_of(buf@, first as int, CLOSE_BRACKET), ec)
                    ==> tentative is None,
            ensures
                old(self).moved(self),
                buf@ == self.buffer(),
                first <= self.pos(),
                start < first,
                tentative matches Some(m) ==> first < m.spec_pos() && m.spec_pos() + n - 1
                    <= buf@.len() && run_after_mark(buf@, m.spec_pos(), n as int, ec),
                no_byte_from(buf@, first as int, ec) ==> tentative is None,
                none_between(buf@, first as int, first_of(buf@, first as int, CLOSE_BRACKET), ec)
                    ==> tentative is None,
                self.pos() - 1 == first_of(buf@, first as int, CLOSE_BRACKET),
            decreases buf@.len() - self.pos(),
        {
            let q = self.cur.position();
            proof {
                lemma_first_of(buf@, q as int, CLOSE_BRACKET);
            }
            match self.cur.next_byte() {
                Some(b) => {
                    assert(b == buf@[q as int]);
                    if b == CLOSE_BRACKET {
                        break ;
                    }
                    if tentative.is_none() && b == ec && self.lookahead_chars(n - 1, ec) {
                        assert(buf@[self.pos() - 1] == ec);
                        assert forall|j: int| self.pos() <= j < self.pos() + n - 1 implies buf@[j] == ec by {
                            assert(self.at(j) == ec);
                        }
                        tentative = Some(self.cur.mark());
                    }
                },
                None => {
                    return Some(self.close_at(tentative, n, ec));
                },
            }
        }
        if self.skip_spaces_and_newlines().is_end() {
            return Some(self.close_at(tentative, n, ec));
        }
        let cc = match self.cur.current_byte() {
            Some(b) => {
                if b == OPEN_BRACKET {
                    CLOSE_BRACKET
                } else if b == OPEN_PAREN {
                    CLOSE_PAREN
                } else if tentative.is_some() {
                    return Some(self.close_at(tentative, n, ec));
                } else {
                    return None;
                }
            },
            None => {
                return Some(self.close_at(tentative, n, ec));
            },
        };
        let ghost a = self.pos();
        self.cur.next();
        loop
            invariant_except_break
                first_of(buf@, a + 1, cc) == first_of(buf@, self.pos(), cc),
            invariant
                0 <= a,
                a + 1 <= self.pos(),
                cc == CLOSE_BRACKET || cc == CLOSE_PAREN,
                (buf@[a] == OPEN_BRACKET ==> cc == CLOSE_BRACKET) && (buf@[a] == OPEN_PAREN ==> cc
                    == CLOSE_PAREN),
                a < buf@.len() && (buf@[a] == OPEN_BRACKET || buf@[a] == OPEN_PAREN),
                a == blank_run_end(buf@, first_of(buf@, first as int, CLOSE_BRACKET) + 1),
                none_between(buf@, first as int, first_of(buf@, first as int, CLOSE_BRACKET), ec)
                    && none_between(buf@, a + 1, first_of(buf@, a + 1, cc), ec) ==> tentative is None,
                old(self).moved(self),
                buf@ == self.buffer(),
                first == old(self).pos(),
                first <= self.pos(),
                n >= 1,
                start < first,
                tentative matches Some(m) ==> first < m.spec_pos() && m.spec_pos() + n - 1
                    <= buf@.len() && run_after_mark(buf@, m.spec_pos(), n as int, ec),
                no_byte_from(buf@, first as int, ec) ==> tentative is None,
            ensures
                self.pos() - 1 == first_of(buf@, a + 1, cc),
                old(self).moved(self),
                buf@ == self.buffer(),
            decreases buf@.len() - self.pos(),
        {
            let ghost at = self.pos();
            proof {
                lemma_first_of(buf@, at, cc);
            }
            match self.cur.next_byte() {
                Some(b) => {
                    assert(b == buf@[at]);
                    if b == cc {
                        assert(first_of(buf@, a + 1, cc) == at);
                        break ;
                    }
                    if tentative.is_none() && b == ec && self.lookahead_chars(n - 1, ec) {
                        assert(buf@[self.pos() - 1] == ec);
                        assert forall|j: int| self.pos() <= j < self.pos() + n - 1 implies buf@[j] == ec by {
                            assert(self.at(j) == ec);
                        }
                        tentative = Some(self.cur.mark());
                    }
                },
                None => {
                    return Some(self.close_at(tentative, n, ec));
                },
            }
        }
        None
    }

    /// Takes the run recorded by `tentative` (the mark stands just after its
    /// first byte) as the closing run.
    fn close_at(&mut self, tentative: Option<Mark>, n: usize, ec: u8) -> (r: Option<usize>)
        requires
            n >= 1,
            tentative matches Some(m) ==> 1 <= m.spec_pos() && m.spec_pos() + n - 1 <= old(
                self,
            ).buffer().len() && run_after_mark(old(self).buffer(), m.spec_pos(), n as int, ec),
        ensures
            old(self).moved(final(self)),
            r is Some <==> tentative is Some,
            tentative matches Some(m) ==> r matches Some(c) && c == m.spec_pos() - 1
                && final(self).pos() == m.spec_pos() + n - 1,
            tentative is None ==> final(self).pos() == old(self).pos(),
            r is Some ==> final(self).pos() >= 1 && final(self).buffer()[final(self).pos() - 1] == ec,
            r matches Some(c) ==> old(self).buffer()[c as int] == ec,
    {
        self.cur.position();
        match tentative {
            Some(m) => {
                let t = m.position();
                m.reset(&mut self.cur);
                self.cur.advance(n - 1);
                Some(t - 1)
            },
            None => None,
        }
    }
}

} // verus!
