use vstd::prelude::*;

verus! {

/// Position tracking over an immutable byte buffer.
///
/// The position never passes the end of the buffer; every method keeps
/// `wf()` and says exactly where it leaves the position.
pub struct Cursor<'a> {
    buf: &'a [u8],
    pos: usize,
}

/// A position snapshot used only for slicing; it carries no rollback duty.
#[derive(Clone, Copy, PartialEq, Eq, Debug)]
pub struct PhantomMark {
    pub pos: usize,
}

/// A checkpoint: `reset` moves the cursor back to it, `cancel` keeps the
/// cursor where it stands.
pub struct Mark {
    pos: usize,
}

impl Mark {
    pub closed spec fn spec_pos(&self) -> int {
        self.pos as int
    }

    pub fn position(&self) -> (r: usize)
        ensures
            r == self.spec_pos(),
    {
        self.pos
    }

    /// Commits: the cursor stays where it is now.
    pub fn cancel(self) {
    }

    /// Rolls the cursor back to the checkpoint.
    pub fn reset(self, cur: &mut Cursor)
        requires
            self.spec_pos() <= old(cur).data().len(),
        ensures
            final(cur).data() == old(cur).data(),
            final(cur).pos() == self.spec_pos(),
            final(cur).wf(),
    {
        cur.pos = self.pos;
    }
}

impl<'a> Cursor<'a> {
    #[verifier::type_invariant]
    spec fn inv(&self) -> bool {
        self.pos <= self.buf@.len()
    }

    pub closed spec fn data(&self) -> Seq<u8> {
        self.buf@
    }

    pub closed spec fn pos(&self) -> int {
        self.pos as int
    }

    pub open spec fn wf(&self) -> bool {
        0 <= self.pos() <= self.data().len()
    }

    pub open spec fn spec_available(&self) -> bool {
        self.pos() < self.data().len()
    }

    /// The byte under the cursor (meaningful only when available).
    pub open spec fn spec_current(&self) -> u8 {
        self.data()[self.pos()]
    }

    pub fn new(buf: &'a [u8]) -> (r: Cursor<'a>)
        ensures
            r.data() == buf@,
            r.pos() == 0,
            r.wf(),
    {
        Cursor { buf, pos: 0 }
    }

    pub fn buffer(&self) -> (r: &'a [u8])
        ensures
            r@ == self.data(),
    {
        proof {
            use_type_invariant(self);
        }
        self.buf
    }

    pub fn position(&self) -> (r: usize)
        ensures
            r == self.pos(),
            self.wf(),
    {
        proof {
            use_type_invariant(self);
        }
        self.pos
    }

    pub fn available(&self) -> (r: bool)
        ensures
            r == self.spec_available(),
    {
        proof {
            use_type_invariant(self);
        }
        self.pos < self.buf.len()
    }

    /// The byte under the cursor; the caller checks availability first.
    pub fn current(&self) -> (r: u8)
        requires
            self.spec_available(),
        ensures
            r == self.spec_current(),
    {
        proof {
            use_type_invariant(self);
        }
        self.buf[self.pos]
    }

    /// Moves forward by `n`; the caller makes sure the end is not passed.
    pub fn advance(&mut self, n: usize)
        requires
            old(self).pos() + n <= old(self).data().len(),
        ensures
            final(self).data() == old(self).data(),
            final(self).pos() == old(self).pos() + n,
            final(self).wf(),
    {
        proof {
            use_type_invariant(&*self);
        }
        let len = self.buf.len();
        assert(self.pos + n <= len);
        self.pos = self.pos + n;
    }

    /// Moves back by `n`, stopping at the start of the buffer.
    pub fn retract(&mut self, n: usize)
        ensures
            final(self).data() == old(self).data(),
            final(self).pos() == (if n > old(self).pos() { 0 } else { old(self).pos() - n }),
            final(self).wf(),
    {
        proof {
            use_type_invariant(&*self);
        }
        if n > self.pos {
            self.pos = 0;
        } else {
            self.pos = self.pos - n;
        }
    }

    /// Steps over one byte if there is one.
    pub fn next(&mut self) -> (r: bool)
        ensures
            final(self).data() == old(self).data(),
            r == old(self).spec_available(),
            final(self).pos() == old(self).pos() + (if r { 1int } else { 0int }),
            final(self).wf(),
    {
        proof {
            use_type_invariant(&*self);
        }
        if self.available() {
            self.advance(1);
            true
        } else {
            false
        }
    }

    /// Steps back over one byte, stopping at the start of the buffer.
    pub fn prev(&mut self)
        ensures
            final(self).data() == old(self).data(),
            final(self).pos() == (if old(self).pos() == 0 { 0 } else { old(self).pos() - 1 }),
            final(self).wf(),
    {
        proof {
            use_type_invariant(&*self);
        }
        self.retract(1);
    }

    pub fn current_byte(&self) -> (r: Option<u8>)
        ensures
            r == (if self.spec_available() { Some(self.spec_current()) } else { None::<u8> }),
    {
        proof {
            use_type_invariant(self);
        }
        if self.available() {
            Some(self.current())
        } else {
            None
        }
    }

    /// Returns the byte under the cursor and steps over it, or `None` at the end.
    pub fn next_byte(&mut self) -> (r: Option<u8>)
        ensures
            final(self).data() == old(self).data(),
            r == (if old(self).spec_available() { Some(old(self).spec_current()) } else { None::<u8> }),
            final(self).pos() == old(self).pos() + (if r is Some { 1int } else { 0int }),
            final(self).wf(),
    {
        proof {
            use_type_invariant(&*self);
        }
        if self.available() {
            let b = self.current();
            self.advance(1);
            Some(b)
        } else {
            None
        }
    }

    /// Steps back over one byte (stopping at the start) and returns the byte
    /// now under the cursor.
    pub fn prev_byte(&mut self) -> (r: u8)
        requires
            old(self).data().len() > 0,
        ensures
            final(self).data() == old(self).data(),
            final(self).pos() == (if old(self).pos() == 0 { 0 } else { old(self).pos() - 1 }),
            r == final(self).spec_current(),
            final(self).wf(),
    {
        proof {
            use_type_invariant(&*self);
        }
        self.retract(1);
        self.current()
    }

    pub fn phantom_mark(&self) -> (r: PhantomMark)
        ensures
            r.pos == self.pos(),
    {
        proof {
            use_type_invariant(self);
        }
        PhantomMark { pos: self.pos }
    }

    pub fn valid(&self, pm: PhantomMark) -> (r: bool)
        ensures
            r == (pm.pos <= self.data().len()),
    {
        proof {
            use_type_invariant(self);
        }
        pm.pos <= self.buf.len()
    }

    pub fn mark(&self) -> (r: Mark)
        ensures
            r.spec_pos() == self.pos(),
    {
        proof {
            use_type_invariant(self);
        }
        Mark { pos: self.pos }
    }

    /// The bytes between two recorded positions.
    pub fn slice(&self, left: PhantomMark, right: PhantomMark) -> (r: &'a [u8])
        requires
            left.pos <= right.pos <= self.data().len(),
        ensures
            r@ == self.data().subrange(left.pos as int, right.pos as int),
    {
        proof {
            use_type_invariant(self);
        }
        &self.buf[left.pos..right.pos]
    }

    /// The bytes from a recorded position up to the cursor.
    pub fn slice_to_now_from(&self, pm: PhantomMark) -> (r: &'a [u8])
        requires
            pm.pos <= self.pos(),
        ensures
            r@ == self.data().subrange(pm.pos as int, self.pos()),
    {
        proof {
            use_type_invariant(self);
        }
        &self.buf[pm.pos..self.pos]
    }

    /// The bytes from a recorded position up to the byte before the cursor.
    pub fn slice_until_now_from(&self, pm: PhantomMark) -> (r: &'a [u8])
        requires
            pm.pos < self.pos(),
        ensures
            r@ == self.data().subrange(pm.pos as int, self.pos() - 1),
    {
        proof {
            use_type_invariant(self);
        }
        &self.buf[pm.pos..self.pos - 1]
    }
}

} // verus!
