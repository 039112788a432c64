use vstd::prelude::*;

verus! {

/// Bytes of the markup that the parser looks for.
pub const NEWLINE: u8 = 10;
pub const SPACE: u8 = 32;
pub const BANG: u8 = 33;
pub const DOUBLE_QUOTE: u8 = 34;
pub const HASH: u8 = 35;
pub const AMPERSAND: u8 = 38;
pub const SINGLE_QUOTE: u8 = 39;
pub const OPEN_PAREN: u8 = 40;
pub const CLOSE_PAREN: u8 = 41;
pub const STAR: u8 = 42;
pub const PLUS: u8 = 43;
pub const DASH: u8 = 45;
pub const DOT: u8 = 46;
pub const DIGIT_ZERO: u8 = 48;
pub const DIGIT_NINE: u8 = 57;
pub const COLON: u8 = 58;
pub const LESS: u8 = 60;
pub const EQUALS: u8 = 61;
pub const GREATER: u8 = 62;
pub const OPEN_BRACKET: u8 = 91;
pub const BACKSLASH: u8 = 92;
pub const CLOSE_BRACKET: u8 = 93;
pub const CARET: u8 = 94;
pub const UNDERSCORE: u8 = 95;
pub const BACKTICK: u8 = 96;
pub const OPEN_BRACE: u8 = 123;
pub const PIPE: u8 = 124;
pub const CLOSE_BRACE: u8 = 125;
pub const TILDE: u8 = 126;

/// Classes of bytes that the parser tells apart.
pub trait CharOps: Sized {
    spec fn spec_is_emphasis(self) -> bool;

    spec fn spec_is_code(self) -> bool;

    spec fn spec_is_space(self) -> bool;

    spec fn spec_is_numeric(self) -> bool;

    fn is_emphasis(self) -> (r: bool)
        ensures
            r == self.spec_is_emphasis(),
    ;

    fn is_code(self) -> (r: bool)
        ensures
            r == self.spec_is_code(),
    ;

    fn is_space(self) -> (r: bool)
        ensures
            r == self.spec_is_space(),
    ;

    fn is_numeric(self) -> (r: bool)
        ensures
            r == self.spec_is_numeric(),
    ;
}

impl CharOps for u8 {
    open spec fn spec_is_emphasis(self) -> bool {
        self == STAR || self == UNDERSCORE
    }

    open spec fn spec_is_code(self) -> bool {
        self == BACKTICK
    }

    open spec fn spec_is_space(self) -> bool {
        self == SPACE || self == NEWLINE
    }

    open spec fn spec_is_numeric(self) -> bool {
        DIGIT_ZERO <= self <= DIGIT_NINE
    }

    fn is_emphasis(self) -> (r: bool) {
        self == STAR || self == UNDERSCORE
    }

    fn is_code(self) -> (r: bool) {
        self == BACKTICK
    }

    fn is_space(self) -> (r: bool) {
        self == SPACE || self == NEWLINE
    }

    fn is_numeric(self) -> (r: bool) {
        DIGIT_ZERO <= self && self <= DIGIT_NINE
    }
}

/// A set of bytes.
pub trait ByteMatcher {
    spec fn spec_matches(&self, b: u8) -> bool;

    fn matches(&self, b: u8) -> (r: bool)
        ensures
            r == self.spec_matches(b),
    ;
}

impl ByteMatcher for u8 {
    open spec fn spec_matches(&self, b: u8) -> bool {
        *self == b
    }

    fn matches(&self, b: u8) -> (r: bool) {
        *self == b
    }
}

impl<'a> ByteMatcher for &'a [u8] {
    open spec fn spec_matches(&self, b: u8) -> bool {
        self@.contains(b)
    }

    fn matches(&self, b: u8) -> (r: bool) {
        let n = self.len();
        let mut i: usize = 0;
        while i < n
            invariant
                n == self@.len(),
                0 <= i <= n,
                forall|j: int| 0 <= j < i ==> self@[j] != b,
            decreases n - i,
        {
            if self[i] == b {
                return true;
            }
            i = i + 1;
        }
        false
    }
}

/// Trimming of byte slices.
pub trait ByteSliceOps<'a> {
    spec fn bytes(&self) -> Seq<u8>;

    /// Drops the leading bytes that `m` matches.
    fn trim_left<M: ByteMatcher>(&self, m: M) -> (r: &'a [u8])
        ensures
            exists|k: int|
                0 <= k <= self.bytes().len() && r@ == self.bytes().subrange(k, self.bytes().len() as int)
                    && (forall|j: int| 0 <= j < k ==> m.spec_matches(#[trigger] self.bytes()[j]))
                    && (k < self.bytes().len() ==> !m.spec_matches(self.bytes()[k])),
    ;

    /// Drops the trailing bytes that `m` matches.
    fn trim_right<M: ByteMatcher>(&self, m: M) -> (r: &'a [u8])
        ensures
            exists|k: int|
                0 <= k <= self.bytes().len() && r@ == self.bytes().subrange(0, k) && (forall|j: int|
                    k <= j < self.bytes().len() ==> m.spec_matches(#[trigger] self.bytes()[j])) && (k
                    > 0 ==> !m.spec_matches(self.bytes()[k - 1])),
    ;

    /// Drops the first byte if `m` matches it.
    fn trim_left_one<M: ByteMatcher>(&self, m: M) -> (r: &'a [u8])
        ensures
            r@ == if self.bytes().len() > 0 && m.spec_matches(self.bytes()[0]) {
                self.bytes().subrange(1, self.bytes().len() as int)
            } else {
                self.bytes()
            },
    ;

    /// Drops the last byte if `m` matches it.
    fn trim_right_one<M: ByteMatcher>(&self, m: M) -> (r: &'a [u8])
        ensures
            r@ == if self.bytes().len() > 0 && m.spec_matches(self.bytes().last()) {
                self.bytes().subrange(0, self.bytes().len() - 1)
            } else {
                self.bytes()
            },
    ;
}

impl<'a> ByteSliceOps<'a> for &'a [u8] {
    open spec fn bytes(&self) -> Seq<u8> {
        self@
    }

    fn trim_left<M: ByteMatcher>(&self, m: M) -> (r: &'a [u8]) {
        let s: &'a [u8] = *self;
        assert(s@ == self.bytes());
        let n = s.len();
        let mut i: usize = 0;
        while i < n
            invariant
                n == s@.len(),
                s@ == self.bytes(),
                0 <= i <= n,
                forall|j: int| 0 <= j < i ==> m.spec_matches(#[trigger] s@[j]),
            decreases n - i,
        {
            if !m.matches(s[i]) {
                let r = &s[i..n];
                assert(r@ == self.bytes().subrange(i as int, self.bytes().len() as int));
                return r;
            }
            i = i + 1;
        }
        let r = &s[n..n];
        assert(r@ == self.bytes().subrange(n as int, self.bytes().len() as int));
        r
    }

    fn trim_right<M: ByteMatcher>(&self, m: M) -> (r: &'a [u8]) {
        let s: &'a [u8] = *self;
        assert(s@ == self.bytes());
        let n = s.len();
        let mut i: usize = n;
        while i > 0
            invariant
                n == s@.len(),
                s@ == self.bytes(),
                0 <= i <= n,
                forall|j: int| i <= j < n ==> m.spec_matches(#[trigger] s@[j]),
            decreases i,
        {
            if !m.matches(s[i - 1]) {
                let r = &s[0..i];
                assert(r@ == self.bytes().subrange(0, i as int));
                return r;
            }
            i = i - 1;
        }
        let r = &s[0..0];
        assert(r@ == self.bytes().subrange(0, 0));
        r
    }

    fn trim_left_one<M: ByteMatcher>(&self, m: M) -> (r: &'a [u8]) {
        let s: &'a [u8] = *self;
        assert(s@ == self.bytes());
        let n = s.len();
        if n > 0 && m.matches(s[0]) {
            &s[1..n]
        } else {
            s
        }
    }

    fn trim_right_one<M: ByteMatcher>(&self, m: M) -> (r: &'a [u8]) {
        let s: &'a [u8] = *self;
        assert(s@ == self.bytes());
        let n = s.len();
        if n > 0 && m.matches(s[n - 1]) {
            &s[0..n - 1]
        } else {
            s
        }
    }
}

} // verus!
