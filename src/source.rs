use vstd::prelude::*;
use vstd::string::*;
use vstd::utf8::is_ascii_chars_encode_utf8;

verus! {

broadcast use vstd::string::group_string_axioms;

/// The byte at `i`, or 0 past either end of `s`: one byte of lookahead that
/// never fails.
pub open spec fn byte_at(s: Seq<u8>, i: int) -> u8 {
    if 0 <= i < s.len() {
        s[i]
    } else {
        0
    }
}

/// A cursor over ASCII source text. `start` marks the first byte of the lexeme
/// in progress and `current` the next byte to consume.
#[derive(Debug, Clone, Copy)]
pub struct Source<'a> {
    start: usize,
    current: usize,
    text: &'a str,
    source: &'a [u8],
}

impl<'a> Source<'a> {
    /// The cursor positions of a well-formed source lie within its text.
    pub broadcast proof fn lemma_positions(&self)
        requires
            #[trigger] self.wf(),
        ensures
            0 <= self.start_pos() <= self.current_pos() <= self.bytes().len() <= usize::MAX,
            self.bytes().len() == self.chars().len(),
    {
    }

    /// The bytes of the text.
    pub closed spec fn bytes(&self) -> Seq<u8> {
        self.source@
    }

    /// The text as characters.
    pub closed spec fn chars(&self) -> Seq<char> {
        self.text@
    }

    pub closed spec fn start_pos(&self) -> int {
        self.start as int
    }

    pub closed spec fn current_pos(&self) -> int {
        self.current as int
    }

    pub closed spec fn wf(&self) -> bool {
        &&& self.start <= self.current <= self.source@.len() <= usize::MAX
        &&& self.text.is_ascii()
        &&& self.source@ == self.text.spec_bytes()
        &&& self.source@.len() == self.text@.len()
        &&& forall|i: int|
            0 <= i < self.text@.len() ==> #[trigger] self.source@[i] == self.text@[i] as u8
    }

    pub fn new(source: &'a str) -> (r: Self)
        requires
            source.is_ascii(),
        ensures
            r.wf(),
            r.bytes() == source.spec_bytes(),
            r.bytes().len() <= usize::MAX,
            r.chars() == source@,
            r.start_pos() == 0,
            r.current_pos() == 0,
    {
        let bytes = source.as_bytes();
        let _ = bytes.len();
        proof {
            is_ascii_chars_encode_utf8(source@);
        }
        Self { start: 0, current: 0, text: source, source: bytes }
    }

    pub fn is_at_end(&self) -> (r: bool)
        requires
            self.wf(),
        ensures
            r == (self.current_pos() == self.bytes().len()),
    {
        self.current == self.source.len()
    }

    /// Consumes the next byte and returns it.
    pub fn advance(&mut self) -> (r: u8)
        requires
            old(self).wf(),
            old(self).current_pos() < old(self).bytes().len(),
        ensures
            final(self).wf(),
            r == old(self).bytes()[old(self).current_pos()],
            final(self).current_pos() == old(self).current_pos() + 1,
            final(self).start_pos() == old(self).start_pos(),
            final(self).bytes() == old(self).bytes(),
            final(self).chars() == old(self).chars(),
    {
        self.current = self.current + 1;
        self.source[self.current - 1]
    }

    /// Consumes the next byte when it is `expected`.
    pub fn match_char(&mut self, expected: u8) -> (r: bool)
        requires
            old(self).wf(),
        ensures
            final(self).wf(),
            r == (old(self).current_pos() < old(self).bytes().len()
                && old(self).bytes()[old(self).current_pos()] == expected),
            final(self).current_pos() == old(self).current_pos() + if r { 1int } else { 0int },
            final(self).start_pos() == old(self).start_pos(),
            final(self).bytes() == old(self).bytes(),
            final(self).chars() == old(self).chars(),
    {
        if self.is_at_end() {
            return false;
        }
        if self.source[self.current] != expected {
            return false;
        }
        self.current = self.current + 1;
        true
    }

    /// The next byte, or 0 at the end.
    pub fn peek(&self) -> (r: u8)
        requires
            self.wf(),
        ensures
            r == byte_at(self.bytes(), self.current_pos()),
    {
        if self.current < self.source.len() {
            self.source[self.current]
        } else {
            0
        }
    }

    /// The byte after the next one, or 0 past the end.
    pub fn peek_next(&self) -> (r: u8)
        requires
            self.wf(),
        ensures
            r == byte_at(self.bytes(), self.current_pos() + 1),
    {
        if self.current < self.source.len() && self.current + 1 < self.source.len() {
            self.source[self.current + 1]
        } else {
            0
        }
    }

    /// The lexeme in progress, from `start` up to `current`.
    pub fn current_str(&self) -> (r: &'a str)
        requires
            self.wf(),
        ensures
            r@ == self.chars().subrange(self.start_pos(), self.current_pos()),
            r.is_ascii(),
            r.spec_bytes() == self.bytes().subrange(self.start_pos(), self.current_pos()),
    {
        let r = self.text.substring_ascii(self.start, self.current);
        proof {
            is_ascii_chars_encode_utf8(r@);
            assert(r.spec_bytes() =~= self.bytes().subrange(self.start_pos(), self.current_pos()));
        }
        r
    }

    /// Begins a new lexeme at the cursor.
    pub fn reset(&mut self)
        requires
            old(self).wf(),
        ensures
            final(self).wf(),
            final(self).start_pos() == old(self).current_pos(),
            final(self).current_pos() == old(self).current_pos(),
            final(self).bytes() == old(self).bytes(),
            final(self).chars() == old(self).chars(),
    {
        self.start = self.current;
    }
}

} // verus!
