//! The character-level scanner: a random-access view over the input's
//! characters, a cursor, and a buffer of the characters consumed since the
//! buffer was last popped.  The scanner knows nothing of JSON; it only offers
//! peek / consume primitives over character sets.

use vstd::prelude::*;

use crate::parser::Error;
use vstd::string::StrSliceExecFns;

verus! {

/// The furthest index reachable from `i` by consuming characters of `cs`:
/// the end of the maximal run of characters of `cs` that starts at `i`.
pub open spec fn run_end(s: Seq<char>, i: int, cs: Seq<char>) -> int
    decreases s.len() - i,
{
    if 0 <= i < s.len() && cs.contains(s[i]) {
        run_end(s, i + 1, cs)
    } else {
        i
    }
}

pub proof fn lemma_run_end_bounds(s: Seq<char>, i: int, cs: Seq<char>)
    requires
        0 <= i <= s.len(),
    ensures
        i <= run_end(s, i, cs) <= s.len(),
    decreases s.len() - i,
{
    if i < s.len() && cs.contains(s[i]) {
        lemma_run_end_bounds(s, i + 1, cs);
    }
}

/// Whether `ch` is one of the characters of `chars`.
pub fn contains_char(chars: &str, ch: char) -> (b: bool)
    ensures
        b == chars@.contains(ch),
{
    let n = chars.unicode_len();
    let mut i: usize = 0;
    while i < n
        invariant
            n == chars@.len(),
            0 <= i <= n,
            forall|k: int| 0 <= k < i ==> chars@[k] != ch,
        decreases n - i,
    {
        if chars.get_char(i) == ch {
            assert(chars@.contains(ch));
            return true;
        }
        i = i + 1;
    }
    false
}

/// Relies on `String::push`: appends the given character to the end of the
/// string.
#[verifier::external_body]
fn push_char(s: &mut String, c: char)
    ensures
        final(s)@ == old(s)@.push(c),
{
    s.push(c);
}

/// Builds the string holding exactly the given characters, in order.
pub(crate) fn chars_to_string(chars: &Vec<char>) -> (r: String)
    ensures
        r@ == chars@,
{
    let mut s = String::new();
    let mut i: usize = 0;
    while i < chars.len()
        invariant
            0 <= i <= chars@.len(),
            s@ == chars@.subrange(0, i as int),
        decreases chars@.len() - i,
    {
        proof {
            assert(chars@.subrange(0, i + 1) =~= chars@.subrange(0, i as int).push(chars@[i as int]));
        }
        push_char(&mut s, chars[i]);
        i = i + 1;
    }
    proof {
        assert(chars@.subrange(0, chars@.len() as int) =~= chars@);
    }
    s
}

/// A cursor over the input's characters.  `input()` is the whole decoded
/// input, `pos()` the cursor, and `buf()` the characters consumed into the
/// buffer since the last `pop_buffer`.
pub struct Scanner {
    chars: Vec<char>,
    pointer: usize,
    buffer: Vec<char>,
}

impl Scanner {
    /// The input as a character sequence.
    pub closed spec fn input(self) -> Seq<char> {
        self.chars@
    }

    /// The cursor: the index of the next unread character.
    pub closed spec fn pos(self) -> int {
        self.pointer as int
    }

    /// The characters consumed since the buffer was last popped.
    pub closed spec fn buf(self) -> Seq<char> {
        self.buffer@
    }

    /// The cursor never runs past the end of the input.
    pub open spec fn wf(self) -> bool {
        0 <= self.pos() <= self.input().len()
    }

    pub fn new(value: &str) -> (s: Scanner)
        ensures
            s.wf(),
            s.input() == value@,
            s.pos() == 0,
            s.buf() == Seq::<char>::empty(),
    {
        let n = value.unicode_len();
        let mut chars: Vec<char> = Vec::new();
        let mut i: usize = 0;
        while i < n
            invariant
                n == value@.len(),
                0 <= i <= n,
                chars@ == value@.subrange(0, i as int),
            decreases n - i,
        {
            proof {
                assert(value@.subrange(0, i + 1) =~= value@.subrange(0, i as int).push(value@[i as int]));
            }
            chars.push(value.get_char(i));
            i = i + 1;
        }
        proof {
            assert(value@.subrange(0, value@.len() as int) =~= value@);
        }
        Scanner { chars, pointer: 0, buffer: Vec::new() }
    }

    /// The character under the cursor, or `None` at the end of the input.
    /// Never moves the cursor.
    pub fn peek(&mut self) -> (r: Option<char>)
        ensures
            *final(self) == *old(self),
            r == (if old(self).pos() < old(self).input().len() {
                Some(old(self).input()[old(self).pos()])
            } else {
                None::<char>
            }),
    {
        if self.pointer < self.chars.len() {
            Some(self.chars[self.pointer])
        } else {
            None
        }
    }

    /// Hands out the buffered characters as a string and empties the buffer.
    pub fn pop_buffer(&mut self) -> (r: String)
        ensures
            r@ == old(self).buf(),
            final(self).buf() == Seq::<char>::empty(),
            final(self).input() == old(self).input(),
            final(self).pos() == old(self).pos(),
    {
        let token = chars_to_string(&self.buffer);
        self.buffer.clear();
        token
    }

    /// Consumes one character unconditionally into the buffer; at the end of
    /// the input, reports `UnexpectedEndOfInput` and changes nothing.
    pub fn expect_single_any(&mut self) -> (r: Result<char, Error>)
        requires
            old(self).wf(),
        ensures
            final(self).wf(),
            final(self).input() == old(self).input(),
            (if old(self).pos() < old(self).input().len() {
                &&& r == Ok::<char, Error>(old(self).input()[old(self).pos()])
                &&& final(self).pos() == old(self).pos() + 1
                &&& final(self).buf() == old(self).buf().push(old(self).input()[old(self).pos()])
            } else {
                &&& r == Err::<char, Error>(Error::UnexpectedEndOfInput)
                &&& *final(self) == *old(self)
            }),
    {
        if self.pointer < self.chars.len() {
            let ch = self.chars[self.pointer];
            self.pointer = self.pointer + 1;
            self.buffer.push(ch);
            Ok(ch)
        } else {
            Err(Error::UnexpectedEndOfInput)
        }
    }

    /// Moves the cursor forward without touching the buffer.
    fn advance(&mut self, offset: usize)
        requires
            old(self).wf(),
            old(self).pos() + offset <= old(self).input().len(),
        ensures
            final(self).wf(),
            final(self).input() == old(self).input(),
            final(self).buf() == old(self).buf(),
            final(self).pos() == old(self).pos() + offset,
    {
        let n = self.chars.len();
        assert(self.pointer + offset <= n);
        self.pointer = self.pointer + offset;
    }

    /// Consumes one character into the buffer if it belongs to `chars`;
    /// otherwise, and at the end of the input, leaves the cursor untouched.
    /// Never fails: absence is signalled structurally, not as an error.
    pub fn possible_single(&mut self, chars: &str) -> (r: Result<(), Error>)
        requires
            old(self).wf(),
        ensures
            final(self).wf(),
            final(self).input() == old(self).input(),
            r == Ok::<(), Error>(()),
            (if old(self).pos() < old(self).input().len() && chars@.contains(
                old(self).input()[old(self).pos()],
            ) {
                &&& final(self).pos() == old(self).pos() + 1
                &&& final(self).buf() == old(self).buf().push(old(self).input()[old(self).pos()])
            } else {
                *final(self) == *old(self)
            }),
    {
        match self.peek() {
            None => Ok(()),
            Some(ch) => {
                if contains_char(chars, ch) {
                    let _ = self.expect_single_any();
                }
                Ok(())
            }
        }
    }

    /// Consumes one character into the buffer, which must belong to `chars`:
    /// a character outside the set is `LexicalError` (cursor untouched), the
    /// end of the input is `UnexpectedEndOfInput`.
    pub fn expect_single(&mut self, chars: &str) -> (r: Result<(), Error>)
        requires
            old(self).wf(),
        ensures
            final(self).wf(),
            final(self).input() == old(self).input(),
            (if old(self).pos() >= old(self).input().len() {
                &&& r == Err::<(), Error>(Error::UnexpectedEndOfInput)
                &&& *final(self) == *old(self)
            } else if chars@.contains(old(self).input()[old(self).pos()]) {
                &&& r == Ok::<(), Error>(())
                &&& final(self).pos() == old(self).pos() + 1
                &&& final(self).buf() == old(self).buf().push(old(self).input()[old(self).pos()])
            } else {
                &&& r == Err::<(), Error>(Error::LexicalError)
                &&& *final(self) == *old(self)
            }),
    {
        match self.peek() {
            None => Err(Error::UnexpectedEndOfInput),
            Some(ch) => {
                if contains_char(chars, ch) {
                    let _ = self.expect_single_any();
                    Ok(())
                } else {
                    Err(Error::LexicalError)
                }
            }
        }
    }

    /// Consumes the maximal run of characters of `chars` into the buffer
    /// (possibly empty).  Never fails.
    pub fn possible_many(&mut self, chars: &str) -> (r: Result<(), Error>)
        requires
            old(self).wf(),
        ensures
            final(self).wf(),
            final(self).input() == old(self).input(),
            final(self).pos() == run_end(old(self).input(), old(self).pos(), chars@),
            final(self).buf() == old(self).buf() + old(self).input().subrange(
                old(self).pos(),
                final(self).pos(),
            ),
            r == Ok::<(), Error>(()),
    {
        let ghost s0 = *old(self);
        loop
            invariant
                self.wf(),
                self.input() == s0.input(),
                s0.pos() <= self.pos(),
                self.buf() == s0.buf() + self.input().subrange(s0.pos(), self.pos()),
                run_end(self.input(), self.pos(), chars@) == run_end(s0.input(), s0.pos(), chars@),
            ensures
                self.wf(),
                self.input() == s0.input(),
                s0.pos() <= self.pos(),
                self.buf() == s0.buf() + self.input().subrange(s0.pos(), self.pos()),
                self.pos() == run_end(s0.input(), s0.pos(), chars@),
            decreases self.input().len() - self.pos(),
        {
            match self.peek() {
                None => {
                    break;
                }
                Some(ch) => {
                    if contains_char(chars, ch) {
                        proof {
                            assert(self.input().subrange(s0.pos(), self.pos() + 1)
                                =~= self.input().subrange(s0.pos(), self.pos()).push(
                                    self.input()[self.pos()],
                                ));
                        }
                        let _ = self.expect_single_any();
                    } else {
                        break;
                    }
                }
            }
        }
        Ok(())
    }

    /// As `possible_single`, with the set given as a string of characters.
    pub fn possible_single_characters(&mut self, chars: &'static str) -> (r: Result<(), Error>)
        requires
            old(self).wf(),
        ensures
            final(self).wf(),
            final(self).input() == old(self).input(),
            r == Ok::<(), Error>(()),
            (if old(self).pos() < old(self).input().len() && chars@.contains(
                old(self).input()[old(self).pos()],
            ) {
                &&& final(self).pos() == old(self).pos() + 1
                &&& final(self).buf() == old(self).buf().push(old(self).input()[old(self).pos()])
            } else {
                *final(self) == *old(self)
            }),
    {
        self.possible_single(chars)
    }

    /// As `possible_many`, with the set given as a string of characters.
    pub fn possible_many_characters(&mut self, chars: &'static str) -> (r: Result<(), Error>)
        requires
            old(self).wf(),
        ensures
            final(self).wf(),
            final(self).input() == old(self).input(),
            final(self).pos() == run_end(old(self).input(), old(self).pos(), chars@),
            final(self).buf() == old(self).buf() + old(self).input().subrange(
                old(self).pos(),
                final(self).pos(),
            ),
            r == Ok::<(), Error>(()),
    {
        self.possible_many(chars)
    }

    /// Consumes one character unconditionally into the buffer and then
    /// requires it to belong to `chars`: a character outside the set is
    /// consumed all the same and reported as `LexicalError`.
    pub fn expect_single_characters(&mut self, chars: &'static str) -> (r: Result<(), Error>)
        requires
            old(self).wf(),
        ensures
            final(self).wf(),
            final(self).input() == old(self).input(),
            (if old(self).pos() >= old(self).input().len() {
                &&& r == Err::<(), Error>(Error::UnexpectedEndOfInput)
                &&& *final(self) == *old(self)
            } else {
                &&& final(self).pos() == old(self).pos() + 1
                &&& final(self).buf() == old(self).buf().push(old(self).input()[old(self).pos()])
                &&& r == (if chars@.contains(old(self).input()[old(self).pos()]) {
                    Ok::<(), Error>(())
                } else {
                    Err::<(), Error>(Error::LexicalError)
                })
            }),
    {
        let ch = match self.expect_single_any() {
            Ok(ch) => ch,
            Err(e) => {
                return Err(e);
            }
        };
        if contains_char(chars, ch) {
            Ok(())
        } else {
            Err(Error::LexicalError)
        }
    }

    /// Consumes a run of one or more characters of `chars` into the buffer:
    /// `expect_single_characters` followed by `possible_many_characters`.
    pub fn expect_many_characters(&mut self, chars: &'static str) -> (r: Result<(), Error>)
        requires
            old(self).wf(),
        ensures
            final(self).wf(),
            final(self).input() == old(self).input(),
            (if old(self).pos() >= old(self).input().len() {
                &&& r == Err::<(), Error>(Error::UnexpectedEndOfInput)
                &&& *final(self) == *old(self)
            } else if chars@.contains(old(self).input()[old(self).pos()]) {
                &&& r == Ok::<(), Error>(())
                &&& final(self).pos() == run_end(old(self).input(), old(self).pos(), chars@)
                &&& final(self).buf() == old(self).buf() + old(self).input().subrange(
                    old(self).pos(),
                    final(self).pos(),
                )
            } else {
                &&& r == Err::<(), Error>(Error::LexicalError)
                &&& final(self).pos() == old(self).pos() + 1
                &&& final(self).buf() == old(self).buf().push(old(self).input()[old(self).pos()])
            }),
    {
        let ghost s0 = *old(self);
        match self.expect_single_characters(chars) {
            Ok(()) => {}
            Err(e) => {
                return Err(e);
            }
        }
        let r = self.possible_many_characters(chars);
        proof {
            let s = s0.input();
            let p = s0.pos();
            lemma_run_end_bounds(s, p + 1, chars@);
            assert(run_end(s, p, chars@) == run_end(s, p + 1, chars@));
            assert(s0.buf().push(s[p]) + s.subrange(p + 1, self.pos())
                =~= s0.buf() + s.subrange(p, self.pos()));
        }
        r
    }

    /// Compares the next `expected_text.len()` characters to `expected_text`
    /// and moves the cursor past them whether or not they match (a mismatch
    /// is `LexicalError`).  When fewer characters remain, reports
    /// `UnexpectedEndOfInput` and changes nothing.  The buffer is untouched.
    pub fn take_string(&mut self, expected_text: &str) -> (r: Result<(), Error>)
        requires
            old(self).wf(),
        ensures
            final(self).wf(),
            final(self).input() == old(self).input(),
            final(self).buf() == old(self).buf(),
            ({
                let s = old(self).input();
                let p = old(self).pos();
                let w = expected_text@;
                if p + w.len() > s.len() {
                    &&& r == Err::<(), Error>(Error::UnexpectedEndOfInput)
                    &&& final(self).pos() == p
                } else if s.subrange(p, p + w.len()) == w {
                    &&& r == Ok::<(), Error>(())
                    &&& final(self).pos() == p + w.len()
                } else {
                    &&& r == Err::<(), Error>(Error::LexicalError)
                    &&& final(self).pos() == p + w.len()
                }
            }),
    {
        let ghost s = old(self).input();
        let ghost p = old(self).pos();
        let ghost w = expected_text@;
        let elen = expected_text.unicode_len();
        let n = self.chars.len();
        if elen > n - self.pointer {
            return Err(Error::UnexpectedEndOfInput);
        }
        let mut i: usize = 0;
        let mut matched = true;
        while i < elen
            invariant
                *self == *old(self),
                self.wf(),
                s == self.input(),
                p == self.pos(),
                w == expected_text@,
                elen == w.len(),
                n == s.len(),
                p + elen <= s.len(),
                0 <= i <= elen,
                matched <==> (forall|k: int| 0 <= k < i ==> s[p + k] == w[k]),
            decreases elen - i,
        {
            if self.chars[self.pointer + i] != expected_text.get_char(i) {
                matched = false;
            }
            i = i + 1;
        }
        self.advance(elen);
        if matched {
            proof {
                assert(s.subrange(p, p + w.len()) =~= w);
            }
            Ok(())
        } else {
            proof {
                if s.subrange(p, p + w.len()) == w {
                    assert(forall|k: int|
                        0 <= k < elen ==> s[p + k] == #[trigger] s.subrange(p, p + w.len())[k]);
                    assert(false);
                }
            }
            Err(Error::LexicalError)
        }
    }
}

} // verus!
