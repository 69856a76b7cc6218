//! The tokenizer: produces JSON's lexical tokens one at a time from the
//! scanner's character stream, skipping insignificant whitespace.  String
//! tokens carry their decoded content (escapes resolved, surrogate pairs
//! reassembled); number tokens carry the exact matched numeral text.

use vstd::prelude::*;

use crate::parser::Error;
use crate::scanner::{chars_to_string, run_end, Scanner};

verus! {

/// A lexical token.  `String` holds the decoded character content of a string
/// literal; `Number` holds the raw matched numeral text.
#[derive(Debug, PartialEq, Eq)]
pub enum Token {
    Colon,
    Comma,
    ObjectOpen,
    ObjectClose,
    ArrayOpen,
    ArrayClose,
    True,
    False,
    Null,
    String(String),
    Number(String),
}

/// The mathematical model of a token: as `Token`, with character sequences
/// for the payloads.
pub enum TokenModel {
    Colon,
    Comma,
    ObjectOpen,
    ObjectClose,
    ArrayOpen,
    ArrayClose,
    True,
    False,
    Null,
    String(Seq<char>),
    Number(Seq<char>),
}

impl View for Token {
    type V = TokenModel;

    open spec fn view(&self) -> TokenModel {
        match self {
            Token::Colon => TokenModel::Colon,
            Token::Comma => TokenModel::Comma,
            Token::ObjectOpen => TokenModel::ObjectOpen,
            Token::ObjectClose => TokenModel::ObjectClose,
            Token::ArrayOpen => TokenModel::ArrayOpen,
            Token::ArrayClose => TokenModel::ArrayClose,
            Token::True => TokenModel::True,
            Token::False => TokenModel::False,
            Token::Null => TokenModel::Null,
            Token::String(s) => TokenModel::String(s@),
            Token::Number(s) => TokenModel::Number(s@),
        }
    }
}

// ---------------------------------------------------------------------------
// The reference lexer: spec functions that assign to every position of the
// input the token that starts there, the position after it, or the error.
// The tokenizer's contract ties what it returns to these functions.
// ---------------------------------------------------------------------------

/// JSON's four insignificant whitespace characters.
pub open spec fn is_ws(c: char) -> bool {
    c == ' ' || c == '\r' || c == '\n' || c == '\t'
}

pub open spec fn is_digit(c: char) -> bool {
    '0' <= c && c <= '9'
}

pub open spec fn is_nonzero_digit(c: char) -> bool {
    '1' <= c && c <= '9'
}

pub open spec fn is_hex_digit(c: char) -> bool {
    is_digit(c) || ('a' <= c && c <= 'f') || ('A' <= c && c <= 'F')
}

/// The value of one hexadecimal digit.
pub open spec fn hex_digit_val(c: char) -> int {
    if is_digit(c) {
        c as int - '0' as int
    } else if 'a' <= c && c <= 'f' {
        c as int - 'a' as int + 10
    } else {
        c as int - 'A' as int + 10
    }
}

/// Whether four hexadecimal digits stand at `i`.
pub open spec fn hex4_ok(s: Seq<char>, i: int) -> bool {
    &&& 0 <= i
    &&& i + 4 <= s.len()
    &&& is_hex_digit(s[i])
    &&& is_hex_digit(s[i + 1])
    &&& is_hex_digit(s[i + 2])
    &&& is_hex_digit(s[i + 3])
}

/// The value of the four hexadecimal digits at `i`.
pub open spec fn hex4_val(s: Seq<char>, i: int) -> int {
    4096 * hex_digit_val(s[i]) + 256 * hex_digit_val(s[i + 1]) + 16 * hex_digit_val(s[i + 2])
        + hex_digit_val(s[i + 3])
}

/// The first index at or after `i` holding no whitespace character.
pub open spec fn skip_ws(s: Seq<char>, i: int) -> int
    decreases s.len() - i,
{
    if 0 <= i < s.len() && is_ws(s[i]) {
        skip_ws(s, i + 1)
    } else {
        i
    }
}

/// The end of the maximal run of decimal digits starting at `i`.
pub open spec fn digits_end(s: Seq<char>, i: int) -> int
    decreases s.len() - i,
{
    if 0 <= i < s.len() && is_digit(s[i]) {
        digits_end(s, i + 1)
    } else {
        i
    }
}

/// What a single-character escape decodes to, or `None` if the character may
/// not follow a backslash (`u` is handled separately).
pub open spec fn simple_escape(c: char) -> Option<char> {
    if c == '"' {
        Some('"')
    } else if c == '\\' {
        Some('\\')
    } else if c == '/' {
        Some('/')
    } else if c == 'b' {
        Some('\u{0008}')
    } else if c == 'f' {
        Some('\u{000C}')
    } else if c == 'n' {
        Some('\n')
    } else if c == 'r' {
        Some('\r')
    } else if c == 't' {
        Some('\t')
    } else {
        None::<char>
    }
}

pub open spec fn prepend_decoded(c: char, rest: Option<(Seq<char>, int)>) -> Option<
    (Seq<char>, int),
> {
    match rest {
        Some((cs, j)) => Some((seq![c] + cs, j)),
        None => None,
    }
}

/// The decoded content of the string literal whose opening quote stands just
/// before `i`, together with the index after its closing quote, or `None`
/// when the characters at `i` are no well-formed string body.  A `\uXXXX`
/// escape naming a high surrogate must be followed by one naming a low
/// surrogate; the pair decodes to one character above the Basic Multilingual
/// Plane.
pub open spec fn lex_string_body(s: Seq<char>, i: int) -> Option<(Seq<char>, int)>
    decreases s.len() - i,
{
    if i < 0 || i >= s.len() {
        None
    } else if s[i] == '"' {
        Some((Seq::empty(), i + 1))
    } else if s[i] == '\\' {
        if i + 1 >= s.len() {
            None
        } else if s[i + 1] == 'u' {
            if !hex4_ok(s, i + 2) {
                None
            } else {
                let v = hex4_val(s, i + 2);
                if 0xD800 <= v && v < 0xDC00 {
                    if hex4_ok(s, i + 8) && s[i + 6] == '\\' && s[i + 7] == 'u' && 0xDC00
                        <= hex4_val(s, i + 8) && hex4_val(s, i + 8) < 0xE000 {
                        let w = hex4_val(s, i + 8);
                        prepend_decoded(
                            (0x10000 + (v - 0xD800) * 0x400 + (w - 0xDC00)) as char,
                            lex_string_body(s, i + 12),
                        )
                    } else {
                        None
                    }
                } else if 0xDC00 <= v && v < 0xE000 {
                    None
                } else {
                    prepend_decoded(v as char, lex_string_body(s, i + 6))
                }
            }
        } else {
            match simple_escape(s[i + 1]) {
                Some(c) => prepend_decoded(c, lex_string_body(s, i + 2)),
                None => None,
            }
        }
    } else {
        prepend_decoded(s[i], lex_string_body(s, i + 1))
    }
}

/// The index after the integer part of the numeral at `i` (optional minus
/// sign, then a single `0` or a nonzero digit followed by digits), or `None`.
pub open spec fn int_part_end(s: Seq<char>, i: int) -> Option<int> {
    if i < 0 {
        None
    } else {
        let j = if i < s.len() && s[i] == '-' {
            i + 1
        } else {
            i
        };
        if j < s.len() && s[j] == '0' {
            Some(j + 1)
        } else if j < s.len() && is_nonzero_digit(s[j]) {
            Some(digits_end(s, j))
        } else {
            None
        }
    }
}

/// The index after the optional fractional part at `k`: a `.` must be
/// followed by at least one digit.
pub open spec fn frac_end(s: Seq<char>, k: int) -> Option<int> {
    if 0 <= k < s.len() && s[k] == '.' {
        let d = digits_end(s, k + 1);
        if d == k + 1 {
            None
        } else {
            Some(d)
        }
    } else {
        Some(k)
    }
}

/// The index after the optional exponent part at `m`: `e` or `E`, an
/// optional sign, then at least one digit.
pub open spec fn exp_end(s: Seq<char>, m: int) -> Option<int> {
    if 0 <= m < s.len() && (s[m] == 'e' || s[m] == 'E') {
        let p = if m + 1 < s.len() && (s[m + 1] == '+' || s[m + 1] == '-') {
            m + 2
        } else {
            m + 1
        };
        let d = digits_end(s, p);
        if d == p {
            None
        } else {
            Some(d)
        }
    } else {
        Some(m)
    }
}

/// The index after the numeral at `i` under JSON's numeric grammar, or
/// `None` when no numeral stands there.
pub open spec fn lex_number_end(s: Seq<char>, i: int) -> Option<int> {
    match int_part_end(s, i) {
        None => None,
        Some(k) => match frac_end(s, k) {
            None => None,
            Some(m) => exp_end(s, m),
        },
    }
}

/// The token starting at the first non-whitespace position at or after
/// `start`: the token's model and the position after it, or the error.
/// `UnexpectedEndOfInput` signals a clean end of the input; every failure
/// inside a token is `LexicalError`.
pub open spec fn spec_next_token(s: Seq<char>, start: int) -> Result<(TokenModel, int), Error> {
    let i = skip_ws(s, start);
    if i >= s.len() {
        Err(Error::UnexpectedEndOfInput)
    } else {
        let c = s[i];
        if c == ',' {
            Ok((TokenModel::Comma, i + 1))
        } else if c == ':' {
            Ok((TokenModel::Colon, i + 1))
        } else if c == '{' {
            Ok((TokenModel::ObjectOpen, i + 1))
        } else if c == '}' {
            Ok((TokenModel::ObjectClose, i + 1))
        } else if c == '[' {
            Ok((TokenModel::ArrayOpen, i + 1))
        } else if c == ']' {
            Ok((TokenModel::ArrayClose, i + 1))
        } else if c == 't' {
            if i + 4 <= s.len() && s[i + 1] == 'r' && s[i + 2] == 'u' && s[i + 3] == 'e' {
                Ok((TokenModel::True, i + 4))
            } else {
                Err(Error::LexicalError)
            }
        } else if c == 'f' {
            if i + 5 <= s.len() && s[i + 1] == 'a' && s[i + 2] == 'l' && s[i + 3] == 's' && s[i + 4]
                == 'e' {
                Ok((TokenModel::False, i + 5))
            } else {
                Err(Error::LexicalError)
            }
        } else if c == 'n' {
            if i + 4 <= s.len() && s[i + 1] == 'u' && s[i + 2] == 'l' && s[i + 3] == 'l' {
                Ok((TokenModel::Null, i + 4))
            } else {
                Err(Error::LexicalError)
            }
        } else if c == '"' {
            match lex_string_body(s, i + 1) {
                Some((cs, j)) => Ok((TokenModel::String(cs), j)),
                None => Err(Error::LexicalError),
            }
        } else if c == '-' || is_digit(c) {
            match lex_number_end(s, i) {
                Some(j) => Ok((TokenModel::Number(s.subrange(i, j)), j)),
                None => Err(Error::LexicalError),
            }
        } else {
            Err(Error::LexicalError)
        }
    }
}

// ---------------------------------------------------------------------------
// Bounds of the reference lexer: every token ends after the position it was
// asked for and within the input.
// ---------------------------------------------------------------------------

pub proof fn lemma_skip_ws_bounds(s: Seq<char>, i: int)
    ensures
        i <= skip_ws(s, i),
        i <= s.len() ==> skip_ws(s, i) <= s.len(),
    decreases s.len() - i,
{
    if 0 <= i < s.len() && is_ws(s[i]) {
        lemma_skip_ws_bounds(s, i + 1);
    }
}

pub proof fn lemma_digits_end_bounds(s: Seq<char>, i: int)
    ensures
        i <= digits_end(s, i),
        i <= s.len() ==> digits_end(s, i) <= s.len(),
    decreases s.len() - i,
{
    if 0 <= i < s.len() && is_digit(s[i]) {
        lemma_digits_end_bounds(s, i + 1);
    }
}

pub proof fn lemma_string_body_bounds(s: Seq<char>, i: int)
    ensures
        lex_string_body(s, i) matches Some(r) ==> i + 1 <= r.1 <= s.len(),
    decreases s.len() - i,
{
    if i < 0 || i >= s.len() {
    } else if s[i] == '"' {
    } else if s[i] == '\\' {
        if i + 1 >= s.len() {
        } else if s[i + 1] == 'u' {
            if hex4_ok(s, i + 2) {
                let v = hex4_val(s, i + 2);
                if 0xD800 <= v && v < 0xDC00 {
                    if hex4_ok(s, i + 8) {
                        lemma_string_body_bounds(s, i + 12);
                    }
                } else {
                    lemma_string_body_bounds(s, i + 6);
                }
            }
        } else {
            lemma_string_body_bounds(s, i + 2);
        }
    } else {
        lemma_string_body_bounds(s, i + 1);
    }
}

pub proof fn lemma_number_end_bounds(s: Seq<char>, i: int)
    ensures
        lex_number_end(s, i) matches Some(j) ==> i + 1 <= j <= s.len(),
{
    match int_part_end(s, i) {
        None => {}
        Some(k) => {
            let j = if i < s.len() && s[i] == '-' {
                i + 1
            } else {
                i
            };
            lemma_digits_end_bounds(s, j);
            lemma_digits_end_bounds(s, j + 1);
            assert(i + 1 <= k <= s.len());
            match frac_end(s, k) {
                None => {}
                Some(m) => {
                    lemma_digits_end_bounds(s, k + 1);
                    assert(k <= m <= s.len());
                    if 0 <= m < s.len() && (s[m] == 'e' || s[m] == 'E') {
                        let p = if m + 1 < s.len() && (s[m + 1] == '+' || s[m + 1] == '-') {
                            m + 2
                        } else {
                            m + 1
                        };
                        lemma_digits_end_bounds(s, p);
                    }
                }
            }
        }
    }
}

/// Every token the reference lexer yields ends after the position it
/// started from and within the input.
pub broadcast proof fn lemma_next_token_advances(s: Seq<char>, start: int)
    ensures
        #[trigger] spec_next_token(s, start) matches Ok(r) ==> start < r.1 <= s.len(),
{
    lemma_skip_ws_bounds(s, start);
    let i = skip_ws(s, start);
    if i < s.len() {
        lemma_string_body_bounds(s, i + 1);
        lemma_number_end_bounds(s, i);
    }
}

// ---------------------------------------------------------------------------
// The character sets handed to the scanner mean exactly the spec's
// character classes.
// ---------------------------------------------------------------------------

proof fn lemma_ws_charset()
    ensures
        forall|c: char| #[trigger] " \r\n\t"@.contains(c) <==> is_ws(c),
{
    let cs = " \r\n\t"@;
    reveal_strlit(" \r\n\t");
    assert forall|c: char| #[trigger] cs.contains(c) <==> is_ws(c) by {
        if cs.contains(c) {
            let k = choose|k: int| 0 <= k < cs.len() && cs[k] == c;
            assert(is_ws(c));
        }
        if is_ws(c) {
            if c == ' ' {
                assert(cs[0] == c);
            } else if c == '\r' {
                assert(cs[1] == c);
            } else if c == '\n' {
                assert(cs[2] == c);
            } else {
                assert(cs[3] == c);
            }
            assert(cs.contains(c));
        }
    }
}

proof fn lemma_digits_charset()
    ensures
        forall|c: char| #[trigger] "0123456789"@.contains(c) <==> is_digit(c),
{
    let cs = "0123456789"@;
    reveal_strlit("0123456789");
    assert forall|c: char| #[trigger] cs.contains(c) <==> is_digit(c) by {
        if cs.contains(c) {
            let k = choose|k: int| 0 <= k < cs.len() && cs[k] == c;
            assert(is_digit(c));
        }
        if is_digit(c) {
            if c == '0' {
                assert(cs[0] == c);
            } else if c == '1' {
                assert(cs[1] == c);
            } else if c == '2' {
                assert(cs[2] == c);
            } else if c == '3' {
                assert(cs[3] == c);
            } else if c == '4' {
                assert(cs[4] == c);
            } else if c == '5' {
                assert(cs[5] == c);
            } else if c == '6' {
                assert(cs[6] == c);
            } else if c == '7' {
                assert(cs[7] == c);
            } else if c == '8' {
                assert(cs[8] == c);
            } else {
                assert(cs[9] == c);
            }
            assert(cs.contains(c));
        }
    }
}

proof fn lemma_minus_charset()
    ensures
        forall|c: char| #[trigger] "-"@.contains(c) <==> c == '-',
{
    let cs = "-"@;
    reveal_strlit("-");
    assert forall|c: char| #[trigger] cs.contains(c) <==> c == '-' by {
        if cs.contains(c) {
            let k = choose|k: int| 0 <= k < cs.len() && cs[k] == c;
            assert(c == '-');
        }
        if c == '-' {
            assert(cs[0] == c);
            assert(cs.contains(c));
        }
    }
}

/// `run_end` over the whitespace set is `skip_ws`.
proof fn lemma_run_end_is_skip_ws(s: Seq<char>, i: int)
    ensures
        run_end(s, i, " \r\n\t"@) == skip_ws(s, i),
    decreases s.len() - i,
{
    lemma_ws_charset();
    if 0 <= i < s.len() && is_ws(s[i]) {
        lemma_run_end_is_skip_ws(s, i + 1);
    }
}

/// `run_end` over the digit set is `digits_end`.
proof fn lemma_run_end_is_digits_end(s: Seq<char>, i: int)
    ensures
        run_end(s, i, "0123456789"@) == digits_end(s, i),
    decreases s.len() - i,
{
    lemma_digits_charset();
    if 0 <= i < s.len() && is_digit(s[i]) {
        lemma_run_end_is_digits_end(s, i + 1);
    }
}

/// The tokenizer owns the scanner; its only state is the scanner's cursor.
pub struct Tokenizer {
    scanner: Scanner,
}

impl Tokenizer {
    pub closed spec fn input(self) -> Seq<char> {
        self.scanner.input()
    }

    pub closed spec fn pos(self) -> int {
        self.scanner.pos()
    }

    pub closed spec fn wf(self) -> bool {
        self.scanner.wf()
    }

    /// The cursor stays within the input.
    pub broadcast proof fn lemma_wf_bounds(self)
        ensures
            #[trigger] self.wf() ==> 0 <= self.pos() <= self.input().len(),
    {
    }

    pub fn new(value: &str) -> (t: Tokenizer)
        ensures
            t.wf(),
            t.input() == value@,
            t.pos() == 0,
    {
        Tokenizer { scanner: Scanner::new(value) }
    }

    /// Consumes the characters of `expected_token` and hands back `value`;
    /// a mismatch is `LexicalError`, too short an input
    /// `UnexpectedEndOfInput`.
    pub fn next_symbol<T>(&mut self, expected_token: &str, value: T) -> (r: Result<T, Error>)
        requires
            old(self).wf(),
        ensures
            final(self).wf(),
            final(self).input() == old(self).input(),
            old(self).pos() <= final(self).pos(),
            ({
                let s = old(self).input();
                let p = old(self).pos();
                let w = expected_token@;
                if p + w.len() > s.len() {
                    &&& r == Err::<T, Error>(Error::UnexpectedEndOfInput)
                    &&& final(self).pos() == p
                } else if s.subrange(p, p + w.len()) == w {
                    &&& r matches Ok(v) && v == value
                    &&& final(self).pos() == p + w.len()
                } else {
                    &&& r == Err::<T, Error>(Error::LexicalError)
                    &&& final(self).pos() == p + w.len()
                }
            }),
    {
        match self.scanner.take_string(expected_token) {
            Ok(()) => Ok(value),
            Err(e) => Err(e),
        }
    }

    /// Consumes four hexadecimal digits and yields their value; anything
    /// else, the end of the input included, is `LexicalError`.
    fn read_hex4(&mut self) -> (r: Result<u32, Error>)
        requires
            old(self).wf(),
        ensures
            final(self).wf(),
            final(self).input() == old(self).input(),
            old(self).pos() <= final(self).pos(),
            (if hex4_ok(old(self).input(), old(self).pos()) {
                &&& r == Ok::<u32, Error>(hex4_val(old(self).input(), old(self).pos()) as u32)
                &&& final(self).pos() == old(self).pos() + 4
            } else {
                r == Err::<u32, Error>(Error::LexicalError)
            }),
    {
        let c0 = match self.scanner.expect_single_any() {
            Err(_) => {
                return Err(Error::LexicalError);
            }
            Ok(c) => c,
        };
        let d0 = match hex_val(c0) {
            None => {
                return Err(Error::LexicalError);
            }
            Some(d) => d,
        };
        let c1 = match self.scanner.expect_single_any() {
            Err(_) => {
                return Err(Error::LexicalError);
            }
            Ok(c) => c,
        };
        let d1 = match hex_val(c1) {
            None => {
                return Err(Error::LexicalError);
            }
            Some(d) => d,
        };
        let c2 = match self.scanner.expect_single_any() {
            Err(_) => {
                return Err(Error::LexicalError);
            }
            Ok(c) => c,
        };
        let d2 = match hex_val(c2) {
            None => {
                return Err(Error::LexicalError);
            }
            Some(d) => d,
        };
        let c3 = match self.scanner.expect_single_any() {
            Err(_) => {
                return Err(Error::LexicalError);
            }
            Ok(c) => c,
        };
        let d3 = match hex_val(c3) {
            None => {
                return Err(Error::LexicalError);
            }
            Some(d) => d,
        };
        proof {
            let s = old(self).input();
            let p = old(self).pos();
            assert(hex4_ok(s, p));
            assert(0 <= hex_digit_val(s[p]) <= 15);
            assert(0 <= hex_digit_val(s[p + 1]) <= 15);
            assert(0 <= hex_digit_val(s[p + 2]) <= 15);
            assert(0 <= hex_digit_val(s[p + 3]) <= 15);
        }
        Ok(4096 * d0 + 256 * d1 + 16 * d2 + d3)
    }

    /// Lexes one string literal: the cursor stands on the opening quote.
    /// The token's payload is the decoded content.
    fn next_string(&mut self) -> (r: Result<Token, Error>)
        requires
            old(self).wf(),
            old(self).pos() < old(self).input().len(),
            old(self).input()[old(self).pos()] == '"',
        ensures
            final(self).wf(),
            final(self).input() == old(self).input(),
            old(self).pos() <= final(self).pos(),
            ({
                match lex_string_body(old(self).input(), old(self).pos() + 1) {
                    Some(cj) => {
                        &&& r matches Ok(tok) && tok@ == TokenModel::String(cj.0)
                        &&& final(self).pos() == cj.1
                    }
                    None => r == Err::<Token, Error>(Error::LexicalError),
                }
            }),
    {
        let ghost s = old(self).input();
        let ghost q = old(self).pos() + 1;
        let _ = self.scanner.expect_single_any();  // the opening quote
        let mut out: Vec<char> = Vec::new();
        proof {
            match lex_string_body(s, q) {
                Some(cj) => {
                    assert(out@ + cj.0 =~= cj.0);
                }
                None => {}
            }
        }
        loop
            invariant
                self.wf(),
                s == old(self).input(),
                q == old(self).pos() + 1,
                self.input() == s,
                q <= self.pos() <= s.len(),
                (match lex_string_body(s, self.pos()) {
                    Some(cj) => lex_string_body(s, q) == Some((out@ + cj.0, cj.1)),
                    None => lex_string_body(s, q) is None,
                }),
            decreases s.len() - self.pos(),
        {
            let ghost lp = self.pos();
            let ghost out0 = out@;
            let c = match self.scanner.expect_single_any() {
                Err(_) => {
                    return Err(Error::LexicalError);  // the input ended before the closing quote
                }
                Ok(c) => c,
            };
            if c == '"' {
                return Ok(Token::String(chars_to_string(&out)));
            } else if c == '\\' {
                let e = match self.scanner.expect_single_any() {
                    Err(_) => {
                        return Err(Error::LexicalError);
                    }
                    Ok(e) => e,
                };
                if e == 'u' {
                    let v = match self.read_hex4() {
                        Err(_) => {
                            return Err(Error::LexicalError);
                        }
                        Ok(v) => v,
                    };
                    if 0xD800 <= v && v < 0xDC00 {
                        // a high surrogate: a low-surrogate escape must follow
                        let c2 = match self.scanner.expect_single_any() {
                            Err(_) => {
                                return Err(Error::LexicalError);
                            }
                            Ok(c2) => c2,
                        };
                        if c2 != '\\' {
                            return Err(Error::LexicalError);
                        }
                        let c3 = match self.scanner.expect_single_any() {
                            Err(_) => {
                                return Err(Error::LexicalError);
                            }
                            Ok(c3) => c3,
                        };
                        if c3 != 'u' {
                            return Err(Error::LexicalError);
                        }
                        let w = match self.read_hex4() {
                            Err(_) => {
                                return Err(Error::LexicalError);
                            }
                            Ok(w) => w,
                        };
                        if !(0xDC00 <= w && w < 0xE000) {
                            return Err(Error::LexicalError);
                        }
                        let code: u32 = 0x10000 + (v - 0xD800) * 0x400 + (w - 0xDC00);
                        match char::from_u32(code) {
                            Some(ch) => {
                                proof {
                                    vstd::utf8::char_u32_cast(ch, code);
                                }
                                out.push(ch);
                            }
                            None => {
                                // unreachable: the combined value is a Unicode scalar value
                                return Err(Error::LexicalError);
                            }
                        }
                    } else if 0xDC00 <= v && v < 0xE000 {
                        // a lone low surrogate decodes to no character
                        return Err(Error::LexicalError);
                    } else {
                        match char::from_u32(v) {
                            Some(ch) => {
                                proof {
                                    vstd::utf8::char_u32_cast(ch, v);
                                }
                                out.push(ch);
                            }
                            None => {
                                // unreachable: the value is no surrogate and fits
                                return Err(Error::LexicalError);
                            }
                        }
                    }
                } else {
                    match decode_escape(e) {
                        Some(d) => {
                            out.push(d);
                        }
                        None => {
                            return Err(Error::LexicalError);
                        }
                    }
                }
            } else {
                out.push(c);
            }
            proof {
                assert(out@ == out0.push(out@[out@.len() - 1]));
                let x = out@[out@.len() - 1];
                match lex_string_body(s, self.pos()) {
                    Some(cj) => {
                        assert(lex_string_body(s, lp) == Some((seq![x] + cj.0, cj.1)));
                        assert(out0 + (seq![x] + cj.0) =~= out@ + cj.0);
                    }
                    None => {}
                }
            }
        }
    }

    /// Lexes one numeral: the cursor stands on its minus sign or first
    /// digit.  The token's payload is the exact matched text.
    #[verifier::rlimit(60)]
    fn next_number(&mut self) -> (r: Result<Token, Error>)
        requires
            old(self).wf(),
            old(self).scanner.buf() == Seq::<char>::empty(),
            old(self).pos() < old(self).input().len(),
            old(self).input()[old(self).pos()] == '-' || is_digit(
                old(self).input()[old(self).pos()],
            ),
        ensures
            final(self).wf(),
            final(self).input() == old(self).input(),
            old(self).pos() <= final(self).pos(),
            ({
                match lex_number_end(old(self).input(), old(self).pos()) {
                    Some(j) => {
                        &&& r matches Ok(tok) && tok@ == TokenModel::Number(
                            old(self).input().subrange(old(self).pos(), j),
                        )
                        &&& final(self).pos() == j
                    }
                    None => r == Err::<Token, Error>(Error::LexicalError),
                }
            }),
    {
        let ghost s = old(self).input();
        let ghost p = old(self).pos();
        let _ = self.scanner.possible_single_characters("-");
        proof {
            lemma_minus_charset();
            assert(self.scanner.buf() =~= s.subrange(p, self.pos()));
        }
        let ghost j0 = self.pos();
        let first = match self.scanner.peek() {
            None => {
                return Err(Error::LexicalError);  // a sign with nothing after it
            }
            Some(c) => c,
        };
        if first == '0' {
            let _ = self.scanner.expect_single_any();
            proof {
                assert(self.scanner.buf() =~= s.subrange(p, self.pos()));
            }
        } else if '1' <= first && first <= '9' {
            let _ = self.scanner.expect_single_any();
            proof {
                assert(self.scanner.buf() =~= s.subrange(p, self.pos()));
            }
            let _ = self.scanner.possible_many_characters("0123456789");
            proof {
                lemma_run_end_is_digits_end(s, j0 + 1);
                lemma_digits_end_bounds(s, j0 + 1);
                assert(digits_end(s, j0) == digits_end(s, j0 + 1));
                assert(self.scanner.buf() =~= s.subrange(p, self.pos()));
            }
        } else {
            return Err(Error::LexicalError);  // no digit where the integer part must start
        }
        let ghost k = self.pos();
        proof {
            assert(int_part_end(s, p) == Some(k));
        }
        // fractional part
        let has_dot = match self.scanner.peek() {
            Some(c) => c == '.',
            None => false,
        };
        if has_dot {
            let _ = self.scanner.expect_single_any();
            proof {
                assert(self.scanner.buf() =~= s.subrange(p, self.pos()));
            }
            match self.scanner.expect_many_characters("0123456789") {
                Ok(()) => {
                    proof {
                        lemma_digits_charset();
                        lemma_run_end_is_digits_end(s, k + 1);
                        lemma_digits_end_bounds(s, k + 2);
                        assert(self.scanner.buf() =~= s.subrange(p, self.pos()));
                    }
                }
                Err(_) => {
                    proof {
                        lemma_digits_charset();
                        lemma_run_end_is_digits_end(s, k + 1);
                    }
                    return Err(Error::LexicalError);  // a '.' with no digit after it
                }
            }
        }
        let ghost m = self.pos();
        proof {
            assert(frac_end(s, k) == Some(m));
        }
        // exponent part
        let has_exp = match self.scanner.peek() {
            Some(c) => c == 'e' || c == 'E',
            None => false,
        };
        if has_exp {
            let _ = self.scanner.expect_single_any();
            proof {
                assert(self.scanner.buf() =~= s.subrange(p, self.pos()));
            }
            let has_sign = match self.scanner.peek() {
                Some(c) => c == '+' || c == '-',
                None => false,
            };
            if has_sign {
                let _ = self.scanner.expect_single_any();
                proof {
                    assert(self.scanner.buf() =~= s.subrange(p, self.pos()));
                }
            }
            let ghost q2 = self.pos();
            match self.scanner.expect_many_characters("0123456789") {
                Ok(()) => {
                    proof {
                        lemma_digits_charset();
                        lemma_run_end_is_digits_end(s, q2);
                        lemma_digits_end_bounds(s, q2 + 1);
                        assert(self.scanner.buf() =~= s.subrange(p, self.pos()));
                    }
                }
                Err(_) => {
                    proof {
                        lemma_digits_charset();
                        lemma_run_end_is_digits_end(s, q2);
                    }
                    return Err(Error::LexicalError);  // an exponent with no digit
                }
            }
        }
        proof {
            assert(exp_end(s, m) == Some(self.pos()));
            assert(lex_number_end(s, p) == Some(self.pos()));
        }
        let text = self.scanner.pop_buffer();
        Ok(Token::Number(text))
    }

    /// Produces the next token after the insignificant whitespace, exactly
    /// as the reference lexer `spec_next_token` assigns it: the token the
    /// reference lexer yields, `UnexpectedEndOfInput` at a clean end of the
    /// input, `LexicalError` wherever it finds no token.
    pub fn next_token(&mut self) -> (r: Result<Token, Error>)
        requires
            old(self).wf(),
        ensures
            final(self).wf(),
            final(self).input() == old(self).input(),
            old(self).pos() <= final(self).pos(),
            ({
                match spec_next_token(old(self).input(), old(self).pos()) {
                    Ok(tj) => {
                        &&& r matches Ok(tok) && tok@ == tj.0
                        &&& final(self).pos() == tj.1
                    }
                    Err(e) => r == Err::<Token, Error>(e),
                }
            }),
    {
        let ghost s = old(self).input();
        let ghost p0 = old(self).pos();
        let _ = self.scanner.possible_many_characters(" \r\n\t");
        proof {
            lemma_run_end_is_skip_ws(s, p0);
            lemma_skip_ws_bounds(s, p0);
        }
        let _ = self.scanner.pop_buffer();
        let ghost i = skip_ws(s, p0);
        let next_ch = match self.scanner.peek() {
            None => {
                return Err(Error::UnexpectedEndOfInput);
            }
            Some(c) => c,
        };
        if next_ch == ',' {
            proof {
                reveal_strlit(",");
                assert(s.subrange(i, i + 1) =~= ","@);
            }
            match self.next_symbol(",", Token::Comma) {
                Ok(tok) => Ok(tok),
                Err(_) => Err(Error::LexicalError),
            }
        } else if next_ch == ':' {
            proof {
                reveal_strlit(":");
                assert(s.subrange(i, i + 1) =~= ":"@);
            }
            match self.next_symbol(":", Token::Colon) {
                Ok(tok) => Ok(tok),
                Err(_) => Err(Error::LexicalError),
            }
        } else if next_ch == '{' {
            proof {
                reveal_strlit("{");
                assert(s.subrange(i, i + 1) =~= "{"@);
            }
            match self.next_symbol("{", Token::ObjectOpen) {
                Ok(tok) => Ok(tok),
                Err(_) => Err(Error::LexicalError),
            }
        } else if next_ch == '}' {
            proof {
                reveal_strlit("}");
                assert(s.subrange(i, i + 1) =~= "}"@);
            }
            match self.next_symbol("}", Token::ObjectClose) {
                Ok(tok) => Ok(tok),
                Err(_) => Err(Error::LexicalError),
            }
        } else if next_ch == '[' {
            proof {
                reveal_strlit("[");
                assert(s.subrange(i, i + 1) =~= "["@);
            }
            match self.next_symbol("[", Token::ArrayOpen) {
                Ok(tok) => Ok(tok),
                Err(_) => Err(Error::LexicalError),
            }
        } else if next_ch == ']' {
            proof {
                reveal_strlit("]");
                assert(s.subrange(i, i + 1) =~= "]"@);
            }
            match self.next_symbol("]", Token::ArrayClose) {
                Ok(tok) => Ok(tok),
                Err(_) => Err(Error::LexicalError),
            }
        } else if next_ch == 't' {
            proof {
                reveal_strlit("true");
                assert("true"@.len() == 4);
                if i + 4 <= s.len() {
                    assert(s.subrange(i, i + 4)[0] == s[i]);
                    assert(s.subrange(i, i + 4)[1] == s[i + 1]);
                    assert(s.subrange(i, i + 4)[2] == s[i + 2]);
                    assert(s.subrange(i, i + 4)[3] == s[i + 3]);
                    if s[i + 1] == 'r' && s[i + 2] == 'u' && s[i + 3] == 'e' {
                        assert(s.subrange(i, i + 4) =~= "true"@);
                    }
                }
            }
            match self.next_symbol("true", Token::True) {
                Ok(tok) => Ok(tok),
                Err(_) => Err(Error::LexicalError),
            }
        } else if next_ch == 'f' {
            proof {
                reveal_strlit("false");
                assert("false"@.len() == 5);
                if i + 5 <= s.len() {
                    assert(s.subrange(i, i + 5)[0] == s[i]);
                    assert(s.subrange(i, i + 5)[1] == s[i + 1]);
                    assert(s.subrange(i, i + 5)[2] == s[i + 2]);
                    assert(s.subrange(i, i + 5)[3] == s[i + 3]);
                    assert(s.subrange(i, i + 5)[4] == s[i + 4]);
                    if s[i + 1] == 'a' && s[i + 2] == 'l' && s[i + 3] == 's' && s[i + 4] == 'e' {
                        assert(s.subrange(i, i + 5) =~= "false"@);
                    }
                }
            }
            match self.next_symbol("false", Token::False) {
                Ok(tok) => Ok(tok),
                Err(_) => Err(Error::LexicalError),
            }
        } else if next_ch == 'n' {
            proof {
                reveal_strlit("null");
                assert("null"@.len() == 4);
                if i + 4 <= s.len() {
                    assert(s.subrange(i, i + 4)[0] == s[i]);
                    assert(s.subrange(i, i + 4)[1] == s[i + 1]);
                    assert(s.subrange(i, i + 4)[2] == s[i + 2]);
                    assert(s.subrange(i, i + 4)[3] == s[i + 3]);
                    if s[i + 1] == 'u' && s[i + 2] == 'l' && s[i + 3] == 'l' {
                        assert(s.subrange(i, i + 4) =~= "null"@);
                    }
                }
            }
            match self.next_symbol("null", Token::Null) {
                Ok(tok) => Ok(tok),
                Err(_) => Err(Error::LexicalError),
            }
        } else if next_ch == '"' {
            self.next_string()
        } else if next_ch == '-' || ('0' <= next_ch && next_ch <= '9') {
            self.next_number()
        } else {
            Err(Error::LexicalError)
        }
    }
}

/// What one hexadecimal digit is worth, or `None` for any other character.
fn hex_val(c: char) -> (r: Option<u32>)
    ensures
        is_hex_digit(c) ==> r == Some(hex_digit_val(c) as u32),
        !is_hex_digit(c) ==> r is None,
{
    if '0' <= c && c <= '9' {
        Some(c as u32 - '0' as u32)
    } else if 'a' <= c && c <= 'f' {
        Some(c as u32 - 'a' as u32 + 10)
    } else if 'A' <= c && c <= 'F' {
        Some(c as u32 - 'A' as u32 + 10)
    } else {
        None
    }
}

/// What a single-character escape decodes to.
fn decode_escape(c: char) -> (r: Option<char>)
    ensures
        r == simple_escape(c),
{
    match c {
        '"' => Some('"'),
        '\\' => Some('\\'),
        '/' => Some('/'),
        'b' => Some('\u{0008}'),
        'f' => Some('\u{000C}'),
        'n' => Some('\n'),
        'r' => Some('\r'),
        't' => Some('\t'),
        _ => None,
    }
}

/// Relies on `char::from_u32`: it returns the character with the given code
/// value, or `None` when the value is a surrogate code point or above
/// 0x10FFFF (the values that are no Unicode scalar values).
pub assume_specification [ char::from_u32 ](i: u32) -> (r: Option<char>)
    ensures
        r is Some <==> (i < 0xD800 || (0xE000 <= i && i <= 0x10FFFF)),
        r matches Some(c) ==> c as u32 == i,
;

} // verus!
