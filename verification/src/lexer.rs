//! The scanner: turns the input text, one request at a time, into lexical
//! tokens.
//!
//! The module first gives a mathematical model of scanning over sequences of
//! characters — [`is_space`], [`skip_spaces`], [`digit_run`], [`digits_value`]
//! and [`spec_token`] — and then the executable [`Lexer`], whose contracts are
//! stated against that model.

use vstd::prelude::*;

use crate::token::EvalError;
use crate::token::Token;

verus! {

/// The standard whitespace classification: exactly the characters with the
/// Unicode `White_Space` property, which includes the non-ASCII space
/// separators such as U+2000.
pub open spec fn is_space(c: char) -> bool {
    let u = c as u32;
    u == 0x20 || (0x9 <= u && u <= 0xD) || u == 0x85 || u == 0xA0 || u == 0x1680 || (0x2000 <= u
        && u <= 0x200A) || u == 0x2028 || u == 0x2029 || u == 0x202F || u == 0x205F || u == 0x3000
}

/// A decimal digit `'0'..='9'`.
pub open spec fn is_digit(c: char) -> bool {
    0x30 <= c as u32 && c as u32 <= 0x39
}

/// The numeric value of a decimal digit.
pub open spec fn digit_val(c: char) -> int {
    c as u32 - 0x30
}

/// The input with its maximal run of leading whitespace removed.
pub open spec fn skip_spaces(s: Seq<char>) -> Seq<char>
    decreases s.len(),
{
    if s.len() > 0 && is_space(s[0]) {
        skip_spaces(s.skip(1))
    } else {
        s
    }
}

/// The length of the maximal run of leading decimal digits.
pub open spec fn digit_run(s: Seq<char>) -> int
    decreases s.len(),
{
    if s.len() > 0 && is_digit(s[0]) {
        1 + digit_run(s.skip(1))
    } else {
        0
    }
}

/// The value of a sequence of decimal digits, most significant first.
pub open spec fn digits_value(s: Seq<char>) -> int
    decreases s.len(),
{
    if s.len() == 0 {
        0
    } else {
        digits_value(s.drop_last()) * 10 + digit_val(s.last())
    }
}

/// One step of scanning: the next token of `s` together with the input that
/// remains after it, or the fatal error that scanning `s` meets first.
pub open spec fn spec_token(s: Seq<char>) -> Result<(Token, Seq<char>), EvalError> {
    let t = skip_spaces(s);
    if t.len() == 0 {
        Ok((Token::EndOfInput, t))
    } else if is_digit(t[0]) {
        let n = digit_run(t);
        let v = digits_value(t.take(n));
        if v <= i32::MAX {
            Ok((Token::Integer(v as i32), t.skip(n)))
        } else {
            Err(EvalError::IntegerLiteral)
        }
    } else if t[0] == '+' {
        Ok((Token::Plus, t.skip(1)))
    } else if t[0] == '-' {
        Ok((Token::Minus, t.skip(1)))
    } else if t[0] == '*' {
        Ok((Token::Mul, t.skip(1)))
    } else if t[0] == '/' {
        Ok((Token::Div, t.skip(1)))
    } else if t[0] == '(' {
        Ok((Token::LParen, t.skip(1)))
    } else if t[0] == ')' {
        Ok((Token::RParen, t.skip(1)))
    } else {
        Err(EvalError::Lexical)
    }
}

/// The scanner cursor: the input as characters, the current position, and the
/// cached character at that position.
pub struct Lexer {
    pub chars: Vec<char>,
    pub pos: usize,
    pub current_char: Option<char>,
}

impl Lexer {
    /// The cursor invariant: the position stays within the input and the
    /// cached character is exactly the character at the position, or absent
    /// at the end of the input.
    pub open spec fn wf(&self) -> bool {
        &&& self.pos <= self.chars.len()
        &&& self.current_char == (if self.pos < self.chars.len() {
            Some(self.chars[self.pos as int])
        } else {
            None::<char>
        })
    }

    /// The whole input text.
    pub open spec fn text(&self) -> Seq<char> {
        self.chars@
    }

    /// The input not yet consumed.
    pub open spec fn rest(&self) -> Seq<char> {
        self.chars@.skip(self.pos as int)
    }

    /// A fresh scanner at the start of `text`.
    pub fn new(text: String) -> (l: Lexer)
        ensures
            l.wf(),
            l.text() == text@,
            l.rest() == text@,
    {
        let n = text.as_str().unicode_len();
        let mut chars: Vec<char> = Vec::new();
        let mut i: usize = 0;
        while i < n
            invariant
                i <= n,
                n == text@.len(),
                chars@ == text@.take(i as int),
            decreases n - i,
        {
            chars.push(text.as_str().get_char(i));
            proof {
                assert(text@.take(i + 1) =~= text@.take(i as int).push(text@[i as int]));
            }
            i = i + 1;
        }
        proof {
            assert(chars@ =~= text@);
        }
        let current_char = if chars.len() > 0 {
            Some(chars[0])
        } else {
            None
        };
        Lexer { chars, pos: 0, current_char }
    }

    /// Step the cursor one character forward.
    pub fn advance(&mut self)
        requires
            old(self).wf(),
            old(self).pos < old(self).chars.len(),
        ensures
            final(self).wf(),
            final(self).chars == old(self).chars,
            final(self).pos == old(self).pos + 1,
            final(self).rest() == old(self).rest().skip(1),
    {
        self.pos = self.pos + 1;
        self.current_char = if self.pos < self.chars.len() {
            Some(self.chars[self.pos])
        } else {
            None
        };
        proof {
            assert(self.chars@.skip(self.pos as int) =~= old(self).rest().skip(1));
        }
    }

    /// Consume the maximal run of leading whitespace.
    pub fn skip_whitespace(&mut self)
        requires
            old(self).wf(),
        ensures
            final(self).wf(),
            final(self).chars == old(self).chars,
            final(self).rest() == skip_spaces(old(self).rest()),
            old(self).pos <= final(self).pos,
    {
        loop
            invariant
                self.wf(),
                self.chars == old(self).chars,
                old(self).pos <= self.pos,
                skip_spaces(self.rest()) == skip_spaces(old(self).rest()),
            ensures
                self.wf(),
                self.chars == old(self).chars,
                old(self).pos <= self.pos,
                self.rest() == skip_spaces(old(self).rest()),
            decreases self.chars.len() - self.pos,
        {
            match self.current_char {
                Some(ch) => {
                    if !is_space_char(ch) {
                        break ;
                    }
                },
                None => {
                    break ;
                },
            }
            self.advance();
        }
    }

    /// Consume the maximal run of leading digits and parse it as a 32-bit
    /// integer; a run whose value does not fit is an integer-literal error.
    pub fn integer(&mut self) -> (r: Result<i32, EvalError>)
        requires
            old(self).wf(),
        ensures
            final(self).wf(),
            final(self).chars == old(self).chars,
            ({
                let run = digit_run(old(self).rest());
                let v = digits_value(old(self).rest().take(run));
                if v <= i32::MAX {
                    r == Ok::<i32, EvalError>(v as i32) && final(self).rest() == old(
                        self,
                    ).rest().skip(run)
                } else {
                    r == Err::<i32, EvalError>(EvalError::IntegerLiteral)
                }
            }),
    {
        let ghost rest0 = self.rest();
        let ghost run = digit_run(rest0);
        proof {
            lemma_digit_run(rest0);
        }
        let mut acc: i32 = 0;
        let mut k: usize = 0;
        loop
            invariant
                old(self).wf(),
                self.wf(),
                self.chars == old(self).chars,
                rest0 == old(self).rest(),
                run == digit_run(rest0),
                0 <= k <= run <= rest0.len(),
                self.rest() == rest0.skip(k as int),
                acc == digits_value(rest0.take(k as int)),
                acc >= 0,
            ensures
                self.wf(),
                self.chars == old(self).chars,
                k == run,
                self.rest() == rest0.skip(run),
                acc == digits_value(rest0.take(run)),
            decreases rest0.len() - k,
        {
            let ch = match self.current_char {
                Some(ch) => ch,
                None => {
                    proof {
                        assert(digit_run(rest0.skip(k as int)) == 0);
                        lemma_digit_run_split(rest0, k as int);
                    }
                    break ;
                },
            };
            if !is_digit_char(ch) {
                proof {
                    assert(digit_run(rest0.skip(k as int)) == 0);
                    lemma_digit_run_split(rest0, k as int);
                }
                break ;
            }
            proof {
                lemma_digit_run(rest0);
                assert(is_digit(rest0.skip(k as int)[0]));
                lemma_digit_run_split(rest0, k as int);
                assert(digit_run(rest0.skip(k as int)) >= 1);
                assert(run >= k + 1);
                assert(k < rest0.len());
                assert(rest0.len() <= old(self).chars@.len());
            }
            let d = (ch as u32) - 0x30;
            let step = match acc.checked_mul(10) {
                Some(a) => a.checked_add(d as i32),
                None => None,
            };
            proof {
                assert(rest0.take(k + 1).drop_last() =~= rest0.take(k as int));
                assert(rest0.take(k + 1).last() == rest0[k as int]);
                assert(digits_value(rest0.take(k + 1)) == acc * 10 + d);
            }
            match step {
                Some(a) => {
                    acc = a;
                },
                None => {
                    proof {
                        lemma_digit_run(rest0);
                        assert forall|i: int| 0 <= i < run implies is_digit(
                            #[trigger] rest0.take(run)[i],
                        ) by {
                            assert(rest0.take(run)[i] == rest0[i]);
                        }
                        lemma_digits_value_mono(rest0.take(run), k + 1);
                        assert(rest0.take(run).take(k + 1) =~= rest0.take(k + 1));
                        assert(digits_value(rest0.take(run)) > i32::MAX);
                    }
                    return Err(EvalError::IntegerLiteral);
                },
            }
            self.advance();
            proof {
                assert(rest0.skip(k as int).skip(1) =~= rest0.skip(k + 1));
            }
            k = k + 1;
        }
        Ok(acc)
    }

    /// Scan and return the next token, advancing past the characters that
    /// produced it; at the end of the input it keeps returning
    /// [`Token::EndOfInput`].
    pub fn get_next_token(&mut self) -> (r: Result<Token, EvalError>)
        requires
            old(self).wf(),
        ensures
            final(self).wf(),
            final(self).chars == old(self).chars,
            match spec_token(old(self).rest()) {
                Ok(p) => r == Ok::<Token, EvalError>(p.0) && final(self).rest() == p.1,
                Err(e) => r == Err::<Token, EvalError>(e),
            },
    {
        self.skip_whitespace();
        let ch = match self.current_char {
            Some(ch) => ch,
            None => {
                return Ok(Token::EndOfInput);
            },
        };
        if is_digit_char(ch) {
            return match self.integer() {
                Ok(v) => Ok(Token::Integer(v)),
                Err(e) => Err(e),
            };
        }
        self.advance();
        match ch {
            '+' => Ok(Token::Plus),
            '-' => Ok(Token::Minus),
            '*' => Ok(Token::Mul),
            '/' => Ok(Token::Div),
            '(' => Ok(Token::LParen),
            ')' => Ok(Token::RParen),
            _ => Err(EvalError::Lexical),
        }
    }
}

/// Splitting an input at a point inside its digit run splits the run.
pub proof fn lemma_digit_run_split(s: Seq<char>, k: int)
    requires
        0 <= k <= digit_run(s),
    ensures
        digit_run(s) == k + digit_run(s.skip(k)),
    decreases k,
{
    lemma_digit_run(s);
    if k == 0 {
        assert(s.skip(0) =~= s);
    } else {
        assert(digit_run(s) >= 1);
        assert(s.len() > 0 && is_digit(s[0]));
        assert(digit_run(s) == 1 + digit_run(s.skip(1)));
        lemma_digit_run_split(s.skip(1), k - 1);
        vstd::seq_lib::lemma_seq_skip_of_skip(s, 1, k - 1);
    }
}

/// The leading whitespace of an input is never longer than the input.
pub proof fn lemma_skip_spaces_len(s: Seq<char>)
    ensures
        skip_spaces(s).len() <= s.len(),
    decreases s.len(),
{
    if s.len() > 0 && is_space(s[0]) {
        lemma_skip_spaces_len(s.skip(1));
    }
}

/// The maximal digit run: its length is within the input, it consists of
/// digits only, and it is not followed by a digit.
pub proof fn lemma_digit_run(s: Seq<char>)
    ensures
        0 <= digit_run(s) <= s.len(),
        forall|i: int| 0 <= i < digit_run(s) ==> is_digit(#[trigger] s[i]),
        digit_run(s) == s.len() || !is_digit(s[digit_run(s)]),
    decreases s.len(),
{
    if s.len() > 0 && is_digit(s[0]) {
        lemma_digit_run(s.skip(1));
        assert forall|i: int| 0 <= i < digit_run(s) implies is_digit(#[trigger] s[i]) by {
            if i > 0 {
                assert(s[i] == s.skip(1)[i - 1]);
            }
        }
        if digit_run(s) < s.len() {
            assert(s[digit_run(s)] == s.skip(1)[digit_run(s.skip(1))]);
        }
    }
}

/// A sequence of digits has a non-negative value.
pub proof fn lemma_digits_value_nonneg(s: Seq<char>)
    requires
        forall|i: int| 0 <= i < s.len() ==> is_digit(#[trigger] s[i]),
    ensures
        digits_value(s) >= 0,
    decreases s.len(),
{
    if s.len() > 0 {
        lemma_digits_value_nonneg(s.drop_last());
    }
}

/// Extending a digit sequence on the right never lowers its value.
pub proof fn lemma_digits_value_mono(s: Seq<char>, j: int)
    requires
        forall|i: int| 0 <= i < s.len() ==> is_digit(#[trigger] s[i]),
        0 <= j <= s.len(),
    ensures
        digits_value(s.take(j)) <= digits_value(s),
    decreases s.len() - j,
{
    if j == s.len() {
        assert(s.take(j) =~= s);
    } else {
        lemma_digits_value_mono(s, j + 1);
        assert(s.take(j + 1).drop_last() =~= s.take(j));
        lemma_digits_value_nonneg(s.take(j));
    }
}

/// Scanning consumes input: it never grows the rest, a token other than
/// end-of-input consumes at least one character, and end-of-input leaves
/// nothing behind.
pub proof fn lemma_spec_token_progress(s: Seq<char>)
    ensures
        match spec_token(s) {
            Ok(p) => {
                &&& p.1.len() <= s.len()
                &&& (p.0 != Token::EndOfInput ==> p.1.len() < s.len())
                &&& (p.0 == Token::EndOfInput ==> p.1.len() == 0)
            },
            Err(_) => true,
        },
{
    lemma_skip_spaces_len(s);
    let t = skip_spaces(s);
    if t.len() > 0 && is_digit(t[0]) {
        lemma_digit_run(t);
        assert(digit_run(t) >= 1);
    }
}

/// Whether `c` is whitespace, under the classification of [`is_space`].
pub fn is_space_char(c: char) -> (r: bool)
    ensures
        r == is_space(c),
{
    let u = c as u32;
    u == 0x20 || (0x9 <= u && u <= 0xD) || u == 0x85 || u == 0xA0 || u == 0x1680 || (0x2000 <= u
        && u <= 0x200A) || u == 0x2028 || u == 0x2029 || u == 0x202F || u == 0x205F || u == 0x3000
}

/// Whether `c` is a decimal digit.
pub fn is_digit_char(c: char) -> (r: bool)
    ensures
        r == is_digit(c),
{
    let u = c as u32;
    0x30 <= u && u <= 0x39
}

} // verus!
