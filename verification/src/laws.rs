//! General laws of the evaluator, stated over the mathematical model and
//! proved once for all inputs: left-associativity and precedence of the
//! grammar ([`lemma_left_associativity`], [`lemma_precedence`]), whitespace
//! invariance ([`lemma_whitespace_invariance`],
//! [`lemma_whitespace_insertion`]), and idempotent re-parenthesization
//! ([`lemma_paren_wrap`]).
//!
//! The laws speak about real input text.  [`render`] writes a non-negative
//! integer in decimal, so that a law about `evaluate("a - b - c")` can
//! quantify over the integers `a`, `b`, `c` themselves.

use vstd::prelude::*;

use crate::ast::Exp;
use crate::ast::eval_exp;
use crate::ast::in_i32;
use crate::interpreter::spec_evaluate;
use crate::lexer::digit_run;
use crate::lexer::digit_val;
use crate::lexer::digits_value;
use crate::lexer::is_digit;
use crate::lexer::is_space;
use crate::lexer::lemma_digit_run;
use crate::lexer::lemma_skip_spaces_len;
use crate::lexer::lemma_spec_token_progress;
use crate::parser::lemma_p_expr_progress;
use crate::parser::lemma_p_factor_progress;
use crate::parser::lemma_p_term_progress;
use crate::lexer::skip_spaces;
use crate::lexer::spec_token;
use crate::parser::p_expr;
use crate::parser::p_expr_more;
use crate::parser::p_factor;
use crate::parser::p_parse;
use crate::parser::p_term;
use crate::parser::p_term_more;
use crate::token::EvalError;
use crate::token::Token;

verus! {

/// The decimal digit character for a value between 0 and 9.
pub open spec fn digit_char(d: int) -> char {
    if d == 0 {
        '0'
    } else if d == 1 {
        '1'
    } else if d == 2 {
        '2'
    } else if d == 3 {
        '3'
    } else if d == 4 {
        '4'
    } else if d == 5 {
        '5'
    } else if d == 6 {
        '6'
    } else if d == 7 {
        '7'
    } else if d == 8 {
        '8'
    } else {
        '9'
    }
}

/// A non-negative integer written in decimal, most significant digit first.
pub open spec fn render(n: int) -> Seq<char>
    decreases n,
{
    if n <= 9 {
        seq![digit_char(n)]
    } else {
        render(n / 10).push(digit_char(n % 10))
    }
}

/// Rendering yields digits only, at least one of them, and reading the
/// digits back yields the rendered value.
pub proof fn lemma_render(n: int)
    requires
        n >= 0,
    ensures
        render(n).len() >= 1,
        forall|i: int| 0 <= i < render(n).len() ==> is_digit(#[trigger] render(n)[i]),
        digits_value(render(n)) == n,
    decreases n,
{
    if n <= 9 {
        assert(render(n).drop_last() =~= Seq::<char>::empty());
        assert(render(n).last() == digit_char(n));
        assert(digits_value(render(n)) == digits_value(Seq::<char>::empty()) * 10 + digit_val(
            digit_char(n),
        ));
    } else {
        lemma_render(n / 10);
        vstd::arithmetic::div_mod::lemma_fundamental_div_mod(n, 10);
        assert(render(n).drop_last() =~= render(n / 10));
        assert(0 <= n % 10 <= 9);
        assert(digit_val(digit_char(n % 10)) == n % 10);
    }
}

/// Scanning an input that starts with a rendered integer not followed by a
/// further digit yields that integer.
pub proof fn lemma_token_int(n: int, r: Seq<char>)
    requires
        0 <= n <= i32::MAX,
        r.len() == 0 || !is_digit(r[0]),
    ensures
        spec_token(render(n) + r) == Ok::<(Token, Seq<char>), EvalError>(
            (Token::Integer(n as i32), r),
        ),
{
    let s = render(n) + r;
    lemma_render(n);
    assert(s[0] == render(n)[0]);
    assert(!is_space(s[0]));
    assert(skip_spaces(s) == s);
    lemma_digit_run_all(render(n), r);
    assert(digit_run(s) == render(n).len());
    assert(s.take(render(n).len() as int) =~= render(n));
    assert(s.skip(render(n).len() as int) =~= r);
}

/// The digit run of an all-digit sequence followed by a non-digit is exactly
/// that sequence.
pub proof fn lemma_digit_run_all(a: Seq<char>, r: Seq<char>)
    requires
        forall|i: int| 0 <= i < a.len() ==> is_digit(#[trigger] a[i]),
        r.len() == 0 || !is_digit(r[0]),
    ensures
        digit_run(a + r) == a.len(),
    decreases a.len(),
{
    if a.len() == 0 {
        assert(a + r =~= r);
    } else {
        assert((a + r)[0] == a[0]);
        assert((a + r).skip(1) =~= a.skip(1) + r);
        assert(forall|i: int|
            0 <= i < a.skip(1).len() ==> is_digit(#[trigger] a.skip(1)[i]) && a.skip(1)[i] == a[i
                + 1]);
        lemma_digit_run_all(a.skip(1), r);
    }
}

/// Scanning an input that starts with an operator or parenthesis character
/// yields that token.
pub proof fn lemma_token_op(c: char, r: Seq<char>)
    requires
        c == '+' || c == '-' || c == '*' || c == '/' || c == '(' || c == ')',
    ensures
        spec_token(seq![c] + r) == Ok::<(Token, Seq<char>), EvalError>(
            (op_token(c), r),
        ),
{
    let s = seq![c] + r;
    assert(s[0] == c);
    assert(!is_space(c));
    assert(!is_digit(c));
    assert(skip_spaces(s) == s);
    assert(s.skip(1) =~= r);
}

/// The token that one operator or parenthesis character scans to.
pub open spec fn op_token(c: char) -> Token {
    if c == '+' {
        Token::Plus
    } else if c == '-' {
        Token::Minus
    } else if c == '*' {
        Token::Mul
    } else if c == '/' {
        Token::Div
    } else if c == '(' {
        Token::LParen
    } else {
        Token::RParen
    }
}

/// All characters of a sequence are whitespace.
pub open spec fn all_space(w: Seq<char>) -> bool {
    forall|i: int| 0 <= i < w.len() ==> is_space(#[trigger] w[i])
}

/// Leading whitespace before the rest of an input skips away.
pub proof fn lemma_skip_spaces_concat(w: Seq<char>, r: Seq<char>)
    requires
        all_space(w),
    ensures
        skip_spaces(w + r) == skip_spaces(r),
    decreases w.len(),
{
    if w.len() == 0 {
        assert(w + r =~= r);
    } else {
        assert((w + r)[0] == w[0]);
        assert((w + r).skip(1) =~= w.skip(1) + r);
        assert(forall|i: int| 0 <= i < w.skip(1).len() ==> is_space(#[trigger] w.skip(1)[i]));
        lemma_skip_spaces_concat(w.skip(1), r);
    }
}

/// Scanning ignores leading whitespace.
pub proof fn lemma_token_space(w: Seq<char>, r: Seq<char>)
    requires
        all_space(w),
    ensures
        spec_token(w + r) == spec_token(r),
{
    lemma_skip_spaces_concat(w, r);
}

/// The four binary-operator characters.
pub open spec fn is_op_char(c: char) -> bool {
    c == '+' || c == '-' || c == '*' || c == '/'
}

/// The tighter-binding operator characters.
pub open spec fn is_high(c: char) -> bool {
    c == '*' || c == '/'
}

/// An operator with one space on each side, as it stands in `"a + b"`.
pub open spec fn op_gap(c: char) -> Seq<char> {
    seq![' ', c, ' ']
}

/// A binary-operator tree node.
pub open spec fn bin(t: Token, l: Exp, r: Exp) -> Exp {
    Exp::Bin(t, Box::new(l), Box::new(r))
}

/// The text `a c1 b c2 c`, the three integers written in decimal.
pub open spec fn infix3(a: int, c1: char, b: int, c2: char, c: int) -> Seq<char> {
    render(a) + op_gap(c1) + render(b) + op_gap(c2) + render(c)
}

/// The tree that `a c1 b c2 c` parses to: a tighter-binding second operator
/// takes `b` first; otherwise grouping proceeds to the left.
pub open spec fn infix3_exp(a: int, c1: char, b: int, c2: char, c: int) -> Exp {
    if !is_high(c1) && is_high(c2) {
        bin(op_token(c1), Exp::Num(a), bin(op_token(c2), Exp::Num(b), Exp::Num(c)))
    } else {
        bin(op_token(c2), bin(op_token(c1), Exp::Num(a), Exp::Num(b)), Exp::Num(c))
    }
}

/// A three-operand infix text parses to exactly the precedence-respecting,
/// left-associative tree.
#[verifier::rlimit(60)]
pub proof fn lemma_parse3(a: int, c1: char, b: int, c2: char, c: int)
    requires
        0 <= a <= i32::MAX,
        0 <= b <= i32::MAX,
        0 <= c <= i32::MAX,
        is_op_char(c1),
        is_op_char(c2),
    ensures
        p_parse(infix3(a, c1, b, c2, c)) == Ok::<Exp, EvalError>(infix3_exp(a, c1, b, c2, c)),
{
    let ra = render(a);
    let rb = render(b);
    let rc = render(c);
    lemma_render(a);
    lemma_render(b);
    lemma_render(c);
    let t1 = op_token(c1);
    let t2 = op_token(c2);
    let s = infix3(a, c1, b, c2, c);
    let e0 = Seq::<char>::empty();
    let y2 = seq![' '] + rc;
    let u2 = seq![c2] + y2;
    let r3 = op_gap(c2) + rc;
    let r2 = rb + r3;
    let x2 = seq![' '] + r2;
    let u1 = seq![c1] + x2;
    let r1 = seq![' '] + u1;
    let sp = seq![' '];
    assert(all_space(sp)) by {
        assert(sp[0] == ' ');
    }
    // the six scan steps of the text
    assert(s =~= ra + r1);
    lemma_token_int(a, r1);
    assert(spec_token(s) == Ok::<(Token, Seq<char>), EvalError>((Token::Integer(a as i32), r1)));
    lemma_token_space(sp, u1);
    lemma_token_op(c1, x2);
    assert(spec_token(r1) == Ok::<(Token, Seq<char>), EvalError>((t1, x2)));
    lemma_token_space(sp, r2);
    lemma_token_int(b, r3);
    assert(spec_token(x2) == Ok::<(Token, Seq<char>), EvalError>((Token::Integer(b as i32), r3)));
    assert(r3 =~= sp + u2);
    lemma_token_space(sp, u2);
    lemma_token_op(c2, y2);
    assert(spec_token(r3) == Ok::<(Token, Seq<char>), EvalError>((t2, y2)));
    lemma_token_space(sp, rc);
    assert(rc =~= rc + e0);
    lemma_token_int(c, e0);
    assert(spec_token(y2) == Ok::<(Token, Seq<char>), EvalError>((Token::Integer(c as i32), e0)));
    assert(skip_spaces(e0) == e0);
    assert(spec_token(e0) == Ok::<(Token, Seq<char>), EvalError>((Token::EndOfInput, e0)));
    // the factors
    assert(p_factor(s) == Ok::<(Exp, Seq<char>), EvalError>((Exp::Num(a), r1)));
    assert(p_factor(x2) == Ok::<(Exp, Seq<char>), EvalError>((Exp::Num(b), r3)));
    assert(p_factor(y2) == Ok::<(Exp, Seq<char>), EvalError>((Exp::Num(c), e0)));
    assert(p_term_more(e0, infix3_exp(a, c1, b, c2, c)) == Ok::<(Exp, Seq<char>), EvalError>(
        (infix3_exp(a, c1, b, c2, c), e0),
    ));
    // fold the operators by precedence
    if is_high(c1) {
        let ab = bin(t1, Exp::Num(a), Exp::Num(b));
        assert(p_term_more(r1, Exp::Num(a)) == p_term_more(r3, ab));
        if is_high(c2) {
            let abc = bin(t2, ab, Exp::Num(c));
            assert(abc == infix3_exp(a, c1, b, c2, c));
            assert(p_term_more(r3, ab) == p_term_more(e0, abc));
            assert(p_term(s) == Ok::<(Exp, Seq<char>), EvalError>((abc, e0)));
            assert(p_expr_more(e0, abc) == Ok::<(Exp, Seq<char>), EvalError>((abc, e0)));
            assert(p_expr(s) == Ok::<(Exp, Seq<char>), EvalError>((abc, e0)));
        } else {
            let abc = bin(t2, ab, Exp::Num(c));
            assert(abc == infix3_exp(a, c1, b, c2, c));
            assert(p_term_more(r3, ab) == Ok::<(Exp, Seq<char>), EvalError>((ab, r3)));
            assert(p_term(s) == Ok::<(Exp, Seq<char>), EvalError>((ab, r3)));
            assert(p_term_more(e0, Exp::Num(c)) == Ok::<(Exp, Seq<char>), EvalError>(
                (Exp::Num(c), e0),
            ));
            assert(p_term(y2) == Ok::<(Exp, Seq<char>), EvalError>((Exp::Num(c), e0)));
            assert(p_expr_more(r3, ab) == p_expr_more(e0, abc));
            assert(p_expr_more(e0, abc) == Ok::<(Exp, Seq<char>), EvalError>((abc, e0)));
            assert(p_expr(s) == Ok::<(Exp, Seq<char>), EvalError>((abc, e0)));
        }
    } else {
        assert(p_term_more(r1, Exp::Num(a)) == Ok::<(Exp, Seq<char>), EvalError>(
            (Exp::Num(a), r1),
        ));
        assert(p_term(s) == Ok::<(Exp, Seq<char>), EvalError>((Exp::Num(a), r1)));
        if is_high(c2) {
            let bc = bin(t2, Exp::Num(b), Exp::Num(c));
            let abc = bin(t1, Exp::Num(a), bc);
            assert(abc == infix3_exp(a, c1, b, c2, c));
            assert(p_term_more(r3, Exp::Num(b)) == p_term_more(e0, bc));
            assert(p_term_more(e0, bc) == Ok::<(Exp, Seq<char>), EvalError>((bc, e0)));
            assert(p_term(x2) == Ok::<(Exp, Seq<char>), EvalError>((bc, e0)));
            assert(p_expr_more(r1, Exp::Num(a)) == p_expr_more(e0, abc));
            assert(p_expr_more(e0, abc) == Ok::<(Exp, Seq<char>), EvalError>((abc, e0)));
            assert(p_expr(s) == Ok::<(Exp, Seq<char>), EvalError>((abc, e0)));
        } else {
            let ab = bin(t1, Exp::Num(a), Exp::Num(b));
            let abc = bin(t2, ab, Exp::Num(c));
            assert(abc == infix3_exp(a, c1, b, c2, c));
            assert(p_term_more(r3, Exp::Num(b)) == Ok::<(Exp, Seq<char>), EvalError>(
                (Exp::Num(b), r3),
            ));
            assert(p_term(x2) == Ok::<(Exp, Seq<char>), EvalError>((Exp::Num(b), r3)));
            assert(p_expr_more(r1, Exp::Num(a)) == p_expr_more(r3, ab));
            assert(p_term_more(e0, Exp::Num(c)) == Ok::<(Exp, Seq<char>), EvalError>(
                (Exp::Num(c), e0),
            ));
            assert(p_term(y2) == Ok::<(Exp, Seq<char>), EvalError>((Exp::Num(c), e0)));
            assert(p_expr_more(r3, ab) == p_expr_more(e0, abc));
            assert(p_expr_more(e0, abc) == Ok::<(Exp, Seq<char>), EvalError>((abc, e0)));
            assert(p_expr(s) == Ok::<(Exp, Seq<char>), EvalError>((abc, e0)));
        }
    }
}

/// The text `(a c1 b) c2 c`.
pub open spec fn paren_left3(a: int, c1: char, b: int, c2: char, c: int) -> Seq<char> {
    seq!['('] + render(a) + op_gap(c1) + render(b) + seq![')'] + op_gap(c2) + render(c)
}

/// The text `(a c1 b) c2 c` parses to the left-grouped tree, whatever the
/// two operators are.
#[verifier::rlimit(60)]
pub proof fn lemma_parse3_paren_left(a: int, c1: char, b: int, c2: char, c: int)
    requires
        0 <= a <= i32::MAX,
        0 <= b <= i32::MAX,
        0 <= c <= i32::MAX,
        is_op_char(c1),
        is_op_char(c2),
    ensures
        p_parse(paren_left3(a, c1, b, c2, c)) == Ok::<Exp, EvalError>(
            bin(op_token(c2), bin(op_token(c1), Exp::Num(a), Exp::Num(b)), Exp::Num(c)),
        ),
{
    let ra = render(a);
    let rb = render(b);
    let rc = render(c);
    lemma_render(a);
    lemma_render(b);
    lemma_render(c);
    let t1 = op_token(c1);
    let t2 = op_token(c2);
    let s = paren_left3(a, c1, b, c2, c);
    let e0 = Seq::<char>::empty();
    let sp = seq![' '];
    let y2 = sp + rc;
    let u2 = seq![c2] + y2;
    let r3 = op_gap(c2) + rc;
    let rp = seq![')'] + r3;
    let x2 = sp + (rb + rp);
    let u1 = seq![c1] + x2;
    let r1 = sp + u1;
    let q1 = ra + r1;
    assert(all_space(sp)) by {
        assert(sp[0] == ' ');
    }
    // the scan steps of the text
    assert(s =~= seq!['('] + q1);
    lemma_token_op('(', q1);
    assert(spec_token(s) == Ok::<(Token, Seq<char>), EvalError>((Token::LParen, q1)));
    lemma_token_int(a, r1);
    assert(spec_token(q1) == Ok::<(Token, Seq<char>), EvalError>((Token::Integer(a as i32), r1)));
    lemma_token_space(sp, u1);
    lemma_token_op(c1, x2);
    assert(spec_token(r1) == Ok::<(Token, Seq<char>), EvalError>((t1, x2)));
    lemma_token_space(sp, rb + rp);
    lemma_token_int(b, rp);
    assert(spec_token(x2) == Ok::<(Token, Seq<char>), EvalError>((Token::Integer(b as i32), rp)));
    lemma_token_op(')', r3);
    assert(spec_token(rp) == Ok::<(Token, Seq<char>), EvalError>((Token::RParen, r3)));
    assert(r3 =~= sp + u2);
    lemma_token_space(sp, u2);
    lemma_token_op(c2, y2);
    assert(spec_token(r3) == Ok::<(Token, Seq<char>), EvalError>((t2, y2)));
    lemma_token_space(sp, rc);
    assert(rc =~= rc + e0);
    lemma_token_int(c, e0);
    assert(spec_token(y2) == Ok::<(Token, Seq<char>), EvalError>((Token::Integer(c as i32), e0)));
    assert(skip_spaces(e0) == e0);
    assert(spec_token(e0) == Ok::<(Token, Seq<char>), EvalError>((Token::EndOfInput, e0)));
    // the parenthesized sub-expression
    assert(p_factor(q1) == Ok::<(Exp, Seq<char>), EvalError>((Exp::Num(a), r1)));
    assert(p_factor(x2) == Ok::<(Exp, Seq<char>), EvalError>((Exp::Num(b), rp)));
    let ab = bin(t1, Exp::Num(a), Exp::Num(b));
    if is_high(c1) {
        assert(p_term_more(r1, Exp::Num(a)) == p_term_more(rp, ab));
        assert(p_term_more(rp, ab) == Ok::<(Exp, Seq<char>), EvalError>((ab, rp)));
        assert(p_term(q1) == Ok::<(Exp, Seq<char>), EvalError>((ab, rp)));
        assert(p_expr_more(rp, ab) == Ok::<(Exp, Seq<char>), EvalError>((ab, rp)));
        assert(p_expr(q1) == Ok::<(Exp, Seq<char>), EvalError>((ab, rp)));
    } else {
        assert(p_term_more(r1, Exp::Num(a)) == Ok::<(Exp, Seq<char>), EvalError>(
            (Exp::Num(a), r1),
        ));
        assert(p_term(q1) == Ok::<(Exp, Seq<char>), EvalError>((Exp::Num(a), r1)));
        assert(p_term_more(rp, Exp::Num(b)) == Ok::<(Exp, Seq<char>), EvalError>(
            (Exp::Num(b), rp),
        ));
        assert(p_term(x2) == Ok::<(Exp, Seq<char>), EvalError>((Exp::Num(b), rp)));
        assert(p_expr_more(r1, Exp::Num(a)) == p_expr_more(rp, ab));
        assert(p_expr_more(rp, ab) == Ok::<(Exp, Seq<char>), EvalError>((ab, rp)));
        assert(p_expr(q1) == Ok::<(Exp, Seq<char>), EvalError>((ab, rp)));
    }
    // the factor around it, and the outer operator
    assert(p_factor(s) == Ok::<(Exp, Seq<char>), EvalError>((ab, r3)));
    let abc = bin(t2, ab, Exp::Num(c));
    assert(p_factor(y2) == Ok::<(Exp, Seq<char>), EvalError>((Exp::Num(c), e0)));
    assert(p_term_more(e0, abc) == Ok::<(Exp, Seq<char>), EvalError>((abc, e0)));
    if is_high(c2) {
        assert(p_term_more(r3, ab) == p_term_more(e0, abc));
        assert(p_term(s) == Ok::<(Exp, Seq<char>), EvalError>((abc, e0)));
        assert(p_expr_more(e0, abc) == Ok::<(Exp, Seq<char>), EvalError>((abc, e0)));
        assert(p_expr(s) == Ok::<(Exp, Seq<char>), EvalError>((abc, e0)));
    } else {
        assert(p_term_more(r3, ab) == Ok::<(Exp, Seq<char>), EvalError>((ab, r3)));
        assert(p_term(s) == Ok::<(Exp, Seq<char>), EvalError>((ab, r3)));
        assert(p_term_more(e0, Exp::Num(c)) == Ok::<(Exp, Seq<char>), EvalError>(
            (Exp::Num(c), e0),
        ));
        assert(p_term(y2) == Ok::<(Exp, Seq<char>), EvalError>((Exp::Num(c), e0)));
        assert(p_expr_more(r3, ab) == p_expr_more(e0, abc));
        assert(p_expr_more(e0, abc) == Ok::<(Exp, Seq<char>), EvalError>((abc, e0)));
        assert(p_expr(s) == Ok::<(Exp, Seq<char>), EvalError>((abc, e0)));
    }
}

/// The text `a c1 (b c2 c)`.
pub open spec fn paren_right3(a: int, c1: char, b: int, c2: char, c: int) -> Seq<char> {
    render(a) + op_gap(c1) + seq!['('] + render(b) + op_gap(c2) + render(c) + seq![')']
}

/// The text `a c1 (b c2 c)` parses to the right-grouped tree, whatever the
/// two operators are.
#[verifier::rlimit(60)]
pub proof fn lemma_parse3_paren_right(a: int, c1: char, b: int, c2: char, c: int)
    requires
        0 <= a <= i32::MAX,
        0 <= b <= i32::MAX,
        0 <= c <= i32::MAX,
        is_op_char(c1),
        is_op_char(c2),
    ensures
        p_parse(paren_right3(a, c1, b, c2, c)) == Ok::<Exp, EvalError>(
            bin(op_token(c1), Exp::Num(a), bin(op_token(c2), Exp::Num(b), Exp::Num(c))),
        ),
{
    let ra = render(a);
    let rb = render(b);
    let rc = render(c);
    lemma_render(a);
    lemma_render(b);
    lemma_render(c);
    let t1 = op_token(c1);
    let t2 = op_token(c2);
    let s = paren_right3(a, c1, b, c2, c);
    let e0 = Seq::<char>::empty();
    let sp = seq![' '];
    let rp = seq![')'];
    let y2 = sp + (rc + rp);
    let u2 = seq![c2] + y2;
    let r3 = op_gap(c2) + (rc + rp);
    let r2 = rb + r3;
    let q = seq!['('] + r2;
    let x2 = sp + q;
    let u1 = seq![c1] + x2;
    let r1 = sp + u1;
    assert(all_space(sp)) by {
        assert(sp[0] == ' ');
    }
    // the scan steps of the text
    assert(s =~= ra + r1);
    lemma_token_int(a, r1);
    assert(spec_token(s) == Ok::<(Token, Seq<char>), EvalError>((Token::Integer(a as i32), r1)));
    lemma_token_space(sp, u1);
    lemma_token_op(c1, x2);
    assert(spec_token(r1) == Ok::<(Token, Seq<char>), EvalError>((t1, x2)));
    lemma_token_space(sp, q);
    lemma_token_op('(', r2);
    assert(spec_token(x2) == Ok::<(Token, Seq<char>), EvalError>((Token::LParen, r2)));
    lemma_token_int(b, r3);
    assert(spec_token(r2) == Ok::<(Token, Seq<char>), EvalError>((Token::Integer(b as i32), r3)));
    assert(r3 =~= sp + u2);
    lemma_token_space(sp, u2);
    lemma_token_op(c2, y2);
    assert(spec_token(r3) == Ok::<(Token, Seq<char>), EvalError>((t2, y2)));
    lemma_token_space(sp, rc + rp);
    lemma_token_int(c, rp);
    assert(spec_token(y2) == Ok::<(Token, Seq<char>), EvalError>((Token::Integer(c as i32), rp)));
    assert(rp =~= seq![')'] + e0);
    lemma_token_op(')', e0);
    assert(spec_token(rp) == Ok::<(Token, Seq<char>), EvalError>((Token::RParen, e0)));
    assert(skip_spaces(e0) == e0);
    assert(spec_token(e0) == Ok::<(Token, Seq<char>), EvalError>((Token::EndOfInput, e0)));
    // the parenthesized sub-expression
    assert(p_factor(r2) == Ok::<(Exp, Seq<char>), EvalError>((Exp::Num(b), r3)));
    assert(p_factor(y2) == Ok::<(Exp, Seq<char>), EvalError>((Exp::Num(c), rp)));
    let bc = bin(t2, Exp::Num(b), Exp::Num(c));
    if is_high(c2) {
        assert(p_term_more(r3, Exp::Num(b)) == p_term_more(rp, bc));
        assert(p_term_more(rp, bc) == Ok::<(Exp, Seq<char>), EvalError>((bc, rp)));
        assert(p_term(r2) == Ok::<(Exp, Seq<char>), EvalError>((bc, rp)));
        assert(p_expr_more(rp, bc) == Ok::<(Exp, Seq<char>), EvalError>((bc, rp)));
        assert(p_expr(r2) == Ok::<(Exp, Seq<char>), EvalError>((bc, rp)));
    } else {
        assert(p_term_more(r3, Exp::Num(b)) == Ok::<(Exp, Seq<char>), EvalError>(
            (Exp::Num(b), r3),
        ));
        assert(p_term(r2) == Ok::<(Exp, Seq<char>), EvalError>((Exp::Num(b), r3)));
        assert(p_term_more(rp, Exp::Num(c)) == Ok::<(Exp, Seq<char>), EvalError>(
            (Exp::Num(c), rp),
        ));
        assert(p_term(y2) == Ok::<(Exp, Seq<char>), EvalError>((Exp::Num(c), rp)));
        assert(p_expr_more(r3, Exp::Num(b)) == p_expr_more(rp, bc));
        assert(p_expr_more(rp, bc) == Ok::<(Exp, Seq<char>), EvalError>((bc, rp)));
        assert(p_expr(r2) == Ok::<(Exp, Seq<char>), EvalError>((bc, rp)));
    }
    // the factor around it, and the outer operator
    assert(p_factor(x2) == Ok::<(Exp, Seq<char>), EvalError>((bc, e0)));
    assert(p_factor(s) == Ok::<(Exp, Seq<char>), EvalError>((Exp::Num(a), r1)));
    let abc = bin(t1, Exp::Num(a), bc);
    assert(p_term_more(e0, abc) == Ok::<(Exp, Seq<char>), EvalError>((abc, e0)));
    if is_high(c1) {
        assert(p_term_more(r1, Exp::Num(a)) == p_term_more(e0, abc));
        assert(p_term(s) == Ok::<(Exp, Seq<char>), EvalError>((abc, e0)));
        assert(p_expr_more(e0, abc) == Ok::<(Exp, Seq<char>), EvalError>((abc, e0)));
        assert(p_expr(s) == Ok::<(Exp, Seq<char>), EvalError>((abc, e0)));
    } else {
        assert(p_term_more(r1, Exp::Num(a)) == Ok::<(Exp, Seq<char>), EvalError>(
            (Exp::Num(a), r1),
        ));
        assert(p_term(s) == Ok::<(Exp, Seq<char>), EvalError>((Exp::Num(a), r1)));
        assert(p_term_more(e0, bc) == Ok::<(Exp, Seq<char>), EvalError>((bc, e0)));
        assert(p_term(x2) == Ok::<(Exp, Seq<char>), EvalError>((bc, e0)));
        assert(p_expr_more(r1, Exp::Num(a)) == p_expr_more(e0, abc));
        assert(p_expr_more(e0, abc) == Ok::<(Exp, Seq<char>), EvalError>((abc, e0)));
        assert(p_expr(s) == Ok::<(Exp, Seq<char>), EvalError>((abc, e0)));
    }
}

/// A single integer literal evaluates to its own value.
pub proof fn lemma_literal_value(n: int)
    requires
        0 <= n <= i32::MAX,
    ensures
        spec_evaluate(render(n)) == Ok::<int, EvalError>(n),
{
    let rn = render(n);
    let e0 = Seq::<char>::empty();
    lemma_render(n);
    assert(rn =~= rn + e0);
    lemma_token_int(n, e0);
    assert(spec_token(rn) == Ok::<(Token, Seq<char>), EvalError>((Token::Integer(n as i32), e0)));
    assert(skip_spaces(e0) == e0);
    assert(spec_token(e0) == Ok::<(Token, Seq<char>), EvalError>((Token::EndOfInput, e0)));
    assert(p_factor(rn) == Ok::<(Exp, Seq<char>), EvalError>((Exp::Num(n), e0)));
    assert(p_term_more(e0, Exp::Num(n)) == Ok::<(Exp, Seq<char>), EvalError>((Exp::Num(n), e0)));
    assert(p_term(rn) == Ok::<(Exp, Seq<char>), EvalError>((Exp::Num(n), e0)));
    assert(p_expr_more(e0, Exp::Num(n)) == Ok::<(Exp, Seq<char>), EvalError>((Exp::Num(n), e0)));
    assert(p_expr(rn) == Ok::<(Exp, Seq<char>), EvalError>((Exp::Num(n), e0)));
    assert(p_parse(rn) == Ok::<Exp, EvalError>(Exp::Num(n)));
}

/// Left-associativity: for all non-negative integers `a`, `b`, `c` the texts
/// `a - b - c` and `(a - b) - c` evaluate alike, and likewise with `/` for
/// `-`.  The two parses build the very same tree, so the law holds whether
/// or not the arithmetic succeeds.
pub proof fn lemma_left_associativity(a: int, c1: char, b: int, c: int)
    requires
        0 <= a <= i32::MAX,
        0 <= b <= i32::MAX,
        0 <= c <= i32::MAX,
        c1 == '-' || c1 == '/',
    ensures
        spec_evaluate(infix3(a, c1, b, c1, c)) == spec_evaluate(paren_left3(a, c1, b, c1, c)),
{
    lemma_parse3(a, c1, b, c1, c);
    lemma_parse3_paren_left(a, c1, b, c1, c);
}

/// The value behind the `-` case of left-associativity: when nothing
/// overflows, both texts yield `(a - b) - c`.
pub proof fn lemma_left_associativity_value(a: int, b: int, c: int)
    requires
        0 <= a <= i32::MAX,
        0 <= b <= i32::MAX,
        0 <= c <= i32::MAX,
        in_i32(a - b - c),
    ensures
        spec_evaluate(infix3(a, '-', b, '-', c)) == Ok::<int, EvalError>(a - b - c),
        spec_evaluate(paren_left3(a, '-', b, '-', c)) == Ok::<int, EvalError>(a - b - c),
{
    lemma_parse3(a, '-', b, '-', c);
    lemma_parse3_paren_left(a, '-', b, '-', c);
    let ab = bin(Token::Minus, Exp::Num(a), Exp::Num(b));
    let abc = bin(Token::Minus, ab, Exp::Num(c));
    assert(infix3_exp(a, '-', b, '-', c) == abc);
    reveal_with_fuel(eval_exp, 3);
    assert(eval_exp(Exp::Num(a)) == Ok::<int, EvalError>(a));
    assert(in_i32(a - b));
    assert(eval_exp(ab) == Ok::<int, EvalError>(a - b));
    assert(eval_exp(abc) == Ok::<int, EvalError>(a - b - c));
}

/// Precedence: for all non-negative integers `a`, `b`, `c` the texts
/// `a + b * c` and `a + (b * c)` evaluate alike.  The two parses build the
/// very same tree, so the law holds whether or not the arithmetic succeeds.
pub proof fn lemma_precedence(a: int, b: int, c: int)
    requires
        0 <= a <= i32::MAX,
        0 <= b <= i32::MAX,
        0 <= c <= i32::MAX,
    ensures
        spec_evaluate(infix3(a, '+', b, '*', c)) == spec_evaluate(paren_right3(a, '+', b, '*', c)),
{
    lemma_parse3(a, '+', b, '*', c);
    lemma_parse3_paren_right(a, '+', b, '*', c);
}

/// The value behind precedence: when nothing overflows, `a + b * c` yields
/// `a + (b * c)`, the multiplication first.
pub proof fn lemma_precedence_value(a: int, b: int, c: int)
    requires
        0 <= a <= i32::MAX,
        0 <= b <= i32::MAX,
        0 <= c <= i32::MAX,
        in_i32(b * c),
        in_i32(a + b * c),
    ensures
        spec_evaluate(infix3(a, '+', b, '*', c)) == Ok::<int, EvalError>(a + b * c),
{
    lemma_parse3(a, '+', b, '*', c);
    let bc = bin(Token::Mul, Exp::Num(b), Exp::Num(c));
    let abc = bin(Token::Plus, Exp::Num(a), bc);
    assert(infix3_exp(a, '+', b, '*', c) == abc);
    reveal_with_fuel(eval_exp, 3);
    assert(eval_exp(Exp::Num(a)) == Ok::<int, EvalError>(a));
    assert(eval_exp(bc) == Ok::<int, EvalError>(b * c));
    assert(eval_exp(abc) == Ok::<int, EvalError>(a + b * c));
}

/// The whole token reading of an input: every token up to and including
/// end-of-input, and the error that cuts the reading short, if one does.
pub open spec fn lex_all(s: Seq<char>) -> (Seq<Token>, Option<EvalError>)
    decreases s.len(),
{
    match spec_token(s) {
        Err(e) => (Seq::empty(), Some(e)),
        Ok(p) => if p.0 == Token::EndOfInput {
            (seq![p.0], None)
        } else if p.1.len() < s.len() {
            let rec = lex_all(p.1);
            (seq![p.0] + rec.0, rec.1)
        } else {
            (Seq::empty(), None)
        },
    }
}

/// Two inputs with the same token reading scan alike: the same first token,
/// or the same error, and the rests read alike again.
pub proof fn lemma_lex_all_step(x: Seq<char>, y: Seq<char>)
    requires
        lex_all(x) == lex_all(y),
    ensures
        match (spec_token(x), spec_token(y)) {
            (Ok(px), Ok(py)) => px.0 == py.0 && (px.0 != Token::EndOfInput ==> lex_all(px.1)
                == lex_all(py.1)),
            (Err(ex), Err(ey)) => ex == ey,
            _ => false,
        },
{
    lemma_spec_token_progress(x);
    lemma_spec_token_progress(y);
    match (spec_token(x), spec_token(y)) {
        (Ok(px), Ok(py)) => {
            if px.0 == Token::EndOfInput && py.0 != Token::EndOfInput {
                assert(lex_all(y).0[0] == py.0);
                assert(false);
            }
            if px.0 != Token::EndOfInput && py.0 == Token::EndOfInput {
                assert(lex_all(x).0[0] == px.0);
                assert(false);
            }
            if px.0 != Token::EndOfInput && py.0 != Token::EndOfInput {
                assert(lex_all(x).0[0] == px.0);
                assert(lex_all(y).0[0] == py.0);
                assert((seq![px.0] + lex_all(px.1).0).skip(1) =~= lex_all(px.1).0);
                assert((seq![py.0] + lex_all(py.1).0).skip(1) =~= lex_all(py.1).0);
                assert(lex_all(px.1).0 == lex_all(py.1).0);
                assert(lex_all(px.1).1 == lex_all(py.1).1);
            }
        },
        (Err(ex), Ok(py)) => {
            if py.0 == Token::EndOfInput {
                assert(lex_all(y).1 is None);
            } else {
                assert(lex_all(y).0.len() >= 1);
            }
            assert(false);
        },
        (Ok(px), Err(ey)) => {
            if px.0 == Token::EndOfInput {
                assert(lex_all(x).1 is None);
            } else {
                assert(lex_all(x).0.len() >= 1);
            }
            assert(false);
        },
        _ => {},
    }
}

/// Two inputs with the same token reading parse alike as factors.
pub proof fn lemma_factor_lex(x: Seq<char>, y: Seq<char>)
    requires
        lex_all(x) == lex_all(y),
    ensures
        match (p_factor(x), p_factor(y)) {
            (Ok(qx), Ok(qy)) => qx.0 == qy.0 && lex_all(qx.1) == lex_all(qy.1),
            (Err(ex), Err(ey)) => ex == ey,
            _ => false,
        },
    decreases x.len() + y.len(), 0int,
{
    lemma_lex_all_step(x, y);
    lemma_spec_token_progress(x);
    lemma_spec_token_progress(y);
    if let (Ok(px), Ok(py)) = (spec_token(x), spec_token(y)) {
        if px.0 == Token::LParen {
            lemma_expr_lex(px.1, py.1);
            if let (Ok(qx), Ok(qy)) = (p_expr(px.1), p_expr(py.1)) {
                lemma_lex_all_step(qx.1, qy.1);
                lemma_p_expr_progress(px.1);
                lemma_p_expr_progress(py.1);
            }
        }
    }
}

/// Two inputs with the same token reading fold further factors alike.
pub proof fn lemma_term_more_lex(x: Seq<char>, y: Seq<char>, acc: Exp)
    requires
        lex_all(x) == lex_all(y),
    ensures
        match (p_term_more(x, acc), p_term_more(y, acc)) {
            (Ok(qx), Ok(qy)) => qx.0 == qy.0 && lex_all(qx.1) == lex_all(qy.1),
            (Err(ex), Err(ey)) => ex == ey,
            _ => false,
        },
    decreases x.len() + y.len(), 1int,
{
    lemma_lex_all_step(x, y);
    lemma_spec_token_progress(x);
    lemma_spec_token_progress(y);
    if let (Ok(px), Ok(py)) = (spec_token(x), spec_token(y)) {
        if px.0 == Token::Mul || px.0 == Token::Div {
            lemma_factor_lex(px.1, py.1);
            lemma_p_factor_progress(px.1);
            lemma_p_factor_progress(py.1);
            if let (Ok(qx), Ok(qy)) = (p_factor(px.1), p_factor(py.1)) {
                lemma_term_more_lex(qx.1, qy.1, Exp::Bin(px.0, Box::new(acc), Box::new(qx.0)));
            }
        }
    }
}

/// Two inputs with the same token reading parse alike as terms.
pub proof fn lemma_term_lex(x: Seq<char>, y: Seq<char>)
    requires
        lex_all(x) == lex_all(y),
    ensures
        match (p_term(x), p_term(y)) {
            (Ok(qx), Ok(qy)) => qx.0 == qy.0 && lex_all(qx.1) == lex_all(qy.1),
            (Err(ex), Err(ey)) => ex == ey,
            _ => false,
        },
    decreases x.len() + y.len(), 2int,
{
    lemma_factor_lex(x, y);
    lemma_p_factor_progress(x);
    lemma_p_factor_progress(y);
    if let (Ok(qx), Ok(qy)) = (p_factor(x), p_factor(y)) {
        lemma_term_more_lex(qx.1, qy.1, qx.0);
    }
}

/// Two inputs with the same token reading fold further terms alike.
pub proof fn lemma_expr_more_lex(x: Seq<char>, y: Seq<char>, acc: Exp)
    requires
        lex_all(x) == lex_all(y),
    ensures
        match (p_expr_more(x, acc), p_expr_more(y, acc)) {
            (Ok(qx), Ok(qy)) => qx.0 == qy.0 && lex_all(qx.1) == lex_all(qy.1),
            (Err(ex), Err(ey)) => ex == ey,
            _ => false,
        },
    decreases x.len() + y.len(), 3int,
{
    lemma_lex_all_step(x, y);
    lemma_spec_token_progress(x);
    lemma_spec_token_progress(y);
    if let (Ok(px), Ok(py)) = (spec_token(x), spec_token(y)) {
        if px.0 == Token::Plus || px.0 == Token::Minus {
            lemma_term_lex(px.1, py.1);
            lemma_p_term_progress(px.1);
            lemma_p_term_progress(py.1);
            if let (Ok(qx), Ok(qy)) = (p_term(px.1), p_term(py.1)) {
                lemma_expr_more_lex(qx.1, qy.1, Exp::Bin(px.0, Box::new(acc), Box::new(qx.0)));
            }
        }
    }
}

/// Two inputs with the same token reading parse alike as expressions.
pub proof fn lemma_expr_lex(x: Seq<char>, y: Seq<char>)
    requires
        lex_all(x) == lex_all(y),
    ensures
        match (p_expr(x), p_expr(y)) {
            (Ok(qx), Ok(qy)) => qx.0 == qy.0 && lex_all(qx.1) == lex_all(qy.1),
            (Err(ex), Err(ey)) => ex == ey,
            _ => false,
        },
    decreases x.len() + y.len(), 4int,
{
    lemma_term_lex(x, y);
    lemma_p_term_progress(x);
    lemma_p_term_progress(y);
    if let (Ok(qx), Ok(qy)) = (p_term(x), p_term(y)) {
        lemma_expr_more_lex(qx.1, qy.1, qx.0);
    }
}

/// Two inputs with the same token reading evaluate alike.
pub proof fn lemma_evaluate_lex(x: Seq<char>, y: Seq<char>)
    requires
        lex_all(x) == lex_all(y),
    ensures
        spec_evaluate(x) == spec_evaluate(y),
{
    lemma_expr_lex(x, y);
    if let (Ok(qx), Ok(qy)) = (p_expr(x), p_expr(y)) {
        lemma_lex_all_step(qx.1, qy.1);
    }
}

/// An input whose leading whitespace skips away entirely is all whitespace
/// before anything that follows it.
pub proof fn lemma_skip_spaces_concat0(u: Seq<char>, z: Seq<char>)
    requires
        skip_spaces(u).len() == 0,
    ensures
        skip_spaces(u + z) == skip_spaces(z),
    decreases u.len(),
{
    if u.len() == 0 {
        assert(u + z =~= z);
    } else {
        assert(is_space(u[0]));
        assert((u + z)[0] == u[0]);
        assert((u + z).skip(1) =~= u.skip(1) + z);
        lemma_skip_spaces_concat0(u.skip(1), z);
    }
}

/// When some of the input survives the whitespace skip, what follows the
/// input is untouched by it.
pub proof fn lemma_skip_spaces_concat2(u: Seq<char>, z: Seq<char>)
    requires
        skip_spaces(u).len() > 0,
    ensures
        skip_spaces(u + z) == skip_spaces(u) + z,
    decreases u.len(),
{
    if u.len() > 0 && is_space(u[0]) {
        assert((u + z)[0] == u[0]);
        assert((u + z).skip(1) =~= u.skip(1) + z);
        lemma_skip_spaces_concat2(u.skip(1), z);
    } else {
        assert(skip_spaces(u) == u);
        assert(skip_spaces(u + z) == u + z);
    }
}

/// What the whitespace skip leaves never starts with whitespace.
pub proof fn lemma_skip_spaces_head(u: Seq<char>)
    requires
        skip_spaces(u).len() > 0,
    ensures
        !is_space(skip_spaces(u)[0]),
    decreases u.len(),
{
    if u.len() > 0 && is_space(u[0]) {
        lemma_skip_spaces_head(u.skip(1));
    }
}

/// A digit run that stops inside the input is unchanged by anything that
/// follows the input.
pub proof fn lemma_digit_run_concat(t: Seq<char>, z: Seq<char>)
    requires
        digit_run(t) < t.len(),
    ensures
        digit_run(t + z) == digit_run(t),
    decreases t.len(),
{
    if t.len() > 0 && is_digit(t[0]) {
        assert((t + z)[0] == t[0]);
        assert((t + z).skip(1) =~= t.skip(1) + z);
        lemma_digit_run_concat(t.skip(1), z);
    } else {
        assert((t + z)[0] == t[0]);
    }
}

/// Two inputs that scan to the very same first step read to the very same
/// tokens.
pub proof fn lemma_lex_all_eq_token(x: Seq<char>, y: Seq<char>)
    requires
        spec_token(x) == spec_token(y),
    ensures
        lex_all(x) == lex_all(y),
{
    lemma_spec_token_progress(x);
    lemma_spec_token_progress(y);
}

/// Exchanging one nonempty whitespace run for another, anywhere in the
/// input, leaves the token reading as it was; the other run may even be
/// empty, as long as that does not fuse a digit run with what follows.
pub proof fn lemma_lex_insert(u: Seq<char>, w1: Seq<char>, w2: Seq<char>, v: Seq<char>)
    requires
        all_space(w1),
        w1.len() > 0,
        all_space(w2),
        w2.len() > 0 || v.len() == 0 || !is_digit(v[0]),
    ensures
        lex_all(u + w1 + v) == lex_all(u + w2 + v),
    decreases u.len(),
{
    let z1 = u + w1 + v;
    let z2 = u + w2 + v;
    let t = skip_spaces(u);
    lemma_skip_spaces_len(u);
    assert(z1 =~= u + (w1 + v));
    assert(z2 =~= u + (w2 + v));
    if t.len() == 0 {
        lemma_skip_spaces_concat0(u, w1 + v);
        lemma_skip_spaces_concat0(u, w2 + v);
        lemma_skip_spaces_concat(w1, v);
        lemma_skip_spaces_concat(w2, v);
        assert(skip_spaces(z1) == skip_spaces(v));
        assert(skip_spaces(z2) == skip_spaces(v));
        assert(spec_token(z1) == spec_token(z2));
        lemma_lex_all_eq_token(z1, z2);
    } else {
        lemma_skip_spaces_concat2(u, w1 + v);
        lemma_skip_spaces_concat2(u, w2 + v);
        lemma_skip_spaces_head(u);
        let tt1 = t + (w1 + v);
        let tt2 = t + (w2 + v);
        assert(skip_spaces(z1) == tt1);
        assert(skip_spaces(z2) == tt2);
        assert(tt1[0] == t[0]);
        assert(tt2[0] == t[0]);
        assert(!is_space(t[0]));
        lemma_spec_token_progress(z1);
        lemma_spec_token_progress(z2);
        if is_digit(t[0]) {
            let n = digit_run(t);
            lemma_digit_run(t);
            assert(n >= 1);
            if n < t.len() {
                lemma_digit_run_concat(t, w1 + v);
                lemma_digit_run_concat(t, w2 + v);
                assert(tt1.take(n) =~= t.take(n));
                assert(tt2.take(n) =~= t.take(n));
                let value = digits_value(t.take(n));
                if value <= i32::MAX {
                    let r1 = t.skip(n) + (w1 + v);
                    let r2 = t.skip(n) + (w2 + v);
                    assert(tt1.skip(n) =~= r1);
                    assert(tt2.skip(n) =~= r2);
                    assert(spec_token(z1) == Ok::<(Token, Seq<char>), EvalError>(
                        (Token::Integer(value as i32), r1),
                    ));
                    assert(spec_token(z2) == Ok::<(Token, Seq<char>), EvalError>(
                        (Token::Integer(value as i32), r2),
                    ));
                    assert(t.skip(n).len() < u.len());
                    lemma_lex_insert(t.skip(n), w1, w2, v);
                    assert(r1 =~= t.skip(n) + w1 + v);
                    assert(r2 =~= t.skip(n) + w2 + v);
                    assert(lex_all(z1) == (seq![Token::Integer(value as i32)] + lex_all(r1).0,
                    lex_all(r1).1));
                    assert(lex_all(z2) == (seq![Token::Integer(value as i32)] + lex_all(r2).0,
                    lex_all(r2).1));
                } else {
                    assert(spec_token(z1) == Err::<(Token, Seq<char>), EvalError>(
                        EvalError::IntegerLiteral,
                    ));
                    assert(spec_token(z2) == Err::<(Token, Seq<char>), EvalError>(
                        EvalError::IntegerLiteral,
                    ));
                }
            } else {
                assert(forall|i: int| 0 <= i < t.len() ==> is_digit(#[trigger] t[i]));
                assert((w1 + v)[0] == w1[0]);
                assert(!is_digit(w1[0]));
                assert((w2 + v).len() == 0 || !is_digit((w2 + v)[0])) by {
                    if w2.len() > 0 {
                        assert((w2 + v)[0] == w2[0]);
                    } else if v.len() > 0 {
                        assert(w2 + v =~= v);
                    }
                }
                lemma_digit_run_all(t, w1 + v);
                lemma_digit_run_all(t, w2 + v);
                assert(tt1.take(t.len() as int) =~= t);
                assert(tt2.take(t.len() as int) =~= t);
                let value = digits_value(t);
                if value <= i32::MAX {
                    assert(tt1.skip(t.len() as int) =~= w1 + v);
                    assert(tt2.skip(t.len() as int) =~= w2 + v);
                    assert(spec_token(z1) == Ok::<(Token, Seq<char>), EvalError>(
                        (Token::Integer(value as i32), w1 + v),
                    ));
                    assert(spec_token(z2) == Ok::<(Token, Seq<char>), EvalError>(
                        (Token::Integer(value as i32), w2 + v),
                    ));
                    lemma_token_space(w1, v);
                    lemma_token_space(w2, v);
                    lemma_lex_all_eq_token(w1 + v, w2 + v);
                    assert(lex_all(z1) == (seq![Token::Integer(value as i32)] + lex_all(w1 + v).0,
                    lex_all(w1 + v).1));
                    assert(lex_all(z2) == (seq![Token::Integer(value as i32)] + lex_all(w2 + v).0,
                    lex_all(w2 + v).1));
                } else {
                    assert(spec_token(z1) == Err::<(Token, Seq<char>), EvalError>(
                        EvalError::IntegerLiteral,
                    ));
                    assert(spec_token(z2) == Err::<(Token, Seq<char>), EvalError>(
                        EvalError::IntegerLiteral,
                    ));
                }
            }
        } else if t[0] == '+' || t[0] == '-' || t[0] == '*' || t[0] == '/' || t[0] == '(' || t[0]
            == ')' {
            let r1 = t.skip(1) + (w1 + v);
            let r2 = t.skip(1) + (w2 + v);
            assert(tt1.skip(1) =~= r1);
            assert(tt2.skip(1) =~= r2);
            assert(spec_token(z1) == Ok::<(Token, Seq<char>), EvalError>((op_token(t[0]), r1)));
            assert(spec_token(z2) == Ok::<(Token, Seq<char>), EvalError>((op_token(t[0]), r2)));
            assert(t.skip(1).len() < u.len());
            lemma_lex_insert(t.skip(1), w1, w2, v);
            assert(r1 =~= t.skip(1) + w1 + v);
            assert(r2 =~= t.skip(1) + w2 + v);
            assert(lex_all(z1) == (seq![op_token(t[0])] + lex_all(r1).0, lex_all(r1).1));
            assert(lex_all(z2) == (seq![op_token(t[0])] + lex_all(r2).0, lex_all(r2).1));
        } else {
            assert(spec_token(z1) == Err::<(Token, Seq<char>), EvalError>(EvalError::Lexical));
            assert(spec_token(z2) == Err::<(Token, Seq<char>), EvalError>(EvalError::Lexical));
        }
    }
}

/// Whitespace invariance: exchanging one nonempty whitespace run, anywhere
/// in the input, for any other nonempty whitespace run — longer, shorter,
/// or of other whitespace characters, non-ASCII space separators included —
/// does not change what the input evaluates to.
pub proof fn lemma_whitespace_invariance(
    u: Seq<char>,
    w1: Seq<char>,
    w2: Seq<char>,
    v: Seq<char>,
)
    requires
        all_space(w1),
        w1.len() > 0,
        all_space(w2),
        w2.len() > 0,
    ensures
        spec_evaluate(u + w1 + v) == spec_evaluate(u + w2 + v),
{
    lemma_lex_insert(u, w1, w2, v);
    lemma_evaluate_lex(u + w1 + v, u + w2 + v);
}

/// Whitespace insertion: putting any nonempty whitespace run — of any
/// length, non-ASCII space separators included — between two tokens does
/// not change what the input evaluates to.  The insertion point may be
/// anywhere that does not split a digit run in two.
pub proof fn lemma_whitespace_insertion(u: Seq<char>, w: Seq<char>, v: Seq<char>)
    requires
        all_space(w),
        w.len() > 0,
        v.len() == 0 || !is_digit(v[0]),
    ensures
        spec_evaluate(u + w + v) == spec_evaluate(u + v),
{
    let w2 = Seq::<char>::empty();
    lemma_lex_insert(u, w, w2, v);
    assert(u + w2 =~= u);
    lemma_evaluate_lex(u + w + v, u + v);
}

/// The input with its last `r.len()` characters replaced by `r2`.
pub open spec fn swap_tail(y: Seq<char>, r: Seq<char>, r2: Seq<char>) -> Seq<char> {
    y.take(y.len() - r.len()) + r2
}

/// A suffix of a suffix of `x` is a suffix of it.
pub proof fn lemma_suffix_chain(r: Seq<char>, y: Seq<char>, x: Seq<char>)
    requires
        y.is_suffix_of(x),
        r.len() <= y.len(),
        r.is_suffix_of(x),
    ensures
        r.is_suffix_of(y),
{
    assert(y =~= x.skip(x.len() - y.len()));
    assert(r =~= x.skip(x.len() - r.len()));
    vstd::seq_lib::lemma_seq_skip_of_skip(x, x.len() - y.len(), y.len() - r.len());
    assert(y.skip(y.len() - r.len()) =~= r);
    assert(r =~= y.subrange(y.len() - r.len(), y.len() as int));
}

/// An input whose whitespace skip leaves nothing is whitespace throughout.
pub proof fn lemma_all_space_of_skips(s: Seq<char>)
    requires
        skip_spaces(s).len() == 0,
    ensures
        all_space(s),
    decreases s.len(),
{
    if s.len() > 0 {
        assert(is_space(s[0]));
        lemma_all_space_of_skips(s.skip(1));
        assert forall|i: int| 0 <= i < s.len() implies is_space(#[trigger] s[i]) by {
            if i >= 1 {
                assert(s[i] == s.skip(1)[i - 1]);
                assert(is_space(s.skip(1)[i - 1]));
            }
        }
    }
}

/// The whitespace skip leaves a suffix of the input.
pub proof fn lemma_skip_spaces_suffix(s: Seq<char>)
    ensures
        skip_spaces(s).is_suffix_of(s),
    decreases s.len(),
{
    lemma_skip_spaces_len(s);
    if s.len() > 0 && is_space(s[0]) {
        lemma_skip_spaces_suffix(s.skip(1));
        let t = skip_spaces(s);
        assert(t =~= s.skip(1).subrange(s.skip(1).len() - t.len(), s.skip(1).len() as int));
        assert(t =~= s.subrange(s.len() - t.len(), s.len() as int));
    } else {
        assert(skip_spaces(s) =~= s.subrange(0, s.len() as int));
    }
}

/// Scanning one token leaves a suffix of the input.
pub proof fn lemma_token_suffix(s: Seq<char>)
    ensures
        spec_token(s) matches Ok(p) ==> p.1.is_suffix_of(s),
{
    lemma_skip_spaces_suffix(s);
    lemma_skip_spaces_len(s);
    let t = skip_spaces(s);
    if let Ok(p) = spec_token(s) {
        if t.len() > 0 && is_digit(t[0]) {
            lemma_digit_run(t);
        }
        let n = (t.len() - p.1.len()) as int;
        assert(p.1 =~= t.skip(n));
        assert(t =~= s.skip(s.len() - t.len()));
        vstd::seq_lib::lemma_seq_skip_of_skip(s, s.len() - t.len(), n);
        assert(p.1 =~= s.subrange(s.len() - p.1.len(), s.len() as int));
    }
}

/// What a token of an all-whitespace tail and of a closing-parenthesis tail
/// look like: exchanging the first for the second behind any prefix either
/// turns an end-of-input token into the closing parenthesis, or leaves the
/// token and the error exactly as they were.
pub proof fn lemma_token_swap(c: Seq<char>, r: Seq<char>, r2: Seq<char>)
    requires
        skip_spaces(r).len() == 0,
        spec_token(r2) matches Ok(p2) && p2.0 == Token::RParen,
    ensures
        match spec_token(c + r) {
            Err(e) => spec_token(c + r2) == Err::<(Token, Seq<char>), EvalError>(e),
            Ok(p) => if p.0 == Token::EndOfInput {
                spec_token(c + r2) == spec_token(r2)
            } else {
                p.1.len() >= r.len() && spec_token(c + r2) == Ok::<(Token, Seq<char>), EvalError>(
                    (p.0, p.1.take(p.1.len() - r.len()) + r2),
                )
            },
        },
{
    let sc = skip_spaces(c);
    lemma_all_space_of_skips(r);
    lemma_skip_spaces_len(c);
    // the replacement tail starts with no digit
    assert(r2.len() > 0 && !is_digit(r2[0])) by {
        if r2.len() == 0 || !is_space(r2[0]) {
            assert(skip_spaces(r2) == r2);
        }
    }
    assert(r.len() == 0 || !is_digit(r[0]));
    if sc.len() == 0 {
        lemma_skip_spaces_concat0(c, r);
        lemma_skip_spaces_concat0(c, r2);
        assert(skip_spaces(c + r) == skip_spaces(r));
        assert(skip_spaces(c + r2) == skip_spaces(r2));
        assert(spec_token(c + r) == Ok::<(Token, Seq<char>), EvalError>(
            (Token::EndOfInput, skip_spaces(r)),
        ));
    } else {
        lemma_skip_spaces_concat2(c, r);
        lemma_skip_spaces_concat2(c, r2);
        lemma_skip_spaces_head(c);
        assert((sc + r)[0] == sc[0]);
        assert((sc + r2)[0] == sc[0]);
        if is_digit(sc[0]) {
            lemma_digit_run(sc);
            let n = digit_run(sc);
            if n < sc.len() {
                lemma_digit_run_concat(sc, r);
                lemma_digit_run_concat(sc, r2);
            } else {
                lemma_digit_run_all(sc, r);
                lemma_digit_run_all(sc, r2);
            }
            assert(digit_run(sc + r) == n);
            assert(digit_run(sc + r2) == n);
            assert((sc + r).take(n) =~= sc.take(n));
            assert((sc + r2).take(n) =~= sc.take(n));
            let value = digits_value(sc.take(n));
            if value <= i32::MAX {
                assert((sc + r).skip(n) =~= sc.skip(n) + r);
                assert((sc + r2).skip(n) =~= sc.skip(n) + r2);
                assert((sc.skip(n) + r).take((sc.skip(n) + r).len() - r.len()) =~= sc.skip(n));
            }
        } else if sc[0] == '+' || sc[0] == '-' || sc[0] == '*' || sc[0] == '/' || sc[0] == '('
            || sc[0] == ')' {
            assert((sc + r).skip(1) =~= sc.skip(1) + r);
            assert((sc + r2).skip(1) =~= sc.skip(1) + r2);
            assert((sc.skip(1) + r).take((sc.skip(1) + r).len() - r.len()) =~= sc.skip(1));
        }
    }
}

/// Suffixes compose.
pub proof fn lemma_suffix_trans(a: Seq<char>, b: Seq<char>, c: Seq<char>)
    requires
        a.is_suffix_of(b),
        b.is_suffix_of(c),
    ensures
        a.is_suffix_of(c),
{
    assert(b =~= c.skip(c.len() - b.len()));
    assert(a =~= b.skip(b.len() - a.len()));
    vstd::seq_lib::lemma_seq_skip_of_skip(c, c.len() - b.len(), b.len() - a.len());
    assert(a =~= c.subrange(c.len() - a.len(), c.len() as int));
}

/// A factor leaves a suffix of its input.
pub proof fn lemma_p_factor_suffix(x: Seq<char>)
    ensures
        p_factor(x) matches Ok(q) ==> q.1.is_suffix_of(x),
    decreases x.len(), 0int,
{
    lemma_token_suffix(x);
    lemma_spec_token_progress(x);
    if let Ok(p) = spec_token(x) {
        if p.0 == Token::LParen && p.1.len() < x.len() {
            lemma_p_expr_suffix(p.1);
            if let Ok(qin) = p_expr(p.1) {
                lemma_token_suffix(qin.1);
                if let Ok(p2) = spec_token(qin.1) {
                    lemma_suffix_trans(p2.1, qin.1, p.1);
                    lemma_suffix_trans(p2.1, p.1, x);
                }
            }
        }
    }
}

/// Folding further factors leaves a suffix of its input.
pub proof fn lemma_p_term_more_suffix(x: Seq<char>, acc: Exp)
    ensures
        p_term_more(x, acc) matches Ok(q) ==> q.1.is_suffix_of(x),
    decreases x.len(), 1int,
{
    lemma_token_suffix(x);
    lemma_spec_token_progress(x);
    assert(x =~= x.subrange(0, x.len() as int));
    if let Ok(p) = spec_token(x) {
        if (p.0 == Token::Mul || p.0 == Token::Div) && p.1.len() < x.len() {
            lemma_p_factor_suffix(p.1);
            lemma_p_factor_progress(p.1);
            if let Ok(qf) = p_factor(p.1) {
                if qf.1.len() < x.len() {
                    lemma_p_term_more_suffix(qf.1, Exp::Bin(p.0, Box::new(acc), Box::new(qf.0)));
                    if let Ok(q) = p_term_more(qf.1, Exp::Bin(p.0, Box::new(acc), Box::new(qf.0))) {
                        lemma_suffix_trans(q.1, qf.1, p.1);
                        lemma_suffix_trans(q.1, p.1, x);
                    }
                }
            }
        }
    }
}

/// A term leaves a suffix of its input.
pub proof fn lemma_p_term_suffix(x: Seq<char>)
    ensures
        p_term(x) matches Ok(q) ==> q.1.is_suffix_of(x),
    decreases x.len(), 2int,
{
    lemma_p_factor_suffix(x);
    lemma_p_factor_progress(x);
    if let Ok(qf) = p_factor(x) {
        if qf.1.len() < x.len() {
            lemma_p_term_more_suffix(qf.1, qf.0);
            if let Ok(q) = p_term_more(qf.1, qf.0) {
                lemma_suffix_trans(q.1, qf.1, x);
            }
        }
    }
}

/// Folding further terms leaves a suffix of its input.
pub proof fn lemma_p_expr_more_suffix(x: Seq<char>, acc: Exp)
    ensures
        p_expr_more(x, acc) matches Ok(q) ==> q.1.is_suffix_of(x),
    decreases x.len(), 3int,
{
    lemma_token_suffix(x);
    lemma_spec_token_progress(x);
    assert(x =~= x.subrange(0, x.len() as int));
    if let Ok(p) = spec_token(x) {
        if (p.0 == Token::Plus || p.0 == Token::Minus) && p.1.len() < x.len() {
            lemma_p_term_suffix(p.1);
            lemma_p_term_progress(p.1);
            if let Ok(qt) = p_term(p.1) {
                if qt.1.len() < x.len() {
                    lemma_p_expr_more_suffix(qt.1, Exp::Bin(p.0, Box::new(acc), Box::new(qt.0)));
                    if let Ok(q) = p_expr_more(qt.1, Exp::Bin(p.0, Box::new(acc), Box::new(qt.0))) {
                        lemma_suffix_trans(q.1, qt.1, p.1);
                        lemma_suffix_trans(q.1, p.1, x);
                    }
                }
            }
        }
    }
}

/// An expression leaves a suffix of its input.
pub proof fn lemma_p_expr_suffix(x: Seq<char>)
    ensures
        p_expr(x) matches Ok(q) ==> q.1.is_suffix_of(x),
    decreases x.len(), 4int,
{
    lemma_p_term_suffix(x);
    lemma_p_term_progress(x);
    if let Ok(qt) = p_term(x) {
        if qt.1.len() < x.len() {
            lemma_p_expr_more_suffix(qt.1, qt.0);
            if let Ok(q) = p_expr_more(qt.1, qt.0) {
                lemma_suffix_trans(q.1, qt.1, x);
            }
        }
    }
}

/// [`lemma_token_swap`], applied to an input with the whitespace tail as a
/// suffix.
pub proof fn lemma_token_swap_at(y: Seq<char>, r: Seq<char>, r2: Seq<char>)
    requires
        r.is_suffix_of(y),
        skip_spaces(r).len() == 0,
        spec_token(r2) matches Ok(p2) && p2.0 == Token::RParen,
    ensures
        match spec_token(y) {
            Err(e) => spec_token(swap_tail(y, r, r2)) == Err::<(Token, Seq<char>), EvalError>(e),
            Ok(p) => if p.0 == Token::EndOfInput {
                spec_token(swap_tail(y, r, r2)) == spec_token(r2)
            } else {
                r.is_suffix_of(p.1) && spec_token(swap_tail(y, r, r2)) == Ok::<
                    (Token, Seq<char>),
                    EvalError,
                >((p.0, swap_tail(p.1, r, r2)))
            },
        },
{
    let c = y.take(y.len() - r.len());
    assert(y =~= c + r);
    lemma_token_swap(c, r, r2);
    lemma_token_suffix(y);
    if let Ok(p) = spec_token(y) {
        if p.0 != Token::EndOfInput {
            lemma_suffix_chain(r, p.1, y);
        }
    }
}

/// Exchanging a whitespace tail behind a factor for a closing-parenthesis
/// tail leaves the factor and its node as they were.
pub proof fn lemma_factor_ext(x: Seq<char>, r: Seq<char>, r2: Seq<char>)
    requires
        skip_spaces(r).len() == 0,
        spec_token(r2) matches Ok(p2) && p2.0 == Token::RParen,
        p_factor(x) matches Ok(q) && r.is_suffix_of(q.1),
    ensures
        match p_factor(x) {
            Ok(q) => p_factor(swap_tail(x, r, r2)) == Ok::<(Exp, Seq<char>), EvalError>(
                (q.0, swap_tail(q.1, r, r2)),
            ),
            Err(_) => true,
        },
    decreases x.len(), 0int,
{
    lemma_p_factor_suffix(x);
    lemma_spec_token_progress(x);
    if let Ok(q) = p_factor(x) {
        lemma_suffix_trans(r, q.1, x);
        lemma_token_swap_at(x, r, r2);
        if let Ok(p) = spec_token(x) {
            if p.0 == Token::LParen {
                if let Ok(qin) = p_expr(p.1) {
                    lemma_p_expr_suffix(p.1);
                    lemma_token_suffix(qin.1);
                    if let Ok(pr) = spec_token(qin.1) {
                        lemma_suffix_trans(r, pr.1, qin.1);
                        lemma_expr_ext(p.1, r, r2);
                        lemma_token_swap_at(qin.1, r, r2);
                        lemma_p_expr_progress(p.1);
                        lemma_spec_token_progress(qin.1);
                    }
                }
            }
        }
    }
}

/// Exchanging a whitespace tail behind a factor fold for a
/// closing-parenthesis tail leaves the fold and its node as they were.
pub proof fn lemma_term_more_ext(x: Seq<char>, r: Seq<char>, r2: Seq<char>, acc: Exp)
    requires
        skip_spaces(r).len() == 0,
        spec_token(r2) matches Ok(p2) && p2.0 == Token::RParen,
        p_term_more(x, acc) matches Ok(q) && r.is_suffix_of(q.1),
    ensures
        match p_term_more(x, acc) {
            Ok(q) => p_term_more(swap_tail(x, r, r2), acc) == Ok::<(Exp, Seq<char>), EvalError>(
                (q.0, swap_tail(q.1, r, r2)),
            ),
            Err(_) => true,
        },
    decreases x.len(), 1int,
{
    lemma_p_term_more_suffix(x, acc);
    lemma_spec_token_progress(x);
    if let Ok(q) = p_term_more(x, acc) {
        lemma_suffix_trans(r, q.1, x);
        lemma_token_swap_at(x, r, r2);
        if let Ok(p) = spec_token(x) {
            if p.0 == Token::Mul || p.0 == Token::Div {
                if let Ok(qf) = p_factor(p.1) {
                    lemma_p_factor_suffix(p.1);
                    lemma_p_factor_progress(p.1);
                    let folded = Exp::Bin(p.0, Box::new(acc), Box::new(qf.0));
                    lemma_p_term_more_suffix(qf.1, folded);
                    lemma_suffix_trans(r, q.1, qf.1);
                    lemma_factor_ext(p.1, r, r2);
                    lemma_term_more_ext(qf.1, r, r2, folded);
                }
            }
        }
    }
}

/// Exchanging a whitespace tail behind a term for a closing-parenthesis
/// tail leaves the term and its node as they were.
pub proof fn lemma_term_ext(x: Seq<char>, r: Seq<char>, r2: Seq<char>)
    requires
        skip_spaces(r).len() == 0,
        spec_token(r2) matches Ok(p2) && p2.0 == Token::RParen,
        p_term(x) matches Ok(q) && r.is_suffix_of(q.1),
    ensures
        match p_term(x) {
            Ok(q) => p_term(swap_tail(x, r, r2)) == Ok::<(Exp, Seq<char>), EvalError>(
                (q.0, swap_tail(q.1, r, r2)),
            ),
            Err(_) => true,
        },
    decreases x.len(), 2int,
{
    lemma_p_term_suffix(x);
    lemma_p_factor_progress(x);
    if let Ok(q) = p_term(x) {
        lemma_suffix_trans(r, q.1, x);
        if let Ok(qf) = p_factor(x) {
            lemma_p_factor_suffix(x);
            lemma_p_term_more_suffix(qf.1, qf.0);
            lemma_suffix_trans(r, q.1, qf.1);
            lemma_factor_ext(x, r, r2);
            lemma_term_more_ext(qf.1, r, r2, qf.0);
        }
    }
}

/// Exchanging a whitespace tail behind a term fold for a
/// closing-parenthesis tail leaves the fold and its node as they were.
pub proof fn lemma_expr_more_ext(x: Seq<char>, r: Seq<char>, r2: Seq<char>, acc: Exp)
    requires
        skip_spaces(r).len() == 0,
        spec_token(r2) matches Ok(p2) && p2.0 == Token::RParen,
        p_expr_more(x, acc) matches Ok(q) && r.is_suffix_of(q.1),
    ensures
        match p_expr_more(x, acc) {
            Ok(q) => p_expr_more(swap_tail(x, r, r2), acc) == Ok::<(Exp, Seq<char>), EvalError>(
                (q.0, swap_tail(q.1, r, r2)),
            ),
            Err(_) => true,
        },
    decreases x.len(), 3int,
{
    lemma_p_expr_more_suffix(x, acc);
    lemma_spec_token_progress(x);
    if let Ok(q) = p_expr_more(x, acc) {
        lemma_suffix_trans(r, q.1, x);
        lemma_token_swap_at(x, r, r2);
        if let Ok(p) = spec_token(x) {
            if p.0 == Token::Plus || p.0 == Token::Minus {
                if let Ok(qt) = p_term(p.1) {
                    lemma_p_term_suffix(p.1);
                    lemma_p_term_progress(p.1);
                    let folded = Exp::Bin(p.0, Box::new(acc), Box::new(qt.0));
                    lemma_p_expr_more_suffix(qt.1, folded);
                    lemma_suffix_trans(r, q.1, qt.1);
                    lemma_term_ext(p.1, r, r2);
                    lemma_expr_more_ext(qt.1, r, r2, folded);
                }
            }
        }
    }
}

/// Exchanging a whitespace tail behind an expression for a
/// closing-parenthesis tail leaves the expression and its node as they
/// were.
pub proof fn lemma_expr_ext(x: Seq<char>, r: Seq<char>, r2: Seq<char>)
    requires
        skip_spaces(r).len() == 0,
        spec_token(r2) matches Ok(p2) && p2.0 == Token::RParen,
        p_expr(x) matches Ok(q) && r.is_suffix_of(q.1),
    ensures
        match p_expr(x) {
            Ok(q) => p_expr(swap_tail(x, r, r2)) == Ok::<(Exp, Seq<char>), EvalError>(
                (q.0, swap_tail(q.1, r, r2)),
            ),
            Err(_) => true,
        },
    decreases x.len(), 4int,
{
    lemma_p_expr_suffix(x);
    lemma_p_term_progress(x);
    if let Ok(q) = p_expr(x) {
        lemma_suffix_trans(r, q.1, x);
        if let Ok(qt) = p_term(x) {
            lemma_p_term_suffix(x);
            lemma_p_expr_more_suffix(qt.1, qt.0);
            lemma_suffix_trans(r, q.1, qt.1);
            lemma_term_ext(x, r, r2);
            lemma_expr_more_ext(qt.1, r, r2, qt.0);
        }
    }
}

/// Idempotent re-parenthesization: wrapping a well-formed expression in one
/// more pair of matched parentheses does not change what it evaluates to;
/// by repetition, nor does any number of pairs.
pub proof fn lemma_paren_wrap(s: Seq<char>)
    requires
        p_parse(s) is Ok,
    ensures
        spec_evaluate(seq!['('] + s + seq![')']) == spec_evaluate(s),
{
    let w = seq!['('] + s + seq![')'];
    let e0 = Seq::<char>::empty();
    if let Ok(q) = p_expr(s) {
        let r = q.1;
        let r2 = r + seq![')'];
        if let Ok(pe) = spec_token(r) {
            assert(pe.0 == Token::EndOfInput);
            assert(skip_spaces(r).len() == 0);
            lemma_skip_spaces_concat0(r, seq![')']);
            assert(skip_spaces(seq![')']) == seq![')']);
            assert(seq![')'].skip(1) =~= e0);
            assert(spec_token(r2) == Ok::<(Token, Seq<char>), EvalError>((Token::RParen, e0)));
            assert(r =~= r.subrange(0, r.len() as int));
            assert(r.is_suffix_of(r));
            lemma_expr_ext(s, r, r2);
            lemma_p_expr_suffix(s);
            assert(s =~= s.take(s.len() - r.len()) + r);
            assert(swap_tail(s, r, r2) =~= s + seq![')']);
            assert(swap_tail(r, r, r2) =~= r2);
            assert(p_expr(s + seq![')']) == Ok::<(Exp, Seq<char>), EvalError>((q.0, r2)));
            lemma_token_op('(', s + seq![')']);
            assert(w =~= seq!['('] + (s + seq![')']));
            assert(spec_token(w) == Ok::<(Token, Seq<char>), EvalError>(
                (Token::LParen, s + seq![')']),
            ));
            assert(p_factor(w) == Ok::<(Exp, Seq<char>), EvalError>((q.0, e0)));
            assert(skip_spaces(e0) == e0);
            assert(spec_token(e0) == Ok::<(Token, Seq<char>), EvalError>((Token::EndOfInput, e0)));
            assert(p_term_more(e0, q.0) == Ok::<(Exp, Seq<char>), EvalError>((q.0, e0)));
            assert(p_term(w) == Ok::<(Exp, Seq<char>), EvalError>((q.0, e0)));
            assert(p_expr_more(e0, q.0) == Ok::<(Exp, Seq<char>), EvalError>((q.0, e0)));
            assert(p_expr(w) == Ok::<(Exp, Seq<char>), EvalError>((q.0, e0)));
            assert(p_parse(w) == Ok::<Exp, EvalError>(q.0));
            assert(p_parse(s) == Ok::<Exp, EvalError>(q.0));
        }
    }
}

} // verus!
