//! The parser: consumes tokens one at a time, with a single token of
//! lookahead, and builds the abstract syntax tree of the grammar
//!
//! ```text
//! expr   := term ( (PLUS|MINUS) term )*      -- left-associative
//! term   := factor ( (MUL|DIV) factor )*     -- left-associative
//! factor := Integer | LPAREN expr RPAREN
//! ```
//!
//! The module first gives the mathematical parser — [`p_factor`], [`p_term`],
//! [`p_expr`] and [`p_parse`] over sequences of characters — and then the
//! executable [`Parser`], whose contracts are stated against it.  In the
//! mathematical parser, a pair `(e, r)` is a parsed sub-expression together
//! with the input that remains after it; the lookahead token is not part of
//! the state, each function re-scans it where it needs it.

use vstd::prelude::*;

use crate::ast::AST;
use crate::ast::Exp;
use crate::ast::to_exp;
use crate::lexer::Lexer;
use crate::lexer::lemma_spec_token_progress;
use crate::lexer::spec_token;
use crate::token::EvalError;
use crate::token::Token;

verus! {

/// Parse a factor: an integer literal, or a parenthesized expression.
///
/// The length guards are there only so that the recursion visibly shrinks
/// the input; [`lemma_p_expr_progress`] shows they always hold.
pub open spec fn p_factor(s: Seq<char>) -> Result<(Exp, Seq<char>), EvalError>
    decreases s.len(), 0int,
{
    match spec_token(s) {
        Err(e) => Err(e),
        Ok(p) => match p.0 {
            Token::Integer(v) => Ok((Exp::Num(v as int), p.1)),
            Token::LParen => if p.1.len() < s.len() {
                match p_expr(p.1) {
                    Err(e) => Err(e),
                    Ok(q) => match spec_token(q.1) {
                        Err(e) => Err(e),
                        Ok(p2) => if p2.0 == Token::RParen {
                            Ok((q.0, p2.1))
                        } else {
                            Err(EvalError::Syntax)
                        },
                    },
                }
            } else {
                Err(EvalError::Syntax)
            },
            _ => Err(EvalError::Syntax),
        },
    }
}

/// Fold further `*` and `/` factors onto `acc`, left-associatively, until the
/// lookahead is some other token.
pub open spec fn p_term_more(s: Seq<char>, acc: Exp) -> Result<(Exp, Seq<char>), EvalError>
    decreases s.len(), 1int,
{
    match spec_token(s) {
        Err(e) => Err(e),
        Ok(p) => if p.0 == Token::Mul || p.0 == Token::Div {
            if p.1.len() < s.len() {
                match p_factor(p.1) {
                    Err(e) => Err(e),
                    Ok(q) => if q.1.len() < s.len() {
                        p_term_more(q.1, Exp::Bin(p.0, Box::new(acc), Box::new(q.0)))
                    } else {
                        Err(EvalError::Syntax)
                    },
                }
            } else {
                Err(EvalError::Syntax)
            }
        } else {
            Ok((acc, s))
        },
    }
}

/// Parse a term: a factor followed by any number of `*` or `/` factors.
pub open spec fn p_term(s: Seq<char>) -> Result<(Exp, Seq<char>), EvalError>
    decreases s.len(), 2int,
{
    match p_factor(s) {
        Err(e) => Err(e),
        Ok(q) => if q.1.len() < s.len() {
            p_term_more(q.1, q.0)
        } else {
            Err(EvalError::Syntax)
        },
    }
}

/// Fold further `+` and `-` terms onto `acc`, left-associatively, until the
/// lookahead is some other token.
pub open spec fn p_expr_more(s: Seq<char>, acc: Exp) -> Result<(Exp, Seq<char>), EvalError>
    decreases s.len(), 3int,
{
    match spec_token(s) {
        Err(e) => Err(e),
        Ok(p) => if p.0 == Token::Plus || p.0 == Token::Minus {
            if p.1.len() < s.len() {
                match p_term(p.1) {
                    Err(e) => Err(e),
                    Ok(q) => if q.1.len() < s.len() {
                        p_expr_more(q.1, Exp::Bin(p.0, Box::new(acc), Box::new(q.0)))
                    } else {
                        Err(EvalError::Syntax)
                    },
                }
            } else {
                Err(EvalError::Syntax)
            }
        } else {
            Ok((acc, s))
        },
    }
}

/// Parse an expression: a term followed by any number of `+` or `-` terms.
pub open spec fn p_expr(s: Seq<char>) -> Result<(Exp, Seq<char>), EvalError>
    decreases s.len(), 4int,
{
    match p_term(s) {
        Err(e) => Err(e),
        Ok(q) => if q.1.len() < s.len() {
            p_expr_more(q.1, q.0)
        } else {
            Err(EvalError::Syntax)
        },
    }
}

/// Parse a whole input: a single expression followed by the end of the
/// input; anything left over is a syntax error.
pub open spec fn p_parse(s: Seq<char>) -> Result<Exp, EvalError> {
    match p_expr(s) {
        Err(e) => Err(e),
        Ok(q) => match spec_token(q.1) {
            Err(e) => Err(e),
            Ok(p) => if p.0 == Token::EndOfInput {
                Ok(q.0)
            } else {
                Err(EvalError::Syntax)
            },
        },
    }
}

/// The parser state: the scanner and the single current lookahead token.
///
/// The ghost field `rem` is the input that was not yet consumed when the
/// lookahead token was scanned; the invariant [`Parser::wf`] keeps it in
/// sync: scanning one token of `rem` yields exactly the lookahead and the
/// scanner's current rest.
pub struct Parser {
    pub lexer: Lexer,
    pub current_token: Token,
    pub rem: Ghost<Seq<char>>,
}

impl Parser {
    /// The lookahead is valid: it is exactly the token that scanning `rem`
    /// produces, and the scanner stands right after it.
    pub open spec fn wf(&self) -> bool {
        &&& self.lexer.wf()
        &&& spec_token(self.rem@) == Ok::<(Token, Seq<char>), EvalError>(
            (self.current_token, self.lexer.rest()),
        )
    }

    /// The whole input text.
    pub open spec fn text(&self) -> Seq<char> {
        self.lexer.text()
    }

    /// A parser over the scanner's input, with the first token fetched as
    /// lookahead; a scan error at the first token surfaces here.
    pub fn new(lexer: Lexer) -> (r: Result<Parser, EvalError>)
        requires
            lexer.wf(),
        ensures
            match r {
                Ok(p) => p.wf() && p.rem@ == lexer.rest() && p.text() == lexer.text(),
                Err(e) => spec_token(lexer.rest()) == Err::<(Token, Seq<char>), EvalError>(e),
            },
    {
        let ghost rem0 = lexer.rest();
        let mut lx = lexer;
        match lx.get_next_token() {
            Ok(t) => Ok(Parser { lexer: lx, current_token: t, rem: Ghost(rem0) }),
            Err(e) => Err(e),
        }
    }

    /// Consume the lookahead if it equals `token` and fetch the next one;
    /// a different lookahead is a syntax error and leaves the state as it
    /// was.
    pub fn eat(&mut self, token: Token) -> (r: Result<(), EvalError>)
        requires
            old(self).wf(),
        ensures
            final(self).text() == old(self).text(),
            match r {
                Ok(()) => {
                    &&& old(self).current_token == token
                    &&& final(self).wf()
                    &&& final(self).rem@ == old(self).lexer.rest()
                },
                Err(e) => if old(self).current_token != token {
                    e == EvalError::Syntax && *final(self) == *old(self)
                } else {
                    spec_token(old(self).lexer.rest()) == Err::<(Token, Seq<char>), EvalError>(e)
                },
            },
    {
        if self.current_token == token {
            let ghost rem1 = self.lexer.rest();
            match self.lexer.get_next_token() {
                Ok(t) => {
                    self.current_token = t;
                    self.rem = Ghost(rem1);
                    Ok(())
                },
                Err(e) => Err(e),
            }
        } else {
            Err(EvalError::Syntax)
        }
    }

    /// Parse a factor.  On success the returned tree is well-formed and is
    /// exactly what [`p_factor`] yields on the unconsumed input; an error is
    /// the one [`p_factor`] yields, or — since the parser fetches its
    /// lookahead eagerly — a scan error one token further.
    pub fn factor(&mut self) -> (r: Result<AST, EvalError>)
        requires
            old(self).wf(),
        ensures
            final(self).text() == old(self).text(),
            match r {
                Ok(node) => {
                    &&& node.wf()
                    &&& final(self).wf()
                    &&& p_factor(old(self).rem@) == Ok::<(Exp, Seq<char>), EvalError>(
                        (to_exp(node), final(self).rem@),
                    )
                },
                Err(e) => match p_factor(old(self).rem@) {
                    Ok(q) => spec_token(q.1) == Err::<(Token, Seq<char>), EvalError>(e),
                    Err(e2) => e == e2,
                },
            },
        decreases old(self).rem@.len(), 0int,
    {
        let ghost s0 = self.rem@;
        let token = self.current_token;
        match token {
            Token::Integer(i) => match self.eat(Token::Integer(i)) {
                Ok(()) => {
                    let node = AST::new(token, Vec::new());
                    Ok(node)
                },
                Err(e) => Err(e),
            },
            Token::LParen => {
                let ghost r0 = self.lexer.rest();
                match self.eat(Token::LParen) {
                    Ok(()) => (),
                    Err(e) => {
                        proof {
                            lemma_spec_token_progress(s0);
                            assert(spec_token(s0) == Ok::<(Token, Seq<char>), EvalError>(
                                (Token::LParen, r0),
                            ));
                            assert(r0.len() < s0.len());
                            assert(spec_token(r0) == Err::<(Token, Seq<char>), EvalError>(e));
                            assert(p_factor(r0) == Err::<(Exp, Seq<char>), EvalError>(e));
                            assert(p_term(r0) == Err::<(Exp, Seq<char>), EvalError>(e));
                            assert(p_expr(r0) == Err::<(Exp, Seq<char>), EvalError>(e));
                            assert(p_factor(s0) == Err::<(Exp, Seq<char>), EvalError>(e));
                        }
                        return Err(e);
                    },
                }
                proof {
                    lemma_spec_token_progress(s0);
                }
                let ghost r1 = self.rem@;
                let node = match self.expr() {
                    Ok(n) => n,
                    Err(e) => {
                        proof {
                            assert(spec_token(s0) == Ok::<(Token, Seq<char>), EvalError>(
                                (Token::LParen, r1),
                            ));
                            assert(r1.len() < s0.len());
                            assert(p_expr(r1) == Err::<(Exp, Seq<char>), EvalError>(e));
                            assert(p_factor(s0) == Err::<(Exp, Seq<char>), EvalError>(e));
                        }
                        return Err(e);
                    },
                };
                match self.eat(Token::RParen) {
                    Ok(()) => Ok(node),
                    Err(e) => Err(e),
                }
            },
            _ => Err(EvalError::Syntax),
        }
    }

    /// Parse a term: a factor, then fold `*` and `/` factors onto it,
    /// left-associatively.  The result is exactly what [`p_term`] yields on
    /// the unconsumed input.
    pub fn term(&mut self) -> (r: Result<AST, EvalError>)
        requires
            old(self).wf(),
        ensures
            final(self).text() == old(self).text(),
            match r {
                Ok(node) => {
                    &&& node.wf()
                    &&& final(self).wf()
                    &&& p_term(old(self).rem@) == Ok::<(Exp, Seq<char>), EvalError>(
                        (to_exp(node), final(self).rem@),
                    )
                },
                Err(e) => p_term(old(self).rem@) == Err::<(Exp, Seq<char>), EvalError>(e),
            },
        decreases old(self).rem@.len(), 1int,
    {
        let ghost s0 = self.rem@;
        proof {
            lemma_p_factor_progress(s0);
        }
        let mut node = match self.factor() {
            Ok(n) => n,
            Err(e) => {
                return Err(e);
            },
        };
        loop
            invariant
                self.wf(),
                node.wf(),
                s0 == old(self).rem@,
                self.rem@.len() < s0.len(),
                self.text() == old(self).text(),
                p_term(s0) == p_term_more(self.rem@, to_exp(node)),
            ensures
                self.wf(),
                node.wf(),
                self.text() == old(self).text(),
                p_term(s0) == Ok::<(Exp, Seq<char>), EvalError>((to_exp(node), self.rem@)),
            decreases self.rem@.len(),
        {
            let op = self.current_token;
            let continues = match op {
                Token::Mul => true,
                Token::Div => true,
                _ => false,
            };
            if !continues {
                break ;
            }
            let ghost s_iter = self.rem@;
            let ghost acc = to_exp(node);
            let ghost r1 = self.lexer.rest();
            match self.eat(op) {
                Ok(()) => (),
                Err(e) => {
                    proof {
                        lemma_spec_token_progress(s_iter);
                        assert(spec_token(s_iter) == Ok::<(Token, Seq<char>), EvalError>((op, r1)));
                        assert(r1.len() < s_iter.len());
                        assert(spec_token(r1) == Err::<(Token, Seq<char>), EvalError>(e));
                        assert(p_factor(r1) == Err::<(Exp, Seq<char>), EvalError>(e));
                        assert(p_term_more(s_iter, acc) == Err::<(Exp, Seq<char>), EvalError>(e));
                    }
                    return Err(e);
                },
            }
            proof {
                lemma_spec_token_progress(s_iter);
                lemma_p_factor_progress(self.rem@);
            }
            let ghost rem1 = self.rem@;
            let rhs = match self.factor() {
                Ok(n) => n,
                Err(e) => {
                    proof {
                        lemma_spec_token_progress(s_iter);
                        assert(spec_token(s_iter) == Ok::<(Token, Seq<char>), EvalError>(
                            (op, rem1),
                        ));
                        if let Ok(q) = p_factor(rem1) {
                            assert(p_term_more(s_iter, acc) == p_term_more(
                                q.1,
                                Exp::Bin(op, Box::new(acc), Box::new(q.0)),
                            ));
                            assert(spec_token(q.1) == Err::<(Token, Seq<char>), EvalError>(e));
                        }
                        assert(p_term_more(s_iter, acc) == Err::<(Exp, Seq<char>), EvalError>(e));
                    }
                    return Err(e);
                },
            };
            let ghost lhs = node;
            let mut children: Vec<AST> = Vec::new();
            children.push(node);
            children.push(rhs);
            node = AST::new(op, children);
            proof {
                assert(node.children[0] == lhs);
                assert(node.children[1] == children@[1]);
                assert(to_exp(node) == Exp::Bin(op, Box::new(acc), Box::new(to_exp(node.children[1]))));
            }
        }
        Ok(node)
    }

    /// Parse an expression: a term, then fold `+` and `-` terms onto it,
    /// left-associatively.  The result is exactly what [`p_expr`] yields on
    /// the unconsumed input.
    pub fn expr(&mut self) -> (r: Result<AST, EvalError>)
        requires
            old(self).wf(),
        ensures
            final(self).text() == old(self).text(),
            match r {
                Ok(node) => {
                    &&& node.wf()
                    &&& final(self).wf()
                    &&& p_expr(old(self).rem@) == Ok::<(Exp, Seq<char>), EvalError>(
                        (to_exp(node), final(self).rem@),
                    )
                },
                Err(e) => p_expr(old(self).rem@) == Err::<(Exp, Seq<char>), EvalError>(e),
            },
        decreases old(self).rem@.len(), 2int,
    {
        let ghost s0 = self.rem@;
        proof {
            lemma_p_term_progress(s0);
        }
        let mut node = match self.term() {
            Ok(n) => n,
            Err(e) => {
                return Err(e);
            },
        };
        loop
            invariant
                self.wf(),
                node.wf(),
                s0 == old(self).rem@,
                self.rem@.len() < s0.len(),
                self.text() == old(self).text(),
                p_expr(s0) == p_expr_more(self.rem@, to_exp(node)),
            ensures
                self.wf(),
                node.wf(),
                self.text() == old(self).text(),
                p_expr(s0) == Ok::<(Exp, Seq<char>), EvalError>((to_exp(node), self.rem@)),
            decreases self.rem@.len(),
        {
            let op = self.current_token;
            let continues = match op {
                Token::Plus => true,
                Token::Minus => true,
                _ => false,
            };
            if !continues {
                break ;
            }
            let ghost s_iter = self.rem@;
            let ghost acc = to_exp(node);
            let ghost r1 = self.lexer.rest();
            match self.eat(op) {
                Ok(()) => (),
                Err(e) => {
                    proof {
                        lemma_spec_token_progress(s_iter);
                        assert(spec_token(s_iter) == Ok::<(Token, Seq<char>), EvalError>((op, r1)));
                        assert(r1.len() < s_iter.len());
                        assert(spec_token(r1) == Err::<(Token, Seq<char>), EvalError>(e));
                        assert(p_factor(r1) == Err::<(Exp, Seq<char>), EvalError>(e));
                        assert(p_term(r1) == Err::<(Exp, Seq<char>), EvalError>(e));
                        assert(p_expr_more(s_iter, acc) == Err::<(Exp, Seq<char>), EvalError>(e));
                    }
                    return Err(e);
                },
            }
            proof {
                lemma_spec_token_progress(s_iter);
                lemma_p_term_progress(self.rem@);
            }
            let ghost rem1 = self.rem@;
            let rhs = match self.term() {
                Ok(n) => n,
                Err(e) => {
                    proof {
                        lemma_spec_token_progress(s_iter);
                        assert(spec_token(s_iter) == Ok::<(Token, Seq<char>), EvalError>(
                            (op, rem1),
                        ));
                        if let Ok(q) = p_term(rem1) {
                            assert(p_expr_more(s_iter, acc) == p_expr_more(
                                q.1,
                                Exp::Bin(op, Box::new(acc), Box::new(q.0)),
                            ));
                            assert(spec_token(q.1) == Err::<(Token, Seq<char>), EvalError>(e));
                        }
                        assert(p_expr_more(s_iter, acc) == Err::<(Exp, Seq<char>), EvalError>(e));
                    }
                    return Err(e);
                },
            };
            let ghost lhs = node;
            let mut children: Vec<AST> = Vec::new();
            children.push(node);
            children.push(rhs);
            node = AST::new(op, children);
            proof {
                assert(node.children[0] == lhs);
                assert(node.children[1] == children@[1]);
                assert(to_exp(node) == Exp::Bin(op, Box::new(acc), Box::new(to_exp(node.children[1]))));
            }
        }
        Ok(node)
    }

    /// Parse the whole input: a single expression followed by the end of
    /// the input; a leftover token is a syntax error.  The result is exactly
    /// what [`p_parse`] yields on the unconsumed input.
    pub fn parse(&mut self) -> (r: Result<AST, EvalError>)
        requires
            old(self).wf(),
        ensures
            final(self).text() == old(self).text(),
            match r {
                Ok(node) => node.wf() && p_parse(old(self).rem@) == Ok::<Exp, EvalError>(
                    to_exp(node),
                ),
                Err(e) => p_parse(old(self).rem@) == Err::<Exp, EvalError>(e),
            },
    {
        let node = match self.expr() {
            Ok(n) => n,
            Err(e) => {
                return Err(e);
            },
        };
        match self.current_token {
            Token::EndOfInput => Ok(node),
            _ => Err(EvalError::Syntax),
        }
    }
}

/// A successful factor consumes at least one character.
pub proof fn lemma_p_factor_progress(s: Seq<char>)
    ensures
        p_factor(s) matches Ok(q) ==> q.1.len() < s.len(),
    decreases s.len(), 0int,
{
    lemma_spec_token_progress(s);
    if let Ok(p) = spec_token(s) {
        if p.0 matches Token::LParen && p.1.len() < s.len() {
            lemma_p_expr_progress(p.1);
            if let Ok(q) = p_expr(p.1) {
                lemma_spec_token_progress(q.1);
            }
        }
    }
}

/// Folding further factors never grows the rest.
pub proof fn lemma_p_term_more_progress(s: Seq<char>, acc: Exp)
    ensures
        p_term_more(s, acc) matches Ok(q) ==> q.1.len() <= s.len(),
    decreases s.len(), 1int,
{
    lemma_spec_token_progress(s);
    if let Ok(p) = spec_token(s) {
        if p.0 == Token::Mul || p.0 == Token::Div {
            if p.1.len() < s.len() {
                lemma_p_factor_progress(p.1);
                if let Ok(q) = p_factor(p.1) {
                    if q.1.len() < s.len() {
                        lemma_p_term_more_progress(q.1, Exp::Bin(p.0, Box::new(acc), Box::new(q.0)));
                    }
                }
            }
        }
    }
}

/// A successful term consumes at least one character.
pub proof fn lemma_p_term_progress(s: Seq<char>)
    ensures
        p_term(s) matches Ok(q) ==> q.1.len() < s.len(),
    decreases s.len(), 2int,
{
    lemma_p_factor_progress(s);
    if let Ok(q) = p_factor(s) {
        if q.1.len() < s.len() {
            lemma_p_term_more_progress(q.1, q.0);
        }
    }
}

/// Folding further terms never grows the rest.
pub proof fn lemma_p_expr_more_progress(s: Seq<char>, acc: Exp)
    ensures
        p_expr_more(s, acc) matches Ok(q) ==> q.1.len() <= s.len(),
    decreases s.len(), 3int,
{
    lemma_spec_token_progress(s);
    if let Ok(p) = spec_token(s) {
        if p.0 == Token::Plus || p.0 == Token::Minus {
            if p.1.len() < s.len() {
                lemma_p_term_progress(p.1);
                if let Ok(q) = p_term(p.1) {
                    if q.1.len() < s.len() {
                        lemma_p_expr_more_progress(q.1, Exp::Bin(p.0, Box::new(acc), Box::new(q.0)));
                    }
                }
            }
        }
    }
}

/// A successful expression consumes at least one character.
pub proof fn lemma_p_expr_progress(s: Seq<char>)
    ensures
        p_expr(s) matches Ok(q) ==> q.1.len() < s.len(),
    decreases s.len(), 4int,
{
    lemma_p_term_progress(s);
    if let Ok(q) = p_term(s) {
        if q.1.len() < s.len() {
            lemma_p_expr_more_progress(q.1, q.0);
        }
    }
}

} // verus!
