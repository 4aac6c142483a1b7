//! The evaluator: walks the abstract syntax tree recursively and reduces it
//! to a 32-bit signed integer, and the whole pipeline [`evaluate`] that runs
//! scanner, parser and evaluator over one input text.

use vstd::prelude::*;

use crate::ast::AST;
use crate::ast::ast_eval;
use crate::ast::eval_exp;
use crate::ast::lemma_ast_eval_exp;
use crate::lexer::Lexer;
use crate::lexer::spec_token;
use crate::parser::Parser;
use crate::parser::p_parse;
use crate::token::EvalError;
use crate::token::Token;

verus! {

/// What evaluating a whole input text yields: the value of the parsed
/// expression, or the first fatal error that scanning, parsing or evaluating
/// it meets.
pub open spec fn spec_evaluate(s: Seq<char>) -> Result<int, EvalError> {
    match p_parse(s) {
        Err(e) => Err(e),
        Ok(exp) => eval_exp(exp),
    }
}

/// The evaluator; it owns the parser that produces the tree.
pub struct Interpreter {
    pub parser: Parser,
}

impl Interpreter {
    /// An evaluator over the given parser.
    pub fn new(parser: Parser) -> (it: Interpreter)
        ensures
            it.parser == parser,
    {
        Interpreter { parser }
    }

    /// The value of an integer leaf; any other token is an
    /// internal-consistency error.
    pub fn visit_num(&self, node: &AST) -> (r: Result<i32, EvalError>)
        ensures
            match node.token {
                Token::Integer(i) => r == Ok::<i32, EvalError>(i),
                _ => r == Err::<i32, EvalError>(EvalError::Internal),
            },
    {
        match node.token {
            Token::Integer(i) => Ok(i),
            _ => Err(EvalError::Internal),
        }
    }

    /// The value of a binary-operator node: left operand first, then right
    /// operand, then the operator's checked arithmetic.
    pub fn visit_binop(&self, node: &AST) -> (r: Result<i32, EvalError>)
        requires
            node.token is Plus || node.token is Minus || node.token is Mul || node.token is Div,
        ensures
            match (r, ast_eval(*node)) {
                (Ok(a), Ok(b)) => a as int == b,
                (Err(x), Err(y)) => x == y,
                _ => false,
            },
        decreases *node, 0int,
    {
        if node.children.len() != 2 {
            return Err(EvalError::Internal);
        }
        let left_val = match self.visit(&node.children[0]) {
            Ok(v) => v,
            Err(e) => {
                return Err(e);
            },
        };
        let right_val = match self.visit(&node.children[1]) {
            Ok(v) => v,
            Err(e) => {
                return Err(e);
            },
        };
        match node.token {
            Token::Plus => match left_val.checked_add(right_val) {
                Some(v) => Ok(v),
                None => Err(EvalError::Arithmetic),
            },
            Token::Minus => match left_val.checked_sub(right_val) {
                Some(v) => Ok(v),
                None => Err(EvalError::Arithmetic),
            },
            Token::Mul => match left_val.checked_mul(right_val) {
                Some(v) => Ok(v),
                None => Err(EvalError::Arithmetic),
            },
            Token::Div => match left_val.checked_div(right_val) {
                Some(v) => Ok(v),
                None => Err(EvalError::Arithmetic),
            },
            _ => Err(EvalError::Internal),
        }
    }

    /// The value of an arbitrary node: a leaf yields its stored value, an
    /// operator node the combination of its operands, and any other token is
    /// an internal-consistency error.
    pub fn visit(&self, node: &AST) -> (r: Result<i32, EvalError>)
        ensures
            match (r, ast_eval(*node)) {
                (Ok(a), Ok(b)) => a as int == b,
                (Err(x), Err(y)) => x == y,
                _ => false,
            },
        decreases *node, 1int,
    {
        match node.token {
            Token::Integer(_) => self.visit_num(node),
            Token::Plus | Token::Minus | Token::Mul | Token::Div => self.visit_binop(node),
            _ => Err(EvalError::Internal),
        }
    }

    /// Parse the whole input and evaluate the resulting tree.
    pub fn interpret(&mut self) -> (r: Result<i32, EvalError>)
        requires
            old(self).parser.wf(),
        ensures
            match (r, spec_evaluate(old(self).parser.rem@)) {
                (Ok(a), Ok(b)) => a as int == b,
                (Err(x), Err(y)) => x == y,
                _ => false,
            },
    {
        let tree = match self.parser.parse() {
            Ok(t) => t,
            Err(e) => {
                return Err(e);
            },
        };
        proof {
            lemma_ast_eval_exp(tree);
        }
        self.visit(&tree)
    }
}

/// Evaluate one input text: scan, parse and reduce it to a 32-bit signed
/// integer, or report the first fatal error met on the way.
pub fn evaluate(text: String) -> (r: Result<i32, EvalError>)
    ensures
        match (r, spec_evaluate(text@)) {
            (Ok(a), Ok(b)) => a as int == b,
            (Err(x), Err(y)) => x == y,
            _ => false,
        },
{
    let lexer = Lexer::new(text);
    let ghost s0 = lexer.rest();
    let parser = match Parser::new(lexer) {
        Ok(p) => p,
        Err(e) => {
            proof {
                assert(spec_token(s0) == Err::<(Token, Seq<char>), EvalError>(e));
                assert(crate::parser::p_factor(s0) == Err::<(crate::ast::Exp, Seq<char>), EvalError>(e));
                assert(crate::parser::p_term(s0) == Err::<(crate::ast::Exp, Seq<char>), EvalError>(e));
                assert(crate::parser::p_expr(s0) == Err::<(crate::ast::Exp, Seq<char>), EvalError>(e));
                assert(p_parse(s0) == Err::<crate::ast::Exp, EvalError>(e));
            }
            return Err(e);
        },
    };
    let mut interpreter = Interpreter::new(parser);
    interpreter.interpret()
}

} // verus!
