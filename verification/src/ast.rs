//! The abstract syntax tree and its mathematical meaning.
//!
//! [`AST`] is the executable tree the parser builds: a node holds the token
//! that identifies the operation and an ordered sequence of zero (integer
//! leaf) or two (binary operator) children.  [`Exp`] is its ghost mirror, and
//! [`eval_exp`] / [`ast_eval`] give the evaluation semantics: truncating
//! 32-bit signed arithmetic in which division by zero and overflow are
//! arithmetic errors.

use vstd::prelude::*;

use crate::token::EvalError;
use crate::token::Token;

verus! {

/// A node of the abstract syntax tree.
pub struct AST {
    /// The operation: an `Integer` leaf, or one of the four operator tokens.
    pub token: Token,
    /// No children for a leaf; left and right operand for an operator.
    pub children: Vec<AST>,
}

impl AST {
    /// Build a node from its token and children.
    pub fn new(token: Token, children: Vec<AST>) -> (t: AST)
        ensures
            t.token == token,
            t.children == children,
    {
        AST { token, children }
    }

    /// A well-formed tree: leaves carry `Integer` and no children, inner
    /// nodes carry one of the four operators and exactly two well-formed
    /// children.  The parser only builds well-formed trees.
    pub open spec fn wf(&self) -> bool
        decreases self,
    {
        match self.token {
            Token::Integer(_) => self.children.len() == 0,
            Token::Plus | Token::Minus | Token::Mul | Token::Div => self.children.len() == 2
                && self.children[0].wf() && self.children[1].wf(),
            _ => false,
        }
    }
}

/// The ghost mirror of a well-formed tree: an integer leaf, or an operator
/// with its two operands.
pub enum Exp {
    Num(int),
    Bin(Token, Box<Exp>, Box<Exp>),
}

/// The ghost tree that an executable tree stands for.  Malformed nodes map
/// to an arbitrary leaf; they never arise from the parser.
pub open spec fn to_exp(t: AST) -> Exp
    decreases t,
{
    match t.token {
        Token::Integer(i) => Exp::Num(i as int),
        Token::Plus | Token::Minus | Token::Mul | Token::Div => {
            if t.children.len() == 2 {
                Exp::Bin(t.token, Box::new(to_exp(t.children[0])), Box::new(to_exp(t.children[1])))
            } else {
                Exp::Num(0)
            }
        },
        _ => Exp::Num(0),
    }
}

/// Whether `v` fits in a 32-bit signed integer.
pub open spec fn in_i32(v: int) -> bool {
    i32::MIN <= v <= i32::MAX
}

/// Integer division truncating toward zero, the native fixed-width signed
/// division semantics.
pub open spec fn div_trunc(a: int, b: int) -> int {
    if a == 0 {
        0
    } else if a > 0 && b > 0 {
        a / b
    } else if a < 0 && b < 0 {
        (a * -1) / (b * -1)
    } else if a < 0 {
        ((a * -1) / b) * -1
    } else {
        (a / (b * -1)) * -1
    }
}

/// Combine two operand values with an operator token: division by zero and
/// any result outside the 32-bit signed range are arithmetic errors, and a
/// token that is no operator is an internal-consistency error.
pub open spec fn apply_op(op: Token, a: int, b: int) -> Result<int, EvalError> {
    match op {
        Token::Plus => if in_i32(a + b) {
            Ok(a + b)
        } else {
            Err(EvalError::Arithmetic)
        },
        Token::Minus => if in_i32(a - b) {
            Ok(a - b)
        } else {
            Err(EvalError::Arithmetic)
        },
        Token::Mul => if in_i32(a * b) {
            Ok(a * b)
        } else {
            Err(EvalError::Arithmetic)
        },
        Token::Div => if b == 0 {
            Err(EvalError::Arithmetic)
        } else if in_i32(div_trunc(a, b)) {
            Ok(div_trunc(a, b))
        } else {
            Err(EvalError::Arithmetic)
        },
        _ => Err(EvalError::Internal),
    }
}

/// The value of a ghost tree: left operand first, then right operand, then
/// the operator's arithmetic.
pub open spec fn eval_exp(e: Exp) -> Result<int, EvalError>
    decreases e,
{
    match e {
        Exp::Num(v) => Ok(v),
        Exp::Bin(op, l, r) => match eval_exp(*l) {
            Err(err) => Err(err),
            Ok(a) => match eval_exp(*r) {
                Err(err) => Err(err),
                Ok(b) => apply_op(op, a, b),
            },
        },
    }
}

/// The value of an executable tree, defined for arbitrary trees: a node
/// whose shape is invalid is an internal-consistency error.
pub open spec fn ast_eval(t: AST) -> Result<int, EvalError>
    decreases t,
{
    match t.token {
        Token::Integer(i) => Ok(i as int),
        Token::Plus | Token::Minus | Token::Mul | Token::Div => {
            if t.children.len() != 2 {
                Err(EvalError::Internal)
            } else {
                match ast_eval(t.children[0]) {
                    Err(err) => Err(err),
                    Ok(a) => match ast_eval(t.children[1]) {
                        Err(err) => Err(err),
                        Ok(b) => apply_op(t.token, a, b),
                    },
                }
            }
        },
        _ => Err(EvalError::Internal),
    }
}

/// On well-formed trees the two evaluation functions agree.
pub proof fn lemma_ast_eval_exp(t: AST)
    requires
        t.wf(),
    ensures
        ast_eval(t) == eval_exp(to_exp(t)),
    decreases t,
{
    match t.token {
        Token::Plus | Token::Minus | Token::Mul | Token::Div => {
            lemma_ast_eval_exp(t.children[0]);
            lemma_ast_eval_exp(t.children[1]);
        },
        _ => {},
    }
}

} // verus!
