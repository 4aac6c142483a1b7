//! Lexical tokens and the error taxonomy shared by the scanner, the parser
//! and the evaluator.

use vstd::prelude::*;

verus! {

/// One lexical unit of the expression language.
#[derive(Clone, Copy, Debug, PartialEq, Eq, Structural)]
pub enum Token {
    /// A non-negative integer literal, already parsed into a 32-bit value.
    Integer(i32),
    Plus,
    Minus,
    Mul,
    Div,
    LParen,
    RParen,
    /// Emitted once the input is exhausted; repeated scans keep yielding it.
    EndOfInput,
}

/// The fatal error kinds.  None of them is recoverable: each aborts the
/// evaluation of the current input.
#[derive(Clone, Copy, Debug, PartialEq, Eq, Structural)]
pub enum EvalError {
    /// A character that is neither whitespace, a digit, nor one of `+-*/()`.
    Lexical,
    /// A digit run whose value does not fit in a 32-bit signed integer.
    IntegerLiteral,
    /// The token stream does not match the grammar.
    Syntax,
    /// Division by zero, or overflow while combining two operands.
    Arithmetic,
    /// A malformed tree node; unreachable for trees built by the parser.
    Internal,
}

} // verus!
