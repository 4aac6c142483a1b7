//! An arithmetic expression evaluator: a scanner turns text into tokens, a
//! recursive-descent parser builds an abstract syntax tree, and a tree-walking
//! evaluator reduces it to a 32-bit signed integer.  Every stage reports its
//! failures as a value of [`token::EvalError`] rather than panicking.

pub mod ast;
pub mod interpreter;
pub mod laws;
pub mod lexer;
pub mod parser;
pub mod token;

pub use ast::AST;
pub use interpreter::evaluate;
pub use interpreter::Interpreter;
pub use lexer::Lexer;
pub use parser::Parser;
pub use token::EvalError;
pub use token::Token;
