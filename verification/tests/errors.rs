use spi::evaluate;
use spi::AST;
use spi::EvalError;
use spi::Interpreter;
use spi::Lexer;
use spi::Parser;
use spi::Token;

#[test]
fn lexical_error_on_invalid_character() {
    assert_eq!(evaluate(String::from("10 @ 2")), Err(EvalError::Lexical));
}

#[test]
fn integer_literal_error_on_overflowing_literal() {
    assert_eq!(
        evaluate(String::from("2147483648")),
        Err(EvalError::IntegerLiteral)
    );
}

#[test]
fn largest_literal_still_fits() {
    assert_eq!(evaluate(String::from("2147483647")), Ok(2147483647));
}

#[test]
fn syntax_error_on_missing_right_operand() {
    assert_eq!(evaluate(String::from("10 *")), Err(EvalError::Syntax));
}

#[test]
fn syntax_error_on_empty_input() {
    assert_eq!(evaluate(String::from("")), Err(EvalError::Syntax));
}

#[test]
fn syntax_error_on_trailing_tokens() {
    assert_eq!(evaluate(String::from("1 2")), Err(EvalError::Syntax));
}

#[test]
fn syntax_error_on_unbalanced_parenthesis() {
    assert_eq!(evaluate(String::from("(1 + 2")), Err(EvalError::Syntax));
}

#[test]
fn arithmetic_error_on_division_by_zero() {
    assert_eq!(evaluate(String::from("10 / 0")), Err(EvalError::Arithmetic));
}

#[test]
fn arithmetic_error_on_addition_overflow() {
    assert_eq!(
        evaluate(String::from("2147483647 + 1")),
        Err(EvalError::Arithmetic)
    );
}

#[test]
fn arithmetic_error_on_multiplication_overflow() {
    assert_eq!(
        evaluate(String::from("65536 * 65536")),
        Err(EvalError::Arithmetic)
    );
}

#[test]
fn internal_error_on_malformed_tree() {
    let lexer = Lexer::new(String::from("1"));
    let parser = Parser::new(lexer).unwrap();
    let interpreter = Interpreter::new(parser);
    let node = AST::new(Token::Plus, Vec::new());
    assert_eq!(interpreter.visit(&node), Err(EvalError::Internal));
}

#[test]
fn internal_error_on_operator_leaf() {
    let lexer = Lexer::new(String::from("1"));
    let parser = Parser::new(lexer).unwrap();
    let interpreter = Interpreter::new(parser);
    let node = AST::new(Token::Minus, Vec::new());
    assert_eq!(interpreter.visit_num(&node), Err(EvalError::Internal));
}
