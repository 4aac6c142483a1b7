use spi::EvalError;
use spi::Lexer;
use spi::Token;

#[test]
fn tokens_of_a_small_expression() {
    let mut lexer = Lexer::new(String::from("12+345"));
    assert_eq!(lexer.get_next_token(), Ok(Token::Integer(12)));
    assert_eq!(lexer.get_next_token(), Ok(Token::Plus));
    assert_eq!(lexer.get_next_token(), Ok(Token::Integer(345)));
    assert_eq!(lexer.get_next_token(), Ok(Token::EndOfInput));
}

#[test]
fn end_of_input_repeats() {
    let mut lexer = Lexer::new(String::from("  "));
    assert_eq!(lexer.get_next_token(), Ok(Token::EndOfInput));
    assert_eq!(lexer.get_next_token(), Ok(Token::EndOfInput));
}

#[test]
fn every_operator_token() {
    let mut lexer = Lexer::new(String::from("+ - * / ( )"));
    assert_eq!(lexer.get_next_token(), Ok(Token::Plus));
    assert_eq!(lexer.get_next_token(), Ok(Token::Minus));
    assert_eq!(lexer.get_next_token(), Ok(Token::Mul));
    assert_eq!(lexer.get_next_token(), Ok(Token::Div));
    assert_eq!(lexer.get_next_token(), Ok(Token::LParen));
    assert_eq!(lexer.get_next_token(), Ok(Token::RParen));
    assert_eq!(lexer.get_next_token(), Ok(Token::EndOfInput));
}

#[test]
fn invalid_character_is_a_lexical_error() {
    let mut lexer = Lexer::new(String::from("#"));
    assert_eq!(lexer.get_next_token(), Err(EvalError::Lexical));
}

#[test]
fn overflowing_digit_run_is_an_integer_literal_error() {
    let mut lexer = Lexer::new(String::from("99999999999999999999"));
    assert_eq!(lexer.get_next_token(), Err(EvalError::IntegerLiteral));
}
