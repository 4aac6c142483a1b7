use spi::Interpreter;
use spi::Lexer;
use spi::Parser;

fn make_interpreter(text: &str) -> Interpreter {
    let lexer = Lexer::new(String::from(text));
    let parser = Parser::new(lexer).unwrap();
    Interpreter::new(parser)
}

#[test]
fn test_expression1() {
    let mut interpreter = make_interpreter("3");
    let result = interpreter.interpret().unwrap();
    assert_eq!(result, 3);
}

#[test]
fn test_expression2() {
    let mut interpreter = make_interpreter("2 + 7 * 4");
    let result = interpreter.interpret().unwrap();
    assert_eq!(result, 30);
}

#[test]
fn test_expression3() {
    let mut interpreter = make_interpreter("7 - 8 / 4");
    let result = interpreter.interpret().unwrap();
    assert_eq!(result, 5);
}

#[test]
fn test_expression4() {
    let mut interpreter = make_interpreter("14 + 2 * 3 - 6 / 2");
    let result = interpreter.interpret().unwrap();
    assert_eq!(result, 17);
}

#[test]
fn test_expression5() {
    let mut interpreter = make_interpreter("7 + 3 * (10 / (12 / (3 + 1) - 1))");
    let result = interpreter.interpret().unwrap();
    assert_eq!(result, 22);
}

#[test]
fn test_expression6() {
    let mut interpreter = make_interpreter(
        "7 + 3 * (10 / (12 / (3 + 1) - 1)) / (2 + 3) - 5 - 3 + (8)"
    );
    let result = interpreter.interpret().unwrap();
    assert_eq!(result, 10);
}

#[test]
fn test_expression7() {
    let mut interpreter = make_interpreter("7 + (((3 + 2)))");
    let result = interpreter.interpret().unwrap();
    assert_eq!(result, 12);
}

#[test]
fn test_expression_with_unicode() {
    // U+2000 is a "EN QUAD" space
    let mut interpreter = make_interpreter("7 +\u{2000}3");
    let result = interpreter.interpret().unwrap();
    assert_eq!(result, 10);
}

#[test]
#[should_panic]
fn test_expression_invalid_syntax() {
    let mut interpreter = make_interpreter("10 *");
    interpreter.interpret().unwrap();
}
