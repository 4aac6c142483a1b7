use spi::evaluate;

#[test]
fn subtraction_groups_to_the_left() {
    assert_eq!(
        evaluate(String::from("5 - 2 - 1")),
        evaluate(String::from("(5 - 2) - 1"))
    );
    assert_eq!(evaluate(String::from("5 - 2 - 1")), Ok(2));
}

#[test]
fn division_groups_to_the_left() {
    assert_eq!(
        evaluate(String::from("9 / 3 / 3")),
        evaluate(String::from("(9 / 3) / 3"))
    );
    assert_eq!(evaluate(String::from("9 / 3 / 3")), Ok(1));
}

#[test]
fn multiplication_binds_tighter_than_addition() {
    assert_eq!(
        evaluate(String::from("2 + 3 * 4")),
        evaluate(String::from("2 + (3 * 4)"))
    );
    assert_eq!(evaluate(String::from("2 + 3 * 4")), Ok(14));
}

#[test]
fn whitespace_amount_does_not_matter() {
    assert_eq!(evaluate(String::from("7 +\u{2000} 3")), Ok(10));
    assert_eq!(evaluate(String::from("7\t+\u{00A0}\u{3000}3")), Ok(10));
    assert_eq!(evaluate(String::from("  7+3  ")), Ok(10));
    assert_eq!(evaluate(String::from("7+3")), Ok(10));
}

#[test]
fn extra_parentheses_change_nothing() {
    assert_eq!(evaluate(String::from("7 + (((3 + 2)))")), Ok(12));
    assert_eq!(evaluate(String::from("((7)) + (3 + 2)")), Ok(12));
    assert_eq!(evaluate(String::from("(7 + 3 + 2)")), Ok(12));
}

#[test]
fn division_truncates_toward_zero() {
    assert_eq!(evaluate(String::from("7 / 2")), Ok(3));
    assert_eq!(evaluate(String::from("(1 - 8) / 2")), Ok(-3));
    assert_eq!(evaluate(String::from("(0 - 7) / 2")), Ok(-3));
}

#[test]
fn deep_nesting_is_fine() {
    assert_eq!(evaluate(String::from("((((((((((1))))))))))")), Ok(1));
}
