use my_rust_eval::error::{EvalError, Expected};
use my_rust_eval::pipeline::my_eval;
use my_rust_eval::token::Token;

#[test]
fn test_eleven_plus_three() {
    assert_eq!(Ok(14), my_eval("11 + 3"));
}

#[test]
fn test_three_times_six() {
    assert_eq!(Ok(18), my_eval("3 * 6"));
}

#[test]
fn test_none() {
    assert_eq!(Err(EvalError::UnexpectedEndOfInput), my_eval(""));
}

#[test]
fn test_two_three() {
    assert_eq!(Err(EvalError::TrailingTokens), my_eval("2 3"));
}

#[test]
fn test_plus() {
    assert_eq!(
        Err(EvalError::UnexpectedToken { expected: Expected::Term, actual: Token::Plus }),
        my_eval("+")
    );
}

#[test]
fn test_forty_two() {
    assert_eq!(Ok(42), my_eval("42"));
}

#[test]
fn test_two_plus_tree_times_four() {
    assert_eq!(Ok(14), my_eval("2 + 3 * 4"));
}

#[test]
fn test_two_times_tree_plus_four() {
    assert_eq!(Ok(10), my_eval("2 * 3 + 4"));
}

#[test]
fn test_p_two_plus_tree_p_times_four() {
    assert_eq!(Ok(20), my_eval("(2 + 3) * 4"));
}

#[test]
fn test_three_minus_five() {
    assert_eq!(Ok(-2), my_eval("3 - 5"));
}

#[test]
fn test_big_expression() {
    let str = "5 + 9 * 89 - 23 + 65 * 4 + 42 - 23 * 2 * 3";
    assert_eq!(Ok(947), my_eval(str));
}

#[test]
fn subtraction_groups_to_the_left() {
    assert_eq!(Ok(3), my_eval("8 - 3 - 2"));
    assert_eq!(Ok(2), my_eval("16 / 4 / 2"));
}

#[test]
fn whitespace_does_not_change_the_value() {
    assert_eq!(my_eval("325+123*66"), my_eval("   325      +123*    66"));
    assert_eq!(Ok(8443), my_eval("325+123*66"));
}

#[test]
fn division_by_zero() {
    assert_eq!(Err(EvalError::DivisionByZero), my_eval("5 / 0"));
    assert_eq!(Err(EvalError::DivisionByZero), my_eval("5 / (3 - 3)"));
}

#[test]
fn unsupported_character() {
    assert_eq!(Err(EvalError::UnsupportedCharacter('$')), my_eval("2 $ 3"));
}

#[test]
fn lexical_error_after_trailing_tokens_is_never_reached() {
    assert_eq!(Err(EvalError::TrailingTokens), my_eval("2 3 $"));
}

#[test]
fn unary_minus_is_rejected() {
    assert_eq!(
        Err(EvalError::UnexpectedToken { expected: Expected::Term, actual: Token::Minus }),
        my_eval("-5")
    );
}

#[test]
fn unclosed_parenthesis() {
    assert_eq!(Err(EvalError::UnexpectedEndOfInput), my_eval("(2 + 3"));
    assert_eq!(
        Err(EvalError::UnexpectedToken { expected: Expected::RightParenthesis, actual: Token::Value(3) }),
        my_eval("(2 3)")
    );
}

#[test]
fn trailing_closing_parenthesis() {
    assert_eq!(Err(EvalError::TrailingTokens), my_eval("2)"));
}

#[test]
fn missing_operand_at_the_end() {
    assert_eq!(Err(EvalError::UnexpectedEndOfInput), my_eval("2 *"));
    assert_eq!(
        Err(EvalError::UnexpectedToken { expected: Expected::Term, actual: Token::RightParenthesis }),
        my_eval("()")
    );
}

#[test]
fn nested_parentheses() {
    assert_eq!(Ok(-21), my_eval("((1 - 4)) * (2 + (10 / 2))"));
    assert_eq!(Ok(-3), my_eval("(0 - 7) / 2"));
}

#[test]
fn overflow_is_reported() {
    assert_eq!(Ok(2147483647), my_eval("2147483647"));
    assert_eq!(Err(EvalError::Overflow), my_eval("2147483647 + 1"));
    assert_eq!(Err(EvalError::Overflow), my_eval("99999999999"));
}

#[test]
fn agrees_with_precedence_arithmetic() {
    assert_eq!(Ok(7 - 8 / 3 * 2 + (4 - 10) / 4), my_eval("7 - 8 / 3 * 2 + (4 - 10) / 4"));
    assert_eq!(Ok(100 / 7 / 2 - 3 * (2 - 9) * 5), my_eval("100 / 7 / 2 - 3 * (2 - 9) * 5"));
    assert_eq!(Ok(((1 + 2) * (3 + 4) - 5) / 2), my_eval("((1 + 2) * (3 + 4) - 5) / 2"));
}

#[test]
fn precedence_overflow_on_the_way() {
    assert_eq!(Err(EvalError::Overflow), my_eval("2147483647 * 2 / 2"));
    assert_eq!(Ok(1073741823), my_eval("2147483647 / 2"));
}
