use my_rust_eval::error::EvalError;
use my_rust_eval::eval_expression::EvalExpression;
use my_rust_eval::evaluator::evaluate;

#[test]
fn test_value() {
    assert_eq!(Ok(4), evaluate(&EvalExpression::Value(4)));
}

#[test]
fn evaluate_bin_op_plus() {
    assert_eq!(
        Ok(5),
        evaluate(&EvalExpression::Plus(EvalExpression::value_box(4), EvalExpression::value_box(1)))
    );
}

#[test]
fn evaluate_bin_op_minus() {
    assert_eq!(
        Ok(3),
        evaluate(&EvalExpression::Minus(EvalExpression::value_box(4), EvalExpression::value_box(1)))
    );
}

#[test]
fn evaluate_bin_op_times() {
    assert_eq!(
        Ok(8),
        evaluate(&EvalExpression::Times(EvalExpression::value_box(4), EvalExpression::value_box(2)))
    );
}

#[test]
fn evaluate_bin_op_div() {
    assert_eq!(
        Ok(3),
        evaluate(&EvalExpression::Div(EvalExpression::value_box(6), EvalExpression::value_box(2)))
    );
}

#[test]
fn evaluate_division_truncates_toward_zero() {
    assert_eq!(
        Ok(-3),
        evaluate(&EvalExpression::Div(EvalExpression::value_box(-7), EvalExpression::value_box(2)))
    );
    assert_eq!(
        Ok(-3),
        evaluate(&EvalExpression::Div(EvalExpression::value_box(7), EvalExpression::value_box(-2)))
    );
}

#[test]
fn evaluate_division_by_zero() {
    assert_eq!(
        Err(EvalError::DivisionByZero),
        evaluate(&EvalExpression::Div(EvalExpression::value_box(6), EvalExpression::value_box(0)))
    );
}

#[test]
fn evaluate_overflow() {
    assert_eq!(
        Err(EvalError::Overflow),
        evaluate(&EvalExpression::Times(
            EvalExpression::value_box(65536),
            EvalExpression::value_box(65536)
        ))
    );
    assert_eq!(
        Err(EvalError::Overflow),
        evaluate(&EvalExpression::Div(
            EvalExpression::value_box(i32::MIN),
            EvalExpression::value_box(-1)
        ))
    );
}

#[test]
fn evaluate_left_error_comes_first() {
    let left = EvalExpression::div_box(EvalExpression::value_box(1), EvalExpression::value_box(0));
    let right = EvalExpression::times_box(
        EvalExpression::value_box(i32::MAX),
        EvalExpression::value_box(2),
    );
    assert_eq!(Err(EvalError::DivisionByZero), evaluate(&EvalExpression::Plus(left, right)));
}
