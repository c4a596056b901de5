use my_rust_eval::eval_expression::EvalExpression;

#[test]
fn eval_value_debug_string() {
    assert_eq!("Value(4)", format!("{:?}", EvalExpression::Value(4)));
}

#[test]
fn eval_value_eq() {
    let a1: Box<EvalExpression> = EvalExpression::value_box(4);
    let a2: Box<EvalExpression> = EvalExpression::value_box(4);
    let a3: Box<EvalExpression> = EvalExpression::value_box(8);
    assert_eq!(*a1, *a1);
    assert_eq!(*a1, *a2);
    assert_ne!(*a1, *a3);
}

#[test]
fn eval_plus_expression_debug_string() {
    assert_eq!(
        "Plus(Value(4), Value(1))",
        format!("{:?}", EvalExpression::Plus(EvalExpression::value_box(4), EvalExpression::value_box(1)))
    );
}

#[test]
fn eval_minus_expression_debug_string() {
    assert_eq!(
        "Minus(Value(4), Value(1))",
        format!("{:?}", EvalExpression::Minus(EvalExpression::value_box(4), EvalExpression::value_box(1)))
    );
}

#[test]
fn eval_times_expression_debug_string() {
    assert_eq!(
        "Times(Value(4), Value(1))",
        format!("{:?}", EvalExpression::Times(EvalExpression::value_box(4), EvalExpression::value_box(1)))
    );
}

#[test]
fn eval_div_expression_debug_string() {
    assert_eq!(
        "Div(Value(4), Value(1))",
        format!("{:?}", EvalExpression::Div(EvalExpression::value_box(4), EvalExpression::value_box(1)))
    );
}

#[test]
fn eval_binary_expression_eq() {
    let a1: Box<EvalExpression> =
        EvalExpression::plus_box(EvalExpression::value_box(4), EvalExpression::value_box(1));
    let a2: Box<EvalExpression> =
        EvalExpression::plus_box(EvalExpression::value_box(4), EvalExpression::value_box(1));
    let a3: Box<EvalExpression> =
        EvalExpression::minus_box(EvalExpression::value_box(4), EvalExpression::value_box(1));
    assert_eq!(*a1, *a1);
    assert_eq!(*a1, *a2);
    assert_ne!(*a1, *a3);
}

#[test]
fn eval_expression_eq() {
    let a1: Box<EvalExpression> =
        EvalExpression::plus_box(EvalExpression::value_box(4), EvalExpression::value_box(1));
    let a2: Box<EvalExpression> = EvalExpression::value_box(4);
    assert_ne!(*a1, *a2);
    assert_ne!(*a2, *a1);
}

#[test]
fn boxes_build_the_named_node() {
    let t = EvalExpression::times_box(EvalExpression::value_box(2), EvalExpression::value_box(3));
    assert_eq!("Times(Value(2), Value(3))", format!("{:?}", t));
    let d = EvalExpression::div_box(EvalExpression::value_box(6), EvalExpression::value_box(3));
    assert_eq!("Div(Value(6), Value(3))", format!("{:?}", d));
}
