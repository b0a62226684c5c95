use grade_management::calculator::{parse_operator, CalculatorError, Operator};

#[test]
fn test_operator_parsing() {
    assert!(matches!(parse_operator("+"), Ok(Operator::Add)));
    assert!(matches!(parse_operator("-"), Ok(Operator::Subtract)));
    assert!(matches!(parse_operator("*"), Ok(Operator::Multiply)));
    assert!(matches!(parse_operator("/"), Ok(Operator::Divide)));
    assert!(matches!(parse_operator("x"), Err(CalculatorError::InvalidOperator)));
}

#[test]
fn longer_texts_are_not_operators() {
    assert!(matches!(parse_operator("++"), Err(CalculatorError::InvalidOperator)));
    assert!(matches!(parse_operator(""), Err(CalculatorError::InvalidOperator)));
}
