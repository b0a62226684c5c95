use vstd::prelude::*;

verus! {

/// The four arithmetic operators.
#[derive(Debug, Clone, Copy, PartialEq, Eq, Structural)]
pub enum Operator {
    Add,
    Subtract,
    Multiply,
    Divide,
}

/// What reading or applying an operator can fail with.
#[derive(Debug, Clone, Copy, PartialEq, Eq, Structural)]
pub enum CalculatorError {
    DivideByZero,
    InvalidOperator,
    InvalidNumber,
}

/// The operator that the text `op` names: `+`, `-`, `*` or `/`.
pub open spec fn operator_of(op: Seq<char>) -> Option<Operator> {
    if op == "+"@ {
        Some(Operator::Add)
    } else if op == "-"@ {
        Some(Operator::Subtract)
    } else if op == "*"@ {
        Some(Operator::Multiply)
    } else if op == "/"@ {
        Some(Operator::Divide)
    } else {
        None
    }
}

/// Reads an operator; any text but `+`, `-`, `*` and `/` is `InvalidOperator`.
pub fn parse_operator(op: &str) -> (r: Result<Operator, CalculatorError>)
    ensures
        match operator_of(op@) {
            Some(o) => r == Ok::<Operator, CalculatorError>(o),
            None => r == Err::<Operator, CalculatorError>(CalculatorError::InvalidOperator),
        },
{
    proof {
        reveal_strlit("+");
        reveal_strlit("-");
        reveal_strlit("*");
        reveal_strlit("/");
    }
    if op.unicode_len() != 1 {
        assert(op@ != "+"@ && op@ != "-"@ && op@ != "*"@ && op@ != "/"@);
        return Err(CalculatorError::InvalidOperator);
    }
    let c = op.get_char(0);
    assert(op@ =~= seq![c]);
    assert("+"@ =~= seq!['+'] && "-"@ =~= seq!['-'] && "*"@ =~= seq!['*'] && "/"@ =~= seq!['/']);
    if c == '+' {
        Ok(Operator::Add)
    } else if c == '-' {
        Ok(Operator::Subtract)
    } else if c == '*' {
        Ok(Operator::Multiply)
    } else if c == '/' {
        Ok(Operator::Divide)
    } else {
        Err(CalculatorError::InvalidOperator)
    }
}

} // verus!
