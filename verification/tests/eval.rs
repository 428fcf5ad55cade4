use infix_notation::{
    check_operands, finish, next_action, to_postfix, tokenize, validate, Action, EvalError,
    Operator, Token,
};

fn apply(op: Operator, a: f64, b: f64) -> f64 {
    match op {
        Operator::Plus => a + b,
        Operator::Minus => a - b,
        Operator::Times => a * b,
        Operator::Divide => a / b,
        Operator::Power => a.powf(b),
        Operator::Root => b.powf(1.0 / a),
    }
}

fn evaluate(postfix: &[Token]) -> Result<f64, EvalError> {
    let mut stack: Vec<f64> = Vec::new();
    for token in postfix {
        match next_action(stack.len(), token)? {
            Action::Push => stack.push(token.lexeme().parse::<f64>().unwrap()),
            Action::Apply(op) => {
                let b = stack.pop().unwrap();
                let a = stack.pop().unwrap();
                check_operands(op, b == 0.0)?;
                stack.push(apply(op, a, b));
            }
        }
    }
    finish(stack.len())?;
    Ok(stack.pop().unwrap())
}

fn calculate(raw: &str) -> Result<f64, EvalError> {
    let tokens = tokenize(raw);
    assert_eq!(validate(&tokens), Ok(()));
    evaluate(&to_postfix(&tokens))
}

#[test]
fn evaluate_sum() {
    assert_eq!(calculate("3 + 4"), Ok(7.0));
}

#[test]
fn evaluate_group() {
    assert_eq!(calculate("(3 + 4) * 2"), Ok(14.0));
}

#[test]
fn evaluate_power() {
    assert_eq!(calculate("2 ^ 3"), Ok(8.0));
}

#[test]
fn evaluate_root() {
    assert_eq!(calculate("2 √ 64"), Ok(8.0));
}

#[test]
fn evaluate_division_by_zero() {
    assert_eq!(calculate("10 / 0"), Err(EvalError::DivisionByZero));
    assert_eq!(calculate("1 + 2 / (3 - 3)"), Err(EvalError::DivisionByZero));
}

#[test]
fn evaluate_zero_elsewhere() {
    assert_eq!(calculate("0 / 5"), Ok(0.0));
    assert_eq!(calculate("2 √ 0"), Ok(0.0));
    assert_eq!(calculate("5 * 0"), Ok(0.0));
    assert_eq!(calculate("5 - 0"), Ok(5.0));
    assert_eq!(calculate("5 ^ 0"), Ok(1.0));
}

#[test]
fn evaluate_operand_order() {
    assert_eq!(calculate("7 - 2"), Ok(5.0));
    assert_eq!(calculate("8 / 2"), Ok(4.0));
    assert_eq!(calculate("3 √ 27"), Ok(3.0));
    assert_eq!(calculate("1 - 2 - 3"), Ok(-4.0));
    assert_eq!(calculate("2 ^ 3 ^ 2"), Ok(64.0));
}

#[test]
fn evaluate_stack_underflow() {
    assert_eq!(calculate("3 +"), Err(EvalError::StackUnderflow));
    assert_eq!(calculate("+"), Err(EvalError::StackUnderflow));
    assert_eq!(calculate(""), Err(EvalError::StackUnderflow));
}

#[test]
fn evaluate_malformed_expression() {
    assert_eq!(calculate("3 4"), Ok(34.0));
    let two_values = vec![Token::Number("3".to_string()), Token::Number("4".to_string())];
    assert_eq!(evaluate(&two_values), Err(EvalError::MalformedExpression));
    assert_eq!(calculate("( [ ) ]"), Err(EvalError::MalformedExpression));
}

#[test]
fn evaluate_reports_the_first_fault() {
    let tokens = tokenize("1 0 / +");
    let spaced = vec![
        Token::Number("1".to_string()),
        Token::Number("0".to_string()),
        tokens[1].clone(),
        tokens[2].clone(),
    ];
    assert_eq!(evaluate(&spaced), Err(EvalError::DivisionByZero));
}

#[test]
fn next_action_decides_by_token_and_depth() {
    let plus = Token::Operator(Operator::Plus);
    assert_eq!(next_action(0, &Token::Number("12".to_string())), Ok(Action::Push));
    assert_eq!(next_action(5, &Token::Number("0".to_string())), Ok(Action::Push));
    assert_eq!(next_action(0, &plus), Err(EvalError::StackUnderflow));
    assert_eq!(next_action(1, &plus), Err(EvalError::StackUnderflow));
    assert_eq!(next_action(2, &plus), Ok(Action::Apply(Operator::Plus)));
    assert_eq!(
        next_action(2, &Token::Unsupported("x".to_string())),
        Err(EvalError::MalformedExpression)
    );
    assert_eq!(
        next_action(2, &Token::Number("1x".to_string())),
        Err(EvalError::MalformedExpression)
    );
    assert_eq!(
        next_action(2, &Token::Number(String::new())),
        Err(EvalError::MalformedExpression)
    );
    for token in tokenize("()[]{}") {
        assert_eq!(next_action(2, &token), Err(EvalError::MalformedExpression));
    }
}

#[test]
fn check_operands_finds_division_by_zero() {
    assert_eq!(check_operands(Operator::Divide, true), Err(EvalError::DivisionByZero));
    assert_eq!(check_operands(Operator::Divide, false), Ok(()));
    let others =
        [Operator::Plus, Operator::Minus, Operator::Times, Operator::Power, Operator::Root];
    for op in others {
        assert_eq!(check_operands(op, true), Ok(()));
        assert_eq!(check_operands(op, false), Ok(()));
    }
}

#[test]
fn finish_wants_one_value() {
    assert_eq!(finish(1), Ok(()));
    assert_eq!(finish(0), Err(EvalError::StackUnderflow));
    assert_eq!(finish(2), Err(EvalError::MalformedExpression));
    assert_eq!(finish(usize::MAX), Err(EvalError::MalformedExpression));
}

#[test]
fn eval_error_messages() {
    assert_eq!(EvalError::DivisionByZero.message(), "division by zero");
    assert_eq!(
        EvalError::StackUnderflow.message(),
        "invalid expression: an operand is missing"
    );
    assert_eq!(EvalError::MalformedExpression.message(), "invalid expression");
}
