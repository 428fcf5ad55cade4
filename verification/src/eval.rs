//! The decisions of postfix evaluation.
//!
//! An evaluator keeps a stack of values. It reads the tokens from left to
//! right: a number is pushed; an operator takes the two topmost values, the
//! right operand first, and pushes what it makes of them. The arithmetic is
//! the evaluator's own. What it has to decide at each token, whether an
//! operator may be applied to its operands, and how the evaluation ends, is
//! decided here, from the depth of its stack and from whether the right
//! operand is zero.

use crate::lexer::{all_digits, is_numeric};
use crate::token::{Operator, Token, TokenView};
use vstd::prelude::*;

verus! {

/// Why an evaluation failed.
#[derive(Clone, Copy, Debug, PartialEq, Eq, Structural)]
pub enum EvalError {
    /// A division whose right operand is zero.
    DivisionByZero,
    /// An operator found fewer than two values, or the end found none.
    StackUnderflow,
    /// The end found more than one value, or a token was neither a number nor
    /// an operator.
    MalformedExpression,
}

impl EvalError {
    /// The error in words.
    pub open spec fn spec_message(self) -> Seq<char> {
        match self {
            EvalError::DivisionByZero => "division by zero"@,
            EvalError::StackUnderflow => "invalid expression: an operand is missing"@,
            EvalError::MalformedExpression => "invalid expression"@,
        }
    }

    /// The error in words.
    pub fn message(self) -> (text: String)
        ensures
            text@ == self.spec_message(),
    {
        match self {
            EvalError::DivisionByZero => String::from_str("division by zero"),
            EvalError::StackUnderflow => {
                String::from_str("invalid expression: an operand is missing")
            },
            EvalError::MalformedExpression => String::from_str("invalid expression"),
        }
    }
}

/// What the evaluator does with a token.
#[derive(Clone, Copy, Debug, PartialEq, Eq, Structural)]
pub enum Action {
    /// Push the number that the token holds.
    Push,
    /// Pop the right operand, then the left one, and push what the operator
    /// makes of them.
    Apply(Operator),
}

/// What a token asks for when the stack holds `depth` values.
pub open spec fn action_for(depth: nat, token: TokenView) -> Result<Action, EvalError> {
    match token {
        TokenView::Number(text) => {
            if text.len() > 0 && all_digits(text) {
                Ok(Action::Push)
            } else {
                Err(EvalError::MalformedExpression)
            }
        },
        TokenView::Operator(op) => {
            if depth < 2 {
                Err(EvalError::StackUnderflow)
            } else {
                Ok(Action::Apply(op))
            }
        },
        _ => Err(EvalError::MalformedExpression),
    }
}

/// Whether `op` divides by zero: it is the division, and its right operand
/// is zero.
pub open spec fn divides_by_zero(op: Operator, right_is_zero: bool) -> bool {
    op == Operator::Divide && right_is_zero
}

/// How an evaluation ends that leaves `depth` values.
pub open spec fn outcome_at(depth: nat) -> Result<(), EvalError> {
    if depth == 1 {
        Ok(())
    } else if depth == 0 {
        Err(EvalError::StackUnderflow)
    } else {
        Err(EvalError::MalformedExpression)
    }
}

/// The depth of the stack after one more token, or the fault that the token
/// meets.
pub open spec fn depth_step(depth: Result<nat, EvalError>, token: TokenView) -> Result<
    nat,
    EvalError,
> {
    match depth {
        Err(e) => Err(e),
        Ok(d) => match action_for(d, token) {
            Err(e) => Err(e),
            Ok(Action::Push) => Ok(d + 1),
            Ok(Action::Apply(_)) => Ok((d - 1) as nat),
        },
    }
}

/// The depth of the stack after `tokens`, or the first fault that stands in
/// the tokens themselves, whatever the values are.
pub open spec fn depth_after(tokens: Seq<TokenView>) -> Result<nat, EvalError>
    decreases tokens.len(),
{
    if tokens.len() == 0 {
        Ok(0)
    } else {
        depth_step(depth_after(tokens.drop_last()), tokens.last())
    }
}

/// How the evaluation of `tokens` ends where no operator divides by zero.
pub open spec fn shape_of(tokens: Seq<TokenView>) -> Result<(), EvalError> {
    match depth_after(tokens) {
        Err(e) => Err(e),
        Ok(d) => outcome_at(d),
    }
}

/// Decides what to do with `token` when the stack holds `depth` values.
pub fn next_action(depth: usize, token: &Token) -> (r: Result<Action, EvalError>)
    ensures
        r == action_for(depth as nat, token@),
{
    match token {
        Token::Number(text) => {
            if !text.as_str().is_empty() && is_numeric(text.as_str()) {
                Ok(Action::Push)
            } else {
                Err(EvalError::MalformedExpression)
            }
        },
        Token::Operator(op) => {
            if depth < 2 {
                Err(EvalError::StackUnderflow)
            } else {
                Ok(Action::Apply(*op))
            }
        },
        _ => Err(EvalError::MalformedExpression),
    }
}

/// Decides whether `op` may be applied to its operands, of which the right
/// one is zero or not.
pub fn check_operands(op: Operator, right_is_zero: bool) -> (r: Result<(), EvalError>)
    ensures
        r == if divides_by_zero(op, right_is_zero) {
            Err::<(), EvalError>(EvalError::DivisionByZero)
        } else {
            Ok::<(), EvalError>(())
        },
{
    match op {
        Operator::Divide => {
            if right_is_zero {
                Err(EvalError::DivisionByZero)
            } else {
                Ok(())
            }
        },
        _ => Ok(()),
    }
}

/// Decides how an evaluation ends that leaves `depth` values: the one value
/// is the result.
pub fn finish(depth: usize) -> (r: Result<(), EvalError>)
    ensures
        r == outcome_at(depth as nat),
{
    if depth == 1 {
        Ok(())
    } else if depth == 0 {
        Err(EvalError::StackUnderflow)
    } else {
        Err(EvalError::MalformedExpression)
    }
}

} // verus!
