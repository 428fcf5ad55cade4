//! Infix arithmetic expressions: lexing, structural validation, conversion to
//! postfix and prefix notation, and the decisions of postfix evaluation.
//!
//! An expression is written with numbers, the binary operators `+ - * / ^ √`
//! (`n√x` is the n-th root of x) and three kinds of grouping delimiters,
//! `( )`, `[ ]` and `{ }`.
//!
//! The work goes one way: [`tokenize`] cuts a text into tokens, [`validate`]
//! accepts or rejects them, [`to_postfix`] and [`to_prefix`] convert accepted
//! tokens, and an evaluator reads the postfix notation, asking [`next_action`],
//! [`check_operands`] and [`finish`] what to do.
//!
//! Every function states what it returns over a mathematical model of its
//! arguments. The modules [`nesting`], [`order`], [`binding`] and [`grammar`]
//! hold what is proved of the conversions beyond that.

pub mod binding;
pub mod convert;
pub mod eval;
pub mod grammar;
pub mod lexer;
pub mod nesting;
pub mod order;
pub mod token;
pub mod validate;

pub use convert::{shunting_yard, to_postfix, to_prefix};
pub use eval::{check_operands, finish, next_action, Action, EvalError};
pub use lexer::{
    assemble_tokens, classify_lexeme, is_numeric, is_whitespace, strip_whitespace, tokenize,
};
pub use token::{DelimiterKind, Operator, Token};
pub use validate::{is_right, validate, DelimiterTracker, ValidationError};
