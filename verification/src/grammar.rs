//! Well-formed expressions.
//!
//! Validation looks at neighbours and at counts; it accepts `3 +` and `( )`.
//! An expression in the full sense is an operand, or two expressions with an
//! operator between them, where an operand is a number or an expression in
//! delimiters of one kind. Read from left to right, such a sequence is told by
//! what may come next, an operand or an operator, and by the delimiters that
//! are open. Every such sequence passes validation, and its postfix notation
//! is one that an evaluator reads to the end: the only fault left to it is a
//! division by zero.

use crate::convert::{close_group, drain, gives_way, postfix_of, run, unwind, Pending, Shunt};
use crate::eval::{depth_after, shape_of, EvalError};
use crate::lexer::all_digits;
use crate::nesting::{lemma_nested_is_balanced, nest, open_kinds, properly_nested};
use crate::token::{DelimiterKind, Operator, TokenView};
use crate::validate::{balanced, first_violation, validation_result, violation_at};
use vstd::prelude::*;

verus! {

/// What may come next in an expression.
pub enum Expecting {
    /// A number or an opening delimiter.
    Operand,
    /// An operator or a closing delimiter, or the end.
    Operator,
}

/// How far an expression has been read.
pub struct Reading {
    pub expecting: Expecting,
    /// The kinds of the open delimiters, innermost last.
    pub open: Seq<DelimiterKind>,
}

/// The reading after one more token; `None` where the token may not come.
pub open spec fn read_step(reading: Option<Reading>, token: TokenView) -> Option<Reading> {
    match reading {
        None => None,
        Some(r) => match r.expecting {
            Expecting::Operand => match token {
                TokenView::Number(text) => {
                    if text.len() > 0 && all_digits(text) {
                        Some(Reading { expecting: Expecting::Operator, open: r.open })
                    } else {
                        None
                    }
                },
                TokenView::OpenDelimiter(kind) => {
                    Some(Reading { expecting: Expecting::Operand, open: r.open.push(kind) })
                },
                _ => None,
            },
            Expecting::Operator => match token {
                TokenView::Operator(_) => {
                    Some(Reading { expecting: Expecting::Operand, open: r.open })
                },
                TokenView::CloseDelimiter(kind) => {
                    if r.open.len() > 0 && r.open.last() == kind {
                        Some(Reading { expecting: Expecting::Operator, open: r.open.drop_last() })
                    } else {
                        None
                    }
                },
                _ => None,
            },
        },
    }
}

/// The reading after `tokens`.
pub open spec fn read(tokens: Seq<TokenView>) -> Option<Reading>
    decreases tokens.len(),
{
    if tokens.len() == 0 {
        Some(Reading { expecting: Expecting::Operand, open: Seq::empty() })
    } else {
        read_step(read(tokens.drop_last()), tokens.last())
    }
}

/// `tokens` is an expression: it reads to the end, where an operand has just
/// ended and no delimiter is open.
pub open spec fn well_formed(tokens: Seq<TokenView>) -> bool {
    read(tokens) == Some(Reading { expecting: Expecting::Operator, open: Seq::empty() })
}

/// The number of operators on a stack.
spec fn held(stack: Seq<Pending>) -> int {
    stack.len() - open_kinds(stack).len()
}

proof fn lemma_held(stack: Seq<Pending>)
    ensures
        0 <= held(stack),
        stack.len() > 0 ==> held(stack) == held(stack.drop_last()) + (if stack.last()
            is Operator {
            1int
        } else {
            0int
        }),
    decreases stack.len(),
{
    if stack.len() > 0 {
        lemma_held(stack.drop_last());
    }
}

/// After an operand, the output holds one value more than operators wait.
spec fn after_operand(state: Shunt) -> bool {
    depth_after(state.output) == Ok::<nat, EvalError>((held(state.stack) + 1) as nat)
}

proof fn lemma_emit_operator(state: Shunt)
    requires
        state.stack.len() > 0,
        state.stack.last() is Operator,
        after_operand(state),
    ensures
        after_operand(state.emit_top()),
        open_kinds(state.emit_top().stack) == open_kinds(state.stack),
{
    lemma_held(state.stack);
    lemma_held(state.stack.drop_last());
    assert(state.emit_top().output.drop_last() == state.output);
}

proof fn lemma_close_group_read(state: Shunt, kind: DelimiterKind)
    requires
        open_kinds(state.stack).len() > 0,
        open_kinds(state.stack).last() == kind,
        after_operand(state),
    ensures
        open_kinds(close_group(state, kind).stack) == open_kinds(state.stack).drop_last(),
        after_operand(close_group(state, kind)),
    decreases state.stack.len(),
{
    let below = open_kinds(state.stack.drop_last());
    lemma_held(state.stack);
    match state.stack.last() {
        Pending::Open(k) => {
            assert(below.push(k).drop_last() == below);
        },
        Pending::Operator(_) => {
            lemma_emit_operator(state);
            lemma_close_group_read(state.emit_top(), kind);
        },
    }
}

proof fn lemma_unwind_read(state: Shunt, op: Operator, strict: bool)
    requires
        after_operand(state),
    ensures
        open_kinds(unwind(state, op, strict).stack) == open_kinds(state.stack),
        after_operand(unwind(state, op, strict)),
    decreases state.stack.len(),
{
    if state.stack.len() > 0 && gives_way(state.stack.last(), op, strict) {
        lemma_emit_operator(state);
        lemma_unwind_read(state.emit_top(), op, strict);
    }
}

proof fn lemma_drain_read(state: Shunt)
    requires
        open_kinds(state.stack).len() == 0,
        after_operand(state),
    ensures
        depth_after(drain(state)) == Ok::<nat, EvalError>(1),
    decreases state.stack.len(),
{
    if state.stack.len() > 0 {
        lemma_emit_operator(state);
        lemma_drain_read(state.emit_top());
    }
}

/// What a pass holds after tokens that read as the start of an expression.
proof fn lemma_run_read(tokens: Seq<TokenView>, strict: bool)
    requires
        read(tokens) is Some,
    ensures
        open_kinds(run(tokens, strict).stack) == read(tokens)->0.open,
        depth_after(run(tokens, strict).output) == Ok::<nat, EvalError>(
            (held(run(tokens, strict).stack) + (if read(tokens)->0.expecting is Operator {
                1int
            } else {
                0int
            })) as nat,
        ),
    decreases tokens.len(),
{
    if tokens.len() > 0 {
        let head = tokens.drop_last();
        let t = tokens.last();
        let before = run(head, strict);
        lemma_run_read(head, strict);
        lemma_held(before.stack);
        match t {
            TokenView::CloseDelimiter(kind) => {
                lemma_close_group_read(before, kind);
            },
            TokenView::Operator(op) => {
                lemma_unwind_read(before, op, strict);
                let unwound = unwind(before, op, strict);
                let pushed = unwound.stack.push(Pending::Operator(op));
                assert(pushed.drop_last() == unwound.stack);
                lemma_held(pushed);
            },
            TokenView::OpenDelimiter(kind) => {
                let pushed = before.stack.push(Pending::Open(kind));
                assert(pushed.drop_last() == before.stack);
                lemma_held(pushed);
            },
            _ => {
                assert(before.output.push(t).drop_last() == before.output);
            },
        }
    }
}

/// The postfix notation of an expression is one that an evaluator reads to
/// the end: no operator lacks an operand, and one value is left. Its
/// evaluation fails only where an operator divides by zero.
pub proof fn lemma_postfix_evaluates(tokens: Seq<TokenView>)
    requires
        well_formed(tokens),
    ensures
        depth_after(postfix_of(tokens)) == Ok::<nat, EvalError>(1),
        shape_of(postfix_of(tokens)) == Ok::<(), EvalError>(()),
{
    lemma_run_read(tokens, false);
    lemma_drain_read(run(tokens, false));
}

proof fn lemma_read_nested(tokens: Seq<TokenView>)
    requires
        read(tokens) is Some,
    ensures
        nest(Some(Seq::empty()), tokens) == Some(read(tokens)->0.open),
    decreases tokens.len(),
{
    if tokens.len() > 0 {
        lemma_read_nested(tokens.drop_last());
    }
}

proof fn lemma_read_scans(tokens: Seq<TokenView>)
    requires
        read(tokens) is Some,
    ensures
        forall|i: int| 0 <= i < tokens.len() ==> violation_at(tokens, i) is None,
        tokens.len() > 0 && tokens.last() is Operator ==> read(tokens)->0.expecting is Operand,
    decreases tokens.len(),
{
    if tokens.len() > 0 {
        let head = tokens.drop_last();
        lemma_read_scans(head);
        assert forall|i: int| 0 <= i < tokens.len() implies violation_at(tokens, i) is None by {
            if i < head.len() {
                assert(tokens[i] == head[i]);
                assert(violation_at(head, i) is None);
                if i + 1 < head.len() {
                    assert(tokens[i + 1] == head[i + 1]);
                } else {
                    assert(head.last() == head[i]);
                }
            }
        }
    }
}

proof fn lemma_scan_finds_nothing(tokens: Seq<TokenView>, from: int)
    requires
        0 <= from,
        forall|i: int| from <= i < tokens.len() ==> violation_at(tokens, i) is None,
    ensures
        first_violation(tokens, from) is None,
    decreases tokens.len() - from,
{
    if from < tokens.len() {
        lemma_scan_finds_nothing(tokens, from + 1);
    }
}

/// An expression passes validation, and its delimiters are properly nested.
pub proof fn lemma_well_formed_is_valid(tokens: Seq<TokenView>)
    requires
        well_formed(tokens),
    ensures
        validation_result(tokens) is Ok,
        properly_nested(tokens),
{
    lemma_read_nested(tokens);
    lemma_read_scans(tokens);
    lemma_scan_finds_nothing(tokens, 0);
    lemma_nested_is_balanced(tokens);
    assert(balanced(tokens, DelimiterKind::Paren));
    assert(balanced(tokens, DelimiterKind::Bracket));
    assert(balanced(tokens, DelimiterKind::Brace));
}

} // verus!
