//! The order of the operands in a conversion.
//!
//! A conversion moves operators only: the numbers stand in the postfix and in
//! the prefix notation in the order in which they stand in the infix one.

use crate::convert::{
    close_group, drain, flip, gives_way, mirror, postfix_of, prefix_of, run, shunted, unwind,
    Pending, Shunt,
};
use crate::token::{DelimiterKind, Operator, TokenView};
use vstd::prelude::*;

verus! {

/// A number or an unsupported token: what a pass hands on as it comes.
pub open spec fn is_operand(token: TokenView) -> bool {
    token is Number || token is Unsupported
}

/// The operands among `tokens`, in their order.
pub open spec fn operands(tokens: Seq<TokenView>) -> Seq<TokenView> {
    tokens.filter(|t: TokenView| is_operand(t))
}

proof fn lemma_emit_top_operands(state: Shunt)
    requires
        state.stack.len() > 0,
    ensures
        operands(state.emit_top().output) == operands(state.output),
{
    state.output.lemma_filter_push(state.stack.last().token(), |t: TokenView| is_operand(t));
}

proof fn lemma_close_group_operands(state: Shunt, kind: DelimiterKind)
    ensures
        operands(close_group(state, kind).output) == operands(state.output),
    decreases state.stack.len(),
{
    if state.stack.len() > 0 && state.stack.last() != Pending::Open(kind) {
        lemma_emit_top_operands(state);
        lemma_close_group_operands(state.emit_top(), kind);
    }
}

proof fn lemma_unwind_operands(state: Shunt, op: Operator, strict: bool)
    ensures
        operands(unwind(state, op, strict).output) == operands(state.output),
    decreases state.stack.len(),
{
    if state.stack.len() > 0 && gives_way(state.stack.last(), op, strict) {
        lemma_emit_top_operands(state);
        lemma_unwind_operands(state.emit_top(), op, strict);
    }
}

proof fn lemma_drain_operands(state: Shunt)
    ensures
        operands(drain(state)) == operands(state.output),
    decreases state.stack.len(),
{
    if state.stack.len() > 0 {
        lemma_emit_top_operands(state);
        lemma_drain_operands(state.emit_top());
    }
}

proof fn lemma_run_operands(tokens: Seq<TokenView>, strict: bool)
    ensures
        operands(run(tokens, strict).output) == operands(tokens),
    decreases tokens.len(),
{
    let p = |t: TokenView| is_operand(t);
    if tokens.len() == 0 {
        assert(run(tokens, strict).output == tokens);
    } else {
        let head = tokens.drop_last();
        let t = tokens.last();
        let before = run(head, strict);
        lemma_run_operands(head, strict);
        assert(tokens == head.push(t));
        head.lemma_filter_push(t, p);
        match t {
            TokenView::CloseDelimiter(kind) => lemma_close_group_operands(before, kind),
            TokenView::Operator(op) => lemma_unwind_operands(before, op, strict),
            TokenView::OpenDelimiter(_) => {},
            _ => {
                before.output.lemma_filter_push(t, p);
            },
        }
    }
}

/// One pass keeps the operands in their order.
pub proof fn lemma_shunted_operands(tokens: Seq<TokenView>, strict: bool)
    ensures
        operands(shunted(tokens, strict)) == operands(tokens),
{
    lemma_run_operands(tokens, strict);
    lemma_drain_operands(run(tokens, strict));
}

proof fn lemma_reverse_operands(tokens: Seq<TokenView>)
    ensures
        operands(tokens.reverse()) == operands(tokens).reverse(),
    decreases tokens.len(),
{
    let p = |t: TokenView| is_operand(t);
    if tokens.len() == 0 {
        assert(tokens.reverse() == tokens);
        assert(operands(tokens).reverse() == operands(tokens)) by {
            tokens.lemma_filter_len(p);
        }
    } else {
        let head = tokens.drop_last();
        let t = tokens.last();
        assert(tokens == head.push(t));
        assert(tokens.reverse() == seq![t] + head.reverse());
        lemma_reverse_operands(head);
        head.lemma_filter_push(t, p);
        head.reverse().lemma_filter_prepend(t, p);
        if p(t) {
            assert(operands(head).push(t).reverse() == seq![t] + operands(head).reverse());
        } else {
            assert(Seq::<TokenView>::empty() + operands(head).reverse() == operands(
                head,
            ).reverse());
        }
    }
}

proof fn lemma_mirror_operands(tokens: Seq<TokenView>)
    ensures
        operands(mirror(tokens)) == operands(tokens).reverse(),
    decreases tokens.len(),
{
    let p = |t: TokenView| is_operand(t);
    if tokens.len() == 0 {
        assert(mirror(tokens) == tokens);
        assert(operands(tokens).reverse() == operands(tokens)) by {
            tokens.lemma_filter_len(p);
        }
    } else {
        let head = tokens.drop_last();
        let t = tokens.last();
        assert(tokens == head.push(t));
        assert(mirror(tokens) == seq![flip(t)] + mirror(head));
        lemma_mirror_operands(head);
        head.lemma_filter_push(t, p);
        mirror(head).lemma_filter_prepend(flip(t), p);
        if p(t) {
            assert(operands(head).push(t).reverse() == seq![t] + operands(head).reverse());
        } else {
            assert(Seq::<TokenView>::empty() + operands(head).reverse() == operands(
                head,
            ).reverse());
        }
    }
}

/// The operands keep their order. The numbers of any token sequence, and its
/// unsupported tokens with them, stand in its postfix and in its prefix
/// notation as they stand in the sequence.
pub proof fn lemma_conversion_keeps_operands(tokens: Seq<TokenView>)
    ensures
        operands(postfix_of(tokens)) == operands(tokens),
        operands(prefix_of(tokens)) == operands(tokens),
{
    lemma_shunted_operands(tokens, false);
    lemma_shunted_operands(mirror(tokens), true);
    lemma_reverse_operands(shunted(mirror(tokens), true));
    lemma_mirror_operands(tokens);
    assert(operands(tokens).reverse().reverse() == operands(tokens));
}

} // verus!
