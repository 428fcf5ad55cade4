//! How many tokens a conversion puts out, and which.
//!
//! A conversion moves every number and every operator to its output exactly
//! once. A delimiter reaches the output only where the delimiters are not
//! nested in one another: an opening delimiter that a closing delimiter of
//! another kind passes over, or that is never closed. Validation compares
//! counts only, so it accepts sequences such as `( [ ) ]`, whose postfix form
//! holds a bracket. The laws here are therefore stated for the sequences whose
//! delimiters are properly nested.

use crate::convert::{
    close_group, drain, flip, gives_way, mirror, postfix_of, prefix_of, run, shunted, unwind,
    Pending, Shunt,
};
use crate::token::{DelimiterKind, Operator, TokenView};
use crate::validate::{
    all_balanced, balanced, closed, first_violation, opened, validation_result, violation_at,
};
use vstd::prelude::*;

verus! {

/// The kinds of the delimiters that are open after one more token, innermost
/// last; `None` where the token closes what is not the innermost open
/// delimiter.
pub open spec fn nest_step(open: Option<Seq<DelimiterKind>>, token: TokenView) -> Option<
    Seq<DelimiterKind>,
> {
    match open {
        None => None,
        Some(kinds) => match token {
            TokenView::OpenDelimiter(kind) => Some(kinds.push(kind)),
            TokenView::CloseDelimiter(kind) => {
                if kinds.len() > 0 && kinds.last() == kind {
                    Some(kinds.drop_last())
                } else {
                    None
                }
            },
            _ => Some(kinds),
        },
    }
}

/// The kinds of the delimiters that are open after `tokens`, for those open
/// before them.
pub open spec fn nest(open: Option<Seq<DelimiterKind>>, tokens: Seq<TokenView>) -> Option<
    Seq<DelimiterKind>,
>
    decreases tokens.len(),
{
    if tokens.len() == 0 {
        open
    } else {
        nest_step(nest(open, tokens.drop_last()), tokens.last())
    }
}

/// Every closing delimiter closes the innermost open delimiter, which is of
/// its kind, and none stays open.
pub open spec fn properly_nested(tokens: Seq<TokenView>) -> bool {
    nest(Some(Seq::empty()), tokens) == Some(Seq::<DelimiterKind>::empty())
}

/// The number of number tokens.
pub open spec fn numbers(tokens: Seq<TokenView>) -> nat {
    tokens.filter(|t: TokenView| t is Number).len()
}

/// The number of operator tokens.
pub open spec fn operators(tokens: Seq<TokenView>) -> nat {
    tokens.filter(|t: TokenView| t is Operator).len()
}

/// The number of unsupported tokens.
pub open spec fn unsupported(tokens: Seq<TokenView>) -> nat {
    tokens.filter(|t: TokenView| t is Unsupported).len()
}

/// No token is a delimiter.
pub open spec fn free_of_delimiters(tokens: Seq<TokenView>) -> bool {
    forall|i: int| 0 <= i < tokens.len() ==> !(#[trigger] tokens[i]).is_delimiter()
}

/// The kinds of the opening delimiters on a stack, in their order.
pub open spec fn open_kinds(stack: Seq<Pending>) -> Seq<DelimiterKind>
    decreases stack.len(),
{
    if stack.len() == 0 {
        Seq::empty()
    } else {
        match stack.last() {
            Pending::Open(kind) => open_kinds(stack.drop_last()).push(kind),
            Pending::Operator(_) => open_kinds(stack.drop_last()),
        }
    }
}

/// The numbers, operators and unsupported tokens among `tokens`.
spec fn content(tokens: Seq<TokenView>) -> nat {
    numbers(tokens) + operators(tokens) + unsupported(tokens)
}

proof fn lemma_content_push(tokens: Seq<TokenView>, t: TokenView)
    ensures
        content(tokens.push(t)) == content(tokens) + (if t.is_delimiter() {
            0int
        } else {
            1int
        }),
{
    tokens.lemma_filter_push(t, |t: TokenView| t is Number);
    tokens.lemma_filter_push(t, |t: TokenView| t is Operator);
    tokens.lemma_filter_push(t, |t: TokenView| t is Unsupported);
}

proof fn lemma_close_group_nested(state: Shunt, kind: DelimiterKind)
    requires
        open_kinds(state.stack).len() > 0,
        open_kinds(state.stack).last() == kind,
        free_of_delimiters(state.output),
    ensures
        open_kinds(close_group(state, kind).stack) == open_kinds(state.stack).drop_last(),
        free_of_delimiters(close_group(state, kind).output),
        close_group(state, kind).output.len() + close_group(state, kind).stack.len()
            == state.output.len() + state.stack.len() - 1,
    decreases state.stack.len(),
{
    let below = open_kinds(state.stack.drop_last());
    match state.stack.last() {
        Pending::Open(k) => {
            assert(below.push(k).last() == k);
            assert(below.push(k).drop_last() == below);
        },
        Pending::Operator(_) => {
            lemma_close_group_nested(state.emit_top(), kind);
        },
    }
}

proof fn lemma_unwind_nested(state: Shunt, op: Operator, strict: bool)
    requires
        free_of_delimiters(state.output),
    ensures
        open_kinds(unwind(state, op, strict).stack) == open_kinds(state.stack),
        free_of_delimiters(unwind(state, op, strict).output),
        unwind(state, op, strict).output.len() + unwind(state, op, strict).stack.len()
            == state.output.len() + state.stack.len(),
    decreases state.stack.len(),
{
    if state.stack.len() > 0 && gives_way(state.stack.last(), op, strict) {
        lemma_unwind_nested(state.emit_top(), op, strict);
    }
}

proof fn lemma_drain_nested(state: Shunt)
    requires
        open_kinds(state.stack).len() == 0,
        free_of_delimiters(state.output),
    ensures
        free_of_delimiters(drain(state)),
        drain(state).len() == state.output.len() + state.stack.len(),
    decreases state.stack.len(),
{
    if state.stack.len() > 0 {
        lemma_drain_nested(state.emit_top());
    }
}

/// What a pass holds after tokens whose closing delimiters each closed the
/// innermost open delimiter: the opening delimiters on the stack are the open
/// ones, the output holds no delimiter, and stack and output together hold
/// each other token once.
proof fn lemma_run_nested(tokens: Seq<TokenView>, strict: bool)
    requires
        nest(Some(Seq::empty()), tokens) is Some,
    ensures
        open_kinds(run(tokens, strict).stack) == nest(Some(Seq::empty()), tokens)->0,
        free_of_delimiters(run(tokens, strict).output),
        run(tokens, strict).output.len() + run(tokens, strict).stack.len() == content(tokens)
            + open_kinds(run(tokens, strict).stack).len(),
    decreases tokens.len(),
{
    if tokens.len() == 0 {
        assert(content(tokens) == 0) by {
            assert(tokens.filter(|t: TokenView| t is Number).len() == 0) by {
                tokens.lemma_filter_len(|t: TokenView| t is Number);
            }
            assert(tokens.filter(|t: TokenView| t is Operator).len() == 0) by {
                tokens.lemma_filter_len(|t: TokenView| t is Operator);
            }
            assert(tokens.filter(|t: TokenView| t is Unsupported).len() == 0) by {
                tokens.lemma_filter_len(|t: TokenView| t is Unsupported);
            }
        }
    } else {
        let head = tokens.drop_last();
        let t = tokens.last();
        let before = run(head, strict);
        lemma_run_nested(head, strict);
        assert(tokens == head.push(t));
        lemma_content_push(head, t);
        match t {
            TokenView::CloseDelimiter(kind) => {
                lemma_close_group_nested(before, kind);
            },
            TokenView::Operator(op) => {
                lemma_unwind_nested(before, op, strict);
                let unwound = unwind(before, op, strict);
                assert(unwound.stack.push(Pending::Operator(op)).drop_last() == unwound.stack);
            },
            TokenView::OpenDelimiter(kind) => {
                assert(before.stack.push(Pending::Open(kind)).drop_last() == before.stack);
            },
            _ => {},
        }
    }
}

/// One pass over a properly nested sequence puts out every number, operator
/// and unsupported token, and nothing else.
pub proof fn lemma_shunted_size(tokens: Seq<TokenView>, strict: bool)
    requires
        properly_nested(tokens),
    ensures
        free_of_delimiters(shunted(tokens, strict)),
        shunted(tokens, strict).len() == numbers(tokens) + operators(tokens) + unsupported(
            tokens,
        ),
{
    lemma_run_nested(tokens, strict);
    lemma_drain_nested(run(tokens, strict));
}

proof fn lemma_nest_prepend(open: Option<Seq<DelimiterKind>>, t: TokenView, tokens: Seq<TokenView>)
    ensures
        nest(open, seq![t] + tokens) == nest(nest_step(open, t), tokens),
    decreases tokens.len(),
{
    let all = seq![t] + tokens;
    if tokens.len() == 0 {
        assert(all.drop_last() == Seq::<TokenView>::empty());
        assert(nest(open, all.drop_last()) == open);
    } else {
        assert(all.drop_last() == seq![t] + tokens.drop_last());
        assert(all.last() == tokens.last());
        lemma_nest_prepend(open, t, tokens.drop_last());
    }
}

proof fn lemma_mirror_push(tokens: Seq<TokenView>, t: TokenView)
    ensures
        mirror(tokens.push(t)) == seq![flip(t)] + mirror(tokens),
{
}

/// Read backwards with the delimiters flipped, tokens that lead from the open
/// delimiters `a` to `b` lead from `b` to `a`.
proof fn lemma_nest_mirror(a: Seq<DelimiterKind>, tokens: Seq<TokenView>)
    requires
        nest(Some(a), tokens) is Some,
    ensures
        nest(Some(nest(Some(a), tokens)->0), mirror(tokens)) == Some(a),
    decreases tokens.len(),
{
    if tokens.len() == 0 {
        assert(mirror(tokens) == Seq::<TokenView>::empty());
    } else {
        let head = tokens.drop_last();
        let t = tokens.last();
        let c = nest(Some(a), head)->0;
        let b = nest(Some(a), tokens)->0;
        assert(tokens == head.push(t));
        lemma_mirror_push(head, t);
        lemma_nest_prepend(Some(b), flip(t), mirror(head));
        lemma_nest_mirror(a, head);
        match t {
            TokenView::OpenDelimiter(kind) => {
                assert(c.push(kind).drop_last() == c);
            },
            TokenView::CloseDelimiter(kind) => {
                assert(c.drop_last().push(kind) == c);
            },
            _ => {},
        }
    }
}

/// A properly nested sequence is properly nested in its mirror image.
pub proof fn lemma_mirror_nested(tokens: Seq<TokenView>)
    requires
        properly_nested(tokens),
    ensures
        properly_nested(mirror(tokens)),
{
    lemma_nest_mirror(Seq::empty(), tokens);
}

proof fn lemma_mirror_count(tokens: Seq<TokenView>, p: spec_fn(TokenView) -> bool)
    requires
        forall|t: TokenView| p(flip(t)) == p(t),
    ensures
        mirror(tokens).filter(p).len() == tokens.filter(p).len(),
    decreases tokens.len(),
{
    if tokens.len() == 0 {
        assert(mirror(tokens) == tokens);
    } else {
        let head = tokens.drop_last();
        let t = tokens.last();
        assert(tokens == head.push(t));
        lemma_mirror_push(head, t);
        lemma_mirror_count(head, p);
        head.lemma_filter_push(t, p);
        mirror(head).lemma_filter_prepend(flip(t), p);
    }
}

/// A sequence and its mirror image hold the same numbers of numbers,
/// operators and unsupported tokens.
pub proof fn lemma_mirror_content(tokens: Seq<TokenView>)
    ensures
        numbers(mirror(tokens)) == numbers(tokens),
        operators(mirror(tokens)) == operators(tokens),
        unsupported(mirror(tokens)) == unsupported(tokens),
{
    lemma_mirror_count(tokens, |t: TokenView| t is Number);
    lemma_mirror_count(tokens, |t: TokenView| t is Operator);
    lemma_mirror_count(tokens, |t: TokenView| t is Unsupported);
}

/// The scan of validation lets no unsupported token pass.
proof fn lemma_scan_excludes_unsupported(tokens: Seq<TokenView>, from: int)
    requires
        0 <= from,
        first_violation(tokens, from) is None,
    ensures
        forall|i: int| from <= i < tokens.len() ==> !((#[trigger] tokens[i]) is Unsupported),
    decreases tokens.len() - from,
{
    if from < tokens.len() {
        assert(violation_at(tokens, from) is None);
        lemma_scan_excludes_unsupported(tokens, from + 1);
    }
}

/// A validated sequence holds no unsupported token.
pub proof fn lemma_validated_has_no_unsupported(tokens: Seq<TokenView>)
    requires
        validation_result(tokens) is Ok,
    ensures
        unsupported(tokens) == 0,
{
    lemma_scan_excludes_unsupported(tokens, 0);
    let p = |t: TokenView| t is Unsupported;
    assert(tokens.all(|t: TokenView| !p(t)));
    tokens.lemma_all_neg_filter_empty(p);
}

/// The prefix notation of a properly nested sequence holds every number,
/// operator and unsupported token, and nothing else.
pub proof fn lemma_prefix_size(tokens: Seq<TokenView>)
    requires
        properly_nested(tokens),
    ensures
        free_of_delimiters(prefix_of(tokens)),
        prefix_of(tokens).len() == numbers(tokens) + operators(tokens) + unsupported(tokens),
{
    lemma_mirror_nested(tokens);
    lemma_mirror_content(tokens);
    lemma_shunted_size(mirror(tokens), true);
    let forward = shunted(mirror(tokens), true);
    assert forall|i: int| 0 <= i < forward.reverse().len() implies !(
    #[trigger] forward.reverse()[i]).is_delimiter() by {
        assert(forward.reverse()[i] == forward[forward.len() - 1 - i]);
    }
}

/// The size of a conversion. For a validated sequence whose delimiters are
/// properly nested, the postfix and the prefix notation each hold as many
/// tokens as the sequence holds numbers and operators, and no delimiter.
pub proof fn lemma_conversion_size(tokens: Seq<TokenView>)
    requires
        validation_result(tokens) is Ok,
        properly_nested(tokens),
    ensures
        postfix_of(tokens).len() == numbers(tokens) + operators(tokens),
        free_of_delimiters(postfix_of(tokens)),
        prefix_of(tokens).len() == numbers(tokens) + operators(tokens),
        free_of_delimiters(prefix_of(tokens)),
{
    lemma_validated_has_no_unsupported(tokens);
    lemma_shunted_size(tokens, false);
    lemma_prefix_size(tokens);
}

/// The number of opening delimiters, of whatever kind.
pub open spec fn opens(tokens: Seq<TokenView>) -> nat {
    tokens.filter(|t: TokenView| t is OpenDelimiter).len()
}

/// The number of closing delimiters, of whatever kind.
pub open spec fn closes(tokens: Seq<TokenView>) -> nat {
    tokens.filter(|t: TokenView| t is CloseDelimiter).len()
}

/// No token is a closing delimiter.
pub open spec fn free_of_closing(tokens: Seq<TokenView>) -> bool {
    forall|i: int| 0 <= i < tokens.len() ==> !((#[trigger] tokens[i]) is CloseDelimiter)
}

proof fn lemma_opens_push(tokens: Seq<TokenView>, t: TokenView)
    ensures
        opens(tokens.push(t)) == opens(tokens) + (if t is OpenDelimiter {
            1int
        } else {
            0int
        }),
        closes(tokens.push(t)) == closes(tokens) + (if t is CloseDelimiter {
            1int
        } else {
            0int
        }),
{
    tokens.lemma_filter_push(t, |t: TokenView| t is OpenDelimiter);
    tokens.lemma_filter_push(t, |t: TokenView| t is CloseDelimiter);
}

proof fn lemma_opens_none(tokens: Seq<TokenView>)
    ensures
        opens(tokens) == 0 <==> forall|i: int|
            0 <= i < tokens.len() ==> !((#[trigger] tokens[i]) is OpenDelimiter),
    decreases tokens.len(),
{
    if tokens.len() == 0 {
        tokens.lemma_filter_len(|t: TokenView| t is OpenDelimiter);
    } else {
        let head = tokens.drop_last();
        lemma_opens_none(head);
        assert(tokens == head.push(tokens.last()));
        lemma_opens_push(head, tokens.last());
        assert forall|i: int| 0 <= i < head.len() implies head[i] == tokens[i] by {}
        if opens(tokens) == 0 {
            assert forall|i: int| 0 <= i < tokens.len() implies !((#[trigger] tokens[i])
                is OpenDelimiter) by {
                if i < head.len() {
                    assert(head[i] == tokens[i]);
                }
            }
        }
        if forall|i: int| 0 <= i < tokens.len() ==> !((#[trigger] tokens[i]) is OpenDelimiter) {
            assert forall|i: int| 0 <= i < head.len() implies !((#[trigger] head[i])
                is OpenDelimiter) by {
                assert(head[i] == tokens[i]);
            }
            assert(!(tokens[tokens.len() - 1] is OpenDelimiter));
        }
    }
}

proof fn lemma_opens_by_kind(tokens: Seq<TokenView>)
    ensures
        opens(tokens) == opened(tokens, DelimiterKind::Paren) + opened(
            tokens,
            DelimiterKind::Bracket,
        ) + opened(tokens, DelimiterKind::Brace),
        closes(tokens) == closed(tokens, DelimiterKind::Paren) + closed(
            tokens,
            DelimiterKind::Bracket,
        ) + closed(tokens, DelimiterKind::Brace),
    decreases tokens.len(),
{
    let paren = DelimiterKind::Paren;
    let bracket = DelimiterKind::Bracket;
    let brace = DelimiterKind::Brace;
    if tokens.len() == 0 {
        tokens.lemma_filter_len(|t: TokenView| t is OpenDelimiter);
        tokens.lemma_filter_len(|t: TokenView| t is CloseDelimiter);
        tokens.lemma_filter_len(|t: TokenView| t == TokenView::OpenDelimiter(paren));
        tokens.lemma_filter_len(|t: TokenView| t == TokenView::OpenDelimiter(bracket));
        tokens.lemma_filter_len(|t: TokenView| t == TokenView::OpenDelimiter(brace));
        tokens.lemma_filter_len(|t: TokenView| t == TokenView::CloseDelimiter(paren));
        tokens.lemma_filter_len(|t: TokenView| t == TokenView::CloseDelimiter(bracket));
        tokens.lemma_filter_len(|t: TokenView| t == TokenView::CloseDelimiter(brace));
    } else {
        let head = tokens.drop_last();
        let t = tokens.last();
        lemma_opens_by_kind(head);
        assert(tokens == head.push(t));
        lemma_opens_push(head, t);
        head.lemma_filter_push(t, |t: TokenView| t == TokenView::OpenDelimiter(paren));
        head.lemma_filter_push(t, |t: TokenView| t == TokenView::OpenDelimiter(bracket));
        head.lemma_filter_push(t, |t: TokenView| t == TokenView::OpenDelimiter(brace));
        head.lemma_filter_push(t, |t: TokenView| t == TokenView::CloseDelimiter(paren));
        head.lemma_filter_push(t, |t: TokenView| t == TokenView::CloseDelimiter(bracket));
        head.lemma_filter_push(t, |t: TokenView| t == TokenView::CloseDelimiter(brace));
    }
}

/// What moving the top of the stack to the output changes.
proof fn lemma_emit_top_census(state: Shunt)
    requires
        state.stack.len() > 0,
    ensures
        open_kinds(state.emit_top().stack).len() + opens(state.emit_top().output) == open_kinds(
            state.stack,
        ).len() + opens(state.output),
        free_of_closing(state.output) ==> free_of_closing(state.emit_top().output),
        free_of_delimiters(state.emit_top().output) ==> free_of_delimiters(state.output)
            && state.stack.last() is Operator,
        state.stack.last() is Operator ==> open_kinds(state.emit_top().stack) == open_kinds(
            state.stack,
        ) && opens(state.emit_top().output) == opens(state.output),
{
    let top = state.stack.last();
    let after = state.emit_top();
    lemma_opens_push(state.output, top.token());
    if free_of_delimiters(after.output) {
        assert forall|i: int| 0 <= i < state.output.len() implies !(
        #[trigger] state.output[i]).is_delimiter() by {
            assert(after.output[i] == state.output[i]);
        }
        assert(!after.output[state.output.len() as int].is_delimiter());
    }
}

/// What a closing delimiter changes. `gone` is the number of tokens removed:
/// one where an opening delimiter of the kind waited, none otherwise.
proof fn lemma_close_group_census(state: Shunt, kind: DelimiterKind)
    ensures
        ({
            let after = close_group(state, kind);
            let gone = state.output.len() + state.stack.len() - after.output.len()
                - after.stack.len();
            &&& 0 <= gone <= 1
            &&& open_kinds(after.stack).len() + opens(after.output) + gone == open_kinds(
                state.stack,
            ).len() + opens(state.output)
            &&& free_of_closing(state.output) ==> free_of_closing(after.output)
            &&& free_of_delimiters(after.output) ==> {
                &&& free_of_delimiters(state.output)
                &&& if open_kinds(state.stack).len() > 0 {
                    &&& open_kinds(state.stack).last() == kind
                    &&& open_kinds(after.stack) == open_kinds(state.stack).drop_last()
                    &&& gone == 1
                } else {
                    &&& open_kinds(after.stack).len() == 0
                    &&& gone == 0
                }
            }
        }),
    decreases state.stack.len(),
{
    if state.stack.len() == 0 {
    } else if state.stack.last() == Pending::Open(kind) {
        let below = open_kinds(state.stack.drop_last());
        assert(below.push(kind).drop_last() == below);
    } else {
        lemma_emit_top_census(state);
        lemma_close_group_census(state.emit_top(), kind);
    }
}

/// What an incoming operator changes before it waits itself.
proof fn lemma_unwind_census(state: Shunt, op: Operator, strict: bool)
    ensures
        open_kinds(unwind(state, op, strict).stack) == open_kinds(state.stack),
        opens(unwind(state, op, strict).output) == opens(state.output),
        unwind(state, op, strict).output.len() + unwind(state, op, strict).stack.len()
            == state.output.len() + state.stack.len(),
        free_of_closing(state.output) ==> free_of_closing(unwind(state, op, strict).output),
        free_of_delimiters(unwind(state, op, strict).output) ==> free_of_delimiters(state.output),
    decreases state.stack.len(),
{
    if state.stack.len() > 0 && gives_way(state.stack.last(), op, strict) {
        lemma_emit_top_census(state);
        lemma_unwind_census(state.emit_top(), op, strict);
    }
}

/// What the end of a pass changes.
proof fn lemma_drain_census(state: Shunt)
    ensures
        drain(state).len() == state.output.len() + state.stack.len(),
        opens(drain(state)) == opens(state.output) + open_kinds(state.stack).len(),
        free_of_closing(state.output) ==> free_of_closing(drain(state)),
        free_of_delimiters(drain(state)) ==> free_of_delimiters(state.output) && open_kinds(
            state.stack,
        ).len() == 0,
    decreases state.stack.len(),
{
    if state.stack.len() > 0 {
        lemma_emit_top_census(state);
        lemma_drain_census(state.emit_top());
    }
}

/// What a pass holds after any tokens. Stack and output hold every number,
/// operator and unsupported token once, and the opening delimiters that no
/// closing delimiter has removed; no more opening delimiters were removed than
/// closing ones came. Where every closing delimiter has removed one and none
/// has reached the output, each closed the innermost open delimiter.
proof fn lemma_run_census(tokens: Seq<TokenView>, strict: bool)
    ensures
        ({
            let state = run(tokens, strict);
            let waiting = open_kinds(state.stack).len();
            &&& free_of_closing(state.output)
            &&& state.output.len() + state.stack.len() == content(tokens) + waiting + opens(
                state.output,
            )
            &&& waiting + opens(state.output) <= opens(tokens)
            &&& opens(tokens) - waiting - opens(state.output) <= closes(tokens)
            &&& free_of_delimiters(state.output) && opens(tokens) - waiting == closes(tokens)
                ==> nest(Some(Seq::empty()), tokens) == Some(open_kinds(state.stack))
        }),
    decreases tokens.len(),
{
    if tokens.len() == 0 {
        tokens.lemma_filter_len(|t: TokenView| t is Number);
        tokens.lemma_filter_len(|t: TokenView| t is Operator);
        tokens.lemma_filter_len(|t: TokenView| t is Unsupported);
        tokens.lemma_filter_len(|t: TokenView| t is OpenDelimiter);
        tokens.lemma_filter_len(|t: TokenView| t is CloseDelimiter);
    } else {
        let head = tokens.drop_last();
        let t = tokens.last();
        let before = run(head, strict);
        let after = run(tokens, strict);
        lemma_run_census(head, strict);
        assert(tokens == head.push(t));
        lemma_content_push(head, t);
        lemma_opens_push(head, t);
        if free_of_delimiters(before.output) {
            lemma_opens_none(before.output);
        }
        if free_of_delimiters(after.output) {
            lemma_opens_none(after.output);
        }
        match t {
            TokenView::CloseDelimiter(kind) => {
                lemma_close_group_census(before, kind);
            },
            TokenView::Operator(op) => {
                lemma_unwind_census(before, op, strict);
                let unwound = unwind(before, op, strict);
                assert(unwound.stack.push(Pending::Operator(op)).drop_last() == unwound.stack);
            },
            TokenView::OpenDelimiter(kind) => {
                assert(before.stack.push(Pending::Open(kind)).drop_last() == before.stack);
            },
            _ => {
                lemma_opens_push(before.output, t);
                if free_of_delimiters(after.output) {
                    assert forall|i: int| 0 <= i < before.output.len() implies !(
                    #[trigger] before.output[i]).is_delimiter() by {
                        assert(after.output[i] == before.output[i]);
                    }
                }
            },
        }
    }
}

/// One pass puts out every number, operator and unsupported token once, each
/// opening delimiter at most once, and no closing delimiter.
pub proof fn lemma_shunted_census(tokens: Seq<TokenView>, strict: bool)
    ensures
        shunted(tokens, strict).len() == numbers(tokens) + operators(tokens) + unsupported(tokens)
            + opens(shunted(tokens, strict)),
        opens(shunted(tokens, strict)) <= opens(tokens),
        free_of_closing(shunted(tokens, strict)),
        free_of_delimiters(shunted(tokens, strict)) <==> opens(shunted(tokens, strict)) == 0,
{
    lemma_run_census(tokens, strict);
    lemma_drain_census(run(tokens, strict));
    lemma_opens_none(shunted(tokens, strict));
}

/// Where as many delimiters open as close, and one pass puts out no
/// delimiter, the delimiters are properly nested.
pub proof fn lemma_shunted_free_is_nested(tokens: Seq<TokenView>, strict: bool)
    requires
        opens(tokens) == closes(tokens),
        free_of_delimiters(shunted(tokens, strict)),
    ensures
        properly_nested(tokens),
{
    lemma_run_census(tokens, strict);
    lemma_drain_census(run(tokens, strict));
    assert(open_kinds(run(tokens, strict).stack) == Seq::<DelimiterKind>::empty());
}

proof fn lemma_mirror_mirror(tokens: Seq<TokenView>)
    ensures
        mirror(mirror(tokens)) == tokens,
{
    assert forall|i: int| 0 <= i < tokens.len() implies mirror(mirror(tokens))[i]
        == tokens[i] by {
        assert(flip(flip(tokens[i])) == tokens[i]);
    }
}

proof fn lemma_mirror_opens(tokens: Seq<TokenView>)
    ensures
        opens(mirror(tokens)) == closes(tokens),
        closes(mirror(tokens)) == opens(tokens),
    decreases tokens.len(),
{
    let is_open = |t: TokenView| t is OpenDelimiter;
    let is_close = |t: TokenView| t is CloseDelimiter;
    if tokens.len() == 0 {
        assert(mirror(tokens) == tokens);
        tokens.lemma_filter_len(is_open);
        tokens.lemma_filter_len(is_close);
    } else {
        let head = tokens.drop_last();
        let t = tokens.last();
        assert(tokens == head.push(t));
        lemma_mirror_push(head, t);
        lemma_mirror_opens(head);
        lemma_opens_push(head, t);
        mirror(head).lemma_filter_prepend(flip(t), is_open);
        mirror(head).lemma_filter_prepend(flip(t), is_close);
    }
}

/// The delimiters of a sequence whose kinds are balanced one by one open as
/// often as they close.
pub proof fn lemma_balanced_totals(tokens: Seq<TokenView>)
    requires
        all_balanced(tokens),
    ensures
        opens(tokens) == closes(tokens),
{
    lemma_opens_by_kind(tokens);
    assert(balanced(tokens, DelimiterKind::Paren));
    assert(balanced(tokens, DelimiterKind::Bracket));
    assert(balanced(tokens, DelimiterKind::Brace));
}

/// The number of open delimiters of `kind` among `kinds`.
spec fn open_of(kinds: Seq<DelimiterKind>, kind: DelimiterKind) -> nat
    decreases kinds.len(),
{
    if kinds.len() == 0 {
        0
    } else {
        open_of(kinds.drop_last(), kind) + (if kinds.last() == kind {
            1nat
        } else {
            0nat
        })
    }
}

proof fn lemma_nest_counts(tokens: Seq<TokenView>, kind: DelimiterKind)
    requires
        nest(Some(Seq::empty()), tokens) is Some,
    ensures
        opened(tokens, kind) == closed(tokens, kind) + open_of(
            nest(Some(Seq::empty()), tokens)->0,
            kind,
        ),
    decreases tokens.len(),
{
    let is_open = |t: TokenView| t == TokenView::OpenDelimiter(kind);
    let is_close = |t: TokenView| t == TokenView::CloseDelimiter(kind);
    if tokens.len() == 0 {
        tokens.lemma_filter_len(is_open);
        tokens.lemma_filter_len(is_close);
    } else {
        let head = tokens.drop_last();
        let t = tokens.last();
        let kinds = nest(Some(Seq::empty()), head)->0;
        lemma_nest_counts(head, kind);
        assert(tokens == head.push(t));
        head.lemma_filter_push(t, is_open);
        head.lemma_filter_push(t, is_close);
        if let TokenView::OpenDelimiter(k) = t {
            assert(kinds.push(k).drop_last() == kinds);
        }
    }
}

/// Properly nested delimiters are balanced, kind by kind.
pub proof fn lemma_nested_is_balanced(tokens: Seq<TokenView>)
    requires
        properly_nested(tokens),
    ensures
        all_balanced(tokens),
{
    assert forall|kind: DelimiterKind| balanced(tokens, kind) by {
        lemma_nest_counts(tokens, kind);
    }
}

/// Proper nesting is what the size of a conversion turns on. For a validated
/// sequence, each of these holds exactly when its delimiters are properly
/// nested: the postfix notation holds no delimiter; it holds as many tokens
/// as the sequence holds numbers and operators; and the same two of the
/// prefix notation.
pub proof fn lemma_conversion_size_iff_nested(tokens: Seq<TokenView>)
    requires
        validation_result(tokens) is Ok,
    ensures
        free_of_delimiters(postfix_of(tokens)) <==> properly_nested(tokens),
        postfix_of(tokens).len() == numbers(tokens) + operators(tokens) <==> properly_nested(
            tokens,
        ),
        free_of_delimiters(prefix_of(tokens)) <==> properly_nested(tokens),
        prefix_of(tokens).len() == numbers(tokens) + operators(tokens) <==> properly_nested(
            tokens,
        ),
{
    lemma_validated_has_no_unsupported(tokens);
    assert(all_balanced(tokens)) by {
        assert forall|kind: DelimiterKind| balanced(tokens, kind) by {
            match kind {
                DelimiterKind::Paren => {},
                DelimiterKind::Bracket => {},
                DelimiterKind::Brace => {},
            }
        }
    }
    lemma_balanced_totals(tokens);
    lemma_mirror_opens(tokens);
    lemma_mirror_content(tokens);
    lemma_mirror_mirror(tokens);
    let forward = shunted(mirror(tokens), true);
    lemma_shunted_census(tokens, false);
    lemma_shunted_census(mirror(tokens), true);
    if properly_nested(tokens) {
        lemma_conversion_size(tokens);
    }
    if free_of_delimiters(postfix_of(tokens)) {
        lemma_shunted_free_is_nested(tokens, false);
    }
    if free_of_delimiters(prefix_of(tokens)) || prefix_of(tokens).len() == numbers(tokens)
        + operators(tokens) {
        if !free_of_delimiters(forward) {
            let i = choose|i: int| 0 <= i < forward.len() && (#[trigger] forward[i]).is_delimiter();
            assert(forward.reverse()[forward.len() - 1 - i] == forward[i]);
        }
        lemma_shunted_free_is_nested(mirror(tokens), true);
        lemma_mirror_nested(mirror(tokens));
    }
}

} // verus!
