//! How operators bind.
//!
//! Of two operators in a row, `a op1 b op2 c`, the second takes `b` for
//! itself where it binds more tightly than the first; otherwise the first
//! takes it, so that operators of one strength group from the left.
//! Delimiters overrule the strengths: in `a op1 ( b op2 c )` the second
//! operator takes `b`, whatever the two are. Postfix and prefix notation show
//! the same grouping.

use crate::convert::{
    close_group, drain, gives_way, mirror, postfix_of, prefix_of, run, unwind, Pending, Shunt,
};
use crate::token::{DelimiterKind, Operator, TokenView};
use vstd::prelude::*;

verus! {

/// The tokens of `a op1 b op2 c`.
pub open spec fn two_operators(
    a: Seq<char>,
    op1: Operator,
    b: Seq<char>,
    op2: Operator,
    c: Seq<char>,
) -> Seq<TokenView> {
    seq![
        TokenView::Number(a),
        TokenView::Operator(op1),
        TokenView::Number(b),
        TokenView::Operator(op2),
        TokenView::Number(c),
    ]
}

/// What a pass puts out for an operand, an operator, an operand, an operator
/// and an operand: the operator on the stack has given way to the second one,
/// or it has not.
proof fn lemma_pass_two_operators(
    x: TokenView,
    first: Operator,
    y: TokenView,
    second: Operator,
    z: TokenView,
    strict: bool,
)
    requires
        x is Number,
        y is Number,
        z is Number,
    ensures
        drain(run(seq![x, TokenView::Operator(first), y, TokenView::Operator(second), z], strict))
            == if gives_way(Pending::Operator(first), second, strict) {
            seq![x, y, TokenView::Operator(first), z, TokenView::Operator(second)]
        } else {
            seq![x, y, z, TokenView::Operator(second), TokenView::Operator(first)]
        },
{
    let o1 = TokenView::Operator(first);
    let o2 = TokenView::Operator(second);
    let p1 = Pending::Operator(first);
    let p2 = Pending::Operator(second);
    let t5 = seq![x, o1, y, o2, z];
    let t4 = seq![x, o1, y, o2];
    let t3 = seq![x, o1, y];
    let t2 = seq![x, o1];
    let t1 = seq![x];
    let t0 = Seq::<TokenView>::empty();
    assert(t5.drop_last() == t4);
    assert(t4.drop_last() == t3);
    assert(t3.drop_last() == t2);
    assert(t2.drop_last() == t1);
    assert(t1.drop_last() == t0);
    reveal_with_fuel(unwind, 3);
    reveal_with_fuel(drain, 3);

    let s0 = run(t0, strict);
    assert(s0 == Shunt::start());
    let s1 = run(t1, strict);
    assert(s1.stack == Seq::<Pending>::empty());
    assert(s1.output == seq![x]);
    let s2 = run(t2, strict);
    assert(unwind(s1, first, strict) == s1);
    assert(s2.stack == seq![p1]);
    assert(s2.output == seq![x]);
    let s3 = run(t3, strict);
    assert(s3.stack == seq![p1]);
    assert(s3.output == seq![x, y]);
    let s4 = run(t4, strict);
    let s5 = run(t5, strict);
    assert(s3.stack.last() == p1);
    assert(s3.stack.drop_last() == Seq::<Pending>::empty());
    if gives_way(p1, second, strict) {
        let popped = s3.emit_top();
        assert(popped.stack == Seq::<Pending>::empty());
        assert(popped.output == seq![x, y, o1]);
        assert(unwind(s3, second, strict) == popped);
        assert(s4.stack == seq![p2]);
        assert(s4.output == seq![x, y, o1]);
        assert(s5.stack == seq![p2]);
        assert(s5.output == seq![x, y, o1, z]);
        assert(s5.stack.drop_last() == Seq::<Pending>::empty());
        let end = s5.emit_top();
        assert(end.output == seq![x, y, o1, z, o2]);
        assert(drain(s5) == end.output);
    } else {
        assert(unwind(s3, second, strict) == s3);
        assert(s4.stack == seq![p1, p2]);
        assert(s4.output == seq![x, y]);
        assert(s5.stack == seq![p1, p2]);
        assert(s5.output == seq![x, y, z]);
        let mid = s5.emit_top();
        assert(mid.stack == seq![p1]);
        assert(mid.output == seq![x, y, z, o2]);
        let end = mid.emit_top();
        assert(end.stack == Seq::<Pending>::empty());
        assert(end.output == seq![x, y, z, o2, o1]);
        assert(drain(mid) == end.output);
        assert(drain(s5) == drain(mid));
    }
}

/// Binding. In `a op1 b op2 c`, `op2` takes `b` and `c` where it binds more
/// tightly than `op1`, and `op1` takes `a` and `b` otherwise: the postfix
/// notation is `a b c op2 op1` in the first case and `a b op1 c op2` in the
/// second, and the prefix notation is `op1 a op2 b c` in the first case and
/// `op2 op1 a b c` in the second.
pub proof fn lemma_binding(a: Seq<char>, op1: Operator, b: Seq<char>, op2: Operator, c: Seq<char>)
    ensures
        postfix_of(two_operators(a, op1, b, op2, c)) == if op2.spec_precedence()
            > op1.spec_precedence() {
            seq![
                TokenView::Number(a),
                TokenView::Number(b),
                TokenView::Number(c),
                TokenView::Operator(op2),
                TokenView::Operator(op1),
            ]
        } else {
            seq![
                TokenView::Number(a),
                TokenView::Number(b),
                TokenView::Operator(op1),
                TokenView::Number(c),
                TokenView::Operator(op2),
            ]
        },
        prefix_of(two_operators(a, op1, b, op2, c)) == if op2.spec_precedence()
            > op1.spec_precedence() {
            seq![
                TokenView::Operator(op1),
                TokenView::Number(a),
                TokenView::Operator(op2),
                TokenView::Number(b),
                TokenView::Number(c),
            ]
        } else {
            seq![
                TokenView::Operator(op2),
                TokenView::Operator(op1),
                TokenView::Number(a),
                TokenView::Number(b),
                TokenView::Number(c),
            ]
        },
{
    let na = TokenView::Number(a);
    let nb = TokenView::Number(b);
    let nc = TokenView::Number(c);
    let o1 = TokenView::Operator(op1);
    let o2 = TokenView::Operator(op2);
    let tokens = two_operators(a, op1, b, op2, c);
    lemma_pass_two_operators(na, op1, nb, op2, nc, false);
    assert(mirror(tokens) == seq![nc, o2, nb, o1, na]);
    lemma_pass_two_operators(nc, op2, nb, op1, na, true);
    if op2.spec_precedence() > op1.spec_precedence() {
        assert(seq![nc, nb, o2, na, o1].reverse() == seq![o1, na, o2, nb, nc]);
    } else {
        assert(seq![nc, nb, na, o1, o2].reverse() == seq![o2, o1, na, nb, nc]);
    }
}

/// The tokens of `a op1 ( b op2 c )`, with delimiters of `kind`.
pub open spec fn grouped_right(
    a: Seq<char>,
    op1: Operator,
    kind: DelimiterKind,
    b: Seq<char>,
    op2: Operator,
    c: Seq<char>,
) -> Seq<TokenView> {
    seq![
        TokenView::Number(a),
        TokenView::Operator(op1),
        TokenView::OpenDelimiter(kind),
        TokenView::Number(b),
        TokenView::Operator(op2),
        TokenView::Number(c),
        TokenView::CloseDelimiter(kind),
    ]
}

/// An opening delimiter gives way to no operator.
proof fn lemma_open_stays(kind: DelimiterKind, op: Operator, strict: bool)
    ensures
        !gives_way(Pending::Open(kind), op, strict),
{
}

/// A pass over `x first ( y second z )`.
proof fn lemma_pass_group_last(
    x: TokenView,
    first: Operator,
    kind: DelimiterKind,
    y: TokenView,
    second: Operator,
    z: TokenView,
    strict: bool,
)
    requires
        x is Number,
        y is Number,
        z is Number,
    ensures
        drain(
            run(
                seq![
                    x,
                    TokenView::Operator(first),
                    TokenView::OpenDelimiter(kind),
                    y,
                    TokenView::Operator(second),
                    z,
                    TokenView::CloseDelimiter(kind),
                ],
                strict,
            ),
        ) == seq![x, y, z, TokenView::Operator(second), TokenView::Operator(first)],
{
    let o1 = TokenView::Operator(first);
    let o2 = TokenView::Operator(second);
    let open = TokenView::OpenDelimiter(kind);
    let close = TokenView::CloseDelimiter(kind);
    let p1 = Pending::Operator(first);
    let p2 = Pending::Operator(second);
    let po = Pending::Open(kind);
    let t7 = seq![x, o1, open, y, o2, z, close];
    let t6 = seq![x, o1, open, y, o2, z];
    let t5 = seq![x, o1, open, y, o2];
    let t4 = seq![x, o1, open, y];
    let t3 = seq![x, o1, open];
    let t2 = seq![x, o1];
    let t1 = seq![x];
    let t0 = Seq::<TokenView>::empty();
    assert(t7.drop_last() == t6);
    assert(t6.drop_last() == t5);
    assert(t5.drop_last() == t4);
    assert(t4.drop_last() == t3);
    assert(t3.drop_last() == t2);
    assert(t2.drop_last() == t1);
    assert(t1.drop_last() == t0);
    reveal_with_fuel(unwind, 2);
    reveal_with_fuel(close_group, 3);
    reveal_with_fuel(drain, 2);
    lemma_open_stays(kind, second, strict);

    assert(run(t0, strict) == Shunt::start());
    let s1 = run(t1, strict);
    assert(s1.stack == Seq::<Pending>::empty());
    assert(s1.output == seq![x]);
    let s2 = run(t2, strict);
    assert(s2.stack == seq![p1]);
    assert(s2.output == seq![x]);
    let s3 = run(t3, strict);
    assert(s3.stack == seq![p1, po]);
    assert(s3.output == seq![x]);
    let s4 = run(t4, strict);
    assert(s4.stack == seq![p1, po]);
    assert(s4.output == seq![x, y]);
    let s5 = run(t5, strict);
    assert(unwind(s4, second, strict) == s4);
    assert(s5.stack == seq![p1, po, p2]);
    assert(s5.output == seq![x, y]);
    let s6 = run(t6, strict);
    assert(s6.stack == seq![p1, po, p2]);
    assert(s6.output == seq![x, y, z]);
    let s7 = run(t7, strict);
    let emitted = s6.emit_top();
    assert(emitted.stack == seq![p1, po]);
    assert(emitted.output == seq![x, y, z, o2]);
    assert(emitted.stack.drop_last() == seq![p1]);
    assert(close_group(emitted, kind) == Shunt::new(seq![p1], seq![x, y, z, o2]));
    assert(s7 == close_group(s6, kind));
    assert(s7.stack == seq![p1]);
    assert(s7.output == seq![x, y, z, o2]);
    let end = s7.emit_top();
    assert(end.stack == Seq::<Pending>::empty());
    assert(end.output == seq![x, y, z, o2, o1]);
}

/// A pass over `( x first y ) second z`.
proof fn lemma_pass_group_first(
    kind: DelimiterKind,
    x: TokenView,
    first: Operator,
    y: TokenView,
    second: Operator,
    z: TokenView,
    strict: bool,
)
    requires
        x is Number,
        y is Number,
        z is Number,
    ensures
        drain(
            run(
                seq![
                    TokenView::OpenDelimiter(kind),
                    x,
                    TokenView::Operator(first),
                    y,
                    TokenView::CloseDelimiter(kind),
                    TokenView::Operator(second),
                    z,
                ],
                strict,
            ),
        ) == seq![x, y, TokenView::Operator(first), z, TokenView::Operator(second)],
{
    let o1 = TokenView::Operator(first);
    let o2 = TokenView::Operator(second);
    let open = TokenView::OpenDelimiter(kind);
    let close = TokenView::CloseDelimiter(kind);
    let p1 = Pending::Operator(first);
    let p2 = Pending::Operator(second);
    let po = Pending::Open(kind);
    let t7 = seq![open, x, o1, y, close, o2, z];
    let t6 = seq![open, x, o1, y, close, o2];
    let t5 = seq![open, x, o1, y, close];
    let t4 = seq![open, x, o1, y];
    let t3 = seq![open, x, o1];
    let t2 = seq![open, x];
    let t1 = seq![open];
    let t0 = Seq::<TokenView>::empty();
    assert(t7.drop_last() == t6);
    assert(t6.drop_last() == t5);
    assert(t5.drop_last() == t4);
    assert(t4.drop_last() == t3);
    assert(t3.drop_last() == t2);
    assert(t2.drop_last() == t1);
    assert(t1.drop_last() == t0);
    reveal_with_fuel(unwind, 2);
    reveal_with_fuel(close_group, 3);
    reveal_with_fuel(drain, 2);
    lemma_open_stays(kind, first, strict);

    assert(run(t0, strict) == Shunt::start());
    let s1 = run(t1, strict);
    assert(s1.stack == seq![po]);
    assert(s1.output == Seq::<TokenView>::empty());
    let s2 = run(t2, strict);
    assert(s2.stack == seq![po]);
    assert(s2.output == seq![x]);
    let s3 = run(t3, strict);
    assert(unwind(s2, first, strict) == s2);
    assert(s3.stack == seq![po, p1]);
    assert(s3.output == seq![x]);
    let s4 = run(t4, strict);
    assert(s4.stack == seq![po, p1]);
    assert(s4.output == seq![x, y]);
    let s5 = run(t5, strict);
    let emitted = s4.emit_top();
    assert(emitted.stack == seq![po]);
    assert(emitted.output == seq![x, y, o1]);
    assert(emitted.stack.drop_last() == Seq::<Pending>::empty());
    assert(close_group(emitted, kind) == Shunt::new(Seq::empty(), seq![x, y, o1]));
    assert(s5 == close_group(s4, kind));
    assert(s5.stack == Seq::<Pending>::empty());
    assert(s5.output == seq![x, y, o1]);
    let s6 = run(t6, strict);
    assert(unwind(s5, second, strict) == s5);
    assert(s6.stack == seq![p2]);
    assert(s6.output == seq![x, y, o1]);
    let s7 = run(t7, strict);
    assert(s7.stack == seq![p2]);
    assert(s7.output == seq![x, y, o1, z]);
    let end = s7.emit_top();
    assert(end.stack == Seq::<Pending>::empty());
    assert(end.output == seq![x, y, o1, z, o2]);
}

/// Grouping. In `a op1 ( b op2 c )`, `op2` takes `b` and `c`, whatever the
/// operators are and whichever kind the delimiters have: the postfix notation
/// is `a b c op2 op1` and the prefix notation is `op1 a op2 b c`.
pub proof fn lemma_grouping(
    a: Seq<char>,
    op1: Operator,
    kind: DelimiterKind,
    b: Seq<char>,
    op2: Operator,
    c: Seq<char>,
)
    ensures
        postfix_of(grouped_right(a, op1, kind, b, op2, c)) == seq![
            TokenView::Number(a),
            TokenView::Number(b),
            TokenView::Number(c),
            TokenView::Operator(op2),
            TokenView::Operator(op1),
        ],
        prefix_of(grouped_right(a, op1, kind, b, op2, c)) == seq![
            TokenView::Operator(op1),
            TokenView::Number(a),
            TokenView::Operator(op2),
            TokenView::Number(b),
            TokenView::Number(c),
        ],
{
    let na = TokenView::Number(a);
    let nb = TokenView::Number(b);
    let nc = TokenView::Number(c);
    let o1 = TokenView::Operator(op1);
    let o2 = TokenView::Operator(op2);
    let open = TokenView::OpenDelimiter(kind);
    let close = TokenView::CloseDelimiter(kind);
    let tokens = grouped_right(a, op1, kind, b, op2, c);
    lemma_pass_group_last(na, op1, kind, nb, op2, nc, false);
    assert(mirror(tokens) == seq![open, nc, o2, nb, close, o1, na]);
    lemma_pass_group_first(kind, nc, op2, nb, op1, na, true);
    assert(seq![nc, nb, o2, na, o1].reverse() == seq![o1, na, o2, nb, nc]);
}

} // verus!
