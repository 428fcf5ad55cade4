//! Conversion of an infix token sequence to postfix and to prefix notation.
//!
//! Both go through one pass with an operator stack and an output queue.
//! Numbers go to the output as they come. An opening delimiter waits on the
//! stack. A closing delimiter moves what waits above the nearest opening
//! delimiter of its kind to the output and removes that delimiter; where none
//! of its kind waits, it moves all that waits and removes nothing. An operator
//! first moves to the output the operators on top of the stack that bind at
//! least as tightly (postfix) or more tightly (prefix), and then waits itself.
//! At the end all that waits moves to the output, top first.
//!
//! The pass is defined on every token sequence. An unsupported token goes to
//! the output like a number.

use crate::nesting::{
    free_of_delimiters, lemma_prefix_size, lemma_shunted_size, numbers, operators,
    properly_nested, unsupported,
};
use crate::token::{DelimiterKind, Operator, Token, TokenView};
use vstd::prelude::*;

verus! {

/// What waits on the operator stack: an operator or an opening delimiter.
#[derive(Clone, Copy, Debug, PartialEq, Eq, Structural)]
pub enum Pending {
    Operator(Operator),
    Open(DelimiterKind),
}

impl Pending {
    /// An operator's binding strength; 0 for a delimiter, which therefore
    /// never gives way to an operator.
    pub open spec fn spec_precedence(self) -> u8 {
        match self {
            Pending::Operator(op) => op.spec_precedence(),
            Pending::Open(_) => 0u8,
        }
    }

    #[verifier::when_used_as_spec(spec_precedence)]
    pub fn precedence(self) -> (p: u8)
        ensures
            p == self.spec_precedence(),
    {
        match self {
            Pending::Operator(op) => op.precedence(),
            Pending::Open(_) => 0,
        }
    }

    /// The token that waits.
    pub open spec fn token(self) -> TokenView {
        match self {
            Pending::Operator(op) => TokenView::Operator(op),
            Pending::Open(kind) => TokenView::OpenDelimiter(kind),
        }
    }

    pub fn to_token(self) -> (t: Token)
        ensures
            t@ == self.token(),
    {
        match self {
            Pending::Operator(op) => Token::Operator(op),
            Pending::Open(kind) => Token::OpenDelimiter(kind),
        }
    }
}

/// The state of a pass: the operator stack, top last, and the output queue.
pub struct Shunt {
    pub stack: Seq<Pending>,
    pub output: Seq<TokenView>,
}

impl Shunt {
    pub open spec fn new(stack: Seq<Pending>, output: Seq<TokenView>) -> Shunt {
        Shunt { stack, output }
    }

    pub open spec fn start() -> Shunt {
        Shunt { stack: Seq::empty(), output: Seq::empty() }
    }

    /// The state after the top of the stack has moved to the output.
    pub open spec fn emit_top(self) -> Shunt
        recommends
            self.stack.len() > 0,
    {
        Shunt { stack: self.stack.drop_last(), output: self.output.push(self.stack.last().token()) }
    }
}

/// Whether `top` moves to the output before the operator `op` is put on the
/// stack: with `strict`, where it binds more tightly than `op`; without, where
/// it binds at least as tightly.
pub open spec fn gives_way(top: Pending, op: Operator, strict: bool) -> bool {
    if strict {
        top.spec_precedence() > op.spec_precedence()
    } else {
        top.spec_precedence() >= op.spec_precedence()
    }
}

/// The state after a closing delimiter of `kind`.
pub open spec fn close_group(state: Shunt, kind: DelimiterKind) -> Shunt
    decreases state.stack.len(),
{
    if state.stack.len() == 0 {
        state
    } else if state.stack.last() == Pending::Open(kind) {
        Shunt { stack: state.stack.drop_last(), output: state.output }
    } else {
        close_group(state.emit_top(), kind)
    }
}

/// The state after all that gives way to `op` has moved to the output.
pub open spec fn unwind(state: Shunt, op: Operator, strict: bool) -> Shunt
    decreases state.stack.len(),
{
    if state.stack.len() > 0 && gives_way(state.stack.last(), op, strict) {
        unwind(state.emit_top(), op, strict)
    } else {
        state
    }
}

/// The state after one more token.
pub open spec fn step(state: Shunt, token: TokenView, strict: bool) -> Shunt {
    match token {
        TokenView::Number(_) | TokenView::Unsupported(_) => {
            Shunt { stack: state.stack, output: state.output.push(token) }
        },
        TokenView::OpenDelimiter(kind) => {
            Shunt { stack: state.stack.push(Pending::Open(kind)), output: state.output }
        },
        TokenView::CloseDelimiter(kind) => close_group(state, kind),
        TokenView::Operator(op) => {
            let unwound = unwind(state, op, strict);
            Shunt { stack: unwound.stack.push(Pending::Operator(op)), output: unwound.output }
        },
    }
}

/// The state after `tokens`.
pub open spec fn run(tokens: Seq<TokenView>, strict: bool) -> Shunt
    decreases tokens.len(),
{
    if tokens.len() == 0 {
        Shunt::start()
    } else {
        step(run(tokens.drop_last(), strict), tokens.last(), strict)
    }
}

/// The output once all that waits has moved to it, top first.
pub open spec fn drain(state: Shunt) -> Seq<TokenView>
    decreases state.stack.len(),
{
    if state.stack.len() == 0 {
        state.output
    } else {
        drain(state.emit_top())
    }
}

/// What one pass over `tokens` puts out.
pub open spec fn shunted(tokens: Seq<TokenView>, strict: bool) -> Seq<TokenView> {
    drain(run(tokens, strict))
}

/// An opening delimiter for a closing one of its kind and the reverse; any
/// other token as it is.
pub open spec fn flip(token: TokenView) -> TokenView {
    match token {
        TokenView::OpenDelimiter(kind) => TokenView::CloseDelimiter(kind),
        TokenView::CloseDelimiter(kind) => TokenView::OpenDelimiter(kind),
        _ => token,
    }
}

/// `tokens` read from right to left, with every delimiter flipped.
pub open spec fn mirror(tokens: Seq<TokenView>) -> Seq<TokenView> {
    Seq::new(tokens.len(), |i: int| flip(tokens[tokens.len() - 1 - i]))
}

/// The postfix notation of `tokens`.
pub open spec fn postfix_of(tokens: Seq<TokenView>) -> Seq<TokenView> {
    shunted(tokens, false)
}

/// The prefix notation of `tokens`.
pub open spec fn prefix_of(tokens: Seq<TokenView>) -> Seq<TokenView> {
    shunted(mirror(tokens), true).reverse()
}

/// One pass over `tokens`: the operator stack and the output queue of the
/// shunting yard. `strict` picks the rule by which a waiting operator gives
/// way to an incoming one: only where it binds more tightly (`true`), or also
/// where it binds as tightly (`false`).
pub fn shunting_yard(tokens: &[Token], strict: bool) -> (out: Vec<Token>)
    ensures
        out.deep_view() == shunted(tokens.deep_view(), strict),
        properly_nested(tokens.deep_view()) ==> free_of_delimiters(out.deep_view()) && out.len()
            == numbers(tokens.deep_view()) + operators(tokens.deep_view()) + unsupported(
            tokens.deep_view(),
        ),
{
    let ghost view = tokens.deep_view();
    let n = tokens.len();
    let mut output: Vec<Token> = Vec::new();
    let mut stack: Vec<Pending> = Vec::new();
    let mut i: usize = 0;
    proof {
        assert(output.deep_view() == Seq::<TokenView>::empty());
        assert(view.take(0) == Seq::<TokenView>::empty());
    }
    while i < n
        invariant
            n == tokens.len(),
            view == tokens.deep_view(),
            i <= n,
            Shunt::new(stack@, output.deep_view()) == run(view.take(i as int), strict),
        decreases n - i,
    {
        let ghost before = Shunt::new(stack@, output.deep_view());
        let token = &tokens[i];
        proof {
            assert(view[i as int] == token@);
            assert(view.take(i + 1).drop_last() == view.take(i as int));
            assert(view.take(i + 1).last() == token@);
        }
        match token {
            Token::Number(_) | Token::Unsupported(_) => {
                let ghost queued = output.deep_view();
                output.push(token.clone());
                assert(output.deep_view() == queued.push(token@));
            },
            Token::OpenDelimiter(kind) => {
                stack.push(Pending::Open(*kind));
            },
            Token::CloseDelimiter(kind) => {
                while stack.len() > 0 && !is_open_of(stack[stack.len() - 1], *kind)
                    invariant
                        close_group(Shunt::new(stack@, output.deep_view()), *kind)
                            == close_group(before, *kind),
                    decreases stack.len(),
                {
                    let ghost queued = output.deep_view();
                    let top = stack.pop().unwrap();
                    output.push(top.to_token());
                    assert(output.deep_view() == queued.push(top.token()));
                }
                if stack.len() > 0 {
                    stack.pop();
                }
            },
            Token::Operator(op) => {
                while stack.len() > 0 && yields(stack[stack.len() - 1], *op, strict)
                    invariant
                        unwind(Shunt::new(stack@, output.deep_view()), *op, strict)
                            == unwind(before, *op, strict),
                    decreases stack.len(),
                {
                    let ghost queued = output.deep_view();
                    let top = stack.pop().unwrap();
                    output.push(top.to_token());
                    assert(output.deep_view() == queued.push(top.token()));
                }
                stack.push(Pending::Operator(*op));
            },
        }
        i += 1;
    }
    assert(view.take(n as int) == view);
    while stack.len() > 0
        invariant
            drain(Shunt::new(stack@, output.deep_view())) == shunted(view, strict),
        decreases stack.len(),
    {
        let ghost queued = output.deep_view();
        let top = stack.pop().unwrap();
        output.push(top.to_token());
        assert(output.deep_view() == queued.push(top.token()));
    }
    proof {
        if properly_nested(view) {
            lemma_shunted_size(view, strict);
        }
    }
    output
}

fn is_open_of(top: Pending, kind: DelimiterKind) -> (r: bool)
    ensures
        r == (top == Pending::Open(kind)),
{
    top == Pending::Open(kind)
}

fn yields(top: Pending, op: Operator, strict: bool) -> (r: bool)
    ensures
        r == gives_way(top, op, strict),
{
    if strict {
        top.precedence() > op.precedence()
    } else {
        top.precedence() >= op.precedence()
    }
}

/// The token with an opening delimiter for a closing one and the reverse.
fn flipped(token: &Token) -> (t: Token)
    ensures
        t@ == flip(token@),
{
    match token {
        Token::OpenDelimiter(kind) => Token::CloseDelimiter(*kind),
        Token::CloseDelimiter(kind) => Token::OpenDelimiter(*kind),
        _ => token.clone(),
    }
}

/// Converts an infix token sequence to postfix notation. An operator on the
/// stack gives way to an incoming one that binds no more tightly, so
/// operators of one strength group from the left. Where the delimiters are
/// properly nested, the output holds the numbers and the operators (and the
/// unsupported tokens, if there are any) and no delimiter.
pub fn to_postfix(tokens: &[Token]) -> (out: Vec<Token>)
    ensures
        out.deep_view() == postfix_of(tokens.deep_view()),
        properly_nested(tokens.deep_view()) ==> free_of_delimiters(out.deep_view()) && out.len()
            == numbers(tokens.deep_view()) + operators(tokens.deep_view()) + unsupported(
            tokens.deep_view(),
        ),
{
    shunting_yard(tokens, false)
}

/// Converts an infix token sequence to prefix notation: one pass over the
/// mirrored sequence, in which an operator on the stack gives way only to an
/// incoming one that binds less tightly, and the output read backwards. Where
/// the delimiters are properly nested, the output holds the numbers and the
/// operators (and the unsupported tokens, if there are any) and no delimiter.
pub fn to_prefix(tokens: &[Token]) -> (out: Vec<Token>)
    ensures
        out.deep_view() == prefix_of(tokens.deep_view()),
        properly_nested(tokens.deep_view()) ==> free_of_delimiters(out.deep_view()) && out.len()
            == numbers(tokens.deep_view()) + operators(tokens.deep_view()) + unsupported(
            tokens.deep_view(),
        ),
{
    let ghost view = tokens.deep_view();
    let n = tokens.len();
    let mut mirrored: Vec<Token> = Vec::new();
    let mut i: usize = 0;
    while i < n
        invariant
            n == tokens.len(),
            view == tokens.deep_view(),
            i <= n,
            mirrored.deep_view() == mirror(view).take(i as int),
        decreases n - i,
    {
        let ghost done = mirrored.deep_view();
        let t = flipped(&tokens[n - 1 - i]);
        let ghost tv = t@;
        mirrored.push(t);
        proof {
            assert(mirrored.deep_view() == done.push(tv));
            assert(tv == mirror(view)[i as int]);
            assert(mirror(view).take(i + 1) == mirror(view).take(i as int).push(tv));
        }
        i += 1;
    }
    assert(mirror(view).take(n as int) == mirror(view));
    let mut passed = shunting_yard(&mirrored, true);
    let ghost forward = passed.deep_view();
    let mut out: Vec<Token> = Vec::new();
    while passed.len() > 0
        invariant
            passed.len() <= forward.len(),
            passed.deep_view() == forward.take(passed.len() as int),
            out.deep_view() == forward.reverse().take(forward.len() - passed.len()),
        decreases passed.len(),
    {
        let ghost done = out.deep_view();
        let ghost left = passed.len();
        let ghost held = passed.deep_view();
        let t = passed.pop().unwrap();
        let ghost tv = t@;
        out.push(t);
        proof {
            assert(held[left - 1] == tv);
            assert(tv == forward[left - 1]);
            assert(out.deep_view() == done.push(tv));
            assert(passed.deep_view() == forward.take(left - 1));
            assert(forward.reverse().take(forward.len() - left + 1) == forward.reverse().take(
                forward.len() - left,
            ).push(tv));
        }
    }
    proof {
        assert(forward.reverse().take(forward.len() as int) == forward.reverse());
        if properly_nested(view) {
            lemma_prefix_size(view);
        }
    }
    out
}

} // verus!
