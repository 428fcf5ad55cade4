//! Structural validation of a token sequence.
//!
//! One scan from left to right reports the first unsupported token or the
//! first operator that follows another operator directly. Only a sequence
//! that passes the scan is then held to the balance of its delimiters: for
//! each kind, as many opening as closing ones. The balance is one of counts:
//! it does not ask that the delimiters are nested in one another.

use crate::lexer::{classify_lexeme, lexeme_tokens};
use crate::token::{DelimiterKind, Operator, Token, TokenView};
use vstd::prelude::*;

verus! {

/// Why a token sequence was rejected.
#[derive(Clone, Debug, PartialEq, Eq)]
pub enum ValidationError {
    /// The token at index `at` is no number, operator or delimiter.
    UnsupportedLexeme { at: usize, lexeme: String },
    /// The operator `lexeme` at index `at` follows another operator directly.
    /// `after_root` tells that the operator before it is the root sign.
    MissingOperandOrDuplicateOperator { at: usize, lexeme: String, after_root: bool },
    /// The opening and closing delimiters of `kind` differ in number.
    UnclosedDelimiter { kind: DelimiterKind },
}

/// A [`ValidationError`] with its lexeme as a sequence of characters.
pub enum ValidationErrorView {
    UnsupportedLexeme { at: nat, lexeme: Seq<char> },
    MissingOperandOrDuplicateOperator { at: nat, lexeme: Seq<char>, after_root: bool },
    UnclosedDelimiter { kind: DelimiterKind },
}

impl View for ValidationError {
    type V = ValidationErrorView;

    open spec fn view(&self) -> ValidationErrorView {
        match self {
            ValidationError::UnsupportedLexeme { at, lexeme } => {
                ValidationErrorView::UnsupportedLexeme { at: *at as nat, lexeme: lexeme@ }
            },
            ValidationError::MissingOperandOrDuplicateOperator { at, lexeme, after_root } => {
                ValidationErrorView::MissingOperandOrDuplicateOperator {
                    at: *at as nat,
                    lexeme: lexeme@,
                    after_root: *after_root,
                }
            },
            ValidationError::UnclosedDelimiter { kind } => {
                ValidationErrorView::UnclosedDelimiter { kind: *kind }
            },
        }
    }
}

impl ValidationErrorView {
    /// The error in words. After the root sign the message also asks for the
    /// notation `n√x`, in which the root always has two operands.
    pub open spec fn message(self) -> Seq<char> {
        match self {
            ValidationErrorView::UnsupportedLexeme { at, lexeme } => {
                "unsupported lexeme: "@ + lexeme
            },
            ValidationErrorView::MissingOperandOrDuplicateOperator { at, lexeme, after_root } => {
                if after_root {
                    "missing operand, or duplicated operator, at "@ + lexeme
                        + ". Please use n√x notation, where n, x ∈ ℕ. 2√x for square root.\n"@
                } else {
                    "missing operand, or duplicated operator, at "@ + lexeme
                }
            },
            ValidationErrorView::UnclosedDelimiter { kind } => "unclosed delimiter"@,
        }
    }
}

impl ValidationError {
    /// The error in words.
    pub fn message(&self) -> (text: String)
        ensures
            text@ == self@.message(),
    {
        match self {
            ValidationError::UnsupportedLexeme { at, lexeme } => {
                let mut text = String::from_str("unsupported lexeme: ");
                text.append(lexeme.as_str());
                text
            },
            ValidationError::MissingOperandOrDuplicateOperator { at, lexeme, after_root } => {
                let mut text = String::from_str("missing operand, or duplicated operator, at ");
                text.append(lexeme.as_str());
                if *after_root {
                    text.append(
                        ". Please use n√x notation, where n, x ∈ ℕ. 2√x for square root.\n",
                    );
                }
                text
            },
            ValidationError::UnclosedDelimiter { kind } => String::from_str("unclosed delimiter"),
        }
    }
}

/// The number of opening delimiters of `kind` among `tokens`.
pub open spec fn opened(tokens: Seq<TokenView>, kind: DelimiterKind) -> nat {
    tokens.filter(|t: TokenView| t == TokenView::OpenDelimiter(kind)).len()
}

/// The number of closing delimiters of `kind` among `tokens`.
pub open spec fn closed(tokens: Seq<TokenView>, kind: DelimiterKind) -> nat {
    tokens.filter(|t: TokenView| t == TokenView::CloseDelimiter(kind)).len()
}

/// As many opening as closing delimiters of `kind`.
pub open spec fn balanced(tokens: Seq<TokenView>, kind: DelimiterKind) -> bool {
    opened(tokens, kind) == closed(tokens, kind)
}

/// The first kind, in the order parenthesis, bracket, brace, whose delimiters
/// are not balanced.
pub open spec fn first_unbalanced(tokens: Seq<TokenView>) -> Option<DelimiterKind> {
    if !balanced(tokens, DelimiterKind::Paren) {
        Some(DelimiterKind::Paren)
    } else if !balanced(tokens, DelimiterKind::Bracket) {
        Some(DelimiterKind::Bracket)
    } else if !balanced(tokens, DelimiterKind::Brace) {
        Some(DelimiterKind::Brace)
    } else {
        None
    }
}

/// What the scan finds when it stands at index `i`: an operator followed by an
/// operator, or else an unsupported token.
pub open spec fn violation_at(tokens: Seq<TokenView>, i: int) -> Option<ValidationErrorView>
    recommends
        0 <= i < tokens.len(),
{
    if tokens[i] is Operator && i + 1 < tokens.len() && tokens[i + 1] is Operator {
        Some(
            ValidationErrorView::MissingOperandOrDuplicateOperator {
                at: (i + 1) as nat,
                lexeme: tokens[i + 1].text(),
                after_root: tokens[i] == TokenView::Operator(Operator::Root),
            },
        )
    } else if tokens[i] is Unsupported {
        Some(
            ValidationErrorView::UnsupportedLexeme { at: i as nat, lexeme: tokens[i]->Unsupported_0 },
        )
    } else {
        None
    }
}

/// What the scan finds first from index `from` on.
pub open spec fn first_violation(tokens: Seq<TokenView>, from: int) -> Option<ValidationErrorView>
    decreases tokens.len() - from,
{
    if from < 0 || from >= tokens.len() {
        None
    } else if violation_at(tokens, from) is Some {
        violation_at(tokens, from)
    } else {
        first_violation(tokens, from + 1)
    }
}

/// The outcome of validation.
pub open spec fn validation_result(tokens: Seq<TokenView>) -> Result<(), ValidationErrorView> {
    match first_violation(tokens, 0) {
        Some(e) => Err(e),
        None => match first_unbalanced(tokens) {
            Some(kind) => Err(ValidationErrorView::UnclosedDelimiter { kind }),
            None => Ok(()),
        },
    }
}

/// Counts the opening and closing delimiters of one kind.
#[derive(Clone, Copy, Debug, PartialEq, Eq)]
pub struct DelimiterTracker {
    pub kind: DelimiterKind,
    pub open_count: usize,
    pub close_count: usize,
}

impl DelimiterTracker {
    /// The tracker has seen exactly `tokens`.
    pub open spec fn has_seen(&self, tokens: Seq<TokenView>) -> bool {
        &&& self.open_count == opened(tokens, self.kind)
        &&& self.close_count == closed(tokens, self.kind)
    }

    pub fn new(kind: DelimiterKind) -> (tracker: DelimiterTracker)
        ensures
            tracker.kind == kind,
            tracker.open_count == 0,
            tracker.close_count == 0,
            tracker.has_seen(Seq::empty()),
    {
        proof {
            let none = Seq::<TokenView>::empty();
            none.lemma_filter_len(|t: TokenView| t == TokenView::OpenDelimiter(kind));
            none.lemma_filter_len(|t: TokenView| t == TokenView::CloseDelimiter(kind));
        }
        DelimiterTracker { kind, open_count: 0, close_count: 0 }
    }

    /// Takes one more token into the counts.
    pub fn record(&mut self, token: &Token)
        requires
            old(self).open_count < usize::MAX,
            old(self).close_count < usize::MAX,
        ensures
            final(self).kind == old(self).kind,
            final(self).open_count == old(self).open_count + (if token@
                == TokenView::OpenDelimiter(old(self).kind) {
                1int
            } else {
                0int
            }),
            final(self).close_count == old(self).close_count + (if token@
                == TokenView::CloseDelimiter(old(self).kind) {
                1int
            } else {
                0int
            }),
    {
        match token {
            Token::OpenDelimiter(k) => {
                if same_kind(*k, self.kind) {
                    self.open_count = self.open_count + 1;
                }
            },
            Token::CloseDelimiter(k) => {
                if same_kind(*k, self.kind) {
                    self.close_count = self.close_count + 1;
                }
            },
            _ => {},
        }
    }

    /// Whether the counts agree.
    pub fn is_balanced(&self) -> (b: bool)
        ensures
            b == (self.open_count == self.close_count),
    {
        self.open_count == self.close_count
    }
}

fn same_kind(a: DelimiterKind, b: DelimiterKind) -> (r: bool)
    ensures
        r == (a == b),
{
    a == b
}

/// Counting goes token by token.
proof fn lemma_counts_push(seen: Seq<TokenView>, t: TokenView, kind: DelimiterKind)
    ensures
        opened(seen.push(t), kind) == opened(seen, kind) + (if t == TokenView::OpenDelimiter(kind) {
            1int
        } else {
            0int
        }),
        closed(seen.push(t), kind) == closed(seen, kind) + (if t == TokenView::CloseDelimiter(
            kind,
        ) {
            1int
        } else {
            0int
        }),
        opened(seen, kind) <= seen.len(),
        closed(seen, kind) <= seen.len(),
{
    let is_open = |t: TokenView| t == TokenView::OpenDelimiter(kind);
    let is_close = |t: TokenView| t == TokenView::CloseDelimiter(kind);
    seen.lemma_filter_push(t, is_open);
    seen.lemma_filter_push(t, is_close);
    seen.lemma_filter_len(is_open);
    seen.lemma_filter_len(is_close);
}

/// Where the scan finds nothing before index `i`, what it finds first from
/// `from <= i` on is what it finds first from `i` on.
proof fn lemma_scan_skips(tokens: Seq<TokenView>, from: int, i: int)
    requires
        0 <= from <= i <= tokens.len(),
        forall|j: int| from <= j < i ==> violation_at(tokens, j) is None,
    ensures
        first_violation(tokens, from) == first_violation(tokens, i),
    decreases i - from,
{
    if from < i {
        lemma_scan_skips(tokens, from + 1, i);
    }
}

/// Every kind of delimiter is balanced.
pub open spec fn all_balanced(tokens: Seq<TokenView>) -> bool {
    forall|kind: DelimiterKind| balanced(tokens, kind)
}

/// Balance detection. Where the scan finds nothing, or every kind is balanced,
/// validation reports an unclosed delimiter exactly when some kind has
/// unequal counts. (Where the scan finds something and a kind is unbalanced
/// as well, what the scan found is reported.) The kind reported is
/// unbalanced in any case.
pub proof fn lemma_balance_detection(tokens: Seq<TokenView>)
    requires
        first_violation(tokens, 0) is None || all_balanced(tokens),
    ensures
        validation_result(tokens) is Err && validation_result(tokens)->Err_0 is UnclosedDelimiter
            <==> !all_balanced(tokens),
        validation_result(tokens) matches Err(ValidationErrorView::UnclosedDelimiter { kind })
            ==> !balanced(tokens, kind),
{
    if first_unbalanced(tokens) is None {
        assert forall|kind: DelimiterKind| balanced(tokens, kind) by {
            match kind {
                DelimiterKind::Paren => {},
                DelimiterKind::Bracket => {},
                DelimiterKind::Brace => {},
            }
        }
    } else {
        assert(!balanced(tokens, first_unbalanced(tokens)->0));
    }
    if first_violation(tokens, 0) is Some {
        lemma_scan_finds_no_imbalance(tokens, 0);
    }
}

/// The scan reports unsupported tokens and adjacent operators, never a
/// delimiter.
proof fn lemma_scan_finds_no_imbalance(tokens: Seq<TokenView>, from: int)
    ensures
        !(first_violation(tokens, from) matches Some(
            ValidationErrorView::UnclosedDelimiter { .. },
        )),
    decreases tokens.len() - from,
{
    if 0 <= from < tokens.len() && violation_at(tokens, from) is None {
        lemma_scan_finds_no_imbalance(tokens, from + 1);
    }
}

/// Adjacency detection. Where the tokens at `i` and `i + 1` are operators and
/// the scan finds nothing before `i` (no unsupported token and no operator
/// after an operator), validation reports the operator at `i + 1`.
pub proof fn lemma_adjacency_detection(tokens: Seq<TokenView>, i: int)
    requires
        0 <= i,
        i + 1 < tokens.len(),
        tokens[i] is Operator,
        tokens[i + 1] is Operator,
        forall|j: int| 0 <= j < i ==> violation_at(tokens, j) is None,
    ensures
        validation_result(tokens) == Err::<(), ValidationErrorView>(
            ValidationErrorView::MissingOperandOrDuplicateOperator {
                at: (i + 1) as nat,
                lexeme: tokens[i + 1].text(),
                after_root: tokens[i] == TokenView::Operator(Operator::Root),
            },
        ),
{
    lemma_scan_skips(tokens, 0, i);
}

/// Every sequence with an unsupported token or with two operators side by
/// side is rejected by the scan, whatever its delimiters.
pub proof fn lemma_scan_rejects(tokens: Seq<TokenView>, i: int)
    requires
        0 <= i < tokens.len(),
        violation_at(tokens, i) is Some,
    ensures
        first_violation(tokens, 0) is Some,
        validation_result(tokens) is Err,
        !(validation_result(tokens)->Err_0 is UnclosedDelimiter),
{
    lemma_scan_finds(tokens, 0, i);
    lemma_scan_finds_no_imbalance(tokens, 0);
}

proof fn lemma_scan_finds(tokens: Seq<TokenView>, from: int, i: int)
    requires
        0 <= from <= i < tokens.len(),
        violation_at(tokens, i) is Some,
    ensures
        first_violation(tokens, from) is Some,
    decreases i - from,
{
    if from < i && violation_at(tokens, from) is None {
        lemma_scan_finds(tokens, from + 1, i);
    }
}

/// Validation is idempotent: a sequence that was accepted is accepted again.
/// The outcome depends on the tokens alone, and validation does not change
/// them.
pub proof fn lemma_validation_idempotent(tokens: Seq<TokenView>)
    requires
        validation_result(tokens) is Ok,
    ensures
        validation_result(tokens) == Ok::<(), ValidationErrorView>(()),
{
}

/// Checks a token sequence. The sequence is left as it is: a caller goes on
/// with the same tokens, and a second check of them ends as the first did.
pub fn validate(tokens: &[Token]) -> (res: Result<(), ValidationError>)
    ensures
        match res {
            Ok(()) => validation_result(tokens.deep_view()) is Ok,
            Err(e) => validation_result(tokens.deep_view()) == Err::<(), ValidationErrorView>(e@),
        },
{
    let ghost view = tokens.deep_view();
    let n = tokens.len();
    let mut paren = DelimiterTracker::new(DelimiterKind::Paren);
    let mut bracket = DelimiterTracker::new(DelimiterKind::Bracket);
    let mut brace = DelimiterTracker::new(DelimiterKind::Brace);
    let mut i: usize = 0;
    while i < n
        invariant
            n == tokens.len(),
            view == tokens.deep_view(),
            i <= n,
            forall|j: int| 0 <= j < i ==> violation_at(view, j) is None,
            paren.kind == DelimiterKind::Paren,
            bracket.kind == DelimiterKind::Bracket,
            brace.kind == DelimiterKind::Brace,
            paren.has_seen(view.take(i as int)),
            bracket.has_seen(view.take(i as int)),
            brace.has_seen(view.take(i as int)),
        decreases n - i,
    {
        let token = &tokens[i];
        assert(view[i as int] == token@);
        match token {
            Token::Operator(op) => {
                if i + 1 < n {
                    let next = &tokens[i + 1];
                    assert(view[i + 1] == next@);
                    if let Token::Operator(_) = next {
                        let after_root = match op {
                            Operator::Root => true,
                            _ => false,
                        };
                        proof {
                            lemma_scan_skips(view, 0, i as int);
                        }
                        return Err(
                            ValidationError::MissingOperandOrDuplicateOperator {
                                at: i + 1,
                                lexeme: next.lexeme(),
                                after_root,
                            },
                        );
                    }
                }
            },
            Token::Unsupported(text) => {
                proof {
                    lemma_scan_skips(view, 0, i as int);
                }
                return Err(ValidationError::UnsupportedLexeme { at: i, lexeme: text.clone() });
            },
            _ => {},
        }
        proof {
            let seen = view.take(i as int);
            lemma_counts_push(seen, token@, DelimiterKind::Paren);
            lemma_counts_push(seen, token@, DelimiterKind::Bracket);
            lemma_counts_push(seen, token@, DelimiterKind::Brace);
            assert(view.take(i + 1) == seen.push(token@));
        }
        paren.record(token);
        bracket.record(token);
        brace.record(token);
        i += 1;
    }
    proof {
        lemma_scan_skips(view, 0, n as int);
        assert(view.take(n as int) == view);
    }
    if !paren.is_balanced() {
        Err(ValidationError::UnclosedDelimiter { kind: DelimiterKind::Paren })
    } else if !bracket.is_balanced() {
        Err(ValidationError::UnclosedDelimiter { kind: DelimiterKind::Bracket })
    } else if !brace.is_balanced() {
        Err(ValidationError::UnclosedDelimiter { kind: DelimiterKind::Brace })
    } else {
        Ok(())
    }
}

/// Checks an expression given as its lexemes: each lexeme is taken for the
/// token it denotes, and the tokens are validated. The answer is never
/// `Ok(false)`: every rejection is an error that says why.
pub fn is_right(expression: &[String]) -> (res: Result<bool, ValidationError>)
    ensures
        match res {
            Ok(right) => right && validation_result(lexeme_tokens(expression.deep_view())) is Ok,
            Err(e) => validation_result(lexeme_tokens(expression.deep_view())) == Err::<
                (),
                ValidationErrorView,
            >(e@),
        },
{
    let mut tokens: Vec<Token> = Vec::new();
    let mut i: usize = 0;
    while i < expression.len()
        invariant
            i <= expression.len(),
            tokens.deep_view() == lexeme_tokens(expression.deep_view().take(i as int)),
        decreases expression.len() - i,
    {
        let ghost done = tokens.deep_view();
        let t = classify_lexeme(expression[i].as_str());
        let ghost tv = t@;
        tokens.push(t);
        proof {
            assert(tokens.deep_view() == done.push(tv));
            assert(expression.deep_view().take(i + 1) == expression.deep_view().take(
                i as int,
            ).push(expression[i as int]@));
        }
        i += 1;
    }
    proof {
        assert(expression.deep_view().take(expression.len() as int) == expression.deep_view());
    }
    match validate(&tokens) {
        Ok(()) => Ok(true),
        Err(e) => Err(e),
    }
}

} // verus!
