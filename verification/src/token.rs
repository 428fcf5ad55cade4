//! Tokens of an arithmetic expression and their mathematical views.

use vstd::prelude::*;

verus! {

/// The root sign, `√` (U+221A).
pub const ROOT_SIGN: char = '\u{221A}';

/// A binary operator.
#[derive(Clone, Copy, Debug, PartialEq, Eq, Structural)]
pub enum Operator {
    Plus,
    Minus,
    Times,
    Divide,
    Power,
    Root,
}

impl Operator {
    /// The character that denotes the operator.
    pub open spec fn spec_symbol(self) -> char {
        match self {
            Operator::Plus => '+',
            Operator::Minus => '-',
            Operator::Times => '*',
            Operator::Divide => '/',
            Operator::Power => '^',
            Operator::Root => ROOT_SIGN,
        }
    }

    #[verifier::when_used_as_spec(spec_symbol)]
    pub fn symbol(self) -> (c: char)
        ensures
            c == self.spec_symbol(),
    {
        match self {
            Operator::Plus => '+',
            Operator::Minus => '-',
            Operator::Times => '*',
            Operator::Divide => '/',
            Operator::Power => '^',
            Operator::Root => ROOT_SIGN,
        }
    }

    /// Binding strength: 1 for `+ -`, 2 for `* /`, 3 for `^ √`.
    pub open spec fn spec_precedence(self) -> u8 {
        match self {
            Operator::Plus | Operator::Minus => 1u8,
            Operator::Times | Operator::Divide => 2u8,
            Operator::Power | Operator::Root => 3u8,
        }
    }

    #[verifier::when_used_as_spec(spec_precedence)]
    pub fn precedence(self) -> (p: u8)
        ensures
            p == self.spec_precedence(),
    {
        match self {
            Operator::Plus | Operator::Minus => 1,
            Operator::Times | Operator::Divide => 2,
            Operator::Power | Operator::Root => 3,
        }
    }
}

/// One of the three families of grouping symbols.
#[derive(Clone, Copy, Debug, PartialEq, Eq, Structural)]
pub enum DelimiterKind {
    Paren,
    Bracket,
    Brace,
}

impl DelimiterKind {
    pub open spec fn spec_opening(self) -> char {
        match self {
            DelimiterKind::Paren => '(',
            DelimiterKind::Bracket => '[',
            DelimiterKind::Brace => '{',
        }
    }

    pub open spec fn spec_closing(self) -> char {
        match self {
            DelimiterKind::Paren => ')',
            DelimiterKind::Bracket => ']',
            DelimiterKind::Brace => '}',
        }
    }

    #[verifier::when_used_as_spec(spec_opening)]
    pub fn opening(self) -> (c: char)
        ensures
            c == self.spec_opening(),
    {
        match self {
            DelimiterKind::Paren => '(',
            DelimiterKind::Bracket => '[',
            DelimiterKind::Brace => '{',
        }
    }

    #[verifier::when_used_as_spec(spec_closing)]
    pub fn closing(self) -> (c: char)
        ensures
            c == self.spec_closing(),
    {
        match self {
            DelimiterKind::Paren => ')',
            DelimiterKind::Bracket => ']',
            DelimiterKind::Brace => '}',
        }
    }
}

/// An atomic lexical unit.
#[derive(Debug, PartialEq, Eq)]
pub enum Token {
    Number(String),
    Operator(Operator),
    OpenDelimiter(DelimiterKind),
    CloseDelimiter(DelimiterKind),
    Unsupported(String),
}

/// What a [`Token`] is, with its text as a sequence of characters.
pub enum TokenView {
    Number(Seq<char>),
    Operator(Operator),
    OpenDelimiter(DelimiterKind),
    CloseDelimiter(DelimiterKind),
    Unsupported(Seq<char>),
}

impl View for Token {
    type V = TokenView;

    open spec fn view(&self) -> TokenView {
        match self {
            Token::Number(s) => TokenView::Number(s@),
            Token::Operator(op) => TokenView::Operator(*op),
            Token::OpenDelimiter(k) => TokenView::OpenDelimiter(*k),
            Token::CloseDelimiter(k) => TokenView::CloseDelimiter(*k),
            Token::Unsupported(s) => TokenView::Unsupported(s@),
        }
    }
}

impl DeepView for Token {
    type V = TokenView;

    open spec fn deep_view(&self) -> TokenView {
        self@
    }
}

impl TokenView {
    /// The characters the token is written with.
    pub open spec fn text(self) -> Seq<char> {
        match self {
            TokenView::Number(s) => s,
            TokenView::Operator(op) => seq![op.spec_symbol()],
            TokenView::OpenDelimiter(k) => seq![k.spec_opening()],
            TokenView::CloseDelimiter(k) => seq![k.spec_closing()],
            TokenView::Unsupported(s) => s,
        }
    }

    pub open spec fn is_delimiter(self) -> bool {
        self is OpenDelimiter || self is CloseDelimiter
    }
}

impl Clone for Token {
    fn clone(&self) -> (t: Token)
        ensures
            t@ == self@,
    {
        match self {
            Token::Number(s) => Token::Number(s.clone()),
            Token::Operator(op) => Token::Operator(*op),
            Token::OpenDelimiter(k) => Token::OpenDelimiter(*k),
            Token::CloseDelimiter(k) => Token::CloseDelimiter(*k),
            Token::Unsupported(s) => Token::Unsupported(s.clone()),
        }
    }
}

/// `String::push` of the standard library appends the character `c` to the
/// end of `s`: the text after the call is the text before it with `c` put at
/// its end. This is taken from the documentation of `String::push` and is not
/// proved here.
pub assume_specification[ String::push ](s: &mut String, c: char)
    ensures
        final(s)@ == old(s)@.push(c),
;

impl Token {
    /// The token's text.
    pub fn lexeme(&self) -> (s: String)
        ensures
            s@ == self@.text(),
    {
        match self {
            Token::Number(s) => s.clone(),
            Token::Operator(op) => {
                let mut s = String::new();
                s.push(op.symbol());
                s
            },
            Token::OpenDelimiter(k) => {
                let mut s = String::new();
                s.push(k.opening());
                s
            },
            Token::CloseDelimiter(k) => {
                let mut s = String::new();
                s.push(k.closing());
                s
            },
            Token::Unsupported(s) => s.clone(),
        }
    }
}

} // verus!
