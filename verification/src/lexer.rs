//! The lexer: from raw text to tokens.
//!
//! White space is removed first. In what is left, a regular expression finds
//! the lexemes: runs of word characters, and single operator and delimiter
//! characters. Each lexeme becomes the token it denotes: a run of digits is a
//! number, any other run of word characters an unsupported token. What stands
//! before, between and after the lexemes is kept too, each stretch as one
//! unsupported token, so that the texts of the tokens, one after the other,
//! are the text without its white space.
//!
//! Which lexemes the regular expression finds is the `regex` crate's word.
//! That nothing is dropped is proved for whatever it finds.

use crate::token::{DelimiterKind, Operator, Token, TokenView, ROOT_SIGN};
use regex::Regex;
use vstd::prelude::*;

verus! {

/// The characters with the Unicode property `White_Space`.
pub open spec fn is_space(c: char) -> bool {
    ||| '\u{9}' <= c <= '\u{D}'
    ||| c == ' '
    ||| c == '\u{85}'
    ||| c == '\u{A0}'
    ||| c == '\u{1680}'
    ||| '\u{2000}' <= c <= '\u{200A}'
    ||| c == '\u{2028}'
    ||| c == '\u{2029}'
    ||| c == '\u{202F}'
    ||| c == '\u{205F}'
    ||| c == '\u{3000}'
}

pub fn is_whitespace(c: char) -> (b: bool)
    ensures
        b == is_space(c),
{
    ('\u{9}' <= c && c <= '\u{D}') || c == ' ' || c == '\u{85}' || c == '\u{A0}' || c == '\u{1680}'
        || ('\u{2000}' <= c && c <= '\u{200A}') || c == '\u{2028}' || c == '\u{2029}' || c
        == '\u{202F}' || c == '\u{205F}' || c == '\u{3000}'
}

/// The decimal digits `0` to `9`.
pub open spec fn is_digit(c: char) -> bool {
    '0' <= c <= '9'
}

/// Every character of `s` is a decimal digit. The empty sequence qualifies.
pub open spec fn all_digits(s: Seq<char>) -> bool {
    forall|i: int| 0 <= i < s.len() ==> is_digit(#[trigger] s[i])
}

/// The token that the single character `c` stands for, if it is an operator or
/// a delimiter.
pub open spec fn symbol(c: char) -> Option<TokenView> {
    if c == '+' {
        Some(TokenView::Operator(Operator::Plus))
    } else if c == '-' {
        Some(TokenView::Operator(Operator::Minus))
    } else if c == '*' {
        Some(TokenView::Operator(Operator::Times))
    } else if c == '/' {
        Some(TokenView::Operator(Operator::Divide))
    } else if c == '^' {
        Some(TokenView::Operator(Operator::Power))
    } else if c == ROOT_SIGN {
        Some(TokenView::Operator(Operator::Root))
    } else if c == '(' {
        Some(TokenView::OpenDelimiter(DelimiterKind::Paren))
    } else if c == ')' {
        Some(TokenView::CloseDelimiter(DelimiterKind::Paren))
    } else if c == '[' {
        Some(TokenView::OpenDelimiter(DelimiterKind::Bracket))
    } else if c == ']' {
        Some(TokenView::CloseDelimiter(DelimiterKind::Bracket))
    } else if c == '{' {
        Some(TokenView::OpenDelimiter(DelimiterKind::Brace))
    } else if c == '}' {
        Some(TokenView::CloseDelimiter(DelimiterKind::Brace))
    } else {
        None
    }
}

/// The token that a lexeme denotes: an operator or a delimiter for its single
/// character, a number for digits alone, and an unsupported token otherwise.
pub open spec fn classify(text: Seq<char>) -> TokenView {
    if text.len() == 1 && symbol(text[0]) is Some {
        symbol(text[0])->0
    } else if all_digits(text) {
        TokenView::Number(text)
    } else {
        TokenView::Unsupported(text)
    }
}

/// `s` without its white space.
pub open spec fn strip(s: Seq<char>) -> Seq<char> {
    s.filter(|c: char| !is_space(c))
}

/// The pattern of a lexeme: a run of word characters, or one operator or
/// delimiter character.
pub const LEXEME_PATTERN: &'static str =
    "\\w+|\\d+|/|\\+|-|\\*|\\^|\u{221A}|\\(|\\)|\\[|\\]|\\{|\\}";

/// The matches of the regular expression `pattern` in `text`, one after the
/// other as the `regex` crate finds them; `None` where it does not accept the
/// pattern.
pub uninterp spec fn pattern_matches(pattern: Seq<char>, text: Seq<char>) -> Option<
    Seq<Seq<char>>,
>;

/// The lexemes that the pattern finds in `text`; none where the pattern is
/// not accepted.
pub open spec fn lexemes_of(text: Seq<char>) -> Seq<Seq<char>> {
    match pattern_matches(LEXEME_PATTERN@, text) {
        Some(lexemes) => lexemes,
        None => Seq::empty(),
    }
}

/// `text` starts with `lexeme`.
pub open spec fn starts_with(text: Seq<char>, lexeme: Seq<char>) -> bool {
    lexeme.len() <= text.len() && text.take(lexeme.len() as int) == lexeme
}

/// The number of characters of `text` before the first place at which
/// `lexeme` stands; `None` where it stands nowhere.
pub open spec fn offset_of(text: Seq<char>, lexeme: Seq<char>) -> Option<int>
    decreases text.len(),
{
    if starts_with(text, lexeme) {
        Some(0)
    } else if text.len() == 0 {
        None
    } else {
        match offset_of(text.skip(1), lexeme) {
            Some(k) => Some(k + 1),
            None => None,
        }
    }
}

/// The token for a stretch of text that is no lexeme: none for an empty
/// stretch, one unsupported token otherwise.
pub open spec fn gap_tokens(gap: Seq<char>) -> Seq<TokenView> {
    if gap.len() == 0 {
        Seq::empty()
    } else {
        seq![TokenView::Unsupported(gap)]
    }
}

/// The tokens of `text` for the lexemes found in it. Each lexeme is looked up
/// behind the one before it; what stands before it is a stretch of its own.
/// An empty lexeme, and one that does not stand in the rest of the text, gives
/// no token.
pub open spec fn assemble(text: Seq<char>, lexemes: Seq<Seq<char>>) -> Seq<TokenView>
    decreases lexemes.len(),
{
    if lexemes.len() == 0 {
        gap_tokens(text)
    } else {
        let lexeme = lexemes[0];
        let place = if lexeme.len() == 0 {
            None
        } else {
            offset_of(text, lexeme)
        };
        match place {
            None => assemble(text, lexemes.skip(1)),
            Some(k) => gap_tokens(text.take(k)) + seq![classify(lexeme)] + assemble(
                text.skip(k + lexeme.len()),
                lexemes.skip(1),
            ),
        }
    }
}

/// The tokens that a sequence of lexemes denotes.
pub open spec fn lexeme_tokens(lexemes: Seq<Seq<char>>) -> Seq<TokenView> {
    lexemes.map_values(|text: Seq<char>| classify(text))
}

/// The lexemes, one after the other.
pub open spec fn joined(lexemes: Seq<Seq<char>>) -> Seq<char>
    decreases lexemes.len(),
{
    if lexemes.len() == 0 {
        Seq::empty()
    } else {
        lexemes[0] + joined(lexemes.skip(1))
    }
}

/// The tokens of a raw text.
pub open spec fn tokens_of(raw: Seq<char>) -> Seq<TokenView> {
    assemble(strip(raw), lexemes_of(strip(raw)))
}

/// The texts of `tokens`, one after the other.
pub open spec fn spelling(tokens: Seq<TokenView>) -> Seq<char>
    decreases tokens.len(),
{
    if tokens.len() == 0 {
        Seq::empty()
    } else {
        tokens[0].text() + spelling(tokens.skip(1))
    }
}

/// The token of an operator or delimiter character.
pub fn symbol_token(c: char) -> (r: Option<Token>)
    ensures
        match r {
            Some(t) => symbol(c) == Some(t@),
            None => symbol(c) is None,
        },
{
    if c == '+' {
        Some(Token::Operator(Operator::Plus))
    } else if c == '-' {
        Some(Token::Operator(Operator::Minus))
    } else if c == '*' {
        Some(Token::Operator(Operator::Times))
    } else if c == '/' {
        Some(Token::Operator(Operator::Divide))
    } else if c == '^' {
        Some(Token::Operator(Operator::Power))
    } else if c == ROOT_SIGN {
        Some(Token::Operator(Operator::Root))
    } else if c == '(' {
        Some(Token::OpenDelimiter(DelimiterKind::Paren))
    } else if c == ')' {
        Some(Token::CloseDelimiter(DelimiterKind::Paren))
    } else if c == '[' {
        Some(Token::OpenDelimiter(DelimiterKind::Bracket))
    } else if c == ']' {
        Some(Token::CloseDelimiter(DelimiterKind::Bracket))
    } else if c == '{' {
        Some(Token::OpenDelimiter(DelimiterKind::Brace))
    } else if c == '}' {
        Some(Token::CloseDelimiter(DelimiterKind::Brace))
    } else {
        None
    }
}

/// Whether `s` is made of decimal digits alone.
pub fn is_numeric(s: &str) -> (b: bool)
    ensures
        b == all_digits(s@),
{
    broadcast use vstd::string::group_string_axioms;

    let mut b = true;
    for c in it: s.chars()
        invariant
            it.seq() == s@,
            b == all_digits(s@.take(it.index() as int)),
    {
        let ghost before = s@.take(it.index() as int);
        let ghost after = s@.take(it.index() + 1);
        proof {
            assert(after[it.index() as int] == c);
            assert(forall|i: int| 0 <= i < before.len() ==> before[i] == after[i]);
        }
        if !('0' <= c && c <= '9') {
            b = false;
        }
    }
    proof {
        assert(s@.take(s@.len() as int) == s@);
    }
    b
}

/// The characters of `s`.
fn chars_of(s: &str) -> (v: Vec<char>)
    ensures
        v@ == s@,
{
    broadcast use vstd::string::group_string_axioms;

    let mut v: Vec<char> = Vec::new();
    for c in it: s.chars()
        invariant
            it.seq() == s@,
            v@ == s@.take(it.index() as int),
    {
        v.push(c);
    }
    v
}

/// The token that the lexeme `text` denotes.
pub fn classify_lexeme(text: &str) -> (t: Token)
    ensures
        t@ == classify(text@),
{
    let chars = chars_of(text);
    if chars.len() == 1 {
        if let Some(t) = symbol_token(chars[0]) {
            return t;
        }
    }
    if is_numeric(text) {
        Token::Number(String::from_str(text))
    } else {
        Token::Unsupported(String::from_str(text))
    }
}

/// `raw` without its white space.
pub fn strip_whitespace(raw: &str) -> (out: String)
    ensures
        out@ == strip(raw@),
{
    broadcast use vstd::string::group_string_axioms;

    let mut out = String::new();
    for c in it: raw.chars()
        invariant
            it.seq() == raw@,
            out@ == strip(raw@.take(it.index() as int)),
    {
        proof {
            let visible = |c: char| !is_space(c);
            let before = raw@.take(it.index() as int);
            assert(raw@.take(it.index() + 1) == before.push(c));
            Seq::lemma_filter_push(before, c, visible);
        }
        if !is_whitespace(c) {
            out.push(c);
        }
    }
    proof {
        assert(raw@.take(raw@.len() as int) == raw@);
    }
    out
}

/// The characters of `chars` from index `from` up to `to`, as a text.
fn text_of(chars: &Vec<char>, from: usize, to: usize) -> (text: String)
    requires
        from <= to <= chars.len(),
    ensures
        text@ == chars@.subrange(from as int, to as int),
{
    let mut text = String::new();
    let mut i: usize = from;
    while i < to
        invariant
            from <= i <= to <= chars.len(),
            text@ == chars@.subrange(from as int, i as int),
        decreases to - i,
    {
        text.push(chars[i]);
        proof {
            assert(chars@.subrange(from as int, i + 1) == chars@.subrange(
                from as int,
                i as int,
            ).push(chars@[i as int]));
        }
        i += 1;
    }
    text
}

/// Whether `lexeme` stands in `text` at index `at`.
fn stands_at(text: &Vec<char>, at: usize, lexeme: &Vec<char>) -> (r: bool)
    requires
        at + lexeme.len() <= text.len(),
    ensures
        r == starts_with(text@.skip(at as int), lexeme@),
{
    let mut i: usize = 0;
    while i < lexeme.len()
        invariant
            i <= lexeme.len(),
            at + lexeme.len() <= text.len(),
            forall|j: int| 0 <= j < i ==> text@[at + j] == lexeme@[j],
        decreases lexeme.len() - i,
    {
        if text[at + i] != lexeme[i] {
            proof {
                let head = text@.skip(at as int).take(lexeme@.len() as int);
                assert(head[i as int] == text@[at + i]);
            }
            return false;
        }
        i += 1;
    }
    proof {
        let head = text@.skip(at as int).take(lexeme@.len() as int);
        assert forall|j: int| 0 <= j < lexeme@.len() implies head[j] == lexeme@[j] by {
            assert(head[j] == text@[at + j]);
        }
        assert(head == lexeme@);
    }
    true
}

/// A lexeme stands nowhere in a text that is shorter than it.
proof fn lemma_offset_short(text: Seq<char>, lexeme: Seq<char>)
    requires
        lexeme.len() > text.len(),
    ensures
        offset_of(text, lexeme) is None,
    decreases text.len(),
{
    if text.len() > 0 {
        lemma_offset_short(text.skip(1), lexeme);
    }
}

/// Where `lexeme` stands at none of the first `k` places of `text` and at
/// the next one, or the text ends before it can stand, `offset_of` says so.
proof fn lemma_offset_of(text: Seq<char>, lexeme: Seq<char>, k: int)
    requires
        0 <= k <= text.len(),
        forall|j: int| 0 <= j < k ==> !starts_with(#[trigger] text.skip(j), lexeme),
    ensures
        starts_with(text.skip(k), lexeme) ==> offset_of(text, lexeme) == Some(k),
        k + lexeme.len() > text.len() ==> offset_of(text, lexeme) is None,
    decreases k,
{
    if k == 0 {
        assert(text.skip(0) == text);
        if lexeme.len() > text.len() {
            lemma_offset_short(text, lexeme);
        }
    } else {
        assert(!starts_with(text.skip(0), lexeme));
        assert(text.skip(0) == text);
        let rest = text.skip(1);
        assert forall|j: int| 0 <= j < k - 1 implies !starts_with(
            #[trigger] rest.skip(j),
            lexeme,
        ) by {
            assert(rest.skip(j) == text.skip(j + 1));
        }
        assert(rest.skip(k - 1) == text.skip(k));
        lemma_offset_of(rest, lexeme, k - 1);
    }
}

/// The regular expression `pattern` of the `regex` crate, run over `text`:
/// `Regex::new` compiles the pattern, `Regex::find_iter` yields its matches in
/// `text`, and `Match::as_str` gives the text of each. The contract names what
/// comes back, as what the crate makes of this pattern and this text, and
/// claims nothing else of it: neither that the pattern is accepted, nor what
/// a match looks like.
#[verifier::external_body]
fn find_lexemes(pattern: &str, text: &str) -> (found: Option<Vec<String>>)
    ensures
        found.deep_view() == pattern_matches(pattern@, text@),
{
    let compiled = Regex::new(pattern).ok()?;
    Some(compiled.find_iter(text).map(|found| found.as_str().to_string()).collect())
}

/// Puts the tokens of `text` together from the lexemes found in it: a token
/// for each lexeme that stands in the text behind the one before it, and an
/// unsupported token for each stretch of text between them.
pub fn assemble_tokens(text: &str, lexemes: &[String]) -> (tokens: Vec<Token>)
    ensures
        tokens.deep_view() == assemble(text@, lexemes.deep_view()),
        spelling(tokens.deep_view()) == text@,
{
    let chars = chars_of(text);
    let n = chars.len();
    let ghost all = lexemes.deep_view();
    let mut tokens: Vec<Token> = Vec::new();
    let mut cursor: usize = 0;
    let mut i: usize = 0;
    proof {
        assert(chars@.skip(0) == chars@);
        assert(all.skip(0) == all);
        assert(tokens.deep_view() + assemble(chars@, all) == assemble(chars@, all));
    }
    while i < lexemes.len()
        invariant
            n == chars.len(),
            chars@ == text@,
            all == lexemes.deep_view(),
            i <= lexemes.len(),
            cursor <= n,
            tokens.deep_view() + assemble(chars@.skip(cursor as int), all.skip(i as int))
                == assemble(chars@, all),
        decreases lexemes.len() - i,
    {
        let ghost rest = chars@.skip(cursor as int);
        let ghost done = tokens.deep_view();
        let lexeme = chars_of(lexemes[i].as_str());
        let m = lexeme.len();
        proof {
            assert(all.skip(i as int)[0] == lexeme@);
            assert(all.skip(i as int).skip(1) == all.skip(i + 1));
        }
        if m > 0 && m <= n - cursor {
            let mut at: usize = cursor;
            let mut found = false;
            while !found && at <= n - m
                invariant
                    n == chars.len(),
                    m == lexeme.len(),
                    0 < m <= n,
                    cursor <= at <= n,
                    found ==> at + m <= n,
                    rest == chars@.skip(cursor as int),
                    forall|j: int|
                        0 <= j < at - cursor ==> !starts_with(#[trigger] rest.skip(j), lexeme@),
                    found ==> starts_with(rest.skip(at - cursor), lexeme@),
                decreases n - at + (if found { 0int } else { 1int }),
            {
                proof {
                    assert(rest.skip(at - cursor) == chars@.skip(at as int));
                }
                if stands_at(&chars, at, &lexeme) {
                    found = true;
                } else {
                    at += 1;
                }
            }
            proof {
                lemma_offset_of(rest, lexeme@, at - cursor);
            }
            if found {
                let ghost k = (at - cursor) as int;
                if at > cursor {
                    let gap = text_of(&chars, cursor, at);
                    proof {
                        assert(gap@ == rest.take(k));
                    }
                    tokens.push(Token::Unsupported(gap));
                }
                let ghost with_gap = tokens.deep_view();
                let token = classify_lexeme(lexemes[i].as_str());
                let ghost tv = token@;
                tokens.push(token);
                proof {
                    assert(with_gap == done + gap_tokens(rest.take(k)));
                    assert(tokens.deep_view() == with_gap.push(tv));
                    assert(rest.skip(k + m) == chars@.skip(at + m));
                    let tail = assemble(rest.skip(k + m), all.skip(i + 1));
                    assert(with_gap.push(tv) + tail == done + (gap_tokens(rest.take(k))
                        + seq![tv] + tail));
                }
                cursor = at + m;
            }
        } else {
            proof {
                if m > 0 {
                    lemma_offset_of(rest, lexeme@, 0);
                    assert(rest.skip(0) == rest);
                }
            }
        }
        i += 1;
    }
    let ghost done = tokens.deep_view();
    let ghost rest = chars@.skip(cursor as int);
    proof {
        assert(all.skip(i as int).len() == 0);
    }
    if cursor < n {
        let gap = text_of(&chars, cursor, n);
        proof {
            assert(gap@ == rest);
        }
        tokens.push(Token::Unsupported(gap));
    }
    proof {
        assert(tokens.deep_view() == done + gap_tokens(rest));
        lemma_assemble_spells(text@, all);
    }
    tokens
}

/// Cuts `raw` into tokens. White space counts nowhere, and every other
/// character lands in exactly one token.
pub fn tokenize(raw: &str) -> (tokens: Vec<Token>)
    ensures
        tokens.deep_view() == tokens_of(raw@),
        spelling(tokens.deep_view()) == strip(raw@),
{
    let stripped = strip_whitespace(raw);
    let lexemes = match find_lexemes(LEXEME_PATTERN, stripped.as_str()) {
        Some(found) => found,
        None => Vec::new(),
    };
    assemble_tokens(stripped.as_str(), &lexemes)
}

/// The texts of a symbol's token is the symbol.
proof fn lemma_symbol_text(c: char)
    requires
        symbol(c) is Some,
    ensures
        symbol(c)->0.text() == seq![c],
{
}

/// A lexeme's token is written as the lexeme.
pub proof fn lemma_classify_text(text: Seq<char>)
    ensures
        classify(text).text() == text,
{
    if text.len() == 1 && symbol(text[0]) is Some {
        lemma_symbol_text(text[0]);
        assert(seq![text[0]] == text);
    }
}

proof fn lemma_spelling_concat(a: Seq<TokenView>, b: Seq<TokenView>)
    ensures
        spelling(a + b) == spelling(a) + spelling(b),
    decreases a.len(),
{
    if a.len() == 0 {
        assert(a + b == b);
        assert(spelling(a) + spelling(b) == spelling(b));
    } else {
        assert((a + b).skip(1) == a.skip(1) + b);
        lemma_spelling_concat(a.skip(1), b);
        assert(a[0].text() + (spelling(a.skip(1)) + spelling(b)) == (a[0].text() + spelling(
            a.skip(1),
        )) + spelling(b));
    }
}

proof fn lemma_spelling_one(token: TokenView)
    ensures
        spelling(seq![token]) == token.text(),
{
    reveal_with_fuel(spelling, 2);
    assert(seq![token].skip(1) == Seq::<TokenView>::empty());
    assert(token.text() + Seq::<char>::empty() == token.text());
}

proof fn lemma_offset_bounds(text: Seq<char>, lexeme: Seq<char>)
    ensures
        offset_of(text, lexeme) matches Some(k) ==> 0 <= k && k + lexeme.len() <= text.len()
            && text.subrange(k, k + lexeme.len()) == lexeme,
    decreases text.len(),
{
    if text.len() > 0 && !starts_with(text, lexeme) {
        lemma_offset_bounds(text.skip(1), lexeme);
        if let Some(k) = offset_of(text.skip(1), lexeme) {
            assert(text.skip(1).subrange(k, k + lexeme.len()) == text.subrange(
                k + 1,
                k + 1 + lexeme.len(),
            ));
        }
    }
}

/// Nothing is dropped: whatever the lexemes are, the texts of the tokens put
/// together from them, one after the other, are the text.
pub proof fn lemma_assemble_spells(text: Seq<char>, lexemes: Seq<Seq<char>>)
    ensures
        spelling(assemble(text, lexemes)) == text,
    decreases lexemes.len(),
{
    if lexemes.len() == 0 {
        if text.len() > 0 {
            lemma_spelling_one(TokenView::Unsupported(text));
        }
    } else {
        let lexeme = lexemes[0];
        let place = if lexeme.len() == 0 {
            None
        } else {
            offset_of(text, lexeme)
        };
        match place {
            None => lemma_assemble_spells(text, lexemes.skip(1)),
            Some(k) => {
                lemma_offset_bounds(text, lexeme);
                let gap = text.take(k);
                let tail = assemble(text.skip(k + lexeme.len()), lexemes.skip(1));
                lemma_assemble_spells(text.skip(k + lexeme.len()), lexemes.skip(1));
                lemma_spelling_concat(gap_tokens(gap) + seq![classify(lexeme)], tail);
                lemma_spelling_concat(gap_tokens(gap), seq![classify(lexeme)]);
                lemma_spelling_one(classify(lexeme));
                lemma_classify_text(lexeme);
                if gap.len() > 0 {
                    lemma_spelling_one(TokenView::Unsupported(gap));
                }
                assert(spelling(gap_tokens(gap)) == gap);
                assert(gap + lexeme + text.skip(k + lexeme.len()) == text);
            },
        }
    }
}

/// No token put together from lexemes is empty, and every number among them
/// is a run of digits.
pub proof fn lemma_assemble_tokens(text: Seq<char>, lexemes: Seq<Seq<char>>, i: int)
    requires
        0 <= i < assemble(text, lexemes).len(),
    ensures
        assemble(text, lexemes)[i].text().len() > 0,
        assemble(text, lexemes)[i] matches TokenView::Number(digits) ==> digits.len() > 0
            && all_digits(digits),
    decreases lexemes.len(),
{
    if lexemes.len() > 0 {
        let lexeme = lexemes[0];
        let place = if lexeme.len() == 0 {
            None
        } else {
            offset_of(text, lexeme)
        };
        match place {
            None => lemma_assemble_tokens(text, lexemes.skip(1), i),
            Some(k) => {
                let head = gap_tokens(text.take(k)) + seq![classify(lexeme)];
                lemma_classify_text(lexeme);
                if i >= head.len() {
                    lemma_assemble_tokens(
                        text.skip(k + lexeme.len()),
                        lexemes.skip(1),
                        i - head.len(),
                    );
                }
            },
        }
    }
}

/// Where the lexemes cover the text, the tokens are the tokens of the lexemes:
/// a text made of lexemes that are not empty, one after the other, gives one
/// token for each lexeme and no other.
pub proof fn lemma_assemble_covered(lexemes: Seq<Seq<char>>)
    requires
        forall|i: int| 0 <= i < lexemes.len() ==> (#[trigger] lexemes[i]).len() > 0,
    ensures
        assemble(joined(lexemes), lexemes) == lexeme_tokens(lexemes),
    decreases lexemes.len(),
{
    if lexemes.len() > 0 {
        let first = lexemes[0];
        let rest = lexemes.skip(1);
        let text = joined(lexemes);
        assert(text.take(first.len() as int) == first);
        assert(text.skip(first.len() as int) == joined(rest));
        assert(text.take(0) == Seq::<char>::empty());
        assert forall|i: int| 0 <= i < rest.len() implies (#[trigger] rest[i]).len() > 0 by {
            assert(rest[i] == lexemes[i + 1]);
        }
        lemma_assemble_covered(rest);
        assert(seq![classify(first)] + lexeme_tokens(rest) == lexeme_tokens(lexemes));
        assert(gap_tokens(text.take(0)) + seq![classify(first)] + lexeme_tokens(rest)
            == lexeme_tokens(lexemes));
    }
}

/// White space counts nowhere: a text with white space put in at any place has
/// the tokens of the text without it.
pub proof fn lemma_whitespace_insensitive(before: Seq<char>, blank: Seq<char>, after: Seq<char>)
    requires
        forall|i: int| 0 <= i < blank.len() ==> is_space(#[trigger] blank[i]),
    ensures
        strip(before + blank + after) == strip(before + after),
        tokens_of(before + blank + after) == tokens_of(before + after),
{
    let visible = |c: char| !is_space(c);
    Seq::filter_distributes_over_add(before + blank, after, visible);
    Seq::filter_distributes_over_add(before, blank, visible);
    Seq::filter_distributes_over_add(before, after, visible);
    assert(blank.all(|c: char| !visible(c)));
    blank.lemma_all_neg_filter_empty(visible);
    assert(strip(before) + blank.filter(visible) == strip(before));
}

} // verus!
