use infix_notation::{
    assemble_tokens, classify_lexeme, is_numeric, is_whitespace, strip_whitespace, tokenize,
    DelimiterKind, Operator, Token,
};
use regex::Regex;

fn number(text: &str) -> Token {
    Token::Number(text.to_string())
}

fn unsupported(text: &str) -> Token {
    Token::Unsupported(text.to_string())
}

fn op(operator: Operator) -> Token {
    Token::Operator(operator)
}

fn lexemes(tokens: &[Token]) -> Vec<String> {
    tokens.iter().map(|t| t.lexeme()).collect()
}

#[test]
fn tokenize_simple_sum() {
    assert_eq!(tokenize("3+4"), vec![number("3"), op(Operator::Plus), number("4")]);
}

#[test]
fn tokenize_ignores_spaces() {
    assert_eq!(tokenize("3+4"), tokenize("3 + 4"));
    assert_eq!(tokenize("3 + 4"), vec![number("3"), op(Operator::Plus), number("4")]);
}

#[test]
fn tokenize_ignores_white_space_of_every_sort() {
    let spaced = "\t( 1\u{A0}2 +\u{2003}3 )\r\n";
    assert_eq!(tokenize(spaced), tokenize("(12+3)"));
    assert_eq!(
        tokenize(spaced),
        vec![
            Token::OpenDelimiter(DelimiterKind::Paren),
            number("12"),
            op(Operator::Plus),
            number("3"),
            Token::CloseDelimiter(DelimiterKind::Paren),
        ]
    );
}

#[test]
fn tokenize_joins_digits_across_spaces() {
    assert_eq!(tokenize("1 2 3"), vec![number("123")]);
}

#[test]
fn tokenize_empty_and_blank() {
    assert_eq!(tokenize(""), Vec::<Token>::new());
    assert_eq!(tokenize(" \t\n"), Vec::<Token>::new());
}

#[test]
fn tokenize_every_operator() {
    assert_eq!(
        tokenize("1+2-3*4/5^6√7"),
        vec![
            number("1"),
            op(Operator::Plus),
            number("2"),
            op(Operator::Minus),
            number("3"),
            op(Operator::Times),
            number("4"),
            op(Operator::Divide),
            number("5"),
            op(Operator::Power),
            number("6"),
            op(Operator::Root),
            number("7"),
        ]
    );
}

#[test]
fn tokenize_every_delimiter() {
    assert_eq!(
        tokenize("()[]{}"),
        vec![
            Token::OpenDelimiter(DelimiterKind::Paren),
            Token::CloseDelimiter(DelimiterKind::Paren),
            Token::OpenDelimiter(DelimiterKind::Bracket),
            Token::CloseDelimiter(DelimiterKind::Bracket),
            Token::OpenDelimiter(DelimiterKind::Brace),
            Token::CloseDelimiter(DelimiterKind::Brace),
        ]
    );
}

#[test]
fn tokenize_multi_digit_number() {
    assert_eq!(tokenize("1234567890"), vec![number("1234567890")]);
}

#[test]
fn tokenize_words_are_unsupported() {
    assert_eq!(tokenize("abc"), vec![unsupported("abc")]);
    assert_eq!(tokenize("3a"), vec![unsupported("3a")]);
    assert_eq!(tokenize("a3"), vec![unsupported("a3")]);
    assert_eq!(
        tokenize("2*x_1"),
        vec![number("2"), op(Operator::Times), unsupported("x_1")]
    );
}

#[test]
fn tokenize_keeps_what_it_does_not_know() {
    assert_eq!(tokenize("3!"), vec![number("3"), unsupported("!")]);
    assert_eq!(tokenize("!3"), vec![unsupported("!"), number("3")]);
    assert_eq!(tokenize("3!4"), vec![number("3"), unsupported("!"), number("4")]);
    assert_eq!(tokenize("?!"), vec![unsupported("?!")]);
    assert_eq!(
        tokenize("1.5+2"),
        vec![number("1"), unsupported("."), number("5"), op(Operator::Plus), number("2")]
    );
    assert_eq!(
        tokenize("a, b; c"),
        vec![
            unsupported("a"),
            unsupported(","),
            unsupported("b"),
            unsupported(";"),
            unsupported("c"),
        ]
    );
}

#[test]
fn tokenize_takes_letters_and_digits_of_any_script_for_words() {
    assert_eq!(tokenize("é"), vec![unsupported("é")]);
    assert_eq!(tokenize("٣"), vec![unsupported("٣")]);
    assert_eq!(tokenize("2×π"), vec![number("2"), unsupported("×"), unsupported("π")]);
}

#[test]
fn tokenize_spells_the_stripped_text() {
    for raw in ["3 + 4", " ( a+b ) * [c] ", "2√64", "x! y? {", "", "12 34", "¿1+1?", "# # #"] {
        let stripped: String = raw.chars().filter(|c| !c.is_whitespace()).collect();
        let tokens = tokenize(raw);
        assert_eq!(lexemes(&tokens).concat(), stripped);
        assert_eq!(strip_whitespace(raw), stripped);
        assert!(tokens.iter().all(|t| !t.lexeme().is_empty()));
    }
}

#[test]
fn token_lexemes() {
    assert_eq!(op(Operator::Plus).lexeme(), "+");
    assert_eq!(op(Operator::Minus).lexeme(), "-");
    assert_eq!(op(Operator::Times).lexeme(), "*");
    assert_eq!(op(Operator::Divide).lexeme(), "/");
    assert_eq!(op(Operator::Power).lexeme(), "^");
    assert_eq!(op(Operator::Root).lexeme(), "√");
    assert_eq!(Token::OpenDelimiter(DelimiterKind::Paren).lexeme(), "(");
    assert_eq!(Token::CloseDelimiter(DelimiterKind::Paren).lexeme(), ")");
    assert_eq!(Token::OpenDelimiter(DelimiterKind::Bracket).lexeme(), "[");
    assert_eq!(Token::CloseDelimiter(DelimiterKind::Bracket).lexeme(), "]");
    assert_eq!(Token::OpenDelimiter(DelimiterKind::Brace).lexeme(), "{");
    assert_eq!(Token::CloseDelimiter(DelimiterKind::Brace).lexeme(), "}");
    assert_eq!(number("42").lexeme(), "42");
    assert_eq!(unsupported("x y").lexeme(), "x y");
}

#[test]
fn token_clone_is_equal() {
    for token in tokenize("(12+ab)√3") {
        assert_eq!(token.clone(), token);
    }
}

#[test]
fn operator_symbols_and_precedence() {
    let all = [
        (Operator::Plus, '+', 1),
        (Operator::Minus, '-', 1),
        (Operator::Times, '*', 2),
        (Operator::Divide, '/', 2),
        (Operator::Power, '^', 3),
        (Operator::Root, '√', 3),
    ];
    for (operator, symbol, precedence) in all {
        assert_eq!(operator.symbol(), symbol);
        assert_eq!(operator.precedence(), precedence);
        assert_eq!(tokenize(&symbol.to_string()), vec![op(operator)]);
    }
}

#[test]
fn delimiter_symbols() {
    assert_eq!(DelimiterKind::Paren.opening(), '(');
    assert_eq!(DelimiterKind::Paren.closing(), ')');
    assert_eq!(DelimiterKind::Bracket.opening(), '[');
    assert_eq!(DelimiterKind::Bracket.closing(), ']');
    assert_eq!(DelimiterKind::Brace.opening(), '{');
    assert_eq!(DelimiterKind::Brace.closing(), '}');
}

#[test]
fn is_numeric_digits_only() {
    assert!(is_numeric("0"));
    assert!(is_numeric("0123456789"));
    assert!(is_numeric(""));
    assert!(!is_numeric("12a"));
    assert!(!is_numeric("-1"));
    assert!(!is_numeric("1.5"));
    assert!(!is_numeric(" 1"));
    assert!(!is_numeric("٣"));
    assert!(!is_numeric("√"));
}

#[test]
fn is_whitespace_agrees_with_char() {
    for code in 0..=0x10FFFFu32 {
        if let Some(c) = char::from_u32(code) {
            assert_eq!(is_whitespace(c), c.is_whitespace(), "U+{:04X}", code);
        }
    }
}

#[test]
fn strip_whitespace_removes_all_of_it() {
    assert_eq!(strip_whitespace("  3 +\t4\n"), "3+4");
    assert_eq!(strip_whitespace("\u{3000}a\u{2028}b\u{85}"), "ab");
    assert_eq!(strip_whitespace(""), "");
    assert_eq!(strip_whitespace("abc"), "abc");
}

#[test]
fn classify_lexeme_by_kind() {
    assert_eq!(classify_lexeme("12"), number("12"));
    assert_eq!(classify_lexeme("+"), op(Operator::Plus));
    assert_eq!(classify_lexeme("√"), op(Operator::Root));
    assert_eq!(classify_lexeme("["), Token::OpenDelimiter(DelimiterKind::Bracket));
    assert_eq!(classify_lexeme("}"), Token::CloseDelimiter(DelimiterKind::Brace));
    assert_eq!(classify_lexeme("abc"), unsupported("abc"));
    assert_eq!(classify_lexeme("++"), unsupported("++"));
    assert_eq!(classify_lexeme("1+"), unsupported("1+"));
    assert_eq!(classify_lexeme(""), number(""));
}

#[test]
fn tokenize_gives_the_matches_of_the_pattern_on_words_and_symbols() {
    let pattern = Regex::new(r"\w+|\d+|/|\+|-|\*|\^|√|\(|\)|\[|\]|\{|\}").unwrap();
    let alphabet: Vec<char> = "0123456789abXY_+-*/^√()[]{} \t".chars().collect();
    let mut seed: u64 = 0x2545F4914F6CDD1D;
    for round in 0..2000 {
        let len = round % 17;
        let mut raw = String::new();
        for _ in 0..len {
            seed ^= seed << 13;
            seed ^= seed >> 7;
            seed ^= seed << 17;
            raw.push(alphabet[(seed % alphabet.len() as u64) as usize]);
        }
        let stripped: String = raw.split_whitespace().collect();
        let expected: Vec<String> =
            pattern.find_iter(&stripped).map(|m| m.as_str().to_string()).collect();
        assert_eq!(lexemes(&tokenize(&raw)), expected, "{:?}", raw);
    }
}

#[test]
fn assemble_tokens_from_lexemes() {
    let lexemes: Vec<String> = ["12", "+", "ab"].iter().map(|s| s.to_string()).collect();
    assert_eq!(
        assemble_tokens("12+ab", &lexemes),
        vec![number("12"), op(Operator::Plus), unsupported("ab")]
    );
}

#[test]
fn assemble_tokens_keeps_the_stretches_between_lexemes() {
    let plus = vec!["+".to_string()];
    assert_eq!(
        assemble_tokens("ab+cd", &plus),
        vec![unsupported("ab"), op(Operator::Plus), unsupported("cd")]
    );
    assert_eq!(assemble_tokens("+cd", &plus), vec![op(Operator::Plus), unsupported("cd")]);
    assert_eq!(assemble_tokens("ab+", &plus), vec![unsupported("ab"), op(Operator::Plus)]);
    assert_eq!(assemble_tokens("12", &Vec::new()), vec![unsupported("12")]);
    assert_eq!(assemble_tokens("", &Vec::new()), Vec::<Token>::new());
}

#[test]
fn assemble_tokens_takes_each_lexeme_behind_the_one_before() {
    let lexemes: Vec<String> = ["1", "1", "1"].iter().map(|s| s.to_string()).collect();
    assert_eq!(
        assemble_tokens("1.1.1.", &lexemes),
        vec![
            number("1"),
            unsupported("."),
            number("1"),
            unsupported("."),
            number("1"),
            unsupported("."),
        ]
    );
    let swapped: Vec<String> = ["b", "a"].iter().map(|s| s.to_string()).collect();
    assert_eq!(assemble_tokens("ab", &swapped), vec![unsupported("a"), unsupported("b")]);
}

#[test]
fn assemble_tokens_passes_over_lexemes_that_are_not_there() {
    let lexemes: Vec<String> = ["", "zz", "3", "12345"].iter().map(|s| s.to_string()).collect();
    assert_eq!(assemble_tokens("1+3", &lexemes), vec![unsupported("1+"), number("3")]);
    assert_eq!(assemble_tokens("", &lexemes), Vec::<Token>::new());
}
