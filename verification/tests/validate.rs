use infix_notation::{
    is_right, tokenize, validate, DelimiterKind, DelimiterTracker, Operator, Token,
    ValidationError,
};

fn lexemes(items: &[&str]) -> Vec<String> {
    items.iter().map(|s| s.to_string()).collect()
}

#[test]
fn validate_accepts_simple_expressions() {
    for raw in ["3 + 4", "(3 + 4) * 2", "2 ^ 3", "2 √ 64", "10 / 0", "{[(1)]}", "7", ""] {
        assert_eq!(validate(&tokenize(raw)), Ok(()), "{:?}", raw);
    }
}

#[test]
fn validate_is_idempotent() {
    let tokens = tokenize("[(3 + 4) * 2] √ {5 - 1}");
    let before = tokens.clone();
    assert_eq!(validate(&tokens), Ok(()));
    assert_eq!(tokens, before);
    assert_eq!(validate(&tokens), Ok(()));
    let bad = tokenize("3 + + 4");
    assert_eq!(validate(&bad), validate(&bad));
}

#[test]
fn validate_reports_duplicate_operator() {
    assert_eq!(
        validate(&tokenize("3 + + 4")),
        Err(ValidationError::MissingOperandOrDuplicateOperator {
            at: 2,
            lexeme: "+".to_string(),
            after_root: false,
        })
    );
}

#[test]
fn validate_reports_the_second_operator_of_the_first_pair() {
    assert_eq!(
        validate(&tokenize("1 * - 2 + / 3")),
        Err(ValidationError::MissingOperandOrDuplicateOperator {
            at: 2,
            lexeme: "-".to_string(),
            after_root: false,
        })
    );
    assert_eq!(
        validate(&tokenize("- +")),
        Err(ValidationError::MissingOperandOrDuplicateOperator {
            at: 1,
            lexeme: "+".to_string(),
            after_root: false,
        })
    );
}

#[test]
fn validate_gives_guidance_after_root() {
    let error = validate(&tokenize("2 √ - 4")).unwrap_err();
    assert_eq!(
        error,
        ValidationError::MissingOperandOrDuplicateOperator {
            at: 2,
            lexeme: "-".to_string(),
            after_root: true,
        }
    );
    assert_eq!(
        error.message(),
        "missing operand, or duplicated operator, at -. Please use n√x notation, where n, x ∈ ℕ. 2√x for square root.\n"
    );
}

#[test]
fn validate_gives_no_guidance_before_root() {
    let error = validate(&tokenize("2 + √ 4")).unwrap_err();
    assert_eq!(
        error,
        ValidationError::MissingOperandOrDuplicateOperator {
            at: 2,
            lexeme: "√".to_string(),
            after_root: false,
        }
    );
    assert_eq!(error.message(), "missing operand, or duplicated operator, at √");
}

#[test]
fn validate_reports_unsupported_lexeme() {
    let error = validate(&tokenize("3 + abc")).unwrap_err();
    assert_eq!(error, ValidationError::UnsupportedLexeme { at: 2, lexeme: "abc".to_string() });
    assert_eq!(error.message(), "unsupported lexeme: abc");
}

#[test]
fn validate_reports_what_comes_first() {
    assert_eq!(
        validate(&tokenize("x + + 4")),
        Err(ValidationError::UnsupportedLexeme { at: 0, lexeme: "x".to_string() })
    );
    assert_eq!(
        validate(&tokenize("3 + + x")),
        Err(ValidationError::MissingOperandOrDuplicateOperator {
            at: 2,
            lexeme: "+".to_string(),
            after_root: false,
        })
    );
}

#[test]
fn validate_reports_unsupported_before_unclosed() {
    assert_eq!(
        validate(&tokenize("( 3 + abc")),
        Err(ValidationError::UnsupportedLexeme { at: 3, lexeme: "abc".to_string() })
    );
    assert_eq!(
        validate(&tokenize("( 3 + * 4")),
        Err(ValidationError::MissingOperandOrDuplicateOperator {
            at: 3,
            lexeme: "*".to_string(),
            after_root: false,
        })
    );
}

#[test]
fn validate_reports_unclosed_delimiter() {
    let error = validate(&tokenize("( 3 + 4")).unwrap_err();
    assert_eq!(error, ValidationError::UnclosedDelimiter { kind: DelimiterKind::Paren });
    assert_eq!(error.message(), "unclosed delimiter");
    assert_eq!(
        validate(&tokenize("3 + 4 ]")),
        Err(ValidationError::UnclosedDelimiter { kind: DelimiterKind::Bracket })
    );
    assert_eq!(
        validate(&tokenize("{ { 3 }")),
        Err(ValidationError::UnclosedDelimiter { kind: DelimiterKind::Brace })
    );
}

#[test]
fn validate_reports_the_first_unbalanced_kind() {
    assert_eq!(
        validate(&tokenize("{ [ (")),
        Err(ValidationError::UnclosedDelimiter { kind: DelimiterKind::Paren })
    );
    assert_eq!(
        validate(&tokenize("} ]")),
        Err(ValidationError::UnclosedDelimiter { kind: DelimiterKind::Bracket })
    );
}

#[test]
fn validate_compares_counts_not_nesting() {
    assert_eq!(validate(&tokenize("( [ ) ]")), Ok(()));
    assert_eq!(validate(&tokenize(") (")), Ok(()));
}

#[test]
fn validate_accepts_operator_at_either_end() {
    assert_eq!(validate(&tokenize("3 +")), Ok(()));
    assert_eq!(validate(&tokenize("- 3")), Ok(()));
    assert_eq!(validate(&tokenize("+")), Ok(()));
    assert_eq!(validate(&tokenize("3 4")), Ok(()));
}

#[test]
fn validate_accepts_operator_next_to_delimiter() {
    assert_eq!(validate(&tokenize("( + ) +")), Ok(()));
}

#[test]
fn validate_takes_hand_made_tokens() {
    let tokens = vec![
        Token::Number("1".to_string()),
        Token::Operator(Operator::Root),
        Token::Operator(Operator::Root),
    ];
    assert_eq!(
        validate(&tokens),
        Err(ValidationError::MissingOperandOrDuplicateOperator {
            at: 2,
            lexeme: "√".to_string(),
            after_root: true,
        })
    );
}

#[test]
fn is_right_accepts_lexemes() {
    assert_eq!(is_right(&lexemes(&["3", "+", "4"])), Ok(true));
    assert_eq!(is_right(&lexemes(&["(", "3", "+", "4", ")", "*", "2"])), Ok(true));
    assert_eq!(is_right(&lexemes(&[])), Ok(true));
}

#[test]
fn is_right_rejects_lexemes() {
    assert_eq!(
        is_right(&lexemes(&["3", "+", "+", "4"])),
        Err(ValidationError::MissingOperandOrDuplicateOperator {
            at: 2,
            lexeme: "+".to_string(),
            after_root: false,
        })
    );
    assert_eq!(
        is_right(&lexemes(&["3", "+", "four"])),
        Err(ValidationError::UnsupportedLexeme { at: 2, lexeme: "four".to_string() })
    );
    assert_eq!(
        is_right(&lexemes(&["3", " "])),
        Err(ValidationError::UnsupportedLexeme { at: 1, lexeme: " ".to_string() })
    );
    assert_eq!(
        is_right(&lexemes(&["[", "3"])),
        Err(ValidationError::UnclosedDelimiter { kind: DelimiterKind::Bracket })
    );
}

#[test]
fn delimiter_tracker_counts_its_kind() {
    let mut tracker = DelimiterTracker::new(DelimiterKind::Bracket);
    assert!(tracker.is_balanced());
    for token in tokenize("[ ( [ 1 ] }") {
        tracker.record(&token);
    }
    assert_eq!(tracker.kind, DelimiterKind::Bracket);
    assert_eq!(tracker.open_count, 2);
    assert_eq!(tracker.close_count, 1);
    assert!(!tracker.is_balanced());
    tracker.record(&Token::CloseDelimiter(DelimiterKind::Bracket));
    assert!(tracker.is_balanced());
}
