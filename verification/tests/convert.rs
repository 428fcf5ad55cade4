use infix_notation::{shunting_yard, to_postfix, to_prefix, tokenize, validate, Token};

fn spell(tokens: &[Token]) -> String {
    tokens.iter().map(|t| t.lexeme()).collect::<Vec<String>>().join(" ")
}

fn postfix(raw: &str) -> String {
    spell(&to_postfix(&tokenize(raw)))
}

fn prefix(raw: &str) -> String {
    spell(&to_prefix(&tokenize(raw)))
}

#[test]
fn postfix_of_sum() {
    assert_eq!(postfix("3 + 4"), "3 4 +");
}

#[test]
fn postfix_of_group() {
    assert_eq!(postfix("(3 + 4) * 2"), "3 4 + 2 *");
}

#[test]
fn postfix_of_power() {
    assert_eq!(postfix("2 ^ 3"), "2 3 ^");
}

#[test]
fn postfix_of_root() {
    assert_eq!(postfix("2 √ 64"), "2 64 √");
}

#[test]
fn postfix_of_division() {
    assert_eq!(postfix("10 / 0"), "10 0 /");
}

#[test]
fn postfix_respects_precedence() {
    assert_eq!(postfix("1 + 2 * 3"), "1 2 3 * +");
    assert_eq!(postfix("1 * 2 + 3"), "1 2 * 3 +");
    assert_eq!(postfix("1 + 2 * 3 ^ 4"), "1 2 3 4 ^ * +");
    assert_eq!(postfix("1 ^ 2 * 3 + 4"), "1 2 ^ 3 * 4 +");
    assert_eq!(postfix("2 * 3 √ 8"), "2 3 8 √ *");
}

#[test]
fn postfix_groups_equal_precedence_from_the_left() {
    assert_eq!(postfix("1 - 2 - 3"), "1 2 - 3 -");
    assert_eq!(postfix("8 / 4 * 2"), "8 4 / 2 *");
    assert_eq!(postfix("2 ^ 3 ^ 2"), "2 3 ^ 2 ^");
    assert_eq!(postfix("2 ^ 3 √ 8"), "2 3 ^ 8 √");
}

#[test]
fn postfix_with_every_delimiter() {
    assert_eq!(postfix("{[(1 + 2) * 3] - 4} / 5"), "1 2 + 3 * 4 - 5 /");
    assert_eq!(postfix("2 * [3 + {4 - (5)}]"), "2 3 4 5 - + *");
}

#[test]
fn postfix_of_nothing() {
    assert_eq!(to_postfix(&Vec::new()), Vec::<Token>::new());
    assert_eq!(to_prefix(&Vec::new()), Vec::<Token>::new());
}

#[test]
fn postfix_of_one_number() {
    assert_eq!(postfix("42"), "42");
    assert_eq!(prefix("42"), "42");
    assert_eq!(postfix("((42))"), "42");
}

#[test]
fn prefix_of_sum() {
    assert_eq!(prefix("3 + 4"), "+ 3 4");
}

#[test]
fn prefix_of_group() {
    assert_eq!(prefix("(3 + 4) * 2"), "* + 3 4 2");
}

#[test]
fn prefix_respects_precedence() {
    assert_eq!(prefix("1 + 2 * 3"), "+ 1 * 2 3");
    assert_eq!(prefix("1 * 2 + 3"), "+ * 1 2 3");
    assert_eq!(prefix("2 √ 64"), "√ 2 64");
    assert_eq!(prefix("1 + 2 * 3 ^ 4"), "+ 1 * 2 ^ 3 4");
}

#[test]
fn prefix_groups_equal_precedence_from_the_left() {
    assert_eq!(prefix("1 - 2 - 3"), "- - 1 2 3");
    assert_eq!(prefix("8 / 4 * 2"), "* / 8 4 2");
}

#[test]
fn prefix_with_every_delimiter() {
    assert_eq!(prefix("{[(1 + 2) * 3] - 4} / 5"), "/ - * + 1 2 3 4 5");
}

#[test]
fn conversions_keep_numbers_and_operators() {
    for raw in ["3 + 4", "(3 + 4) * 2", "{[(1 + 2) * 3] - 4} / 5", "2 √ 64 ^ 2 - 1", "7", ""] {
        let tokens = tokenize(raw);
        assert_eq!(validate(&tokens), Ok(()));
        let count = tokens
            .iter()
            .filter(|t| matches!(t, Token::Number(_) | Token::Operator(_)))
            .count();
        for out in [to_postfix(&tokens), to_prefix(&tokens)] {
            assert_eq!(out.len(), count, "{:?}", raw);
            assert!(out.iter().all(|t| matches!(t, Token::Number(_) | Token::Operator(_))));
        }
    }
}

#[test]
fn conversions_of_crossed_delimiters_keep_a_delimiter() {
    assert_eq!(validate(&tokenize("( [ ) ]")), Ok(()));
    assert_eq!(postfix("( [ ) ]"), "[");
    assert_eq!(postfix("( 1 + [ 2 ) * 3 ]"), "1 2 [ + 3 *");
    assert_eq!(prefix("( [ ) ]"), "(");
}

#[test]
fn conversions_of_unmatched_delimiters() {
    assert_eq!(postfix(")"), "");
    assert_eq!(postfix("1 + 2 )"), "1 2 +");
    assert_eq!(postfix("( 1 + 2"), "1 2 + (");
    assert_eq!(postfix(") ("), "(");
    assert_eq!(prefix("( 1 + 2"), "+ 1 2");
    assert_eq!(prefix("1 + 2 )"), "( + 1 2");
}

#[test]
fn conversions_carry_unsupported_tokens() {
    assert_eq!(postfix("a + b"), "a b +");
    assert_eq!(prefix("a + b"), "+ a b");
}

#[test]
fn conversions_of_operators_alone() {
    assert_eq!(postfix("+"), "+");
    assert_eq!(postfix("3 +"), "3 +");
    assert_eq!(postfix("3 4"), "34");
    assert_eq!(prefix("3 +"), "+ 3");
}

#[test]
fn shunting_yard_pop_rules() {
    let tokens = tokenize("1 - 2 - 3");
    assert_eq!(spell(&shunting_yard(&tokens, false)), "1 2 - 3 -");
    assert_eq!(spell(&shunting_yard(&tokens, true)), "1 2 3 - -");
    let mixed = tokenize("1 * 2 + 3");
    assert_eq!(spell(&shunting_yard(&mixed, false)), "1 2 * 3 +");
    assert_eq!(spell(&shunting_yard(&mixed, true)), "1 2 * 3 +");
}
