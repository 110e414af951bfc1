use paren_search::{tokenize, Token};

#[test]
fn tokenize_fixed_expression() {
    let tokens = tokenize("1 + 2 * 3 + 4 * 5 + 6 * 7 + 8 * 9");
    let expected = vec![
        Token::Number(1),
        Token::Plus,
        Token::Number(2),
        Token::Mul,
        Token::Number(3),
        Token::Plus,
        Token::Number(4),
        Token::Mul,
        Token::Number(5),
        Token::Plus,
        Token::Number(6),
        Token::Mul,
        Token::Number(7),
        Token::Plus,
        Token::Number(8),
        Token::Mul,
        Token::Number(9),
    ];
    assert_eq!(tokens, expected);
}

#[test]
fn tokenize_drops_unrecognized_words() {
    let tokens = tokenize("1 x + yz 2 ++ 3");
    assert_eq!(
        tokens,
        vec![Token::Number(1), Token::Plus, Token::Number(2), Token::Number(3)]
    );
}

#[test]
fn tokenize_signed_numbers() {
    let tokens = tokenize("-5 + +7 * -0");
    assert_eq!(
        tokens,
        vec![
            Token::Number(-5),
            Token::Plus,
            Token::Number(7),
            Token::Mul,
            Token::Number(0),
        ]
    );
}

#[test]
fn tokenize_extreme_values() {
    let tokens = tokenize("-9223372036854775808 + 9223372036854775807");
    assert_eq!(
        tokens,
        vec![Token::Number(i64::MIN), Token::Plus, Token::Number(i64::MAX)]
    );
}

#[test]
fn tokenize_drops_out_of_range_numbers() {
    let tokens = tokenize("9223372036854775808 + 99999999999999999999999999 1");
    assert_eq!(tokens, vec![Token::Plus, Token::Number(1)]);
}

#[test]
fn tokenize_empty_and_blank() {
    assert_eq!(tokenize(""), vec![]);
    assert_eq!(tokenize("   \t \n "), vec![]);
}

#[test]
fn tokenize_unicode_whitespace_separates_words() {
    let tokens = tokenize("1\u{00A0}+\u{2003}2\u{3000}*\u{000C}3");
    assert_eq!(
        tokens,
        vec![
            Token::Number(1),
            Token::Plus,
            Token::Number(2),
            Token::Mul,
            Token::Number(3),
        ]
    );
}

#[test]
fn tokenize_sign_alone_is_operator_or_dropped() {
    // A bare `+` is the operator; a bare `-` is no token at all.
    assert_eq!(tokenize("+ -"), vec![Token::Plus]);
}
