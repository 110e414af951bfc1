use paren_search::{evaluate_expression, tokenize, Token};

#[test]
fn precedence_multiplication_before_addition() {
    let tokens = tokenize("2 + 3 * 4");
    assert_eq!(evaluate_expression(&tokens), Some(14));
}

#[test]
fn fixed_expression_value() {
    let tokens = tokenize("1 + 2 * 3 + 4 * 5 + 6 * 7 + 8 * 9");
    assert_eq!(evaluate_expression(&tokens), Some(141));
}

#[test]
fn single_number() {
    let tokens = tokenize("42");
    assert_eq!(evaluate_expression(&tokens), Some(42));
}

#[test]
fn long_product() {
    let tokens = tokenize("2 * 3 * 4 * 5");
    assert_eq!(evaluate_expression(&tokens), Some(120));
}

#[test]
fn negative_numbers() {
    let tokens = tokenize("-2 * 3 + -4");
    assert_eq!(evaluate_expression(&tokens), Some(-10));
}

#[test]
fn empty_sequence_fails() {
    let tokens = tokenize("");
    assert_eq!(evaluate_expression(&tokens), None);
}

#[test]
fn malformed_sequences_fail() {
    for source in ["+", "1 +", "1 2", "* 3", "1 * +"] {
        let tokens = tokenize(source);
        assert_eq!(evaluate_expression(&tokens), None, "source: {:?}", source);
    }
}

#[test]
fn more_malformed_sequences_fail() {
    for source in ["+ 1", "1 + + 2", "1 * * 2", "1 + 2 *", "* "] {
        let tokens = tokenize(source);
        assert_eq!(evaluate_expression(&tokens), None, "source: {:?}", source);
    }
}

#[test]
fn arithmetic_wraps_around() {
    let tokens = vec![Token::Number(i64::MAX), Token::Plus, Token::Number(1)];
    assert_eq!(evaluate_expression(&tokens), Some(i64::MIN));
    let tokens = vec![Token::Number(i64::MIN), Token::Mul, Token::Number(-1)];
    assert_eq!(evaluate_expression(&tokens), Some(i64::MIN));
}
