use paren_search::{
    evaluate_with_parentheses, find_parenthesizations, insert_parentheses,
    is_valid_subexpression, tokenize, Token,
};

#[test]
fn renderer_exact_form() {
    let tokens = vec![
        Token::Number(1),
        Token::Plus,
        Token::Number(2),
        Token::Mul,
        Token::Number(3),
    ];
    assert_eq!(insert_parentheses(&tokens, 1, 3), "1 (+ 2 *) 3");
}

#[test]
fn renderer_whole_and_edges() {
    let tokens = tokenize("2 + 3 * 4");
    assert_eq!(insert_parentheses(&tokens, 0, 4), "(2 + 3 * 4)");
    assert_eq!(insert_parentheses(&tokens, 0, 2), "(2 + 3) * 4");
    assert_eq!(insert_parentheses(&tokens, 2, 4), "2 + (3 * 4)");
}

#[test]
fn renderer_negative_numbers() {
    let tokens = vec![Token::Number(-3), Token::Plus, Token::Number(4)];
    assert_eq!(insert_parentheses(&tokens, 0, 2), "(-3 + 4)");
}

#[test]
fn valid_subexpression_needs_number_and_operator() {
    let tokens = tokenize("1 + 2");
    assert!(!is_valid_subexpression(&tokens, 0, 0)); // a bare number
    assert!(!is_valid_subexpression(&tokens, 1, 1)); // a bare operator
    assert!(is_valid_subexpression(&tokens, 0, 1));
    assert!(is_valid_subexpression(&tokens, 1, 2));
    assert!(is_valid_subexpression(&tokens, 0, 2));
}

#[test]
fn valid_subexpression_reversed_range_is_rejected() {
    let tokens = tokenize("1 + 2");
    assert!(!is_valid_subexpression(&tokens, 2, 0));
}

#[test]
fn evaluate_with_parentheses_changes_precedence() {
    let tokens = tokenize("2 + 3 * 4");
    assert_eq!(evaluate_with_parentheses(&tokens, 0, 2), Some(20));
    assert_eq!(evaluate_with_parentheses(&tokens, 2, 4), Some(14));
}

#[test]
fn evaluate_with_parentheses_malformed_sub_range() {
    let tokens = tokenize("2 + 3 * 4");
    // "+ 3" is not a well-formed sub-expression.
    assert_eq!(evaluate_with_parentheses(&tokens, 1, 2), None);
}

#[test]
fn search_finds_unique_match() {
    let tokens = tokenize("2 + 3 * 4");
    let results = find_parenthesizations(&tokens, 20);
    assert_eq!(results, vec!["(2 + 3) * 4".to_string()]);
}

#[test]
fn search_fixed_expression_hits_target() {
    let tokens = tokenize("1 + 2 * 3 + 4 * 5 + 6 * 7 + 8 * 9");
    let results = find_parenthesizations(&tokens, 479);
    assert!(!results.is_empty());
    assert!(results.iter().any(|r| r == "1 + 2 * (3 + 4 * 5 + 6) * 7 + 8 * 9"));
    // The report is sorted and free of duplicates.
    for pair in results.windows(2) {
        assert!(pair[0] < pair[1]);
    }
}

#[test]
fn search_twice_gives_identical_output() {
    let tokens = tokenize("1 + 2 * 3 + 4 * 5 + 6 * 7 + 8 * 9");
    let first = find_parenthesizations(&tokens, 479);
    let second = find_parenthesizations(&tokens, 479);
    assert_eq!(first, second);
}

#[test]
fn search_unreachable_target_is_empty() {
    // Every token of the fixed expression is positive, so no placement can
    // reach a negative value.
    let tokens = tokenize("1 + 2 * 3 + 4 * 5 + 6 * 7 + 8 * 9");
    let results = find_parenthesizations(&tokens, -1);
    assert!(results.is_empty());
}

#[test]
fn search_degenerate_token_lists() {
    assert!(find_parenthesizations(&tokenize(""), 0).is_empty());
    assert!(find_parenthesizations(&tokenize("7"), 7).is_empty());
    assert!(find_parenthesizations(&tokenize("+"), 0).is_empty());
}
