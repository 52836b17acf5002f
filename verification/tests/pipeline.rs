use calculator::literal::Literal;
use calculator::operator::Operator;
use calculator::parser::parse;
use calculator::token::Token;
use calculator::tokenizer::{tokenize, tokens_to_text};

fn literal(text: &str) -> Token {
    Token::Literal(Literal::from_text(text))
}

#[test]
fn precedence_puts_the_tighter_operator_first() {
    let result: Vec<Token> = parse(tokenize("2+3*4"));

    let expected_result: Vec<Token> = vec![
        literal("2"),
        literal("3"),
        literal("4"),
        Token::Operator(Operator::Times),
        Token::Operator(Operator::Plus),
    ];

    assert_eq!(result, expected_result);
}

#[test]
// Equal priority forces a pop: the stacked `+` leaves before `-` is
// pushed, so same-rank operators group left to right.
fn equal_priority_operators_leave_left_to_right() {
    let result: Vec<Token> = parse(tokenize("2+3-4"));

    let expected_result: Vec<Token> = vec![
        literal("2"),
        literal("3"),
        Token::Operator(Operator::Plus),
        literal("4"),
        Token::Operator(Operator::Minus),
    ];

    assert_eq!(result, expected_result);
}

#[test]
fn exponentiation_ties_break_left_to_right() {
    let result: Vec<Token> = parse(tokenize("2^3^2"));

    let expected_result: Vec<Token> = vec![
        literal("2"),
        literal("3"),
        Token::Operator(Operator::Caret),
        literal("2"),
        Token::Operator(Operator::Caret),
    ];

    assert_eq!(result, expected_result);
}

#[test]
fn parentheses_override_precedence() {
    let result: Vec<Token> = parse(tokenize("(2+2)*3^2/3"));

    let expected_result: Vec<Token> = vec![
        literal("2"),
        literal("2"),
        Token::Operator(Operator::Plus),
        literal("3"),
        literal("2"),
        Token::Operator(Operator::Caret),
        Token::Operator(Operator::Times),
        literal("3"),
        Token::Operator(Operator::Slash),
    ];

    assert_eq!(result, expected_result);
}

#[test]
fn multi_digit_literals_do_not_split_or_merge() {
    let result: Vec<Token> = tokenize("22*35+444");

    let expected_result: Vec<Token> = vec![
        literal("22"),
        Token::Operator(Operator::Times),
        literal("35"),
        Token::Operator(Operator::Plus),
        literal("444"),
    ];

    assert_eq!(result, expected_result);
}

#[test]
fn a_single_operator_expression_parses_to_operand_operand_operator() {
    let result: Vec<Token> = parse(tokenize("10/5"));

    let expected_result: Vec<Token> =
        vec![literal("10"), literal("5"), Token::Operator(Operator::Slash)];

    assert_eq!(result, expected_result);
}

#[test]
fn whitespace_is_dropped() {
    assert_eq!(tokenize("2 + 3"), tokenize("2+3"));
}

#[test]
fn unrecognized_characters_are_dropped() {
    assert_eq!(tokenize("2a+b3"), tokenize("2+3"));
}

#[test]
fn empty_input_yields_empty_sequences() {
    let tokens: Vec<Token> = tokenize("");
    assert_eq!(tokens, vec![]);

    let postfix: Vec<Token> = parse(tokenize(""));
    assert_eq!(postfix, vec![]);
}

#[test]
fn an_unmatched_right_parenthesis_is_absorbed() {
    let result: Vec<Token> = parse(tokenize("2+3)"));

    let expected_result: Vec<Token> =
        vec![literal("2"), literal("3"), Token::Operator(Operator::Plus)];

    assert_eq!(result, expected_result);
}

#[test]
fn an_unmatched_left_parenthesis_is_drained_into_the_output() {
    let result: Vec<Token> = parse(tokenize("(2+3"));

    let expected_result: Vec<Token> = vec![
        literal("2"),
        literal("3"),
        Token::Operator(Operator::Plus),
        Token::LeftParenthesis,
    ];

    assert_eq!(result, expected_result);
}

#[test]
fn rendering_tokens_gives_the_recognized_text_back() {
    let text = "(2+2)*3^2/3";
    let tokens: Vec<Token> = tokenize(text);
    let rendered: String = tokens_to_text(&tokens);

    assert_eq!(rendered, text);
}

#[test]
fn relexing_rendered_tokens_is_the_identity() {
    let tokens: Vec<Token> = tokenize("22*35+444");
    let rendered: String = tokens_to_text(&tokens);
    let relexed: Vec<Token> = tokenize(&rendered);

    assert_eq!(relexed, tokens);
}
