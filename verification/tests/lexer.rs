use calculator::literal::Literal;
use calculator::operator::Operator;
use calculator::scanner;
use calculator::token::Token;
use calculator::tokenizer::tokenize;

#[test]
fn mod_tokenize_creates_tokens_from_a_string() {
    let string = "2*3";
    let result: Vec<Token> = tokenize(string);

    let expected_result: Vec<Token> = vec![
        Token::Literal(Literal::from_text("2")),
        Token::Operator(Operator::Times),
        Token::Literal(Literal::from_text("3")),
    ];

    assert_eq!(result, expected_result);
}

#[test]
fn mod_tokenize_deals_with_multiple_digits_numbers() {
    let string = "22*33";
    let result: Vec<Token> = tokenize(string);

    let expected_result: Vec<Token> = vec![
        Token::Literal(Literal::from_text("22")),
        Token::Operator(Operator::Times),
        Token::Literal(Literal::from_text("33")),
    ];

    assert_eq!(result, expected_result);
}

#[test]
fn mod_tokenize_deals_with_parentheses() {
    let string = "2*(4-3)";
    let result: Vec<Token> = tokenize(string);

    let expected_result: Vec<Token> = vec![
        Token::Literal(Literal::from_text("2")),
        Token::Operator(Operator::Times),
        Token::LeftParenthesis,
        Token::Literal(Literal::from_text("4")),
        Token::Operator(Operator::Minus),
        Token::Literal(Literal::from_text("3")),
        Token::RightParenthesis,
    ];

    assert_eq!(result, expected_result);
}

#[test]
fn tokenizer_tokenize_creates_tokens_from_a_string() {
    let string = "2*3";
    let result: Vec<scanner::Token> = scanner::tokenize(string);

    let mut expected_result: Vec<scanner::Token> = Vec::new();
    [("literal", "2"), ("operator", "*"), ("literal", "3")]
        .iter()
        .map(|tuple| (String::from(tuple.0), String::from(tuple.1)))
        .map(|tuple| scanner::Token { kind: tuple.0, value: tuple.1 })
        .for_each(|token| expected_result.push(token));

    assert_eq!(result, expected_result);
}

#[test]
fn tokenizer_tokenize_deals_with_multiple_digits_numbers() {
    let string = "22*33";
    let result: Vec<scanner::Token> = scanner::tokenize(string);

    let mut expected_result: Vec<scanner::Token> = Vec::new();
    [("literal", "22"), ("operator", "*"), ("literal", "33")]
        .iter()
        .map(|tuple| (String::from(tuple.0), String::from(tuple.1)))
        .map(|tuple| scanner::Token { kind: tuple.0, value: tuple.1 })
        .for_each(|token| expected_result.push(token));

    assert_eq!(result, expected_result);
}

#[test]
fn tokenizer_tokenize_deals_with_parentheses() {
    let string = "2*(4-3)";
    let result: Vec<scanner::Token> = scanner::tokenize(string);

    let mut expected_result: Vec<scanner::Token> = Vec::new();
    [
        ("literal", "2"),
        ("operator", "*"),
        ("left_parenthesis", "("),
        ("literal", "4"),
        ("operator", "-"),
        ("literal", "3"),
        ("right_parenthesis", ")"),
    ]
    .iter()
    .map(|tuple| (String::from(tuple.0), String::from(tuple.1)))
    .map(|tuple| scanner::Token { kind: tuple.0, value: tuple.1 })
    .for_each(|token| expected_result.push(token));

    assert_eq!(result, expected_result);
}
