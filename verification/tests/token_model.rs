use calculator::digit::Digit;
use calculator::literal::Literal;
use calculator::operator::Operator;
use calculator::token::Token;

#[test]
fn each_digit_has_a_character_representation() {
    let result: String = format!(
        "{}{}{}{}{}{}{}{}{}{}",
        Digit::Zero.to_char(),
        Digit::One.to_char(),
        Digit::Two.to_char(),
        Digit::Three.to_char(),
        Digit::Four.to_char(),
        Digit::Five.to_char(),
        Digit::Six.to_char(),
        Digit::Seven.to_char(),
        Digit::Eight.to_char(),
        Digit::Nine.to_char()
    );
    let expected_result: &str = "0123456789";

    assert_eq!(result, expected_result);
}

#[test]
fn digit_operators_can_be_instanciated_from_characters() {
    let result: Vec<Digit> = ['0', '1', '2', '3', '4', '5', '6', '7', '8', '9']
        .iter()
        .map(|c| Digit::new(*c))
        .filter(|c| c.is_some())
        .map(|c| c.unwrap())
        .collect();

    let expected_result: [Digit; 10] = [
        Digit::Zero,
        Digit::One,
        Digit::Two,
        Digit::Three,
        Digit::Four,
        Digit::Five,
        Digit::Six,
        Digit::Seven,
        Digit::Eight,
        Digit::Nine,
    ];

    assert_eq!(result, expected_result);
}

#[test]
fn digit_operator_constructor_return_none_if_character_is_not_an_operator() {
    let result: Vec<Digit> = ['a', '+', ',']
        .iter()
        .map(|c| Digit::new(*c))
        .filter(|c| c.is_some())
        .map(|c| c.unwrap())
        .collect();

    assert_eq!(result.is_empty(), true);
}

#[test]
fn each_literal_can_be_represented_as_a_string() {
    let result: Vec<String> = [
        vec![Digit::One],
        vec![Digit::Two, Digit::Three],
        vec![Digit::Four, Digit::Five, Digit::Six],
        vec![Digit::Seven, Digit::Eight, Digit::Nine, Digit::Zero],
    ]
    .iter()
    .cloned()
    .map(|vector| Literal::new(vector))
    .map(|literal| literal.to_text())
    .collect();

    let expected_result: Vec<String> = ["1", "23", "456", "7890"]
        .iter()
        .map(|&string| String::from(string))
        .collect();

    assert_eq!(result, expected_result);
}

#[test]
fn literals_can_be_instanciated_from_strings() {
    let result: Vec<Literal> = ["1", "23", "456", "7890"]
        .iter()
        .map(|string| Literal::from_text(string))
        .collect();

    let expected_result: Vec<Literal> = [
        vec![Digit::One],
        vec![Digit::Two, Digit::Three],
        vec![Digit::Four, Digit::Five, Digit::Six],
        vec![Digit::Seven, Digit::Eight, Digit::Nine, Digit::Zero],
    ]
    .iter()
    .cloned()
    .map(|vector| Literal::new(vector))
    .collect();

    assert_eq!(result, expected_result);
}

#[test]
fn each_token_can_be_represented_as_a_string() {
    let _1: String = String::from("1");
    let _23: String = String::from("23");
    let _456: String = String::from("456");
    let _7890: String = String::from("7890");

    let result: Vec<String> = [
        Token::Operator(Operator::Plus),
        Token::Operator(Operator::Minus),
        Token::Operator(Operator::Times),
        Token::Operator(Operator::Slash),
        Token::Operator(Operator::Caret),
        Token::LeftParenthesis,
        Token::RightParenthesis,
        Token::Literal(Literal::from_text(&_1)),
        Token::Literal(Literal::from_text(&_23)),
        Token::Literal(Literal::from_text(&_456)),
        Token::Literal(Literal::from_text(&_7890)),
    ]
    .iter()
    .map(|token| token.to_text())
    .collect();

    let expected_result: Vec<String> = ["+", "-", "*", "/", "^", "(", ")", "1", "23", "456", "7890"]
        .iter()
        .map(|string| String::from(*string))
        .collect();

    assert_eq!(result, expected_result);
}

#[test]
// LeftParenthesis, RightParenthesis, Operator are usually represented by
// single characters.
fn some_tokens_can_be_instanciated_from_a_character() {
    let result: Vec<Token> = ['+', '-', '*', '/', '^', '(', ')']
        .iter()
        .map(|character| Token::from_char(*character))
        .filter(|character| character.is_some())
        .map(|character| character.unwrap())
        .collect();

    let expected_result: [Token; 7] = [
        Token::Operator(Operator::Plus),
        Token::Operator(Operator::Minus),
        Token::Operator(Operator::Times),
        Token::Operator(Operator::Slash),
        Token::Operator(Operator::Caret),
        Token::LeftParenthesis,
        Token::RightParenthesis,
    ];

    assert_eq!(result, expected_result);
}

#[test]
fn each_operator_has_a_character_representation() {
    let result: String = format!(
        "{}{}{}{}{}",
        Operator::Plus.to_char(),
        Operator::Minus.to_char(),
        Operator::Times.to_char(),
        Operator::Slash.to_char(),
        Operator::Caret.to_char()
    );
    let expected_result: &str = "+-*/^";

    assert_eq!(result, expected_result);
}

#[test]
fn operator_operators_can_be_instanciated_from_characters() {
    let result: Vec<Operator> = ['+', '-', '*', '/', '^']
        .iter()
        .map(|c| Operator::new(*c))
        .filter(|c| c.is_some())
        .map(|c| c.unwrap())
        .collect();

    let expected_result: [Operator; 5] = [
        Operator::Plus,
        Operator::Minus,
        Operator::Times,
        Operator::Slash,
        Operator::Caret,
    ];

    assert_eq!(result, expected_result);
}

#[test]
fn operator_operator_constructor_return_none_if_character_is_not_an_operator() {
    let result: Vec<Operator> = ['a', '1', ',']
        .iter()
        .map(|c| Operator::new(*c))
        .filter(|c| c.is_some())
        .map(|c| c.unwrap())
        .collect();

    assert_eq!(result.is_empty(), true);
}

#[test]
fn operators_can_be_ordered_following_precedence_in_arithmetic() {
    let result: Vec<bool> = vec![
        (Operator::Caret > Operator::Times),
        (Operator::Caret > Operator::Slash),
        (Operator::Times > Operator::Plus),
        (Operator::Times > Operator::Minus),
        (Operator::Slash > Operator::Plus),
        (Operator::Slash > Operator::Minus),
        (Operator::Times < Operator::Caret),
        (Operator::Slash < Operator::Caret),
        (Operator::Plus < Operator::Times),
        (Operator::Minus < Operator::Times),
        (Operator::Plus < Operator::Slash),
        (Operator::Minus < Operator::Slash),
        (Operator::Times == Operator::Slash),
        (Operator::Plus == Operator::Minus),
        (Operator::Times > Operator::Slash),
        (Operator::Slash < Operator::Times),
        (Operator::Plus > Operator::Minus),
        (Operator::Minus < Operator::Plus),
    ];

    let expected_result: [bool; 18] = [
        true, true, true, true, true, true, true, true, true, true, true, true, false, false,
        false, false, false, false,
    ];

    assert_eq!(result, expected_result);
}
