//! The token alphabet shared by the lexer and the parser.

use vstd::prelude::*;
use vstd::string::StringExecFns;
use crate::digit::Digit;
use crate::literal::{Literal, chars_of_digits};
use crate::operator::{Operator, is_operator_char, operator_of_char, char_of_operator};

verus! {

/// One lexical token: a numeric literal, a binary operator, or a structural
/// parenthesis marker.
#[derive(Clone, Debug, PartialEq)]
pub enum Token {
    Literal(Literal),
    Operator(Operator),
    LeftParenthesis,
    RightParenthesis,
}

/// The mathematical shape of a token: as `Token`, but with the literal's
/// digit vector abstracted to the digit sequence it holds.
pub enum TokenView {
    Literal(Seq<Digit>),
    Operator(Operator),
    LeftParenthesis,
    RightParenthesis,
}

impl View for Token {
    type V = TokenView;

    open spec fn view(&self) -> TokenView {
        match self {
            Token::Literal(l) => TokenView::Literal(l@),
            Token::Operator(op) => TokenView::Operator(*op),
            Token::LeftParenthesis => TokenView::LeftParenthesis,
            Token::RightParenthesis => TokenView::RightParenthesis,
        }
    }
}

impl DeepView for Token {
    type V = TokenView;

    open spec fn deep_view(&self) -> TokenView {
        self@
    }
}

/// Whether `c` is the left parenthesis character.
pub fn is_left_parenthesis(c: char) -> (b: bool)
    ensures
        b == (c == '('),
{
    c == '('
}

/// Whether `c` is the right parenthesis character.
pub fn is_right_parenthesis(c: char) -> (b: bool)
    ensures
        b == (c == ')'),
{
    c == ')'
}

/// The single-character token a character stands for, if any: a parenthesis
/// marker or an operator. Digit characters and unrecognized characters stand
/// for no token of their own.
pub open spec fn token_of_char(c: char) -> Option<TokenView> {
    if c == '(' {
        Some(TokenView::LeftParenthesis)
    } else if c == ')' {
        Some(TokenView::RightParenthesis)
    } else if is_operator_char(c) {
        Some(TokenView::Operator(operator_of_char(c)))
    } else {
        None
    }
}

/// The character representation of a token: a literal's digits in order, or
/// the token's single character.
pub open spec fn chars_of_token(t: TokenView) -> Seq<char> {
    match t {
        TokenView::Literal(ds) => chars_of_digits(ds),
        TokenView::Operator(op) => seq![char_of_operator(op)],
        TokenView::LeftParenthesis => seq!['('],
        TokenView::RightParenthesis => seq![')'],
    }
}

impl Token {
    /// Classifies a single character as a parenthesis or operator token.
    /// Digit characters belong to literals, which span several characters,
    /// so they yield nothing here, as does every unrecognized character.
    pub fn from_char(character: char) -> (t: Option<Token>)
        ensures
            t.deep_view() == token_of_char(character),
    {
        if is_left_parenthesis(character) {
            Some(Token::LeftParenthesis)
        } else if is_right_parenthesis(character) {
            Some(Token::RightParenthesis)
        } else {
            match Operator::new(character) {
                Some(operator) => Some(Token::Operator(operator)),
                None => None,
            }
        }
    }

    /// The text of this token.
    pub fn to_text(&self) -> (s: String)
        ensures
            s@ == chars_of_token(self@),
    {
        match self {
            Token::Literal(literal) => literal.to_text(),
            Token::Operator(operator) => {
                let s = String::from_str(operator.to_str());
                s
            },
            Token::LeftParenthesis => {
                proof {
                    reveal_strlit("(");
                }
                let s = String::from_str("(");
                proof {
                    assert(s@ =~= seq!['(']);
                }
                s
            },
            Token::RightParenthesis => {
                proof {
                    reveal_strlit(")");
                }
                let s = String::from_str(")");
                proof {
                    assert(s@ =~= seq![')']);
                }
                s
            },
        }
    }
}

/// Pushing one token onto a vector pushes its view onto the vector's view.
pub proof fn lemma_deep_view_push(pre: Vec<Token>, post: Vec<Token>, t: Token)
    requires
        post@ == pre@.push(t),
    ensures
        post.deep_view() == pre.deep_view().push(t@),
{
    assert(post.deep_view() =~= pre.deep_view().push(t@));
}

} // verus!
