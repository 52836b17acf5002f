//! A flat scanner over the same lexical grammar as the lexer of
//! [`crate::tokenizer`]: instead of typed tokens it produces plain lexemes,
//! each a kind tag and the scanned text, convenient for display.

use vstd::prelude::*;
use vstd::string::{StrSliceExecFns, StringExecFns};
use crate::digit::{Digit, is_digit_char, lemma_digit_char_inverse};
use crate::operator::{Operator, is_operator_char, lemma_operator_char_inverse};
use crate::token::{is_left_parenthesis, is_right_parenthesis};

verus! {

/// One scanned lexeme: the kind of text it is, and the text itself.
#[derive(Clone, Debug, PartialEq)]
pub struct Token {
    pub kind: String,
    pub value: String,
}

/// The mathematical shape of a lexeme: its kind tag and its characters.
pub struct LexemeView {
    pub kind: Seq<char>,
    pub value: Seq<char>,
}

impl View for Token {
    type V = LexemeView;

    open spec fn view(&self) -> LexemeView {
        LexemeView { kind: self.kind@, value: self.value@ }
    }
}

impl DeepView for Token {
    type V = LexemeView;

    open spec fn deep_view(&self) -> LexemeView {
        self@
    }
}

/// Whether `c` is a decimal digit character.
pub fn is_digit(c: char) -> (b: bool)
    ensures
        b == is_digit_char(c),
{
    match c {
        '0' | '1' | '2' | '3' | '4' | '5' | '6' | '7' | '8' | '9' => true,
        _ => false,
    }
}

/// Whether `c` is one of the operator characters `+ - * / ^`.
pub fn is_operator(c: char) -> (b: bool)
    ensures
        b == is_operator_char(c),
{
    match c {
        '+' | '-' | '*' | '/' | '^' => true,
        _ => false,
    }
}

/// The lexeme flushed for a pending literal buffer: one `literal` lexeme
/// holding the buffered characters, or nothing for an empty buffer.
pub open spec fn flushed_lexeme(buf: Seq<char>) -> Seq<LexemeView> {
    if buf.len() == 0 {
        seq![]
    } else {
        seq![LexemeView { kind: "literal"@, value: buf }]
    }
}

/// The lexeme a single non-digit character is scanned into, if any: a
/// parenthesis or an operator, tagged with its kind; any other character
/// stands for no lexeme.
pub open spec fn lexeme_of_char(c: char) -> Option<LexemeView> {
    if c == '(' {
        Some(LexemeView { kind: "left_parenthesis"@, value: seq![c] })
    } else if c == ')' {
        Some(LexemeView { kind: "right_parenthesis"@, value: seq![c] })
    } else if is_operator_char(c) {
        Some(LexemeView { kind: "operator"@, value: seq![c] })
    } else {
        None
    }
}

/// The lexemes of the remaining text `s`, given the literal characters
/// `buf` already buffered.
pub open spec fn lexemes_of_chars_from(s: Seq<char>, buf: Seq<char>) -> Seq<LexemeView>
    decreases s.len(),
{
    if s.len() == 0 {
        flushed_lexeme(buf)
    } else if is_digit_char(s[0]) {
        lexemes_of_chars_from(s.drop_first(), buf.push(s[0]))
    } else {
        flushed_lexeme(buf) + (match lexeme_of_char(s[0]) {
            Some(t) => seq![t],
            None => seq![],
        }) + lexemes_of_chars_from(s.drop_first(), seq![])
    }
}

/// The lexemes of the text `s`, scanned left to right.
pub open spec fn lexemes_of_chars(s: Seq<char>) -> Seq<LexemeView> {
    lexemes_of_chars_from(s, seq![])
}

/// Pushing one lexeme onto a vector pushes its view onto the vector's view.
proof fn lemma_lexeme_deep_view_push(pre: Vec<Token>, post: Vec<Token>, t: Token)
    requires
        post@ == pre@.push(t),
    ensures
        post.deep_view() == pre.deep_view().push(t@),
{
    assert(post.deep_view() =~= pre.deep_view().push(t@));
}

/// Scans an expression into kind-tagged lexemes, strictly left to right:
/// runs of digit characters become single `literal` lexemes, parentheses
/// and operator characters become lexemes of their own kind, and every
/// other character is silently dropped.
pub fn tokenize(expression: &str) -> (tokens: Vec<Token>)
    ensures
        tokens.deep_view() == lexemes_of_chars(expression@),
{
    let mut tokens: Vec<Token> = Vec::new();
    let mut buffer: String = String::new();
    let n = expression.unicode_len();
    let mut i: usize = 0;
    proof {
        assert(expression@.skip(0) =~= expression@);
        assert(tokens.deep_view() =~= Seq::<LexemeView>::empty());
    }
    while i < n
        invariant
            i <= n,
            n == expression@.len(),
            lexemes_of_chars(expression@) == tokens.deep_view() + lexemes_of_chars_from(
                expression@.skip(i as int),
                buffer@,
            ),
        decreases n - i,
    {
        let character = expression.get_char(i);
        proof {
            assert(expression@.skip(i as int).drop_first() =~= expression@.skip(i + 1));
            assert(expression@.skip(i as int)[0] == expression@[i as int]);
        }
        match Digit::new(character) {
            Some(digit) => {
                let ghost buf = buffer@;
                buffer.append(digit.to_str());
                proof {
                    lemma_digit_char_inverse(expression@[i as int]);
                    assert(buffer@ =~= buf.push(expression@[i as int]));
                    assert(lexemes_of_chars_from(expression@.skip(i as int), buf)
                        == lexemes_of_chars_from(expression@.skip(i + 1), buffer@));
                }
            },
            None => {
                let ghost pre_flush = tokens.deep_view();
                let ghost buf = buffer@;
                if !buffer.as_str().is_empty() {
                    let ghost pre = tokens;
                    let token = Token { kind: String::from_str("literal"), value: buffer };
                    buffer = String::new();
                    tokens.push(token);
                    proof {
                        lemma_lexeme_deep_view_push(pre, tokens, token);
                    }
                }
                let ghost mid = tokens.deep_view();
                proof {
                    assert(mid =~= pre_flush + flushed_lexeme(buf));
                }
                if is_left_parenthesis(character) {
                    let ghost pre = tokens;
                    proof {
                        reveal_strlit("(");
                    }
                    let token = Token {
                        kind: String::from_str("left_parenthesis"),
                        value: String::from_str("("),
                    };
                    tokens.push(token);
                    proof {
                        assert(token@.value =~= seq![expression@[i as int]]);
                        lemma_lexeme_deep_view_push(pre, tokens, token);
                    }
                } else if is_right_parenthesis(character) {
                    let ghost pre = tokens;
                    proof {
                        reveal_strlit(")");
                    }
                    let token = Token {
                        kind: String::from_str("right_parenthesis"),
                        value: String::from_str(")"),
                    };
                    tokens.push(token);
                    proof {
                        assert(token@.value =~= seq![expression@[i as int]]);
                        lemma_lexeme_deep_view_push(pre, tokens, token);
                    }
                } else {
                    match Operator::new(character) {
                        Some(operator) => {
                            let ghost pre = tokens;
                            let token = Token {
                                kind: String::from_str("operator"),
                                value: String::from_str(operator.to_str()),
                            };
                            tokens.push(token);
                            proof {
                                lemma_operator_char_inverse(expression@[i as int]);
                                assert(token@.value =~= seq![expression@[i as int]]);
                                lemma_lexeme_deep_view_push(pre, tokens, token);
                            }
                        },
                        None => {},
                    }
                }
                proof {
                    let emitted = match lexeme_of_char(expression@[i as int]) {
                        Some(t) => seq![t],
                        None => seq![],
                    };
                    assert(tokens.deep_view() =~= pre_flush + (flushed_lexeme(buf) + emitted));
                    assert(buffer@ =~= Seq::<char>::empty());
                    let rest = lexemes_of_chars_from(expression@.skip(i + 1), buffer@);
                    assert(lexemes_of_chars_from(expression@.skip(i as int), buf) == flushed_lexeme(
                        buf,
                    ) + emitted + rest);
                    assert(pre_flush + (flushed_lexeme(buf) + emitted + rest) =~= tokens.deep_view()
                        + rest);
                    assert(lexemes_of_chars(expression@) == tokens.deep_view()
                        + lexemes_of_chars_from(expression@.skip(i + 1), buffer@));
                }
            },
        }
        i = i + 1;
    }
    proof {
        assert(expression@.skip(n as int) =~= Seq::<char>::empty());
    }
    // The final literal, if the expression ends in the middle of one.
    if !buffer.as_str().is_empty() {
        let ghost pre = tokens;
        let token = Token { kind: String::from_str("literal"), value: buffer };
        tokens.push(token);
        proof {
            lemma_lexeme_deep_view_push(pre, tokens, token);
            assert(tokens.deep_view() =~= pre.deep_view() + flushed_lexeme(token@.value));
        }
    } else {
        proof {
            assert(tokens.deep_view() + flushed_lexeme(buffer@) =~= tokens.deep_view());
        }
    }
    tokens
}

} // verus!
