//! The lexer: scans flat text left to right into a token sequence.

use vstd::prelude::*;
use vstd::string::{StrSliceExecFns, StringExecFns};
use crate::digit::{Digit, is_digit_char, digit_of_char, lemma_digit_char_inverse};
use crate::literal::{Literal, chars_of_digits, digits_of_chars};
use crate::operator::{is_operator_char, operator_of_char, lemma_operator_char_inverse};
use crate::token::{Token, TokenView, token_of_char, chars_of_token, lemma_deep_view_push};

verus! {

/// Whether `c` belongs to the lexical grammar: a digit, an operator
/// character, or a parenthesis. Every other character is dropped by the
/// lexer.
pub open spec fn is_recognized_char(c: char) -> bool {
    is_digit_char(c) || is_operator_char(c) || c == '(' || c == ')'
}

/// Whether every character of `s` belongs to the lexical grammar.
pub open spec fn all_recognized(s: Seq<char>) -> bool {
    forall|i: int| 0 <= i < s.len() ==> is_recognized_char(#[trigger] s[i])
}

/// Whether every character of `s` is a decimal digit.
pub open spec fn all_digits(s: Seq<char>) -> bool {
    forall|i: int| 0 <= i < s.len() ==> is_digit_char(#[trigger] s[i])
}

/// The tokens flushed for a pending digit buffer: one literal when the
/// buffer is non-empty, nothing when it is empty. The lexer never emits an
/// empty literal.
pub open spec fn flushed(buf: Seq<Digit>) -> Seq<TokenView> {
    if buf.len() == 0 {
        seq![]
    } else {
        seq![TokenView::Literal(buf)]
    }
}

/// The tokens of the remaining text `s`, given the digits `buf` already
/// buffered from the characters just before `s`. A digit character joins the
/// buffer; any other character first flushes the buffer as one literal and
/// then stands for a token of its own, or for none if it is unrecognized.
pub open spec fn tokens_of_chars_from(s: Seq<char>, buf: Seq<Digit>) -> Seq<TokenView>
    decreases s.len(),
{
    if s.len() == 0 {
        flushed(buf)
    } else if is_digit_char(s[0]) {
        tokens_of_chars_from(s.drop_first(), buf.push(digit_of_char(s[0])))
    } else {
        flushed(buf) + (match token_of_char(s[0]) {
            Some(t) => seq![t],
            None => seq![],
        }) + tokens_of_chars_from(s.drop_first(), seq![])
    }
}

/// The token sequence of the text `s`: scanned left to right, with an
/// initially empty digit buffer.
pub open spec fn tokens_of_chars(s: Seq<char>) -> Seq<TokenView> {
    tokens_of_chars_from(s, seq![])
}

/// Scans an expression into tokens, strictly left to right.
///
/// Runs of digit characters become single multi-digit literals; parentheses
/// and the operator characters become tokens of their own; every other
/// character is silently dropped. The scan never fails: every input yields
/// some token sequence.
pub fn tokenize(expression: &str) -> (tokens: Vec<Token>)
    ensures
        tokens.deep_view() == tokens_of_chars(expression@),
{
    let mut tokens: Vec<Token> = Vec::new();
    let mut literal_buffer: Vec<Digit> = Vec::new();
    let n = expression.unicode_len();
    let mut i: usize = 0;
    proof {
        assert(expression@.skip(0) =~= expression@);
        assert(tokens.deep_view() =~= Seq::<TokenView>::empty());
    }
    while i < n
        invariant
            i <= n,
            n == expression@.len(),
            tokens_of_chars(expression@) == tokens.deep_view() + tokens_of_chars_from(
                expression@.skip(i as int),
                literal_buffer@,
            ),
        decreases n - i,
    {
        let character = expression.get_char(i);
        proof {
            assert(expression@.skip(i as int).drop_first() =~= expression@.skip(i + 1));
            assert(expression@.skip(i as int)[0] == expression@[i as int]);
        }
        match Digit::new(character) {
            Some(digit) => {
                let ghost buf = literal_buffer@;
                literal_buffer.push(digit);
                proof {
                    assert(literal_buffer@ == buf.push(digit_of_char(expression@[i as int])));
                    assert(tokens_of_chars_from(expression@.skip(i as int), buf)
                        == tokens_of_chars_from(expression@.skip(i + 1), literal_buffer@));
                }
            },
            None => {
                let ghost pre_flush = tokens.deep_view();
                let ghost buf = literal_buffer@;
                if literal_buffer.len() > 0 {
                    let ghost pre = tokens;
                    let literal = Literal::new(literal_buffer);
                    literal_buffer = Vec::new();
                    tokens.push(Token::Literal(literal));
                    proof {
                        lemma_deep_view_push(pre, tokens, Token::Literal(literal));
                    }
                }
                let ghost mid = tokens.deep_view();
                proof {
                    assert(mid =~= pre_flush + flushed(buf));
                }
                match Token::from_char(character) {
                    Some(token) => {
                        let ghost pre = tokens;
                        tokens.push(token);
                        proof {
                            lemma_deep_view_push(pre, tokens, token);
                        }
                    },
                    None => {},
                }
                proof {
                    let emitted = match token_of_char(expression@[i as int]) {
                        Some(t) => seq![t],
                        None => seq![],
                    };
                    assert(tokens.deep_view() =~= pre_flush + (flushed(buf) + emitted));
                    assert(literal_buffer@ =~= Seq::<Digit>::empty());
                    let rest = tokens_of_chars_from(expression@.skip(i + 1), literal_buffer@);
                    assert(tokens_of_chars_from(expression@.skip(i as int), buf) == flushed(buf)
                        + emitted + rest);
                    assert(pre_flush + (flushed(buf) + emitted + rest) =~= tokens.deep_view()
                        + rest);
                    assert(tokens_of_chars(expression@) == tokens.deep_view()
                        + tokens_of_chars_from(expression@.skip(i + 1), literal_buffer@));
                }
            },
        }
        i = i + 1;
    }
    proof {
        assert(expression@.skip(n as int) =~= Seq::<char>::empty());
    }
    // The final literal, if the expression ends in the middle of one.
    if literal_buffer.len() > 0 {
        let ghost pre = tokens;
        let literal = Literal::new(literal_buffer);
        let token = Token::Literal(literal);
        tokens.push(token);
        proof {
            lemma_deep_view_push(pre, tokens, token);
            assert(tokens.deep_view() =~= pre.deep_view() + flushed(literal@));
        }
    } else {
        proof {
            assert(tokens.deep_view() + flushed(literal_buffer@) =~= tokens.deep_view());
        }
    }
    tokens
}

/// Whether every literal among `ts` holds at least one digit.
pub open spec fn literals_nonempty(ts: Seq<TokenView>) -> bool {
    forall|i: int|
        0 <= i < ts.len() ==> (#[trigger] ts[i] matches TokenView::Literal(ds) ==> ds.len() > 0)
}

/// The scan only flushes a literal once at least one digit is buffered, so
/// no literal it emits is ever empty, whatever the input text.
pub proof fn lemma_tokenize_literals_nonempty(s: Seq<char>)
    ensures
        literals_nonempty(tokens_of_chars(s)),
{
    lemma_tokenize_from_literals_nonempty(s, seq![]);
}

proof fn lemma_tokenize_from_literals_nonempty(s: Seq<char>, buf: Seq<Digit>)
    ensures
        literals_nonempty(tokens_of_chars_from(s, buf)),
    decreases s.len(),
{
    if s.len() == 0 {
    } else if is_digit_char(s[0]) {
        lemma_tokenize_from_literals_nonempty(s.drop_first(), buf.push(digit_of_char(s[0])));
    } else {
        lemma_tokenize_from_literals_nonempty(s.drop_first(), seq![]);
        let flush = flushed(buf);
        let emitted = match token_of_char(s[0]) {
            Some(t) => seq![t],
            None => seq![],
        };
        let rest = tokens_of_chars_from(s.drop_first(), seq![]);
        assert forall|i: int| 0 <= i < (flush + emitted + rest).len() implies (#[trigger] (flush
            + emitted + rest)[i] matches TokenView::Literal(ds) ==> ds.len() > 0) by {
            if i < flush.len() + emitted.len() {
                if i < flush.len() {
                    assert((flush + emitted + rest)[i] == flush[i]);
                } else {
                    assert((flush + emitted + rest)[i] == emitted[i - flush.len()]);
                }
            } else {
                assert((flush + emitted + rest)[i] == rest[i - flush.len() - emitted.len()]);
            }
        }
    }
}

/// The text a token sequence renders back to: each token's characters in
/// order, with nothing in between.
pub open spec fn chars_of_tokens(ts: Seq<TokenView>) -> Seq<char>
    decreases ts.len(),
{
    if ts.len() == 0 {
        seq![]
    } else {
        chars_of_token(ts[0]) + chars_of_tokens(ts.drop_first())
    }
}

/// An empty token sequence renders to empty text.
proof fn lemma_chars_of_no_tokens()
    ensures
        chars_of_tokens(Seq::<TokenView>::empty()) == Seq::<char>::empty(),
{
    assert(chars_of_tokens(Seq::<TokenView>::empty()) =~= Seq::<char>::empty());
}

/// A single token renders to its own characters.
proof fn lemma_chars_of_single_token(t: TokenView)
    ensures
        chars_of_tokens(seq![t]) == chars_of_token(t),
{
    lemma_chars_of_no_tokens();
    assert(seq![t].drop_first() =~= Seq::<TokenView>::empty());
    assert(chars_of_tokens(seq![t]) =~= chars_of_token(t));
}

/// The flushed buffer renders to exactly the buffered digits' characters.
proof fn lemma_chars_of_flushed(buf: Seq<Digit>)
    ensures
        chars_of_tokens(flushed(buf)) == chars_of_digits(buf),
{
    lemma_chars_of_no_tokens();
    if buf.len() == 0 {
        assert(chars_of_digits(buf) =~= Seq::<char>::empty());
        assert(flushed(buf) =~= Seq::<TokenView>::empty());
    } else {
        lemma_chars_of_single_token(TokenView::Literal(buf));
    }
}

/// Rendering splits over concatenation of token sequences.
pub proof fn lemma_chars_of_tokens_concat(a: Seq<TokenView>, b: Seq<TokenView>)
    ensures
        chars_of_tokens(a + b) == chars_of_tokens(a) + chars_of_tokens(b),
    decreases a.len(),
{
    if a.len() == 0 {
        assert(a + b =~= b);
        assert(chars_of_tokens(a) + chars_of_tokens(b) =~= chars_of_tokens(b));
    } else {
        lemma_chars_of_tokens_concat(a.drop_first(), b);
        assert((a + b).drop_first() =~= a.drop_first() + b);
        assert((a + b)[0] == a[0]);
        assert(chars_of_token(a[0]) + (chars_of_tokens(a.drop_first()) + chars_of_tokens(b))
            =~= (chars_of_token(a[0]) + chars_of_tokens(a.drop_first())) + chars_of_tokens(b));
    }
}

/// Renders a token sequence back to flat text.
pub fn tokens_to_text(tokens: &Vec<Token>) -> (s: String)
    ensures
        s@ == chars_of_tokens(tokens.deep_view()),
{
    let mut s = String::new();
    let mut i: usize = 0;
    while i < tokens.len()
        invariant
            i <= tokens.len(),
            s@ == chars_of_tokens(tokens.deep_view().take(i as int)),
        decreases tokens.len() - i,
    {
        let text = tokens[i].to_text();
        s.append(text.as_str());
        proof {
            let dv = tokens.deep_view();
            assert(dv.take(i + 1) =~= dv.take(i as int) + seq![dv[i as int]]);
            lemma_chars_of_tokens_concat(dv.take(i as int), seq![dv[i as int]]);
            lemma_chars_of_single_token(dv[i as int]);
            assert(s@ =~= chars_of_tokens(dv.take(i + 1)));
        }
        i = i + 1;
    }
    proof {
        assert(tokens.deep_view().take(tokens@.len() as int) =~= tokens.deep_view());
    }
    s
}

/// Rendering the tokens of an all-recognized text gives the text back,
/// whatever digits are already buffered: the buffered digits come first,
/// then the text, character for character.
proof fn lemma_chars_of_tokens_from(s: Seq<char>, buf: Seq<Digit>)
    requires
        all_recognized(s),
    ensures
        chars_of_tokens(tokens_of_chars_from(s, buf)) == chars_of_digits(buf) + s,
    decreases s.len(),
{
    if s.len() == 0 {
        lemma_chars_of_flushed(buf);
        assert(chars_of_digits(buf) + s =~= chars_of_digits(buf));
    } else {
        let c = s[0];
        let rest = s.drop_first();
        assert(is_recognized_char(c));
        assert(all_recognized(rest)) by {
            assert(forall|i: int| 0 <= i < rest.len() ==> rest[i] == s[i + 1]);
        }
        if is_digit_char(c) {
            lemma_chars_of_tokens_from(rest, buf.push(digit_of_char(c)));
            lemma_digit_char_inverse(c);
            assert(chars_of_digits(buf.push(digit_of_char(c))) =~= chars_of_digits(buf)
                + seq![c]);
            assert(chars_of_digits(buf) + seq![c] + rest =~= chars_of_digits(buf) + s);
        } else {
            lemma_chars_of_tokens_from(rest, seq![]);
            let t = token_of_char(c)->Some_0;
            assert(token_of_char(c) is Some);
            assert(chars_of_token(t) =~= seq![c]) by {
                if is_operator_char(c) {
                    lemma_operator_char_inverse(c);
                }
            }
            let emitted = seq![t];
            lemma_chars_of_tokens_concat(flushed(buf) + emitted, tokens_of_chars_from(
                rest,
                seq![],
            ));
            lemma_chars_of_tokens_concat(flushed(buf), emitted);
            lemma_chars_of_flushed(buf);
            lemma_chars_of_single_token(t);
            assert(chars_of_digits(Seq::<Digit>::empty()) =~= Seq::<char>::empty());
            assert(chars_of_tokens(tokens_of_chars_from(rest, seq![])) =~= rest);
            assert(chars_of_tokens(tokens_of_chars_from(s, buf)) =~= chars_of_digits(buf) + s);
        }
    }
}

/// Scanning a run of digit characters buffers them all: the scan of
/// `s + rest` from buffer `buf` is the scan of `rest` from the buffer
/// extended with the digits of `s`.
pub proof fn lemma_tokenize_digit_run(s: Seq<char>, rest: Seq<char>, buf: Seq<Digit>)
    requires
        all_digits(s),
    ensures
        tokens_of_chars_from(s + rest, buf) == tokens_of_chars_from(
            rest,
            buf + digits_of_chars(s),
        ),
    decreases s.len(),
{
    if s.len() == 0 {
        assert(s + rest =~= rest);
        assert(buf + digits_of_chars(s) =~= buf);
    } else {
        let tail = s.drop_first();
        assert(all_digits(tail)) by {
            assert(forall|i: int| 0 <= i < tail.len() ==> tail[i] == s[i + 1]);
        }
        assert((s + rest)[0] == s[0]);
        assert((s + rest).drop_first() =~= tail + rest);
        lemma_tokenize_digit_run(tail, rest, buf.push(digit_of_char(s[0])));
        assert(buf.push(digit_of_char(s[0])) + digits_of_chars(tail) =~= buf + digits_of_chars(
            s,
        ));
    }
}

/// Lexing a two-operand expression — a non-empty digit run, one operator
/// character, a non-empty digit run — yields exactly a literal, the
/// operator, and a literal.
pub proof fn lemma_tokenize_single_operator(a: Seq<char>, c: char, b: Seq<char>)
    requires
        a.len() > 0,
        b.len() > 0,
        all_digits(a),
        all_digits(b),
        is_operator_char(c),
    ensures
        tokens_of_chars(a + seq![c] + b) == seq![
            TokenView::Literal(digits_of_chars(a)),
            TokenView::Operator(operator_of_char(c)),
            TokenView::Literal(digits_of_chars(b)),
        ],
{
    let middle = seq![c] + b;
    assert(a + seq![c] + b =~= a + middle);
    lemma_tokenize_digit_run(a, middle, seq![]);
    assert(Seq::<Digit>::empty() + digits_of_chars(a) =~= digits_of_chars(a));
    // The operator character flushes the buffered run as one literal.
    assert(middle[0] == c);
    assert(middle.drop_first() =~= b);
    assert(digits_of_chars(a).len() > 0);
    lemma_tokenize_digit_run(b, seq![], seq![]);
    assert(b + Seq::<char>::empty() =~= b);
    assert(Seq::<Digit>::empty() + digits_of_chars(b) =~= digits_of_chars(b));
    assert(digits_of_chars(b).len() > 0);
    assert(tokens_of_chars_from(b, seq![]) == flushed(digits_of_chars(b)));
    assert(tokens_of_chars(a + seq![c] + b) =~= seq![
        TokenView::Literal(digits_of_chars(a)),
        TokenView::Operator(operator_of_char(c)),
        TokenView::Literal(digits_of_chars(b)),
    ]);
}

/// Re-lexing is the identity on rendered token text: for a text made only
/// of recognized characters, rendering its tokens gives the text back, so
/// lexing the rendered text of a token sequence yields that same sequence.
pub proof fn lemma_retokenize_identity(s: Seq<char>)
    requires
        all_recognized(s),
    ensures
        chars_of_tokens(tokens_of_chars(s)) == s,
        tokens_of_chars(chars_of_tokens(tokens_of_chars(s))) == tokens_of_chars(s),
{
    lemma_chars_of_tokens_from(s, seq![]);
    assert(chars_of_digits(Seq::<Digit>::empty()) + s =~= s);
}

} // verus!
