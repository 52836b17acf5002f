//! Numeric literals: ordered runs of decimal digits.

use vstd::prelude::*;
use vstd::string::{StrSliceExecFns, StringExecFns};
use crate::digit::{Digit, is_digit_char, digit_of_char, char_of_digit};

verus! {

/// A numeric literal, an ordered sequence of decimal digits with the most
/// significant digit first. The lexer only ever emits non-empty literals;
/// the type itself places no restriction on the sequence.
#[derive(Clone, Debug, PartialEq)]
pub struct Literal(Vec<Digit>);

impl View for Literal {
    type V = Seq<Digit>;

    closed spec fn view(&self) -> Seq<Digit> {
        self.0@
    }
}

/// The character representation of a digit sequence, digit by digit.
pub open spec fn chars_of_digits(ds: Seq<Digit>) -> Seq<char> {
    ds.map(|i: int, d: Digit| char_of_digit(d))
}

/// The digits named by the digit characters of `cs`, in order; all other
/// characters of `cs` are passed over.
pub open spec fn digits_of_chars(cs: Seq<char>) -> Seq<Digit>
    decreases cs.len(),
{
    if cs.len() == 0 {
        seq![]
    } else {
        let rest = digits_of_chars(cs.drop_first());
        if is_digit_char(cs[0]) {
            seq![digit_of_char(cs[0])] + rest
        } else {
            rest
        }
    }
}

impl Literal {
    /// Wraps a digit sequence as a literal.
    pub fn new(digits: Vec<Digit>) -> (l: Literal)
        ensures
            l@ == digits@,
    {
        Literal(digits)
    }

    /// Builds a literal from the digit characters of `text`, passing over
    /// every character that is not a digit.
    pub fn from_text(text: &str) -> (l: Literal)
        ensures
            l@ == digits_of_chars(text@),
    {
        let n = text.unicode_len();
        let mut digits: Vec<Digit> = Vec::new();
        let mut i: usize = 0;
        proof {
            assert(text@.skip(0) =~= text@);
            assert(digits@ + digits_of_chars(text@) =~= digits_of_chars(text@));
        }
        while i < n
            invariant
                i <= n,
                n == text@.len(),
                digits_of_chars(text@) == digits@ + digits_of_chars(text@.skip(i as int)),
            decreases n - i,
        {
            let c = text.get_char(i);
            proof {
                assert(text@.skip(i as int).drop_first() =~= text@.skip(i + 1));
                assert(text@.skip(i as int)[0] == text@[i as int]);
            }
            match Digit::new(c) {
                Some(d) => {
                    let ghost prev = digits@;
                    digits.push(d);
                    proof {
                        assert(digits@ + digits_of_chars(text@.skip(i + 1)) =~= prev + (seq![d]
                            + digits_of_chars(text@.skip(i + 1))));
                    }
                },
                None => {},
            }
            i = i + 1;
        }
        proof {
            assert(text@.skip(n as int) =~= Seq::<char>::empty());
            assert(digits_of_chars(text@) =~= digits@);
        }
        Literal(digits)
    }

    /// The text of this literal: its digits' characters in order.
    pub fn to_text(&self) -> (s: String)
        ensures
            s@ == chars_of_digits(self@),
    {
        let mut s = String::new();
        let mut i: usize = 0;
        while i < self.0.len()
            invariant
                i <= self.0.len(),
                s@ == chars_of_digits(self@.take(i as int)),
            decreases self.0.len() - i,
        {
            s.append(self.0[i].to_str());
            proof {
                assert(s@ =~= chars_of_digits(self@.take(i + 1)));
            }
            i = i + 1;
        }
        proof {
            assert(self@.take(self.0.len() as int) =~= self@);
        }
        s
    }
}

} // verus!
