//! The ten decimal digits, the atoms of a numeric literal.

use vstd::prelude::*;

verus! {

/// One decimal digit. A literal token is a non-empty run of these.
#[derive(Clone, Copy, Debug, PartialEq, Eq, Structural)]
pub enum Digit {
    Zero,
    One,
    Two,
    Three,
    Four,
    Five,
    Six,
    Seven,
    Eight,
    Nine,
}

/// Whether `c` is one of the characters `'0'` through `'9'`.
pub open spec fn is_digit_char(c: char) -> bool {
    c == '0' || c == '1' || c == '2' || c == '3' || c == '4' || c == '5' || c == '6' || c == '7'
        || c == '8' || c == '9'
}

/// The digit a character stands for; meaningful only on digit characters.
pub open spec fn digit_of_char(c: char) -> Digit
    recommends
        is_digit_char(c),
{
    if c == '0' {
        Digit::Zero
    } else if c == '1' {
        Digit::One
    } else if c == '2' {
        Digit::Two
    } else if c == '3' {
        Digit::Three
    } else if c == '4' {
        Digit::Four
    } else if c == '5' {
        Digit::Five
    } else if c == '6' {
        Digit::Six
    } else if c == '7' {
        Digit::Seven
    } else if c == '8' {
        Digit::Eight
    } else {
        Digit::Nine
    }
}

/// The character a digit stands for.
pub open spec fn char_of_digit(d: Digit) -> char {
    match d {
        Digit::Zero => '0',
        Digit::One => '1',
        Digit::Two => '2',
        Digit::Three => '3',
        Digit::Four => '4',
        Digit::Five => '5',
        Digit::Six => '6',
        Digit::Seven => '7',
        Digit::Eight => '8',
        Digit::Nine => '9',
    }
}

impl Digit {
    /// Classifies a character: a digit character yields its digit, any other
    /// character yields nothing.
    pub fn new(c: char) -> (d: Option<Digit>)
        ensures
            d == (if is_digit_char(c) {
                Some(digit_of_char(c))
            } else {
                None::<Digit>
            }),
    {
        match c {
            '0' => Some(Digit::Zero),
            '1' => Some(Digit::One),
            '2' => Some(Digit::Two),
            '3' => Some(Digit::Three),
            '4' => Some(Digit::Four),
            '5' => Some(Digit::Five),
            '6' => Some(Digit::Six),
            '7' => Some(Digit::Seven),
            '8' => Some(Digit::Eight),
            '9' => Some(Digit::Nine),
            _ => None,
        }
    }

    /// The single-character text of this digit.
    pub fn to_str(&self) -> (s: &'static str)
        ensures
            s@ == seq![char_of_digit(*self)],
    {
        proof {
            reveal_strlit("0");
            reveal_strlit("1");
            reveal_strlit("2");
            reveal_strlit("3");
            reveal_strlit("4");
            reveal_strlit("5");
            reveal_strlit("6");
            reveal_strlit("7");
            reveal_strlit("8");
            reveal_strlit("9");
        }
        let s = match *self {
            Digit::Zero => "0",
            Digit::One => "1",
            Digit::Two => "2",
            Digit::Three => "3",
            Digit::Four => "4",
            Digit::Five => "5",
            Digit::Six => "6",
            Digit::Seven => "7",
            Digit::Eight => "8",
            Digit::Nine => "9",
        };
        proof {
            assert(s@ =~= seq![char_of_digit(*self)]);
        }
        s
    }

    /// The character representation of this digit.
    pub fn to_char(&self) -> (c: char)
        ensures
            c == char_of_digit(*self),
    {
        match *self {
            Digit::Zero => '0',
            Digit::One => '1',
            Digit::Two => '2',
            Digit::Three => '3',
            Digit::Four => '4',
            Digit::Five => '5',
            Digit::Six => '6',
            Digit::Seven => '7',
            Digit::Eight => '8',
            Digit::Nine => '9',
        }
    }
}

/// Reading a digit character back from its digit is the identity, and a
/// digit's character is always a digit character.
pub proof fn lemma_digit_char_inverse(c: char)
    requires
        is_digit_char(c),
    ensures
        char_of_digit(digit_of_char(c)) == c,
        is_digit_char(char_of_digit(digit_of_char(c))),
{
}

} // verus!
