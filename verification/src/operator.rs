//! The five binary operators and their parsing priority.

use vstd::prelude::*;
use core::cmp::Ordering;

verus! {

/// A binary arithmetic operator.
#[derive(Clone, Copy, Debug, PartialEq, Eq, Structural)]
pub enum Operator {
    Plus,
    Minus,
    Times,
    Slash,
    Caret,
}

/// Whether `c` is one of the operator characters `+ - * / ^`.
pub open spec fn is_operator_char(c: char) -> bool {
    c == '+' || c == '-' || c == '*' || c == '/' || c == '^'
}

/// The operator a character stands for; meaningful only on operator characters.
pub open spec fn operator_of_char(c: char) -> Operator
    recommends
        is_operator_char(c),
{
    if c == '+' {
        Operator::Plus
    } else if c == '-' {
        Operator::Minus
    } else if c == '*' {
        Operator::Times
    } else if c == '/' {
        Operator::Slash
    } else {
        Operator::Caret
    }
}

/// The character an operator stands for.
pub open spec fn char_of_operator(op: Operator) -> char {
    match op {
        Operator::Plus => '+',
        Operator::Minus => '-',
        Operator::Times => '*',
        Operator::Slash => '/',
        Operator::Caret => '^',
    }
}

/// The priority rank an operator binds with: additive operators rank 1,
/// multiplicative 2, exponentiation 3. Operators of equal rank compare equal.
pub open spec fn priority_of(op: Operator) -> u32 {
    match op {
        Operator::Plus | Operator::Minus => 1,
        Operator::Times | Operator::Slash => 2,
        Operator::Caret => 3,
    }
}

impl Operator {
    /// Classifies a character: an operator character yields its operator,
    /// any other character yields nothing.
    pub fn new(c: char) -> (op: Option<Operator>)
        ensures
            op == (if is_operator_char(c) {
                Some(operator_of_char(c))
            } else {
                None::<Operator>
            }),
    {
        match c {
            '+' => Some(Operator::Plus),
            '-' => Some(Operator::Minus),
            '*' => Some(Operator::Times),
            '/' => Some(Operator::Slash),
            '^' => Some(Operator::Caret),
            _ => None,
        }
    }

    /// The single-character text of this operator.
    pub fn to_str(&self) -> (s: &'static str)
        ensures
            s@ == seq![char_of_operator(*self)],
    {
        proof {
            reveal_strlit("+");
            reveal_strlit("-");
            reveal_strlit("*");
            reveal_strlit("/");
            reveal_strlit("^");
        }
        let s = match *self {
            Operator::Plus => "+",
            Operator::Minus => "-",
            Operator::Times => "*",
            Operator::Slash => "/",
            Operator::Caret => "^",
        };
        proof {
            assert(s@ =~= seq![char_of_operator(*self)]);
        }
        s
    }

    /// The character representation of this operator.
    pub fn to_char(&self) -> (c: char)
        ensures
            c == char_of_operator(*self),
    {
        match *self {
            Operator::Plus => '+',
            Operator::Minus => '-',
            Operator::Times => '*',
            Operator::Slash => '/',
            Operator::Caret => '^',
        }
    }

    /// The priority rank used by the parser to compare adjacent operators.
    pub fn priority(&self) -> (p: u32)
        ensures
            p == priority_of(*self),
    {
        match *self {
            Operator::Plus | Operator::Minus => 1,
            Operator::Times | Operator::Slash => 2,
            Operator::Caret => 3,
        }
    }
}

/// Reading an operator character back from its operator is the identity.
pub proof fn lemma_operator_char_inverse(c: char)
    requires
        is_operator_char(c),
    ensures
        char_of_operator(operator_of_char(c)) == c,
{
}

impl PartialOrd for Operator {
    /// Operators are ordered by priority alone, so `Times` and `Slash`
    /// compare equal even though they are distinct operators.
    fn partial_cmp(&self, other: &Operator) -> (r: Option<Ordering>) {
        let a = self.priority();
        let b = other.priority();
        if a < b {
            Some(Ordering::Less)
        } else if a == b {
            Some(Ordering::Equal)
        } else {
            Some(Ordering::Greater)
        }
    }
}

impl vstd::std_specs::cmp::PartialOrdSpecImpl for Operator {
    open spec fn obeys_partial_cmp_spec() -> bool {
        true
    }

    open spec fn partial_cmp_spec(&self, other: &Operator) -> Option<Ordering> {
        if priority_of(*self) < priority_of(*other) {
            Some(Ordering::Less)
        } else if priority_of(*self) == priority_of(*other) {
            Some(Ordering::Equal)
        } else {
            Some(Ordering::Greater)
        }
    }
}

} // verus!
