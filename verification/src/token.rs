//! Tokens, operators, and the table of precedence and associativity.
use vstd::prelude::*;
use crate::error::{Error, SpecError};

verus! {

/// Assumed of `String::push` in std, and not proved: it appends the one
/// character to the end of the string and changes nothing else.
pub assume_specification[ String::push ](s: &mut String, ch: char)
    ensures
        final(s)@ == old(s)@.push(ch),
;

/// How a chain of operators of one precedence groups.
///
/// For a binary operator `~`, `x ~ y ~ q` is `(x ~ y) ~ q` if `~` associates
/// to the left and `x ~ (y ~ q)` if it associates to the right.
#[derive(PartialEq, Eq, Structural, Debug, Clone, Copy)]
pub enum Assoc {
    LEFT,
    /// The operator does not chain. No operator of the table is of this kind.
    NONE,
    RIGHT,
}

/// The operators.
///
/// Binary: `+`, `-`, `*`, `/`, `^`. Unary: `-` (negation), `!` (factorial).
#[derive(PartialEq, Eq, Structural, Debug, Clone, Copy)]
pub enum Op {
    SUM,
    SUB,
    EXP,
    DIV,
    MUL,
    FAC,
    NEG,
}

impl Op {
    /// The operator that a character stands for, if any. A `-` read alone is
    /// the subtraction; the scanner decides from context when it negates.
    pub open spec fn of_char(c: char) -> Option<Op> {
        if c == '-' {
            Some(Op::SUB)
        } else if c == '+' {
            Some(Op::SUM)
        } else if c == '*' {
            Some(Op::MUL)
        } else if c == '/' {
            Some(Op::DIV)
        } else if c == '^' {
            Some(Op::EXP)
        } else if c == '!' {
            Some(Op::FAC)
        } else {
            None
        }
    }

    /// Reads an operator from a character. Any character outside
    /// `+ - * / ^ !` is a lexical error that holds that character.
    pub fn from_char(s: char) -> (r: Result<Op, Error>)
        ensures
            match Op::of_char(s) {
                Some(op) => r == Ok::<Op, Error>(op),
                None => r is Err && r->Err_0@ == SpecError::Lex(seq![s]),
            },
    {
        match s {
            '-' => Ok(Op::SUB),
            '+' => Ok(Op::SUM),
            '*' => Ok(Op::MUL),
            '/' => Ok(Op::DIV),
            '^' => Ok(Op::EXP),
            '!' => Ok(Op::FAC),
            _ => {
                let mut text = String::new();
                text.push(s);
                Err(Error::Lex(text))
            },
        }
    }

    /// Whether the operator takes two operands.
    pub open spec fn spec_is_binary(&self) -> bool {
        !(*self == Op::FAC || *self == Op::NEG)
    }

    /// Whether the operator takes two operands.
    #[verifier::when_used_as_spec(spec_is_binary)]
    pub fn is_binary(&self) -> (b: bool)
        ensures
            b == self.spec_is_binary(),
    {
        match *self {
            Op::FAC | Op::NEG => false,
            _ => true,
        }
    }

    /// The table of associativity.
    pub open spec fn spec_assoc(&self) -> Assoc {
        match *self {
            Op::SUM | Op::MUL | Op::SUB | Op::DIV => Assoc::LEFT,
            Op::EXP | Op::NEG | Op::FAC => Assoc::RIGHT,
        }
    }

    /// The operator's associativity: the four arithmetic operators group to
    /// the left, the power and the unary operators to the right.
    #[verifier::when_used_as_spec(spec_assoc)]
    pub fn assoc(&self) -> (a: Assoc)
        ensures
            a == self.spec_assoc(),
    {
        match *self {
            Op::SUM | Op::MUL | Op::SUB | Op::DIV => Assoc::LEFT,
            Op::EXP | Op::NEG | Op::FAC => Assoc::RIGHT,
        }
    }

    /// The table of precedence: the negation 5, the power and the factorial
    /// 4, the product and the quotient 3, the sum and the difference 2.
    pub open spec fn spec_prec(&self) -> u8 {
        match *self {
            Op::NEG => 5,
            Op::EXP | Op::FAC => 4,
            Op::MUL | Op::DIV => 3,
            Op::SUB | Op::SUM => 2,
        }
    }

    /// The operator's precedence. An operator of higher precedence binds its
    /// operands before one of lower precedence does.
    #[verifier::when_used_as_spec(spec_prec)]
    pub fn prec(&self) -> (p: u8)
        ensures
            p == self.spec_prec(),
    {
        match *self {
            Op::NEG => 5,
            Op::EXP | Op::FAC => 4,
            Op::SUB | Op::SUM => 2,
            Op::MUL | Op::DIV => 3,
        }
    }
}

/// A decimal digit.
pub open spec fn is_digit(c: char) -> bool {
    '0' <= c && c <= '9'
}

/// A letter of the Latin alphabet, of either case.
pub open spec fn is_letter(c: char) -> bool {
    ('a' <= c && c <= 'z') || ('A' <= c && c <= 'Z')
}

/// A character of a numeric literal: a digit or the point.
pub open spec fn is_numeric(c: char) -> bool {
    is_digit(c) || c == '.'
}

/// The text of a number: it starts with a digit, holds digits and points
/// only, and no more than one point.
pub open spec fn is_number(lexeme: Seq<char>) -> bool {
    &&& lexeme.len() > 0
    &&& is_digit(lexeme[0])
    &&& forall|i: int| 0 <= i < lexeme.len() ==> is_numeric(#[trigger] lexeme[i])
    &&& forall|i: int, j: int|
        0 <= i < j < lexeme.len() && #[trigger] lexeme[i] == '.' ==> #[trigger] lexeme[j] != '.'
}

/// The text of a name: one letter or more.
pub open spec fn is_name(lexeme: Seq<char>) -> bool {
    &&& lexeme.len() > 0
    &&& forall|i: int| 0 <= i < lexeme.len() ==> is_letter(#[trigger] lexeme[i])
}

/// A lexical token.
#[derive(Debug, PartialEq)]
pub enum Token {
    /// A numeric literal, held as its text: digits with at most one point.
    Num(String),
    /// A binary operator.
    Bin(Op),
    /// A unary operator.
    Una(Op),
    /// The name of a function: an identifier with a `(` right behind it.
    Fn(String),
    /// The name of a variable.
    Var(String),
    /// A left parenthesis.
    LP,
    /// A right parenthesis.
    RP,
}

/// The mathematical content of a [`Token`]: text is a sequence of characters.
pub enum SpecToken {
    Num(Seq<char>),
    Bin(Op),
    Una(Op),
    Fn(Seq<char>),
    Var(Seq<char>),
    LP,
    RP,
}

impl View for Token {
    type V = SpecToken;

    open spec fn view(&self) -> SpecToken {
        match self {
            Token::Num(s) => SpecToken::Num(s@),
            Token::Bin(op) => SpecToken::Bin(*op),
            Token::Una(op) => SpecToken::Una(*op),
            Token::Fn(s) => SpecToken::Fn(s@),
            Token::Var(s) => SpecToken::Var(s@),
            Token::LP => SpecToken::LP,
            Token::RP => SpecToken::RP,
        }
    }
}

impl SpecToken {
    /// Whether the token is one that the scanner makes: its text is that of a
    /// number or of a name, and its operator takes as many operands as the
    /// token says.
    pub open spec fn wf(self) -> bool {
        match self {
            SpecToken::Num(text) => is_number(text),
            SpecToken::Bin(op) => op.spec_is_binary(),
            SpecToken::Una(op) => !op.spec_is_binary(),
            SpecToken::Fn(name) => is_name(name),
            SpecToken::Var(name) => is_name(name),
            SpecToken::LP => true,
            SpecToken::RP => true,
        }
    }

    /// The operator that the token carries.
    pub open spec fn op(self) -> Option<Op> {
        match self {
            SpecToken::Bin(op) => Some(op),
            SpecToken::Una(op) => Some(op),
            _ => None,
        }
    }
}

impl Token {
    /// Whether the token is a binary operator.
    #[inline]
    pub fn is_bin(&self) -> (b: bool)
        ensures
            b == (self@ is Bin),
    {
        matches!(self, Token::Bin(_))
    }

    /// Whether the token is an operator, binary or unary.
    #[inline]
    pub fn is_op(&self) -> (b: bool)
        ensures
            b == (self@ is Bin || self@ is Una),
    {
        matches!(self, Token::Bin(_)) || matches!(self, Token::Una(_))
    }

    /// The operator of an operator token.
    #[inline]
    pub fn get_op(&self) -> (r: Option<Op>)
        ensures
            r == self@.op(),
    {
        if let Token::Bin(op) = self {
            Some(*op)
        } else if let Token::Una(op) = self {
            Some(*op)
        } else {
            None
        }
    }
}

impl Clone for Token {
    fn clone(&self) -> (t: Self)
        ensures
            t@ == self@,
    {
        match self {
            Token::Num(s) => Token::Num(s.clone()),
            Token::Bin(op) => Token::Bin(*op),
            Token::Una(op) => Token::Una(*op),
            Token::Fn(s) => Token::Fn(s.clone()),
            Token::Var(s) => Token::Var(s.clone()),
            Token::LP => Token::LP,
            Token::RP => Token::RP,
        }
    }
}

} // verus!
