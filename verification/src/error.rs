//! The ways in which scanning, parsing and evaluation fail.
use vstd::prelude::*;
use crate::token::{SpecToken, Token};

verus! {

/// Why a token sequence is no expression.
#[derive(Debug, PartialEq, Eq, Structural, Clone, Copy)]
pub enum SyntaxError {
    /// A right parenthesis with no left one open, or a left one never closed.
    UnbalancedParen,
    /// An operator with fewer operands before it than it takes.
    MissingOperand,
    /// The tokens form no expression at all, or more than one.
    NotOneExpression,
}

/// An error of any stage of the pipeline.
#[derive(Debug, PartialEq)]
pub enum Error {
    /// A lexeme that is no token: a malformed number, or a character that is
    /// no operator. Holds the offending text.
    Lex(String),
    /// The tokens are not arranged as an expression.
    Syntax(SyntaxError),
    /// Evaluation met an identifier that has no binding. Holds its name.
    UndefinedVariable(String),
    /// A token that is recognised but has no rule: a function name in the
    /// parser, a factorial in the evaluator. Holds the token.
    UnsupportedOperator(Token),
}

/// The mathematical content of an [`Error`].
pub enum SpecError {
    Lex(Seq<char>),
    Syntax(SyntaxError),
    UndefinedVariable(Seq<char>),
    UnsupportedOperator(SpecToken),
}

impl View for Error {
    type V = SpecError;

    open spec fn view(&self) -> SpecError {
        match self {
            Error::Lex(s) => SpecError::Lex(s@),
            Error::Syntax(e) => SpecError::Syntax(*e),
            Error::UndefinedVariable(s) => SpecError::UndefinedVariable(s@),
            Error::UnsupportedOperator(t) => SpecError::UnsupportedOperator(t@),
        }
    }
}

impl Clone for Error {
    fn clone(&self) -> (e: Self)
        ensures
            e@ == self@,
    {
        match self {
            Error::Lex(s) => Error::Lex(s.clone()),
            Error::Syntax(e) => Error::Syntax(*e),
            Error::UndefinedVariable(s) => Error::UndefinedVariable(s.clone()),
            Error::UnsupportedOperator(t) => Error::UnsupportedOperator(t.clone()),
        }
    }
}

} // verus!
