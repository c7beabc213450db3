//! A parser and evaluator for infix arithmetic expressions.
//!
//! Text is scanned into tokens ([`lexer`]), the tokens are arranged into a
//! syntax tree by an operator-precedence parser ([`parser`]), and the tree is
//! reduced to the postfix sequence of arithmetic steps that computes its value
//! ([`eval`]). An [`Expr`] keeps a parsed expression together with the values
//! of its variables. Every stage carries a contract over a mathematical model
//! of its data, checked by Verus; [`infix`] and [`written`] prove that the
//! stages together read an expression as infix arithmetic does.
//!
//! The library holds no floating-point value: a numeric literal travels as its
//! text, and the value bound to a variable as the 64 bits of an IEEE 754
//! double. The arithmetic itself is left to whoever takes the steps.
//!
//! ```text
//! let mut e = Expr::new("x + 1")?;
//! e.set_var("x", 0x4010_0000_0000_0000);   // the bits of 4.0
//! e.eval()   // Value(0x4010_0000_0000_0000), Literal("1"), Apply(SUM)
//! ```
pub mod bindings;
pub mod error;
pub mod eval;
pub mod expr;
pub mod infix;
pub mod lexer;
pub mod parser;
pub mod token;
pub mod written;

pub use bindings::Bindings;
pub use error::{Error, SpecError, SyntaxError};
pub use eval::{SpecStep, Step};
pub use expr::Expr;
pub use lexer::tokenize;
pub use parser::{parse, parse_tokens, AstNode, SpecNode, AST};
pub use token::{Assoc, Op, SpecToken, Token};
