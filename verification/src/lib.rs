//! A parser for one-line arithmetic expressions.
//!
//! A line of text is split into tokens ([`token`]), the tokens are grouped
//! into a flat sequence of syntax nodes by the grammar ([`grammar`]), and
//! the sequence is folded into an expression tree by precedence climbing
//! ([`climb`]).  [`parse`] does all three.  Every step is a total function
//! with a contract over a mathematical model of its input, and nothing is
//! kept from one line to the next.
//!
//! What holds of the parser as a whole is proved in [`laws`], [`signs`]
//! (which sequences of nodes stand for which lines), [`spelling`] (white
//! space does not matter) and [`stops`] (syntax errors are exact).

pub mod tree;
pub mod failure;
pub mod literal;
pub mod token;
pub mod node;
pub mod grammar;
pub mod climb;
pub mod parser;
pub mod laws;
pub mod signs;
pub mod spelling;
pub mod stops;

pub use crate::climb::parse_expr;
pub use crate::failure::{Expected, Fault, ParseFailure};
pub use crate::grammar::CalculatorParser;
pub use crate::node::SyntaxNode;
pub use crate::parser::parse;
pub use crate::token::{tokenize, Token, TokenKind};
pub use crate::tree::{Expr, Op};
