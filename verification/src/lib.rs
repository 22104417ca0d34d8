//! A small arithmetic-expression front end: a tokeniser over text, a
//! recursive-descent parser over tokens, and the syntax tree they produce.
//!
//! Every function states its behaviour over mathematical models: a string is
//! its sequence of characters, a token and a tree are their views.

pub mod decimal;
pub mod evaluation;
pub mod expression;
pub mod lexer;
pub mod outcome;
pub mod parser;
pub mod printable;
pub mod round_trip;
pub mod text;
pub mod token;

pub use crate::expression::{Atom, Expression, MExpression};
pub use crate::lexer::{LexError, Tokeniser};
pub use crate::parser::ParseError;
pub use crate::token::Token;
