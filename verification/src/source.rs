//! Lexing and parsing of boolean expressions.

pub mod lexer;
pub mod parser;

pub use lexer::{Lexer, Span, SpannedToken, Token};
pub use parser::{Expr, ParseError, Parser};
