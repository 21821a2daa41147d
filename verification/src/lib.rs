//! A reader for a small S-expression language: lists in parentheses, with
//! symbols, integers, floats, string literals and character literals as
//! tokens, `;` comments, and the line and column of every token.
mod ast;
pub mod grammar;
pub mod laws;
pub mod lexeme;
pub mod message;
pub mod one_token;
pub mod position;
pub mod parser;
pub mod stability;
pub mod token_order;

pub use ast::{
    view_asts, Ast, ParseError, SpecAst, SpecParseError, SpecToken, SpecTokenValue, Token,
    TokenValue,
};
pub use lexeme::{check_float, check_integer};
pub use message::error_text;
pub use parser::{parse, run, Context};
