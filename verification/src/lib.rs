//! Front end for a minimal S-expression language: a scanner that turns
//! source text into tokens, and a recursive-descent parser that turns
//! tokens into an abstract syntax tree of call expressions and literals.

pub mod lexer;
pub mod parser;
pub mod token;
