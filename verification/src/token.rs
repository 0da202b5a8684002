//! Lexical tokens produced by the scanner and consumed by the parser.

use vstd::prelude::*;

verus! {

/// The class of a lexical token.
#[derive(Clone, Copy, Debug, PartialEq, Eq, Structural)]
pub enum TokenKind {
    /// A single parenthesis, `(` or `)`.
    Paren,
    /// A run of decimal digits.
    Number,
    /// A quoted string literal, delimiters stripped.
    Str,
    /// A run of alphabetic characters.
    Name,
}

/// One lexical token: its class and its exact text.
///
/// For `Paren` the text is `"("` or `")"`; for `Str` it is the contents
/// with the surrounding quotes stripped; for `Number` and `Name` it is
/// the scanned run itself.
#[derive(Clone, Debug, PartialEq)]
pub struct Token {
    pub kind: TokenKind,
    pub value: String,
}

/// The mathematical model of a token: its class and its text as a
/// sequence of characters.
pub struct SpecToken {
    pub kind: TokenKind,
    pub value: Seq<char>,
}

impl View for Token {
    type V = SpecToken;

    open spec fn view(&self) -> SpecToken {
        SpecToken { kind: self.kind, value: self.value@ }
    }
}

/// The model of a token sequence: each token replaced by its model.
pub open spec fn view_tokens(tokens: Seq<Token>) -> Seq<SpecToken> {
    tokens.map_values(|t: Token| t@)
}

} // verus!
