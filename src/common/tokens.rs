//! The tokens of the extended dialect.
use vstd::prelude::*;

verus! {

/// One token of the extended dialect. `position` is the byte offset of the
/// token's first character in the source text.
#[derive(Debug, PartialEq)]
pub enum Token<'a> {
    /// A character that starts no token.
    Illegal,
    /// The end of the input; the lexer itself ends its sequence instead.
    EOF,
    Ident { position: usize, val: &'a str },
    Int64 { position: usize, val: i64 },
    /// `=`
    Assign { position: usize },
    /// `<-`
    From { position: usize },
    /// `:`
    Colon { position: usize },
    /// `,`
    Comma,
    /// `;`
    Semicolon,
    /// `(`
    LParen { position: usize },
    /// `)`
    RParen { position: usize },
    /// `{`
    LBrace { position: usize },
    /// `}`
    RBrace { position: usize },
    /// `[`, which no rule of the lexer produces.
    LBracket { position: usize },
    /// `]`, which no rule of the lexer produces.
    RBracket { position: usize },
    /// `const`, which the lexer does not reserve.
    Const { position: usize },
    /// `fn`
    Function { position: usize },
    /// `let`
    Let { position: usize },
    /// `proto`
    Proto { position: usize },
}

} // verus!
