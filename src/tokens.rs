//! The tokens of the base dialect.
use vstd::prelude::*;

verus! {

/// One token of the base dialect. `position` is the byte offset of the
/// token's first character in the source text.
#[derive(Debug, PartialEq)]
pub enum Token<'a> {
    /// A character that starts no token.
    Illegal,
    /// The end of the input; the lexer itself ends its sequence instead.
    EOF,
    Ident { position: usize, val: &'a str },
    Int64 { position: usize, val: i64 },
    /// `=`
    Assign { position: usize },
    /// `+`
    Plus { position: usize },
    /// `,`
    Comma,
    /// `;`
    Semicolon,
    /// `(`
    LParen,
    /// `)`
    RParen,
    /// `{`
    LBrace,
    /// `}`
    RBrace,
    /// `fn`, which the base dialect does not reserve.
    Function,
    /// `let`
    Let { position: usize },
}

} // verus!
