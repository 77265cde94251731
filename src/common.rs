//! The extended dialect: `:`, `<-` and the keywords `fn` and `proto`.
pub mod lexer;
pub mod tokens;
