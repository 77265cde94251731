//! A tokenizer for a small experimental language.
//!
//! One scanning engine (`scanner`) serves two dialects of the language: the
//! base dialect (`lexer`, `tokens`) and the extended dialect that adds
//! function signatures (`common::lexer`, `common::tokens`).
pub mod common;
pub mod lexer;
pub mod scanner;
pub mod theorems;
pub mod tokens;
