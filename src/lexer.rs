//! The lexer of the base dialect.
use crate::scanner::{
    classify, keyword, keyword_of, lemma_scan_bounds, lex, next_lexeme, scan, word_text, Dialect,
    Kind, Lexeme,
};
use crate::tokens::Token;
use vstd::prelude::*;
use vstd::string::StringSliceAdditionalSpecFns;

verus! {

/// A lexer over one source text, not yet started.
pub struct Lexer<'a> {
    text: &'a str,
}

/// A lexer over `text`.
pub fn new(text: &str) -> (r: Lexer<'_>)
    ensures
        r.source() == text.spec_bytes(),
{
    Lexer { text }
}

impl<'a> Lexer<'a> {
    /// The UTF-8 bytes of the source text.
    pub closed spec fn source(&self) -> Seq<u8> {
        self.text.spec_bytes()
    }

    /// Starts the lexer at the beginning of its text.
    pub fn into_iter(self) -> (r: LexerIntoIterator<'a>)
        ensures
            r.wf(),
            r.source() == self.source(),
            r.cursor() == 0,
    {
        // Reading the length tells the proof that it fits in a `usize`.
        let _n = self.text.as_bytes().len();
        LexerIntoIterator { text: self.text, pos: 0 }
    }
}

/// A lexer under way: the source text and a cursor into it.
pub struct LexerIntoIterator<'a> {
    text: &'a str,
    pos: usize,
}

/// `t` is the token of the base dialect for the lexeme `l` of source `b`.
pub open spec fn denotes<'a>(t: Token<'a>, l: Lexeme, b: Seq<u8>) -> bool {
    let p = l.start;
    match l.kind {
        Kind::Illegal => t is Illegal,
        Kind::Ident => t matches Token::Ident { position, val } && position == p
            && val.spec_bytes() == b.subrange(l.start as int, l.end as int),
        Kind::Int { value } => t == Token::Int64 { position: p, val: value },
        Kind::Assign => t == Token::Assign { position: p },
        Kind::Plus => t == Token::Plus { position: p },
        Kind::Comma => t is Comma,
        Kind::Semicolon => t is Semicolon,
        Kind::LParen => t is LParen,
        Kind::RParen => t is RParen,
        Kind::LBrace => t is LBrace,
        Kind::RBrace => t is RBrace,
        Kind::Let => t == Token::Let { position: p },
        _ => false,
    }
}

/// `t`, with an identifier whose text is a reserved word turned into that
/// keyword.
pub open spec fn keyword_token<'a>(t: Token<'a>) -> Token<'a> {
    match t {
        Token::Ident { position, val } => match keyword(Dialect::Base, val.spec_bytes()) {
            Some(Kind::Let) => Token::Let { position },
            _ => t,
        },
        _ => t,
    }
}

/// Turns an identifier whose text is a reserved word into that keyword, at
/// the same position; returns any other token as it is.
pub fn ident_keyword_check<'a>(t: Token<'a>) -> (r: Token<'a>)
    ensures
        r == keyword_token(t),
{
    if let Token::Ident { position, val } = t {
        match keyword_of(Dialect::Base, val.as_bytes()) {
            Some(Kind::Let) => Token::Let { position },
            _ => Token::Ident { position, val },
        }
    } else {
        t
    }
}

/// The token for the lexeme `l`, which `scan` found in `text`.
fn token_of<'a>(text: &'a str, l: Lexeme) -> (r: Token<'a>)
    requires
        l.start < l.end <= text.spec_bytes().len(),
        !(l.kind is Arrow || l.kind is Colon || l.kind is Function || l.kind is Let
            || l.kind is Proto),
        l.kind is Ident ==> forall|j: int|
            l.start <= j < l.end ==> crate::scanner::is_ident_char(#[trigger] text.spec_bytes()[j]),
    ensures
        denotes(r, classify(Dialect::Base, text.spec_bytes(), l), text.spec_bytes()),
{
    let p = l.start;
    match l.kind {
        Kind::Illegal => Token::Illegal,
        Kind::Ident => {
            let val = word_text(text, l.start, l.end);
            ident_keyword_check(Token::Ident { position: p, val })
        },
        Kind::Int { value } => Token::Int64 { position: p, val: value },
        Kind::Assign => Token::Assign { position: p },
        Kind::Plus => Token::Plus { position: p },
        Kind::Comma => Token::Comma,
        Kind::Semicolon => Token::Semicolon,
        Kind::LParen => Token::LParen,
        Kind::RParen => Token::RParen,
        Kind::LBrace => Token::LBrace,
        Kind::RBrace => Token::RBrace,
        _ => Token::Illegal,
    }
}

impl<'a> LexerIntoIterator<'a> {
    /// The UTF-8 bytes of the source text.
    pub closed spec fn source(&self) -> Seq<u8> {
        self.text.spec_bytes()
    }

    /// The byte offset where the next token is looked for.
    pub closed spec fn cursor(&self) -> int {
        self.pos as int
    }

    pub closed spec fn wf(&self) -> bool {
        self.pos <= self.text.spec_bytes().len() <= usize::MAX
    }

    /// The lexemes that are still to come.
    pub open spec fn remaining(&self) -> Seq<Lexeme> {
        lex(Dialect::Base, self.source(), self.cursor())
    }

    /// The next token, or `None` once only whitespace is left.
    pub fn next(&mut self) -> (r: Option<Token<'a>>)
        requires
            old(self).wf(),
        ensures
            final(self).wf(),
            final(self).source() == old(self).source(),
            match next_lexeme(Dialect::Base, old(self).source(), old(self).cursor()) {
                Some(l) => r matches Some(t) && denotes(t, l, old(self).source())
                    && final(self).cursor() == l.end,
                None => r is None && final(self).cursor() == old(self).cursor(),
            },
    {
        let b = self.text.as_bytes();
        // Reading the length tells the proof that it fits in a `usize`.
        let _n = b.len();
        proof {
            lemma_scan_bounds(Dialect::Base, b@, self.pos as int);
        }
        match scan(Dialect::Base, b, self.pos) {
            None => None,
            Some(l) => {
                self.pos = l.end;
                Some(token_of(self.text, l))
            },
        }
    }

    /// All the tokens that are still to come, in order.
    pub fn collect(self) -> (r: Vec<Token<'a>>)
        requires
            self.wf(),
        ensures
            r.len() == self.remaining().len(),
            forall|i: int| 0 <= i < r.len() ==> denotes(#[trigger] r[i], self.remaining()[i], self.source()),
    {
        let ghost all = self.remaining();
        let ghost b = self.source();
        let mut it = self;
        let mut out: Vec<Token<'a>> = Vec::new();
        let ghost mut done: Seq<Lexeme> = seq![];
        loop
            invariant
                it.wf(),
                it.source() == b,
                b == self.source(),
                all == self.remaining(),
                done + it.remaining() == all,
                out.len() == done.len(),
                forall|i: int| 0 <= i < out.len() ==> denotes(#[trigger] out[i], done[i], b),
            decreases b.len() - it.cursor(),
        {
            let ghost before = it;
            proof {
                lemma_scan_bounds(Dialect::Base, b, it.cursor());
            }
            match it.next() {
                None => {
                    proof {
                        assert(before.remaining() =~= seq![]);
                        assert(done =~= all);
                    }
                    return out;
                },
                Some(t) => {
                    proof {
                        let l = next_lexeme(Dialect::Base, b, before.cursor())->0;
                        assert(before.remaining() == seq![l] + it.remaining());
                        assert(done + seq![l] + it.remaining() =~= all);
                        done = done + seq![l];
                    }
                    out.push(t);
                },
            }
        }
    }
}

} // verus!
