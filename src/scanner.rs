//! The scanning engine shared by both dialects.
//!
//! The engine works on the UTF-8 bytes of the source text. Every character
//! that it recognises is ASCII; any other character is consumed whole (its
//! leading byte and the continuation bytes after it) as one illegal lexeme.
//! Positions are byte offsets into the source text.
//!
//! An integer literal is the value of its digits reduced to a signed 64-bit
//! integer: a literal past `i64::MAX` wraps, as two's complement arithmetic
//! does, rather than failing or saturating.
use vstd::arithmetic::div_mod::{lemma_add_mod_noop, lemma_mul_mod_noop_left};
use vstd::prelude::*;
use vstd::string::StringSliceAdditionalSpecFns;
use vstd::utf8::{
    encode_utf8_valid_utf8, is_char_boundary, is_char_boundary_iff_not_is_continuation_byte,
    is_char_boundary_start_end_of_seq, is_continuation_byte, length_of_first_scalar,
    pop_first_scalar, valid_utf8,
};

verus! {

/// The two configurations of the scanner.
#[derive(Clone, Copy, Debug, PartialEq, Eq, Structural)]
pub enum Dialect {
    /// `=`, `+`, parentheses, braces, `,`, `;` and the keyword `let`.
    Base,
    /// `=`, `<-`, `:`, parentheses, braces, `,`, `;` and the keywords `fn`,
    /// `let` and `proto`.
    Extended,
}

/// What a lexeme is.
#[derive(Clone, Copy, Debug, PartialEq, Eq, Structural)]
pub enum Kind {
    Illegal,
    Ident,
    Int { value: i64 },
    Assign,
    Arrow,
    Plus,
    Colon,
    Comma,
    Semicolon,
    LParen,
    RParen,
    LBrace,
    RBrace,
    Function,
    Let,
    Proto,
}

/// One lexeme: its kind and the bytes `start..end` of the source it spans.
#[derive(Clone, Copy, Debug, PartialEq, Eq, Structural)]
pub struct Lexeme {
    pub kind: Kind,
    pub start: usize,
    pub end: usize,
}

pub open spec fn is_space(c: u8) -> bool {
    c == 0x20 || c == 0x09 || c == 0x0d || c == 0x0a
}

pub open spec fn is_letter(c: u8) -> bool {
    (0x61 <= c <= 0x7a) || (0x41 <= c <= 0x5a)
}

pub open spec fn is_digit(c: u8) -> bool {
    0x30 <= c <= 0x39
}

/// A letter or `_`.
pub open spec fn is_ident_start(c: u8) -> bool {
    is_letter(c) || c == 0x5f
}

/// A letter, a digit or `_`.
pub open spec fn is_ident_char(c: u8) -> bool {
    is_ident_start(c) || is_digit(c)
}

/// The first index at or after `i` whose byte is not in the class `p` (or the
/// end of `b`).
pub open spec fn run_end(b: Seq<u8>, i: int, p: spec_fn(u8) -> bool) -> int
    decreases b.len() - i,
{
    if 0 <= i < b.len() && p(b[i]) {
        run_end(b, i + 1, p)
    } else {
        i
    }
}

/// Where the run of whitespace starting at `i` ends.
pub open spec fn skip_space(b: Seq<u8>, i: int) -> int {
    run_end(b, i, |c: u8| is_space(c))
}

/// Where the run of identifier characters starting at `i` ends.
pub open spec fn ident_end(b: Seq<u8>, i: int) -> int {
    run_end(b, i, |c: u8| is_ident_char(c))
}

/// Where the run of digits starting at `i` ends.
pub open spec fn digits_end(b: Seq<u8>, i: int) -> int {
    run_end(b, i, |c: u8| is_digit(c))
}

/// Where the character whose first byte is at `i` ends.
pub open spec fn char_end(b: Seq<u8>, i: int) -> int {
    run_end(b, i + 1, |c: u8| is_continuation_byte(c))
}

/// The base-10 value of a string of digits.
pub open spec fn decimal(ds: Seq<u8>) -> nat
    decreases ds.len(),
{
    if ds.len() == 0 {
        0
    } else {
        decimal(ds.drop_last()) * 10 + (ds.last() - 0x30) as nat
    }
}

pub open spec fn two_pow_64() -> int {
    0x1_0000_0000_0000_0000
}

/// `n` reduced to a signed 64-bit integer, as two's complement arithmetic
/// wraps it.
pub open spec fn wrap_i64(n: int) -> int {
    let m = n % two_pow_64();
    if m < 0x8000_0000_0000_0000 {
        m
    } else {
        m - two_pow_64()
    }
}

/// The lexeme of a single-character punctuation mark `c` in dialect `d`.
pub open spec fn punct(d: Dialect, c: u8) -> Option<Kind> {
    if c == 0x3d {
        Some(Kind::Assign)
    } else if c == 0x28 {
        Some(Kind::LParen)
    } else if c == 0x29 {
        Some(Kind::RParen)
    } else if c == 0x7b {
        Some(Kind::LBrace)
    } else if c == 0x7d {
        Some(Kind::RBrace)
    } else if c == 0x2c {
        Some(Kind::Comma)
    } else if c == 0x3b {
        Some(Kind::Semicolon)
    } else if c == 0x2b && d is Base {
        Some(Kind::Plus)
    } else if c == 0x3a && d is Extended {
        Some(Kind::Colon)
    } else {
        None
    }
}

/// The reserved word `w` stands for, in dialect `d`.
pub open spec fn keyword(d: Dialect, w: Seq<u8>) -> Option<Kind> {
    if w == seq![0x6cu8, 0x65, 0x74] {
        Some(Kind::Let)
    } else if d is Extended && w == seq![0x66u8, 0x6e] {
        Some(Kind::Function)
    } else if d is Extended && w == seq![0x70u8, 0x72, 0x6f, 0x74, 0x6f] {
        Some(Kind::Proto)
    } else {
        None
    }
}

pub open spec fn mk(kind: Kind, start: int, end: int) -> Lexeme {
    Lexeme { kind, start: start as usize, end: end as usize }
}

/// The lexeme whose first byte is at `i`, where `b[i]` is not whitespace.
/// Words are all `Ident` here; `classify` picks out the reserved ones.
pub open spec fn scan_at(d: Dialect, b: Seq<u8>, i: int) -> Lexeme {
    let c = b[i];
    if punct(d, c) is Some {
        mk(punct(d, c)->0, i, i + 1)
    } else if c == 0x3c && d is Extended {
        if i + 1 < b.len() && b[i + 1] == 0x2d {
            mk(Kind::Arrow, i, i + 2)
        } else {
            mk(Kind::Illegal, i, i + 1)
        }
    } else if is_ident_start(c) {
        mk(Kind::Ident, i, ident_end(b, i + 1))
    } else if is_digit(c) {
        let e = digits_end(b, i + 1);
        mk(Kind::Int { value: wrap_i64(decimal(b.subrange(i, e)) as int) as i64 }, i, e)
    } else {
        mk(Kind::Illegal, i, char_end(b, i))
    }
}

/// The next lexeme from cursor `p` on, before reserved words are picked out:
/// none once only whitespace is left.
pub open spec fn spec_scan(d: Dialect, b: Seq<u8>, p: int) -> Option<Lexeme> {
    let s = skip_space(b, p);
    if s < b.len() {
        Some(scan_at(d, b, s))
    } else {
        None
    }
}

/// An identifier whose text is a reserved word becomes that keyword, at the
/// same place.
pub open spec fn classify(d: Dialect, b: Seq<u8>, l: Lexeme) -> Lexeme {
    if l.kind is Ident {
        match keyword(d, b.subrange(l.start as int, l.end as int)) {
            Some(k) => Lexeme { kind: k, ..l },
            None => l,
        }
    } else {
        l
    }
}

/// The next lexeme from cursor `p` on.
pub open spec fn next_lexeme(d: Dialect, b: Seq<u8>, p: int) -> Option<Lexeme> {
    match spec_scan(d, b, p) {
        Some(l) => Some(classify(d, b, l)),
        None => None,
    }
}

/// All lexemes from cursor `p` on, in order.
pub open spec fn lex(d: Dialect, b: Seq<u8>, p: int) -> Seq<Lexeme>
    decreases b.len() - p,
{
    match next_lexeme(d, b, p) {
        Some(l) => if p < l.end <= b.len() {
            seq![l] + lex(d, b, l.end as int)
        } else {
            seq![]
        },
        None => seq![],
    }
}

pub proof fn lemma_run_end_bounds(b: Seq<u8>, i: int, p: spec_fn(u8) -> bool)
    requires
        0 <= i <= b.len(),
    ensures
        i <= run_end(b, i, p) <= b.len(),
        run_end(b, i, p) < b.len() ==> !p(b[run_end(b, i, p)]),
        forall|j: int| i <= j < run_end(b, i, p) ==> p(#[trigger] b[j]),
    decreases b.len() - i,
{
    if i < b.len() && p(b[i]) {
        lemma_run_end_bounds(b, i + 1, p);
    }
}

/// Each lexeme starts at or after the cursor, at a byte that is not
/// whitespace, and spans at least one byte of the source.
pub proof fn lemma_scan_bounds(d: Dialect, b: Seq<u8>, p: int)
    requires
        0 <= p <= b.len(),
        b.len() <= usize::MAX,
    ensures
        spec_scan(d, b, p) matches Some(l) ==> {
            &&& p <= l.start < l.end <= b.len()
            &&& !is_space(b[l.start as int])
            &&& forall|j: int| p <= j < l.start ==> is_space(#[trigger] b[j])
        },
        spec_scan(d, b, p) is None ==> forall|j: int| p <= j < b.len() ==> is_space(#[trigger] b[j]),
        next_lexeme(d, b, p) matches Some(l) ==> spec_scan(d, b, p) matches Some(m) && l.start
            == m.start && l.end == m.end,
        next_lexeme(d, b, p) is None <==> spec_scan(d, b, p) is None,
        spec_scan(d, b, p) matches Some(l) ==> (l.kind is Ident ==> forall|j: int|
            l.start <= j < l.end ==> is_ident_char(#[trigger] b[j])),
{
    lemma_run_end_bounds(b, p, |c: u8| is_space(c));
    let s = skip_space(b, p);
    if s < b.len() {
        lemma_run_end_bounds(b, s + 1, |c: u8| is_ident_char(c));
        lemma_run_end_bounds(b, s + 1, |c: u8| is_digit(c));
        lemma_run_end_bounds(b, s + 1, |c: u8| is_continuation_byte(c));
    }
}

fn is_space_byte(c: u8) -> (r: bool)
    ensures
        r == is_space(c),
{
    c == 0x20 || c == 0x09 || c == 0x0d || c == 0x0a
}

fn is_ident_byte(c: u8) -> (r: bool)
    ensures
        r == is_ident_char(c),
{
    (0x61 <= c && c <= 0x7a) || (0x41 <= c && c <= 0x5a) || c == 0x5f || (0x30 <= c && c <= 0x39)
}

/// The exec counterpart of `punct`.
pub fn punct_of(d: Dialect, c: u8) -> (r: Option<Kind>)
    ensures
        r == punct(d, c),
{
    if c == 0x3d {
        Some(Kind::Assign)
    } else if c == 0x28 {
        Some(Kind::LParen)
    } else if c == 0x29 {
        Some(Kind::RParen)
    } else if c == 0x7b {
        Some(Kind::LBrace)
    } else if c == 0x7d {
        Some(Kind::RBrace)
    } else if c == 0x2c {
        Some(Kind::Comma)
    } else if c == 0x3b {
        Some(Kind::Semicolon)
    } else if c == 0x2b && d == Dialect::Base {
        Some(Kind::Plus)
    } else if c == 0x3a && d == Dialect::Extended {
        Some(Kind::Colon)
    } else {
        None
    }
}

/// The reserved word that the word `w` is in dialect `d`, if any.
pub fn keyword_of(d: Dialect, w: &[u8]) -> (r: Option<Kind>)
    ensures
        r == keyword(d, w@),
{
    let n = w.len();
    if n == 3 && w[0] == 0x6c && w[1] == 0x65 && w[2] == 0x74 {
        assert(w@ =~= seq![0x6cu8, 0x65, 0x74]);
        Some(Kind::Let)
    } else if d == Dialect::Extended && n == 2 && w[0] == 0x66 && w[1] == 0x6e {
        assert(w@ =~= seq![0x66u8, 0x6e]);
        Some(Kind::Function)
    } else if d == Dialect::Extended && n == 5 && w[0] == 0x70 && w[1] == 0x72 && w[2] == 0x6f
        && w[3] == 0x74 && w[4] == 0x6f {
        assert(w@ =~= seq![0x70u8, 0x72, 0x6f, 0x74, 0x6f]);
        Some(Kind::Proto)
    } else {
        proof {
            if w@ == seq![0x6cu8, 0x65, 0x74] {
                assert(w@[0] == 0x6c && w@[1] == 0x65 && w@[2] == 0x74);
            }
            if w@ == seq![0x66u8, 0x6e] {
                assert(w@[0] == 0x66 && w@[1] == 0x6e);
            }
            if w@ == seq![0x70u8, 0x72, 0x6f, 0x74, 0x6f] {
                assert(w@[0] == 0x70 && w@[1] == 0x72 && w@[2] == 0x6f && w@[3] == 0x74 && w@[4]
                    == 0x6f);
            }
        }
        None
    }
}

fn skip_spaces(b: &[u8], i: usize) -> (r: usize)
    requires
        i <= b@.len(),
    ensures
        r == skip_space(b@, i as int),
{
    let mut j = i;
    while j < b.len() && is_space_byte(b[j])
        invariant
            i <= j <= b@.len(),
            skip_space(b@, j as int) == skip_space(b@, i as int),
        decreases b@.len() - j,
    {
        j = j + 1;
    }
    j
}

fn ident_run(b: &[u8], i: usize) -> (r: usize)
    requires
        i <= b@.len(),
    ensures
        r == ident_end(b@, i as int),
{
    let mut j = i;
    while j < b.len() && is_ident_byte(b[j])
        invariant
            i <= j <= b@.len(),
            ident_end(b@, j as int) == ident_end(b@, i as int),
        decreases b@.len() - j,
    {
        j = j + 1;
    }
    j
}

fn char_run(b: &[u8], i: usize) -> (r: usize)
    requires
        i < b@.len(),
    ensures
        r == char_end(b@, i as int),
{
    let n = b.len();
    let mut j = i + 1;
    while j < n && 0x80 <= b[j] && b[j] <= 0xbf
        invariant
            i < j <= b@.len(),
            n == b@.len(),
            run_end(b@, j as int, |c: u8| is_continuation_byte(c)) == char_end(b@, i as int),
        decreases b@.len() - j,
    {
        j = j + 1;
    }
    j
}

proof fn lemma_decimal_step(ds: Seq<u8>, acc: u64)
    requires
        ds.len() > 0,
        acc == decimal(ds.drop_last()) as int % two_pow_64(),
        is_digit(ds.last()),
    ensures
        ((acc * 10) % two_pow_64() + (ds.last() - 0x30)) % two_pow_64() == decimal(ds) as int
            % two_pow_64(),
{
    let v = decimal(ds.drop_last()) as int;
    let m = two_pow_64();
    let dg = (ds.last() - 0x30) as int;
    lemma_mul_mod_noop_left(v, 10, m);
    lemma_add_mod_noop(v * 10, dg, m);
    lemma_add_mod_noop((v % m) * 10, dg, m);
    assert(dg % m == dg);
    assert(((v % m) * 10) % m % m == ((v % m) * 10) % m) by {
        vstd::arithmetic::div_mod::lemma_mod_twice((v % m) * 10, m);
    }
}

/// The end of the run of digits that starts at `i`, and the value of the
/// digits from `start` to there, wrapped to 64 bits.
fn digits_run(b: &[u8], start: usize, i: usize) -> (r: (usize, i64))
    requires
        start < i <= b@.len(),
        forall|k: int| start <= k < i ==> is_digit(#[trigger] b@[k]),
    ensures
        r.0 == digits_end(b@, i as int),
        r.1 as int == wrap_i64(decimal(b@.subrange(start as int, r.0 as int)) as int),
{
    let mut j = i;
    let mut acc: u64 = 0;
    let mut k = start;
    while k < i
        invariant
            start <= k <= i,
            forall|t: int| start <= t < i ==> is_digit(#[trigger] b@[t]),
            i <= b@.len(),
            acc == decimal(b@.subrange(start as int, k as int)) as int % two_pow_64(),
        decreases i - k,
    {
        proof {
            let ds = b@.subrange(start as int, k + 1);
            assert(ds.drop_last() =~= b@.subrange(start as int, k as int));
            lemma_decimal_step(ds, acc);
        }
        acc = acc.wrapping_mul(10).wrapping_add((b[k] - 0x30) as u64);
        k = k + 1;
    }
    while j < b.len() && 0x30 <= b[j] && b[j] <= 0x39
        invariant
            start < i <= j <= b@.len(),
            digits_end(b@, j as int) == digits_end(b@, i as int),
            acc == decimal(b@.subrange(start as int, j as int)) as int % two_pow_64(),
        decreases b@.len() - j,
    {
        proof {
            let ds = b@.subrange(start as int, j + 1);
            assert(ds.drop_last() =~= b@.subrange(start as int, j as int));
            lemma_decimal_step(ds, acc);
        }
        acc = acc.wrapping_mul(10).wrapping_add((b[j] - 0x30) as u64);
        j = j + 1;
    }
    let v: i64 = if acc < 0x8000_0000_0000_0000 {
        acc as i64
    } else {
        ((acc - 0x8000_0000_0000_0000) as i64) - 0x7fff_ffff_ffff_ffff - 1
    };
    (j, v)
}

/// The next lexeme from cursor `pos` on, before reserved words are picked
/// out; `None` once only whitespace is left.
pub fn scan(d: Dialect, b: &[u8], pos: usize) -> (r: Option<Lexeme>)
    requires
        pos <= b@.len(),
    ensures
        r == spec_scan(d, b@, pos as int),
{
    let s = skip_spaces(b, pos);
    proof {
        lemma_run_end_bounds(b@, pos as int, |c: u8| is_space(c));
    }
    if s >= b.len() {
        return None;
    }
    let c = b[s];
    let p = punct_of(d, c);
    if let Some(k) = p {
        return Some(Lexeme { kind: k, start: s, end: s + 1 });
    }
    if c == 0x3c && d == Dialect::Extended {
        if s + 1 < b.len() && b[s + 1] == 0x2d {
            Some(Lexeme { kind: Kind::Arrow, start: s, end: s + 2 })
        } else {
            Some(Lexeme { kind: Kind::Illegal, start: s, end: s + 1 })
        }
    } else if (0x61 <= c && c <= 0x7a) || (0x41 <= c && c <= 0x5a) || c == 0x5f {
        let e = ident_run(b, s + 1);
        Some(Lexeme { kind: Kind::Ident, start: s, end: e })
    } else if 0x30 <= c && c <= 0x39 {
        let (e, v) = digits_run(b, s, s + 1);
        Some(Lexeme { kind: Kind::Int { value: v }, start: s, end: e })
    } else {
        let e = char_run(b, s);
        Some(Lexeme { kind: Kind::Illegal, start: s, end: e })
    }
}

/// In valid UTF-8, the byte after an ASCII character starts a character (or
/// is the end).
proof fn lemma_boundary_after_ascii(b: Seq<u8>, k: int)
    requires
        valid_utf8(b),
        0 <= k < b.len(),
        b[k] <= 0x7f,
    ensures
        is_char_boundary(b, k + 1),
    decreases b.len(),
{
    is_char_boundary_iff_not_is_continuation_byte(b, k);
    let l = length_of_first_scalar(b);
    let rest = pop_first_scalar(b);
    assert(valid_utf8(rest));
    if k == 0 {
        assert(l == 1);
        assert(is_char_boundary(rest, 0));
    } else {
        assert(is_char_boundary(b, k) == is_char_boundary(rest, k - l));
        assert(k - l >= 0);
        if k - l < rest.len() {
            assert(rest[k - l] == b[k]);
            lemma_boundary_after_ascii(rest, k - l);
        }
        assert(is_char_boundary(b, k + 1) == is_char_boundary(rest, k + 1 - l));
    }
}

/// The text of the word at bytes `start..end` of `text`.
pub fn word_text<'a>(text: &'a str, start: usize, end: usize) -> (r: &'a str)
    requires
        start < end <= text.spec_bytes().len(),
        forall|j: int| start <= j < end ==> is_ident_char(#[trigger] text.spec_bytes()[j]),
    ensures
        r.spec_bytes() == text.spec_bytes().subrange(start as int, end as int),
{
    let ghost b = text.spec_bytes();
    proof {
        encode_utf8_valid_utf8(text@);
        is_char_boundary_start_end_of_seq(b);
        is_char_boundary_iff_not_is_continuation_byte(b, start as int);
        lemma_boundary_after_ascii(b, end - 1);
    }
    let (head, _) = text.split_at(end);
    proof {
        let h = b.subrange(0, end as int);
        assert(head.spec_bytes() == h);
        vstd::utf8::valid_utf8_split(b, end as int);
        is_char_boundary_iff_not_is_continuation_byte(h, start as int);
    }
    let (_, word) = head.split_at(start);
    proof {
        assert(word.spec_bytes() =~= b.subrange(start as int, end as int));
    }
    word
}

} // verus!
