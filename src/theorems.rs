//! Properties of the lexeme sequence, proved for every input.
use crate::scanner::{
    char_end, decimal, is_digit, is_ident_char, is_ident_start, is_space, keyword,
    lemma_run_end_bounds, lemma_scan_bounds, lex, mk, next_lexeme, punct, run_end, scan_at,
    skip_space, Dialect, Kind, Lexeme,
};
use vstd::utf8::{
    is_char_boundary, is_char_boundary_iff_not_is_continuation_byte,
    is_char_boundary_start_end_of_seq, is_continuation_byte, valid_utf8,
};
use vstd::prelude::*;

verus! {

/// One step of `lex`: the next lexeme, then the lexemes from its end on.
pub proof fn lemma_lex_unfold(d: Dialect, b: Seq<u8>, p: int)
    requires
        0 <= p <= b.len() <= usize::MAX,
    ensures
        next_lexeme(d, b, p) matches Some(l) ==> lex(d, b, p) == seq![l] + lex(d, b, l.end as int)
            && p <= l.start < l.end <= b.len(),
        next_lexeme(d, b, p) is None ==> lex(d, b, p) == Seq::<Lexeme>::empty(),
{
    lemma_scan_bounds(d, b, p);
}

/// Token positions increase strictly from one token to the next, each token
/// starts at the byte offset of its first (non-whitespace) character, and the
/// bytes that no token spans are exactly the whitespace between tokens.
pub proof fn lemma_positions(d: Dialect, b: Seq<u8>, p: int)
    requires
        0 <= p <= b.len() <= usize::MAX,
    ensures
        ({
            let ls = lex(d, b, p);
            &&& forall|i: int|
                0 <= i < ls.len() ==> p <= (#[trigger] ls[i]).start < ls[i].end <= b.len()
                    && !is_space(b[ls[i].start as int])
            &&& forall|i: int, j: int| 0 <= i < j < ls.len() ==> ls[i].end <= ls[j].start
            &&& forall|i: int, j: int| 0 <= i < j < ls.len() ==> ls[i].start < ls[j].start
            &&& forall|k: int|
                p <= k < (if ls.len() == 0 { b.len() as int } else { ls[0].start as int })
                    ==> is_space(#[trigger] b[k])
            &&& forall|i: int, k: int|
                #![trigger ls[i], b[k]]
                0 <= i < ls.len() - 1 && ls[i].end <= k < ls[i + 1].start ==> is_space(b[k])
            &&& ls.len() > 0 ==> forall|k: int|
                ls.last().end <= k < b.len() ==> is_space(#[trigger] b[k])
        }),
    decreases b.len() - p,
{
    lemma_lex_unfold(d, b, p);
    lemma_scan_bounds(d, b, p);
    let ls = lex(d, b, p);
    if let Some(l) = next_lexeme(d, b, p) {
        let e = l.end as int;
        lemma_positions(d, b, e);
        let rest = lex(d, b, e);
        assert(forall|i: int| 0 <= i < rest.len() ==> ls[i + 1] == rest[i]);
        assert(ls[0] == l);
        assert forall|i: int, k: int|
            #![trigger ls[i], b[k]]
            0 <= i < ls.len() - 1 && ls[i].end <= k < ls[i + 1].start implies is_space(b[k]) by {
            if i > 0 {
                assert(ls[i] == rest[i - 1]);
                assert(ls[i + 1] == rest[i]);
            } else {
                assert(ls[1] == rest[0]);
            }
        }
        assert forall|i: int, j: int| 0 <= i < j < ls.len() implies ls[i].end <= ls[j].start by {
            if i > 0 {
                assert(ls[i] == rest[i - 1]);
                assert(ls[j] == rest[j - 1]);
            } else {
                assert(ls[j] == rest[j - 1]);
            }
        }
        if rest.len() > 0 {
            assert(ls.last() == rest.last());
        }
    }
}

/// An input made only of single-character punctuation marks of the dialect
/// gives one token per character, in the same order.
pub proof fn lemma_punctuation_coverage(d: Dialect, b: Seq<u8>, p: int)
    requires
        0 <= p <= b.len() <= usize::MAX,
        forall|k: int| p <= k < b.len() ==> punct(d, #[trigger] b[k]) is Some,
    ensures
        lex(d, b, p).len() == b.len() - p,
        forall|i: int|
            0 <= i < b.len() - p ==> #[trigger] lex(d, b, p)[i] == mk(
                punct(d, b[p + i])->0,
                p + i,
                p + i + 1,
            ),
    decreases b.len() - p,
{
    lemma_lex_unfold(d, b, p);
    if p < b.len() {
        lemma_punctuation_coverage(d, b, p + 1);
        let ls = lex(d, b, p);
        let rest = lex(d, b, p + 1);
        assert forall|i: int| 0 <= i < b.len() - p implies #[trigger] ls[i] == mk(
            punct(d, b[p + i])->0,
            p + i,
            p + i + 1,
        ) by {
            if i > 0 {
                assert(ls[i] == rest[i - 1]);
            }
        }
    }
}

/// A run of bytes that all belong to a class runs to the end of the input.
proof fn lemma_run_to_end(b: Seq<u8>, i: int, c: spec_fn(u8) -> bool)
    requires
        0 <= i <= b.len(),
        forall|k: int| i <= k < b.len() ==> c(#[trigger] b[k]),
    ensures
        run_end(b, i, c) == b.len(),
{
    lemma_run_end_bounds(b, i, c);
}

/// Tokenizing a reserved word alone gives exactly its keyword; the word with
/// any letters, digits or underscores after it is one identifier spanning
/// the whole text.
pub proof fn lemma_keyword_exact(d: Dialect, w: Seq<u8>, t: Seq<u8>)
    requires
        keyword(d, w) is Some,
        forall|k: int| 0 <= k < t.len() ==> is_ident_char(#[trigger] t[k]),
        w.len() + t.len() <= usize::MAX,
    ensures
        lex(d, w, 0) == seq![mk(keyword(d, w)->0, 0, w.len() as int)],
        t.len() > 0 ==> lex(d, w + t, 0) == seq![mk(Kind::Ident, 0, (w + t).len() as int)],
{
    assert(w.len() <= 5 && w.len() >= 2);
    assert(is_ident_start(w[0]));
    assert forall|k: int| 0 <= k < w.len() implies is_ident_char(#[trigger] w[k]) by {}
    lemma_run_to_end(w, 1, |c: u8| is_ident_char(c));
    lemma_run_end_bounds(w, 0, |c: u8| is_space(c));
    assert(w.subrange(0, w.len() as int) =~= w);
    lemma_lex_unfold(d, w, 0);
    lemma_lex_unfold(d, w, w.len() as int);
    if t.len() > 0 {
        let v = w + t;
        assert(v[0] == w[0]);
        assert forall|k: int| 1 <= k < v.len() implies is_ident_char(#[trigger] v[k]) by {
            if k < w.len() {
                assert(v[k] == w[k]);
            } else {
                assert(v[k] == t[k - w.len()]);
            }
        }
        lemma_run_to_end(v, 1, |c: u8| is_ident_char(c));
        lemma_run_end_bounds(v, 0, |c: u8| is_space(c));
        assert(v.subrange(0, v.len() as int) =~= v);
        assert(keyword(d, v) is None) by {
            if v == seq![0x6cu8, 0x65, 0x74] || v == seq![0x66u8, 0x6e] || v == seq![
                0x70u8,
                0x72,
                0x6f,
                0x74,
                0x6f,
            ] {
                assert(v[0] == w[0]);
            }
        }
        lemma_lex_unfold(d, v, 0);
        lemma_lex_unfold(d, v, v.len() as int);
    }
}

spec fn ten_to(n: nat) -> nat
    decreases n,
{
    if n == 0 {
        1
    } else {
        10 * ten_to((n - 1) as nat)
    }
}

proof fn lemma_ten_to_grows(m: nat, n: nat)
    requires
        m <= n,
    ensures
        ten_to(m) <= ten_to(n),
    decreases n - m,
{
    if m < n {
        lemma_ten_to_grows(m, (n - 1) as nat);
    }
}

proof fn lemma_decimal_bound(ds: Seq<u8>)
    requires
        forall|k: int| 0 <= k < ds.len() ==> is_digit(#[trigger] ds[k]),
    ensures
        decimal(ds) < ten_to(ds.len()),
    decreases ds.len(),
{
    if ds.len() > 0 {
        let init = ds.drop_last();
        assert forall|k: int| 0 <= k < init.len() implies is_digit(#[trigger] init[k]) by {
            assert(init[k] == ds[k]);
        }
        lemma_decimal_bound(init);
        assert(is_digit(ds[ds.len() - 1]));
    }
}

/// A string of one to eighteen digits is one integer token whose value is
/// the base-10 value of the digits.
pub proof fn lemma_digit_accumulation(d: Dialect, ds: Seq<u8>)
    requires
        1 <= ds.len() <= 18,
        forall|k: int| 0 <= k < ds.len() ==> is_digit(#[trigger] ds[k]),
    ensures
        lex(d, ds, 0) == seq![mk(Kind::Int { value: decimal(ds) as i64 }, 0, ds.len() as int)],
        decimal(ds) < 1_000_000_000_000_000_000,
{
    lemma_decimal_bound(ds);
    lemma_ten_to_grows(ds.len(), 18);
    assert(ten_to(18) == 1_000_000_000_000_000_000) by {
        reveal_with_fuel(ten_to, 19);
    }
    assert(decimal(ds) % 0x1_0000_0000_0000_0000 == decimal(ds)) by {
        vstd::arithmetic::div_mod::lemma_small_mod(decimal(ds), 0x1_0000_0000_0000_0000);
    }
    lemma_run_to_end(ds, 1, |c: u8| is_digit(c));
    lemma_run_end_bounds(ds, 0, |c: u8| is_space(c));
    assert(ds.subrange(0, ds.len() as int) =~= ds);
    lemma_lex_unfold(d, ds, 0);
    lemma_lex_unfold(d, ds, ds.len() as int);
}

/// A character that starts no token of the dialect is one illegal token that
/// consumes exactly that character: in valid UTF-8 its end is the next
/// character boundary. In the extended dialect a `<` not followed by `-` is
/// one illegal token that consumes only the `<`.
pub proof fn lemma_illegal_character(d: Dialect, b: Seq<u8>, p: int)
    requires
        0 <= p < b.len() <= usize::MAX,
        !is_space(b[p]),
        punct(d, b[p]) is None,
        !is_ident_start(b[p]),
        !is_digit(b[p]),
    ensures
        d is Extended && b[p] == 0x3c ==> (p + 1 < b.len() && b[p + 1] == 0x2d) || next_lexeme(
            d,
            b,
            p,
        ) == Some(mk(Kind::Illegal, p, p + 1)),
        !(d is Extended && b[p] == 0x3c) ==> next_lexeme(d, b, p) == Some(
            mk(Kind::Illegal, p, char_end(b, p)),
        ),
        valid_utf8(b) && is_char_boundary(b, p) ==> {
            &&& is_char_boundary(b, char_end(b, p))
            &&& forall|k: int| p < k < char_end(b, p) ==> !is_char_boundary(b, k)
        },
{
    lemma_run_end_bounds(b, p, |c: u8| is_space(c));
    lemma_run_end_bounds(b, p + 1, |c: u8| is_continuation_byte(c));
    let e = char_end(b, p);
    if valid_utf8(b) && is_char_boundary(b, p) {
        is_char_boundary_start_end_of_seq(b);
        if e < b.len() {
            is_char_boundary_iff_not_is_continuation_byte(b, e);
        }
        assert forall|k: int| p < k < e implies !is_char_boundary(b, k) by {
            is_char_boundary_iff_not_is_continuation_byte(b, k);
        }
    }
}

/// A run read from `i + delta` in `b2` ends `delta` after the same run read
/// from `i` in `b`, when `b2` from `q + delta` on is `b` from `q` on.
proof fn lemma_run_end_shift(
    b: Seq<u8>,
    b2: Seq<u8>,
    q: int,
    delta: int,
    i: int,
    c: spec_fn(u8) -> bool,
)
    requires
        0 <= q <= i <= b.len(),
        q + delta >= 0,
        b2.len() == b.len() + delta,
        forall|j: int| q <= j < b.len() ==> b2[j + delta] == #[trigger] b[j],
    ensures
        run_end(b2, i + delta, c) == run_end(b, i, c) + delta,
    decreases b.len() - i,
{
    if i < b.len() {
        assert(b2[i + delta] == b[i]);
        lemma_run_end_shift(b, b2, q, delta, i + 1, c);
    }
}

/// Scanning only looks forward: the next lexeme from a cursor depends only
/// on the bytes from the cursor on, and moves with them.
proof fn lemma_next_shift(d: Dialect, b: Seq<u8>, b2: Seq<u8>, q: int, delta: int)
    requires
        0 <= q <= b.len(),
        q + delta >= 0,
        b2.len() == b.len() + delta,
        b.len() <= usize::MAX,
        b2.len() <= usize::MAX,
        forall|j: int| q <= j < b.len() ==> b2[j + delta] == #[trigger] b[j],
    ensures
        next_lexeme(d, b, q) is None ==> next_lexeme(d, b2, q + delta) is None,
        next_lexeme(d, b, q) matches Some(l) ==> next_lexeme(d, b2, q + delta) == Some(
            mk(l.kind, l.start + delta, l.end + delta),
        ),
{
    lemma_scan_bounds(d, b, q);
    lemma_run_end_bounds(b, q, |c: u8| is_space(c));
    lemma_run_end_shift(b, b2, q, delta, q, |c: u8| is_space(c));
    let s = skip_space(b, q);
    if s < b.len() {
        assert(b2[s + delta] == b[s]);
        if s + 1 < b.len() {
            assert(b2[s + 1 + delta] == b[s + 1]);
        }
        lemma_run_end_shift(b, b2, q, delta, s + 1, |c: u8| is_ident_char(c));
        lemma_run_end_shift(b, b2, q, delta, s + 1, |c: u8| is_digit(c));
        lemma_run_end_shift(b, b2, q, delta, s + 1, |c: u8| is_continuation_byte(c));
        lemma_run_end_bounds(b, s + 1, |c: u8| is_ident_char(c));
        lemma_run_end_bounds(b, s + 1, |c: u8| is_digit(c));
        lemma_run_end_bounds(b, s + 1, |c: u8| is_continuation_byte(c));
        let l = scan_at(d, b, s);
        let e = l.end as int;
        assert(b2.subrange(s + delta, e + delta) =~= b.subrange(s, e));
    }
}

/// `lex` moves with the bytes it reads.
proof fn lemma_lex_shift(d: Dialect, b: Seq<u8>, b2: Seq<u8>, q: int, delta: int)
    requires
        0 <= q <= b.len(),
        q + delta >= 0,
        b2.len() == b.len() + delta,
        b.len() <= usize::MAX,
        b2.len() <= usize::MAX,
        forall|j: int| q <= j < b.len() ==> b2[j + delta] == #[trigger] b[j],
    ensures
        lex(d, b2, q + delta).len() == lex(d, b, q).len(),
        forall|i: int|
            0 <= i < lex(d, b, q).len() ==> #[trigger] lex(d, b2, q + delta)[i] == mk(
                lex(d, b, q)[i].kind,
                lex(d, b, q)[i].start + delta,
                lex(d, b, q)[i].end + delta,
            ),
    decreases b.len() - q,
{
    lemma_next_shift(d, b, b2, q, delta);
    lemma_lex_unfold(d, b, q);
    lemma_lex_unfold(d, b2, q + delta);
    if let Some(l) = next_lexeme(d, b, q) {
        let e = l.end as int;
        lemma_lex_shift(d, b, b2, e, delta);
        let ls = lex(d, b, q);
        let ms = lex(d, b2, q + delta);
        assert(ms == seq![mk(l.kind, l.start + delta, l.end + delta)] + lex(d, b2, e + delta));
        assert forall|i: int| 0 <= i < ls.len() implies #[trigger] ms[i] == mk(
            ls[i].kind,
            ls[i].start + delta,
            ls[i].end + delta,
        ) by {
            if i > 0 {
                assert(ls[i] == lex(d, b, e)[i - 1]);
                assert(ms[i] == lex(d, b2, e + delta)[i - 1]);
            }
        }
    }
}

/// A run that stops at or before `k` in `b` stops at the same place in `b2`,
/// which agrees with `b` before `k` and has a byte outside the class at `k`.
proof fn lemma_run_end_prefix(
    b: Seq<u8>,
    b2: Seq<u8>,
    k: int,
    i: int,
    c: spec_fn(u8) -> bool,
)
    requires
        0 <= i <= k <= b.len(),
        k < b2.len(),
        forall|j: int| 0 <= j < k ==> b2[j] == #[trigger] b[j],
        run_end(b, i, c) < k || (!c(b2[k]) && run_end(b, i, c) <= k),
    ensures
        run_end(b2, i, c) == run_end(b, i, c),
    decreases k - i,
{
    lemma_run_end_bounds(b, i, c);
    if i < k {
        assert(b2[i] == b[i]);
    }
    if i < k && c(b[i]) {
        lemma_run_end_prefix(b, b2, k, i + 1, c);
    }
}

/// A run of bytes of the class from `i` to `j` is skipped over whole.
proof fn lemma_run_end_through(b: Seq<u8>, i: int, j: int, c: spec_fn(u8) -> bool)
    requires
        0 <= i <= j <= b.len(),
        forall|t: int| i <= t < j ==> c(#[trigger] b[t]),
    ensures
        run_end(b, i, c) == run_end(b, j, c),
    decreases j - i,
{
    if i < j {
        lemma_run_end_through(b, i + 1, j, c);
    }
}

/// A lexeme that ends at or before `k` is found the same in `b2`, which
/// agrees with `b` before `k` and has whitespace at `k`.
proof fn lemma_next_prefix(d: Dialect, b: Seq<u8>, b2: Seq<u8>, q: int, k: int)
    requires
        0 <= q <= k <= b.len(),
        k < b2.len(),
        b.len() <= usize::MAX,
        forall|j: int| 0 <= j < k ==> b2[j] == #[trigger] b[j],
        is_space(b2[k]),
        next_lexeme(d, b, q) matches Some(l) && l.end <= k,
    ensures
        next_lexeme(d, b2, q) == next_lexeme(d, b, q),
{
    lemma_scan_bounds(d, b, q);
    let s = skip_space(b, q);
    lemma_run_end_bounds(b, q, |c: u8| is_space(c));
    lemma_run_end_prefix(b, b2, k, q, |c: u8| is_space(c));
    assert(b2[s] == b[s]);
    let l = scan_at(d, b, s);
    lemma_run_end_bounds(b, s + 1, |c: u8| is_ident_char(c));
    lemma_run_end_bounds(b, s + 1, |c: u8| is_digit(c));
    lemma_run_end_bounds(b, s + 1, |c: u8| is_continuation_byte(c));
    if l.kind is Ident {
        lemma_run_end_prefix(b, b2, k, s + 1, |c: u8| is_ident_char(c));
    }
    if is_digit(b[s]) && punct(d, b[s]) is None {
        lemma_run_end_prefix(b, b2, k, s + 1, |c: u8| is_digit(c));
    }
    if l.kind is Illegal && !(b[s] == 0x3c && d is Extended) {
        lemma_run_end_prefix(b, b2, k, s + 1, |c: u8| is_continuation_byte(c));
    }
    if s + 1 < k {
        assert(b2[s + 1] == b[s + 1]);
    }
    let l2 = scan_at(d, b2, s);
    assert(b2.subrange(s, l2.end as int) =~= b.subrange(s, l.end as int));
}

/// Where the lexeme `l` lands when whitespace of length `n` goes in at `k`:
/// a lexeme before `k` stays, one after it moves by `n`.
pub open spec fn moved(l: Lexeme, k: int, n: int) -> Lexeme {
    mk(
        l.kind,
        if l.start < k { l.start as int } else { l.start + n },
        if l.end <= k { l.end as int } else { l.end + n },
    )
}

/// `k` is a place between tokens, when scanning from `p`: `p` itself or
/// the end of a token.
pub open spec fn between_tokens(d: Dialect, b: Seq<u8>, p: int, k: int) -> bool {
    k == p || exists|i: int| 0 <= i < lex(d, b, p).len() && #[trigger] lex(d, b, p)[i].end == k
}

proof fn lemma_insert_from(d: Dialect, b: Seq<u8>, b2: Seq<u8>, p: int, k: int, n: int)
    requires
        0 <= p <= k <= b.len(),
        n > 0,
        b2.len() == b.len() + n <= usize::MAX,
        forall|j: int| 0 <= j < k ==> b2[j] == #[trigger] b[j],
        forall|j: int| k <= j < k + n ==> is_space(#[trigger] b2[j]),
        forall|j: int| k <= j < b.len() ==> b2[j + n] == #[trigger] b[j],
        between_tokens(d, b, p, k),
    ensures
        lex(d, b2, p).len() == lex(d, b, p).len(),
        forall|i: int|
            0 <= i < lex(d, b, p).len() ==> #[trigger] lex(d, b2, p)[i] == moved(
                lex(d, b, p)[i],
                k,
                n,
            ),
    decreases k - p,
{
    let ls = lex(d, b, p);
    lemma_positions(d, b, p);
    lemma_lex_unfold(d, b, p);
    lemma_lex_unfold(d, b2, p);
    if p == k {
        lemma_run_end_through(b2, k, k + n, |c: u8| is_space(c));
        lemma_lex_unfold(d, b2, k + n);
        lemma_lex_shift(d, b, b2, k, n);
        let ms = lex(d, b2, p);
        assert forall|i: int| 0 <= i < ls.len() implies #[trigger] ms[i] == moved(ls[i], k, n) by {
            assert(ms[i] == lex(d, b2, k + n)[i]);
        }
    } else {
        let i0 = choose|i: int| 0 <= i < ls.len() && #[trigger] ls[i].end == k;
        let l = ls[0];
        assert(l.end <= k) by {
            if i0 > 0 {
                assert(ls[0].end <= ls[i0].start);
            }
        }
        lemma_next_prefix(d, b, b2, p, k);
        let e = l.end as int;
        let rest = lex(d, b, e);
        assert(between_tokens(d, b, e, k)) by {
            if e != k {
                assert(i0 > 0);
                assert(rest[i0 - 1] == ls[i0]);
            }
        }
        lemma_insert_from(d, b, b2, e, k, n);
        let ms = lex(d, b2, p);
        assert forall|i: int| 0 <= i < ls.len() implies #[trigger] ms[i] == moved(ls[i], k, n) by {
            if i > 0 {
                assert(ls[i] == rest[i - 1]);
                assert(ms[i] == lex(d, b2, e)[i - 1]);
            }
        }
    }
}

/// The text a lexeme spans is the same before and after the insertion.
proof fn lemma_moved_text(b: Seq<u8>, b2: Seq<u8>, k: int, n: int, l: Lexeme)
    requires
        0 <= k <= b.len(),
        n >= 0,
        b.len() + n <= usize::MAX,
        b2.len() == b.len() + n,
        b2 == b.subrange(0, k) + b2.subrange(k, k + n) + b.subrange(k, b.len() as int),
        l.start < l.end <= b.len(),
        l.end <= k || l.start >= k,
    ensures
        b2.subrange(moved(l, k, n).start as int, moved(l, k, n).end as int) == b.subrange(
            l.start as int,
            l.end as int,
        ),
{
    if l.end <= k {
        assert(b2.subrange(l.start as int, l.end as int) =~= b.subrange(
            l.start as int,
            l.end as int,
        ));
    } else {
        assert(b2.subrange(l.start + n, l.end + n) =~= b.subrange(l.start as int, l.end as int));
    }
}

/// No token straddles a place between tokens.
proof fn lemma_token_sides(d: Dialect, b: Seq<u8>, k: int, i: int)
    requires
        b.len() <= usize::MAX,
        0 <= k <= b.len(),
        between_tokens(d, b, 0, k),
        0 <= i < lex(d, b, 0).len(),
    ensures
        lex(d, b, 0)[i].start < lex(d, b, 0)[i].end <= b.len(),
        lex(d, b, 0)[i].end <= k || lex(d, b, 0)[i].start >= k,
{
    let ls = lex(d, b, 0);
    lemma_positions(d, b, 0);
    assert(ls[i] == ls[i]);
    if ls[i].start < k && k != 0 {
        let i0 = choose|t: int| 0 <= t < ls.len() && #[trigger] ls[t].end == k;
        if i0 < i {
            assert(ls[i0].end <= ls[i].start);
        } else if i0 > i {
            assert(ls[i].end <= ls[i0].start);
        }
    }
}

/// Putting a run of whitespace in at a place between tokens (the start, or
/// the end of a token) changes no token's kind, value or text, only the
/// positions of the tokens after it, which move by the run's length.
/// Read backwards, taking such a run out changes nothing else either.
pub proof fn lemma_whitespace_invariance(d: Dialect, b: Seq<u8>, k: int, w: Seq<u8>)
    requires
        0 <= k <= b.len(),
        b.len() + w.len() <= usize::MAX,
        between_tokens(d, b, 0, k),
        forall|j: int| 0 <= j < w.len() ==> is_space(#[trigger] w[j]),
    ensures
        ({
            let b2 = b.subrange(0, k) + w + b.subrange(k, b.len() as int);
            let ls = lex(d, b, 0);
            let ms = lex(d, b2, 0);
            &&& ms.len() == ls.len()
            &&& forall|i: int| 0 <= i < ls.len() ==> #[trigger] ms[i] == moved(ls[i], k, w.len() as int)
            &&& forall|i: int|
                0 <= i < ls.len() ==> b2.subrange(ms[i].start as int, ms[i].end as int)
                    == b.subrange(#[trigger] ls[i].start as int, ls[i].end as int)
        }),
{
    let b2 = b.subrange(0, k) + w + b.subrange(k, b.len() as int);
    let n = w.len() as int;
    let ls = lex(d, b, 0);
    assert(b2.subrange(k, k + n) =~= w);
    assert(b2 == b.subrange(0, k) + b2.subrange(k, k + n) + b.subrange(k, b.len() as int));
    if n == 0 {
        assert(b2 =~= b);
        assert forall|i: int| 0 <= i < ls.len() implies #[trigger] lex(d, b2, 0)[i] == moved(
            ls[i],
            k,
            n,
        ) by {}
    } else {
        assert forall|j: int| 0 <= j < k implies b2[j] == #[trigger] b[j] by {}
        assert forall|j: int| k <= j < k + n implies is_space(#[trigger] b2[j]) by {
            assert(b2[j] == w[j - k]);
        }
        assert forall|j: int| k <= j < b.len() implies b2[j + n] == #[trigger] b[j] by {}
        lemma_insert_from(d, b, b2, 0, k, n);
    }
    let ms = lex(d, b2, 0);
    assert forall|i: int| 0 <= i < ls.len() implies b2.subrange(
        ms[i].start as int,
        ms[i].end as int,
    ) == b.subrange(#[trigger] ls[i].start as int, ls[i].end as int) by {
        lemma_token_sides(d, b, k, i);
        lemma_moved_text(b, b2, k, n, ls[i]);
    }
}

} // verus!
