//! Properties of tokenization as a whole, proved over the model.
use vstd::prelude::*;
use crate::model::{
    all_digits, decimal_value, is_digit, is_operator_symbol, is_supported, is_white_space,
    joined, lemma_run_digits, lemma_run_end_bounds, prepend, run_end, scan, spans,
    token_of_lexeme, tokens_of, visible,
};
use crate::token::{Token, TokenizeError};
use crate::tokenizer::{outcome, Calculator};

verus! {

/// A decimal digit is no whitespace.
proof fn lemma_digit_not_white_space(c: char)
    requires
        is_digit(c),
    ensures
        !is_white_space(c),
{
}

/// Scanning from `q` up to the first unsupported character at `p` fails: at
/// `p` itself, or earlier on a number that does not fit.
proof fn lemma_fails_by(s: Seq<char>, q: int, p: int)
    requires
        0 <= q <= p < s.len() <= usize::MAX,
        !is_supported(s[p]),
        forall|k: int| q <= k < p ==> is_supported(#[trigger] s[k]),
    ensures
        match scan(s, q) {
            Ok(_) => false,
            Err(TokenizeError::UnsupportedCharacter { ch, position }) => ch == s[p] && position
                == p,
            Err(TokenizeError::NumberOverflow { position }) => q <= position < p,
        },
    decreases p - q,
{
    if q < p {
        let c = s[q];
        assert(is_supported(c));
        if is_white_space(c) {
            lemma_fails_by(s, q + 1, p);
        } else if is_digit(c) {
            lemma_run_digits(s, q);
            lemma_run_end_bounds(s, q);
            let e = run_end(s, q);
            if e > p {
                assert(is_digit(s[p]));
            }
            if decimal_value(s.subrange(q, e)) <= usize::MAX {
                lemma_fails_by(s, e, p);
            }
        } else {
            lemma_fails_by(s, q + 1, p);
        }
    }
}

/// Tokenizing a text whose first character outside the digits, whitespace,
/// `+` and `-` stands at `p` returns no tokens: it fails on that character at
/// `p`, or earlier, on a run of digits before `p` too large for `usize`.
pub proof fn lemma_unsupported_character_fails(s: Seq<char>, p: int)
    requires
        0 <= p < s.len() <= usize::MAX,
        !is_supported(s[p]),
        forall|k: int| 0 <= k < p ==> is_supported(#[trigger] s[k]),
    ensures
        match tokens_of(s) {
            Ok(_) => false,
            Err(TokenizeError::UnsupportedCharacter { ch, position }) => ch == s[p] && position
                == p,
            Err(TokenizeError::NumberOverflow { position }) => position < p,
        },
{
    lemma_fails_by(s, 0, p);
}

/// Every run of digits in `s` has a value that fits in `usize`.
pub open spec fn numbers_fit(s: Seq<char>) -> bool {
    forall|i: int, j: int|
        0 <= i <= j <= s.len() && all_digits(s.subrange(i, j)) ==> decimal_value(
            #[trigger] s.subrange(i, j),
        ) <= usize::MAX
}

/// The token at each index is the one that the span at that index spells.
pub open spec fn spelled_by(s: Seq<char>, t: Seq<Token>, sp: Seq<(int, int)>) -> bool {
    &&& t.len() == sp.len()
    &&& forall|k: int|
        0 <= k < sp.len() ==> t[k] == token_of_lexeme(s.subrange(#[trigger] sp[k].0, sp[k].1))
}

/// Characters that are not whitespace from `i` to `e` are kept by `visible`.
proof fn lemma_visible_run(s: Seq<char>, i: int, e: int)
    requires
        0 <= i <= e <= s.len(),
        forall|k: int| i <= k < e ==> !is_white_space(#[trigger] s[k]),
    ensures
        visible(s, i) == s.subrange(i, e) + visible(s, e),
    decreases e - i,
{
    if i < e {
        lemma_visible_run(s, i + 1, e);
        assert(s.subrange(i, e) =~= seq![s[i]] + s.subrange(i + 1, e));
    } else {
        assert(s.subrange(i, e) + visible(s, e) =~= visible(s, e));
    }
}

/// A successful scan from `p` spells its tokens by its spans, and the spans
/// joined are the characters from `p` on that are not whitespace.
proof fn lemma_scan_spells(s: Seq<char>, p: int)
    requires
        0 <= p <= s.len(),
        scan(s, p) is Ok,
    ensures
        spelled_by(s, scan(s, p)->Ok_0, spans(s, p)),
        joined(s, spans(s, p)) == visible(s, p),
    decreases s.len() - p,
{
    if p < s.len() {
        let c = s[p];
        if is_white_space(c) {
            lemma_scan_spells(s, p + 1);
        } else {
            let e = if is_digit(c) {
                run_end(s, p)
            } else {
                p + 1
            };
            lemma_run_end_bounds(s, p);
            lemma_run_digits(s, p);
            lemma_scan_spells(s, e);
            let l = s.subrange(p, e);
            assert(l[0] == c);
            let sp = spans(s, p);
            assert(sp == seq![(p, e)] + spans(s, e));
            let t = scan(s, p)->Ok_0;
            let u = scan(s, e)->Ok_0;
            assert(t == seq![token_of_lexeme(l)] + u) by {
                if !is_digit(c) {
                    assert(l =~= seq![c]);
                }
            }
            assert(sp.drop_first() =~= spans(s, e));
            assert forall|k: int| 0 <= k < sp.len() implies t[k] == token_of_lexeme(
                s.subrange(#[trigger] sp[k].0, sp[k].1),
            ) by {
                if k > 0 {
                    assert(sp[k] == spans(s, e)[k - 1]);
                }
            }
            assert forall|k: int| p <= k < e implies !is_white_space(#[trigger] s[k]) by {
                if is_digit(c) {
                    lemma_digit_not_white_space(s[k]);
                }
            }
            lemma_visible_run(s, p, e);
        }
    }
}

/// A text of digits, whitespace, `+` and `-` only, whose numbers each fit in
/// `usize`, scans without failure from any position.
proof fn lemma_supported_scans(s: Seq<char>, p: int)
    requires
        0 <= p <= s.len(),
        forall|k: int| 0 <= k < s.len() ==> is_supported(#[trigger] s[k]),
        numbers_fit(s),
    ensures
        scan(s, p) is Ok,
    decreases s.len() - p,
{
    if p < s.len() {
        let c = s[p];
        assert(is_supported(c));
        if is_digit(c) && !is_white_space(c) {
            lemma_run_end_bounds(s, p);
            lemma_run_digits(s, p);
            let e = run_end(s, p);
            assert(all_digits(s.subrange(p, e)));
            lemma_supported_scans(s, e);
        } else {
            lemma_supported_scans(s, p + 1);
        }
    }
}

/// A text made only of digits, whitespace, `+` and `-`, in which every run of
/// digits fits in `usize`, tokenizes without failure. Each token is the one
/// that its source span spells, and the source spans, joined in order, give
/// back the characters of the text that are not whitespace.
pub proof fn lemma_supported_text_reconstructs(s: Seq<char>)
    requires
        forall|k: int| 0 <= k < s.len() ==> is_supported(#[trigger] s[k]),
        numbers_fit(s),
    ensures
        tokens_of(s) is Ok,
        spelled_by(s, tokens_of(s)->Ok_0, spans(s, 0)),
        joined(s, spans(s, 0)) == visible(s, 0),
{
    lemma_supported_scans(s, 0);
    lemma_scan_spells(s, 0);
}

/// The spans of a scan from `p` lie after `p`, inside the text, are not
/// empty, and follow one another without overlap.
proof fn lemma_spans_ordered(s: Seq<char>, p: int)
    requires
        0 <= p <= s.len(),
    ensures
        forall|k: int|
            0 <= k < spans(s, p).len() ==> p <= (#[trigger] spans(s, p)[k]).0 < spans(s, p)[k].1
                <= s.len(),
        forall|k1: int, k2: int|
            0 <= k1 < k2 < spans(s, p).len() ==> (#[trigger] spans(s, p)[k1]).1 <= (
            #[trigger] spans(s, p)[k2]).0,
    decreases s.len() - p,
{
    if p < s.len() {
        let c = s[p];
        lemma_run_end_bounds(s, p);
        if is_white_space(c) {
            lemma_spans_ordered(s, p + 1);
            assert(spans(s, p) == spans(s, p + 1));
        } else if is_digit(c) || is_operator_symbol(c) {
            let e = if is_digit(c) {
                run_end(s, p)
            } else {
                p + 1
            };
            lemma_spans_ordered(s, e);
            let sp = spans(s, p);
            let rest = spans(s, e);
            assert(sp == seq![(p, e)] + rest);
            assert(p < e);
            assert forall|k: int| 0 <= k < sp.len() implies p <= (#[trigger] sp[k]).0 < sp[k].1
                <= s.len() by {
                if k > 0 {
                    assert(sp[k] == rest[k - 1]);
                }
            }
            assert forall|k1: int, k2: int| 0 <= k1 < k2 < sp.len() implies (
            #[trigger] sp[k1]).1 <= (#[trigger] sp[k2]).0 by {
                assert(sp[k2] == rest[k2 - 1]);
                if k1 > 0 {
                    assert(sp[k1] == rest[k1 - 1]);
                }
            }
        }
    }
}

/// A scan from `p` that succeeds, with `p` not past the start of a maximal run
/// of digits `[i, j)`, has that run as one of its spans.
proof fn lemma_run_is_span(s: Seq<char>, p: int, i: int, j: int)
    requires
        0 <= p <= i < j <= s.len(),
        scan(s, p) is Ok,
        forall|k: int| i <= k < j ==> is_digit(#[trigger] s[k]),
        p < i ==> !is_digit(s[i - 1]),
        j < s.len() ==> !is_digit(s[j]),
    ensures
        exists|k: int| 0 <= k < spans(s, p).len() && #[trigger] spans(s, p)[k] == (i, j),
    decreases s.len() - p,
{
    let c = s[p];
    lemma_run_end_bounds(s, p);
    lemma_run_digits(s, p);
    if p == i {
        lemma_digit_not_white_space(c);
        crate::model::lemma_run_end_at(s, i, j);
        assert(spans(s, p)[0] == (i, j));
    } else if is_white_space(c) {
        lemma_run_is_span(s, p + 1, i, j);
        let k = choose|k: int| 0 <= k < spans(s, p + 1).len() && #[trigger] spans(s, p + 1)[k] == (
        i, j);
        assert(spans(s, p) == spans(s, p + 1));
        assert(spans(s, p)[k] == (i, j));
    } else {
        let e = if is_digit(c) {
            run_end(s, p)
        } else {
            p + 1
        };
        if is_digit(c) && e > i - 1 {
            assert(is_digit(s[i - 1]));
        }
        lemma_run_is_span(s, e, i, j);
        let rest = spans(s, e);
        let sp = spans(s, p);
        assert(sp == seq![(p, e)] + rest);
        let k = choose|k: int| 0 <= k < rest.len() && #[trigger] rest[k] == (i, j);
        assert(sp[k + 1] == (i, j));
    }
}

/// In a text that tokenizes without failure, a maximal run of digits `[i, j)`
/// is the source span of exactly one token, a number of the run's value; no
/// other token's span meets the run.
pub proof fn lemma_maximal_munch(s: Seq<char>, i: int, j: int)
    requires
        tokens_of(s) is Ok,
        0 <= i < j <= s.len(),
        forall|k: int| i <= k < j ==> is_digit(#[trigger] s[k]),
        i > 0 ==> !is_digit(s[i - 1]),
        j < s.len() ==> !is_digit(s[j]),
    ensures
        exists|k: int|
            0 <= k < spans(s, 0).len() && #[trigger] spans(s, 0)[k] == (i, j) && tokens_of(
                s,
            )->Ok_0[k] == Token::Number(decimal_value(s.subrange(i, j)) as usize) && forall|
                m: int,
            |
                0 <= m < spans(s, 0).len() && m != k ==> (#[trigger] spans(s, 0)[m]).1 <= i || j
                    <= spans(s, 0)[m].0,
{
    let sp = spans(s, 0);
    lemma_run_is_span(s, 0, i, j);
    lemma_spans_ordered(s, 0);
    lemma_scan_spells(s, 0);
    let k = choose|k: int| 0 <= k < sp.len() && #[trigger] sp[k] == (i, j);
    let l = s.subrange(i, j);
    assert(l[0] == s[i]);
    assert(tokens_of(s)->Ok_0[k] == token_of_lexeme(l));
    assert forall|m: int| 0 <= m < sp.len() && m != k implies (#[trigger] sp[m]).1 <= i || j
        <= sp[m].0 by {
        if m < k {
            assert(sp[m].1 <= sp[k].0);
        } else {
            assert(sp[k].1 <= sp[m].0);
        }
    }
}

/// Both results succeed, with the same tokens, or both fail.
pub open spec fn same_tokens(
    r1: Result<Seq<Token>, TokenizeError>,
    r2: Result<Seq<Token>, TokenizeError>,
) -> bool {
    &&& (r1 is Ok) == (r2 is Ok)
    &&& r1 is Ok ==> r1->Ok_0 == r2->Ok_0
}

/// `t` from `i` on and `u` from `k` on are the same characters.
spec fn same_after(t: Seq<char>, i: int, u: Seq<char>, k: int) -> bool {
    &&& 0 <= i <= t.len()
    &&& 0 <= k <= u.len()
    &&& t.len() - i == u.len() - k
    &&& forall|d: int| 0 <= d < t.len() - i ==> #[trigger] t[i + d] == u[k + d]
}

proof fn lemma_same_after_step(t: Seq<char>, i: int, u: Seq<char>, k: int, n: int)
    requires
        same_after(t, i, u, k),
        0 <= n <= t.len() - i,
    ensures
        same_after(t, i + n, u, k + n),
{
    assert forall|d: int| 0 <= d < t.len() - (i + n) implies #[trigger] t[i + n + d] == u[k + n
        + d] by {
        assert(t[i + (n + d)] == u[k + (n + d)]);
    }
}

proof fn lemma_run_end_shift(t: Seq<char>, i: int, u: Seq<char>, k: int)
    requires
        same_after(t, i, u, k),
    ensures
        run_end(t, i) - i == run_end(u, k) - k,
    decreases t.len() - i,
{
    if i < t.len() {
        assert(t[i + 0] == u[k + 0]);
        lemma_same_after_step(t, i, u, k, 1);
        lemma_run_end_shift(t, i + 1, u, k + 1);
    }
}

proof fn lemma_prepend_same(x: Seq<Token>, r1: Result<Seq<Token>, TokenizeError>, r2: Result<Seq<Token>, TokenizeError>)
    requires
        same_tokens(r1, r2),
    ensures
        same_tokens(prepend(x, r1), prepend(x, r2)),
{
}

/// The same characters give the same tokens wherever they stand.
proof fn lemma_scan_shift(t: Seq<char>, i: int, u: Seq<char>, k: int)
    requires
        same_after(t, i, u, k),
    ensures
        same_tokens(scan(t, i), scan(u, k)),
    decreases t.len() - i,
{
    if i < t.len() {
        let c = t[i];
        assert(t[i + 0] == u[k + 0]);
        if is_white_space(c) || !is_digit(c) {
            lemma_same_after_step(t, i, u, k, 1);
            lemma_scan_shift(t, i + 1, u, k + 1);
            if c == '+' || c == '-' {
                lemma_prepend_same(seq![token_of_lexeme(seq![c])], scan(t, i + 1), scan(u, k + 1));
            }
        } else {
            lemma_run_end_bounds(t, i);
            lemma_run_end_shift(t, i, u, k);
            let n = run_end(t, i) - i;
            lemma_same_after_step(t, i, u, k, n);
            lemma_scan_shift(t, i + n, u, k + n);
            assert(t.subrange(i, i + n) =~= u.subrange(k, k + n)) by {
                assert forall|d: int| 0 <= d < n implies #[trigger] t.subrange(i, i + n)[d] == u.subrange(
                    k,
                    k + n,
                )[d] by {
                    assert(t[i + d] == u[k + d]);
                }
            }
            let v = decimal_value(t.subrange(i, i + n));
            lemma_prepend_same(seq![Token::Number(v as usize)], scan(t, i + n), scan(u, k + n));
        }
    }
}

/// Scanning `a + w + b` and `a + b` from a position inside `a` gives the same
/// tokens, where `w` is whitespace that does not split a run of digits.
proof fn lemma_insert_white_space_from(a: Seq<char>, w: Seq<char>, b: Seq<char>, i: int)
    requires
        0 <= i <= a.len(),
        w.len() > 0,
        forall|k: int| 0 <= k < w.len() ==> is_white_space(#[trigger] w[k]),
        !(a.len() > 0 && b.len() > 0 && is_digit(a.last()) && is_digit(b[0])),
    ensures
        same_tokens(scan(a + w + b, i), scan(a + b, i)),
    decreases a.len() - i,
{
    let t = a + w + b;
    let u = a + b;
    let n = a.len() as int;
    let m = w.len() as int;
    if i == n {
        assert forall|k: int| n <= k < n + m implies is_white_space(#[trigger] t[k]) by {
            assert(t[k] == w[k - n]);
        }
        crate::model::lemma_skip_white_space(t, n, n + m);
        assert forall|d: int| 0 <= d < t.len() - (n + m) implies #[trigger] t[n + m + d] == u[n
            + d] by {}
        lemma_scan_shift(t, n + m, u, n);
    } else {
        let c = a[i];
        assert(t[i] == c && u[i] == c);
        if is_white_space(c) || !is_digit(c) {
            lemma_insert_white_space_from(a, w, b, i + 1);
            if c == '+' || c == '-' {
                lemma_prepend_same(seq![token_of_lexeme(seq![c])], scan(t, i + 1), scan(u, i + 1));
            }
        } else {
            lemma_run_end_bounds(a, i);
            lemma_run_digits(a, i);
            let e = run_end(a, i);
            assert forall|k: int| i <= k < e implies is_digit(#[trigger] t[k]) && is_digit(u[k]) by {
                assert(is_digit(a[k]));
            }
            if e < n {
                assert(t[e] == a[e] && u[e] == a[e]);
            } else {
                assert(t[n] == w[0]);
                if is_digit(t[n]) {
                    lemma_digit_not_white_space(t[n]);
                }
                assert(is_digit(a[n - 1]));
                if b.len() > 0 {
                    assert(u[n] == b[0]);
                }
            }
            crate::model::lemma_run_end_at(t, i, e);
            crate::model::lemma_run_end_at(u, i, e);
            assert(t.subrange(i, e) =~= u.subrange(i, e));
            lemma_insert_white_space_from(a, w, b, e);
            let v = decimal_value(t.subrange(i, e));
            lemma_prepend_same(seq![Token::Number(v as usize)], scan(t, e), scan(u, e));
        }
    }
}

/// Whitespace inserted between tokens, not inside a run of digits, changes
/// nothing: `a + w + b` tokenizes without failure exactly when `a + b` does,
/// and then into the same tokens. Read from right to left, the same holds of
/// whitespace removed.
pub proof fn lemma_white_space_invariance(a: Seq<char>, w: Seq<char>, b: Seq<char>)
    requires
        forall|k: int| 0 <= k < w.len() ==> is_white_space(#[trigger] w[k]),
        !(a.len() > 0 && b.len() > 0 && is_digit(a.last()) && is_digit(b[0])),
    ensures
        same_tokens(tokens_of(a + w + b), tokens_of(a + b)),
{
    if w.len() == 0 {
        assert(a + w + b =~= a + b);
    } else {
        lemma_insert_white_space_from(a, w, b, 0);
    }
}

/// Two tokenizations of the same text give equal results: what `tokenize`
/// returns depends on the text alone, not on any state left by an earlier call.
pub proof fn lemma_tokenize_repeatable(
    c: Calculator,
    r1: Result<Vec<Token>, TokenizeError>,
    r2: Result<Vec<Token>, TokenizeError>,
)
    requires
        outcome(r1) == tokens_of(c.expr@),
        outcome(r2) == tokens_of(c.expr@),
    ensures
        outcome(r1) == outcome(r2),
{
}

} // verus!
