//! The meaning of tokenization, stated over the characters of the text.
use vstd::prelude::*;
use crate::token::{Operator, Token, TokenizeError};

verus! {

/// Characters with the Unicode `White_Space` property.
pub open spec fn is_white_space(c: char) -> bool {
    let u = c as u32;
    (0x09 <= u && u <= 0x0d) || u == 0x20 || u == 0x85 || u == 0xa0 || u == 0x1680 || (0x2000
        <= u && u <= 0x200a) || u == 0x2028 || u == 0x2029 || u == 0x202f || u == 0x205f || u
        == 0x3000
}

/// The decimal digits `0` to `9`.
pub open spec fn is_digit(c: char) -> bool {
    '0' <= c && c <= '9'
}

/// The operator symbols that the scanner recognises.
pub open spec fn is_operator_symbol(c: char) -> bool {
    c == '+' || c == '-'
}

/// A character that may stand in an expression.
pub open spec fn is_supported(c: char) -> bool {
    is_digit(c) || is_white_space(c) || is_operator_symbol(c)
}

pub open spec fn digit_value(c: char) -> nat {
    (c as u32 - '0' as u32) as nat
}

/// The value of a sequence of decimal digits, most significant first.
pub open spec fn decimal_value(d: Seq<char>) -> nat
    decreases d.len(),
{
    if d.len() == 0 {
        0
    } else {
        decimal_value(d.drop_last()) * 10 + digit_value(d.last())
    }
}

/// Every character of `d` is a decimal digit.
pub open spec fn all_digits(d: Seq<char>) -> bool {
    forall|k: int| 0 <= k < d.len() ==> is_digit(#[trigger] d[k])
}

/// The end of the longest run of digits in `s` that starts at `i`.
pub open spec fn run_end(s: Seq<char>, i: int) -> int
    decreases s.len() - i,
{
    if 0 <= i < s.len() && is_digit(s[i]) {
        run_end(s, i + 1)
    } else {
        i
    }
}

/// A run of digits that starts inside `s` ends inside it, and is not empty
/// where `s` has a digit at `i`.
pub proof fn lemma_run_end_bounds(s: Seq<char>, i: int)
    requires
        0 <= i <= s.len(),
    ensures
        i <= run_end(s, i) <= s.len(),
        i < s.len() && is_digit(s[i]) ==> i < run_end(s, i),
    decreases s.len() - i,
{
    if i < s.len() && is_digit(s[i]) {
        lemma_run_end_bounds(s, i + 1);
    }
}

#[via_fn]
proof fn scan_decreases(s: Seq<char>, i: int) {
    if 0 <= i < s.len() {
        lemma_run_end_bounds(s, i);
    }
}

#[via_fn]
proof fn spans_decreases(s: Seq<char>, i: int) {
    if 0 <= i < s.len() {
        lemma_run_end_bounds(s, i);
    }
}

/// Whitespace between `i` and `e` does not change what the scan finds.
pub proof fn lemma_skip_white_space(s: Seq<char>, i: int, e: int)
    requires
        0 <= i <= e <= s.len(),
        forall|k: int| i <= k < e ==> is_white_space(#[trigger] s[k]),
    ensures
        scan(s, i) == scan(s, e),
    decreases e - i,
{
    if i < e {
        lemma_skip_white_space(s, i + 1, e);
    }
}

/// A run of digits from `i` that stops at `e` ends at `e`.
pub proof fn lemma_run_end_at(s: Seq<char>, i: int, e: int)
    requires
        0 <= i <= e <= s.len(),
        forall|k: int| i <= k < e ==> is_digit(#[trigger] s[k]),
        e < s.len() ==> !is_digit(s[e]),
    ensures
        run_end(s, i) == e,
    decreases e - i,
{
    if i < e {
        lemma_run_end_at(s, i + 1, e);
    }
}

/// The run of digits from `i` holds digits only, and is followed by none.
pub proof fn lemma_run_digits(s: Seq<char>, i: int)
    requires
        0 <= i <= s.len(),
    ensures
        forall|k: int| i <= k < run_end(s, i) ==> is_digit(#[trigger] s[k]),
        run_end(s, i) < s.len() ==> !is_digit(s[run_end(s, i)]),
    decreases s.len() - i,
{
    lemma_run_end_bounds(s, i);
    if i < s.len() && is_digit(s[i]) {
        lemma_run_digits(s, i + 1);
    }
}

/// `t` with `r`'s tokens after it, or `r`'s error.
pub open spec fn prepend(t: Seq<Token>, r: Result<Seq<Token>, TokenizeError>) -> Result<
    Seq<Token>,
    TokenizeError,
> {
    match r {
        Ok(u) => Ok(t + u),
        Err(e) => Err(e),
    }
}

/// The tokens of `s` from position `i` on, or the error that stops the scan.
pub open spec fn scan(s: Seq<char>, i: int) -> Result<Seq<Token>, TokenizeError>
    decreases s.len() - i,
    via scan_decreases
{
    if i < 0 || i >= s.len() {
        Ok(Seq::empty())
    } else if is_white_space(s[i]) {
        scan(s, i + 1)
    } else if is_digit(s[i]) {
        let e = run_end(s, i);
        let v = decimal_value(s.subrange(i, e));
        if v > usize::MAX {
            Err(TokenizeError::NumberOverflow { position: i as usize })
        } else {
            prepend(seq![Token::Number(v as usize)], scan(s, e))
        }
    } else if s[i] == '+' {
        prepend(seq![Token::Operation(Operator::Addition)], scan(s, i + 1))
    } else if s[i] == '-' {
        prepend(seq![Token::Operation(Operator::Subtraction)], scan(s, i + 1))
    } else {
        Err(TokenizeError::UnsupportedCharacter { ch: s[i], position: i as usize })
    }
}

/// The result of tokenizing the whole of `s`.
pub open spec fn tokens_of(s: Seq<char>) -> Result<Seq<Token>, TokenizeError> {
    scan(s, 0)
}

/// The source span `(start, end)` of each token that the scan of `s` from
/// position `i` emits before it ends or stops.
pub open spec fn spans(s: Seq<char>, i: int) -> Seq<(int, int)>
    decreases s.len() - i,
    via spans_decreases
{
    if i < 0 || i >= s.len() {
        Seq::empty()
    } else if is_white_space(s[i]) {
        spans(s, i + 1)
    } else if is_digit(s[i]) {
        seq![(i, run_end(s, i))] + spans(s, run_end(s, i))
    } else if is_operator_symbol(s[i]) {
        seq![(i, i + 1)] + spans(s, i + 1)
    } else {
        Seq::empty()
    }
}

/// The token that a lexeme stands for.
pub open spec fn token_of_lexeme(l: Seq<char>) -> Token {
    if l == seq!['+'] {
        Token::Operation(Operator::Addition)
    } else if l == seq!['-'] {
        Token::Operation(Operator::Subtraction)
    } else {
        Token::Number(decimal_value(l) as usize)
    }
}

/// The characters of `s` in the spans `sp`, one span after another.
pub open spec fn joined(s: Seq<char>, sp: Seq<(int, int)>) -> Seq<char>
    decreases sp.len(),
{
    if sp.len() == 0 {
        Seq::empty()
    } else {
        s.subrange(sp[0].0, sp[0].1) + joined(s, sp.drop_first())
    }
}

/// The characters of `s` from position `i` on that are not whitespace.
pub open spec fn visible(s: Seq<char>, i: int) -> Seq<char>
    decreases s.len() - i,
{
    if i < 0 || i >= s.len() {
        Seq::empty()
    } else if is_white_space(s[i]) {
        visible(s, i + 1)
    } else {
        seq![s[i]] + visible(s, i + 1)
    }
}

} // verus!
