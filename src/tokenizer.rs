use vstd::prelude::*;
use crate::cursor::{consume_while, Cursor};
use crate::model::{
    all_digits, decimal_value, digit_value, is_digit, is_white_space, lemma_run_end_at,
    lemma_skip_white_space, prepend, run_end, scan, tokens_of,
};
use crate::token::{Operator, Token, TokenizeError};

verus! {

/// Relies on `char::is_whitespace`: true exactly for the characters with the
/// Unicode `White_Space` property.
#[verifier::external_body]
fn char_is_whitespace(c: char) -> (r: bool)
    ensures
        r == is_white_space(c),
{
    c.is_whitespace()
}

/// Whether `c` is one of the decimal digits `0` to `9`.
pub fn is_decimal_digit(c: char) -> (r: bool)
    ensures
        r == is_digit(c),
{
    '0' <= c && c <= '9'
}

/// The tokens, or the error, held by the result of a tokenization.
pub open spec fn outcome(r: Result<Vec<Token>, TokenizeError>) -> Result<Seq<Token>, TokenizeError> {
    match r {
        Ok(v) => Ok(v@),
        Err(e) => Err(e),
    }
}

/// Prepending two token sequences one after the other prepends their concatenation.
proof fn lemma_prepend_twice(a: Seq<Token>, b: Seq<Token>, r: Result<Seq<Token>, TokenizeError>)
    ensures
        prepend(a, prepend(b, r)) == prepend(a + b, r),
{
    if let Ok(u) = r {
        assert(a + (b + u) =~= (a + b) + u);
    }
}

/// The value of a prefix of a digit sequence is at most the value of the whole.
proof fn lemma_prefix_value(d: Seq<char>, k: int)
    requires
        0 <= k <= d.len(),
    ensures
        decimal_value(d.take(k)) <= decimal_value(d),
    decreases d.len(),
{
    if k == d.len() {
        assert(d.take(k) =~= d);
    } else {
        lemma_prefix_value(d.drop_last(), k);
        assert(d.drop_last().take(k) =~= d.take(k));
    }
}

/// The value of a sequence of decimal digits, or `None` where it exceeds
/// `usize::MAX`.
pub fn parse_decimal(digits: &Vec<char>) -> (r: Option<usize>)
    requires
        all_digits(digits@),
    ensures
        r == (if decimal_value(digits@) <= usize::MAX {
            Some(decimal_value(digits@) as usize)
        } else {
            None::<usize>
        }),
{
    let mut value: usize = 0;
    let mut i: usize = 0;
    while i < digits.len()
        invariant
            all_digits(digits@),
            i <= digits@.len(),
            value == decimal_value(digits@.take(i as int)),
        decreases digits@.len() - i,
    {
        let c = digits[i];
        assert(is_digit(digits@[i as int]));
        let d = (c as u32 - '0' as u32) as usize;
        proof {
            let next = digits@.take(i + 1);
            assert(next.drop_last() =~= digits@.take(i as int));
            assert(decimal_value(next) == value * 10 + digit_value(c));
            lemma_prefix_value(digits@, i + 1);
        }
        match value.checked_mul(10) {
            Some(m) => match m.checked_add(d) {
                Some(v) => {
                    value = v;
                },
                None => {
                    return None;
                },
            },
            None => {
                return None;
            },
        }
        i = i + 1;
    }
    assert(digits@.take(i as int) =~= digits@);
    Some(value)
}

/// Scans the next token from the cursor on, past any whitespace before it.
/// `Ok(None)` where only whitespace is left.
pub fn next_token(cursor: &mut Cursor) -> (r: Result<Option<Token>, TokenizeError>)
    requires
        old(cursor).wf(),
    ensures
        final(cursor).wf(),
        final(cursor).text() == old(cursor).text(),
        old(cursor).at() <= final(cursor).at(),
        match r {
            Ok(None) => scan(old(cursor).text(), old(cursor).at()) == Ok::<
                Seq<Token>,
                TokenizeError,
            >(Seq::empty()),
            Ok(Some(t)) => old(cursor).at() < final(cursor).at() && scan(
                old(cursor).text(),
                old(cursor).at(),
            ) == prepend(seq![t], scan(final(cursor).text(), final(cursor).at())),
            Err(e) => scan(old(cursor).text(), old(cursor).at()) == Err::<Seq<Token>, TokenizeError>(
                e,
            ),
        },
{
    let ghost s = cursor.text();
    let ghost from = cursor.at();
    consume_while(cursor, char_is_whitespace);
    proof {
        lemma_skip_white_space(s, from, cursor.at());
    }
    let start = cursor.pos;
    match cursor.peek() {
        None => Ok(None),
        Some(ch) => {
            if is_decimal_digit(ch) {
                let digits = consume_while(cursor, is_decimal_digit);
                proof {
                    lemma_run_end_at(s, start as int, cursor.at());
                    assert(digits@ == s.subrange(start as int, run_end(s, start as int)));
                }
                match parse_decimal(&digits) {
                    Some(v) => Ok(Some(Token::Number(v))),
                    None => Err(TokenizeError::NumberOverflow { position: start }),
                }
            } else if ch == '+' {
                cursor.advance();
                Ok(Some(Token::Operation(Operator::Addition)))
            } else if ch == '-' {
                cursor.advance();
                Ok(Some(Token::Operation(Operator::Subtraction)))
            } else {
                Err(TokenizeError::UnsupportedCharacter { ch, position: start })
            }
        },
    }
}

/// An arithmetic expression, held as text until it is tokenized.
pub struct Calculator {
    pub expr: String,
}

impl Calculator {
    pub fn new(expr: String) -> (r: Calculator)
        ensures
            r.expr@ == expr@,
    {
        Calculator { expr }
    }

    /// Scans the expression from left to right into numbers and operators,
    /// skipping whitespace; fails at the first character that no token can
    /// start with, or at the first number too large for `usize`.
    pub fn tokenize(&self) -> (r: Result<Vec<Token>, TokenizeError>)
        ensures
            outcome(r) == tokens_of(self.expr@),
    {
        let ghost s = self.expr@;
        let mut cursor = Cursor::new(self.expr.as_str());
        let mut tokens: Vec<Token> = Vec::new();
        assert(prepend(tokens@, scan(s, 0)) =~= tokens_of(s)) by {
            if let Ok(u) = scan(s, 0) {
                assert(tokens@ + u =~= u);
            }
        }
        loop
            invariant_except_break
                tokens_of(s) == prepend(tokens@, scan(s, cursor.at())),
            invariant
                s == self.expr@,
                cursor.wf(),
                cursor.text() == s,
            ensures
                tokens_of(s) == Ok::<Seq<Token>, TokenizeError>(tokens@),
            decreases s.len() - cursor.at(),
        {
            let ghost from = cursor.at();
            match next_token(&mut cursor) {
                Ok(None) => {
                    assert(tokens@ + Seq::<Token>::empty() =~= tokens@);
                    break;
                },
                Ok(Some(token)) => {
                    let ghost before = tokens@;
                    proof {
                        lemma_prepend_twice(before, seq![token], scan(s, cursor.at()));
                    }
                    tokens.push(token);
                    assert(tokens@ =~= before + seq![token]);
                },
                Err(e) => {
                    return Err(e);
                },
            }
        }
        Ok(tokens)
    }
}

} // verus!
