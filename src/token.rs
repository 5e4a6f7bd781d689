use vstd::prelude::*;

verus! {

/// The kind of arithmetic operation that an operator token denotes.
///
/// `Multiplication` and `Division` can be represented, but the scanner
/// recognises no symbol for them: `*` and `/` are unsupported characters.
#[derive(Debug, Clone, Copy, PartialEq, Eq, Structural)]
pub enum Operator {
    Addition,
    Subtraction,
    Multiplication,
    Division,
}

/// One lexical unit of an expression.
#[derive(Debug, Clone, Copy, PartialEq, Eq, Structural)]
pub enum Token {
    Operation(Operator),
    Number(usize),
}

/// Why an expression could not be tokenized. Positions count characters
/// from the start of the text.
#[derive(Debug, Clone, Copy, PartialEq, Eq, Structural)]
pub enum TokenizeError {
    /// A character that is neither a decimal digit, whitespace, `+` nor `-`.
    UnsupportedCharacter { ch: char, position: usize },
    /// A run of digits, starting at `position`, whose value exceeds `usize::MAX`.
    NumberOverflow { position: usize },
}

} // verus!
