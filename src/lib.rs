//! A lexical tokenizer for simple arithmetic expressions: decimal literals,
//! `+` and `-`, separated by any amount of whitespace.

pub mod cursor;
pub mod model;
pub mod token;
pub mod tokenizer;
pub mod laws;
