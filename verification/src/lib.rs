//! A backtracking parser-combinator runtime and a precedence-climbing
//! expression grammar for a small language whose keywords are pinyin words.
//!
//! The crate is organised around a cursor ([`parser::Parser`]) over an
//! immutable character buffer, a three-way parse outcome (success, soft
//! mismatch, hard error), exact source spans attached to every parsed
//! value, and grammar rules built by composing attempts.

pub mod ast;
pub mod defs;
pub mod expr;
pub mod keywords;
pub mod laws;
pub mod lex;
pub mod ops;
pub mod parse_unit;
pub mod parser;
pub mod span;
