//! Lexical front end for a small subset of the C language.
//!
//! The library turns raw source text into a sequence of typed tokens
//! (keywords, identifiers, integer constants and punctuation), or reports
//! the unrecognized remainder of the input as a lexical error.

pub mod lexer;
