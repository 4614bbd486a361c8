//! Front end of the Steel language: from source text to a validated syntax
//! tree.
//!
//! `text` holds characters, runs of characters and positions, `ast` the
//! tree with its names and number literals, and `parser` the lexer, the
//! grammar and the errors. `parser::parse_str` is the way in.

pub mod ast;
pub mod parser;
pub mod text;
