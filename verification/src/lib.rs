//! A small JSON-like reader: a pull-based tokenizer and a recursive-descent
//! tree builder. The grammar is deliberately narrow: integers without sign,
//! fraction or exponent; strings without escape handling; `true` and `false`;
//! objects and arrays; no `null`. A top-level scalar is accepted.
//!
//! The whole pipeline is specified against `Seq<char>`: the scanner against
//! [`lexer::scan`], the tree builder against [`parser::spec_parse`].

pub mod chars;
pub mod laws;
pub mod lexer;
pub mod parse_error;
pub mod parser;
pub mod token;
pub mod value;
