//! A dependency-free JSON reader: a character-level scanner, a tokenizer for
//! JSON's lexical grammar, and a recursive-descent parser that builds a typed
//! value tree.  Every stage carries a contract that ties its result to a
//! mathematical reference lexer and parser over the input's characters, so the
//! whole pipeline is verified: on every input, `parser::parse` returns exactly
//! the value or the error that the reference grammar assigns to it, and never
//! panics.

pub mod parser;
pub mod scanner;
pub mod tokenizer;

pub use parser::{parse, Error, Value};
pub use tokenizer::{Token, Tokenizer};
