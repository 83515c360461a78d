//! A front end for a small expression language: a streaming tokenizer and a
//! recursive-descent parser with operator-precedence climbing.

pub mod lexer;
pub mod parser;
