//! Lexical and syntactic front end for a small expression language: UTF-8
//! decoding over raw bytes, a scanning window, a line map for diagnostics, a
//! tokenizer and a precedence-climbing expression parser.
pub mod utils;
pub mod text;
pub mod tokenizer;
pub mod parser;
