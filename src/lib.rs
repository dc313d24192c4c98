//! A small language: a byte reader, a lexer, a recursive-descent parser and
//! a tree-walking evaluator over a chain of scopes, each with its contract.
pub mod fizzbuzz;
pub mod laws;
pub mod lexer;
pub mod parser;
pub mod runtime;
pub mod source_stream;
