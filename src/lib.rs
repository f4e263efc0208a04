//! Scanning and grammar checking of arithmetic expressions made of numbers,
//! the four binary operators, braces and whitespace.

pub mod laws;
pub mod parser;
pub mod tokenizer;
