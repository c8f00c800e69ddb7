//! A tokenizer and recursive-descent (Pratt) parser for a small C-like
//! scripting language: source text is turned into a stream of tokens, and the
//! token stream into an abstract syntax tree of statements and expressions,
//! with operator precedence and left-associativity proved correct against a
//! specification-level parser.

pub mod ast;
pub mod lexer;
pub mod parser;
pub mod token;
