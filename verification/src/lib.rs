//! Front end of a small scripting language: a lexer that turns source text
//! into a token stream, and a recursive-descent parser with operator
//! precedence climbing that turns the token stream into an abstract syntax
//! tree. Both stages are pure computations: each either runs to completion
//! or reports a structured error, and both are verified against recursive
//! specification-level models of lexing and parsing.

pub mod ast;
pub mod operators;
pub mod token;
pub mod tokenizer;
pub mod parser;
pub mod laws;
