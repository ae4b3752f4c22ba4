//! Front end of a small arithmetic expression language: a lexer that turns
//! source text into position-tagged tokens, and a recursive-descent parser
//! that turns tokens into expression trees.

pub mod codegen;
pub mod laws;
pub mod lexer;
pub mod parser;
pub mod text;
pub mod token;
