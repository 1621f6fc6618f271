//! Front end and application engine of a small concatenative, stack-based
//! language: text normalization, the two tokenizer surfaces, brace grouping,
//! boundary detection and stack-relative parameter substitution.

pub mod lexer;
pub mod models;
pub mod normalize;
pub mod text;
pub mod tokenize;
pub mod utils;
