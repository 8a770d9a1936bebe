//! Front end of a small indentation-sensitive language: a character-level
//! scanner with ordered, backtracking matchers that classifies source text
//! into tokens, and a block tree builder that turns indentation into an
//! explicit nested block structure.

pub mod block_tree;
pub mod chars;
pub mod error;
pub mod lexer;
pub mod matcher;
pub mod nodizer;
pub mod token;
pub mod tokenizer;
