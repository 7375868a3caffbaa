//! Front end for a small s-expression language: a lexer that turns raw
//! ASCII bytes into a tree of tokens, and a syntax validator/desugarer that
//! walks that tree, enforces the grammar, inserts missing type placeholders,
//! rewrites sugared `function` definitions into `let`-bound lambdas, and
//! collects per-module symbol tables.

pub mod laws;
pub mod program;
pub mod source_info;
pub mod errors;
pub mod scanner;
pub mod token;
pub mod strutil;
pub mod tokenizer;
pub mod tokenizer_model;
pub mod validate;
pub mod validate_model;
