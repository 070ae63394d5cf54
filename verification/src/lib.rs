//! A speculative parallel CSS tokenizer.
//!
//! The crate couples two pieces: a speculative execution primitive
//! (`speculate`, `specfold`) that lets a consumer run ahead of a slow
//! producer on a predicted value, and a restartable CSS tokenizer whose
//! resynchronization predicate `next_token_start` makes chunked parallel
//! lexing possible (`spec_tokenize`).

pub mod laws;
pub mod lexer;
pub mod linecol;
pub mod model;
pub mod model_props;
pub mod parallel;
pub mod preprocess;
pub mod resync;
pub mod speculate;
pub mod streams;
pub mod tokens;
