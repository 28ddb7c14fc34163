//! A small spell-checking library: a word-frequency dictionary built from
//! training text, a tokenizer that extracts candidate words, a lookup that
//! flags words absent from the dictionary, and a plain-text storage format
//! for persisting the dictionary between runs.

pub mod chars;
pub mod checker;
pub mod errors;
pub mod storage;
pub mod tokenizer;

pub use checker::SpellChecker;
pub use errors::Error;
