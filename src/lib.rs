//! A spell checker for source trees: tokenizing, path filtering, dictionary lookup,
//! per-file checking with inline disable markers, and the scheduling of file checks.
pub mod checker;
pub mod config;
pub mod dictionary;
pub mod engine;
pub mod path_filter;
pub mod scan;
pub mod tokenizer;
