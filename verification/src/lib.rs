//! A structural consistency checker: it extracts the declared items of a
//! source text, extracts the fenced code samples of a paired documentation
//! text, and reports the drift between the two sides.

pub mod comparator;
pub mod config;
pub mod demo;
pub mod file_walker;
pub mod markdown_parser;
pub mod reporter;
pub mod rust_parser;
pub mod syn_api;
pub mod text;
