//! Parser for indentation-structured `key: value` status reports.
//!
//! A report nests its fields by the column of the separator alone. The
//! crate turns such a text into a tree of records and reads the identifiers
//! of the active groups out of it.

pub mod builder;
pub mod extractor;
pub mod report;
pub mod text;
pub mod tokenizer;
pub mod tree;
