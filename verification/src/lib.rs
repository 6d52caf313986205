//! Bundling a project's text files into a single Markdown document, and
//! restoring files from such a document.
//!
//! The core is pure and verified: layered ignore rules with negation,
//! deterministic selection and ordering of relative paths, the bundle text
//! format, and an explicit parser for it. Filesystem traversal and I/O stay
//! with the caller, which hands plain values in and takes plain values out.

pub mod cli;
pub mod hints;
pub mod parser;
pub mod rules;
pub mod select;
pub mod writer;
pub mod text;
