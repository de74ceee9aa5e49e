//! Semantic-highlight token engine for a markup/typesetting language server.
//!
//! The library turns a classified syntax tree into the flat, delta-encoded
//! semantic-token stream of the editor protocol, and maintains the text of
//! each open document, applying range-based edits addressed by line and
//! UTF-16 column.

pub mod encoder;
pub mod store;
pub mod text;
pub mod tokens;
pub mod tree;

pub use tokens::{ToSemanticToken, TypstSemanticToken};
