//! A checker for cross-references written in Python docstrings.
pub mod text;
pub mod util;
pub mod graph;
pub mod patterns;
pub mod config;
pub mod extract;
pub mod fast_scan;
pub mod python_tree;
pub mod parse;
pub mod lsp;
pub mod inventory;
pub mod discover;
pub mod diagnostic;
