//! Core logic of a Markdown note vault: parsing notes, extracting links and
//! tags, rewriting links on rename, and deriving stable note identifiers.
pub mod text;
pub mod refactor;
pub mod wikilink;
pub mod parser;
pub mod notes;
pub mod graph;
pub mod indexer;
pub mod types;
