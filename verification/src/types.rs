//! The records that the note commands hand to the user interface.
use vstd::prelude::*;

verus! {

/// An opened vault.
pub struct VaultInfo {
    pub path: String,
    pub note_count: u64,
}

/// A note as listed: its id, path, title, last update and tag slugs.
pub struct NoteSummary {
    pub id: String,
    pub path: String,
    pub title: String,
    pub updated_at: String,
    pub tags: Vec<String>,
}

/// A tag of the taxonomy.
pub struct Tag {
    pub id: String,
    pub name: String,
    pub slug: String,
}

/// A note in the graph view, with its number of links.
pub struct GraphNode {
    pub id: String,
    pub title: String,
    pub degree: u64,
}

/// A link target that no note carries.
pub struct DanglingNode {
    pub id: String,
    pub name: String,
}

/// A link between two graph nodes.
pub struct GraphEdge {
    pub source: String,
    pub target: String,
}

/// The whole graph view.
pub struct GraphData {
    pub nodes: Vec<GraphNode>,
    pub edges: Vec<GraphEdge>,
    pub dangling_nodes: Vec<DanglingNode>,
}

/// A search hit with its excerpt.
pub struct SearchResult {
    pub note: NoteSummary,
    pub snippet: String,
}

/// A note that links to (or mentions) another one, with the context.
pub struct BacklinkEntry {
    pub source_path: String,
    pub source_title: String,
    pub snippet: String,
}

/// Progress of a long task.
pub struct ProgressPayload {
    pub pct: u8,
    pub scanned: u64,
    pub total: u64,
}

/// The outcome of a rename's link rewriting: how many notes changed.
pub struct RefactorResult {
    pub updated_count: u32,
}

} // verus!
