//! Queries over a project's symbols and references.

pub mod call_chain;
pub mod circular;
pub mod clones;
pub mod coupling;
pub mod dependencies;
pub mod explain;
pub mod figures;
pub mod hub_nodes;
pub mod paths;
pub mod reach;
pub mod search;
pub mod told;
pub mod walk;
pub mod web;

pub use crate::graph::web::QueryEdge;

use vstd::prelude::*;

verus! {

/// The kinds of references that are bound by name.
pub const NAME_EDGE_TYPES: [&'static str; 3] = ["calls", "member_of", "implements"];

/// A node that a query returns.
#[derive(Debug, Clone)]
pub struct GraphNode {
    pub node_id: String,
    pub name: String,
    pub node_type: String,
    pub file_path: String,
    pub language: String,
    pub start_line: Option<i64>,
}

/// A reference that a query returns.
#[derive(Debug, Clone)]
pub struct GraphEdge {
    pub from_name: String,
    pub to_name: String,
    pub edge_type: String,
    pub confidence: String,
}

} // verus!
