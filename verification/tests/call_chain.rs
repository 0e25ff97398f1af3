//! Chains of calls.

use codegraph::graph::call_chain::compute_call_chains;
use codegraph::graph::QueryEdge;
use codegraph::index::resolve::ResolverNode;

fn node(id: &str, name: &str, file: &str, qn: &str) -> ResolverNode {
    ResolverNode {
        id: id.to_string(),
        name: name.to_string(),
        node_type: "function".to_string(),
        language: "rust".to_string(),
        file_path: file.to_string(),
        qualified_name: qn.to_string(),
    }
}

fn edge(confidence: &str, from: &str, to_id: &str, to_name: &str, candidates: Vec<&str>) -> QueryEdge {
    QueryEdge {
        from_id: from.to_string(),
        to_id: to_id.to_string(),
        to_name: to_name.to_string(),
        to_type: "function".to_string(),
        edge_type: "calls".to_string(),
        confidence: confidence.to_string(),
        candidates: candidates.into_iter().map(str::to_string).collect(),
    }
}

#[test]
fn walks_resolved_edges_and_sorts_by_depth() {
    let nodes = vec![
        node("main", "main", "main.rs", "main"),
        node("a", "a", "a.rs", "a"),
        node("b", "b", "b.rs", "b"),
    ];
    let edges = vec![
        edge("RESOLVED", "main", "a", "", vec![]),
        edge("RESOLVED", "a", "b", "", vec![]),
    ];
    let result = compute_call_chains(&nodes, &edges, "main", 5, false);
    assert_eq!(result.groups.len(), 1);
    let entries = &result.groups[0].entries;
    assert_eq!(entries.len(), 2);
    assert_eq!(entries[0].depth, 1);
    assert_eq!(entries[1].depth, 2);
    assert_eq!(entries[1].callee_name, "b");
}

#[test]
fn unresolved_edges_are_never_walked() {
    let nodes = vec![node("main", "main", "main.rs", "main")];
    let edges = vec![edge("UNRESOLVED", "main", "", "println", vec![])];
    let result = compute_call_chains(&nodes, &edges, "main", 5, false);
    assert!(result.groups[0].entries.is_empty());
}

#[test]
fn ambiguous_start_name_produces_one_group_per_symbol() {
    let nodes = vec![
        node("a1", "helper", "alpha.rs", "alpha::helper"),
        node("a2", "helper", "beta.rs", "beta::helper"),
    ];
    let result = compute_call_chains(&nodes, &[], "helper", 3, false);
    assert_eq!(result.groups.len(), 2);
    assert!(result.name_ambiguous);
    let mut roots: Vec<&str> = result
        .groups
        .iter()
        .map(|g| g.root_qualified_name.as_str())
        .collect();
    roots.sort_unstable();
    assert_eq!(roots, vec!["alpha::helper", "beta::helper"]);
}

#[test]
fn ambiguous_edges_gated_by_flag_and_never_traversed() {
    let nodes = vec![
        node("main", "main", "main.rs", "main"),
        node("a1", "helper", "alpha.rs", "alpha::helper"),
        node("a2", "helper", "beta.rs", "beta::helper"),
    ];
    let edges = vec![edge("AMBIGUOUS", "main", "", "helper", vec!["a1", "a2"])];

    let hidden = compute_call_chains(&nodes, &edges, "main", 3, false);
    assert!(hidden.groups[0].entries.is_empty());
    assert!(hidden.groups[0].ambiguous.is_empty());

    let shown = compute_call_chains(&nodes, &edges, "main", 3, true);
    assert!(shown.groups[0].entries.is_empty(), "ambiguous edges must never be traversed");
    assert_eq!(shown.groups[0].ambiguous.len(), 1);
    let mut candidates = shown.groups[0].ambiguous[0].candidates.clone();
    candidates.sort_unstable();
    assert_eq!(candidates, vec!["alpha::helper".to_string(), "beta::helper".to_string()]);
}

#[test]
fn no_matching_function_returns_no_groups() {
    let nodes = vec![node("main", "main", "main.rs", "main")];
    let result = compute_call_chains(&nodes, &[], "nonexistent", 3, false);
    assert!(result.groups.is_empty());
    assert!(!result.name_ambiguous);
}
