//! Files that refer to each other.

use codegraph::graph::circular::{cross_file_edges, find_cycles};
use codegraph::graph::QueryEdge;
use codegraph::index::resolve::ResolverNode;

fn edges(pairs: &[(&str, &str, &str)]) -> Vec<(String, String, String)> {
    pairs
        .iter()
        .map(|(a, b, t)| (a.to_string(), b.to_string(), t.to_string()))
        .collect()
}

#[test]
fn detects_reciprocal_calls_cycle() {
    let name_edges = edges(&[("a.rs", "b.rs", "calls"), ("b.rs", "a.rs", "calls")]);
    let cycles = find_cycles(&name_edges, &[]);
    assert_eq!(cycles.len(), 1);
    assert_eq!(cycles[0].file_a, "a.rs");
    assert_eq!(cycles[0].file_b, "b.rs");
    assert_eq!(cycles[0].a_to_b_edges, 1);
    assert_eq!(cycles[0].b_to_a_edges, 1);
    assert_eq!(cycles[0].via, vec!["calls".to_string()]);
}

#[test]
fn one_directional_reference_is_not_a_cycle() {
    let name_edges = edges(&[("a.rs", "b.rs", "calls")]);
    assert!(find_cycles(&name_edges, &[]).is_empty());
}

#[test]
fn cycle_can_combine_different_edge_kinds() {
    let name_edges = edges(&[("a.rs", "b.rs", "member_of"), ("b.rs", "a.rs", "calls")]);
    let cycles = find_cycles(&name_edges, &[]);
    assert_eq!(cycles.len(), 1);
    assert_eq!(cycles[0].via, vec!["calls".to_string(), "member_of".to_string()]);
}

#[test]
fn dedupes_regardless_of_which_direction_is_seen_first() {
    let name_edges = edges(&[("b.rs", "a.rs", "calls"), ("a.rs", "b.rs", "calls")]);
    assert_eq!(find_cycles(&name_edges, &[]).len(), 1);
}

#[test]
fn file_ref_only_pair_still_detected() {
    let file_ref_pairs = vec![("a.rs".to_string(), "b.rs".to_string()), ("b.rs".to_string(), "a.rs".to_string())];
    let cycles = find_cycles(&[], &file_ref_pairs);
    assert_eq!(cycles.len(), 1);
    assert_eq!(cycles[0].via, vec!["file_ref".to_string()]);
}

#[test]
fn references_are_read_off_bound_edges() {
    let node = |id: &str, file: &str| ResolverNode {
        id: id.to_string(),
        name: id.to_string(),
        node_type: "function".to_string(),
        language: "rust".to_string(),
        file_path: file.to_string(),
        qualified_name: id.to_string(),
    };
    let edge = |from: &str, to: &str| QueryEdge {
        from_id: from.to_string(),
        to_id: to.to_string(),
        to_name: String::new(),
        to_type: String::new(),
        edge_type: "calls".to_string(),
        confidence: "RESOLVED".to_string(),
        candidates: vec![],
    };
    let nodes = vec![node("1", "a.rs"), node("2", "b.rs"), node("3", "a.rs")];
    let found = cross_file_edges(&nodes, &[edge("1", "2"), edge("1", "3"), edge("2", "")]);
    assert_eq!(found, edges(&[("a.rs", "b.rs", "calls")]));
}
