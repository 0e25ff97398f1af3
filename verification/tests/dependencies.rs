//! Dependencies and dependents of a symbol.

use codegraph::graph::dependencies::{
    compute_dependencies, compute_reverse_dependencies, reverse_dependency_paths,
};
use codegraph::graph::QueryEdge;
use codegraph::index::resolve::ResolverNode;

fn node(id: &str, name: &str, node_type: &str, file: &str, qn: &str) -> ResolverNode {
    ResolverNode {
        id: id.to_string(),
        name: name.to_string(),
        node_type: node_type.to_string(),
        language: "rust".to_string(),
        file_path: file.to_string(),
        qualified_name: qn.to_string(),
    }
}

fn edge(confidence: &str, from: &str, to_id: &str, to_name: &str, candidates: Vec<&str>) -> QueryEdge {
    QueryEdge {
        from_id: from.to_string(),
        to_id: to_id.to_string(),
        to_name: to_name.to_string(),
        to_type: "function".to_string(),
        edge_type: "calls".to_string(),
        confidence: confidence.to_string(),
        candidates: candidates.into_iter().map(str::to_string).collect(),
    }
}

#[test]
fn forward_walks_resolved_edges() {
    let nodes = vec![
        node("caller", "use_stale", "function", "caller.rs", "caller::use_stale"),
        node("target", "helper", "function", "target.rs", "target::helper"),
    ];
    let edges = vec![edge("RESOLVED", "caller", "target", "", vec![])];
    let result = compute_dependencies(&nodes, &edges, "use_stale", 3, false);
    assert_eq!(result.groups.len(), 1);
    assert_eq!(result.groups[0].items.len(), 1);
    assert_eq!(result.groups[0].items[0].name, "helper");
}

#[test]
fn forward_always_surfaces_unresolved_even_without_the_flag() {
    let nodes = vec![node("caller", "use_stale", "function", "caller.rs", "caller::use_stale")];
    let edges = vec![edge("UNRESOLVED", "caller", "", "target::helper", vec![])];

    let result = compute_dependencies(&nodes, &edges, "use_stale", 3, false);
    assert_eq!(result.groups[0].unresolved.len(), 1);
    assert_eq!(result.groups[0].unresolved[0].to_name, "target::helper");
    assert!(result.groups[0].items.is_empty());
}

#[test]
fn reverse_groups_per_symbol_on_collision() {
    let nodes = vec![
        node("a1", "walk_calls", "function", "a.rs", "a::walk_calls"),
        node("a2", "walk_calls", "function", "b.rs", "b::walk_calls"),
        node("caller_a", "caller_a", "function", "ca.rs", "ca::caller_a"),
        node("caller_b", "caller_b", "function", "cb.rs", "cb::caller_b"),
    ];
    let edges = vec![
        edge("RESOLVED", "caller_a", "a1", "", vec![]),
        edge("RESOLVED", "caller_b", "a2", "", vec![]),
    ];
    let result = compute_reverse_dependencies(&nodes, &edges, "walk_calls", 3, false);
    assert_eq!(result.groups.len(), 2);
    assert!(result.name_ambiguous);
    for g in &result.groups {
        assert_eq!(g.items.len(), 1, "each symbol's group must only contain its own caller");
    }
}

#[test]
fn reverse_ambiguous_gated_by_flag() {
    let nodes = vec![
        node("target", "helper", "function", "t.rs", "t::helper"),
        node("other", "helper", "function", "o.rs", "o::helper"),
        node("caller", "caller", "function", "c.rs", "c::caller"),
    ];
    let edges = vec![edge("AMBIGUOUS", "caller", "", "helper", vec!["target", "other"])];

    let hidden = compute_reverse_dependencies(&nodes, &edges, "helper", 3, false);
    assert!(hidden.groups.iter().all(|g| g.ambiguous.is_empty() && g.items.is_empty()));

    let shown = compute_reverse_dependencies(&nodes, &edges, "helper", 3, true);
    let target_group = shown
        .groups
        .iter()
        .find(|g| g.root_qualified_name == "t::helper")
        .expect("target group present");
    assert_eq!(target_group.ambiguous.len(), 1);
    assert!(target_group.items.is_empty(), "ambiguous edges must never be traversed");
}

#[test]
fn stale_reference_surfaces_when_target_renamed_away() {
    let nodes = vec![node(
        "stale_caller",
        "use_stale",
        "function",
        "stale_caller.rs",
        "stale_caller::use_stale",
    )];
    let edges = vec![edge("UNRESOLVED", "stale_caller", "", "target::helper", vec![])];

    let result = compute_reverse_dependencies(&nodes, &edges, "helper", 3, false);
    assert!(result.groups.is_empty(), "no live symbol named 'helper' should mean zero groups");
    assert_eq!(result.stale_references.len(), 1);
    assert_eq!(result.stale_references[0].from_name, "use_stale");
    assert_eq!(result.stale_references[0].to_name, "target::helper");
    assert_eq!(
        result.live_definitions, 0,
        "the renamed-away regime must report zero live definitions — the printers key \
         the incomplete-rename wording on exactly this"
    );

    let miss = compute_reverse_dependencies(&nodes, &edges, "helper_v2", 3, false);
    assert!(miss.stale_references.is_empty());
}

#[test]
fn live_definitions_reported_alongside_stale_references() {
    let nodes = vec![
        node("target", "helper", "function", "target.rs", "target::helper"),
        node("caller", "use_stale", "function", "caller.rs", "caller::use_stale"),
    ];
    let edges = vec![edge("UNRESOLVED", "caller", "", "helper", vec![])];

    let result = compute_reverse_dependencies(&nodes, &edges, "helper", 3, false);
    assert_eq!(
        result.stale_references.len(),
        1,
        "a bare pool-matching capture is a stale candidate while the symbol lives"
    );
    assert_eq!(
        result.live_definitions, 1,
        "the live definition must be counted so the printer never claims no live \
         symbol has this name"
    );
}

#[test]
fn qualified_capture_never_bare_tails_onto_a_live_symbol() {
    let nodes = vec![
        node("walker", "walk_calls", "function", "src/index/extractors/rust.rs", "extractors::rust::walk_calls"),
        node("helper", "node", "function", "src/graph/dependencies.rs", "graph::dependencies::tests::node"),
    ];
    let edges = vec![edge("UNRESOLVED", "walker", "", "cursor.node", vec![])];

    let result = compute_reverse_dependencies(&nodes, &edges, "node", 3, false);
    assert!(
        result.stale_references.is_empty(),
        "`cursor.node` is a method call on an external receiver, not a reference to \
         `graph::dependencies::tests::node`, got {:?}",
        result.stale_references
    );
}

#[test]
fn crate_prefixed_capture_of_a_live_symbol_is_not_stale() {
    let nodes = vec![
        node("caller", "run_query", "function", "src/main.rs", "run_query"),
        node(
            "target",
            "get_reverse_dependencies",
            "function",
            "src/graph/dependencies.rs",
            "graph::dependencies::get_reverse_dependencies",
        ),
    ];
    let edges = vec![edge(
        "UNRESOLVED",
        "caller",
        "",
        "codegraph::graph::dependencies::get_reverse_dependencies",
        vec![],
    )];

    let result = compute_reverse_dependencies(&nodes, &edges, "get_reverse_dependencies", 3, false);
    assert!(
        result.stale_references.is_empty(),
        "the symbol this capture names is right there and unrenamed, got {:?}",
        result.stale_references
    );
}

#[test]
fn pool_key_mismatch_is_not_a_stale_reference() {
    let nodes = vec![
        node("caller", "seeded", "function", "src/canon.rs", "canon::seeded"),
        node("lcg", "Lcg", "struct", "src/canon.rs", "canon::Lcg"),
    ];
    let edges = vec![edge("UNRESOLVED", "caller", "", "Lcg", vec![])];

    let result = compute_reverse_dependencies(&nodes, &edges, "Lcg", 3, false);
    assert!(
        result.stale_references.is_empty(),
        "a `function`-typed capture was never routed to a live `struct`, got {:?}",
        result.stale_references
    );

    let renamed = vec![nodes[0].clone()];
    let gone = compute_reverse_dependencies(&renamed, &edges, "Lcg", 3, false);
    assert_eq!(gone.stale_references.len(), 1);
}

#[test]
fn cross_language_bare_collision_is_not_a_stale_reference() {
    let mut py_caller = node("py", "main", "function", "app.py", "app::main");
    py_caller.language = "python".to_string();
    let go_target = node("go", "connect", "function", "main.go", "main::connect");

    let nodes = vec![py_caller, go_target];
    let edges = vec![edge("UNRESOLVED", "py", "", "connect", vec![])];

    let result = compute_reverse_dependencies(&nodes, &edges, "connect", 3, false);
    assert!(
        result.stale_references.is_empty(),
        "no call syntax in either language crosses that boundary, got {:?}",
        result.stale_references
    );
}

#[test]
fn paths_lead_from_a_dependent_to_the_subject() {
    let nodes = vec![
        node("1", "f", "function", "a.rs", "a::f"),
        node("2", "g", "function", "b.rs", "b::g"),
        node("3", "h", "function", "c.rs", "c::h"),
    ];
    let edges = vec![edge("RESOLVED", "2", "1", "f", vec![]), edge("RESOLVED", "3", "2", "g", vec![])];
    let paths = reverse_dependency_paths(&nodes, &edges, "f", 3);
    assert_eq!(paths.len(), 2);
    let shallow = reverse_dependency_paths(&nodes, &edges, "f", 1);
    assert_eq!(shallow.len(), 1);
}

#[test]
fn dependents_invert_dependencies_on_an_example() {
    let nodes = vec![
        node("1", "f", "function", "a.rs", "a::f"),
        node("2", "g", "function", "b.rs", "b::g"),
    ];
    let edges = vec![edge("RESOLVED", "2", "1", "f", vec![])];
    let of_g = compute_dependencies(&nodes, &edges, "g", 1, false);
    let on_f = compute_reverse_dependencies(&nodes, &edges, "f", 1, false);
    assert_eq!(of_g.groups[0].items[0].name, "f");
    assert_eq!(on_f.groups[0].items[0].name, "g");
    assert_eq!(on_f.groups[0].items[0].depth, 1);
}
