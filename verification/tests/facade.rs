//! Verdicts on a symbol, and deltas between two runs.

use codegraph::facade::delta::{classify_delta, structural_delta_for_paths, DeltaRow};
use codegraph::facade::paths::{
    deleted_symbol_names, deleted_symbol_rows, impact_verdict_for_paths, touched_symbol_names,
};
use codegraph::facade::{impact_verdict, project_dependency_result, FacadeError, VerdictTarget};
use codegraph::graph::dependencies::{
    AmbiguousRef, DependencyGroup, DependencyNode, DependencyResult, UnresolvedRef,
};
use codegraph::graph::explain::DeletedSymbol;
use codegraph::graph::QueryEdge;
use codegraph::index::resolve::ResolverNode;

fn dep_node(node_id: &str, name: &str, qn: &str, node_type: &str, file: &str, depth: usize) -> DependencyNode {
    DependencyNode {
        node_id: node_id.to_string(),
        name: name.to_string(),
        qualified_name: qn.to_string(),
        node_type: node_type.to_string(),
        file_path: file.to_string(),
        depth,
    }
}

#[test]
fn projects_a_clean_verdict() {
    let dep_result = DependencyResult {
        groups: vec![DependencyGroup {
            root_node_id: "root1".to_string(),
            root_qualified_name: "crate::foo".to_string(),
            root_file: "src/foo.rs".to_string(),
            items: vec![dep_node("caller1", "caller", "crate::caller", "function", "src/caller.rs", 1)],
            unresolved: vec![],
            ambiguous: vec![],
        }],
        name_ambiguous: false,
        stale_references: vec![],
        live_definitions: 1,
    };

    let verdict = project_dependency_result(VerdictTarget::Symbol("foo".to_string()), "foo", &dep_result, false);

    assert!(verdict.is_clean());
    assert_eq!(verdict.resolved_dependent_count(), 1);
    assert_eq!(verdict.ambiguous_count(), 0);
    assert_eq!(verdict.stale_count(), 0);
    assert!(!verdict.graph_empty);
    assert_eq!(verdict.matched_symbols.len(), 1);
    assert_eq!(verdict.matched_symbols[0].node_id, "root1");
    assert_eq!(verdict.matched_symbols[0].qualified_name, "crate::foo");
    assert_eq!(verdict.matched_symbols[0].name, "foo");
    assert_eq!(verdict.resolved_dependents[0].of_symbol, "crate::foo");
    assert_eq!(verdict.resolved_dependents[0].qualified_name, "crate::caller");
    match verdict.target {
        VerdictTarget::Symbol(ref s) => assert_eq!(s, "foo"),
        VerdictTarget::Paths(_) => panic!("expected Symbol target"),
    }
}

#[test]
fn projects_stale_and_ambiguous_as_dirty() {
    let dep_result = DependencyResult {
        groups: vec![DependencyGroup {
            root_node_id: "root1".to_string(),
            root_qualified_name: "crate::helper".to_string(),
            root_file: "src/helper.rs".to_string(),
            items: vec![],
            unresolved: vec![UnresolvedRef {
                from_name: "ignored_on_rdeps".to_string(),
                from_file: "src/x.rs".to_string(),
                to_name: "helper".to_string(),
                to_type: "function".to_string(),
                depth: 1,
            }],
            ambiguous: vec![AmbiguousRef {
                from_name: "ambig_caller".to_string(),
                from_file: "src/y.rs".to_string(),
                to_name: "helper".to_string(),
                to_type: "function".to_string(),
                candidates: vec!["crate::helper".to_string(), "other::helper".to_string()],
                depth: 1,
            }],
        }],
        name_ambiguous: false,
        stale_references: vec![UnresolvedRef {
            from_name: "use_stale".to_string(),
            from_file: "src/stale_caller.rs".to_string(),
            to_name: "target::helper".to_string(),
            to_type: "function".to_string(),
            depth: 0,
        }],
        live_definitions: 1,
    };

    let verdict =
        project_dependency_result(VerdictTarget::Symbol("helper".to_string()), "helper", &dep_result, false);

    assert!(!verdict.is_clean());
    assert_eq!(verdict.stale_count(), 1);
    assert_eq!(verdict.stale_references[0].from_name, "use_stale");
    assert_eq!(verdict.ambiguous_count(), 1);
    assert_eq!(verdict.ambiguous_refusals[0].of_symbol, "crate::helper");
    assert_eq!(verdict.ambiguous_refusals[0].candidates.len(), 2);
    assert!(verdict.resolved_dependents.is_empty());
}

#[test]
fn graph_empty_is_independent_of_matched_symbols() {
    let empty_but_real = DependencyResult::default();
    let verdict = project_dependency_result(
        VerdictTarget::Symbol("nothing_named_this".to_string()),
        "nothing_named_this",
        &empty_but_real,
        false,
    );
    assert!(!verdict.graph_empty, "a populated graph that matched nothing is still not graph_empty");
    assert!(verdict.matched_symbols.is_empty());
    assert!(verdict.is_clean());

    let verdict_empty_graph = project_dependency_result(
        VerdictTarget::Symbol("x".to_string()),
        "x",
        &DependencyResult::default(),
        true,
    );
    assert!(verdict_empty_graph.graph_empty);
}

fn row(qn: &str, hash: Option<&str>, prev: Option<&str>) -> DeltaRow {
    DeltaRow {
        qualified_name: qn.to_string(),
        file_path: "src/a.rs".to_string(),
        node_type: "function".to_string(),
        hash: hash.map(str::to_string),
        prev_hash: prev.map(str::to_string),
    }
}

#[test]
fn delta_classifies_base_cases() {
    let delta = classify_delta(&vec![
        row("a::same", Some("h1"), Some("h1")),
        row("a::moved", Some("h2"), Some("h3")),
        row("a::fresh", Some("h4"), None),
        row("a::gone", None, Some("h5")),
    ]);
    assert_eq!(delta.preserved.len(), 1);
    assert_eq!(delta.preserved[0].qualified_name, "a::same");
    assert_eq!(delta.changed.len(), 1);
    assert_eq!(delta.changed[0].qualified_name, "a::moved");
    assert_eq!(delta.added.len(), 1, "h4 pairs with nothing");
    assert_eq!(delta.removed.len(), 1, "h5 pairs with nothing");
    assert!(!delta.is_structure_neutral());
}

#[test]
fn delta_pairs_unique_rename_into_preserved() {
    let delta = classify_delta(&vec![
        row("a::new_name", Some("h1"), None),
        row("a::old_name", None, Some("h1")),
        row("a::caller", Some("h9"), Some("h9")),
    ]);
    assert!(delta.is_structure_neutral(), "a pure rename is neutral, got {delta:?}");
    assert!(delta.added.is_empty() && delta.removed.is_empty());
    let renamed = delta
        .preserved
        .iter()
        .find(|s| s.renamed_from.is_some())
        .expect("the rename pair must surface");
    assert_eq!(renamed.qualified_name, "a::new_name");
    assert_eq!(renamed.renamed_from.as_deref(), Some("a::old_name"));
}

#[test]
fn delta_refuses_ambiguous_rename_pairing() {
    let delta = classify_delta(&vec![
        row("a::twin_one", Some("h1"), None),
        row("a::twin_two", Some("h1"), None),
        row("a::old", None, Some("h1")),
    ]);
    assert!(delta.preserved.is_empty(), "no guessing, got {delta:?}");
    assert_eq!(delta.added.len(), 2);
    assert_eq!(delta.removed.len(), 1);
    assert!(!delta.is_structure_neutral());
}

fn resolver_node(id: &str, name: &str, file: &str) -> ResolverNode {
    ResolverNode {
        id: id.to_string(),
        name: name.to_string(),
        node_type: "function".to_string(),
        language: "rust".to_string(),
        file_path: file.to_string(),
        qualified_name: format!("m::{name}"),
    }
}

fn query_edge(from: &str, to_id: &str, to_name: &str, confidence: &str) -> QueryEdge {
    QueryEdge {
        from_id: from.to_string(),
        to_id: to_id.to_string(),
        to_name: to_name.to_string(),
        to_type: "function".to_string(),
        edge_type: "calls".to_string(),
        confidence: confidence.to_string(),
        candidates: vec![],
    }
}

#[test]
fn a_verdict_is_computed_from_nodes_and_edges() {
    let nodes = vec![resolver_node("1", "f", "a.rs"), resolver_node("2", "g", "b.rs")];
    let edges = vec![query_edge("2", "1", "f", "RESOLVED")];
    let verdict = impact_verdict(&nodes, &edges, "f");
    assert!(verdict.is_clean());
    assert_eq!(verdict.resolved_dependent_count(), 1);
    assert_eq!(verdict.resolved_dependents[0].name, "g");
    assert!(!verdict.graph_empty);
    assert!(impact_verdict(&[], &[], "f").graph_empty);
}

#[test]
fn a_verdict_on_paths_asks_for_what_was_there_and_what_is_lost() {
    let nodes = vec![resolver_node("1", "f", "a.rs"), resolver_node("2", "g", "b.rs")];
    let edges = vec![query_edge("2", "1", "f", "RESOLVED"), query_edge("2", "", "gone", "UNRESOLVED")];
    let deleted = vec![DeletedSymbol {
        name: "gone".to_string(),
        qualified_name: "m::gone".to_string(),
        node_type: "function".to_string(),
        file_path: "a.rs".to_string(),
    }];
    let paths = vec!["a.rs".to_string()];
    let verdict = impact_verdict_for_paths(&nodes, &edges, &deleted, &paths);
    assert_eq!(verdict.resolved_dependent_count(), 1);
    assert_eq!(verdict.stale_count(), 1);
    assert_eq!(verdict.stale_references[0].to_name, "gone");
    assert!(!verdict.is_clean());
    assert_eq!(touched_symbol_names(&nodes, &paths), vec!["f"]);
    assert_eq!(deleted_symbol_names(&deleted, &paths, &vec!["f".to_string()]), vec!["gone"]);
    assert!(deleted_symbol_names(&deleted, &paths, &vec!["gone".to_string()]).is_empty());
    assert_eq!(deleted_symbol_rows(&deleted, &paths, &vec![]).len(), 1);
    assert!(deleted_symbol_rows(&deleted, &vec!["b.rs".to_string()], &vec![]).is_empty());
}

#[test]
fn a_delta_is_taken_of_the_asked_paths_alone() {
    let mut elsewhere = row("b::other", Some("h1"), None);
    elsewhere.file_path = "src/b.rs".to_string();
    let rows = vec![row("a::same", Some("h1"), Some("h1")), elsewhere];
    let delta = structural_delta_for_paths(&rows, &vec!["src/a.rs".to_string()], false);
    assert_eq!(delta.preserved_count(), 1);
    assert_eq!(delta.changed_count(), 0);
    assert!(delta.is_structure_neutral());
    assert_eq!(delta.paths, vec!["src/a.rs"]);
}

#[test]
fn every_row_of_a_delta_is_accounted_for() {
    let rows = vec![
        row("a::a", Some("h1"), Some("h1")),
        row("a::b", Some("h2"), Some("h3")),
        row("a::c", Some("h4"), None),
        row("a::d", None, Some("h4")),
        row("a::e", None, Some("h6")),
        row("a::f", None, None),
    ];
    let delta = classify_delta(&rows);
    assert_eq!(delta.preserved.len(), 2);
    assert_eq!(delta.changed.len(), 1);
    assert_eq!(delta.added.len(), 0);
    assert_eq!(delta.removed.len(), 1);
}

#[test]
fn a_failed_query_says_what_failed() {
    assert_eq!(FacadeError::Connection("x".to_string()).message(), "codegraph store unavailable: x");
    assert_eq!(FacadeError::Query("y".to_string()).message(), "codegraph query failed: y");
}

#[test]
fn lost_definitions_are_listed_in_one_order() {
    let lost = |name: &str, node_type: &str, file: &str| DeletedSymbol {
        name: name.to_string(),
        qualified_name: format!("m::{name}"),
        node_type: node_type.to_string(),
        file_path: file.to_string(),
    };
    let paths = vec!["a.rs".to_string(), "b.rs".to_string()];
    let one = vec![
        lost("g", "function", "a.rs"),
        lost("f", "struct", "a.rs"),
        lost("f", "function", "b.rs"),
        lost("f", "function", "a.rs"),
    ];
    let other: Vec<DeletedSymbol> = one.iter().rev().chain(one.iter()).cloned().collect();
    let told = |rows: &Vec<DeletedSymbol>| -> Vec<String> {
        deleted_symbol_rows(rows, &paths, &vec![])
            .iter()
            .map(|d| format!("{} {} {}", d.name, d.file_path, d.node_type))
            .collect()
    };
    assert_eq!(told(&one), vec!["f a.rs function", "f a.rs struct", "f b.rs function", "g a.rs function"]);
    assert_eq!(told(&other), told(&one));
}
