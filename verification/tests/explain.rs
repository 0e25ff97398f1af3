//! Explanations, and when the graph behind them may be kept.

use codegraph::graph::explain::cache::{should_cache, ExplainGraphCache};
use codegraph::graph::explain::check::check_fact;
use codegraph::graph::explain::{
    explain_symbol, verify_chain, DeletedSymbol, ExplainEdge, ExplainGraph, ExplainNode, Fact, FindingKind, Membership,
};
use codegraph::graph::dependencies::compute_reverse_dependencies;
use codegraph::graph::QueryEdge;
use codegraph::index::resolve::ResolverNode;
use std::sync::Arc;

fn mark(s: &str) -> Option<String> {
    Some(s.to_string())
}

#[test]
fn should_cache_when_the_watermark_held_steady_across_the_load() {
    assert!(should_cache(&mark("t1"), &mark("t1")));
}

#[test]
fn should_cache_when_the_project_has_never_been_indexed_on_either_read() {
    assert!(should_cache(&None, &None));
}

#[test]
fn should_not_cache_when_an_index_run_completed_during_the_load() {
    assert!(!should_cache(&mark("t1"), &mark("t2")));
}

#[test]
fn should_not_cache_when_the_first_index_run_ever_completed_during_the_load() {
    assert!(!should_cache(&None, &mark("t1")));
}

#[test]
fn a_graph_is_kept_until_the_next_run() {
    let mut cache = ExplainGraphCache::new("p".to_string());
    assert_eq!(cache.project_id(), "p");
    assert!(cache.get(&None).is_none());
    let graph = Arc::new(ExplainGraph::from_parts(vec![], vec![], vec![]));
    cache.loaded(mark("t1"), mark("t1"), graph.clone());
    assert!(cache.get(&mark("t1")).is_some());
    assert!(cache.get(&mark("t2")).is_none());
    cache.loaded(mark("t2"), mark("t3"), graph);
    assert!(cache.get(&mark("t2")).is_none());
    assert!(cache.get(&mark("t3")).is_none());
}

fn node(id: &str, name: &str, file: &str) -> ExplainNode {
    ExplainNode {
        node_id: id.to_string(),
        name: name.to_string(),
        node_type: "function".to_string(),
        language: "rust".to_string(),
        file_path: file.to_string(),
        qualified_name: format!("m::{name}"),
        start_line: Some(1),
    }
}

fn edge(from: &str, to_id: &str, to_name: &str, binding: (&str, &str)) -> ExplainEdge {
    ExplainEdge {
        from_id: from.to_string(),
        to_id: to_id.to_string(),
        to_name: to_name.to_string(),
        to_type: "function".to_string(),
        edge_type: "calls".to_string(),
        confidence: binding.0.to_string(),
        resolved_by: binding.1.to_string(),
        candidates: vec![],
        attempted_rules: vec![],
        resolution_outcome: String::new(),
    }
}

#[test]
fn every_chain_of_a_symbol_holds_up() {
    let nodes = vec![node("1", "f", "a.rs"), node("2", "g", "b.rs")];
    let edges = vec![edge("2", "1", "f", ("RESOLVED", "r5")), edge("2", "", "lost", ("UNRESOLVED", "r6"))];
    let graph = ExplainGraph::from_parts(nodes, edges, vec![]);
    let of_f = explain_symbol(&graph, "p", "f", &Membership::ExplicitSymbol);
    assert_eq!(of_f.len(), 1);
    assert_eq!(of_f[0].finding, FindingKind::Dependent);
    let of_lost = explain_symbol(&graph, "p", "lost", &Membership::ExplicitSymbol);
    assert_eq!(of_lost.len(), 1);
    assert_eq!(of_lost[0].finding, FindingKind::StaleReference);
    for chain in of_f.iter().chain(of_lost.iter()) {
        assert!(verify_chain(chain, &graph).ok, "{}", chain.render());
    }
}

#[test]
fn a_false_step_is_found_out() {
    let graph = ExplainGraph::from_parts(vec![node("1", "f", "a.rs"), node("2", "g", "b.rs")], vec![edge("2", "", "lost", ("UNRESOLVED", "r6"))], vec![]);
    let mut chain = explain_symbol(&graph, "p", "lost", &Membership::ExplicitSymbol).remove(0);
    chain.steps[1].fact = Fact::LiveDefinitions { name: "lost".to_string(), node_ids: vec!["9".to_string()] };
    let verdict = verify_chain(&chain, &graph);
    assert!(!verdict.ok);
    assert_eq!(verdict.failures().len(), 1);
    chain.explain_version = 1;
    let verdict = verify_chain(&chain, &graph);
    assert!(!verdict.ok);
    assert_eq!(verdict.unsupported_version, Some(1));
}

#[test]
fn a_hop_at_another_depth_is_not_accepted() {
    let nodes = vec![node("1", "f", "a.rs"), node("2", "g", "b.rs"), node("3", "h", "c.rs")];
    let edges = vec![edge("2", "1", "f", ("RESOLVED", "r5")), edge("3", "2", "g", ("RESOLVED", "r5"))];
    let graph = ExplainGraph::from_parts(nodes, edges, vec![]);
    let chains = explain_symbol(&graph, "p", "f", &Membership::ExplicitSymbol);
    assert_eq!(chains.len(), 2);
    let mut hops: usize = 0;
    for chain in &chains {
        assert!(verify_chain(chain, &graph).ok);
        for step in &chain.steps {
            if let Fact::ResolvedHop { key, to_id, resolved_by, depth } = &step.fact {
                hops += 1;
                for other in 0..5 {
                    let claim = Fact::ResolvedHop {
                        key: key.clone(),
                        to_id: to_id.clone(),
                        resolved_by: resolved_by.clone(),
                        depth: other,
                    };
                    assert_eq!(check_fact(&claim, chain, &graph).is_none(), other == *depth);
                }
            }
        }
    }
    assert_eq!(hops, 3);
    let claim = Fact::ResolvedHop {
        key: graph.edges()[1].key(),
        to_id: "2".to_string(),
        resolved_by: "r5".to_string(),
        depth: 1,
    };
    assert_eq!(
        check_fact(&claim, &chains[0], &graph).unwrap(),
        "hop is not at depth 1 from the chain's root, a definition of \"f\""
    );
}

#[test]
fn a_hop_is_counted_from_the_root_that_its_chain_names() {
    let nodes = vec![node("1", "s", "a.rs"), node("2", "s", "b.rs"), node("3", "x", "c.rs")];
    let edges = vec![edge("3", "1", "a::s", ("RESOLVED", "r1")), edge("1", "2", "b::s", ("RESOLVED", "r1"))];
    let graph = ExplainGraph::from_parts(nodes, edges, vec![]);
    let chains = explain_symbol(&graph, "p", "s", &Membership::ExplicitSymbol);
    assert_eq!(chains.len(), 3);
    let mut seen: Vec<(String, usize)> = Vec::new();
    for chain in &chains {
        assert!(verify_chain(chain, &graph).ok);
        for (i, step) in chain.steps.iter().enumerate() {
            if let Fact::ResolvedHop { key, depth, .. } = &step.fact {
                if key.from_id == "3" {
                    seen.push((chain.root().unwrap(), *depth));
                }
                for other in 0..5 {
                    let mut changed = chain.clone();
                    if let Fact::ResolvedHop { depth, .. } = &mut changed.steps[i].fact {
                        *depth = other;
                    }
                    assert_eq!(verify_chain(&changed, &graph).ok, other == *depth);
                }
            }
        }
    }
    assert_eq!(seen, vec![("1".to_string(), 1), ("2".to_string(), 2)]);
}

#[test]
fn a_deleted_subject_enters_by_its_own_record() {
    let lost = |name: &str| DeletedSymbol {
        name: name.to_string(),
        qualified_name: format!("m::{name}"),
        node_type: "function".to_string(),
        file_path: "a.rs".to_string(),
    };
    let edges = vec![edge("2", "", "lost", ("UNRESOLVED", "r6"))];
    let graph = ExplainGraph::from_parts(vec![node("2", "g", "b.rs")], edges, vec![lost("lost"), lost("other")]);
    let chains = explain_symbol(&graph, "p", "lost", &Membership::Deleted(lost("lost")));
    assert_eq!(chains.len(), 1);
    assert!(verify_chain(&chains[0], &graph).ok);
    assert_eq!(
        check_fact(&Fact::DeletionRecord(lost("other")), &chains[0], &graph).unwrap(),
        "entry names \"other\" but the chain's subject is \"lost\""
    );
    assert_eq!(
        check_fact(&Fact::DeletionRecord(lost("never")), &chains[0], &graph).unwrap(),
        "no deleted_symbol row matches \"m::never\" in a.rs"
    );
}

#[test]
fn what_is_reported_is_explained() {
    let nodes = vec![
        node("1", "f", "a.rs"),
        node("2", "g", "b.rs"),
        node("3", "h", "c.rs"),
        node("4", "f", "d.rs"),
        node("5", "k", "e.rs"),
    ];
    let mut open = edge("5", "", "f", ("AMBIGUOUS", "r6"));
    open.candidates = vec!["1".to_string(), "4".to_string()];
    let edges = vec![
        edge("2", "1", "f", ("RESOLVED", "r4")),
        edge("3", "2", "g", ("RESOLVED", "r5")),
        edge("3", "", "f", ("UNRESOLVED", "r6")),
        edge("3", "", "other", ("UNRESOLVED", "r6")),
        open,
    ];
    let graph = ExplainGraph::from_parts(nodes, edges, vec![]);
    let rows: Vec<ResolverNode> = graph
        .nodes()
        .iter()
        .map(|n| ResolverNode {
            id: n.node_id.clone(),
            name: n.name.clone(),
            node_type: n.node_type.clone(),
            language: n.language.clone(),
            file_path: n.file_path.clone(),
            qualified_name: n.qualified_name.clone(),
        })
        .collect();
    let links: Vec<QueryEdge> = graph
        .edges()
        .iter()
        .map(|e| QueryEdge {
            from_id: e.from_id.clone(),
            to_id: e.to_id.clone(),
            to_name: e.to_name.clone(),
            to_type: e.to_type.clone(),
            edge_type: e.edge_type.clone(),
            confidence: e.confidence.clone(),
            candidates: e.candidates.clone(),
        })
        .collect();
    let reported = compute_reverse_dependencies(&rows, &links, "f", 3, true);
    let chains = explain_symbol(&graph, "p", "f", &Membership::ExplicitSymbol);
    let of = |kind: FindingKind| chains.iter().filter(|c| c.finding == kind).count();
    let dependents: usize = reported.groups.iter().map(|g| g.items.len()).sum();
    assert_eq!(dependents, 2);
    assert_eq!(of(FindingKind::Dependent), dependents);
    assert_eq!(reported.stale_references.len(), 1);
    assert_eq!(of(FindingKind::StaleReference), 1);
    assert_eq!(reported.groups[0].ambiguous.len(), 1);
    assert_eq!(of(FindingKind::AmbiguousRefusal), 1);
    for chain in &chains {
        assert!(verify_chain(chain, &graph).ok, "{}", chain.render());
    }
}
