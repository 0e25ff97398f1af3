//! Binding references to definitions.

use codegraph::index::resolve::cascade::{resolve_all, resolve_one, resolve_one_traced};
use codegraph::index::resolve::indices::build_indices;
use codegraph::index::resolve::pass::{next_resolution_gen, resolve_incremental, resolve_project};
use codegraph::index::resolve::uses::{parse_rust_use, ImportFact};
use std::collections::HashMap;
use codegraph::index::resolve::{Binding, CascadeEnd, ResolverNode, RuleOutcome, UnresolvedEdge};

fn node(id: &str, name: &str, node_type: &str, language: &str, file: &str, qn: &str) -> ResolverNode {
    ResolverNode {
        id: id.to_string(),
        name: name.to_string(),
        node_type: node_type.to_string(),
        language: language.to_string(),
        file_path: file.to_string(),
        qualified_name: qn.to_string(),
    }
}

fn edge(from: &str, to_name: &str, to_type: &str) -> UnresolvedEdge {
    UnresolvedEdge {
        from_id: from.to_string(),
        to_name: to_name.to_string(),
        to_type: to_type.to_string(),
        edge_type: "calls".to_string(),
    }
}

#[test]
fn r3_same_file_bare_name() {
    let nodes = vec![
        node("run", "run", "function", "rust", "src/main.rs", "run"),
        node("log_startup", "log_startup", "function", "rust", "src/main.rs", "log_startup"),
    ];
    let e = edge("run", "log_startup", "function");
    let indices = build_indices(&nodes);
    let b = resolve_one(&e, &nodes, &indices);
    assert_eq!(b.confidence, "RESOLVED");
    assert_eq!(b.resolved_by, "r3");
    assert_eq!(b.to_id.as_deref(), Some("log_startup"));
}

#[test]
fn r1_exact_qualified_match() {
    let nodes = vec![
        node("run", "run", "function", "rust", "src/main.rs", "run"),
        node(
            "connect",
            "connect",
            "function",
            "rust",
            "src/db/connection.rs",
            "db::connection::connect",
        ),
    ];
    let e = edge("run", "db::connection::connect", "function");
    let b = resolve_one(&e, &nodes, &build_indices(&nodes));
    assert_eq!(b.resolved_by, "r1");
    assert_eq!(b.confidence, "RESOLVED");
    assert_eq!(b.to_id.as_deref(), Some("connect"));
}

#[test]
fn r2_qualified_suffix_match() {
    let nodes = vec![
        node("caller", "call_connect_via_module_import", "function", "rust", "src/delta.rs", "delta::call_connect_via_module_import"),
        node(
            "connect",
            "connect",
            "function",
            "rust",
            "src/db/connection.rs",
            "db::connection::connect",
        ),
    ];
    let e = edge("caller", "connection::connect", "function");
    let b = resolve_one(&e, &nodes, &build_indices(&nodes));
    assert_eq!(b.resolved_by, "r2");
    assert_eq!(b.confidence, "RESOLVED");
    assert_eq!(b.to_id.as_deref(), Some("connect"));
}

#[test]
fn r2m_crate_prefix_exact_match() {
    let nodes = vec![
        node("caller", "run", "function", "rust", "src/main.rs", "run"),
        node("connect", "connect", "function", "rust", "src/db.rs", "db::connect"),
    ];
    let e = edge("caller", "crate::db::connect", "function");
    let b = resolve_one(&e, &nodes, &build_indices(&nodes));
    assert_eq!(b.resolved_by, "r2m");
    assert_eq!(b.confidence, "RESOLVED");
    assert_eq!(b.to_id.as_deref(), Some("connect"));
}

#[test]
fn r2m_super_prefix_suffix_match() {
    let nodes = vec![
        node("caller", "helper", "function", "rust", "src/mcp/loader.rs", "mcp::loader::helper"),
        node("target", "load_project_edges", "function", "rust", "src/mcp/mod.rs", "mcp::load_project_edges"),
    ];
    let e = edge("caller", "super::load_project_edges", "function");
    let b = resolve_one(&e, &nodes, &build_indices(&nodes));
    assert_eq!(b.resolved_by, "r2m");
    assert_eq!(b.confidence, "RESOLVED");
    assert_eq!(b.to_id.as_deref(), Some("target"));
}

#[test]
fn r2m_stays_unresolved_when_module_relative_not_unique() {
    let nodes = vec![
        node("caller", "run", "function", "rust", "src/main.rs", "run"),
        node("a", "connect", "function", "rust", "src/a/db.rs", "a::db::connect"),
        node("b", "connect", "function", "rust", "src/b/db.rs", "b::db::connect"),
    ];
    let e = edge("caller", "crate::db::connect", "function");
    let b = resolve_one(&e, &nodes, &build_indices(&nodes));
    assert_eq!(b.confidence, "UNRESOLVED");
    assert_eq!(b.to_id, None);
}

#[test]
fn r2_requires_full_suffix_not_just_bare_tail() {
    let nodes = vec![
        node("caller", "caller", "function", "rust", "src/x.rs", "x::caller"),
        node("only", "connect", "function", "rust", "src/other.rs", "other::connect"),
    ];
    let e = edge("caller", "nonexistent::connect", "function");
    let b = resolve_one(&e, &nodes, &build_indices(&nodes));
    assert_eq!(b.confidence, "UNRESOLVED");
    assert_eq!(b.to_id, None);
}

#[test]
fn r2_mismatched_prefix_stays_unresolved_when_not_unique_either() {
    let nodes = vec![
        node("caller", "caller", "function", "rust", "src/x.rs", "x::caller"),
        node("a", "connect", "function", "rust", "src/a.rs", "a::connect"),
        node("b", "connect", "function", "rust", "src/b.rs", "b::connect"),
    ];
    let e = edge("caller", "nonexistent::connect", "function");
    let b = resolve_one(&e, &nodes, &build_indices(&nodes));
    assert_eq!(b.confidence, "UNRESOLVED");
}

#[test]
fn qualified_name_never_falls_back_to_bare_tail_r5() {
    let nodes = vec![
        node("caller", "extract", "function", "rust", "src/index/extractors/go.rs", "index::extractors::go::extract"),
        node(
            "new_fn",
            "new",
            "function",
            "rust",
            "src/mcp/server.rs",
            "mcp::server::CodegraphServer::new",
        ),
    ];
    let e = edge("caller", "HashMap::new", "function");
    let b = resolve_one(&e, &nodes, &build_indices(&nodes));
    assert_eq!(b.confidence, "UNRESOLVED", "HashMap::new must not bind to an unrelated project-unique `new`");
    assert_eq!(b.to_id, None);
}

#[test]
fn qualified_name_never_falls_back_to_bare_tail_ambiguity() {
    let nodes = vec![
        node("caller", "walk", "function", "rust", "src/index/extractors/go.rs", "index::extractors::go::walk"),
        node("node_fn_a", "node", "function", "rust", "src/a.rs", "a::node"),
        node("node_fn_b", "node", "function", "rust", "src/b.rs", "b::node"),
    ];
    let e = edge("caller", "cursor.node", "function");
    let b = resolve_one(&e, &nodes, &build_indices(&nodes));
    assert_eq!(b.confidence, "UNRESOLVED", "cursor.node() must not be flagged ambiguous against unrelated same-bare-name project functions");
    assert_eq!(b.candidates, None);
}

#[test]
fn r4_named_import_narrows_collision() {
    let nodes = vec![
        node("caller", "call_helper_via_import", "function", "rust", "src/delta.rs", "delta::call_helper_via_import"),
        node("import1", "use crate::alpha::helper;", "import", "rust", "src/delta.rs", "delta::use crate::alpha::helper;"),
        node("alpha_helper", "helper", "function", "rust", "src/alpha.rs", "alpha::helper"),
        node("beta_helper", "helper", "function", "rust", "src/beta.rs", "beta::helper"),
    ];
    let e = edge("caller", "helper", "function");
    let b = resolve_one(&e, &nodes, &build_indices(&nodes));
    assert_eq!(b.resolved_by, "r4");
    assert_eq!(b.confidence, "RESOLVED");
    assert_eq!(b.to_id.as_deref(), Some("alpha_helper"));
}

#[test]
fn r4_glob_import_narrows_to_direct_child() {
    let nodes = vec![
        node("caller", "dispatch_unique", "function", "rust", "src/gamma.rs", "gamma::dispatch_unique"),
        node("import1", "use crate::alpha::*;", "import", "rust", "src/gamma.rs", "gamma::use crate::alpha::*;"),
        node("import2", "use crate::beta::*;", "import", "rust", "src/gamma.rs", "gamma::use crate::beta::*;"),
        node("alpha_unique", "unique_alpha_fn", "function", "rust", "src/alpha.rs", "alpha::unique_alpha_fn"),
    ];
    let e = edge("caller", "unique_alpha_fn", "function");
    let b = resolve_one(&e, &nodes, &build_indices(&nodes));
    assert_eq!(b.resolved_by, "r4");
    assert_eq!(b.to_id.as_deref(), Some("alpha_unique"));
}

#[test]
fn r4_does_not_falsely_resolve_a_genuine_collision() {
    let nodes = vec![
        node("caller", "dispatch", "function", "rust", "src/gamma.rs", "gamma::dispatch"),
        node("import1", "use crate::alpha::*;", "import", "rust", "src/gamma.rs", "gamma::use crate::alpha::*;"),
        node("import2", "use crate::beta::*;", "import", "rust", "src/gamma.rs", "gamma::use crate::beta::*;"),
        node("alpha_helper", "helper", "function", "rust", "src/alpha.rs", "alpha::helper"),
        node("beta_helper", "helper", "function", "rust", "src/beta.rs", "beta::helper"),
    ];
    let e = edge("caller", "helper", "function");
    let b = resolve_one(&e, &nodes, &build_indices(&nodes));
    assert_eq!(b.confidence, "AMBIGUOUS");
    assert_eq!(b.resolved_by, "r6");
    assert_eq!(
        b.candidates,
        Some(vec!["alpha_helper".to_string(), "beta_helper".to_string()])
    );
}

#[test]
fn r5_project_unique_bare_name() {
    let nodes = vec![
        node("main_fn", "main", "function", "c", "main.c", "main::main"),
        node("legacy_helper", "legacy_helper", "function", "c", "legacy.c", "legacy::legacy_helper"),
    ];
    let e = edge("main_fn", "legacy_helper", "function");
    let b = resolve_one(&e, &nodes, &build_indices(&nodes));
    assert_eq!(b.resolved_by, "r5");
    assert_eq!(b.confidence, "RESOLVED");
    assert_eq!(b.to_id.as_deref(), Some("legacy_helper"));
}

#[test]
fn c_and_cpp_share_a_pool_bonus_r5() {
    let nodes = vec![
        node("main_fn", "main", "function", "cpp", "main.cpp", "main::main"),
        node("legacy_helper", "legacy_helper", "function", "c", "legacy.c", "legacy::legacy_helper"),
    ];
    let e = edge("main_fn", "legacy_helper", "function");
    let b = resolve_one(&e, &nodes, &build_indices(&nodes));
    assert_eq!(b.resolved_by, "r5");
    assert_eq!(b.confidence, "RESOLVED");
    assert_eq!(b.to_id.as_deref(), Some("legacy_helper"));
}

#[test]
fn six_way_collision_is_ambiguous_with_all_six_candidates() {
    let files = [
        "index/extractors/rust.rs",
        "index/extractors/go.rs",
        "index/extractors/python.rs",
        "index/extractors/typescript.rs",
        "index/extractors/java.rs",
        "index/extractors/c_cpp.rs",
    ];
    let mut nodes = vec![node("caller", "extract_calls", "function", "rust", "index/mod.rs", "index::mod::extract_calls")];
    let mut expected_ids = Vec::new();
    for (i, f) in files.iter().enumerate() {
        let id = format!("walk_calls_{i}");
        nodes.push(node(&id, "walk_calls", "function", "rust", f, &format!("{f}::walk_calls")));
        expected_ids.push(id);
    }
    expected_ids.sort();

    let e = edge("caller", "walk_calls", "function");
    let b = resolve_one(&e, &nodes, &build_indices(&nodes));
    assert_eq!(b.confidence, "AMBIGUOUS");
    assert_eq!(b.resolved_by, "r6");
    assert_eq!(b.candidates, Some(expected_ids));
}

#[test]
fn cross_language_collision_does_not_blend() {
    let nodes = vec![
        node("py_run", "run", "function", "python", "api/consumer.py", "consumer::run"),
        node("py_connect", "connect", "function", "python", "api/app.py", "app::connect"),
        node("go_connect", "connect", "function", "go", "worker/main.go", "worker::connect"),
    ];
    let e = edge("py_run", "connect", "function");
    let b = resolve_one(&e, &nodes, &build_indices(&nodes));
    assert_eq!(b.confidence, "RESOLVED");
    assert_eq!(b.resolved_by, "r5");
    assert_eq!(b.to_id.as_deref(), Some("py_connect"));
}

#[test]
fn unresolved_external_call_has_no_candidates() {
    let nodes = vec![node("run", "run", "function", "rust", "src/main.rs", "run")];
    let e = edge("run", "std::env::args", "function");
    let b = resolve_one(&e, &nodes, &build_indices(&nodes));
    assert_eq!(b.confidence, "UNRESOLVED");
    assert_eq!(b.resolved_by, "r6");
    assert_eq!(b.candidates, None);
    assert_eq!(b.to_id, None);
}

#[test]
fn orphaned_edge_fails_safe() {
    let nodes = vec![node("other", "other", "function", "rust", "src/x.rs", "x::other")];
    let e = edge("missing", "other", "function");
    let b = resolve_one(&e, &nodes, &build_indices(&nodes));
    assert_eq!(b.confidence, "UNRESOLVED");
    assert_eq!(b.to_id, None);
}

fn xorshift64(seed: &mut u64) -> u64 {
    let mut x = *seed;
    x ^= x << 13;
    x ^= x >> 7;
    x ^= x << 17;
    *seed = x;
    x
}

fn shuffled<T: Clone>(items: &[T], seed: u64) -> Vec<T> {
    let mut v = items.to_vec();
    let mut state = seed.max(1); // xorshift64 is fixed at 0
    for i in (1..v.len()).rev() {
        let j = (xorshift64(&mut state) as usize) % (i + 1);
        v.swap(i, j);
    }
    v
}

#[test]
fn determinism_under_shuffled_insertion_order() {
    let base_nodes = vec![
        node("run", "run", "function", "rust", "src/main.rs", "run"),
        node("log_startup", "log_startup", "function", "rust", "src/main.rs", "log_startup"),
        node("alpha_helper", "helper", "function", "rust", "src/alpha.rs", "alpha::helper"),
        node("beta_helper", "helper", "function", "rust", "src/beta.rs", "beta::helper"),
        node("connect", "connect", "function", "rust", "src/db/connection.rs", "db::connection::connect"),
        node("dispatch", "dispatch", "function", "rust", "src/gamma.rs", "gamma::dispatch"),
    ];
    let base_edges = vec![
        edge("run", "log_startup", "function"),
        edge("run", "db::connection::connect", "function"),
        edge("run", "std::env::args", "function"),
        edge("dispatch", "helper", "function"),
    ];

    let baseline: HashMap<(String, String), Binding> = {
        let indices = build_indices(&base_nodes);
        base_edges
            .iter()
            .map(|e| ((e.from_id.clone(), e.to_name.clone()), resolve_one(e, &base_nodes, &indices)))
            .collect()
    };

    for seed in 1u64..=20 {
        let nodes = shuffled(&base_nodes, seed);
        let edges = shuffled(&base_edges, seed.wrapping_mul(0x9E37_79B9));

        let indices = build_indices(&nodes);
        for e in &edges {
            let got = resolve_one(e, &nodes, &indices);
            let want = &baseline[&(e.from_id.clone(), e.to_name.clone())];
            assert_eq!(&got, want, "binding changed under shuffled insertion order for {e:?}");
        }
    }
}

#[test]
fn parses_named_use_stripping_crate_prefix() {
    let facts = parse_rust_use("use crate::alpha::helper;");
    assert_eq!(facts, vec![ImportFact { path: "alpha::helper".to_string(), glob: false }]);
}

#[test]
fn parses_module_use() {
    let facts = parse_rust_use("use crate::db::connection;");
    assert_eq!(facts, vec![ImportFact { path: "db::connection".to_string(), glob: false }]);
}

#[test]
fn parses_glob_use() {
    let facts = parse_rust_use("use crate::alpha::*;");
    assert_eq!(facts, vec![ImportFact { path: "alpha".to_string(), glob: true }]);
}

#[test]
fn parses_grouped_use_into_multiple_facts() {
    let mut facts = parse_rust_use("use crate::foo::{bar, baz};");
    facts.sort_by(|a, b| a.path.cmp(&b.path));
    assert_eq!(
        facts,
        vec![
            ImportFact { path: "foo::bar".to_string(), glob: false },
            ImportFact { path: "foo::baz".to_string(), glob: false },
        ]
    );
}

#[test]
fn parses_nested_grouped_use() {
    let mut facts = parse_rust_use("use crate::foo::{bar::{a, b}, baz};");
    facts.sort_by(|x, y| x.path.cmp(&y.path));
    assert_eq!(
        facts,
        vec![
            ImportFact { path: "foo::bar::a".to_string(), glob: false },
            ImportFact { path: "foo::bar::b".to_string(), glob: false },
            ImportFact { path: "foo::baz".to_string(), glob: false },
        ]
    );
}

#[test]
fn pub_use_is_parsed_like_plain_use() {
    let facts = parse_rust_use("pub use crate::alpha::helper;");
    assert_eq!(facts, vec![ImportFact { path: "alpha::helper".to_string(), glob: false }]);
}

#[test]
fn aliased_import_matches_by_real_path_not_alias() {
    let facts = parse_rust_use("use crate::alpha::helper as aliased;");
    assert_eq!(facts, vec![ImportFact { path: "alpha::helper".to_string(), glob: false }]);
}

#[test]
fn import_fact_glob_matches_only_direct_children() {
    let fact = ImportFact { path: "alpha".to_string(), glob: true };
    assert!(fact.matches("alpha::helper"));
    assert!(!fact.matches("alpha::nested::deep")); // not a direct child
    assert!(!fact.matches("beta::helper"));
}

#[test]
fn import_fact_named_matches_exact_or_suffix() {
    let fact = ImportFact { path: "alpha::helper".to_string(), glob: false };
    assert!(fact.matches("alpha::helper"));
    assert!(fact.matches("myapp::alpha::helper"));
    assert!(!fact.matches("alpha::other_helper"));
}

#[test]
fn a_trace_tells_which_rules_were_tried() {
    let nodes = vec![
        node("run", "run", "function", "rust", "src/main.rs", "run"),
        node("a", "helper", "function", "rust", "src/a.rs", "a::helper"),
        node("b", "helper", "function", "rust", "src/b.rs", "b::helper"),
    ];
    let (binding, trace) = resolve_one_traced(&edge("run", "helper", "function"), &nodes, &build_indices(&nodes));
    assert_eq!(binding.confidence, "AMBIGUOUS");
    let rules: Vec<&str> = trace.attempts.iter().map(|a| a.rule).collect();
    assert_eq!(rules, vec!["r3", "r4", "r5"]);
    assert_eq!(trace.attempts[0].outcome, RuleOutcome::NoMatch);
    assert_eq!(trace.attempts[1].outcome, RuleOutcome::Skipped);
    assert_eq!(trace.attempts[2].outcome, RuleOutcome::NotUnique);
    assert_eq!(trace.outcome, CascadeEnd::Ambiguous);
    let (_, orphan) = resolve_one_traced(&edge("gone", "helper", "function"), &nodes, &build_indices(&nodes));
    assert_eq!(orphan.outcome, CascadeEnd::OrphanedSource);
}

#[test]
fn a_full_pass_counts_and_links_files() {
    let nodes = vec![
        node("run", "run", "function", "rust", "src/main.rs", "run"),
        node("a", "helper", "function", "rust", "src/a.rs", "a::helper"),
    ];
    let edges = vec![edge("run", "helper", "function"), edge("run", "missing", "function")];
    let pass = resolve_project(&nodes, &edges);
    assert_eq!(pass.stats.edges_considered, 2);
    assert_eq!((pass.stats.resolved, pass.stats.ambiguous, pass.stats.unresolved), (1, 0, 1));
    assert_eq!(pass.file_pairs, vec![("src/main.rs".to_string(), "src/a.rs".to_string())]);
    assert_eq!(pass.stats.file_refs, 1);
    assert_eq!(pass.rows[0].to_id, "a");
    assert_eq!(pass.rows[1].to_id, "");
}

#[test]
fn an_incremental_pass_and_what_it_leaves_are_a_full_pass() {
    let before = vec![
        node("run", "run", "function", "rust", "src/main.rs", "run"),
        node("a", "helper", "function", "rust", "src/a.rs", "a::helper"),
        node("c", "other", "function", "rust", "src/c.rs", "c::other"),
    ];
    let mut after = before.clone();
    after[1] = node("a2", "helper_v2", "function", "rust", "src/a.rs", "a::helper_v2");
    let edges = vec![edge("run", "helper", "function"), edge("run", "other", "function")];
    let changed = vec!["src/a.rs".to_string()];
    let delta = vec!["helper".to_string(), "helper_v2".to_string()];
    let pass = resolve_incremental(&after, &edges, &changed, &delta);
    assert_eq!(pass.rows.len(), 1);
    assert_eq!(pass.rows[0].to_name, "helper");
    assert_eq!(pass.rows[0].confidence, "UNRESOLVED");
    let full = resolve_all(&after, &edges);
    let old = resolve_all(&before, &edges);
    assert_eq!(full[1], old[1]);
    assert_eq!(full[0].confidence, pass.rows[0].confidence);
    assert!(resolve_incremental(&after, &edges, &vec![], &delta).rows.is_empty());
}

#[test]
fn a_generation_follows_the_greatest_one() {
    assert_eq!(next_resolution_gen(&vec![]), 1);
    assert_eq!(next_resolution_gen(&vec![3, 7, 2]), 8);
}
