//! Structural fingerprints of symbols.

use codegraph::graph::QueryEdge;
use codegraph::index::fingerprint::hood::compute_fingerprints;
use codegraph::index::fingerprint::update::{update_fingerprints, ExistingRow};
use codegraph::index::fingerprint::{hash_to_hex, SymbolFingerprint};
use codegraph::index::resolve::ResolverNode;

fn node(id: &str, name: &str, kind: &str, file: &str, qn: &str) -> ResolverNode {
    ResolverNode {
        id: id.to_string(),
        name: name.to_string(),
        node_type: kind.to_string(),
        language: "rust".to_string(),
        file_path: file.to_string(),
        qualified_name: qn.to_string(),
    }
}

fn edge(from: &str, to: &str, etype: &str, confidence: &str) -> QueryEdge {
    QueryEdge {
        from_id: from.to_string(),
        to_id: to.to_string(),
        to_name: String::new(),
        to_type: String::new(),
        edge_type: etype.to_string(),
        confidence: confidence.to_string(),
        candidates: Vec::new(),
    }
}

fn hash_of<'a>(fps: &'a [SymbolFingerprint], qn: &str) -> &'a SymbolFingerprint {
    fps.iter()
        .find(|f| f.qualified_name == qn)
        .unwrap_or_else(|| panic!("no fingerprint for {qn} in {fps:?}"))
}

#[test]
fn pure_rename_preserves_hashes() {
    let before_nodes = vec![
        node("n1", "foo", "function", "src/a.rs", "a::foo"),
        node("n2", "caller", "function", "src/b.rs", "b::caller"),
        node("n3", "other", "function", "src/b.rs", "b::other"),
    ];
    let before_edges = vec![
        edge("n2", "n1", "calls", "RESOLVED"),
        edge("n3", "n1", "calls", "RESOLVED"),
    ];
    let after_nodes = vec![
        node("x9", "bar", "function", "src/a.rs", "a::bar"),
        node("x7", "caller", "function", "src/b.rs", "b::caller"),
        node("x8", "other", "function", "src/b.rs", "b::other"),
    ];
    let after_edges = vec![
        edge("x7", "x9", "calls", "RESOLVED"),
        edge("x8", "x9", "calls", "RESOLVED"),
    ];

    let before = compute_fingerprints(&before_nodes, &before_edges);
    let after = compute_fingerprints(&after_nodes, &after_edges);

    assert_eq!(
        hash_of(&before, "a::foo").hash,
        hash_of(&after, "a::bar").hash,
        "a pure rename must not move the target's fingerprint"
    );
    assert_eq!(hash_of(&before, "b::caller").hash, hash_of(&after, "b::caller").hash);
    let mut grown = after_edges.clone();
    grown.push(edge("x9", "x8", "calls", "RESOLVED"));
    let grown_fps = compute_fingerprints(&after_nodes, &grown);
    assert_ne!(
        hash_of(&after, "a::bar").hash,
        hash_of(&grown_fps, "a::bar").hash,
        "an added call is structure — the fingerprint must change"
    );
}

#[test]
fn unmaterialized_edges_are_excluded() {
    let nodes = vec![node("n1", "f", "function", "src/a.rs", "a::f")];
    let quiet = compute_fingerprints(&nodes, &[]);
    let noisy = compute_fingerprints(
        &nodes,
        &[edge("n1", "", "calls", "UNRESOLVED"), edge("n1", "", "calls", "AMBIGUOUS")],
    );
    assert_eq!(quiet, noisy, "edges without a materialized to_id must be invisible");
}

#[test]
fn reference_site_kinds_are_neighbors_not_centers() {
    let nodes = vec![
        node("n1", "f", "function", "src/a.rs", "a::f"),
        node("n2", "println", "macro_call", "src/a.rs", "a::println"),
        node("n3", "std::fmt", "import", "src/a.rs", "a::std::fmt"),
    ];
    let edges = vec![edge("n1", "n2", "calls", "EXTRACTED")];
    let fps = compute_fingerprints(&nodes, &edges);
    assert_eq!(fps.len(), 1, "only the function is a center, got {fps:?}");
    assert_eq!(fps[0].qualified_name, "a::f");
    assert_eq!(fps[0].edge_count, 1, "the macro_call edge is the function's structure");
}

#[test]
fn center_kind_enters_the_fingerprint() {
    let f = vec![node("n1", "x", "function", "src/a.rs", "a::x")];
    let s = vec![node("n1", "x", "struct", "src/a.rs", "a::x")];
    assert_ne!(
        compute_fingerprints(&f, &[])[0].hash,
        compute_fingerprints(&s, &[])[0].hash,
        "a bare function and a bare struct are different structures"
    );
}

#[test]
fn key_collisions_combine_deterministically() {
    let mk = |sid: &str, iid: &str, qn: &str| {
        vec![
            node(sid, "Foo", "struct", "src/a.rs", qn),
            node(iid, "Foo", "impl", "src/a.rs", qn),
        ]
    };
    let a = compute_fingerprints(&mk("n1", "n2", "a::Foo"), &[]);
    let b = compute_fingerprints(&mk("z2", "z1", "a::Bar"), &[]);
    assert_eq!(a.len(), 1, "one row per key, got {a:?}");
    assert_eq!(a[0].node_type, "impl+struct");
    assert_eq!(a[0].hash, b[0].hash, "combined hash must survive rename + node order");
}

#[test]
fn name_edge_count_excludes_contains() {
    let nodes = vec![
        node("m", "mod_a", "module", "src/a.rs", "a"),
        node("f", "f", "function", "src/a.rs", "a::f"),
        node("g", "g", "function", "src/a.rs", "a::g"),
    ];
    let edges = vec![
        edge("m", "f", "contains", "EXTRACTED"),
        edge("m", "g", "contains", "EXTRACTED"),
        edge("f", "g", "calls", "RESOLVED"),
    ];
    let fps = compute_fingerprints(&nodes, &edges);
    let f = hash_of(&fps, "a::f");
    assert_eq!(f.edge_count, 2, "contains + calls both count as structure");
    assert_eq!(f.name_edge_count, 1, "only the calls edge is a name-edge");
}

fn existing(qn: &str, hash: Option<String>) -> ExistingRow {
    ExistingRow {
        qualified_name: qn.to_string(),
        file_path: "src/a.rs".to_string(),
        node_type: "function".to_string(),
        hash,
        generation: 4,
    }
}

#[test]
fn a_hash_is_written_in_sixteen_digits() {
    assert_eq!(hash_to_hex(0), "0000000000000000");
    assert_eq!(hash_to_hex(0xdead_beef), "00000000deadbeef");
    assert_eq!(hash_to_hex(u64::MAX), "ffffffffffffffff");
}

#[test]
fn an_update_counts_what_is_new_changed_and_gone() {
    let nodes = vec![
        node("1", "f", "function", "src/a.rs", "a::f"),
        node("2", "g", "function", "src/a.rs", "a::g"),
    ];
    let hash = hash_to_hex(hash_of(&compute_fingerprints(&nodes, &[]), "a::f").hash);
    let rows = vec![existing("a::f", Some(hash)), existing("a::gone", Some("1".to_string()))];
    let update = update_fingerprints(&nodes, &[], &rows, false);
    assert_eq!(update.stats.symbols, 2);
    assert_eq!(update.stats.changed, 0);
    assert_eq!(update.rows.len(), 3);
    let forced = update_fingerprints(&nodes, &[], &rows, true);
    assert_eq!(forced.rows.len(), 2);
}
