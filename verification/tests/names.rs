//! Qualified names and node ids.

use codegraph::index::node_id::generate_node_id;
use codegraph::index::parser::{CodeEdge, CodeNode, Metadata};
use codegraph::index::qualified_name::{assign, module_path_of};
use std::collections::HashMap;

fn node(id: &str, name: &str, node_type: &str) -> CodeNode {
    CodeNode {
        id: id.to_string(),
        name: name.to_string(),
        node_type: node_type.to_string(),
        language: "rust".to_string(),
        start_line: None,
        end_line: None,
        content: None,
        metadata: Metadata::new(),
        qualified_name: String::new(),
    }
}

fn contains(from_id: &str, to_id: &str) -> CodeEdge {
    CodeEdge {
        from_id: from_id.to_string(),
        to_id: to_id.to_string(),
        to_name: None,
        to_type: None,
        edge_type: "contains".to_string(),
        confidence: "EXTRACTED".to_string(),
    }
}

#[test]
fn rust_drops_src_and_extension() {
    assert_eq!(
        module_path_of("src/graph/dependencies.rs", "rust"),
        "graph::dependencies"
    );
}

#[test]
fn rust_mod_rs_names_its_own_directory() {
    assert_eq!(
        module_path_of("src/index/extractors/mod.rs", "rust"),
        "index::extractors"
    );
}

#[test]
fn rust_lib_and_main_are_crate_root() {
    assert_eq!(module_path_of("src/lib.rs", "rust"), "");
    assert_eq!(module_path_of("src/main.rs", "rust"), "");
}

#[test]
fn rust_without_src_prefix_is_unaffected() {
    assert_eq!(module_path_of("index/node_id.rs", "rust"), "index::node_id");
}

#[test]
fn go_package_is_directory_not_filename() {
    assert_eq!(module_path_of("pkg/server/handler.go", "go"), "pkg::server");
}

#[test]
fn go_root_file_has_empty_package_path() {
    assert_eq!(module_path_of("main.go", "go"), "");
}

#[test]
fn python_dotted_path_from_directories() {
    assert_eq!(
        module_path_of("mypkg/utils/helpers.py", "python"),
        "mypkg::utils::helpers"
    );
}

#[test]
fn python_init_names_its_own_package() {
    assert_eq!(module_path_of("mypkg/__init__.py", "python"), "mypkg");
}

#[test]
fn java_drops_filename_no_maven_stripping() {
    assert_eq!(
        module_path_of("src/main/java/com/example/Handler.java", "java"),
        "src::main::java::com::example"
    );
}

#[test]
fn typescript_no_src_stripping() {
    assert_eq!(module_path_of("src/app.ts", "typescript"), "src::app");
}

#[test]
fn c_cpp_full_path() {
    assert_eq!(module_path_of("lib/util.cpp", "cpp"), "lib::util");
}

#[test]
fn top_level_node_gets_module_prefix_only() {
    let mut nodes = vec![node("f1", "resolve_deps", "function")];
    let edges: Vec<CodeEdge> = vec![];
    assign(&mut nodes, &edges, "graph::dependencies");
    assert_eq!(nodes[0].qualified_name, "graph::dependencies::resolve_deps");
}

#[test]
fn top_level_node_with_empty_module_path_is_bare_name() {
    let mut nodes = vec![node("f1", "main", "function")];
    let edges: Vec<CodeEdge> = vec![];
    assign(&mut nodes, &edges, "");
    assert_eq!(nodes[0].qualified_name, "main");
}

#[test]
fn contained_node_chains_through_container() {
    let mut nodes = vec![
        node("c1", "Handler", "struct"),
        node("m1", "serve", "function"),
    ];
    let edges = vec![contains("c1", "m1")];
    assign(&mut nodes, &edges, "pkg::server");
    let by_id: HashMap<&str, &CodeNode> = nodes.iter().map(|n| (n.id.as_str(), n)).collect();
    assert_eq!(by_id["c1"].qualified_name, "pkg::server::Handler");
    assert_eq!(by_id["m1"].qualified_name, "pkg::server::Handler::serve");
}

#[test]
fn multi_level_containment_chain() {
    let mut nodes = vec![
        node("mod1", "tests", "module"),
        node("f1", "deterministic_across_calls", "function"),
    ];
    let edges = vec![contains("mod1", "f1")];
    assign(&mut nodes, &edges, "index::node_id");
    let by_id: HashMap<&str, &CodeNode> = nodes.iter().map(|n| (n.id.as_str(), n)).collect();
    assert_eq!(
        by_id["f1"].qualified_name,
        "index::node_id::tests::deterministic_across_calls"
    );
}

#[test]
fn impl_block_uses_bare_type_not_display_name() {
    let mut impl_meta = Metadata::new();
    impl_meta.note_text("impl_for", Some("IndexingTier"));
    let mut impl_node = node("impl1", "impl FromStr for IndexingTier", "impl");
    impl_node.metadata = impl_meta;

    let mut nodes = vec![impl_node, node("m1", "from_str", "function")];
    let edges = vec![contains("impl1", "m1")];
    assign(&mut nodes, &edges, "index");

    let by_id: HashMap<&str, &CodeNode> = nodes.iter().map(|n| (n.id.as_str(), n)).collect();
    assert_eq!(by_id["impl1"].qualified_name, "index::IndexingTier");
    assert_eq!(by_id["m1"].qualified_name, "index::IndexingTier::from_str");
}

#[test]
fn cycle_guard_does_not_infinite_loop() {
    let mut nodes = vec![node("a", "A", "module"), node("b", "B", "module")];
    let edges = vec![contains("a", "b"), contains("b", "a")];
    assign(&mut nodes, &edges, "root");
    let by_id: HashMap<&str, &CodeNode> = nodes.iter().map(|n| (n.id.as_str(), n)).collect();
    assert!(!by_id["a"].qualified_name.is_empty());
    assert!(!by_id["b"].qualified_name.is_empty());
}

#[test]
fn deterministic_across_calls() {
    let a = generate_node_id("proj1", "src/main.rs", "main", "function", Some(10));
    let b = generate_node_id("proj1", "src/main.rs", "main", "function", Some(10));
    assert_eq!(a, b);
    assert_eq!(a.len(), 32);
}

#[test]
fn different_projects_different_ids() {
    let a = generate_node_id("proj1", "src/main.rs", "main", "function", Some(10));
    let b = generate_node_id("proj2", "src/main.rs", "main", "function", Some(10));
    assert_ne!(a, b);
}

#[test]
fn different_lines_different_ids() {
    let a = generate_node_id("proj1", "src/main.rs", "Foo", "struct", Some(10));
    let b = generate_node_id("proj1", "src/main.rs", "Foo", "struct", Some(20));
    assert_ne!(a, b);
}

#[test]
fn an_id_is_the_front_of_a_digest() {
    assert_eq!(generate_node_id("p", "f", "n", "t", Some(1)), "b99d38b6149baf729088128d62813f25");
    assert_eq!(generate_node_id("p", "f", "n", "t", None), generate_node_id("p", "f", "n", "t", Some(0)));
}

#[test]
fn a_name_extends_that_of_its_container() {
    let mut nodes = vec![node("a", "A", "module"), node("b", "B", "struct"), node("c", "c", "function")];
    let edges = vec![contains("a", "b"), contains("b", "c")];
    assign(&mut nodes, &edges, "");
    let names: Vec<&str> = nodes.iter().map(|n| n.qualified_name.as_str()).collect();
    assert_eq!(names, vec!["A", "A::B", "A::B::c"]);
}
