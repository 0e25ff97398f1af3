//! What each language's extractor makes of source text.

use codegraph::index::extractors::{c_cpp, go, java, python, rust, typescript};
use codegraph::index::parser::{
    extension_to_language, parse_file, CodeEdge, CodeNode, ExtractionContext, MetaValue, ParseError,
};
use codegraph::index::qualified_name::{assign, module_path_of};
use codegraph::index::syntax::{syntax_tree, Grammar};
use codegraph::index::IndexingTier;

fn extracted_at(file_path: &str, language: &str, grammar: Grammar, source: &str, tier: IndexingTier) -> ExtractionContext {
    let root = syntax_tree(source, grammar).ok().expect("parse the source");
    let mut ctx = ExtractionContext {
        project_id: "test".to_string(),
        file_path: file_path.to_string(),
        language: language.to_string(),
        source: source.to_string(),
        tier,
        nodes: Vec::new(),
        edges: Vec::new(),
    };
    match language {
        "rust" => rust::extract(&mut ctx, &root),
        "python" => python::extract(&mut ctx, &root),
        "java" => java::extract(&mut ctx, &root),
        "go" => go::extract(&mut ctx, &root),
        "typescript" => typescript::extract(&mut ctx, &root),
        _ => c_cpp::extract(&mut ctx, &root),
    }
    let module = module_path_of(file_path, language);
    assign(&mut ctx.nodes, &ctx.edges, &module);
    ctx
}

fn extracted(file_path: &str, language: &str, grammar: Grammar, source: &str) -> ExtractionContext {
    extracted_at(file_path, language, grammar, source, IndexingTier::Full)
}

fn rust_nodes(file_path: &str, source: &str) -> Vec<CodeNode> {
    extracted(file_path, "rust", Grammar::Rust, source).nodes
}

fn python_nodes(file_path: &str, source: &str) -> Vec<CodeNode> {
    extracted(file_path, "python", Grammar::Python, source).nodes
}

fn java_parts(file_path: &str, source: &str) -> (Vec<CodeNode>, Vec<CodeEdge>) {
    let ctx = extracted(file_path, "java", Grammar::Java, source);
    (ctx.nodes, ctx.edges)
}

fn go_parts(file_path: &str, source: &str) -> (Vec<CodeNode>, Vec<CodeEdge>) {
    let ctx = extracted(file_path, "go", Grammar::Go, source);
    (ctx.nodes, ctx.edges)
}

fn typescript_ctx(file_path: &str, source: &str) -> ExtractionContext {
    extracted(file_path, "typescript", Grammar::TypeScript, source)
}

fn typescript_nodes(file_path: &str, source: &str) -> Vec<CodeNode> {
    typescript_ctx(file_path, source).nodes
}

fn callees(ctx: &ExtractionContext) -> Vec<String> {
    ctx.edges
        .iter()
        .filter(|e| e.edge_type == "calls")
        .filter_map(|e| e.to_name.clone())
        .collect()
}

#[test]
fn rust_top_level_function_qualified_name() {
    let src = "pub fn resolve_deps() {}\n";
    let nodes = rust_nodes("src/graph/dependencies.rs", src);
    let f = nodes
        .iter()
        .find(|n| n.name == "resolve_deps")
        .expect("resolve_deps node");
    assert_eq!(f.qualified_name, "graph::dependencies::resolve_deps");
}

#[test]
fn impl_method_qualified_name_uses_bare_type() {
    let src = "struct IndexingTier;\n\nimpl std::str::FromStr for IndexingTier {\n    type Err = ();\n    fn from_str(s: &str) -> Result<Self, ()> { Err(()) }\n}\n";
    let nodes = rust_nodes("src/index/mod.rs", src);
    let f = nodes
        .iter()
        .find(|n| n.name == "from_str")
        .expect("from_str node");
    assert_eq!(f.qualified_name, "index::IndexingTier::from_str");
}

#[test]
fn nested_mod_function_qualified_name() {
    let src = "mod tests {\n    fn deterministic_across_calls() {}\n}\n";
    let nodes = rust_nodes("src/index/node_id.rs", src);
    let f = nodes
        .iter()
        .find(|n| n.name == "deterministic_across_calls")
        .expect("test fn node");
    assert_eq!(
        f.qualified_name,
        "index::node_id::tests::deterministic_across_calls"
    );
}

#[test]
fn crate_root_files_produce_bare_qualified_names() {
    let src = "pub fn foo() {}\n";

    let main_nodes = rust_nodes("src/main.rs", src);
    let main_foo = main_nodes
        .iter()
        .find(|n| n.name == "foo")
        .expect("foo node in src/main.rs");
    assert_eq!(main_foo.qualified_name, "foo");

    let lib_nodes = rust_nodes("src/lib.rs", src);
    let lib_foo = lib_nodes
        .iter()
        .find(|n| n.name == "foo")
        .expect("foo node in src/lib.rs");
    assert_eq!(lib_foo.qualified_name, "foo");
}

#[test]
fn a_named_closure_binding_is_a_definition() {
    let src = "fn agui_to_proto() {\n    let base_event = |base: &BaseEvent| {\n        base.id()\n    };\n    base_event(&a);\n    base_event(&b);\n}\n";
    let nodes = rust_nodes("src/event_converter.rs", src);
    let closure = nodes
        .iter()
        .find(|n| n.name == "base_event")
        .expect("the closure binding must be a definition node");
    assert_eq!(closure.node_type, "function");
    assert_eq!(
        closure.qualified_name,
        "event_converter::agui_to_proto::base_event",
        "it is contained by the function that binds it"
    );
}

#[test]
fn a_plain_let_binding_is_not_a_definition() {
    let src = "fn run() {\n    let total = compute();\n    let (a, b) = pair();\n}\n";
    let nodes = rust_nodes("src/app.rs", src);
    let names: Vec<&String> = nodes.iter().map(|n| &n.name).collect();
    assert!(!names.iter().any(|n| *n == "total"), "got {names:?}");
    assert!(!names.iter().any(|n| *n == "a"), "got {names:?}");
}

#[test]
fn a_closure_body_is_not_walked_for_calls_twice() {
    let src = "fn outer() {\n    let inner = || {\n        helper();\n    };\n    inner();\n}\n";
    let ctx = extracted("src/app.rs", "rust", Grammar::Rust, src);

    let helper_edges = ctx
        .edges
        .iter()
        .filter(|e| e.to_name.as_deref() == Some("helper"))
        .count();
    assert_eq!(helper_edges, 1, "one call, one edge");
}

#[test]
fn python_top_level_function_qualified_name() {
    let src = "def helper():\n    pass\n";
    let nodes = python_nodes("mypkg/utils/helpers.py", src);
    let f = nodes
        .iter()
        .find(|n| n.name == "helper")
        .expect("helper node");
    assert_eq!(f.qualified_name, "mypkg::utils::helpers::helper");
}

#[test]
fn python_class_method_qualified_name() {
    let src = "class Handler:\n    def serve(self):\n        pass\n";
    let nodes = python_nodes("mypkg/server.py", src);
    let class = nodes
        .iter()
        .find(|n| n.name == "Handler")
        .expect("Handler node");
    let method = nodes
        .iter()
        .find(|n| n.name == "serve")
        .expect("serve node");
    assert_eq!(class.qualified_name, "mypkg::server::Handler");
    assert_eq!(method.qualified_name, "mypkg::server::Handler::serve");
}

#[test]
fn init_py_names_its_own_package() {
    let src = "def helper():\n    pass\n";
    let nodes = python_nodes("mypkg/__init__.py", src);
    let f = nodes
        .iter()
        .find(|n| n.name == "helper")
        .expect("helper node");
    assert_eq!(f.qualified_name, "mypkg::helper");
}

#[test]
fn java_class_method_qualified_name() {
    let src = "class Handler {\n    void serve() {}\n}\n";
    let (nodes, _edges) = java_parts("com/example/Handler.java", src);
    let class = nodes
        .iter()
        .find(|n| n.name == "Handler")
        .expect("Handler node");
    let method = nodes
        .iter()
        .find(|n| n.name == "serve")
        .expect("serve node");
    assert_eq!(class.qualified_name, "com::example::Handler");
    assert_eq!(method.qualified_name, "com::example::Handler::serve");
}

#[test]
fn call_expressions_capture_qualifier() {
    let src = "class Caller {\n    void run() {\n        foo();\n        this.foo();\n        Db.connect();\n        com.example.db.Db.connect();\n    }\n}\n";
    let (nodes, edges) = java_parts("Caller.java", src);
    let run = nodes.iter().find(|n| n.name == "run").expect("run node");

    let to_names: Vec<String> = edges
        .iter()
        .filter(|e| e.edge_type == "calls" && e.from_id == run.id)
        .map(|e| e.to_name.clone().unwrap_or_default())
        .collect();

    assert_eq!(
        to_names,
        vec![
            "foo".to_string(),                       // bare call
            "foo".to_string(),                       // this.foo() -> "this." stripped
            "Db.connect".to_string(),                // single qualifier, verbatim
            "com.example.db.Db.connect".to_string(), // full dotted path, verbatim
        ]
    );
}

#[test]
fn c_top_level_function_qualified_name() {
    let src = "int add(int a, int b) { return a + b; }\n";
    let nodes = extracted("lib/util.c", "c", Grammar::C, src).nodes;
    let f = nodes.iter().find(|n| n.name == "add").expect("add node");
    assert_eq!(f.qualified_name, "lib::util::add");
}

#[test]
fn cpp_class_method_qualified_name() {
    let src = "class Handler {\n    void serve() {}\n};\n";
    let nodes = extracted("lib/handler.cpp", "cpp", Grammar::Cpp, src).nodes;
    let class = nodes
        .iter()
        .find(|n| n.name == "Handler")
        .expect("Handler node");
    let method = nodes
        .iter()
        .find(|n| n.name == "serve")
        .expect("serve node");
    assert_eq!(class.qualified_name, "lib::handler::Handler");
    assert_eq!(method.qualified_name, "lib::handler::Handler::serve");
}

#[test]
fn method_gets_real_containment_from_same_file_receiver() {
    let src = "package server\n\ntype Handler struct{}\n\nfunc (h *Handler) serve() {}\n";
    let (nodes, edges) = go_parts("pkg/server/handler.go", src);

    let handler = nodes
        .iter()
        .find(|n| n.name == "Handler")
        .expect("Handler node");
    let serve = nodes
        .iter()
        .find(|n| n.name == "serve")
        .expect("serve node");

    assert_eq!(handler.qualified_name, "pkg::server::Handler");
    assert_eq!(serve.qualified_name, "pkg::server::Handler::serve");

    assert!(edges.iter().any(|e| e.edge_type == "contains"
        && e.from_id == handler.id
        && e.to_id == serve.id));
    assert!(!edges.iter().any(|e| e.edge_type == "member_of"));
}

#[test]
fn method_falls_back_to_member_of_when_receiver_not_in_file() {
    let src = "package server\n\nfunc (r *Remote) serve() {}\n";
    let (nodes, edges) = go_parts("pkg/server/handler.go", src);

    let serve = nodes
        .iter()
        .find(|n| n.name == "serve")
        .expect("serve node");

    assert!(!edges.iter().any(|e| e.edge_type == "contains"));
    assert!(edges.iter().any(|e| e.edge_type == "member_of"
        && e.from_id == serve.id
        && e.to_name.as_deref() == Some("Remote")));

    assert_eq!(serve.qualified_name, "pkg::server::serve");
}

#[test]
fn go_top_level_function_qualified_name() {
    let src = "package main\n\nfunc Run() {}\n";
    let (nodes, _edges) = go_parts("cmd/app/main.go", src);
    let run = nodes.iter().find(|n| n.name == "Run").expect("Run node");
    assert_eq!(run.qualified_name, "cmd::app::Run");
}

#[test]
fn grouped_type_declaration_populates_all_receivers() {
    let src = "package server\n\ntype (\n\tA struct{}\n\tB struct{}\n)\n\nfunc (a *A) one() {}\nfunc (b *B) two() {}\n";
    let (nodes, edges) = go_parts("pkg/server/handler.go", src);

    let a = nodes.iter().find(|n| n.name == "A").expect("A node");
    let b = nodes.iter().find(|n| n.name == "B").expect("B node");
    let one = nodes.iter().find(|n| n.name == "one").expect("one node");
    let two = nodes.iter().find(|n| n.name == "two").expect("two node");

    assert!(edges
        .iter()
        .any(|e| e.edge_type == "contains" && e.from_id == a.id && e.to_id == one.id));
    assert!(edges
        .iter()
        .any(|e| e.edge_type == "contains" && e.from_id == b.id && e.to_id == two.id));
    assert_eq!(one.qualified_name, "pkg::server::A::one");
    assert_eq!(two.qualified_name, "pkg::server::B::two");
}

#[test]
fn typescript_top_level_function_qualified_name() {
    let src = "function run() {}\n";
    let nodes = typescript_nodes("src/app.ts", src);
    let f = nodes.iter().find(|n| n.name == "run").expect("run node");
    assert_eq!(f.qualified_name, "src::app::run");
}

#[test]
fn typescript_class_method_qualified_name() {
    let src = "class Handler {\n    serve() {}\n}\n";
    let nodes = typescript_nodes("src/server/handler.ts", src);
    let class = nodes
        .iter()
        .find(|n| n.name == "Handler")
        .expect("Handler node");
    let method = nodes
        .iter()
        .find(|n| n.name == "serve")
        .expect("serve node");
    assert_eq!(class.qualified_name, "src::server::handler::Handler");
    assert_eq!(method.qualified_name, "src::server::handler::Handler::serve");
}

#[test]
fn exported_const_object_literal_is_a_definition() {
    let src = r#"
import { validateArgs } from "./parseArgs.js";

export interface Tool {
  name: string;
}

export const searchAndReplaceInFileTool: Tool = {
  name: "Search and Replace",
  preprocess: async (args: unknown) => {
    validateArgs(args);
    return { args };
  },
};
"#;
    let ctx = typescript_ctx("tools/searchAndReplace/index.ts", src);
    let tool = ctx
        .nodes
        .iter()
        .find(|n| n.name == "searchAndReplaceInFileTool")
        .expect("the exported const must be a definition node");
    assert_eq!(tool.node_type, "object");
    assert_eq!(
        tool.qualified_name,
        "tools::searchAndReplace::index::searchAndReplaceInFileTool"
    );
    assert!(matches!(tool.metadata.get("exported"), Some(MetaValue::Flag(true))));

    assert!(
        callees(&ctx).iter().any(|c| c == "validateArgs"),
        "calls inside the object literal are references, got {:?}",
        callees(&ctx)
    );
}

#[test]
fn inner_scope_object_literal_is_not_a_definition() {
    let src = "function run() {\n  const options = { retries: 3 };\n  return options;\n}\n";
    let nodes = typescript_nodes("src/app.ts", src);
    assert!(
        !nodes.iter().any(|n| n.name == "options"),
        "a local object literal is not a definition, got {:?}",
        nodes.iter().map(|n| &n.name).collect::<Vec<_>>()
    );
}

#[test]
fn calls_inside_describe_and_it_callbacks_are_extracted() {
    let src = r#"
import { searchAndReplaceInFileTool } from "./searchAndReplace/index.js";

describe("preprocess", () => {
  it("returns the edited file", async () => {
    const result = await searchAndReplaceInFileTool.preprocess({
      filepath: "a.ts",
    });
    expect(result).toBeDefined();
  });
});
"#;
    let ctx = typescript_ctx("tools/preprocess.test.ts", src);
    let names = callees(&ctx);
    assert!(
        names.iter().any(|c| c == "searchAndReplaceInFileTool.preprocess"),
        "the call through the imported tool must be captured, got {names:?}"
    );
    assert!(names.iter().any(|c| c == "describe"), "got {names:?}");
    assert!(names.iter().any(|c| c == "it"), "got {names:?}");

    let module = ctx
        .nodes
        .iter()
        .find(|n| n.node_type == "module")
        .expect("module-scope node");
    assert_eq!(module.name, "preprocess.test");
    assert!(
        ctx.edges
            .iter()
            .filter(|e| e.edge_type == "calls")
            .all(|e| e.from_id == module.id),
        "every module-scope call hangs off the module node"
    );
}

#[test]
fn a_file_with_no_module_scope_code_gets_no_module_node() {
    let src = "function run() {\n  helper();\n}\n";
    let ctx = typescript_ctx("src/app.ts", src);
    assert!(
        !ctx.nodes.iter().any(|n| n.node_type == "module"),
        "no module-scope call, so no module node"
    );
    let run = ctx.nodes.iter().find(|n| n.name == "run").expect("run node");
    assert!(ctx
        .edges
        .iter()
        .any(|e| e.from_id == run.id && e.to_name.as_deref() == Some("helper")));
}

#[test]
fn module_scope_pass_does_not_double_count() {
    let src = "function run() {\n  helper();\n}\nrun();\n";
    let ctx = typescript_ctx("src/app.ts", src);
    let names = callees(&ctx);
    assert_eq!(
        names.iter().filter(|c| *c == "helper").count(),
        1,
        "got {names:?}"
    );
    assert_eq!(names.iter().filter(|c| *c == "run").count(), 1, "got {names:?}");
}

/// What the definition of a name calls.
fn calls_of(ctx: &ExtractionContext, name: &str) -> Vec<String> {
    let id = &ctx.nodes.iter().find(|n| n.name == name).expect(name).id;
    ctx.edges
        .iter()
        .filter(|e| e.edge_type == "calls" && e.from_id == *id)
        .filter_map(|e| e.to_name.clone())
        .collect()
}

fn all_calls(ctx: &ExtractionContext) -> usize {
    ctx.edges.iter().filter(|e| e.edge_type == "calls").count()
}

#[test]
fn a_nested_function_owns_its_calls() {
    let ctx = typescript_ctx("src/app.ts", "function f() {\n  function g() {\n    h();\n  }\n  g();\n}\n");
    assert_eq!(calls_of(&ctx, "f"), vec!["g"]);
    assert_eq!(calls_of(&ctx, "g"), vec!["h"]);
    assert_eq!(all_calls(&ctx), 2);
}

#[test]
fn a_binding_in_an_exported_function_is_a_definition() {
    let ctx = typescript_ctx("src/app.ts", "export function f() {\n  const g = () => {\n    h();\n  };\n  g();\n}\n");
    assert_eq!(calls_of(&ctx, "f"), vec!["g"]);
    assert_eq!(calls_of(&ctx, "g"), vec!["h"]);
    assert_eq!(all_calls(&ctx), 2);
    assert_eq!(ctx.nodes.len(), 2);
}

#[test]
fn a_call_in_a_default_argument_belongs_to_the_function() {
    let ctx = typescript_ctx("src/app.ts", "function f(a = g()) {\n  h();\n}\n");
    assert_eq!(calls_of(&ctx, "f"), vec!["g", "h"]);
    assert_eq!(all_calls(&ctx), 2);
}

#[test]
fn a_binding_without_a_name_leaves_its_calls_with_the_function() {
    let ctx = typescript_ctx("src/app.ts", "function f() {\n  const { a } = () => {\n    h();\n  };\n}\n");
    assert_eq!(calls_of(&ctx, "f"), vec!["h"]);
    assert_eq!(all_calls(&ctx), 1);
}

#[test]
fn methods_leave_their_calls_with_the_function_around_the_class() {
    let inside = typescript_ctx("src/app.ts", "function f() {\n  class C {\n    m() {\n      h();\n    }\n  }\n}\n");
    assert_eq!(calls_of(&inside, "f"), vec!["h"]);
    let alone = typescript_ctx("src/app.ts", "class C {\n  m() {\n    h();\n  }\n}\n");
    assert_eq!(all_calls(&alone), 0);
}

#[test]
fn a_nested_binding_owns_its_calls_and_the_outer_walk_stops() {
    let src = "function outer() {\n  const inner = () => {\n    helper();\n  };\n  inner();\n}\n";
    let ctx = typescript_ctx("src/app.ts", src);

    let names = callees(&ctx);
    assert_eq!(names.len(), 2, "two source calls, two edges: {names:?}");

    let outer = ctx.nodes.iter().find(|n| n.name == "outer").expect("outer");
    let inner = ctx.nodes.iter().find(|n| n.name == "inner").expect("inner");

    let edge_from = |id: &str| -> Vec<&str> {
        ctx.edges
            .iter()
            .filter(|e| e.edge_type == "calls" && e.from_id == id)
            .filter_map(|e| e.to_name.as_deref())
            .collect()
    };
    assert_eq!(
        edge_from(&outer.id),
        vec!["inner"],
        "the outer function calls the binding, and nothing through it"
    );
    assert_eq!(
        edge_from(&inner.id),
        vec!["helper"],
        "the binding owns the call in its own body"
    );
}

#[test]
fn an_inner_object_literal_leaves_its_calls_with_the_function() {
    let src = "function run() {\n  const options = { retries: backoff() };\n  return options;\n}\n";
    let ctx = typescript_ctx("src/app.ts", src);
    let run = ctx.nodes.iter().find(|n| n.name == "run").expect("run");
    assert!(
        ctx.edges.iter().any(|e| e.from_id == run.id
            && e.to_name.as_deref() == Some("backoff")),
        "got {:?}",
        callees(&ctx)
    );
    assert_eq!(callees(&ctx).len(), 1, "counted once: {:?}", callees(&ctx));
}

fn names_of(nodes: &[CodeNode], node_type: &str) -> Vec<String> {
    nodes.iter().filter(|n| n.node_type == node_type).map(|n| n.name.clone()).collect()
}

#[test]
fn a_rust_file_holds_its_items_in_order() {
    let src = "use std::fmt;\n\n#[derive(Clone, Debug)]\npub struct A {\n    x: u32,\n}\n\npub enum B {\n    C,\n}\n\npub trait T {\n    fn t(&self);\n}\n\nimpl T for A {\n    fn t(&self) {\n        go();\n    }\n}\n\nconst N: u32 = 1;\n";
    let ctx = extracted("src/a.rs", "rust", Grammar::Rust, src);
    assert_eq!(names_of(&ctx.nodes, "struct"), vec!["A"]);
    assert_eq!(names_of(&ctx.nodes, "enum"), vec!["B"]);
    assert_eq!(names_of(&ctx.nodes, "trait"), vec!["T"]);
    assert_eq!(names_of(&ctx.nodes, "impl"), vec!["impl T for A"]);
    assert_eq!(names_of(&ctx.nodes, "import").len(), 1);
    let a = ctx.nodes.iter().find(|n| n.name == "A").unwrap();
    assert_eq!(a.start_line, Some(4));
    assert_eq!(a.end_line, Some(6));
    assert_eq!(a.qualified_name, "a::A");
    let implements: Vec<&CodeEdge> = ctx.edges.iter().filter(|e| e.edge_type == "implements").collect();
    assert_eq!(implements.len(), 1);
    assert_eq!(implements[0].to_name.as_deref(), Some("T"));
    assert_eq!(callees(&ctx), vec!["go"]);
}

#[test]
fn the_fast_tier_reads_no_calls() {
    let src = "fn a() {\n    b();\n}\n";
    let fast = extracted_at("src/a.rs", "rust", Grammar::Rust, src, IndexingTier::Fast);
    assert!(callees(&fast).is_empty());
    let balanced = extracted_at("src/a.rs", "rust", Grammar::Rust, src, IndexingTier::Balanced);
    assert_eq!(callees(&balanced), vec!["b"]);
}

#[test]
fn each_extension_has_its_language() {
    assert_eq!(extension_to_language("rs"), Some("rust"));
    assert_eq!(extension_to_language("tsx"), Some("typescript"));
    assert_eq!(extension_to_language("py"), Some("python"));
    assert_eq!(extension_to_language("go"), Some("go"));
    assert_eq!(extension_to_language("java"), Some("java"));
    assert_eq!(extension_to_language("h"), Some("c"));
    assert_eq!(extension_to_language("hpp"), Some("cpp"));
    assert_eq!(extension_to_language("txt"), None);
}

#[test]
fn a_file_is_parsed_from_its_text() {
    let file = parse_file("rs", "fn f() {}\n", "src/x.rs", "p", IndexingTier::Full).ok().expect("parsed");
    assert_eq!(file.language, "rust");
    assert_eq!(file.nodes.len(), 1);
    assert_eq!(file.nodes[0].qualified_name, "x::f");
    assert_eq!(file.nodes[0].content.as_deref(), Some("fn f() {}"));
    let refused = parse_file("txt", "", "a.txt", "p", IndexingTier::Full).err().expect("refused");
    assert_eq!(refused.message(), "unsupported extension: txt");
    assert!(matches!(refused, ParseError::UnsupportedExtension(_)));
    assert_eq!(ParseError::Language("go".to_string()).message(), "failed to set language: go");
    assert_eq!(ParseError::Text("a.go".to_string()).message(), "tree-sitter parse failed: a.go");
}

#[test]
fn a_tree_keeps_kinds_fields_and_places() {
    let root = syntax_tree("fn f() {}\n", Grammar::Rust).ok().expect("parsed");
    assert_eq!(root.kind, "source_file");
    assert_eq!(root.children.len(), 1);
    let f = &root.children[0];
    assert_eq!(f.kind, "function_item");
    let name = f.children.iter().find(|c| c.field.as_deref() == Some("name")).expect("a name");
    assert_eq!(name.kind, "identifier");
    assert_eq!((name.start_byte, name.end_byte), (3, 4));
}

#[test]
fn an_empty_file_holds_nothing() {
    for (ext, grammar) in [("rs", Grammar::Rust), ("py", Grammar::Python), ("go", Grammar::Go)] {
        assert!(syntax_tree("", grammar).is_ok());
        let file = parse_file(ext, "", "a", "p", IndexingTier::Full).ok().expect("parsed");
        assert!(file.nodes.is_empty() && file.edges.is_empty());
    }
}

#[test]
fn go_aliases_and_interfaces_are_types() {
    let src = "package p\n\ntype Reader interface {\n\tRead() int\n\tClose()\n}\n\ntype Same = Reader\n\ntype Count int\n\nfunc (c Count) Twice() int { return 2 }\n";
    let (nodes, edges) = go_parts("p/p.go", src);
    let reader = nodes.iter().find(|n| n.name == "Reader").expect("Reader node");
    assert_eq!(reader.node_type, "interface");
    assert!(reader.metadata.get("methods").is_none());
    let same = nodes.iter().find(|n| n.name == "Same").expect("Same node");
    assert_eq!(same.node_type, "type_alias");
    let count = nodes.iter().find(|n| n.name == "Count").expect("Count node");
    assert_eq!(count.node_type, "type_alias");
    let twice = nodes.iter().find(|n| n.name == "Twice").expect("Twice node");
    assert!(edges.iter().any(|e| e.edge_type == "contains" && e.from_id == count.id && e.to_id == twice.id));
}
