//! What reading a source file gives.

use vstd::prelude::*;

use crate::index::extractors::{c_cpp_found, go, java, python, rust, typescript};
use crate::index::parser::{extracted, file_view, Env, Out};
use crate::index::qualified_name::{module_parts, qualified};
use crate::index::syntax::Shape;
use crate::text::joined;

verus! {

/// Nothing collected yet.
pub open spec fn nothing() -> Out {
    Out { nodes: Seq::empty(), edges: Seq::empty() }
}

/// Each language is read by its own extractor: C and C++ share one, and so do
/// TypeScript and JavaScript. Nothing is read of another language.
pub proof fn each_language_has_its_extractor(env: Env, root: Shape)
    ensures
        env.language == "rust"@ ==> extracted(env, root) == rust::items(env, root.children, None, nothing()),
        env.language == "typescript"@ || env.language == "javascript"@ ==> extracted(env, root) == typescript::file(
            env,
            root,
            nothing(),
        ),
        env.language == "python"@ ==> extracted(env, root) == python::node(env, root, None, nothing()),
        env.language == "go"@ ==> extracted(env, root) == go::file(env, root, nothing()),
        env.language == "java"@ ==> extracted(env, root) == java::node(env, root, None, nothing()),
        env.language == "c"@ || env.language == "cpp"@ ==> extracted(env, root) == c_cpp_found::file(env, root, nothing()),
{
    reveal_strlit("rust");
    reveal_strlit("typescript");
    reveal_strlit("javascript");
    reveal_strlit("python");
    reveal_strlit("go");
    reveal_strlit("java");
    reveal_strlit("c");
    reveal_strlit("cpp");
    assert("rust"@.len() == 4 && "rust"@[0] == 'r' && "typescript"@.len() == 10 && "javascript"@.len() == 10);
    assert("python"@.len() == 6 && "go"@.len() == 2 && "java"@.len() == 4 && "java"@[0] == 'j');
    assert("c"@.len() == 1 && "cpp"@.len() == 3);
}

/// A file has every node and every edge that was extracted, in their order; only
/// the qualified names are new.
pub proof fn a_file_has_what_was_extracted(env: Env, root: Shape, i: int)
    ensures
        ({
            let file = file_view(env, root);
            let out = extracted(env, root);
            &&& file.language == env.language
            &&& file.edges == out.edges
            &&& file.nodes.len() == out.nodes.len()
            &&& 0 <= i < out.nodes.len() ==> {
                &&& file.nodes[i].id == out.nodes[i].id
                &&& file.nodes[i].name == out.nodes[i].name
                &&& file.nodes[i].node_type == out.nodes[i].node_type
                &&& file.nodes[i].language == out.nodes[i].language
                &&& file.nodes[i].start_line == out.nodes[i].start_line
                &&& file.nodes[i].end_line == out.nodes[i].end_line
                &&& file.nodes[i].content == out.nodes[i].content
                &&& file.nodes[i].metadata == out.nodes[i].metadata
                &&& file.nodes[i].qualified_name == qualified(
                    out.nodes,
                    out.edges,
                    joined(module_parts(env.file, env.language), "::"@),
                )[i].qualified_name
            }
        }),
{
}

} // verus!
