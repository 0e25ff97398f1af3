//! What the Python extractor finds.

use vstd::prelude::*;

use crate::index::extractors::python::{
    all_nodes, body_calls, class, class_node, definitions, function, is_skipped, node,
};
use crate::index::extractors::trees::{
    adds, at_path, call_edge, every_call_below_is_recorded, grows, has, is_below, is_call_below, is_callable, is_field_text,
    is_first_in, is_holding, is_kind_text, is_path, lemma_adds, lemma_adds_edge, lemma_adds_node, lemma_below,
    lemma_below_in, lemma_below_self, lemma_calls_add, lemma_calls_grow, lemma_first_in, lemma_grows, lemma_has,
    lemma_keeps, lemma_kind_text, lemma_read_name, lemma_type_names, stands_at,
};
use crate::index::extractors::{child_in, either_text, field_place, import_out};
use crate::index::parser::{line, CodeEdgeView, CodeView, Env, Out};
use crate::index::syntax::Shape;
use crate::index::tier::IndexingTier;

verus! {

/// The way into the tree is open: it passes through no function and no import,
/// from a decorated definition into what is decorated, and from a class that
/// has a name into its body.
pub open spec fn is_open(env: Env, s: Shape, path: Seq<int>) -> bool
    decreases path.len(),
{
    path.len() == 0 || {
        &&& 0 <= path[0] < s.children.len()
        &&& s.kind != "function_definition"@
        &&& s.kind != "import_statement"@
        &&& s.kind != "import_from_statement"@
        &&& s.kind == "decorated_definition"@ ==> s.children[path[0]].kind == "function_definition"@
            || s.children[path[0]].kind == "class_definition"@
        &&& s.kind == "class_definition"@ ==> is_first_in(s, "body"@, path[0]) && exists|name: Seq<char>|
            name.len() > 0 && #[trigger] is_kind_text(env, s, "identifier"@, name)
        &&& is_open(env, s.children[path[0]], path.skip(1))
    }
}

/// The name of a node that has one.
pub open spec fn name_of(env: Env, s: Shape) -> Seq<char> {
    choose|name: Seq<char>| is_kind_text(env, s, "identifier"@, name)
}

/// The class that holds what a path leads to: the innermost on the way.
pub open spec fn holder(env: Env, s: Shape, path: Seq<int>, owner: Option<Seq<char>>) -> Option<Seq<char>>
    decreases path.len(),
{
    if path.len() == 0 {
        owner
    } else {
        holder(
            env,
            s.children[path[0]],
            path.skip(1),
            if s.kind == "class_definition"@ {
                Some(env.id(name_of(env, s), "class"@, Some(line(s.start_row))))
            } else {
                owner
            },
        )
    }
}

/// A function is left out that has no name, or one that marks it as private.
pub open spec fn is_public(name: Seq<char>) -> bool {
    name.len() > 0 && (name[0] != '_' || name == "__init__"@)
}

// ---- nothing is lost ------------------------------------------------------------------------

proof fn lemma_function_grows(env: Env, s: Shape, owner: Option<Seq<char>>, out: Out)
    ensures
        grows(out, function(env, s, owner, out)),
{
    let name = either_text(env, s, "identifier"@, "identifier"@);
    if !is_skipped(name) {
        let id = env.id(name, "function"@, Some(line(s.start_row)));
        let here = out.node(
            env,
            name,
            "function"@,
            Some(line(s.start_row)),
            Some(line(s.end_row)),
            Some(crate::index::source::cut(env.text(s), 2000)),
            crate::index::extractors::python::function_meta(env, s),
        ).owned(owner, id, "contains"@);
        assert(grows(out, here));
        if let Some(body) = child_in(s, "body"@) {
            lemma_all_calls_grow(env, body, id);
        }
        assert(function(env, s, owner, out) == body_calls(env, s, id, here));
        assert(grows(here, body_calls(env, s, id, here)));
        lemma_grows(out, here, body_calls(env, s, id, here));
    }
}

proof fn lemma_all_calls_grow(env: Env, body: Shape, id: Seq<char>)
    ensures
        forall|o: Out| grows(o, #[trigger] crate::index::extractors::calls(env, body.children, id, "call"@, true, o)),
{
    assert forall|o: Out| grows(o, #[trigger] crate::index::extractors::calls(env, body.children, id, "call"@, true, o)) by {
        lemma_calls_grow(env, body.children, id, "call"@, true, o);
    }
}

proof fn lemma_class_grows(env: Env, s: Shape, owner: Option<Seq<char>>, out: Out)
    ensures
        grows(out, class(env, s, owner, out)),
    decreases s, 0int,
{
    let name = either_text(env, s, "identifier"@, "identifier"@);
    let k = field_place(s.children, "body"@) as int;
    let here = class_node(env, s, name, owner, out);
    assert(grows(out, here));
    if name.len() > 0 && k < s.children.len() {
        lemma_node_grows(env, s.children[k], Some(env.id(name, "class"@, Some(line(s.start_row)))), here);
    }
}

proof fn lemma_node_grows(env: Env, s: Shape, owner: Option<Seq<char>>, out: Out)
    ensures
        grows(out, node(env, s, owner, out)),
    decreases s, 1int,
{
    lemma_function_grows(env, s, owner, out);
    if s.kind == "decorated_definition"@ {
        lemma_definitions_grow(env, s.children, owner, out);
    } else if s.kind == "class_definition"@ {
        lemma_class_grows(env, s, owner, out);
    } else if s.kind == "import_statement"@ || s.kind == "import_from_statement"@ {
        assert(grows(out, import_out(env, s, out)));
    } else {
        lemma_all_grow(env, s.children, owner, out);
    }
}

proof fn lemma_all_grow(env: Env, kids: Seq<Shape>, owner: Option<Seq<char>>, out: Out)
    ensures
        grows(out, all_nodes(env, kids, owner, out)),
    decreases kids, 0int,
{
    if kids.len() > 0 {
        let before = all_nodes(env, kids.drop_last(), owner, out);
        lemma_all_grow(env, kids.drop_last(), owner, out);
        lemma_node_grows(env, kids.last(), owner, before);
    }
}

proof fn lemma_definitions_grow(env: Env, kids: Seq<Shape>, owner: Option<Seq<char>>, out: Out)
    ensures
        grows(out, definitions(env, kids, owner, out)),
    decreases kids, 0int,
{
    if kids.len() > 0 {
        let before = definitions(env, kids.drop_last(), owner, out);
        lemma_definitions_grow(env, kids.drop_last(), owner, out);
        lemma_function_grows(env, kids.last(), owner, before);
        if kids.last().kind == "class_definition"@ {
            lemma_class_grows(env, kids.last(), owner, before);
        }
    }
}

// ---- what is found --------------------------------------------------------------------------

/// A child among several is reached.
proof fn lemma_one_of_all(env: Env, kids: Seq<Shape>, owner: Option<Seq<char>>, out: Out, i: int) -> (at: Out)
    requires
        0 <= i < kids.len(),
    ensures
        grows(out, at),
        grows(node(env, kids[i], owner, at), all_nodes(env, kids, owner, out)),
    decreases kids.len(),
{
    let rest = kids.drop_last();
    let before = all_nodes(env, rest, owner, out);
    lemma_all_grow(env, rest, owner, out);
    lemma_node_grows(env, kids.last(), owner, before);
    if i < rest.len() {
        assert(rest[i] == kids[i]);
        lemma_one_of_all(env, rest, owner, out, i)
    } else {
        before
    }
}

/// A decorated function or class among several is reached.
proof fn lemma_one_decorated(env: Env, kids: Seq<Shape>, owner: Option<Seq<char>>, out: Out, i: int) -> (at: Out)
    requires
        0 <= i < kids.len(),
        kids[i].kind == "function_definition"@ || kids[i].kind == "class_definition"@,
    ensures
        grows(out, at),
        grows(node(env, kids[i], owner, at), definitions(env, kids, owner, out)),
    decreases kids.len(),
{
    lemma_kinds();
    let rest = kids.drop_last();
    let before = definitions(env, rest, owner, out);
    lemma_definitions_grow(env, rest, owner, out);
    lemma_function_grows(env, kids.last(), owner, before);
    lemma_class_grows(env, kids.last(), owner, before);
    if i < rest.len() {
        assert(rest[i] == kids[i]);
        lemma_one_decorated(env, rest, owner, out, i)
    } else {
        before
    }
}

proof fn lemma_kinds()
    ensures
        "decorated_definition"@ != "function_definition"@,
        "decorated_definition"@ != "class_definition"@,
        "function_definition"@ != "class_definition"@,
        "import_statement"@ != "decorated_definition"@,
        "import_statement"@ != "function_definition"@,
        "import_statement"@ != "class_definition"@,
        "import_from_statement"@ != "decorated_definition"@,
        "import_from_statement"@ != "function_definition"@,
        "import_from_statement"@ != "class_definition"@,
{
    reveal_strlit("decorated_definition");
    reveal_strlit("function_definition");
    reveal_strlit("class_definition");
    reveal_strlit("import_statement");
    reveal_strlit("import_from_statement");
    assert("decorated_definition"@[0] == 'd' && "function_definition"@[0] == 'f' && "class_definition"@[0] == 'c');
    assert("import_statement"@[0] == 'i' && "import_from_statement"@[0] == 'i');
}

/// What an open way leads to is visited, with its holder as its owner.
proof fn lemma_visited(env: Env, s: Shape, owner: Option<Seq<char>>, out: Out, path: Seq<int>) -> (at: Out)
    requires
        is_open(env, s, path),
    ensures
        grows(out, at),
        grows(node(env, at_path(s, path), holder(env, s, path, owner), at), node(env, s, owner, out)),
    decreases path.len(),
{
    lemma_kinds();
    if path.len() == 0 {
        out
    } else {
        let i = path[0];
        let child = s.children[i];
        let rest = path.skip(1);
        if s.kind == "decorated_definition"@ {
            let here = lemma_one_decorated(env, s.children, owner, out, i);
            let at = lemma_visited(env, child, owner, here, rest);
            lemma_grows(out, here, at);
            lemma_grows(
                node(env, at_path(s, path), holder(env, s, path, owner), at),
                node(env, child, owner, here),
                node(env, s, owner, out),
            );
            at
        } else if s.kind == "class_definition"@ {
            let name = choose|name: Seq<char>| name.len() > 0 && #[trigger] is_kind_text(env, s, "identifier"@, name);
            lemma_kind_text(env, s, "identifier"@, name);
            lemma_name(env, s, name);
            lemma_first_in(s, "body"@, i);
            let here = class_node(env, s, name, owner, out);
            assert(grows(out, here));
            let at = lemma_visited(env, child, Some(env.id(name, "class"@, Some(line(s.start_row)))), here, rest);
            lemma_grows(out, here, at);
            at
        } else {
            let here = lemma_one_of_all(env, s.children, owner, out, i);
            let at = lemma_visited(env, child, owner, here, rest);
            lemma_grows(out, here, at);
            lemma_grows(
                node(env, at_path(s, path), holder(env, s, path, owner), at),
                node(env, child, owner, here),
                node(env, s, owner, out),
            );
            at
        }
    }
}

/// A node has one name.
proof fn lemma_name(env: Env, s: Shape, name: Seq<char>)
    requires
        is_kind_text(env, s, "identifier"@, name),
    ensures
        name_of(env, s) == name,
{
    lemma_kind_text(env, s, "identifier"@, name);
    lemma_kind_text(env, s, "identifier"@, name_of(env, s));
}

/// Every function that stands on an open way, and has a name that is not
/// private, is found: also where it is decorated, and as a method of the class
/// that it stands in.
pub proof fn every_function_is_found(
    env: Env,
    root: Shape,
    owner: Option<Seq<char>>,
    out: Out,
    path: Seq<int>,
    name: Seq<char>,
)
    requires
        is_open(env, root, path),
        at_path(root, path).kind == "function_definition"@,
        is_kind_text(env, at_path(root, path), "identifier"@, name),
        is_public(name),
    ensures
        has(node(env, root, owner, out), env, at_path(root, path), name, "function"@, Some(at_path(root, path).end_row), holder(
            env,
            root,
            path,
            owner,
        )),
{
    let s = at_path(root, path);
    let own = holder(env, root, path, owner);
    lemma_kinds();
    let at = lemma_visited(env, root, owner, out, path);
    lemma_kind_text(env, s, "identifier"@, name);
    lemma_public(name);
    let id = env.id(name, "function"@, Some(line(s.start_row)));
    let mid = at.node(
        env,
        name,
        "function"@,
        Some(line(s.start_row)),
        Some(line(s.end_row)),
        Some(crate::index::source::cut(env.text(s), 2000)),
        crate::index::extractors::python::function_meta(env, s),
    );
    let here = mid.owned(own, id, "contains"@);
    let n = mid.nodes[at.nodes.len() as int];
    assert(here.nodes.contains(n));
    if own is Some {
        assert(here.edges[at.edges.len() as int].to_id == id);
        assert(here.edges.contains(here.edges[at.edges.len() as int]));
    }
    lemma_type_names();
    assert(has(here, env, s, name, "function"@, Some(s.end_row), own));
    if let Some(body) = child_in(s, "body"@) {
        lemma_all_calls_grow(env, body, id);
    }
    assert(function(env, s, own, at) == body_calls(env, s, id, here));
    lemma_has(here, node(env, s, own, at), env, s, name, "function"@, Some(s.end_row), own);
    lemma_has(node(env, s, own, at), node(env, root, owner, out), env, s, name, "function"@, Some(s.end_row), own);
}

proof fn lemma_public(name: Seq<char>)
    ensures
        is_skipped(name) <==> !is_public(name),
{
    reveal_strlit("_");
    if name.len() > 0 {
        assert(name.subrange(0, 1) =~= "_"@ <==> name[0] == '_') by {
            assert(name.subrange(0, 1)[0] == name[0]);
            if name[0] == '_' {
                assert(name.subrange(0, 1) =~= "_"@);
            }
        }
    }
}

/// A private function, or one without a name, leaves nothing.
pub proof fn no_private_function_is_found(env: Env, s: Shape, owner: Option<Seq<char>>, out: Out, name: Seq<char>)
    requires
        s.kind == "function_definition"@,
        is_kind_text(env, s, "identifier"@, name),
        !is_public(name),
    ensures
        node(env, s, owner, out) == out,
{
    lemma_kinds();
    lemma_kind_text(env, s, "identifier"@, name);
    lemma_public(name);
}

/// Every class that stands on an open way and has a name is found.
pub proof fn every_class_is_found(
    env: Env,
    root: Shape,
    owner: Option<Seq<char>>,
    out: Out,
    path: Seq<int>,
    name: Seq<char>,
)
    requires
        is_open(env, root, path),
        at_path(root, path).kind == "class_definition"@,
        is_kind_text(env, at_path(root, path), "identifier"@, name),
        name.len() > 0,
    ensures
        has(node(env, root, owner, out), env, at_path(root, path), name, "class"@, Some(at_path(root, path).end_row), holder(
            env,
            root,
            path,
            owner,
        )),
{
    let s = at_path(root, path);
    let own = holder(env, root, path, owner);
    lemma_kinds();
    let at = lemma_visited(env, root, owner, out, path);
    lemma_kind_text(env, s, "identifier"@, name);
    let here = class_node(env, s, name, own, at);
    let n = here.nodes[at.nodes.len() as int];
    assert(here.nodes.contains(n));
    if own is Some {
        assert(here.edges.contains(here.edges[at.edges.len() as int]));
    }
    lemma_type_names();
    assert(has(here, env, s, name, "class"@, Some(s.end_row), own));
    let k = field_place(s.children, "body"@) as int;
    if k < s.children.len() {
        lemma_node_grows(env, s.children[k], Some(env.id(name, "class"@, Some(line(s.start_row)))), here);
    }
    lemma_has(here, node(env, s, own, at), env, s, name, "class"@, Some(s.end_row), own);
    lemma_has(node(env, s, own, at), node(env, root, owner, out), env, s, name, "class"@, Some(s.end_row), own);
}

/// Every import that stands on an open way is found, under its own text.
pub proof fn every_import_is_found(env: Env, root: Shape, owner: Option<Seq<char>>, out: Out, path: Seq<int>)
    requires
        is_open(env, root, path),
        at_path(root, path).kind == "import_statement"@ || at_path(root, path).kind == "import_from_statement"@,
    ensures
        has(node(env, root, owner, out), env, at_path(root, path), env.text(at_path(root, path)), "import"@, None, None),
{
    lemma_type_names();
    let s = at_path(root, path);
    let own = holder(env, root, path, owner);
    lemma_kinds();
    let at = lemma_visited(env, root, owner, out, path);
    let here = import_out(env, s, at);
    let n = here.nodes[at.nodes.len() as int];
    assert(here.nodes.contains(n));
    assert(has(here, env, s, env.text(s), "import"@, None, None));
    lemma_has(here, node(env, root, owner, out), env, s, env.text(s), "import"@, None, None);
}

/// Every call in the body of a function that is found leaves an edge from the
/// function to what it calls, unless the index is made fast.
pub proof fn every_call_of_a_function_is_found(
    env: Env,
    root: Shape,
    owner: Option<Seq<char>>,
    out: Out,
    path: Seq<int>,
    name: Seq<char>,
    body: int,
    i: int,
    way: Seq<int>,
    callee: Seq<char>,
)
    requires
        env.tier != IndexingTier::Fast,
        is_open(env, root, path),
        at_path(root, path).kind == "function_definition"@,
        is_kind_text(env, at_path(root, path), "identifier"@, name),
        is_public(name),
        is_first_in(at_path(root, path), "body"@, body),
        0 <= i < at_path(root, path).children[body].children.len(),
        is_path(at_path(root, path).children[body].children[i], way),
        at_path(at_path(root, path).children[body].children[i], way).kind == "call"@,
        is_field_text(env, at_path(at_path(root, path).children[body].children[i], way), "function"@, callee),
        is_callable(callee, true),
    ensures
        node(env, root, owner, out).edges.contains(
            call_edge(env.id(name, "function"@, Some(line(at_path(root, path).start_row))), callee),
        ),
{
    let s = at_path(root, path);
    let own = holder(env, root, path, owner);
    lemma_kinds();
    let at = lemma_visited(env, root, owner, out, path);
    lemma_kind_text(env, s, "identifier"@, name);
    lemma_public(name);
    lemma_first_in(s, "body"@, body);
    let id = env.id(name, "function"@, Some(line(s.start_row)));
    let here = at.node(
        env,
        name,
        "function"@,
        Some(line(s.start_row)),
        Some(line(s.end_row)),
        Some(crate::index::source::cut(env.text(s), 2000)),
        crate::index::extractors::python::function_meta(env, s),
    ).owned(own, id, "contains"@);
    every_call_below_is_recorded(env, s.children[body].children, id, "call"@, true, here, i, way, callee);
    lemma_keeps(node(env, s, own, at), node(env, root, owner, out));
}

// ---- nothing else is found ------------------------------------------------------------------

/// The node of a public function, of a class that has a name, or of an import.
pub open spec fn is_made(n: CodeView, env: Env, t: Shape) -> bool {
    ||| t.kind == "function_definition"@ && stands_at(n, env, t, "function"@) && is_kind_text(
        env,
        t,
        "identifier"@,
        n.name,
    ) && is_public(n.name)
    ||| t.kind == "class_definition"@ && stands_at(n, env, t, "class"@) && is_kind_text(env, t, "identifier"@, n.name)
        && n.name.len() > 0
    ||| (t.kind == "import_statement"@ || t.kind == "import_from_statement"@) && stands_at(n, env, t, "import"@)
        && n.name == env.text(t)
}

/// An edge to a definition from its holder, or from a function to what is
/// called in it.
pub open spec fn is_tied(e: CodeEdgeView, env: Env, t: Shape) -> bool {
    exists|n: CodeView| #[trigger]
        is_made(n, env, t) && {
            ||| is_holding(e, n.id)
            ||| env.tier != IndexingTier::Fast && n.node_type == "function"@ && is_call_below(
                e,
                env,
                t,
                n.id,
                "call"@,
                true,
            )
        }
}

pub open spec fn made_fn(env: Env) -> spec_fn(CodeView, Shape) -> bool {
    |n: CodeView, t: Shape| is_made(n, env, t)
}

pub open spec fn tied_fn(env: Env) -> spec_fn(CodeEdgeView, Shape) -> bool {
    |e: CodeEdgeView, t: Shape| is_tied(e, env, t)
}

proof fn lemma_function_adds(env: Env, root: Shape, s: Shape, owner: Option<Seq<char>>, out: Out)
    requires
        is_below(s, root),
        s.kind == "function_definition"@,
    ensures
        adds(out, function(env, s, owner, out), root, made_fn(env), tied_fn(env)),
{
    let name = either_text(env, s, "identifier"@, "identifier"@);
    lemma_public(name);
    if is_public(name) {
        lemma_read_name(env, s, "identifier"@);
        let id = env.id(name, "function"@, Some(line(s.start_row)));
        let mid = out.node(
            env,
            name,
            "function"@,
            Some(line(s.start_row)),
            Some(line(s.end_row)),
            Some(crate::index::source::cut(env.text(s), 2000)),
            crate::index::extractors::python::function_meta(env, s),
        );
        let here = mid.owned(owner, id, "contains"@);
        let n = mid.nodes.last();
        assert(mid.nodes.drop_last() =~= out.nodes);
        assert(is_made(n, env, s));
        lemma_adds_node(out, mid, s, root, made_fn(env), tied_fn(env));
        if owner is Some {
            assert(here.edges.drop_last() =~= mid.edges);
            assert(is_tied(here.edges.last(), env, s));
        }
        lemma_adds_edge(mid, here, s, root, made_fn(env), tied_fn(env));
        lemma_adds(out, mid, here, root, made_fn(env), tied_fn(env));
        let after = body_calls(env, s, id, here);
        if env.tier != IndexingTier::Fast {
            if let Some(body) = child_in(s, "body"@) {
                lemma_below_self(s);
                lemma_below_in(s, s, "body"@);
                lemma_below(s, body);
                assert forall|e: CodeEdgeView| #[trigger] is_call_below(e, env, s, id, "call"@, true) implies tied_fn(
                    env,
                )(e, s) by {
                    assert(is_made(n, env, s));
                }
                lemma_calls_add(env, s, body.children, id, "call"@, true, here, root, made_fn(env), tied_fn(env));
                lemma_adds(out, here, after, root, made_fn(env), tied_fn(env));
            }
        }
    }
}

proof fn lemma_class_adds(env: Env, root: Shape, s: Shape, owner: Option<Seq<char>>, out: Out)
    requires
        is_below(s, root),
        s.kind == "class_definition"@,
    ensures
        adds(out, class(env, s, owner, out), root, made_fn(env), tied_fn(env)),
    decreases s, 0int,
{
    let name = either_text(env, s, "identifier"@, "identifier"@);
    let k = field_place(s.children, "body"@) as int;
    if name.len() > 0 {
        lemma_read_name(env, s, "identifier"@);
        let start = Some(line(s.start_row));
        let here = class_node(env, s, name, owner, out);
        let mid = Out { nodes: here.nodes, edges: out.edges };
        assert(mid.nodes.drop_last() =~= out.nodes);
        assert(is_made(mid.nodes.last(), env, s));
        lemma_adds_node(out, mid, s, root, made_fn(env), tied_fn(env));
        if owner is Some {
            assert(here.edges.drop_last() =~= mid.edges);
            assert(is_tied(here.edges.last(), env, s));
        }
        lemma_adds_edge(mid, here, s, root, made_fn(env), tied_fn(env));
        lemma_adds(out, mid, here, root, made_fn(env), tied_fn(env));
        if k < s.children.len() {
            lemma_below(root, s);
            let own = Some(env.id(name, "class"@, start));
            lemma_node_adds(env, root, s.children[k], own, here);
            lemma_adds(out, here, node(env, s.children[k], own, here), root, made_fn(env), tied_fn(env));
        }
    }
}

proof fn lemma_node_adds(env: Env, root: Shape, s: Shape, owner: Option<Seq<char>>, out: Out)
    requires
        is_below(s, root),
    ensures
        adds(out, node(env, s, owner, out), root, made_fn(env), tied_fn(env)),
    decreases s, 1int,
{
    lemma_kinds();
    lemma_below(root, s);
    if s.kind == "decorated_definition"@ {
        lemma_definitions_add(env, root, s.children, owner, out);
    } else if s.kind == "function_definition"@ {
        lemma_function_adds(env, root, s, owner, out);
    } else if s.kind == "class_definition"@ {
        lemma_class_adds(env, root, s, owner, out);
    } else if s.kind == "import_statement"@ || s.kind == "import_from_statement"@ {
        let here = import_out(env, s, out);
        assert(here.nodes.drop_last() =~= out.nodes);
        assert(is_made(here.nodes.last(), env, s));
        lemma_adds_node(out, here, s, root, made_fn(env), tied_fn(env));
    } else {
        lemma_all_add(env, root, s.children, owner, out);
    }
}

proof fn lemma_all_add(env: Env, root: Shape, kids: Seq<Shape>, owner: Option<Seq<char>>, out: Out)
    requires
        forall|i: int| 0 <= i < kids.len() ==> is_below(#[trigger] kids[i], root),
    ensures
        adds(out, all_nodes(env, kids, owner, out), root, made_fn(env), tied_fn(env)),
    decreases kids, 0int,
{
    if kids.len() > 0 {
        let rest = kids.drop_last();
        let before = all_nodes(env, rest, owner, out);
        assert forall|i: int| 0 <= i < rest.len() implies is_below(#[trigger] rest[i], root) by {
            assert(rest[i] == kids[i]);
        }
        assert(is_below(kids[kids.len() - 1], root));
        lemma_all_add(env, root, rest, owner, out);
        lemma_node_adds(env, root, kids.last(), owner, before);
        lemma_adds(out, before, node(env, kids.last(), owner, before), root, made_fn(env), tied_fn(env));
    }
}

proof fn lemma_definitions_add(env: Env, root: Shape, kids: Seq<Shape>, owner: Option<Seq<char>>, out: Out)
    requires
        forall|i: int| 0 <= i < kids.len() ==> is_below(#[trigger] kids[i], root),
    ensures
        adds(out, definitions(env, kids, owner, out), root, made_fn(env), tied_fn(env)),
    decreases kids, 0int,
{
    if kids.len() > 0 {
        let rest = kids.drop_last();
        let before = definitions(env, rest, owner, out);
        assert forall|i: int| 0 <= i < rest.len() implies is_below(#[trigger] rest[i], root) by {
            assert(rest[i] == kids[i]);
        }
        let last = kids[kids.len() - 1];
        assert(is_below(last, root));
        lemma_definitions_add(env, root, rest, owner, out);
        if last.kind == "function_definition"@ {
            lemma_function_adds(env, root, last, owner, before);
            lemma_adds(out, before, function(env, last, owner, before), root, made_fn(env), tied_fn(env));
        } else if last.kind == "class_definition"@ {
            lemma_class_adds(env, root, last, owner, before);
            lemma_adds(out, before, class(env, last, owner, before), root, made_fn(env), tied_fn(env));
        }
    }
}

/// Nothing is found but public functions, classes that have a name and
/// imports, each where it stands in the tree, and nothing is tied but
/// definitions to what holds them and functions to what is called in them.
pub proof fn nothing_else_is_found(env: Env, root: Shape, owner: Option<Seq<char>>, out: Out)
    ensures
        adds(out, node(env, root, owner, out), root, made_fn(env), tied_fn(env)),
{
    lemma_below_self(root);
    lemma_node_adds(env, root, root, owner, out);
}

} // verus!
