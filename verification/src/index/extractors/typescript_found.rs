//! What the extractor for TypeScript and JavaScript finds.

use vstd::prelude::*;

use crate::index::extractors::trees::{
    adds, at_path, call_edge, grows, has, has_none_of, is_below, is_callable, is_field_text, is_first_in, is_holding,
    is_kind_text, is_path, lemma_added, lemma_adds, lemma_adds_edge, lemma_adds_node, lemma_below, lemma_below_in,
    lemma_below_self, lemma_field_text, lemma_first_in, lemma_grows, lemma_has, lemma_keeps, lemma_kind_text,
    lemma_new, lemma_other_text, lemma_type_names, stands_at,
};
use crate::index::extractors::typescript::{
    alias_out, all_nodes, at_root, base_name, below, binding, binding_at, binding_name, bindings,
    call_each, callee_at, calls, class_out, file, function, function_name, interface_out,
    is_module_level, kin, made_at, method, methods, node, owns_calls, scope_callees, scope_out,
    title, Above, Kin,
};
use crate::index::extractors::{call_at, child_in, either_text, field_text, import_out, kids_in};
use crate::index::parser::{line, with_flag, CodeEdgeView, CodeView, Env, Meta, Out};
use crate::index::source::cut;
use crate::index::syntax::Shape;
use crate::index::tier::IndexingTier;
use crate::text::{begins_with, end_of_last, has_part, stem};

verus! {

// ---- ancestors ------------------------------------------------------------------------------

/// The ancestors of what a path leads to.
pub open spec fn above(s: Shape, path: Seq<int>, up: Above) -> Above
    decreases path.len(),
{
    if path.len() == 0 {
        up
    } else {
        above(s.children[path[0]], path.skip(1), below(up, s.kind))
    }
}

/// What a path leads to stands right under the program, or in an export right
/// under it.
pub open spec fn is_on_top(root: Shape, path: Seq<int>) -> bool {
    ||| path.len() >= 1 && at_path(root, path.drop_last()).kind == "program"@
    ||| path.len() >= 2 && at_path(root, path.drop_last()).kind == "export_statement"@ && at_path(
        root,
        path.drop_last().drop_last(),
    ).kind == "program"@
}

proof fn lemma_above(s: Shape, path: Seq<int>, up: Above)
    ensures
        path.len() >= 1 ==> above(s, path, up).first == kin(at_path(s, path.drop_last()).kind),
        path.len() >= 2 ==> above(s, path, up).second == kin(at_path(s, path.drop_last().drop_last()).kind),
        path.len() == 1 ==> above(s, path, up).second == up.first,
        path.len() == 0 ==> above(s, path, up) == up,
    decreases path.len(),
{
    if path.len() > 0 {
        let rest = path.skip(1);
        let child = s.children[path[0]];
        lemma_above(child, rest, below(up, s.kind));
        if path.len() > 1 {
            assert(path.drop_last().skip(1) =~= rest.drop_last());
            assert(path.drop_last()[0] == path[0]);
            if path.len() > 2 {
                assert(path.drop_last().drop_last().skip(1) =~= rest.drop_last().drop_last());
                assert(path.drop_last().drop_last()[0] == path[0]);
            }
        }
    }
}

proof fn lemma_on_top(root: Shape, path: Seq<int>)
    ensures
        is_on_top(root, path) <==> ({
            let up = above(root, path, at_root());
            is_module_level(up.first, up.second)
        }),
{
    reveal_strlit("program");
    reveal_strlit("export_statement");
    assert("program"@[0] == 'p' && "export_statement"@[0] == 'e');
    reveal_strlit("lexical_declaration");
    reveal_strlit("variable_declaration");
    assert("lexical_declaration"@[0] == 'l' && "variable_declaration"@[0] == 'v');
    lemma_above(root, path, at_root());
}

// ---- nothing is lost ------------------------------------------------------------------------

proof fn lemma_calls_grow(env: Env, kids: Seq<Shape>, up: Above, caller: Seq<char>, out: Out)
    ensures
        grows(out, calls(env, kids, up, caller, out)),
    decreases kids,
{
    if kids.len() > 0 {
        let had = calls(env, kids.drop_last(), up, caller, out);
        let s = kids.last();
        lemma_calls_grow(env, kids.drop_last(), up, caller, out);
        if !owns_calls(env, s, up) {
            let here = call_at(env, s, caller, "call_expression"@, true, had);
            assert(grows(had, here));
            lemma_calls_grow(env, s.children, below(up, s.kind), caller, here);
            lemma_grows(out, had, here);
            lemma_grows(out, here, calls(env, kids, up, caller, out));
        }
    }
}

spec fn function_node(env: Env, s: Shape, out: Out) -> Out {
    let t = env.text(s);
    let m = with_flag(Meta::empty(), "async"@, has_part(t, "async "@));
    let m = with_flag(m, "exported"@, begins_with(t, "export "@));
    out.node(
        env,
        function_name(env, s),
        "function"@,
        Some(line(s.start_row)),
        Some(line(s.end_row)),
        Some(cut(t, 2000)),
        m,
    )
}

proof fn lemma_function(env: Env, s: Shape, up: Above, out: Out)
    ensures
        grows(out, function(env, s, up, out)),
        function_name(env, s).len() > 0 ==> has(
            function(env, s, up, out),
            env,
            s,
            function_name(env, s),
            "function"@,
            Some(s.end_row),
            None,
        ),
{
    lemma_type_names();
    let name = function_name(env, s);
    if name.len() > 0 {
        let here = function_node(env, s, out);
        assert(here.nodes.drop_last() =~= out.nodes);
        lemma_added(out, here, env, s, name, "function"@, Some(s.end_row));
        let after = function(env, s, up, out);
        lemma_calls_grow(
            env,
            s.children,
            below(up, s.kind),
            env.id(name, "function"@, Some(line(s.start_row))),
            here,
        );
        assert(grows(here, after));
        lemma_grows(out, here, after);
        lemma_has(here, after, env, s, name, "function"@, Some(s.end_row), None);
    }
}

proof fn lemma_method(env: Env, s: Shape, owner: Seq<char>, out: Out)
    ensures
        grows(out, method(env, s, owner, out)),
        either_text(env, s, "property_identifier"@, "identifier"@).len() > 0 ==> has(
            method(env, s, owner, out),
            env,
            s,
            either_text(env, s, "property_identifier"@, "identifier"@),
            "function"@,
            Some(s.end_row),
            Some(owner),
        ),
{
    lemma_type_names();
    let name = either_text(env, s, "property_identifier"@, "identifier"@);
    if name.len() > 0 {
        lemma_new(
            out,
            env,
            s,
            name,
            "function"@,
            Some(line(s.start_row)),
            Some(line(s.end_row)),
            Some(cut(env.text(s), 2000)),
            Meta::empty(),
            Some(owner),
            Some(s.end_row),
        );
    }
}

proof fn lemma_methods(env: Env, kids: Seq<Shape>, owner: Seq<char>, out: Out)
    ensures
        grows(out, methods(env, kids, owner, out)),
    decreases kids.len(),
{
    if kids.len() > 0 {
        let had = methods(env, kids.drop_last(), owner, out);
        lemma_methods(env, kids.drop_last(), owner, out);
        lemma_method(env, kids.last(), owner, had);
        lemma_grows(out, had, method(env, kids.last(), owner, had));
    }
}

proof fn lemma_one_method(env: Env, kids: Seq<Shape>, owner: Seq<char>, out: Out, i: int) -> (at: Out)
    requires
        0 <= i < kids.len(),
        kids[i].kind == "method_definition"@ || kids[i].kind == "public_field_definition"@,
    ensures
        grows(method(env, kids[i], owner, at), methods(env, kids, owner, out)),
    decreases kids.len(),
{
    let rest = kids.drop_last();
    let had = methods(env, rest, owner, out);
    lemma_method(env, kids.last(), owner, had);
    if i < rest.len() {
        assert(rest[i] == kids[i]);
        let at = lemma_one_method(env, rest, owner, out, i);
        lemma_grows(method(env, kids[i], owner, at), had, methods(env, kids, owner, out));
        at
    } else {
        had
    }
}

spec fn class_node(env: Env, s: Shape, out: Out) -> Out {
    out.node(
        env,
        title(env, s),
        "class"@,
        Some(line(s.start_row)),
        Some(line(s.end_row)),
        None,
        with_flag(Meta::empty(), "exported"@, begins_with(env.text(s), "export "@)),
    )
}

proof fn lemma_titled(env: Env, s: Shape, out: Out)
    ensures
        grows(out, class_out(env, s, out)),
        grows(out, interface_out(env, s, out)),
        grows(out, alias_out(env, s, out)),
        title(env, s).len() > 0 ==> {
            &&& has(class_out(env, s, out), env, s, title(env, s), "class"@, Some(s.end_row), None)
            &&& has(interface_out(env, s, out), env, s, title(env, s), "interface"@, Some(s.end_row), None)
            &&& has(alias_out(env, s, out), env, s, title(env, s), "type_alias"@, None, None)
        },
{
    lemma_type_names();
    let name = title(env, s);
    if name.len() > 0 {
        let a = interface_out(env, s, out);
        assert(a.nodes.drop_last() =~= out.nodes);
        lemma_added(out, a, env, s, name, "interface"@, Some(s.end_row));
        let b = alias_out(env, s, out);
        assert(b.nodes.drop_last() =~= out.nodes);
        lemma_added(out, b, env, s, name, "type_alias"@, None);
        let c = class_node(env, s, out);
        assert(c.nodes.drop_last() =~= out.nodes);
        lemma_added(out, c, env, s, name, "class"@, Some(s.end_row));
        let after = class_out(env, s, out);
        lemma_methods(env, kids_in(s, "body"@), env.id(name, "class"@, Some(line(s.start_row))), c);
        lemma_grows(out, c, after);
        lemma_has(c, after, env, s, name, "class"@, Some(s.end_row), None);
    }
}

proof fn lemma_import(env: Env, s: Shape, out: Out)
    ensures
        grows(out, import_out(env, s, out)),
        has(import_out(env, s, out), env, s, env.text(s), "import"@, None, None),
{
    lemma_type_names();
    let a = import_out(env, s, out);
    assert(a.nodes.drop_last() =~= out.nodes);
    lemma_added(out, a, env, s, env.text(s), "import"@, None);
}

spec fn binding_node(env: Env, decl: Shape, up: Above, value: Shape, name: Seq<char>, node_type: Seq<char>, out: Out) -> Out {
    out.node(
        env,
        name,
        node_type,
        Some(line(decl.start_row)),
        Some(line(value.end_row)),
        Some(cut(env.text(decl), 2000)),
        with_flag(Meta::empty(), "exported"@, up.first == Kin::Export),
    )
}

proof fn lemma_binding(
    env: Env,
    decl: Shape,
    up: Above,
    s: Shape,
    value: Shape,
    name: Seq<char>,
    node_type: Seq<char>,
    out: Out,
)
    requires
        node_type == "function"@ || node_type == "object"@,
    ensures
        grows(out, binding(env, decl, up, s, value, name, node_type, out)),
        has(binding(env, decl, up, s, value, name, node_type, out), env, decl, name, node_type, Some(value.end_row), None),
{
    lemma_type_names();
    let here = binding_node(env, decl, up, value, name, node_type, out);
    assert(here.nodes.drop_last() =~= out.nodes);
    lemma_added(out, here, env, decl, name, node_type, Some(value.end_row));
    let after = binding(env, decl, up, s, value, name, node_type, out);
    lemma_calls_grow(
        env,
        s.children,
        below(below(up, decl.kind), s.kind),
        env.id(name, node_type, Some(line(decl.start_row))),
        here,
    );
    assert(grows(here, after));
    lemma_grows(out, here, after);
    lemma_has(here, after, env, decl, name, node_type, Some(value.end_row), None);
}

proof fn lemma_binding_at(env: Env, decl: Shape, up: Above, s: Shape, out: Out)
    ensures
        grows(out, binding_at(env, decl, up, s, out)),
{
    if let Some(value) = child_in(s, "value"@) {
        lemma_binding(env, decl, up, s, value, binding_name(env, s), "function"@, out);
        lemma_binding(env, decl, up, s, value, binding_name(env, s), "object"@, out);
    }
}

proof fn lemma_bindings(env: Env, decl: Shape, up: Above, kids: Seq<Shape>, out: Out)
    ensures
        grows(out, bindings(env, decl, up, kids, out)),
    decreases kids.len(),
{
    if kids.len() > 0 {
        let had = bindings(env, decl, up, kids.drop_last(), out);
        lemma_bindings(env, decl, up, kids.drop_last(), out);
        lemma_binding_at(env, decl, up, kids.last(), had);
        lemma_grows(out, had, bindings(env, decl, up, kids, out));
    }
}

proof fn lemma_one_binding(env: Env, decl: Shape, up: Above, kids: Seq<Shape>, out: Out, i: int) -> (at: Out)
    requires
        0 <= i < kids.len(),
    ensures
        grows(binding_at(env, decl, up, kids[i], at), bindings(env, decl, up, kids, out)),
    decreases kids.len(),
{
    let rest = kids.drop_last();
    let had = bindings(env, decl, up, rest, out);
    lemma_binding_at(env, decl, up, kids.last(), had);
    if i < rest.len() {
        assert(rest[i] == kids[i]);
        let at = lemma_one_binding(env, decl, up, rest, out, i);
        lemma_grows(binding_at(env, decl, up, kids[i], at), had, bindings(env, decl, up, kids, out));
        at
    } else {
        had
    }
}

proof fn lemma_made_grows(env: Env, s: Shape, up: Above, out: Out)
    ensures
        grows(out, made_at(env, s, up, out)),
{
    lemma_function(env, s, up, out);
    lemma_titled(env, s, out);
    lemma_import(env, s, out);
    lemma_bindings(env, s, up, s.children, out);
}

proof fn lemma_node_grows(env: Env, s: Shape, up: Above, out: Out)
    ensures
        grows(out, node(env, s, up, out)),
    decreases s, 1int,
{
    let here = made_at(env, s, up, out);
    lemma_made_grows(env, s, up, out);
    lemma_all_grow(env, s.children, below(up, s.kind), here);
    lemma_grows(out, here, node(env, s, up, out));
}

proof fn lemma_all_grow(env: Env, kids: Seq<Shape>, up: Above, out: Out)
    ensures
        grows(out, all_nodes(env, kids, up, out)),
    decreases kids, 0int,
{
    if kids.len() > 0 {
        let had = all_nodes(env, kids.drop_last(), up, out);
        lemma_all_grow(env, kids.drop_last(), up, out);
        lemma_node_grows(env, kids.last(), up, had);
        lemma_grows(out, had, all_nodes(env, kids, up, out));
    }
}

proof fn lemma_one_of_all(env: Env, kids: Seq<Shape>, up: Above, out: Out, i: int) -> (at: Out)
    requires
        0 <= i < kids.len(),
    ensures
        grows(node(env, kids[i], up, at), all_nodes(env, kids, up, out)),
    decreases kids.len(),
{
    let rest = kids.drop_last();
    let had = all_nodes(env, rest, up, out);
    lemma_node_grows(env, kids.last(), up, had);
    if i < rest.len() {
        assert(rest[i] == kids[i]);
        let at = lemma_one_of_all(env, rest, up, out, i);
        lemma_grows(node(env, kids[i], up, at), had, all_nodes(env, kids, up, out));
        at
    } else {
        had
    }
}

/// Every node of the tree is looked at.
proof fn lemma_visited(env: Env, s: Shape, up: Above, out: Out, path: Seq<int>) -> (at: Out)
    requires
        is_path(s, path),
    ensures
        grows(made_at(env, at_path(s, path), above(s, path, up), at), node(env, s, up, out)),
    decreases path.len(),
{
    let here = made_at(env, s, up, out);
    if path.len() == 0 {
        lemma_all_grow(env, s.children, below(up, s.kind), here);
        out
    } else {
        let child = s.children[path[0]];
        let inner = below(up, s.kind);
        let mid = lemma_one_of_all(env, s.children, inner, here, path[0]);
        let at = lemma_visited(env, child, inner, mid, path.skip(1));
        lemma_grows(
            made_at(env, at_path(s, path), above(s, path, up), at),
            node(env, child, inner, mid),
            node(env, s, up, out),
        );
        at
    }
}

proof fn lemma_call_each(id: Seq<char>, callees: Seq<Seq<char>>, out: Out)
    ensures
        grows(out, call_each(id, callees, out)),
    decreases callees.len(),
{
    if callees.len() > 0 {
        lemma_call_each(id, callees.drop_last(), out);
        lemma_grows(out, call_each(id, callees.drop_last(), out), call_each(id, callees, out));
    }
}

spec fn scope_node(env: Env, root: Shape, out: Out) -> Out {
    out.node(env, stem(base_name(env.file)), "module"@, Some(1), Some(line(root.end_row)), None, Meta::empty())
}

proof fn lemma_visited_file(env: Env, root: Shape, out: Out, path: Seq<int>) -> (at: Out)
    requires
        is_path(root, path),
    ensures
        grows(made_at(env, at_path(root, path), above(root, path, at_root()), at), file(env, root, out)),
{
    let at = lemma_visited(env, root, at_root(), out, path);
    let made = node(env, root, at_root(), out);
    let callees = scope_callees(env, root.children, below(at_root(), root.kind), Seq::empty());
    let here = scope_node(env, root, made);
    lemma_call_each(env.id(stem(base_name(env.file)), "module"@, Some(1)), callees, here);
    assert(grows(made, here));
    if callees.len() > 0 {
        lemma_grows(made, here, scope_out(env, root, made));
    }
    assert(grows(made, file(env, root, out)));
    lemma_grows(made_at(env, at_path(root, path), above(root, path, at_root()), at), made, file(env, root, out));
    at
}

proof fn lemma_kinds()
    ensures
        "function_declaration"@ != "class_declaration"@,
        "function_declaration"@ != "interface_declaration"@,
        "function_declaration"@ != "type_alias_declaration"@,
        "function_declaration"@ != "lexical_declaration"@,
        "function_declaration"@ != "variable_declaration"@,
        "function_declaration"@ != "export_statement"@,
        "function_declaration"@ != "import_statement"@,
        "class_declaration"@ != "interface_declaration"@,
        "class_declaration"@ != "type_alias_declaration"@,
        "class_declaration"@ != "export_statement"@,
        "class_declaration"@ != "import_statement"@,
        "interface_declaration"@ != "type_alias_declaration"@,
        "interface_declaration"@ != "export_statement"@,
        "interface_declaration"@ != "import_statement"@,
        "type_alias_declaration"@ != "export_statement"@,
        "type_alias_declaration"@ != "import_statement"@,
        "lexical_declaration"@ != "export_statement"@,
        "lexical_declaration"@ != "import_statement"@,
        "lexical_declaration"@ != "class_declaration"@,
        "lexical_declaration"@ != "interface_declaration"@,
        "lexical_declaration"@ != "type_alias_declaration"@,
        "variable_declaration"@ != "export_statement"@,
        "variable_declaration"@ != "import_statement"@,
        "variable_declaration"@ != "class_declaration"@,
        "variable_declaration"@ != "interface_declaration"@,
        "variable_declaration"@ != "type_alias_declaration"@,
        "export_statement"@ != "import_statement"@,
        "arrow_function"@ != "object"@,
{
    reveal_strlit("function_declaration");
    reveal_strlit("class_declaration");
    reveal_strlit("interface_declaration");
    reveal_strlit("type_alias_declaration");
    reveal_strlit("lexical_declaration");
    reveal_strlit("variable_declaration");
    reveal_strlit("export_statement");
    reveal_strlit("import_statement");
    reveal_strlit("arrow_function");
    reveal_strlit("object");
    assert("function_declaration"@[0] == 'f' && "class_declaration"@[0] == 'c' && "interface_declaration"@[1] == 'n');
    assert("type_alias_declaration"@[0] == 't' && "lexical_declaration"@[0] == 'l' && "variable_declaration"@[0] == 'v');
    assert("export_statement"@[0] == 'e' && "import_statement"@[1] == 'm' && "interface_declaration"@[0] == 'i');
    assert("import_statement"@[0] == 'i' && "arrow_function"@[0] == 'a' && "object"@[0] == 'o');
}

// ---- what is found --------------------------------------------------------------------------

/// The text of the first child of a kind or, where there is none, of another.
pub open spec fn is_either_text(env: Env, s: Shape, kind: Seq<char>, other: Seq<char>, t: Seq<char>) -> bool {
    is_kind_text(env, s, kind, t) || (has_none_of(s, kind) && is_kind_text(env, s, other, t))
}

proof fn lemma_either_text(env: Env, s: Shape, kind: Seq<char>, other: Seq<char>, t: Seq<char>)
    requires
        is_either_text(env, s, kind, other, t),
    ensures
        either_text(env, s, kind, other) == t,
{
    if is_kind_text(env, s, kind, t) {
        lemma_kind_text(env, s, kind, t);
    } else {
        lemma_other_text(env, s, kind, other, t);
    }
}

/// The way passes through no function, no declarator of a variable: what it
/// leads to belongs to what it started from. The node that it leads to is
/// neither of them.
pub open spec fn is_plain(s: Shape, path: Seq<int>) -> bool
    decreases path.len(),
{
    &&& s.kind != "function_declaration"@
    &&& s.kind != "variable_declarator"@
    &&& path.len() > 0 ==> 0 <= path[0] < s.children.len() && is_plain(s.children[path[0]], path.skip(1))
}

/// A call that a plain way leads to is the caller's.
proof fn lemma_call(env: Env, kids: Seq<Shape>, up: Above, caller: Seq<char>, out: Out, i: int, path: Seq<int>, callee: Seq<char>)
    requires
        0 <= i < kids.len(),
        is_plain(kids[i], path),
        at_path(kids[i], path).kind == "call_expression"@,
        is_field_text(env, at_path(kids[i], path), "function"@, callee),
        is_callable(callee, true),
    ensures
        calls(env, kids, up, caller, out).edges.contains(call_edge(caller, callee)),
    decreases kids,
{
    let rest = kids.drop_last();
    let had = calls(env, rest, up, caller, out);
    let s = kids.last();
    let here = call_at(env, s, caller, "call_expression"@, true, had);
    let after = calls(env, s.children, below(up, s.kind), caller, here);
    lemma_calls_grow(env, s.children, below(up, s.kind), caller, here);
    lemma_keeps(here, after);
    assert(grows(had, here));
    lemma_keeps(had, here);
    if i < rest.len() {
        assert(rest[i] == kids[i]);
        lemma_call(env, rest, up, caller, out, i, path, callee);
    } else if path.len() == 0 {
        lemma_field_text(env, s, "function"@, callee);
        assert(here.edges[had.edges.len() as int] == call_edge(caller, callee));
    } else {
        lemma_call(env, s.children, below(up, s.kind), caller, here, path[0], path.skip(1), callee);
    }
}

/// A node holds a call of that, which a plain way leads to.
pub open spec fn is_call_below(env: Env, s: Shape, i: int, way: Seq<int>, callee: Seq<char>) -> bool {
    &&& 0 <= i < s.children.len()
    &&& is_plain(s.children[i], way)
    &&& at_path(s.children[i], way).kind == "call_expression"@
    &&& is_field_text(env, at_path(s.children[i], way), "function"@, callee)
    &&& is_callable(callee, true)
}

/// Every function with a name is found, wherever it stands; unless the index is
/// made fast, with every call in it that stands in no function and no variable
/// further in.
pub proof fn every_function_is_found(env: Env, root: Shape, out: Out, path: Seq<int>, name: Seq<char>)
    requires
        is_path(root, path),
        at_path(root, path).kind == "function_declaration"@,
        is_either_text(env, at_path(root, path), "identifier"@, "property_identifier"@, name),
        name.len() > 0,
    ensures
        ({
            let s = at_path(root, path);
            let after = file(env, root, out);
            &&& has(after, env, s, name, "function"@, Some(s.end_row), None)
            &&& forall|i: int, way: Seq<int>, callee: Seq<char>|
                env.tier != IndexingTier::Fast && #[trigger] is_call_below(env, s, i, way, callee)
                    ==> after.edges.contains(
                    call_edge(env.id(name, "function"@, Some(line(s.start_row))), callee),
                )
        }),
{
    let s = at_path(root, path);
    let after = file(env, root, out);
    let up = above(root, path, at_root());
    lemma_kinds();
    let at = lemma_visited_file(env, root, out, path);
    lemma_either_text(env, s, "identifier"@, "property_identifier"@, name);
    lemma_function(env, s, up, at);
    let made = function(env, s, up, at);
    lemma_has(made, after, env, s, name, "function"@, Some(s.end_row), None);
    lemma_keeps(made, after);
    let id = env.id(name, "function"@, Some(line(s.start_row)));
    assert forall|i: int, way: Seq<int>, callee: Seq<char>|
        env.tier != IndexingTier::Fast && #[trigger] is_call_below(env, s, i, way, callee) implies after.edges.contains(
        call_edge(id, callee),
    ) by {
        lemma_call(env, s.children, below(up, s.kind), id, function_node(env, s, at), i, way, callee);
    }
}

/// Every class, interface and type alias with a name is found, wherever it
/// stands.
pub proof fn every_type_is_found(env: Env, root: Shape, out: Out, path: Seq<int>, name: Seq<char>)
    requires
        is_path(root, path),
        is_either_text(env, at_path(root, path), "type_identifier"@, "identifier"@, name),
        name.len() > 0,
    ensures
        ({
            let s = at_path(root, path);
            let after = file(env, root, out);
            &&& s.kind == "class_declaration"@ ==> has(after, env, s, name, "class"@, Some(s.end_row), None)
            &&& s.kind == "interface_declaration"@ ==> has(after, env, s, name, "interface"@, Some(s.end_row), None)
            &&& s.kind == "type_alias_declaration"@ ==> has(after, env, s, name, "type_alias"@, None, None)
        }),
{
    let s = at_path(root, path);
    let after = file(env, root, out);
    lemma_kinds();
    let at = lemma_visited_file(env, root, out, path);
    lemma_either_text(env, s, "type_identifier"@, "identifier"@, name);
    lemma_titled(env, s, at);
    if s.kind == "class_declaration"@ {
        lemma_has(class_out(env, s, at), after, env, s, name, "class"@, Some(s.end_row), None);
    } else if s.kind == "interface_declaration"@ {
        lemma_has(interface_out(env, s, at), after, env, s, name, "interface"@, Some(s.end_row), None);
    } else if s.kind == "type_alias_declaration"@ {
        lemma_has(alias_out(env, s, at), after, env, s, name, "type_alias"@, None, None);
    }
}

/// A class holds every method and every field with a name in its body.
pub proof fn a_class_holds_its_members(
    env: Env,
    root: Shape,
    out: Out,
    path: Seq<int>,
    name: Seq<char>,
    body: int,
    i: int,
    member: Seq<char>,
)
    requires
        is_path(root, path),
        at_path(root, path).kind == "class_declaration"@,
        is_either_text(env, at_path(root, path), "type_identifier"@, "identifier"@, name),
        name.len() > 0,
        is_first_in(at_path(root, path), "body"@, body),
        0 <= i < at_path(root, path).children[body].children.len(),
        is_member(at_path(root, path).children[body].children[i].kind),
        is_either_text(env, at_path(root, path).children[body].children[i], "property_identifier"@, "identifier"@, member),
        member.len() > 0,
    ensures
        ({
            let s = at_path(root, path);
            let m = s.children[body].children[i];
            has(
                file(env, root, out),
                env,
                m,
                member,
                "function"@,
                Some(m.end_row),
                Some(env.id(name, "class"@, Some(line(s.start_row)))),
            )
        }),
{
    let s = at_path(root, path);
    let after = file(env, root, out);
    lemma_kinds();
    let at = lemma_visited_file(env, root, out, path);
    lemma_either_text(env, s, "type_identifier"@, "identifier"@, name);
    lemma_first_in(s, "body"@, body);
    let kids = s.children[body].children;
    let owner = env.id(name, "class"@, Some(line(s.start_row)));
    let mid = lemma_one_method(env, kids, owner, class_node(env, s, at), i);
    lemma_either_text(env, kids[i], "property_identifier"@, "identifier"@, member);
    lemma_method(env, kids[i], owner, mid);
    lemma_grows(method(env, kids[i], owner, mid), class_out(env, s, at), after);
    lemma_has(
        method(env, kids[i], owner, mid),
        after,
        env,
        kids[i],
        member,
        "function"@,
        Some(kids[i].end_row),
        Some(owner),
    );
}

pub open spec fn is_member(kind: Seq<char>) -> bool {
    kind == "method_definition"@ || kind == "public_field_definition"@
}

/// Every import is found, under its own text; so is an export from elsewhere.
pub proof fn every_import_is_found(env: Env, root: Shape, out: Out, path: Seq<int>)
    requires
        is_path(root, path),
        at_path(root, path).kind == "import_statement"@ || (at_path(root, path).kind == "export_statement"@ && exists|a: Seq<
            char,
        >, b: Seq<char>| #[trigger] reads(env.text(at_path(root, path)), a, " from "@, b)),
    ensures
        has(file(env, root, out), env, at_path(root, path), env.text(at_path(root, path)), "import"@, None, None),
{
    lemma_type_names();
    let s = at_path(root, path);
    lemma_kinds();
    let at = lemma_visited_file(env, root, out, path);
    if s.kind == "export_statement"@ {
        let t = env.text(s);
        let (a, b) = choose|a: Seq<char>, b: Seq<char>| #[trigger] reads(t, a, " from "@, b);
        assert(t.subrange(a.len() as int, (a.len() + " from "@.len()) as int) =~= " from "@);
        assert(crate::text::occurs_at(t, " from "@, a.len() as int));
    }
    lemma_import(env, s, at);
    lemma_has(import_out(env, s, at), file(env, root, out), env, s, env.text(s), "import"@, None, None);
}

/// A text is some text, a part, and some more text.
pub open spec fn reads(t: Seq<char>, a: Seq<char>, part: Seq<char>, b: Seq<char>) -> bool {
    t == a + part + b
}

/// A declaration of variables.
pub open spec fn is_binding(kind: Seq<char>) -> bool {
    kind == "lexical_declaration"@ || kind == "variable_declaration"@
}

/// Every variable whose value is an arrow function is found as a function, and
/// every one whose value is an object as an object if its declaration stands at
/// the top of the file; unless the index is made fast, with every call in it
/// that stands in no function and no variable further in.
pub proof fn every_binding_is_found(env: Env, root: Shape, out: Out, path: Seq<int>, i: int, name: Seq<char>, value: int)
    requires
        is_path(root, path),
        is_binding(at_path(root, path).kind),
        0 <= i < at_path(root, path).children.len(),
        at_path(root, path).children[i].kind == "variable_declarator"@,
        is_kind_text(env, at_path(root, path).children[i], "identifier"@, name),
        name.len() > 0,
        is_first_in(at_path(root, path).children[i], "value"@, value),
    ensures
        ({
            let decl = at_path(root, path);
            let s = decl.children[i];
            let v = s.children[value];
            let after = file(env, root, out);
            &&& v.kind == "arrow_function"@ ==> is_bound(env, decl, s, v, name, "function"@, after)
            &&& v.kind == "object"@ && is_on_top(root, path) ==> is_bound(env, decl, s, v, name, "object"@, after)
        }),
{
    let decl = at_path(root, path);
    let after = file(env, root, out);
    let up = above(root, path, at_root());
    lemma_kinds();
    lemma_on_top(root, path);
    let first = lemma_visited_file(env, root, out, path);
    let at = lemma_one_binding(env, decl, up, decl.children, first, i);
    let s = decl.children[i];
    lemma_kind_text(env, s, "identifier"@, name);
    lemma_first_in(s, "value"@, value);
    let v = s.children[value];
    lemma_grows(binding_at(env, decl, up, s, at), bindings(env, decl, up, decl.children, first), after);
    if v.kind == "arrow_function"@ {
        lemma_bound(env, decl, up, s, v, name, "function"@, at, after);
    } else if v.kind == "object"@ && is_on_top(root, path) {
        lemma_bound(env, decl, up, s, v, name, "object"@, at, after);
    }
}

/// A variable was found as a definition, with its calls.
pub open spec fn is_bound(env: Env, decl: Shape, s: Shape, v: Shape, name: Seq<char>, node_type: Seq<char>, after: Out) -> bool {
    &&& has(after, env, decl, name, node_type, Some(v.end_row), None)
    &&& forall|k: int, way: Seq<int>, callee: Seq<char>|
        env.tier != IndexingTier::Fast && #[trigger] is_call_below(env, s, k, way, callee) ==> after.edges.contains(
            call_edge(env.id(name, node_type, Some(line(decl.start_row))), callee),
        )
}

proof fn lemma_bound(
    env: Env,
    decl: Shape,
    up: Above,
    s: Shape,
    v: Shape,
    name: Seq<char>,
    node_type: Seq<char>,
    at: Out,
    after: Out,
)
    requires
        node_type == "function"@ || node_type == "object"@,
        grows(binding(env, decl, up, s, v, name, node_type, at), after),
    ensures
        is_bound(env, decl, s, v, name, node_type, after),
{
    let made = binding(env, decl, up, s, v, name, node_type, at);
    lemma_binding(env, decl, up, s, v, name, node_type, at);
    lemma_has(made, after, env, decl, name, node_type, Some(v.end_row), None);
    lemma_keeps(made, after);
    let id = env.id(name, node_type, Some(line(decl.start_row)));
    let here = binding_node(env, decl, up, v, name, node_type, at);
    assert forall|k: int, way: Seq<int>, callee: Seq<char>|
        env.tier != IndexingTier::Fast && #[trigger] is_call_below(env, s, k, way, callee) implies after.edges.contains(
        call_edge(id, callee),
    ) by {
        lemma_call(env, s.children, below(below(up, decl.kind), s.kind), id, here, k, way, callee);
    }
}

// ---- the scope of the module ----------------------------------------------------------------

/// The way passes through no definition and nothing that is apart from the
/// scope of the module.
pub open spec fn is_in_scope(s: Shape, path: Seq<int>) -> bool
    decreases path.len(),
{
    &&& s.kind != "function_declaration"@
    &&& s.kind != "variable_declarator"@
    &&& s.kind != "class_declaration"@
    &&& s.kind != "interface_declaration"@
    &&& s.kind != "type_alias_declaration"@
    &&& s.kind != "import_statement"@
    &&& path.len() > 0 ==> 0 <= path[0] < s.children.len() && is_in_scope(s.children[path[0]], path.skip(1))
}

proof fn lemma_scope_keeps(env: Env, kids: Seq<Shape>, up: Above, found: Seq<Seq<char>>, callee: Seq<char>)
    requires
        found.contains(callee),
    ensures
        scope_callees(env, kids, up, found).contains(callee),
    decreases kids,
{
    if kids.len() > 0 {
        let had = scope_callees(env, kids.drop_last(), up, found);
        let s = kids.last();
        lemma_scope_keeps(env, kids.drop_last(), up, found, callee);
        let here = callee_at(env, s, had);
        let k = choose|k: int| 0 <= k < had.len() && had[k] == callee;
        assert(here[k] == callee);
        lemma_scope_keeps(env, s.children, below(up, s.kind), here, callee);
    }
}

proof fn lemma_scope(env: Env, kids: Seq<Shape>, up: Above, found: Seq<Seq<char>>, i: int, path: Seq<int>, callee: Seq<char>)
    requires
        0 <= i < kids.len(),
        is_in_scope(kids[i], path),
        at_path(kids[i], path).kind == "call_expression"@,
        is_field_text(env, at_path(kids[i], path), "function"@, callee),
        is_callable(callee, true),
    ensures
        scope_callees(env, kids, up, found).contains(callee),
    decreases kids,
{
    let rest = kids.drop_last();
    let had = scope_callees(env, rest, up, found);
    let s = kids.last();
    let here = callee_at(env, s, had);
    let inner = below(up, s.kind);
    if i < rest.len() {
        assert(rest[i] == kids[i]);
        lemma_scope(env, rest, up, found, i, path, callee);
        let k = choose|k: int| 0 <= k < had.len() && had[k] == callee;
        assert(here[k] == callee);
        lemma_scope_keeps(env, s.children, inner, here, callee);
    } else if path.len() == 0 {
        lemma_field_text(env, s, "function"@, callee);
        assert(here[had.len() as int] == callee);
        lemma_scope_keeps(env, s.children, inner, here, callee);
    } else {
        lemma_scope(env, s.children, inner, here, path[0], path.skip(1), callee);
    }
}

proof fn lemma_called(id: Seq<char>, callees: Seq<Seq<char>>, out: Out, callee: Seq<char>)
    requires
        callees.contains(callee),
        is_callable(callee, true),
    ensures
        call_each(id, callees, out).edges.contains(call_edge(id, callee)),
    decreases callees.len(),
{
    let rest = callees.drop_last();
    let had = call_each(id, rest, out);
    let after = call_each(id, callees, out);
    if callees.last() == callee {
        assert(after.edges[had.edges.len() as int] == call_edge(id, callee));
    } else {
        let k = choose|k: int| 0 <= k < callees.len() && callees[k] == callee;
        assert(rest[k] == callee);
        lemma_called(id, rest, out, callee);
        assert(grows(had, after));
        lemma_keeps(had, after);
    }
}

/// Every call in the module's own scope belongs to one node for the scope, named
/// for the file.
pub proof fn calls_of_the_scope_are_found(env: Env, root: Shape, out: Out, i: int, path: Seq<int>, callee: Seq<char>)
    requires
        env.tier != IndexingTier::Fast,
        0 <= i < root.children.len(),
        is_in_scope(root.children[i], path),
        at_path(root.children[i], path).kind == "call_expression"@,
        is_field_text(env, at_path(root.children[i], path), "function"@, callee),
        is_callable(callee, true),
    ensures
        ({
            let name = stem(base_name(env.file));
            let id = env.id(name, "module"@, Some(1));
            let after = file(env, root, out);
            &&& after.edges.contains(call_edge(id, callee))
            &&& exists|n: CodeView| #[trigger]
                after.nodes.contains(n) && n.id == id && n.name == name && n.node_type == "module"@ && n.start_line == Some(
                    1i64,
                )
        }),
{
    let up = below(at_root(), root.kind);
    let made = node(env, root, at_root(), out);
    let name = stem(base_name(env.file));
    let id = env.id(name, "module"@, Some(1));
    let callees = scope_callees(env, root.children, up, Seq::empty());
    lemma_scope(env, root.children, up, Seq::empty(), i, path, callee);
    let here = scope_node(env, root, made);
    let after = file(env, root, out);
    assert(callees.len() > 0);
    lemma_called(id, callees, here, callee);
    lemma_call_each(id, callees, here);
    let n = here.nodes[made.nodes.len() as int];
    assert(after.nodes[made.nodes.len() as int] == n);
    assert(after.nodes.contains(n));
}

/// What stands in a class, an interface, a type alias or an import is not in the
/// module's own scope: such a node, whatever is in it, adds no call to it.
pub proof fn what_is_apart_adds_no_call_of_the_scope(env: Env, kids: Seq<Shape>, s: Shape, up: Above, found: Seq<Seq<char>>)
    requires
        s.kind == "class_declaration"@ || s.kind == "interface_declaration"@ || s.kind == "type_alias_declaration"@
            || s.kind == "import_statement"@,
    ensures
        scope_callees(env, kids.push(s), up, found) == scope_callees(env, kids, up, found),
{
    assert(kids.push(s).drop_last() =~= kids);
}

/// What stands in a function with a name is the function's: it adds no call to
/// the module's own scope, nor to a function around it.
pub proof fn what_a_function_calls_is_its_own(env: Env, kids: Seq<Shape>, s: Shape, up: Above, found: Seq<Seq<char>>, caller: Seq<char>, name: Seq<char>, out: Out)
    requires
        s.kind == "function_declaration"@,
        is_either_text(env, s, "identifier"@, "property_identifier"@, name),
        name.len() > 0,
    ensures
        scope_callees(env, kids.push(s), up, found) == scope_callees(env, kids, up, found),
        calls(env, kids.push(s), up, caller, out) == calls(env, kids, up, caller, out),
{
    lemma_either_text(env, s, "identifier"@, "property_identifier"@, name);
    assert(kids.push(s).drop_last() =~= kids);
}

// ---- the name of the scope ------------------------------------------------------------------

pub proof fn lemma_no_last(s: Seq<char>, x: char)
    requires
        forall|i: int| 0 <= i < s.len() ==> #[trigger] s[i] != x,
    ensures
        end_of_last(s, x) == 0,
    decreases s.len(),
{
    if s.len() > 0 {
        assert(s[s.len() - 1] != x);
        assert forall|i: int| 0 <= i < s.drop_last().len() implies #[trigger] s.drop_last()[i] != x by {
            assert(s[i] != x);
        }
        lemma_no_last(s.drop_last(), x);
    }
}

pub proof fn lemma_last(a: Seq<char>, x: char, b: Seq<char>)
    requires
        forall|i: int| 0 <= i < b.len() ==> #[trigger] b[i] != x,
    ensures
        end_of_last(a + seq![x] + b, x) == a.len() + 1,
    decreases b.len(),
{
    let s = a + seq![x] + b;
    if b.len() == 0 {
        assert(s.last() == x);
    } else {
        let rest = b.drop_last();
        assert forall|i: int| 0 <= i < rest.len() implies #[trigger] rest[i] != x by {
            assert(b[i] != x);
        }
        assert(s.last() == b[b.len() - 1]);
        assert(s.drop_last() =~= a + seq![x] + rest);
        lemma_last(a, x, rest);
    }
}

proof fn lemma_base_before(a: Seq<char>, b: Seq<char>, x: char)
    requires
        forall|i: int| 0 <= i < b.len() ==> #[trigger] b[i] != x,
    ensures
        end_of_last(a + b, x) <= a.len(),
    decreases b.len(),
{
    let s = a + b;
    if b.len() == 0 {
        assert(s =~= a);
        lemma_bounded(a, x);
    } else {
        let rest = b.drop_last();
        assert forall|i: int| 0 <= i < rest.len() implies #[trigger] rest[i] != x by {
            assert(b[i] != x);
        }
        assert(s.last() == b[b.len() - 1]);
        assert(s.drop_last() =~= a + rest);
        lemma_base_before(a, rest, x);
    }
}

proof fn lemma_bounded(a: Seq<char>, x: char)
    ensures
        end_of_last(a, x) <= a.len(),
    decreases a.len(),
{
    if a.len() > 0 && a.last() != x {
        lemma_bounded(a.drop_last(), x);
    }
}

/// A scope is named for its file, without the directories before it, whichever
/// slash divides them, and without its extension.
pub proof fn a_scope_is_named_for_its_file(dir: Seq<char>, slash: char, name: Seq<char>, ext: Seq<char>)
    requires
        slash == '/' || slash == '\\',
        name.len() > 0,
        forall|i: int| 0 <= i < name.len() ==> #[trigger] name[i] != '/' && name[i] != '\\',
        forall|i: int| 0 <= i < ext.len() ==> #[trigger] ext[i] != '/' && ext[i] != '\\' && ext[i] != '.',
    ensures
        stem(base_name(dir + seq![slash] + name + seq!['.'] + ext)) == name,
        stem(base_name(name + seq!['.'] + ext)) == name,
{
    let base = name + seq!['.'] + ext;
    let path = dir + seq![slash] + name + seq!['.'] + ext;
    assert(path =~= dir + seq![slash] + base);
    assert forall|i: int| 0 <= i < base.len() implies #[trigger] base[i] != '/' && base[i] != '\\' by {
        if i < name.len() {
            assert(base[i] == name[i]);
        } else if i > name.len() {
            assert(base[i] == ext[i - name.len() - 1]);
        }
    }
    let other = if slash == '/' {
        '\\'
    } else {
        '/'
    };
    lemma_last(dir, slash, base);
    assert forall|i: int| 0 <= i < base.len() implies #[trigger] base[i] != other by {}
    lemma_base_before(dir + seq![slash], base, other);
    assert(path.skip((dir.len() + 1) as int) =~= base);
    lemma_no_last(base, '/');
    lemma_no_last(base, '\\');
    assert(base.skip(0) =~= base);
    lemma_last(name, '.', ext);
    assert(base.take(name.len() as int) =~= name);
}

// ---- nothing else is found ------------------------------------------------------------------

/// A variable of that name whose value makes it a node of that type.
pub open spec fn declares(env: Env, s: Shape, name: Seq<char>, node_type: Seq<char>) -> bool {
    &&& s.kind == "variable_declarator"@
    &&& name == binding_name(env, s)
    &&& name.len() > 0
    &&& child_in(s, "value"@) matches Some(value) && {
        ||| value.kind == "arrow_function"@ && node_type == "function"@
        ||| value.kind == "object"@ && node_type == "object"@
    }
}

/// The node of a function, a class, an interface, a type alias, a member or a
/// variable that has a name, of an import or an export from elsewhere, or of the
/// scope of the file unless the index is made fast.
pub open spec fn is_made(n: CodeView, env: Env, t: Shape) -> bool {
    ||| t.kind == "function_declaration"@ && stands_at(n, env, t, "function"@) && n.name == function_name(env, t)
        && n.name.len() > 0
    ||| t.kind == "class_declaration"@ && stands_at(n, env, t, "class"@) && n.name == title(env, t) && n.name.len() > 0
    ||| t.kind == "interface_declaration"@ && stands_at(n, env, t, "interface"@) && n.name == title(env, t) && n.name.len()
        > 0
    ||| t.kind == "type_alias_declaration"@ && stands_at(n, env, t, "type_alias"@) && n.name == title(env, t)
        && n.name.len() > 0
    ||| is_member(t.kind) && stands_at(n, env, t, "function"@) && n.name == either_text(
        env,
        t,
        "property_identifier"@,
        "identifier"@,
    ) && n.name.len() > 0
    ||| is_binding(t.kind) && stands_at(n, env, t, n.node_type) && exists|k: int|
        0 <= k < t.children.len() && declares(env, #[trigger] t.children[k], n.name, n.node_type)
    ||| t.kind == "import_statement"@ && stands_at(n, env, t, "import"@) && n.name == env.text(t)
    ||| t.kind == "export_statement"@ && stands_at(n, env, t, "import"@) && n.name == env.text(t) && has_part(
        env.text(t),
        " from "@,
    )
    ||| env.tier != IndexingTier::Fast && n.node_type == "module"@ && n.name == stem(base_name(env.file)) && n.id == env.id(
        n.name,
        "module"@,
        Some(1),
    )
}

/// An edge to a member from the class that holds it, or from a function, a
/// variable or the scope of the file to what is called in it.
pub open spec fn is_tied(e: CodeEdgeView, env: Env, t: Shape) -> bool {
    exists|n: CodeView| #[trigger]
        is_made(n, env, t) && {
            ||| is_member(t.kind) && is_holding(e, n.id)
            ||| env.tier != IndexingTier::Fast && (n.node_type == "function"@ || n.node_type == "object"@ || n.node_type
                == "module"@) && crate::index::extractors::trees::is_call_below(
                e,
                env,
                t,
                n.id,
                "call_expression"@,
                true,
            )
        }
}

pub open spec fn made_fn(env: Env) -> spec_fn(CodeView, Shape) -> bool {
    |n: CodeView, t: Shape| is_made(n, env, t)
}

pub open spec fn tied_fn(env: Env) -> spec_fn(CodeEdgeView, Shape) -> bool {
    |e: CodeEdgeView, t: Shape| is_tied(e, env, t)
}

proof fn lemma_calls_add(env: Env, root: Shape, s: Shape, n: CodeView, kids: Seq<Shape>, up: Above, out: Out)
    requires
        is_below(s, root),
        is_made(n, env, s),
        n.node_type == "function"@ || n.node_type == "object"@,
        env.tier != IndexingTier::Fast,
        forall|i: int| 0 <= i < kids.len() ==> is_below(#[trigger] kids[i], s),
    ensures
        adds(out, calls(env, kids, up, n.id, out), root, made_fn(env), tied_fn(env)),
    decreases kids,
{
    if kids.len() > 0 {
        let f = made_fn(env);
        let g = tied_fn(env);
        let rest = kids.drop_last();
        assert forall|i: int| 0 <= i < rest.len() implies is_below(#[trigger] rest[i], s) by {
            assert(rest[i] == kids[i]);
        }
        let last = kids[kids.len() - 1];
        assert(is_below(last, s));
        let had = calls(env, rest, up, n.id, out);
        lemma_calls_add(env, root, s, n, rest, up, out);
        if !owns_calls(env, last, up) {
            let here = call_at(env, last, n.id, "call_expression"@, true, had);
            if here != had {
                assert(here.edges.drop_last() =~= had.edges);
                assert(crate::index::extractors::trees::is_call_below(
                    here.edges.last(),
                    env,
                    s,
                    n.id,
                    "call_expression"@,
                    true,
                ));
                assert(is_tied(here.edges.last(), env, s));
            }
            lemma_adds_edge(had, here, s, root, f, g);
            lemma_adds(out, had, here, root, f, g);
            lemma_below(s, last);
            lemma_calls_add(env, root, s, n, last.children, below(up, last.kind), here);
            lemma_adds(out, here, calls(env, last.children, below(up, last.kind), n.id, here), root, f, g);
        }
    }
}

proof fn lemma_function_adds(env: Env, root: Shape, s: Shape, up: Above, out: Out)
    requires
        is_below(s, root),
        s.kind == "function_declaration"@,
    ensures
        adds(out, function(env, s, up, out), root, made_fn(env), tied_fn(env)),
{
    let f = made_fn(env);
    let g = tied_fn(env);
    if function_name(env, s).len() > 0 {
        let here = function_node(env, s, out);
        let n = here.nodes.last();
        assert(here.nodes.drop_last() =~= out.nodes);
        assert(is_made(n, env, s));
        lemma_adds_node(out, here, s, root, f, g);
        if env.tier != IndexingTier::Fast {
            lemma_below_self(s);
            lemma_below(s, s);
            lemma_calls_add(env, root, s, n, s.children, below(up, s.kind), here);
            lemma_adds(out, here, function(env, s, up, out), root, f, g);
        }
    }
}

proof fn lemma_methods_add(env: Env, root: Shape, kids: Seq<Shape>, owner: Seq<char>, out: Out)
    requires
        forall|i: int| 0 <= i < kids.len() ==> is_below(#[trigger] kids[i], root),
    ensures
        adds(out, methods(env, kids, owner, out), root, made_fn(env), tied_fn(env)),
    decreases kids.len(),
{
    if kids.len() > 0 {
        let f = made_fn(env);
        let g = tied_fn(env);
        let rest = kids.drop_last();
        assert forall|i: int| 0 <= i < rest.len() implies is_below(#[trigger] rest[i], root) by {
            assert(rest[i] == kids[i]);
        }
        let last = kids[kids.len() - 1];
        assert(is_below(last, root));
        let had = methods(env, rest, owner, out);
        lemma_methods_add(env, root, rest, owner, out);
        let here = method(env, last, owner, had);
        if is_member(last.kind) && here != had {
            let mid = Out { nodes: here.nodes, edges: had.edges };
            assert(mid.nodes.drop_last() =~= had.nodes);
            assert(is_made(mid.nodes.last(), env, last));
            lemma_adds_node(had, mid, last, root, f, g);
            assert(here.edges.drop_last() =~= mid.edges);
            assert(is_tied(here.edges.last(), env, last));
            lemma_adds_edge(mid, here, last, root, f, g);
            lemma_adds(had, mid, here, root, f, g);
            lemma_adds(out, had, here, root, f, g);
        }
    }
}

proof fn lemma_binding_adds(env: Env, root: Shape, decl: Shape, k: int, up: Above, out: Out)
    requires
        is_below(decl, root),
        is_binding(decl.kind),
        0 <= k < decl.children.len(),
    ensures
        adds(out, binding_at(env, decl, up, decl.children[k], out), root, made_fn(env), tied_fn(env)),
{
    let f = made_fn(env);
    let g = tied_fn(env);
    lemma_kinds();
    let s = decl.children[k];
    let name = binding_name(env, s);
    let after = binding_at(env, decl, up, s, out);
    if let Some(value) = child_in(s, "value"@) {
        let node_type = if value.kind == "arrow_function"@ {
            "function"@
        } else {
            "object"@
        };
        if s.kind == "variable_declarator"@ && name.len() > 0 && (value.kind == "arrow_function"@ || (value.kind == "object"@
            && is_module_level(up.first, up.second))) {
            let here = binding_node(env, decl, up, value, name, node_type, out);
            let n = here.nodes.last();
            assert(here.nodes.drop_last() =~= out.nodes);
            assert(declares(env, decl.children[k], n.name, n.node_type));
            assert(is_made(n, env, decl));
            lemma_adds_node(out, here, decl, root, f, g);
            if env.tier != IndexingTier::Fast {
                lemma_below_self(decl);
                lemma_below(decl, decl);
                lemma_below(decl, s);
                lemma_calls_add(env, root, decl, n, s.children, below(below(up, decl.kind), s.kind), here);
                lemma_adds(out, here, after, root, f, g);
            }
        }
    }
}

proof fn lemma_bindings_add(env: Env, root: Shape, decl: Shape, up: Above, m: int, out: Out)
    requires
        is_below(decl, root),
        is_binding(decl.kind),
        0 <= m <= decl.children.len(),
    ensures
        adds(out, bindings(env, decl, up, decl.children.take(m), out), root, made_fn(env), tied_fn(env)),
    decreases m,
{
    if m > 0 {
        let kids = decl.children.take(m);
        assert(kids.drop_last() =~= decl.children.take(m - 1));
        let had = bindings(env, decl, up, decl.children.take(m - 1), out);
        lemma_bindings_add(env, root, decl, up, m - 1, out);
        lemma_binding_adds(env, root, decl, m - 1, up, had);
        lemma_adds(out, had, bindings(env, decl, up, kids, out), root, made_fn(env), tied_fn(env));
    }
}

proof fn lemma_made_adds(env: Env, root: Shape, s: Shape, up: Above, out: Out)
    requires
        is_below(s, root),
    ensures
        adds(out, made_at(env, s, up, out), root, made_fn(env), tied_fn(env)),
{
    lemma_kinds();
    let f = made_fn(env);
    let g = tied_fn(env);
    let after = made_at(env, s, up, out);
    if s.kind == "function_declaration"@ {
        lemma_function_adds(env, root, s, up, out);
    } else if s.kind == "class_declaration"@ {
        if title(env, s).len() > 0 {
            let here = class_node(env, s, out);
            assert(here.nodes.drop_last() =~= out.nodes);
            assert(is_made(here.nodes.last(), env, s));
            lemma_adds_node(out, here, s, root, f, g);
            lemma_below_in(root, s, "body"@);
            lemma_methods_add(env, root, kids_in(s, "body"@), env.id(title(env, s), "class"@, Some(line(s.start_row))), here);
            lemma_adds(out, here, after, root, f, g);
        }
    } else if is_binding(s.kind) {
        assert(s.children.take(s.children.len() as int) =~= s.children);
        lemma_bindings_add(env, root, s, up, s.children.len() as int, out);
    } else if after != out {
        assert(after.nodes.drop_last() =~= out.nodes);
        assert(is_made(after.nodes.last(), env, s));
        lemma_adds_node(out, after, s, root, f, g);
    }
}

proof fn lemma_node_adds(env: Env, root: Shape, s: Shape, up: Above, out: Out)
    requires
        is_below(s, root),
    ensures
        adds(out, node(env, s, up, out), root, made_fn(env), tied_fn(env)),
    decreases s, 1int,
{
    let here = made_at(env, s, up, out);
    lemma_made_adds(env, root, s, up, out);
    lemma_below(root, s);
    lemma_all_add(env, root, s.children, below(up, s.kind), here);
    lemma_adds(out, here, node(env, s, up, out), root, made_fn(env), tied_fn(env));
}

proof fn lemma_all_add(env: Env, root: Shape, kids: Seq<Shape>, up: Above, out: Out)
    requires
        forall|i: int| 0 <= i < kids.len() ==> is_below(#[trigger] kids[i], root),
    ensures
        adds(out, all_nodes(env, kids, up, out), root, made_fn(env), tied_fn(env)),
    decreases kids, 0int,
{
    if kids.len() > 0 {
        let rest = kids.drop_last();
        assert forall|i: int| 0 <= i < rest.len() implies is_below(#[trigger] rest[i], root) by {
            assert(rest[i] == kids[i]);
        }
        let last = kids[kids.len() - 1];
        assert(is_below(last, root));
        let had = all_nodes(env, rest, up, out);
        lemma_all_add(env, root, rest, up, out);
        lemma_node_adds(env, root, last, up, had);
        lemma_adds(out, had, node(env, last, up, had), root, made_fn(env), tied_fn(env));
    }
}

/// A text that is called below.
pub open spec fn is_called_below(env: Env, root: Shape, callee: Seq<char>) -> bool {
    exists|u: Shape| #[trigger]
        is_below(u, root) && u.kind == "call_expression"@ && field_text(env, u, "function"@) == Some(callee)
            && crate::index::extractors::is_callee(callee, true)
}

proof fn lemma_scope_below(env: Env, root: Shape, kids: Seq<Shape>, up: Above, found: Seq<Seq<char>>)
    requires
        forall|i: int| 0 <= i < kids.len() ==> is_below(#[trigger] kids[i], root),
        forall|i: int| 0 <= i < found.len() ==> is_called_below(env, root, #[trigger] found[i]),
    ensures
        forall|i: int|
            0 <= i < scope_callees(env, kids, up, found).len() ==> is_called_below(
                env,
                root,
                #[trigger] scope_callees(env, kids, up, found)[i],
            ),
    decreases kids,
{
    if kids.len() > 0 {
        let rest = kids.drop_last();
        assert forall|i: int| 0 <= i < rest.len() implies is_below(#[trigger] rest[i], root) by {
            assert(rest[i] == kids[i]);
        }
        let last = kids[kids.len() - 1];
        assert(is_below(last, root));
        let had = scope_callees(env, rest, up, found);
        lemma_scope_below(env, root, rest, up, found);
        if !(owns_calls(env, last, up) || crate::index::extractors::typescript::is_apart(last.kind)) {
            let here = callee_at(env, last, had);
            assert forall|i: int| 0 <= i < here.len() implies is_called_below(env, root, #[trigger] here[i]) by {
                if i < had.len() {
                    assert(here[i] == had[i]);
                }
            }
            lemma_below(root, last);
            lemma_scope_below(env, root, last.children, below(up, last.kind), here);
            assert(scope_callees(env, kids, up, found) == scope_callees(env, last.children, below(up, last.kind), here));
        } else {
            assert(scope_callees(env, kids, up, found) == had);
        }
    } else {
        assert(scope_callees(env, kids, up, found) == found);
    }
}

proof fn lemma_each_adds(env: Env, root: Shape, n: CodeView, callees: Seq<Seq<char>>, out: Out)
    requires
        is_made(n, env, root),
        n.node_type == "module"@,
        env.tier != IndexingTier::Fast,
        forall|i: int| 0 <= i < callees.len() ==> is_called_below(env, root, #[trigger] callees[i]),
    ensures
        adds(out, call_each(n.id, callees, out), root, made_fn(env), tied_fn(env)),
    decreases callees.len(),
{
    if callees.len() > 0 {
        let f = made_fn(env);
        let g = tied_fn(env);
        let rest = callees.drop_last();
        assert forall|i: int| 0 <= i < rest.len() implies is_called_below(env, root, #[trigger] rest[i]) by {
            assert(rest[i] == callees[i]);
        }
        let had = call_each(n.id, rest, out);
        lemma_each_adds(env, root, n, rest, out);
        let here = call_each(n.id, callees, out);
        lemma_below_self(root);
        if here != had {
            assert(is_called_below(env, root, callees[callees.len() - 1]));
            assert(here.edges.drop_last() =~= had.edges);
            assert(crate::index::extractors::trees::is_call_below(
                here.edges.last(),
                env,
                root,
                n.id,
                "call_expression"@,
                true,
            ));
            assert(is_tied(here.edges.last(), env, root));
        }
        lemma_adds_edge(had, here, root, root, f, g);
        lemma_adds(out, had, here, root, f, g);
    }
}

/// Nothing is found but definitions that have a name, imports and the scope of
/// the file, and nothing is tied but members to their classes, and functions,
/// variables and the scope to what is called in them.
pub proof fn nothing_else_is_found(env: Env, root: Shape, out: Out)
    ensures
        adds(out, file(env, root, out), root, made_fn(env), tied_fn(env)),
{
    let f = made_fn(env);
    let g = tied_fn(env);
    lemma_below_self(root);
    lemma_below(root, root);
    let made = node(env, root, at_root(), out);
    lemma_node_adds(env, root, root, at_root(), out);
    let callees = scope_callees(env, root.children, below(at_root(), root.kind), Seq::empty());
    if env.tier != IndexingTier::Fast && callees.len() > 0 {
        lemma_scope_below(env, root, root.children, below(at_root(), root.kind), Seq::empty());
        let here = scope_node(env, root, made);
        let n = here.nodes.last();
        assert(here.nodes.drop_last() =~= made.nodes);
        assert(is_made(n, env, root));
        lemma_adds_node(made, here, root, root, f, g);
        lemma_adds(out, made, here, root, f, g);
        lemma_each_adds(env, root, n, callees, here);
        lemma_adds(out, here, file(env, root, out), root, f, g);
    }
}

} // verus!
