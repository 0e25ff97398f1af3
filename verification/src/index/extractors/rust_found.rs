//! What the Rust extractor finds.

use vstd::prelude::*;

use crate::index::extractors::notes::{next, text};
use crate::index::extractors::rust::{
    body_out, closure_at, closures, enum_out, function, function_meta, functions, impl_name, impl_out, implements, items,
    last_item, macro_out, mod_items, module_out, struct_out, trait_out, use_out,
};
use crate::index::extractors::trees::{
    adds, at_path, call_edge, grows, has, has_none_of, is_below, is_call_below, is_call_in, is_field_text,
    is_first_in, is_kind_text, is_path, lemma_added, lemma_adds, lemma_adds_edge, lemma_adds_node, lemma_below,
    lemma_below_in, lemma_below_self, lemma_call_in, lemma_calls_add, lemma_calls_grow, lemma_field_text,
    lemma_first_in, lemma_grows, lemma_has, lemma_keeps, lemma_kind_text, lemma_new, lemma_no_field, lemma_other_text,
    lemma_read_name, lemma_type_names, stands_at,
};
use crate::index::extractors::{calls, child_in, either_text, field_place, field_text, import_out, kids_in};
use crate::index::parser::{is_one_line, line, with_text, CodeEdgeView, CodeView, Env, Meta, MetaView, Out};
use crate::index::source::cut;
use crate::index::syntax::Shape;
use crate::index::tier::IndexingTier;
use crate::text::begins_with;

verus! {

// ---- ways into the tree ---------------------------------------------------------------------

/// A node that is an item, whatever is below it.
pub open spec fn is_item(env: Env, kind: Seq<char>) -> bool {
    ||| kind == "function_item"@
    ||| kind == "struct_item"@
    ||| kind == "enum_item"@
    ||| kind == "trait_item"@
    ||| kind == "impl_item"@
    ||| kind == "use_declaration"@
    ||| kind == "mod_item"@
    ||| kind == "macro_invocation"@ && env.tier == IndexingTier::Full
}

/// The way into the tree is open: it passes through no item but modules that
/// have a name, and through those by their bodies.
pub open spec fn is_open(env: Env, s: Shape, path: Seq<int>) -> bool
    decreases path.len(),
{
    if path.len() == 0 {
        true
    } else if s.kind == "mod_item"@ {
        &&& path.len() >= 2
        &&& is_first_in(s, "body"@, path[0])
        &&& 0 <= path[1] < s.children[path[0]].children.len()
        &&& exists|name: Seq<char>| name.len() > 0 && #[trigger] is_kind_text(env, s, "identifier"@, name)
        &&& is_open(env, s.children[path[0]].children[path[1]], path.skip(2))
    } else {
        &&& !is_item(env, s.kind)
        &&& 0 <= path[0] < s.children.len()
        &&& is_open(env, s.children[path[0]], path.skip(1))
    }
}

/// The name of a node that has one.
pub open spec fn name_of(env: Env, s: Shape) -> Seq<char> {
    choose|name: Seq<char>| is_kind_text(env, s, "identifier"@, name)
}

/// The module that holds what a path leads to: the innermost on the way.
pub open spec fn holder(env: Env, s: Shape, path: Seq<int>, owner: Option<Seq<char>>) -> Option<Seq<char>>
    decreases path.len(),
{
    if path.len() == 0 {
        owner
    } else if s.kind == "mod_item"@ && path.len() >= 2 {
        holder(
            env,
            s.children[path[0]].children[path[1]],
            path.skip(2),
            Some(env.id(name_of(env, s), "module"@, Some(line(s.start_row)))),
        )
    } else {
        holder(env, s.children[path[0]], path.skip(1), owner)
    }
}

/// The nodes before the one that the way leads to, under the same parent.
pub open spec fn before(kids: Seq<Shape>, i: int, path: Seq<int>) -> Seq<Shape>
    decreases path.len(),
{
    if path.len() == 0 {
        kids.take(i)
    } else {
        before(kids[i].children, path[0], path.skip(1))
    }
}

// ---- nothing is lost ------------------------------------------------------------------------

proof fn lemma_closure(env: Env, s: Shape, owner: Seq<char>, out: Out)
    ensures
        grows(out, closure_at(env, s, owner, out)),
{
}

proof fn lemma_closures_grow(env: Env, kids: Seq<Shape>, owner: Seq<char>, out: Out)
    ensures
        grows(out, closures(env, kids, owner, out)),
    decreases kids,
{
    if kids.len() > 0 {
        let had = closures(env, kids.drop_last(), owner, out);
        lemma_closures_grow(env, kids.drop_last(), owner, out);
        let here = closure_at(env, kids.last(), owner, had);
        lemma_closure(env, kids.last(), owner, had);
        lemma_closures_grow(env, kids.last().children, owner, here);
        lemma_grows(out, had, here);
        lemma_grows(out, here, closures(env, kids.last().children, owner, here));
    }
}

proof fn lemma_body_grows(env: Env, s: Shape, id: Seq<char>, out: Out)
    ensures
        grows(out, body_out(env, s, id, out)),
{
    if let Some(body) = child_in(s, "body"@) {
        let here = calls(env, body.children, id, "call_expression"@, false, out);
        lemma_calls_grow(env, body.children, id, "call_expression"@, false, out);
        lemma_closures_grow(env, body.children, id, here);
        lemma_grows(out, here, closures(env, body.children, id, here));
    }
}

spec fn function_node(env: Env, s: Shape, name: Seq<char>, owner: Option<Seq<char>>, out: Out) -> Out {
    let start = Some(line(s.start_row));
    out.node(
        env,
        name,
        "function"@,
        start,
        Some(line(s.end_row)),
        Some(cut(env.text(s), 2000)),
        function_meta(env, s),
    ).owned(owner, env.id(name, "function"@, start), "contains"@)
}

proof fn lemma_function(env: Env, s: Shape, owner: Option<Seq<char>>, out: Out)
    ensures
        grows(out, function(env, s, owner, out)),
        either_text(env, s, "identifier"@, "metavariable"@).len() > 0 ==> has(
            function(env, s, owner, out),
            env,
            s,
            either_text(env, s, "identifier"@, "metavariable"@),
            "function"@,
            Some(s.end_row),
            owner,
        ),
{
    lemma_type_names();
    let name = either_text(env, s, "identifier"@, "metavariable"@);
    if name.len() > 0 {
        let start = Some(line(s.start_row));
        let here = function_node(env, s, name, owner, out);
        lemma_new(
            out,
            env,
            s,
            name,
            "function"@,
            start,
            Some(line(s.end_row)),
            Some(cut(env.text(s), 2000)),
            function_meta(env, s),
            owner,
            Some(s.end_row),
        );
        let after = function(env, s, owner, out);
        lemma_body_grows(env, s, env.id(name, "function"@, start), here);
        lemma_grows(out, here, after);
        lemma_has(here, after, env, s, name, "function"@, Some(s.end_row), owner);
    }
}

proof fn lemma_functions(env: Env, kids: Seq<Shape>, owner: Seq<char>, out: Out)
    ensures
        grows(out, functions(env, kids, owner, out)),
    decreases kids.len(),
{
    if kids.len() > 0 {
        let had = functions(env, kids.drop_last(), owner, out);
        lemma_functions(env, kids.drop_last(), owner, out);
        lemma_function(env, kids.last(), Some(owner), had);
        lemma_grows(out, had, function(env, kids.last(), Some(owner), had));
    }
}

proof fn lemma_one_function(env: Env, kids: Seq<Shape>, owner: Seq<char>, out: Out, i: int) -> (at: Out)
    requires
        0 <= i < kids.len(),
        kids[i].kind == "function_item"@,
    ensures
        grows(function(env, kids[i], Some(owner), at), functions(env, kids, owner, out)),
    decreases kids.len(),
{
    let rest = kids.drop_last();
    let had = functions(env, rest, owner, out);
    lemma_function(env, kids.last(), Some(owner), had);
    if i < rest.len() {
        assert(rest[i] == kids[i]);
        let at = lemma_one_function(env, rest, owner, out, i);
        lemma_grows(function(env, kids[i], Some(owner), at), had, functions(env, kids, owner, out));
        at
    } else {
        had
    }
}

proof fn lemma_types(env: Env, s: Shape, pre: Seq<Shape>, out: Out)
    ensures
        ({
            let name = either_text(env, s, "type_identifier"@, "type_identifier"@);
            &&& grows(out, struct_out(env, s, pre, out))
            &&& grows(out, enum_out(env, s, pre, out))
            &&& grows(out, trait_out(env, s, out))
            &&& name.len() > 0 ==> {
                &&& has(struct_out(env, s, pre, out), env, s, name, "struct"@, Some(s.end_row), None)
                &&& has(enum_out(env, s, pre, out), env, s, name, "enum"@, Some(s.end_row), None)
                &&& has(trait_out(env, s, out), env, s, name, "trait"@, Some(s.end_row), None)
            }
        }),
{
    lemma_type_names();
    let name = either_text(env, s, "type_identifier"@, "type_identifier"@);
    if name.len() > 0 {
        let a = struct_out(env, s, pre, out);
        assert(a.nodes.drop_last() =~= out.nodes);
        lemma_added(out, a, env, s, name, "struct"@, Some(s.end_row));
        let b = enum_out(env, s, pre, out);
        assert(b.nodes.drop_last() =~= out.nodes);
        lemma_added(out, b, env, s, name, "enum"@, Some(s.end_row));
        let c = trait_out(env, s, out);
        assert(c.nodes.drop_last() =~= out.nodes);
        lemma_added(out, c, env, s, name, "trait"@, Some(s.end_row));
    }
}

/// The edge from an impl block to its trait.
pub open spec fn implements_edge(id: Seq<char>, by: Seq<char>) -> CodeEdgeView {
    CodeEdgeView {
        from_id: id,
        to_id: Seq::empty(),
        to_name: Some(by),
        to_type: Some("trait"@),
        edge_type: "implements"@,
        confidence: "INFERRED"@,
    }
}

spec fn impl_node(env: Env, s: Shape, of: Seq<char>, by: Option<Seq<char>>, out: Out) -> Out {
    let m = Meta::empty().push(("impl_for"@, MetaView::Text(of)));
    let m = with_text(m, "impl_trait"@, by).push(("inherent"@, MetaView::Flag(by is None)));
    out.node(env, impl_name(of, by), "impl"@, Some(line(s.start_row)), Some(line(s.end_row)), None, m)
}

spec fn impl_tied(env: Env, s: Shape, of: Seq<char>, by: Option<Seq<char>>, out: Out) -> Out {
    implements(
        env.id(impl_name(of, by), "impl"@, Some(line(s.start_row))),
        by,
        impl_node(env, s, of, by, out),
    )
}

proof fn lemma_impl(env: Env, s: Shape, out: Out)
    ensures
        grows(out, impl_out(env, s, out)),
        field_text(env, s, "type"@) matches Some(of) ==> of.len() > 0 ==> {
            let by = field_text(env, s, "trait"@);
            let name = impl_name(of, by);
            &&& has(impl_out(env, s, out), env, s, name, "impl"@, Some(s.end_row), None)
            &&& by matches Some(t) ==> is_one_line(t) ==> impl_out(env, s, out).edges.contains(
                implements_edge(env.id(name, "impl"@, Some(line(s.start_row))), t),
            )
        },
{
    lemma_type_names();
    let by = field_text(env, s, "trait"@);
    if let Some(of) = field_text(env, s, "type"@) {
        if of.len() > 0 {
            let name = impl_name(of, by);
            let id = env.id(name, "impl"@, Some(line(s.start_row)));
            let here = impl_node(env, s, of, by, out);
            assert(here.nodes.drop_last() =~= out.nodes);
            lemma_added(out, here, env, s, name, "impl"@, Some(s.end_row));
            let tied = impl_tied(env, s, of, by, out);
            assert(grows(here, tied));
            if let Some(t) = by {
                if is_one_line(t) {
                    assert(tied.edges[here.edges.len() as int] == implements_edge(id, t));
                    assert(tied.edges.contains(implements_edge(id, t)));
                }
            }
            let after = impl_out(env, s, out);
            lemma_functions(env, kids_in(s, "body"@), id, tied);
            lemma_keeps(tied, after);
            lemma_grows(out, here, tied);
            lemma_grows(out, tied, after);
            lemma_grows(here, tied, after);
            lemma_has(here, after, env, s, name, "impl"@, Some(s.end_row), None);
        }
    }
}

/// The edge from an owner to what stands in it.
pub open spec fn owner_edge(owner: Seq<char>, id: Seq<char>, edge_type: Seq<char>) -> CodeEdgeView {
    CodeEdgeView {
        from_id: owner,
        to_id: id,
        to_name: None,
        to_type: None,
        edge_type,
        confidence: "EXTRACTED"@,
    }
}

proof fn lemma_use(env: Env, s: Shape, owner: Option<Seq<char>>, out: Out)
    ensures
        grows(out, use_out(env, s, owner, out)),
        has(use_out(env, s, owner, out), env, s, env.text(s), "import"@, None, None),
        owner matches Some(o) ==> use_out(env, s, owner, out).edges.contains(
            owner_edge(o, env.id(env.text(s), "import"@, Some(line(s.start_row))), "imports"@),
        ),
{
    lemma_type_names();
    let here = import_out(env, s, out);
    assert(here.nodes.drop_last() =~= out.nodes);
    lemma_added(out, here, env, s, env.text(s), "import"@, None);
    let after = use_out(env, s, owner, out);
    assert(grows(here, after));
    lemma_grows(out, here, after);
    lemma_has(here, after, env, s, env.text(s), "import"@, None, None);
    if owner is Some {
        assert(after.edges.contains(after.edges[here.edges.len() as int]));
    }
}

spec fn macro_node(env: Env, s: Shape, name: Seq<char>, out: Out) -> Out {
    out.node(env, name, "macro_call"@, Some(line(s.start_row)), None, None, Meta::empty())
}

proof fn lemma_macro(env: Env, s: Shape, owner: Option<Seq<char>>, out: Out)
    ensures
        grows(out, macro_out(env, s, owner, out)),
        either_text(env, s, "identifier"@, "identifier"@).len() > 0 ==> {
            let name = either_text(env, s, "identifier"@, "identifier"@);
            &&& has(macro_out(env, s, owner, out), env, s, name, "macro_call"@, None, None)
            &&& owner matches Some(o) ==> macro_out(env, s, owner, out).edges.contains(
                owner_edge(o, env.id(name, "macro_call"@, Some(line(s.start_row))), "calls"@),
            )
        },
{
    lemma_type_names();
    let name = either_text(env, s, "identifier"@, "identifier"@);
    if name.len() > 0 {
        let here = macro_node(env, s, name, out);
        assert(here.nodes.drop_last() =~= out.nodes);
        lemma_added(out, here, env, s, name, "macro_call"@, None);
        let after = macro_out(env, s, owner, out);
        assert(grows(here, after));
        lemma_grows(out, here, after);
        lemma_has(here, after, env, s, name, "macro_call"@, None, None);
        if owner is Some {
            assert(after.edges.contains(after.edges[here.edges.len() as int]));
        }
    }
}

proof fn lemma_module(env: Env, s: Shape, out: Out)
    ensures
        grows(out, module_out(env, s, out)),
        has(
            module_out(env, s, out),
            env,
            s,
            either_text(env, s, "identifier"@, "identifier"@),
            "module"@,
            Some(s.end_row),
            None,
        ),
{
    lemma_type_names();
    let here = module_out(env, s, out);
    assert(here.nodes.drop_last() =~= out.nodes);
    lemma_added(out, here, env, s, either_text(env, s, "identifier"@, "identifier"@), "module"@, Some(s.end_row));
}

proof fn lemma_mod_grows(env: Env, s: Shape, out: Out)
    ensures
        grows(out, mod_items(env, s, out)),
    decreases s, 0int,
{
    let name = either_text(env, s, "identifier"@, "identifier"@);
    let k = field_place(s.children, "body"@) as int;
    let here = module_out(env, s, out);
    lemma_module(env, s, out);
    if name.len() > 0 && k < s.children.len() {
        lemma_items_grow(env, s.children[k].children, Some(env.id(name, "module"@, Some(line(s.start_row)))), here);
        lemma_grows(out, here, mod_items(env, s, out));
    }
}

proof fn lemma_last_grows(env: Env, kids: Seq<Shape>, owner: Option<Seq<char>>, out: Out)
    ensures
        grows(out, last_item(env, kids, owner, out)),
    decreases kids, 0int,
{
    let s = kids.last();
    let pre = kids.drop_last();
    if kids.len() > 0 {
        lemma_function(env, s, owner, out);
        lemma_types(env, s, pre, out);
        lemma_impl(env, s, out);
        lemma_use(env, s, owner, out);
        lemma_macro(env, s, owner, out);
        if s.kind == "mod_item"@ {
            lemma_mod_grows(env, s, out);
        } else if !is_item(env, s.kind) {
            lemma_items_grow(env, s.children, owner, out);
        }
    }
}

proof fn lemma_items_grow(env: Env, kids: Seq<Shape>, owner: Option<Seq<char>>, out: Out)
    ensures
        grows(out, items(env, kids, owner, out)),
    decreases kids, 1int,
{
    if kids.len() > 0 {
        let had = items(env, kids.drop_last(), owner, out);
        lemma_items_grow(env, kids.drop_last(), owner, out);
        lemma_last_grows(env, kids, owner, had);
        lemma_grows(out, had, items(env, kids, owner, out));
    }
}

proof fn lemma_one_item(env: Env, kids: Seq<Shape>, owner: Option<Seq<char>>, out: Out, i: int) -> (at: Out)
    requires
        0 <= i < kids.len(),
    ensures
        grows(last_item(env, kids.take(i + 1), owner, at), items(env, kids, owner, out)),
    decreases kids.len(),
{
    let rest = kids.drop_last();
    let had = items(env, rest, owner, out);
    lemma_last_grows(env, kids, owner, had);
    if i < rest.len() {
        assert(rest.take(i + 1) =~= kids.take(i + 1));
        let at = lemma_one_item(env, rest, owner, out, i);
        lemma_grows(last_item(env, kids.take(i + 1), owner, at), had, items(env, kids, owner, out));
        at
    } else {
        assert(kids.take(i + 1) =~= kids);
        had
    }
}

/// What an open way leads to is visited, with its holder as its owner.
proof fn lemma_visited(env: Env, kids: Seq<Shape>, owner: Option<Seq<char>>, out: Out, i: int, path: Seq<int>) -> (at: Out)
    requires
        0 <= i < kids.len(),
        is_open(env, kids[i], path),
    ensures
        grows(
            last_item(
                env,
                before(kids, i, path).push(at_path(kids[i], path)),
                holder(env, kids[i], path, owner),
                at,
            ),
            items(env, kids, owner, out),
        ),
    decreases path.len(),
{
    let s = kids[i];
    let here = lemma_one_item(env, kids, owner, out, i);
    let pre = kids.take(i + 1);
    assert(pre =~= kids.take(i).push(s));
    assert(pre.last() == s);
    if path.len() == 0 {
        here
    } else if s.kind == "mod_item"@ {
        lemma_kinds();
        let name = choose|name: Seq<char>| name.len() > 0 && #[trigger] is_kind_text(env, s, "identifier"@, name);
        lemma_kind_text(env, s, "identifier"@, name);
        lemma_kind_text(env, s, "identifier"@, name_of(env, s));
        lemma_first_in(s, "body"@, path[0]);
        let id = env.id(name, "module"@, Some(line(s.start_row)));
        let body = s.children[path[0]];
        let rest = path.skip(2);
        assert(path.skip(1).skip(1) =~= rest);
        assert(path.skip(1)[0] == path[1]);
        assert(at_path(s, path) == at_path(body, path.skip(1)));
        assert(before(kids, i, path) == before(s.children, path[0], path.skip(1)));
        let at = lemma_visited(env, body.children, Some(id), module_out(env, s, here), path[1], rest);
        lemma_grows(
            last_item(env, before(kids, i, path).push(at_path(s, path)), holder(env, s, path, owner), at),
            items(env, body.children, Some(id), module_out(env, s, here)),
            items(env, kids, owner, out),
        );
        at
    } else {
        let at = lemma_visited(env, s.children, owner, here, path[0], path.skip(1));
        lemma_grows(
            last_item(env, before(kids, i, path).push(at_path(s, path)), holder(env, s, path, owner), at),
            items(env, s.children, owner, here),
            items(env, kids, owner, out),
        );
        at
    }
}

proof fn lemma_kinds()
    ensures
        "function_item"@ != "struct_item"@,
        "function_item"@ != "enum_item"@,
        "function_item"@ != "trait_item"@,
        "function_item"@ != "impl_item"@,
        "function_item"@ != "use_declaration"@,
        "function_item"@ != "mod_item"@,
        "function_item"@ != "macro_invocation"@,
        "struct_item"@ != "enum_item"@,
        "struct_item"@ != "trait_item"@,
        "struct_item"@ != "impl_item"@,
        "struct_item"@ != "use_declaration"@,
        "struct_item"@ != "mod_item"@,
        "struct_item"@ != "macro_invocation"@,
        "enum_item"@ != "trait_item"@,
        "enum_item"@ != "impl_item"@,
        "enum_item"@ != "use_declaration"@,
        "enum_item"@ != "mod_item"@,
        "enum_item"@ != "macro_invocation"@,
        "trait_item"@ != "impl_item"@,
        "trait_item"@ != "use_declaration"@,
        "trait_item"@ != "mod_item"@,
        "trait_item"@ != "macro_invocation"@,
        "impl_item"@ != "use_declaration"@,
        "impl_item"@ != "mod_item"@,
        "impl_item"@ != "macro_invocation"@,
        "use_declaration"@ != "mod_item"@,
        "use_declaration"@ != "macro_invocation"@,
        "mod_item"@ != "macro_invocation"@,
{
    reveal_strlit("function_item");
    reveal_strlit("struct_item");
    reveal_strlit("enum_item");
    reveal_strlit("trait_item");
    reveal_strlit("impl_item");
    reveal_strlit("use_declaration");
    reveal_strlit("mod_item");
    reveal_strlit("macro_invocation");
    assert("function_item"@[0] == 'f' && "struct_item"@[0] == 's' && "enum_item"@[0] == 'e');
    assert("trait_item"@[0] == 't' && "impl_item"@[0] == 'i' && "use_declaration"@[0] == 'u');
    assert("mod_item"@[0] == 'm' && "mod_item"@[1] == 'o' && "macro_invocation"@[0] == 'm' && "macro_invocation"@[1] == 'a');
}

// ---- what is found --------------------------------------------------------------------------

/// The name of a function: its first identifier, or where it has none its first
/// metavariable.
pub open spec fn is_function_name(env: Env, s: Shape, name: Seq<char>) -> bool {
    is_kind_text(env, s, "identifier"@, name) || (has_none_of(s, "identifier"@) && is_kind_text(
        env,
        s,
        "metavariable"@,
        name,
    ))
}

proof fn lemma_function_name(env: Env, s: Shape, name: Seq<char>)
    requires
        is_function_name(env, s, name),
    ensures
        either_text(env, s, "identifier"@, "metavariable"@) == name,
{
    if is_kind_text(env, s, "identifier"@, name) {
        lemma_kind_text(env, s, "identifier"@, name);
    } else {
        lemma_other_text(env, s, "identifier"@, "metavariable"@, name);
    }
}

/// Every call in a function's body is found, unless the index is made fast.
pub open spec fn has_calls(out: Out, env: Env, s: Shape, id: Seq<char>) -> bool {
    forall|body: int, i: int, way: Seq<int>, callee: Seq<char>|
        env.tier != IndexingTier::Fast && #[trigger] is_call_in(env, s, "call_expression"@, false, body, i, way, callee)
            ==> out.edges.contains(call_edge(id, callee))
}

/// A closure that a node binds to a name.
pub open spec fn is_closure(env: Env, s: Shape, value: int, pattern: int) -> bool {
    &&& s.kind == "let_declaration"@
    &&& is_first_in(s, "value"@, value)
    &&& is_first_in(s, "pattern"@, pattern)
    &&& s.children[value].kind == "closure_expression"@
    &&& s.children[pattern].kind == "identifier"@
    &&& env.text(s.children[pattern]).len() > 0
}

/// A closure with a name that stands somewhere in a function's body.
pub open spec fn is_closure_in(env: Env, s: Shape, body: int, i: int, way: Seq<int>, value: int, pattern: int) -> bool {
    &&& is_first_in(s, "body"@, body)
    &&& 0 <= i < s.children[body].children.len()
    &&& is_path(s.children[body].children[i], way)
    &&& is_closure(env, at_path(s.children[body].children[i], way), value, pattern)
}

/// Every closure with a name in a function's body is found, as a function that
/// the function holds, unless the index is made fast.
pub open spec fn has_closures(out: Out, env: Env, s: Shape, id: Seq<char>) -> bool {
    forall|body: int, i: int, way: Seq<int>, value: int, pattern: int|
        env.tier != IndexingTier::Fast && #[trigger] is_closure_in(env, s, body, i, way, value, pattern) ==> ({
            let c = at_path(s.children[body].children[i], way);
            has(
                out,
                env,
                c,
                env.text(c.children[pattern]),
                "function"@,
                Some(c.children[value].end_row),
                Some(id),
            )
        })
}

proof fn lemma_closure_found(env: Env, kids: Seq<Shape>, owner: Seq<char>, out: Out, i: int, way: Seq<int>, value: int, pattern: int)
    requires
        0 <= i < kids.len(),
        is_path(kids[i], way),
        is_closure(env, at_path(kids[i], way), value, pattern),
    ensures
        ({
            let c = at_path(kids[i], way);
            has(
                closures(env, kids, owner, out),
                env,
                c,
                env.text(c.children[pattern]),
                "function"@,
                Some(c.children[value].end_row),
                Some(owner),
            )
        }),
    decreases kids,
{
    lemma_type_names();
    let rest = kids.drop_last();
    let had = closures(env, rest, owner, out);
    let here = closure_at(env, kids.last(), owner, had);
    let below = kids.last().children;
    let after = closures(env, below, owner, here);
    lemma_closure(env, kids.last(), owner, had);
    lemma_closures_grow(env, below, owner, here);
    let c = at_path(kids[i], way);
    let name = env.text(c.children[pattern]);
    let end = Some(c.children[value].end_row);
    if i < rest.len() {
        assert(rest[i] == kids[i]);
        lemma_closure_found(env, rest, owner, out, i, way, value, pattern);
        lemma_grows(had, here, after);
        lemma_has(had, after, env, c, name, "function"@, end, Some(owner));
    } else if way.len() == 0 {
        lemma_first_in(c, "value"@, value);
        lemma_first_in(c, "pattern"@, pattern);
        lemma_new(
            had,
            env,
            c,
            name,
            "function"@,
            Some(line(c.start_row)),
            Some(line(c.children[value].end_row)),
            Some(cut(env.text(c), 2000)),
            Meta::empty(),
            Some(owner),
            end,
        );
        lemma_has(here, after, env, c, name, "function"@, end, Some(owner));
    } else {
        lemma_closure_found(env, below, owner, here, way[0], way.skip(1), value, pattern);
    }
}

/// What a function's body holds is found with it.
proof fn lemma_body(env: Env, s: Shape, name: Seq<char>, owner: Option<Seq<char>>, at: Out, after: Out)
    requires
        is_function_name(env, s, name),
        name.len() > 0,
        grows(function(env, s, owner, at), after),
    ensures
        has(after, env, s, name, "function"@, Some(s.end_row), owner),
        has_calls(after, env, s, env.id(name, "function"@, Some(line(s.start_row)))),
        has_closures(after, env, s, env.id(name, "function"@, Some(line(s.start_row)))),
{
    lemma_function_name(env, s, name);
    lemma_function(env, s, owner, at);
    let made = function(env, s, owner, at);
    let id = env.id(name, "function"@, Some(line(s.start_row)));
    let here = function_node(env, s, name, owner, at);
    lemma_has(made, after, env, s, name, "function"@, Some(s.end_row), owner);
    lemma_keeps(made, after);
    assert forall|body: int, i: int, way: Seq<int>, callee: Seq<char>|
        env.tier != IndexingTier::Fast && #[trigger] is_call_in(env, s, "call_expression"@, false, body, i, way, callee) implies after.edges.contains(
    call_edge(id, callee)) by {
        lemma_first_in(s, "body"@, body);
        let kids = s.children[body].children;
        lemma_call_in(env, s, "call_expression"@, false, id, here, body, i, way, callee);
        let called = calls(env, kids, id, "call_expression"@, false, here);
        lemma_closures_grow(env, kids, id, called);
        lemma_keeps(called, made);
    }
    assert forall|body: int, i: int, way: Seq<int>, value: int, pattern: int|
        env.tier != IndexingTier::Fast && #[trigger] is_closure_in(env, s, body, i, way, value, pattern) implies ({
        let c = at_path(s.children[body].children[i], way);
        has(after, env, c, env.text(c.children[pattern]), "function"@, Some(c.children[value].end_row), Some(id))
    }) by {
        lemma_first_in(s, "body"@, body);
        let kids = s.children[body].children;
        let called = calls(env, kids, id, "call_expression"@, false, here);
        let c = at_path(kids[i], way);
        lemma_closure_found(env, kids, id, called, i, way, value, pattern);
        lemma_has(
            made,
            after,
            env,
            c,
            env.text(c.children[pattern]),
            "function"@,
            Some(c.children[value].end_row),
            Some(id),
        );
    }
}

/// Every function with a name that an open way leads to is found, held by the
/// module around it, with its calls and its named closures.
pub proof fn every_function_is_found(env: Env, kids: Seq<Shape>, out: Out, i: int, path: Seq<int>, name: Seq<char>)
    requires
        0 <= i < kids.len(),
        is_open(env, kids[i], path),
        at_path(kids[i], path).kind == "function_item"@,
        is_function_name(env, at_path(kids[i], path), name),
        name.len() > 0,
    ensures
        ({
            let s = at_path(kids[i], path);
            let after = items(env, kids, None, out);
            let id = env.id(name, "function"@, Some(line(s.start_row)));
            &&& has(after, env, s, name, "function"@, Some(s.end_row), holder(env, kids[i], path, None))
            &&& has_calls(after, env, s, id)
            &&& has_closures(after, env, s, id)
        }),
{
    let s = at_path(kids[i], path);
    let at = lemma_visited(env, kids, None, out, i, path);
    assert(before(kids, i, path).push(s).last() == s);
    lemma_body(env, s, name, holder(env, kids[i], path, None), at, items(env, kids, None, out));
}

/// Every struct, enum and trait with a name that an open way leads to is found.
pub proof fn every_type_is_found(env: Env, kids: Seq<Shape>, out: Out, i: int, path: Seq<int>, name: Seq<char>)
    requires
        0 <= i < kids.len(),
        is_open(env, kids[i], path),
        is_kind_text(env, at_path(kids[i], path), "type_identifier"@, name),
        name.len() > 0,
    ensures
        ({
            let s = at_path(kids[i], path);
            let after = items(env, kids, None, out);
            &&& s.kind == "struct_item"@ ==> has(after, env, s, name, "struct"@, Some(s.end_row), None)
            &&& s.kind == "enum_item"@ ==> has(after, env, s, name, "enum"@, Some(s.end_row), None)
            &&& s.kind == "trait_item"@ ==> has(after, env, s, name, "trait"@, Some(s.end_row), None)
        }),
{
    let s = at_path(kids[i], path);
    let after = items(env, kids, None, out);
    let at = lemma_visited(env, kids, None, out, i, path);
    let pre = before(kids, i, path);
    assert(pre.push(s).last() == s);
    assert(pre.push(s).drop_last() =~= pre);
    lemma_kinds();
    lemma_kind_text(env, s, "type_identifier"@, name);
    lemma_types(env, s, pre, at);
    if s.kind == "struct_item"@ {
        lemma_has(struct_out(env, s, pre, at), after, env, s, name, "struct"@, Some(s.end_row), None);
    } else if s.kind == "enum_item"@ {
        lemma_has(enum_out(env, s, pre, at), after, env, s, name, "enum"@, Some(s.end_row), None);
    } else if s.kind == "trait_item"@ {
        lemma_has(trait_out(env, s, at), after, env, s, name, "trait"@, Some(s.end_row), None);
    }
}

/// Every impl block that an open way leads to is found: under `impl T for S` or
/// `impl S`, tied to its trait by name.
pub proof fn every_impl_is_found(env: Env, kids: Seq<Shape>, out: Out, i: int, path: Seq<int>, of: Seq<char>, by: Option<Seq<char>>)
    requires
        0 <= i < kids.len(),
        is_open(env, kids[i], path),
        at_path(kids[i], path).kind == "impl_item"@,
        is_impl(env, at_path(kids[i], path), of, by),
    ensures
        ({
            let s = at_path(kids[i], path);
            let after = items(env, kids, None, out);
            let name = match by {
                Some(t) => "impl "@ + t + " for "@ + of,
                None => "impl "@ + of,
            };
            &&& has(after, env, s, name, "impl"@, Some(s.end_row), None)
            &&& by matches Some(t) ==> is_one_line(t) ==> after.edges.contains(
                implements_edge(env.id(name, "impl"@, Some(line(s.start_row))), t),
            )
        }),
{
    let s = at_path(kids[i], path);
    let after = items(env, kids, None, out);
    let at = lemma_visited(env, kids, None, out, i, path);
    let pre = before(kids, i, path);
    assert(pre.push(s).last() == s);
    lemma_kinds();
    lemma_is_impl(env, s, of, by);
    lemma_impl(env, s, at);
    lemma_keeps(impl_out(env, s, at), after);
    lemma_has(impl_out(env, s, at), after, env, s, impl_name(of, by), "impl"@, Some(s.end_row), None);
}

/// An impl block of a trait, or of none, for a type.
pub open spec fn is_impl(env: Env, s: Shape, of: Seq<char>, by: Option<Seq<char>>) -> bool {
    &&& is_field_text(env, s, "type"@, of)
    &&& of.len() > 0
    &&& match by {
        Some(t) => is_field_text(env, s, "trait"@, t),
        None => forall|j: int| 0 <= j < s.children.len() ==> (#[trigger] s.children[j]).field != Some("trait"@),
    }
}

proof fn lemma_is_impl(env: Env, s: Shape, of: Seq<char>, by: Option<Seq<char>>)
    requires
        is_impl(env, s, of, by),
    ensures
        field_text(env, s, "type"@) == Some(of),
        field_text(env, s, "trait"@) == by,
{
    lemma_field_text(env, s, "type"@, of);
    match by {
        Some(t) => lemma_field_text(env, s, "trait"@, t),
        None => lemma_no_field(s, "trait"@),
    }
}

/// An impl block holds every function with a name in its body, with its calls
/// and its named closures.
pub proof fn an_impl_holds_its_functions(
    env: Env,
    kids: Seq<Shape>,
    out: Out,
    i: int,
    path: Seq<int>,
    of: Seq<char>,
    by: Option<Seq<char>>,
    body: int,
    j: int,
    name: Seq<char>,
)
    requires
        0 <= i < kids.len(),
        is_open(env, kids[i], path),
        at_path(kids[i], path).kind == "impl_item"@,
        is_impl(env, at_path(kids[i], path), of, by),
        is_first_in(at_path(kids[i], path), "body"@, body),
        0 <= j < at_path(kids[i], path).children[body].children.len(),
        at_path(kids[i], path).children[body].children[j].kind == "function_item"@,
        is_function_name(env, at_path(kids[i], path).children[body].children[j], name),
        name.len() > 0,
    ensures
        ({
            let s = at_path(kids[i], path);
            let f = s.children[body].children[j];
            let after = items(env, kids, None, out);
            let block = match by {
                Some(t) => "impl "@ + t + " for "@ + of,
                None => "impl "@ + of,
            };
            let id = env.id(name, "function"@, Some(line(f.start_row)));
            &&& has(
                after,
                env,
                f,
                name,
                "function"@,
                Some(f.end_row),
                Some(env.id(block, "impl"@, Some(line(s.start_row)))),
            )
            &&& has_calls(after, env, f, id)
            &&& has_closures(after, env, f, id)
        }),
{
    let s = at_path(kids[i], path);
    let after = items(env, kids, None, out);
    let at = lemma_visited(env, kids, None, out, i, path);
    let pre = before(kids, i, path);
    assert(pre.push(s).last() == s);
    lemma_kinds();
    lemma_is_impl(env, s, of, by);
    lemma_first_in(s, "body"@, body);
    let inner = s.children[body].children;
    let owner = env.id(impl_name(of, by), "impl"@, Some(line(s.start_row)));
    let mid = lemma_one_function(env, inner, owner, impl_tied(env, s, of, by, at), j);
    lemma_grows(function(env, inner[j], Some(owner), mid), impl_out(env, s, at), after);
    lemma_body(env, inner[j], name, Some(owner), mid, after);
}

/// Every import that an open way leads to is found under its own text, and
/// belongs to the module around it.
pub proof fn every_import_is_found(env: Env, kids: Seq<Shape>, out: Out, i: int, path: Seq<int>)
    requires
        0 <= i < kids.len(),
        is_open(env, kids[i], path),
        at_path(kids[i], path).kind == "use_declaration"@,
    ensures
        ({
            let s = at_path(kids[i], path);
            let after = items(env, kids, None, out);
            &&& has(after, env, s, env.text(s), "import"@, None, None)
            &&& holder(env, kids[i], path, None) matches Some(o) ==> after.edges.contains(
                owner_edge(o, env.id(env.text(s), "import"@, Some(line(s.start_row))), "imports"@),
            )
        }),
{
    let s = at_path(kids[i], path);
    let after = items(env, kids, None, out);
    let at = lemma_visited(env, kids, None, out, i, path);
    assert(before(kids, i, path).push(s).last() == s);
    lemma_kinds();
    let owner = holder(env, kids[i], path, None);
    lemma_use(env, s, owner, at);
    lemma_keeps(use_out(env, s, owner, at), after);
    lemma_has(use_out(env, s, owner, at), after, env, s, env.text(s), "import"@, None, None);
}

/// Every module with a name that an open way leads to is found.
pub proof fn every_module_is_found(env: Env, kids: Seq<Shape>, out: Out, i: int, path: Seq<int>, name: Seq<char>)
    requires
        0 <= i < kids.len(),
        is_open(env, kids[i], path),
        at_path(kids[i], path).kind == "mod_item"@,
        is_kind_text(env, at_path(kids[i], path), "identifier"@, name),
        name.len() > 0,
    ensures
        has(
            items(env, kids, None, out),
            env,
            at_path(kids[i], path),
            name,
            "module"@,
            Some(at_path(kids[i], path).end_row),
            None,
        ),
{
    let s = at_path(kids[i], path);
    let after = items(env, kids, None, out);
    let at = lemma_visited(env, kids, None, out, i, path);
    assert(before(kids, i, path).push(s).last() == s);
    lemma_kinds();
    lemma_kind_text(env, s, "identifier"@, name);
    lemma_module(env, s, at);
    let here = module_out(env, s, at);
    let made = mod_items(env, s, at);
    let k = field_place(s.children, "body"@) as int;
    if k < s.children.len() {
        lemma_items_grow(env, s.children[k].children, Some(env.id(name, "module"@, Some(line(s.start_row)))), here);
    }
    lemma_grows(here, made, after);
    lemma_has(here, after, env, s, name, "module"@, Some(s.end_row), None);
}

/// A full index finds every macro call with a name that an open way leads to,
/// and the module around it makes the call.
pub proof fn every_macro_call_is_found(env: Env, kids: Seq<Shape>, out: Out, i: int, path: Seq<int>, name: Seq<char>)
    requires
        0 <= i < kids.len(),
        env.tier == IndexingTier::Full,
        is_open(env, kids[i], path),
        at_path(kids[i], path).kind == "macro_invocation"@,
        is_kind_text(env, at_path(kids[i], path), "identifier"@, name),
        name.len() > 0,
    ensures
        ({
            let s = at_path(kids[i], path);
            let after = items(env, kids, None, out);
            &&& has(after, env, s, name, "macro_call"@, None, None)
            &&& holder(env, kids[i], path, None) matches Some(o) ==> after.edges.contains(
                owner_edge(o, env.id(name, "macro_call"@, Some(line(s.start_row))), "calls"@),
            )
        }),
{
    let s = at_path(kids[i], path);
    let after = items(env, kids, None, out);
    let at = lemma_visited(env, kids, None, out, i, path);
    assert(before(kids, i, path).push(s).last() == s);
    lemma_kinds();
    lemma_kind_text(env, s, "identifier"@, name);
    let owner = holder(env, kids[i], path, None);
    lemma_macro(env, s, owner, at);
    lemma_keeps(macro_out(env, s, owner, at), after);
    lemma_has(macro_out(env, s, owner, at), after, env, s, name, "macro_call"@, None, None);
}

/// An impl block notes the type that it is for, its trait where it has one, and
/// whether it has none.
pub proof fn an_impl_notes_what_it_is_for(env: Env, s: Shape, out: Out, of: Seq<char>, by: Option<Seq<char>>)
    requires
        is_impl(env, s, of, by),
    ensures
        next(out, impl_out(env, s, out)).metadata == seq![("impl_for"@, MetaView::Text(of))] + text("impl_trait"@, by)
            + seq![("inherent"@, MetaView::Flag(by is None))],
{
    lemma_is_impl(env, s, of, by);
    let here = impl_node(env, s, of, by, out);
    let tied = impl_tied(env, s, of, by, out);
    let id = env.id(impl_name(of, by), "impl"@, Some(line(s.start_row)));
    assert(grows(here, tied));
    lemma_functions(env, kids_in(s, "body"@), id, tied);
    lemma_grows(here, tied, impl_out(env, s, out));
    assert(impl_out(env, s, out).nodes[out.nodes.len() as int] == here.nodes[out.nodes.len() as int]);
    assert(next(out, here).metadata =~= seq![("impl_for"@, MetaView::Text(of))] + text("impl_trait"@, by) + seq![
        ("inherent"@, MetaView::Flag(by is None)),
    ]);
}

/// A module notes whether it is public.
pub proof fn a_module_notes_whether_it_is_public(env: Env, s: Shape, out: Out)
    ensures
        next(out, module_out(env, s, out)).metadata == text(
            "visibility"@,
            if begins_with(env.text(s), "pub "@) {
                Some("public"@)
            } else {
                None
            },
        ),
{
    assert(next(out, module_out(env, s, out)).metadata =~= text(
        "visibility"@,
        if begins_with(env.text(s), "pub "@) {
            Some("public"@)
        } else {
            None
        },
    ));
}

// ---- nothing else is found ------------------------------------------------------------------

/// The node of a function, a type, an impl or a module that has a name, of a use
/// declaration, of a variable that is bound to a closure unless the index is
/// made fast, or of a macro call where the index is full.
pub open spec fn is_made(n: CodeView, env: Env, t: Shape) -> bool {
    ||| t.kind == "function_item"@ && stands_at(n, env, t, "function"@) && n.name == either_text(
        env,
        t,
        "identifier"@,
        "metavariable"@,
    ) && n.name.len() > 0
    ||| t.kind == "let_declaration"@ && env.tier != IndexingTier::Fast && stands_at(n, env, t, "function"@) && (child_in(
        t,
        "value"@,
    ) matches Some(value) && value.kind == "closure_expression"@) && (child_in(t, "pattern"@) matches Some(pattern)
        && pattern.kind == "identifier"@ && n.name == env.text(pattern)) && n.name.len() > 0
    ||| t.kind == "struct_item"@ && stands_at(n, env, t, "struct"@) && is_kind_text(env, t, "type_identifier"@, n.name)
    ||| t.kind == "enum_item"@ && stands_at(n, env, t, "enum"@) && is_kind_text(env, t, "type_identifier"@, n.name)
    ||| t.kind == "trait_item"@ && stands_at(n, env, t, "trait"@) && is_kind_text(env, t, "type_identifier"@, n.name)
    ||| t.kind == "impl_item"@ && stands_at(n, env, t, "impl"@) && (field_text(env, t, "type"@) matches Some(of) && of.len()
        > 0 && n.name == impl_name(of, field_text(env, t, "trait"@)))
    ||| t.kind == "use_declaration"@ && stands_at(n, env, t, "import"@) && n.name == env.text(t)
    ||| t.kind == "mod_item"@ && stands_at(n, env, t, "module"@) && is_kind_text(env, t, "identifier"@, n.name)
    ||| t.kind == "macro_invocation"@ && env.tier == IndexingTier::Full && stands_at(n, env, t, "macro_call"@)
        && is_kind_text(env, t, "identifier"@, n.name)
}

/// An edge to a function, a use declaration or a macro call from what it stands
/// in, from an impl to the trait, or from a function to what is called in it.
pub open spec fn is_tied(e: CodeEdgeView, env: Env, t: Shape) -> bool {
    exists|n: CodeView| #[trigger]
        is_made(n, env, t) && {
            ||| n.node_type == "function"@ && e == owner_edge(e.from_id, n.id, "contains"@)
            ||| n.node_type == "import"@ && e == owner_edge(e.from_id, n.id, "imports"@)
            ||| n.node_type == "macro_call"@ && e == owner_edge(e.from_id, n.id, "calls"@)
            ||| n.node_type == "impl"@ && field_text(env, t, "trait"@) is Some && e == implements_edge(
                n.id,
                field_text(env, t, "trait"@)->0,
            )
            ||| env.tier != IndexingTier::Fast && t.kind == "function_item"@ && is_call_below(
                e,
                env,
                t,
                n.id,
                "call_expression"@,
                false,
            )
        }
}

pub open spec fn made_fn(env: Env) -> spec_fn(CodeView, Shape) -> bool {
    |n: CodeView, t: Shape| is_made(n, env, t)
}

pub open spec fn tied_fn(env: Env) -> spec_fn(CodeEdgeView, Shape) -> bool {
    |e: CodeEdgeView, t: Shape| is_tied(e, env, t)
}

proof fn lemma_closures_add(env: Env, root: Shape, kids: Seq<Shape>, owner: Seq<char>, out: Out)
    requires
        env.tier != IndexingTier::Fast,
        forall|i: int| 0 <= i < kids.len() ==> is_below(#[trigger] kids[i], root),
    ensures
        adds(out, closures(env, kids, owner, out), root, made_fn(env), tied_fn(env)),
    decreases kids,
{
    if kids.len() > 0 {
        let f = made_fn(env);
        let g = tied_fn(env);
        let rest = kids.drop_last();
        assert forall|i: int| 0 <= i < rest.len() implies is_below(#[trigger] rest[i], root) by {
            assert(rest[i] == kids[i]);
        }
        let last = kids[kids.len() - 1];
        assert(is_below(last, root));
        let had = closures(env, rest, owner, out);
        lemma_closures_add(env, root, rest, owner, out);
        let here = closure_at(env, last, owner, had);
        if here != had {
            let mid = Out { nodes: here.nodes, edges: had.edges };
            assert(mid.nodes.drop_last() =~= had.nodes);
            assert(is_made(mid.nodes.last(), env, last));
            lemma_adds_node(had, mid, last, root, f, g);
            assert(here.edges.drop_last() =~= mid.edges);
            assert(is_tied(here.edges.last(), env, last));
            lemma_adds_edge(mid, here, last, root, f, g);
            lemma_adds(had, mid, here, root, f, g);
        }
        lemma_adds(out, had, here, root, f, g);
        lemma_below(root, last);
        lemma_closures_add(env, root, last.children, owner, here);
        lemma_adds(out, here, closures(env, last.children, owner, here), root, f, g);
    }
}

proof fn lemma_function_adds(env: Env, root: Shape, s: Shape, owner: Option<Seq<char>>, out: Out)
    requires
        is_below(s, root),
        s.kind == "function_item"@,
    ensures
        adds(out, function(env, s, owner, out), root, made_fn(env), tied_fn(env)),
{
    let f = made_fn(env);
    let g = tied_fn(env);
    let name = either_text(env, s, "identifier"@, "metavariable"@);
    if name.len() > 0 {
        let id = env.id(name, "function"@, Some(line(s.start_row)));
        let here = function_node(env, s, name, owner, out);
        let mid = Out { nodes: here.nodes, edges: out.edges };
        let n = mid.nodes.last();
        assert(mid.nodes.drop_last() =~= out.nodes);
        assert(is_made(n, env, s));
        lemma_adds_node(out, mid, s, root, f, g);
        if owner is Some {
            assert(here.edges.drop_last() =~= mid.edges);
            assert(is_tied(here.edges.last(), env, s));
        }
        lemma_adds_edge(mid, here, s, root, f, g);
        lemma_adds(out, mid, here, root, f, g);
        if env.tier != IndexingTier::Fast {
            if let Some(body) = child_in(s, "body"@) {
                lemma_below_self(s);
                lemma_below_in(s, s, "body"@);
                lemma_below(s, body);
                lemma_below_in(root, s, "body"@);
                lemma_below(root, body);
                assert forall|e: CodeEdgeView| #[trigger]
                    is_call_below(e, env, s, id, "call_expression"@, false) implies g(e, s) by {
                    assert(is_made(n, env, s));
                }
                lemma_calls_add(env, s, body.children, id, "call_expression"@, false, here, root, f, g);
                let called = calls(env, body.children, id, "call_expression"@, false, here);
                lemma_adds(out, here, called, root, f, g);
                lemma_closures_add(env, root, body.children, id, called);
                lemma_adds(out, called, function(env, s, owner, out), root, f, g);
            }
        }
    }
}

proof fn lemma_functions_add(env: Env, root: Shape, kids: Seq<Shape>, owner: Seq<char>, out: Out)
    requires
        forall|i: int| 0 <= i < kids.len() ==> is_below(#[trigger] kids[i], root),
    ensures
        adds(out, functions(env, kids, owner, out), root, made_fn(env), tied_fn(env)),
    decreases kids.len(),
{
    if kids.len() > 0 {
        let rest = kids.drop_last();
        assert forall|i: int| 0 <= i < rest.len() implies is_below(#[trigger] rest[i], root) by {
            assert(rest[i] == kids[i]);
        }
        let last = kids[kids.len() - 1];
        assert(is_below(last, root));
        let had = functions(env, rest, owner, out);
        lemma_functions_add(env, root, rest, owner, out);
        if last.kind == "function_item"@ {
            lemma_function_adds(env, root, last, Some(owner), had);
            lemma_adds(out, had, function(env, last, Some(owner), had), root, made_fn(env), tied_fn(env));
        }
    }
}

proof fn lemma_impl_adds(env: Env, root: Shape, s: Shape, out: Out)
    requires
        is_below(s, root),
        s.kind == "impl_item"@,
    ensures
        adds(out, impl_out(env, s, out), root, made_fn(env), tied_fn(env)),
{
    let f = made_fn(env);
    let g = tied_fn(env);
    let by = field_text(env, s, "trait"@);
    if let Some(of) = field_text(env, s, "type"@) {
        if of.len() > 0 {
            let mid = impl_node(env, s, of, by, out);
            let n = mid.nodes.last();
            assert(mid.nodes.drop_last() =~= out.nodes);
            assert(is_made(n, env, s));
            lemma_adds_node(out, mid, s, root, f, g);
            let here = impl_tied(env, s, of, by, out);
            if here != mid {
                assert(here.edges.drop_last() =~= mid.edges);
                assert(is_tied(here.edges.last(), env, s));
            }
            lemma_adds_edge(mid, here, s, root, f, g);
            lemma_adds(out, mid, here, root, f, g);
            lemma_below_in(root, s, "body"@);
            lemma_functions_add(env, root, kids_in(s, "body"@), n.id, here);
            lemma_adds(out, here, impl_out(env, s, out), root, f, g);
        }
    }
}

proof fn lemma_plain_adds(env: Env, root: Shape, s: Shape, pre: Seq<Shape>, owner: Option<Seq<char>>, out: Out)
    requires
        is_below(s, root),
    ensures
        s.kind == "struct_item"@ ==> adds(out, struct_out(env, s, pre, out), root, made_fn(env), tied_fn(env)),
        s.kind == "enum_item"@ ==> adds(out, enum_out(env, s, pre, out), root, made_fn(env), tied_fn(env)),
        s.kind == "trait_item"@ ==> adds(out, trait_out(env, s, out), root, made_fn(env), tied_fn(env)),
        s.kind == "use_declaration"@ ==> adds(out, use_out(env, s, owner, out), root, made_fn(env), tied_fn(env)),
        s.kind == "macro_invocation"@ && env.tier == IndexingTier::Full ==> adds(
            out,
            macro_out(env, s, owner, out),
            root,
            made_fn(env),
            tied_fn(env),
        ),
{
    lemma_kinds();
    let f = made_fn(env);
    let g = tied_fn(env);
    lemma_read_name(env, s, "type_identifier"@);
    lemma_read_name(env, s, "identifier"@);
    if either_text(env, s, "type_identifier"@, "type_identifier"@).len() > 0 {
        if s.kind == "struct_item"@ {
            let a = struct_out(env, s, pre, out);
            assert(a.nodes.drop_last() =~= out.nodes);
            lemma_adds_node(out, a, s, root, f, g);
        } else if s.kind == "enum_item"@ {
            let a = enum_out(env, s, pre, out);
            assert(a.nodes.drop_last() =~= out.nodes);
            lemma_adds_node(out, a, s, root, f, g);
        } else if s.kind == "trait_item"@ {
            let a = trait_out(env, s, out);
            assert(a.nodes.drop_last() =~= out.nodes);
            lemma_adds_node(out, a, s, root, f, g);
        }
    }
    if s.kind == "use_declaration"@ {
        let mid = import_out(env, s, out);
        assert(mid.nodes.drop_last() =~= out.nodes);
        assert(is_made(mid.nodes.last(), env, s));
        lemma_adds_node(out, mid, s, root, f, g);
        let here = use_out(env, s, owner, out);
        if owner is Some {
            assert(here.edges.drop_last() =~= mid.edges);
            assert(is_tied(here.edges.last(), env, s));
        }
        lemma_adds_edge(mid, here, s, root, f, g);
        lemma_adds(out, mid, here, root, f, g);
    }
    let name = either_text(env, s, "identifier"@, "identifier"@);
    if s.kind == "macro_invocation"@ && env.tier == IndexingTier::Full && name.len() > 0 {
        let mid = macro_node(env, s, name, out);
        assert(mid.nodes.drop_last() =~= out.nodes);
        assert(is_made(mid.nodes.last(), env, s));
        lemma_adds_node(out, mid, s, root, f, g);
        let here = macro_out(env, s, owner, out);
        if owner is Some {
            assert(here.edges.drop_last() =~= mid.edges);
            assert(is_tied(here.edges.last(), env, s));
        }
        lemma_adds_edge(mid, here, s, root, f, g);
        lemma_adds(out, mid, here, root, f, g);
    }
}

proof fn lemma_mod_adds(env: Env, root: Shape, s: Shape, out: Out)
    requires
        is_below(s, root),
        s.kind == "mod_item"@,
    ensures
        adds(out, mod_items(env, s, out), root, made_fn(env), tied_fn(env)),
    decreases s, 0int,
{
    let f = made_fn(env);
    let g = tied_fn(env);
    let name = either_text(env, s, "identifier"@, "identifier"@);
    let k = field_place(s.children, "body"@) as int;
    if name.len() > 0 {
        lemma_read_name(env, s, "identifier"@);
        let here = module_out(env, s, out);
        assert(here.nodes.drop_last() =~= out.nodes);
        assert(is_made(here.nodes.last(), env, s));
        lemma_adds_node(out, here, s, root, f, g);
        if k < s.children.len() {
            lemma_below(root, s);
            lemma_below(root, s.children[k]);
            let own = Some(env.id(name, "module"@, Some(line(s.start_row))));
            lemma_items_add(env, root, s.children[k].children, own, here);
            lemma_adds(out, here, mod_items(env, s, out), root, f, g);
        }
    }
}

proof fn lemma_items_add(env: Env, root: Shape, kids: Seq<Shape>, owner: Option<Seq<char>>, out: Out)
    requires
        forall|i: int| 0 <= i < kids.len() ==> is_below(#[trigger] kids[i], root),
    ensures
        adds(out, items(env, kids, owner, out), root, made_fn(env), tied_fn(env)),
    decreases kids, 1int,
{
    if kids.len() > 0 {
        let rest = kids.drop_last();
        assert forall|i: int| 0 <= i < rest.len() implies is_below(#[trigger] rest[i], root) by {
            assert(rest[i] == kids[i]);
        }
        let last = kids[kids.len() - 1];
        assert(is_below(last, root));
        let had = items(env, rest, owner, out);
        lemma_items_add(env, root, rest, owner, out);
        lemma_last_adds(env, root, kids, owner, had);
        lemma_adds(out, had, last_item(env, kids, owner, had), root, made_fn(env), tied_fn(env));
    }
}

proof fn lemma_last_adds(env: Env, root: Shape, kids: Seq<Shape>, owner: Option<Seq<char>>, out: Out)
    requires
        kids.len() > 0,
        is_below(kids.last(), root),
    ensures
        adds(out, last_item(env, kids, owner, out), root, made_fn(env), tied_fn(env)),
    decreases kids, 0int,
{
    lemma_kinds();
    let s = kids.last();
    lemma_below(root, s);
    lemma_plain_adds(env, root, s, kids.drop_last(), owner, out);
    if s.kind == "function_item"@ {
        lemma_function_adds(env, root, s, owner, out);
    } else if s.kind == "impl_item"@ {
        lemma_impl_adds(env, root, s, out);
    } else if s.kind == "mod_item"@ {
        lemma_mod_adds(env, root, s, out);
    } else if !is_item(env, s.kind) {
        lemma_items_add(env, root, s.children, owner, out);
    }
}

/// Nothing is found but what stands in the tree as a function, a type, an impl,
/// a module, a use declaration, a closure with a name or a macro call, and
/// nothing is tied but these to what they stand in, impls to their traits and
/// functions to what is called in them.
pub proof fn nothing_else_is_found(env: Env, root: Shape, out: Out)
    ensures
        adds(out, items(env, root.children, None, out), root, made_fn(env), tied_fn(env)),
{
    lemma_below_self(root);
    lemma_below(root, root);
    lemma_items_add(env, root, root.children, None, out);
}

} // verus!
