//! What the Java extractor finds.

use vstd::prelude::*;

use crate::index::extractors::java::{
    all_nodes, callee, class, class_node, invocation_at, invocations, listed_type, method, node,
};
use crate::index::extractors::notes::{next, text};
use crate::index::extractors::trees::{
    adds, at_path, call_edge, grows, has, is_below, is_callable, is_field_text, is_first_in, is_holding, is_kind_text,
    is_path, lemma_adds, lemma_adds_edge, lemma_adds_node, lemma_below, lemma_below_in, lemma_below_self,
    lemma_field_text, lemma_first_in, lemma_grows, lemma_has, lemma_keeps, lemma_kind_text, lemma_new, lemma_no_field,
    lemma_read_name, lemma_type_names, stands_at,
};
use crate::index::extractors::{either_text, field_place, field_text, import_out, kids_in};
use crate::index::parser::{line, CodeEdgeView, CodeView, Env, Out};
use crate::index::syntax::Shape;
use crate::index::tier::IndexingTier;
use crate::text::begins_with;

verus! {

/// A kind that is a declaration, or an import.
pub open spec fn is_declaration(kind: Seq<char>) -> bool {
    ||| kind == "class_declaration"@
    ||| kind == "interface_declaration"@
    ||| kind == "method_declaration"@
    ||| kind == "constructor_declaration"@
    ||| kind == "import_declaration"@
    ||| kind == "enum_declaration"@
}

/// The way into the tree is open: it passes through no declaration but classes
/// that have a name, and through those by their bodies.
pub open spec fn is_open(env: Env, s: Shape, path: Seq<int>) -> bool
    decreases path.len(),
{
    if path.len() == 0 {
        true
    } else if s.kind == "class_declaration"@ {
        &&& path.len() >= 2
        &&& is_first_in(s, "body"@, path[0])
        &&& 0 <= path[1] < s.children[path[0]].children.len()
        &&& exists|name: Seq<char>| name.len() > 0 && #[trigger] is_kind_text(env, s, "identifier"@, name)
        &&& is_open(env, s.children[path[0]].children[path[1]], path.skip(2))
    } else {
        &&& !is_declaration(s.kind)
        &&& 0 <= path[0] < s.children.len()
        &&& is_open(env, s.children[path[0]], path.skip(1))
    }
}

/// The name of a node that has one.
pub open spec fn name_of(env: Env, s: Shape) -> Seq<char> {
    choose|name: Seq<char>| is_kind_text(env, s, "identifier"@, name)
}

/// The class that holds what a path leads to: the innermost on the way.
pub open spec fn holder(env: Env, s: Shape, path: Seq<int>, owner: Option<Seq<char>>) -> Option<Seq<char>>
    decreases path.len(),
{
    if path.len() == 0 {
        owner
    } else if s.kind == "class_declaration"@ && path.len() >= 2 {
        holder(
            env,
            s.children[path[0]].children[path[1]],
            path.skip(2),
            Some(env.id(name_of(env, s), "class"@, Some(line(s.start_row)))),
        )
    } else {
        holder(env, s.children[path[0]], path.skip(1), owner)
    }
}

// ---- nothing is lost ------------------------------------------------------------------------

proof fn lemma_invocations_grow(env: Env, kids: Seq<Shape>, caller: Seq<char>, out: Out)
    ensures
        grows(out, invocations(env, kids, caller, out)),
    decreases kids,
{
    if kids.len() > 0 {
        let before = invocations(env, kids.drop_last(), caller, out);
        lemma_invocations_grow(env, kids.drop_last(), caller, out);
        let here = invocation_at(env, kids.last(), caller, before);
        assert(grows(before, here));
        lemma_invocations_grow(env, kids.last().children, caller, here);
        lemma_grows(out, before, here);
        lemma_grows(out, here, invocations(env, kids.last().children, caller, here));
    }
}

/// The node of a method, without its calls.
spec fn method_node(env: Env, s: Shape, name: Seq<char>, owner: Option<Seq<char>>, out: Out) -> Out {
    let m = crate::index::parser::with_text(
        crate::index::parser::Meta::empty(),
        "parameters"@,
        field_text(env, s, "parameters"@),
    );
    let m = crate::index::parser::with_text(m, "return_type"@, field_text(env, s, "type"@));
    let start = Some(line(s.start_row));
    out.node(
        env,
        name,
        "function"@,
        start,
        Some(line(s.end_row)),
        Some(crate::index::source::cut(env.text(s), 2000)),
        m,
    ).owned(owner, env.id(name, "function"@, start), "contains"@)
}

proof fn lemma_method(env: Env, s: Shape, owner: Option<Seq<char>>, out: Out)
    ensures
        grows(out, method(env, s, owner, out)),
        either_text(env, s, "identifier"@, "identifier"@).len() > 0 ==> has(
            method(env, s, owner, out),
            env,
            s,
            either_text(env, s, "identifier"@, "identifier"@),
            "function"@,
            Some(s.end_row),
            owner,
        ),
{
    lemma_type_names();
    let name = either_text(env, s, "identifier"@, "identifier"@);
    if name.len() > 0 {
        let m = crate::index::parser::with_text(
            crate::index::parser::Meta::empty(),
            "parameters"@,
            field_text(env, s, "parameters"@),
        );
        let m = crate::index::parser::with_text(m, "return_type"@, field_text(env, s, "type"@));
        let start = Some(line(s.start_row));
        let id = env.id(name, "function"@, start);
        let here = method_node(env, s, name, owner, out);
        lemma_new(
            out,
            env,
            s,
            name,
            "function"@,
            start,
            Some(line(s.end_row)),
            Some(crate::index::source::cut(env.text(s), 2000)),
            m,
            owner,
            Some(s.end_row),
        );
        lemma_invocations_grow(env, kids_in(s, "body"@), id, here);
        lemma_grows(out, here, method(env, s, owner, out));
        lemma_has(here, method(env, s, owner, out), env, s, name, "function"@, Some(s.end_row), owner);
    }
}

proof fn lemma_listed(env: Env, s: Shape, node_type: Seq<char>, key: Seq<char>, member: Seq<char>, out: Out)
    requires
        node_type == "interface"@ || node_type == "enum"@,
    ensures
        grows(out, listed_type(env, s, node_type, key, member, out)),
        either_text(env, s, "identifier"@, "identifier"@).len() > 0 ==> has(
            listed_type(env, s, node_type, key, member, out),
            env,
            s,
            either_text(env, s, "identifier"@, "identifier"@),
            node_type,
            Some(s.end_row),
            None,
        ),
{
    lemma_type_names();
    let name = either_text(env, s, "identifier"@, "identifier"@);
    if name.len() > 0 {
        lemma_new(
            out,
            env,
            s,
            name,
            node_type,
            Some(line(s.start_row)),
            Some(line(s.end_row)),
            None,
            crate::index::parser::with_list(
                crate::index::parser::Meta::empty(),
                key,
                crate::index::extractors::names(env, kids_in(s, "body"@), member, member, "identifier"@),
            ),
            None,
            Some(s.end_row),
        );
    }
}

proof fn lemma_class_node(env: Env, s: Shape, name: Seq<char>, owner: Option<Seq<char>>, out: Out)
    ensures
        grows(out, class_node(env, s, name, owner, out)),
        has(class_node(env, s, name, owner, out), env, s, name, "class"@, Some(s.end_row), owner),
{
    lemma_type_names();
    let m = crate::index::parser::with_text(
        crate::index::parser::Meta::empty(),
        "extends"@,
        field_text(env, s, "superclass"@),
    );
    let m = crate::index::parser::with_text(m, "implements"@, field_text(env, s, "interfaces"@));
    lemma_new(
        out,
        env,
        s,
        name,
        "class"@,
        Some(line(s.start_row)),
        Some(line(s.end_row)),
        None,
        m,
        owner,
        Some(s.end_row),
    );
}

proof fn lemma_class_grows(env: Env, s: Shape, owner: Option<Seq<char>>, out: Out)
    ensures
        grows(out, class(env, s, owner, out)),
    decreases s, 0int,
{
    let name = either_text(env, s, "identifier"@, "identifier"@);
    let k = field_place(s.children, "body"@) as int;
    let here = class_node(env, s, name, owner, out);
    lemma_class_node(env, s, name, owner, out);
    if name.len() > 0 && k < s.children.len() {
        lemma_all_grow(env, s.children[k].children, Some(env.id(name, "class"@, Some(line(s.start_row)))), here);
        lemma_grows(out, here, class(env, s, owner, out));
    }
}

proof fn lemma_node_grows(env: Env, s: Shape, owner: Option<Seq<char>>, out: Out)
    ensures
        grows(out, node(env, s, owner, out)),
    decreases s, 1int,
{
    lemma_method(env, s, owner, out);
    lemma_listed(env, s, "interface"@, "methods"@, "method_declaration"@, out);
    lemma_listed(env, s, "enum"@, "constants"@, "enum_constant"@, out);
    assert(grows(out, import_out(env, s, out)));
    if s.kind == "class_declaration"@ {
        lemma_class_grows(env, s, owner, out);
    } else if !is_declaration(s.kind) {
        lemma_all_grow(env, s.children, owner, out);
    }
}

proof fn lemma_all_grow(env: Env, kids: Seq<Shape>, owner: Option<Seq<char>>, out: Out)
    ensures
        grows(out, all_nodes(env, kids, owner, out)),
    decreases kids, 0int,
{
    if kids.len() > 0 {
        let before = all_nodes(env, kids.drop_last(), owner, out);
        lemma_all_grow(env, kids.drop_last(), owner, out);
        lemma_node_grows(env, kids.last(), owner, before);
        lemma_grows(out, before, all_nodes(env, kids, owner, out));
    }
}

// ---- what is found --------------------------------------------------------------------------

/// A child among several is reached.
proof fn lemma_one_of_all(env: Env, kids: Seq<Shape>, owner: Option<Seq<char>>, out: Out, i: int) -> (at: Out)
    requires
        0 <= i < kids.len(),
    ensures
        grows(out, at),
        grows(node(env, kids[i], owner, at), all_nodes(env, kids, owner, out)),
    decreases kids.len(),
{
    let rest = kids.drop_last();
    let before = all_nodes(env, rest, owner, out);
    lemma_all_grow(env, rest, owner, out);
    lemma_node_grows(env, kids.last(), owner, before);
    if i < rest.len() {
        assert(rest[i] == kids[i]);
        let at = lemma_one_of_all(env, rest, owner, out, i);
        lemma_grows(node(env, kids[i], owner, at), before, all_nodes(env, kids, owner, out));
        at
    } else {
        before
    }
}

/// What an open way leads to is visited, with its holder as its owner.
proof fn lemma_visited(env: Env, s: Shape, owner: Option<Seq<char>>, out: Out, path: Seq<int>) -> (at: Out)
    requires
        is_open(env, s, path),
    ensures
        grows(out, at),
        grows(node(env, at_path(s, path), holder(env, s, path, owner), at), node(env, s, owner, out)),
    decreases path.len(),
{
    if path.len() == 0 {
        out
    } else if s.kind == "class_declaration"@ {
        let name = choose|name: Seq<char>| name.len() > 0 && #[trigger] is_kind_text(env, s, "identifier"@, name);
        lemma_kind_text(env, s, "identifier"@, name);
        lemma_kind_text(env, s, "identifier"@, name_of(env, s));
        lemma_first_in(s, "body"@, path[0]);
        let id = env.id(name, "class"@, Some(line(s.start_row)));
        let here = class_node(env, s, name, owner, out);
        lemma_class_node(env, s, name, owner, out);
        let body = s.children[path[0]];
        let child = body.children[path[1]];
        let rest = path.skip(2);
        assert(path.skip(1).skip(1) =~= rest);
        assert(path.skip(1)[0] == path[1]);
        assert(at_path(s, path) == at_path(body, path.skip(1)));
        let mid = lemma_one_of_all(env, body.children, Some(id), here, path[1]);
        let at = lemma_visited(env, child, Some(id), mid, rest);
        lemma_grows(out, here, mid);
        lemma_grows(out, mid, at);
        lemma_grows(
            node(env, at_path(s, path), holder(env, s, path, owner), at),
            node(env, child, Some(id), mid),
            node(env, s, owner, out),
        );
        at
    } else {
        let child = s.children[path[0]];
        let here = lemma_one_of_all(env, s.children, owner, out, path[0]);
        let at = lemma_visited(env, child, owner, here, path.skip(1));
        lemma_grows(out, here, at);
        lemma_grows(
            node(env, at_path(s, path), holder(env, s, path, owner), at),
            node(env, child, owner, here),
            node(env, s, owner, out),
        );
        at
    }
}

proof fn lemma_kinds()
    ensures
        "class_declaration"@ != "interface_declaration"@,
        "class_declaration"@ != "method_declaration"@,
        "class_declaration"@ != "constructor_declaration"@,
        "class_declaration"@ != "import_declaration"@,
        "class_declaration"@ != "enum_declaration"@,
        "interface_declaration"@ != "method_declaration"@,
        "interface_declaration"@ != "constructor_declaration"@,
        "interface_declaration"@ != "import_declaration"@,
        "interface_declaration"@ != "enum_declaration"@,
        "enum_declaration"@ != "method_declaration"@,
        "enum_declaration"@ != "constructor_declaration"@,
        "enum_declaration"@ != "import_declaration"@,
        "import_declaration"@ != "method_declaration"@,
        "import_declaration"@ != "constructor_declaration"@,
{
    reveal_strlit("class_declaration");
    reveal_strlit("interface_declaration");
    reveal_strlit("method_declaration");
    reveal_strlit("constructor_declaration");
    reveal_strlit("import_declaration");
    reveal_strlit("enum_declaration");
    assert("class_declaration"@[1] == 'l' && "interface_declaration"@[1] == 'n' && "method_declaration"@[1] == 'e');
    assert("constructor_declaration"@[1] == 'o' && "import_declaration"@[1] == 'm' && "enum_declaration"@[1] == 'n');
    assert("interface_declaration"@[0] == 'i' && "enum_declaration"@[0] == 'e');
}

/// The type of node that a declaration becomes.
pub open spec fn type_of(kind: Seq<char>) -> Seq<char> {
    if kind == "class_declaration"@ {
        "class"@
    } else if kind == "interface_declaration"@ {
        "interface"@
    } else if kind == "enum_declaration"@ {
        "enum"@
    } else {
        "function"@
    }
}

/// Every class, interface, enum, method and constructor that stands on an open
/// way and has a name is found; classes and methods are held by the class that
/// they stand in.
pub proof fn every_declaration_is_found(
    env: Env,
    root: Shape,
    owner: Option<Seq<char>>,
    out: Out,
    path: Seq<int>,
    name: Seq<char>,
)
    requires
        is_open(env, root, path),
        is_declaration(at_path(root, path).kind),
        at_path(root, path).kind != "import_declaration"@,
        is_kind_text(env, at_path(root, path), "identifier"@, name),
        name.len() > 0,
    ensures
        ({
            let s = at_path(root, path);
            has(
                node(env, root, owner, out),
                env,
                s,
                name,
                type_of(s.kind),
                Some(s.end_row),
                if s.kind == "interface_declaration"@ || s.kind == "enum_declaration"@ {
                    None
                } else {
                    holder(env, root, path, owner)
                },
            )
        }),
{
    let s = at_path(root, path);
    let own = holder(env, root, path, owner);
    lemma_kinds();
    let at = lemma_visited(env, root, owner, out, path);
    lemma_kind_text(env, s, "identifier"@, name);
    let after = node(env, s, own, at);
    if s.kind == "class_declaration"@ {
        let here = class_node(env, s, name, own, at);
        lemma_class_node(env, s, name, own, at);
        let k = field_place(s.children, "body"@) as int;
        if k < s.children.len() {
            lemma_all_grow(env, s.children[k].children, Some(env.id(name, "class"@, Some(line(s.start_row)))), here);
        }
        lemma_has(here, after, env, s, name, "class"@, Some(s.end_row), own);
        lemma_has(after, node(env, root, owner, out), env, s, name, "class"@, Some(s.end_row), own);
    } else if s.kind == "interface_declaration"@ {
        lemma_listed(env, s, "interface"@, "methods"@, "method_declaration"@, at);
        lemma_has(after, node(env, root, owner, out), env, s, name, "interface"@, Some(s.end_row), None);
    } else if s.kind == "enum_declaration"@ {
        lemma_listed(env, s, "enum"@, "constants"@, "enum_constant"@, at);
        lemma_has(after, node(env, root, owner, out), env, s, name, "enum"@, Some(s.end_row), None);
    } else {
        lemma_method(env, s, own, at);
        lemma_has(after, node(env, root, owner, out), env, s, name, "function"@, Some(s.end_row), own);
    }
}

/// Every import that stands on an open way is found, under its own text.
pub proof fn every_import_is_found(env: Env, root: Shape, owner: Option<Seq<char>>, out: Out, path: Seq<int>)
    requires
        is_open(env, root, path),
        at_path(root, path).kind == "import_declaration"@,
    ensures
        has(node(env, root, owner, out), env, at_path(root, path), env.text(at_path(root, path)), "import"@, None, None),
{
    lemma_type_names();
    let s = at_path(root, path);
    lemma_kinds();
    let at = lemma_visited(env, root, owner, out, path);
    let here = import_out(env, s, at);
    let n = here.nodes[at.nodes.len() as int];
    assert(here.nodes.contains(n));
    lemma_has(here, node(env, root, owner, out), env, s, env.text(s), "import"@, None, None);
}

/// What a call with a receiver calls: the receiver, a dot and the name; `this`
/// is left out.
pub open spec fn is_called(target: Seq<char>, receiver: Seq<char>, name: Seq<char>) -> bool {
    if receiver == "this"@ {
        target == name
    } else {
        (forall|rest: Seq<char>| receiver != #[trigger] ("this."@ + rest)) && target == receiver + seq!['.'] + name
    }
}

proof fn lemma_called(target: Seq<char>, receiver: Seq<char>, name: Seq<char>)
    requires
        is_called(target, receiver, name),
    ensures
        callee(Some(receiver), name) == target,
{
    reveal_strlit("this.");
    reveal_strlit("this");
    reveal_strlit(".");
    let whole = receiver + "."@ + name;
    if receiver == "this"@ {
        assert(whole.subrange(0, 5) =~= "this."@);
        assert(whole.skip(5) =~= name);
    } else {
        if begins_with(whole, "this."@) {
            let five = whole.subrange(0, 5);
            assert(five[0] == 't' && five[1] == 'h' && five[2] == 'i' && five[3] == 's' && five[4] == '.');
            if receiver.len() >= 5 {
                assert(receiver =~= "this."@ + receiver.skip(5));
            } else if receiver.len() == 4 {
                assert(receiver =~= "this"@);
            } else {
                assert(whole[receiver.len() as int] == '.');
                assert(five[receiver.len() as int] == '.');
            }
        }
        assert(whole =~= receiver + seq!['.'] + name);
    }
}

/// Every method invocation below some nodes leaves an edge from the caller: to
/// the name alone where there is no receiver, and to the receiver's name with it.
pub proof fn every_invocation_below_is_recorded(
    env: Env,
    kids: Seq<Shape>,
    caller: Seq<char>,
    out: Out,
    i: int,
    path: Seq<int>,
    name: Seq<char>,
    receiver: Option<Seq<char>>,
    target: Seq<char>,
)
    requires
        0 <= i < kids.len(),
        is_path(kids[i], path),
        at_path(kids[i], path).kind == "method_invocation"@,
        is_field_text(env, at_path(kids[i], path), "name"@, name),
        name.len() > 0,
        match receiver {
            Some(r) => is_field_text(env, at_path(kids[i], path), "object"@, r) && is_called(target, r, name),
            None => target == name && forall|j: int|
                0 <= j < at_path(kids[i], path).children.len() ==> (#[trigger] at_path(kids[i], path).children[j]).field
                    != Some("object"@),
        },
        is_callable(target, false),
    ensures
        invocations(env, kids, caller, out).edges.contains(call_edge(caller, target)),
    decreases kids,
{
    let rest = kids.drop_last();
    let before = invocations(env, rest, caller, out);
    let here = invocation_at(env, kids.last(), caller, before);
    let below = kids.last().children;
    lemma_invocations_grow(env, below, caller, here);
    lemma_keeps(here, invocations(env, below, caller, here));
    if i < rest.len() {
        assert(rest[i] == kids[i]);
        every_invocation_below_is_recorded(env, rest, caller, out, i, path, name, receiver, target);
        assert(grows(before, here));
        lemma_keeps(before, here);
    } else if path.len() == 0 {
        let s = kids[i];
        lemma_field_text(env, s, "name"@, name);
        match receiver {
            Some(r) => {
                lemma_field_text(env, s, "object"@, r);
                lemma_called(target, r, name);
            },
            None => {
                lemma_no_field(s, "object"@);
            },
        }
        assert(here.edges[before.edges.len() as int] == call_edge(caller, target));
    } else {
        every_invocation_below_is_recorded(env, below, caller, here, path[0], path.skip(1), name, receiver, target);
    }
}

/// The calls of a method that is found are those of its body, unless the index
/// is made fast.
pub proof fn the_calls_of_a_method_are_found(
    env: Env,
    root: Shape,
    owner: Option<Seq<char>>,
    out: Out,
    path: Seq<int>,
    title: Seq<char>,
    body: int,
    i: int,
    way: Seq<int>,
    name: Seq<char>,
    receiver: Option<Seq<char>>,
    target: Seq<char>,
)
    requires
        env.tier != IndexingTier::Fast,
        is_open(env, root, path),
        at_path(root, path).kind == "method_declaration"@ || at_path(root, path).kind == "constructor_declaration"@,
        is_kind_text(env, at_path(root, path), "identifier"@, title),
        title.len() > 0,
        is_first_in(at_path(root, path), "body"@, body),
        0 <= i < at_path(root, path).children[body].children.len(),
        ({
            let first = at_path(root, path).children[body].children[i];
            &&& is_path(first, way)
            &&& at_path(first, way).kind == "method_invocation"@
            &&& is_field_text(env, at_path(first, way), "name"@, name)
            &&& name.len() > 0
            &&& match receiver {
                Some(r) => is_field_text(env, at_path(first, way), "object"@, r) && is_called(target, r, name),
                None => target == name && forall|j: int|
                    0 <= j < at_path(first, way).children.len() ==> (#[trigger] at_path(first, way).children[j]).field
                        != Some("object"@),
            }
            &&& is_callable(target, false)
        }),
    ensures
        node(env, root, owner, out).edges.contains(
            call_edge(env.id(title, "function"@, Some(line(at_path(root, path).start_row))), target),
        ),
{
    let s = at_path(root, path);
    let own = holder(env, root, path, owner);
    lemma_kinds();
    let at = lemma_visited(env, root, owner, out, path);
    lemma_kind_text(env, s, "identifier"@, title);
    lemma_first_in(s, "body"@, body);
    let id = env.id(title, "function"@, Some(line(s.start_row)));
    let here = method_node(env, s, title, own, at);
    every_invocation_below_is_recorded(env, s.children[body].children, id, here, i, way, name, receiver, target);
    lemma_keeps(node(env, s, own, at), node(env, root, owner, out));
}

/// A method notes its parameters and what it returns.
pub proof fn a_method_is_noted(env: Env, s: Shape, owner: Option<Seq<char>>, out: Out)
    requires
        either_text(env, s, "identifier"@, "identifier"@).len() > 0,
    ensures
        next(out, method(env, s, owner, out)).metadata == text("parameters"@, field_text(env, s, "parameters"@)) + text(
            "return_type"@,
            field_text(env, s, "type"@),
        ),
{
    let name = either_text(env, s, "identifier"@, "identifier"@);
    let here = method_node(env, s, name, owner, out);
    lemma_invocations_grow(env, kids_in(s, "body"@), env.id(name, "function"@, Some(line(s.start_row))), here);
    assert(method(env, s, owner, out).nodes[out.nodes.len() as int] == here.nodes[out.nodes.len() as int]);
    assert(next(out, here).metadata =~= text("parameters"@, field_text(env, s, "parameters"@)) + text(
        "return_type"@,
        field_text(env, s, "type"@),
    ));
}

// ---- nothing else is found ------------------------------------------------------------------

/// The node of a declaration that has a name, or of an import.
pub open spec fn is_made(n: CodeView, env: Env, t: Shape) -> bool {
    ||| t.kind == "import_declaration"@ && stands_at(n, env, t, "import"@) && n.name == env.text(t)
    ||| t.kind != "import_declaration"@ && is_declaration(t.kind) && stands_at(n, env, t, type_of(t.kind)) && is_kind_text(
        env,
        t,
        "identifier"@,
        n.name,
    ) && n.name.len() > 0
}

/// The edge of an invocation that stands below `s`.
pub open spec fn is_invocation_below(e: CodeEdgeView, env: Env, s: Shape, caller: Seq<char>) -> bool {
    exists|u: Shape| #[trigger]
        is_below(u, s) && u.kind == "method_invocation"@ && field_text(env, u, "name"@) is Some && (field_text(
            env,
            u,
            "name"@,
        )->0).len() > 0 && e == call_edge(caller, callee(field_text(env, u, "object"@), field_text(env, u, "name"@)->0))
}

/// An edge to a class or a method from the class that holds it, or from a method
/// to what is called in it.
pub open spec fn is_tied(e: CodeEdgeView, env: Env, t: Shape) -> bool {
    exists|n: CodeView| #[trigger]
        is_made(n, env, t) && {
            ||| (n.node_type == "function"@ || n.node_type == "class"@) && is_holding(e, n.id)
            ||| env.tier != IndexingTier::Fast && n.node_type == "function"@ && is_invocation_below(e, env, t, n.id)
        }
}

pub open spec fn made_fn(env: Env) -> spec_fn(CodeView, Shape) -> bool {
    |n: CodeView, t: Shape| is_made(n, env, t)
}

pub open spec fn tied_fn(env: Env) -> spec_fn(CodeEdgeView, Shape) -> bool {
    |e: CodeEdgeView, t: Shape| is_tied(e, env, t)
}

proof fn lemma_invocations_add(
    env: Env,
    root: Shape,
    s: Shape,
    n: CodeView,
    kids: Seq<Shape>,
    out: Out,
)
    requires
        is_below(s, root),
        is_made(n, env, s),
        n.node_type == "function"@,
        env.tier != IndexingTier::Fast,
        forall|i: int| 0 <= i < kids.len() ==> is_below(#[trigger] kids[i], s),
    ensures
        adds(out, invocations(env, kids, n.id, out), root, made_fn(env), tied_fn(env)),
    decreases kids,
{
    if kids.len() > 0 {
        let f = made_fn(env);
        let g = tied_fn(env);
        let rest = kids.drop_last();
        assert forall|i: int| 0 <= i < rest.len() implies is_below(#[trigger] rest[i], s) by {
            assert(rest[i] == kids[i]);
        }
        let last = kids[kids.len() - 1];
        assert(is_below(last, s));
        let before = invocations(env, rest, n.id, out);
        lemma_invocations_add(env, root, s, n, rest, out);
        let here = invocation_at(env, last, n.id, before);
        if here != before {
            assert(here.edges.drop_last() =~= before.edges);
            assert(is_invocation_below(here.edges.last(), env, s, n.id));
            assert(is_tied(here.edges.last(), env, s));
        }
        lemma_adds_edge(before, here, s, root, f, g);
        lemma_adds(out, before, here, root, f, g);
        lemma_below(s, last);
        lemma_invocations_add(env, root, s, n, last.children, here);
        lemma_adds(out, here, invocations(env, last.children, n.id, here), root, f, g);
    }
}

proof fn lemma_method_adds(env: Env, root: Shape, s: Shape, owner: Option<Seq<char>>, out: Out)
    requires
        is_below(s, root),
        s.kind == "method_declaration"@ || s.kind == "constructor_declaration"@,
    ensures
        adds(out, method(env, s, owner, out), root, made_fn(env), tied_fn(env)),
{
    lemma_kinds();
    let f = made_fn(env);
    let g = tied_fn(env);
    let name = either_text(env, s, "identifier"@, "identifier"@);
    if name.len() > 0 {
        lemma_read_name(env, s, "identifier"@);
        let here = method_node(env, s, name, owner, out);
        let mid = Out { nodes: here.nodes, edges: out.edges };
        let n = mid.nodes.last();
        assert(mid.nodes.drop_last() =~= out.nodes);
        assert(is_made(n, env, s));
        lemma_adds_node(out, mid, s, root, f, g);
        if owner is Some {
            assert(here.edges.drop_last() =~= mid.edges);
            assert(is_tied(here.edges.last(), env, s));
        }
        lemma_adds_edge(mid, here, s, root, f, g);
        lemma_adds(out, mid, here, root, f, g);
        if env.tier != IndexingTier::Fast {
            lemma_below_self(s);
            lemma_below_in(s, s, "body"@);
            lemma_invocations_add(env, root, s, n, kids_in(s, "body"@), here);
            lemma_adds(out, here, method(env, s, owner, out), root, f, g);
        }
    }
}

proof fn lemma_class_adds(env: Env, root: Shape, s: Shape, owner: Option<Seq<char>>, out: Out)
    requires
        is_below(s, root),
        s.kind == "class_declaration"@,
    ensures
        adds(out, class(env, s, owner, out), root, made_fn(env), tied_fn(env)),
    decreases s, 0int,
{
    lemma_kinds();
    let f = made_fn(env);
    let g = tied_fn(env);
    let name = either_text(env, s, "identifier"@, "identifier"@);
    let k = field_place(s.children, "body"@) as int;
    if name.len() > 0 {
        lemma_read_name(env, s, "identifier"@);
        let here = class_node(env, s, name, owner, out);
        let mid = Out { nodes: here.nodes, edges: out.edges };
        assert(mid.nodes.drop_last() =~= out.nodes);
        assert(is_made(mid.nodes.last(), env, s));
        lemma_adds_node(out, mid, s, root, f, g);
        if owner is Some {
            assert(here.edges.drop_last() =~= mid.edges);
            assert(is_tied(here.edges.last(), env, s));
        }
        lemma_adds_edge(mid, here, s, root, f, g);
        lemma_adds(out, mid, here, root, f, g);
        if k < s.children.len() {
            lemma_below(root, s);
            lemma_below(root, s.children[k]);
            let own = Some(env.id(name, "class"@, Some(line(s.start_row))));
            lemma_all_add(env, root, s.children[k].children, own, here);
            lemma_adds(out, here, all_nodes(env, s.children[k].children, own, here), root, f, g);
        }
    }
}

proof fn lemma_node_adds(env: Env, root: Shape, s: Shape, owner: Option<Seq<char>>, out: Out)
    requires
        is_below(s, root),
    ensures
        adds(out, node(env, s, owner, out), root, made_fn(env), tied_fn(env)),
    decreases s, 1int,
{
    lemma_kinds();
    lemma_below(root, s);
    if s.kind == "class_declaration"@ {
        lemma_class_adds(env, root, s, owner, out);
    } else if s.kind == "method_declaration"@ || s.kind == "constructor_declaration"@ {
        lemma_method_adds(env, root, s, owner, out);
    } else if is_declaration(s.kind) {
        let after = node(env, s, owner, out);
        lemma_read_name(env, s, "identifier"@);
        if after != out {
            assert(after.nodes.drop_last() =~= out.nodes);
            assert(is_made(after.nodes.last(), env, s));
            lemma_adds_node(out, after, s, root, made_fn(env), tied_fn(env));
        }
    } else {
        lemma_all_add(env, root, s.children, owner, out);
    }
}

proof fn lemma_all_add(env: Env, root: Shape, kids: Seq<Shape>, owner: Option<Seq<char>>, out: Out)
    requires
        forall|i: int| 0 <= i < kids.len() ==> is_below(#[trigger] kids[i], root),
    ensures
        adds(out, all_nodes(env, kids, owner, out), root, made_fn(env), tied_fn(env)),
    decreases kids, 0int,
{
    if kids.len() > 0 {
        let rest = kids.drop_last();
        assert forall|i: int| 0 <= i < rest.len() implies is_below(#[trigger] rest[i], root) by {
            assert(rest[i] == kids[i]);
        }
        let last = kids[kids.len() - 1];
        assert(is_below(last, root));
        let before = all_nodes(env, rest, owner, out);
        lemma_all_add(env, root, rest, owner, out);
        lemma_node_adds(env, root, last, owner, before);
        lemma_adds(out, before, node(env, last, owner, before), root, made_fn(env), tied_fn(env));
    }
}

/// Nothing is found but declarations that have a name and imports, each where
/// it stands in the tree, and nothing is tied but classes and methods to what
/// holds them and methods to what is called in them.
pub proof fn nothing_else_is_found(env: Env, root: Shape, owner: Option<Seq<char>>, out: Out)
    ensures
        adds(out, node(env, root, owner, out), root, made_fn(env), tied_fn(env)),
{
    lemma_below_self(root);
    lemma_node_adds(env, root, root, owner, out);
}

} // verus!
