//! The Python extractor: functions, classes, methods, imports, decorated
//! definitions, and calls.

use vstd::prelude::*;
use crate::index::extractors::{
    calls, child_by_field, child_in, either_text, extract_import, field_place, field_text, find_field, import_out,
    name_text, note_field, walk_calls,
};
use crate::index::parser::{
    id_of, line, line_of, with_flag, with_text, Env, ExtractionContext, Meta, Metadata, Out,
};
use crate::index::source::{cut, cut_text};
use crate::index::syntax::{lemma_shapes, shape, shapes, Shape, SyntaxNode};
use crate::index::tier::IndexingTier;
use crate::lookup::lemma_take_next;
use crate::text::{begins_with, same_text, starts_with_text};

verus! {

/// Is a function kept out of the graph? One without a name is, and one whose
/// name marks it as private, but for the initialiser.
pub open spec fn is_skipped(name: Seq<char>) -> bool {
    name.len() == 0 || (begins_with(name, "_"@) && name != "__init__"@)
}

pub open spec fn function_meta(env: Env, s: Shape) -> Meta {
    let m = with_flag(Meta::empty(), "async"@, begins_with(env.text(s), "async "@));
    let m = with_text(m, "parameters"@, field_text(env, s, "parameters"@));
    with_text(m, "return_type"@, field_text(env, s, "return_type"@))
}

/// The calls of a function's body.
pub open spec fn body_calls(env: Env, s: Shape, id: Seq<char>, out: Out) -> Out {
    if env.tier == IndexingTier::Fast {
        out
    } else {
        match child_in(s, "body"@) {
            Some(body) => calls(env, body.children, id, "call"@, true, out),
            None => out,
        }
    }
}

pub open spec fn function(env: Env, s: Shape, owner: Option<Seq<char>>, out: Out) -> Out {
    let name = either_text(env, s, "identifier"@, "identifier"@);
    if is_skipped(name) {
        out
    } else {
        let start = Some(line(s.start_row));
        let id = env.id(name, "function"@, start);
        body_calls(
            env,
            s,
            id,
            out.node(
                env,
                name,
                "function"@,
                start,
                Some(line(s.end_row)),
                Some(cut(env.text(s), 2000)),
                function_meta(env, s),
            ).owned(owner, id, "contains"@),
        )
    }
}

/// The node of a class, without its members.
pub open spec fn class_node(env: Env, s: Shape, name: Seq<char>, owner: Option<Seq<char>>, out: Out) -> Out {
    let start = Some(line(s.start_row));
    out.node(
        env,
        name,
        "class"@,
        start,
        Some(line(s.end_row)),
        None,
        with_text(Meta::empty(), "bases"@, field_text(env, s, "superclasses"@)),
    ).owned(owner, env.id(name, "class"@, start), "contains"@)
}

/// What a class makes: its own node, and what its body makes as its own.
pub open spec fn class(env: Env, s: Shape, owner: Option<Seq<char>>, out: Out) -> Out
    decreases s, 0int,
{
    let name = either_text(env, s, "identifier"@, "identifier"@);
    let k = field_place(s.children, "body"@) as int;
    if name.len() == 0 {
        out
    } else if k < s.children.len() {
        node(
            env,
            s.children[k],
            Some(env.id(name, "class"@, Some(line(s.start_row)))),
            class_node(env, s, name, owner, out),
        )
    } else {
        class_node(env, s, name, owner, out)
    }
}

/// What a node makes: a definition or an import, or else what is below it.
pub open spec fn node(env: Env, s: Shape, owner: Option<Seq<char>>, out: Out) -> Out
    decreases s, 1int,
{
    if s.kind == "decorated_definition"@ {
        definitions(env, s.children, owner, out)
    } else if s.kind == "function_definition"@ {
        function(env, s, owner, out)
    } else if s.kind == "class_definition"@ {
        class(env, s, owner, out)
    } else if s.kind == "import_statement"@ || s.kind == "import_from_statement"@ {
        import_out(env, s, out)
    } else {
        all_nodes(env, s.children, owner, out)
    }
}

pub open spec fn all_nodes(env: Env, kids: Seq<Shape>, owner: Option<Seq<char>>, out: Out) -> Out
    decreases kids, 0int,
{
    if kids.len() == 0 {
        out
    } else {
        node(env, kids.last(), owner, all_nodes(env, kids.drop_last(), owner, out))
    }
}

/// The functions and classes among some nodes: what decorators decorate.
pub open spec fn definitions(env: Env, kids: Seq<Shape>, owner: Option<Seq<char>>, out: Out) -> Out
    decreases kids, 0int,
{
    if kids.len() == 0 {
        out
    } else {
        let before = definitions(env, kids.drop_last(), owner, out);
        if kids.last().kind == "function_definition"@ {
            function(env, kids.last(), owner, before)
        } else if kids.last().kind == "class_definition"@ {
            class(env, kids.last(), owner, before)
        } else {
            before
        }
    }
}

fn extract_function(ctx: &mut ExtractionContext, node: &SyntaxNode, owner: Option<&str>)
    ensures
        final(ctx).env() == old(ctx).env(),
        final(ctx).out() == function(old(ctx).env(), shape(*node), id_of(owner), old(ctx).out()),
{
    let name = name_text(ctx, node, "identifier");
    if name.as_str().is_empty() || (starts_with_text(name.as_str(), "_") && !same_text(name.as_str(), "__init__")) {
        return;
    }
    let mut meta = Metadata::new();
    meta.note_flag("async", starts_with_text(ctx.node_text(node), "async "));
    note_field(&mut meta, "parameters", ctx, node, "parameters");
    note_field(&mut meta, "return_type", ctx, node, "return_type");
    let content = Some(cut_text(ctx.node_text(node), 2000));
    let id = ctx.add_node(
        name.as_str(),
        "function",
        Some(line_of(node.start_row)),
        Some(line_of(node.end_row)),
        content,
        meta,
    );
    ctx.add_owned(owner, id.as_str(), "contains");
    if ctx.tier != IndexingTier::Fast {
        match child_by_field(node, "body") {
            Some(body) => walk_calls(ctx, &body.children, id.as_str(), "call", true),
            None => {},
        }
    }
}

fn extract_class(ctx: &mut ExtractionContext, node: &SyntaxNode, owner: Option<&str>)
    ensures
        final(ctx).env() == old(ctx).env(),
        final(ctx).out() == class(old(ctx).env(), shape(*node), id_of(owner), old(ctx).out()),
    decreases node, 0int,
{
    let name = name_text(ctx, node, "identifier");
    if name.as_str().is_empty() {
        return;
    }
    let mut meta = Metadata::new();
    note_field(&mut meta, "bases", ctx, node, "superclasses");
    let id = ctx.add_node(
        name.as_str(),
        "class",
        Some(line_of(node.start_row)),
        Some(line_of(node.end_row)),
        None,
        meta,
    );
    ctx.add_owned(owner, id.as_str(), "contains");
    let k = find_field(&node.children, "body");
    proof {
        lemma_shapes(node.children@);
    }
    if k < node.children.len() {
        walk(ctx, &node.children[k], Some(id.as_str()));
    }
}

fn walk(ctx: &mut ExtractionContext, node: &SyntaxNode, owner: Option<&str>)
    ensures
        final(ctx).env() == old(ctx).env(),
        final(ctx).out() == self::node(old(ctx).env(), shape(*node), id_of(owner), old(ctx).out()),
    decreases node, 1int,
{
    let kind = node.kind.as_str();
    if same_text(kind, "decorated_definition") {
        extract_decorated_definition(ctx, &node.children, owner);
    } else if same_text(kind, "function_definition") {
        extract_function(ctx, node, owner);
    } else if same_text(kind, "class_definition") {
        extract_class(ctx, node, owner);
    } else if same_text(kind, "import_statement") || same_text(kind, "import_from_statement") {
        extract_import(ctx, node);
    } else {
        recurse(ctx, &node.children, owner);
    }
}

fn recurse(ctx: &mut ExtractionContext, kids: &Vec<SyntaxNode>, owner: Option<&str>)
    ensures
        final(ctx).env() == old(ctx).env(),
        final(ctx).out() == all_nodes(old(ctx).env(), shapes(kids@), id_of(owner), old(ctx).out()),
    decreases kids, 0int,
{
    let ghost env = ctx.env();
    let ghost start = ctx.out();
    let ghost all = shapes(kids@);
    let mut i: usize = 0;
    proof {
        lemma_shapes(kids@);
    }
    while i < kids.len()
        invariant
            i <= kids@.len(),
            all == shapes(kids@),
            all.len() == kids@.len(),
            forall|k: int| 0 <= k < all.len() ==> #[trigger] all[k] == shape(kids@[k]),
            ctx.env() == env,
            ctx.out() == all_nodes(env, all.take(i as int), id_of(owner), start),
        decreases kids.len() - i,
    {
        proof {
            lemma_take_next(all, i as int);
            assert(all[i as int] == shape(kids@[i as int]));
        }
        walk(ctx, &kids[i], owner);
        i = i + 1;
    }
    assert(all.take(i as int) =~= all);
}

fn extract_decorated_definition(ctx: &mut ExtractionContext, kids: &Vec<SyntaxNode>, owner: Option<&str>)
    ensures
        final(ctx).env() == old(ctx).env(),
        final(ctx).out() == definitions(old(ctx).env(), shapes(kids@), id_of(owner), old(ctx).out()),
    decreases kids, 0int,
{
    let ghost env = ctx.env();
    let ghost start = ctx.out();
    let ghost all = shapes(kids@);
    let mut i: usize = 0;
    proof {
        lemma_shapes(kids@);
    }
    while i < kids.len()
        invariant
            i <= kids@.len(),
            all == shapes(kids@),
            all.len() == kids@.len(),
            forall|k: int| 0 <= k < all.len() ==> #[trigger] all[k] == shape(kids@[k]),
            ctx.env() == env,
            ctx.out() == definitions(env, all.take(i as int), id_of(owner), start),
        decreases kids.len() - i,
    {
        let child = &kids[i];
        proof {
            lemma_take_next(all, i as int);
            assert(all[i as int] == shape(*child));
        }
        if same_text(child.kind.as_str(), "function_definition") {
            extract_function(ctx, child, owner);
        } else if same_text(child.kind.as_str(), "class_definition") {
            extract_class(ctx, child, owner);
        }
        i = i + 1;
    }
    assert(all.take(i as int) =~= all);
}

/// Extracts a parsed Python file.
pub fn extract(ctx: &mut ExtractionContext, root: &SyntaxNode)
    ensures
        final(ctx).env() == old(ctx).env(),
        final(ctx).out() == node(old(ctx).env(), shape(*root), None, old(ctx).out()),
{
    walk(ctx, root, None);
}

} // verus!
