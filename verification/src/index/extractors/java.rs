//! The Java extractor: classes, interfaces, methods, enums, imports, and
//! calls.

use vstd::prelude::*;
use crate::index::extractors::{
    child_by_field, either_text, extract_import, field_place, field_text, find_field, import_out,
    kids_in, member_names, name_text, names, note_field,
};
use crate::index::parser::{
    id_of, line, line_of, with_list, with_text, Env, ExtractionContext, Meta, Metadata, Out,
};
use crate::index::source::{cut, cut_text};
use crate::index::syntax::{lemma_shapes, shape, shapes, Shape, SyntaxNode};
use crate::index::tier::IndexingTier;
use crate::lookup::lemma_take_next;
use crate::text::{begins_with, chars_of, same_text, starts_with_text, text_between};

verus! {

// ---- calls -------------------------------------------------------------------------------

/// A call's target: the receiver, a dot and the name, without a leading
/// `this.`; the name alone where there is no receiver.
pub open spec fn callee(receiver: Option<Seq<char>>, name: Seq<char>) -> Seq<char> {
    match receiver {
        Some(object) => {
            let whole = object + "."@ + name;
            if begins_with(whole, "this."@) {
                whole.skip(5)
            } else {
                whole
            }
        },
        None => name,
    }
}

/// The call that one node makes.
pub open spec fn invocation_at(env: Env, s: Shape, caller: Seq<char>, out: Out) -> Out {
    match field_text(env, s, "name"@) {
        Some(name) => if s.kind == "method_invocation"@ && name.len() > 0 {
            out.call(caller, callee(field_text(env, s, "object"@), name))
        } else {
            out
        },
        None => out,
    }
}

/// The calls that some nodes and everything below them make.
pub open spec fn invocations(env: Env, kids: Seq<Shape>, caller: Seq<char>, out: Out) -> Out
    decreases kids,
{
    if kids.len() == 0 {
        out
    } else {
        let here = invocation_at(env, kids.last(), caller, invocations(env, kids.drop_last(), caller, out));
        invocations(env, kids.last().children, caller, here)
    }
}

fn qualify(receiver: Option<&str>, name: &str) -> (r: String)
    ensures
        r@ == callee(
            match receiver {
                Some(object) => Some(object@),
                None => None,
            },
            name@,
        ),
{
    match receiver {
        Some(object) => {
            let mut whole = object.to_owned();
            whole.append(".");
            whole.append(name);
            if starts_with_text(whole.as_str(), "this.") {
                let v = chars_of(whole.as_str());
                proof {
                    reveal_strlit("this.");
                }
                let r = text_between(&v, 5, v.len());
                assert(r@ =~= whole@.skip(5));
                r
            } else {
                whole
            }
        },
        None => name.to_owned(),
    }
}

fn record_invocation(ctx: &mut ExtractionContext, node: &SyntaxNode, caller_id: &str)
    ensures
        final(ctx).env() == old(ctx).env(),
        final(ctx).out() == invocation_at(old(ctx).env(), shape(*node), caller_id@, old(ctx).out()),
{
    if !same_text(node.kind.as_str(), "method_invocation") {
        return;
    }
    let target = match child_by_field(node, "name") {
        Some(name_node) => {
            let name = ctx.node_text(name_node);
            if name.is_empty() {
                return;
            }
            match child_by_field(node, "object") {
                Some(object) => qualify(Some(ctx.node_text(object)), name),
                None => qualify(None, name),
            }
        },
        None => {
            return;
        },
    };
    ctx.add_call(caller_id, target.as_str());
}

fn walk_invocations(ctx: &mut ExtractionContext, kids: &Vec<SyntaxNode>, caller_id: &str)
    ensures
        final(ctx).env() == old(ctx).env(),
        final(ctx).out() == invocations(old(ctx).env(), shapes(kids@), caller_id@, old(ctx).out()),
    decreases kids,
{
    let ghost env = ctx.env();
    let ghost start = ctx.out();
    let ghost all = shapes(kids@);
    let mut i: usize = 0;
    proof {
        lemma_shapes(kids@);
    }
    while i < kids.len()
        invariant
            i <= kids@.len(),
            all == shapes(kids@),
            all.len() == kids@.len(),
            forall|k: int| 0 <= k < all.len() ==> #[trigger] all[k] == shape(kids@[k]),
            ctx.env() == env,
            ctx.out() == invocations(env, all.take(i as int), caller_id@, start),
        decreases kids.len() - i,
    {
        let node = &kids[i];
        proof {
            lemma_take_next(all, i as int);
            assert(all[i as int] == shape(*node));
        }
        record_invocation(ctx, node, caller_id);
        walk_invocations(ctx, &node.children, caller_id);
        i = i + 1;
    }
    assert(all.take(i as int) =~= all);
}

// ---- members ---------------------------------------------------------------------------------

pub open spec fn method(env: Env, s: Shape, owner: Option<Seq<char>>, out: Out) -> Out {
    let name = either_text(env, s, "identifier"@, "identifier"@);
    if name.len() == 0 {
        out
    } else {
        let m = with_text(Meta::empty(), "parameters"@, field_text(env, s, "parameters"@));
        let m = with_text(m, "return_type"@, field_text(env, s, "type"@));
        let start = Some(line(s.start_row));
        let id = env.id(name, "function"@, start);
        let here = out.node(
            env,
            name,
            "function"@,
            start,
            Some(line(s.end_row)),
            Some(cut(env.text(s), 2000)),
            m,
        ).owned(owner, id, "contains"@);
        if env.tier == IndexingTier::Fast {
            here
        } else {
            invocations(env, kids_in(s, "body"@), id, here)
        }
    }
}

/// A type that is one node with a list of its members' names.
pub open spec fn listed_type(
    env: Env,
    s: Shape,
    node_type: Seq<char>,
    key: Seq<char>,
    member: Seq<char>,
    out: Out,
) -> Out {
    let name = either_text(env, s, "identifier"@, "identifier"@);
    if name.len() == 0 {
        out
    } else {
        out.node(
            env,
            name,
            node_type,
            Some(line(s.start_row)),
            Some(line(s.end_row)),
            None,
            with_list(
                Meta::empty(),
                key,
                names(env, kids_in(s, "body"@), member, member, "identifier"@),
            ),
        )
    }
}

fn extract_method(ctx: &mut ExtractionContext, node: &SyntaxNode, owner: Option<&str>)
    ensures
        final(ctx).env() == old(ctx).env(),
        final(ctx).out() == method(old(ctx).env(), shape(*node), id_of(owner), old(ctx).out()),
{
    let name = name_text(ctx, node, "identifier");
    if name.as_str().is_empty() {
        return;
    }
    let mut meta = Metadata::new();
    note_field(&mut meta, "parameters", ctx, node, "parameters");
    note_field(&mut meta, "return_type", ctx, node, "type");
    let content = Some(cut_text(ctx.node_text(node), 2000));
    let id = ctx.add_node(
        name.as_str(),
        "function",
        Some(line_of(node.start_row)),
        Some(line_of(node.end_row)),
        content,
        meta,
    );
    ctx.add_owned(owner, id.as_str(), "contains");
    if ctx.tier != IndexingTier::Fast {
        match child_by_field(node, "body") {
            Some(body) => walk_invocations(ctx, &body.children, id.as_str()),
            None => {},
        }
    }
}

fn extract_listed(ctx: &mut ExtractionContext, node: &SyntaxNode, node_type: &str, key: &str, member: &str)
    ensures
        final(ctx).env() == old(ctx).env(),
        final(ctx).out() == listed_type(
            old(ctx).env(),
            shape(*node),
            node_type@,
            key@,
            member@,
            old(ctx).out(),
        ),
{
    let name = name_text(ctx, node, "identifier");
    if name.as_str().is_empty() {
        return;
    }
    let mut meta = Metadata::new();
    meta.note_list(key, member_names(ctx, node, "body", member, member, "identifier"));
    ctx.add_node(
        name.as_str(),
        node_type,
        Some(line_of(node.start_row)),
        Some(line_of(node.end_row)),
        None,
        meta,
    );
}

// ---- the tree ----------------------------------------------------------------------------------

/// The node of a class, without its members.
pub open spec fn class_node(env: Env, s: Shape, name: Seq<char>, owner: Option<Seq<char>>, out: Out) -> Out {
    let m = with_text(Meta::empty(), "extends"@, field_text(env, s, "superclass"@));
    let m = with_text(m, "implements"@, field_text(env, s, "interfaces"@));
    let start = Some(line(s.start_row));
    out.node(env, name, "class"@, start, Some(line(s.end_row)), None, m).owned(
        owner,
        env.id(name, "class"@, start),
        "contains"@,
    )
}

/// What a class makes: its own node, and what its body makes as its own.
pub open spec fn class(env: Env, s: Shape, owner: Option<Seq<char>>, out: Out) -> Out
    decreases s, 0int,
{
    let name = either_text(env, s, "identifier"@, "identifier"@);
    let k = field_place(s.children, "body"@) as int;
    if name.len() == 0 {
        out
    } else if k < s.children.len() {
        all_nodes(
            env,
            s.children[k].children,
            Some(env.id(name, "class"@, Some(line(s.start_row)))),
            class_node(env, s, name, owner, out),
        )
    } else {
        class_node(env, s, name, owner, out)
    }
}

/// What a node makes: a declaration, or else what is below it.
pub open spec fn node(env: Env, s: Shape, owner: Option<Seq<char>>, out: Out) -> Out
    decreases s, 1int,
{
    if s.kind == "class_declaration"@ {
        class(env, s, owner, out)
    } else if s.kind == "interface_declaration"@ {
        listed_type(env, s, "interface"@, "methods"@, "method_declaration"@, out)
    } else if s.kind == "method_declaration"@ || s.kind == "constructor_declaration"@ {
        method(env, s, owner, out)
    } else if s.kind == "import_declaration"@ {
        import_out(env, s, out)
    } else if s.kind == "enum_declaration"@ {
        listed_type(env, s, "enum"@, "constants"@, "enum_constant"@, out)
    } else {
        all_nodes(env, s.children, owner, out)
    }
}

pub open spec fn all_nodes(env: Env, kids: Seq<Shape>, owner: Option<Seq<char>>, out: Out) -> Out
    decreases kids, 0int,
{
    if kids.len() == 0 {
        out
    } else {
        node(env, kids.last(), owner, all_nodes(env, kids.drop_last(), owner, out))
    }
}

fn extract_class(ctx: &mut ExtractionContext, node: &SyntaxNode, owner: Option<&str>)
    ensures
        final(ctx).env() == old(ctx).env(),
        final(ctx).out() == class(old(ctx).env(), shape(*node), id_of(owner), old(ctx).out()),
    decreases node, 0int,
{
    let name = name_text(ctx, node, "identifier");
    if name.as_str().is_empty() {
        return;
    }
    let mut meta = Metadata::new();
    note_field(&mut meta, "extends", ctx, node, "superclass");
    note_field(&mut meta, "implements", ctx, node, "interfaces");
    let id = ctx.add_node(
        name.as_str(),
        "class",
        Some(line_of(node.start_row)),
        Some(line_of(node.end_row)),
        None,
        meta,
    );
    ctx.add_owned(owner, id.as_str(), "contains");
    let k = find_field(&node.children, "body");
    proof {
        lemma_shapes(node.children@);
    }
    if k < node.children.len() {
        walk_all(ctx, &node.children[k].children, Some(id.as_str()));
    }
}

fn walk(ctx: &mut ExtractionContext, node: &SyntaxNode, owner: Option<&str>)
    ensures
        final(ctx).env() == old(ctx).env(),
        final(ctx).out() == self::node(old(ctx).env(), shape(*node), id_of(owner), old(ctx).out()),
    decreases node, 1int,
{
    let kind = node.kind.as_str();
    if same_text(kind, "class_declaration") {
        extract_class(ctx, node, owner);
    } else if same_text(kind, "interface_declaration") {
        extract_listed(ctx, node, "interface", "methods", "method_declaration");
    } else if same_text(kind, "method_declaration") || same_text(kind, "constructor_declaration") {
        extract_method(ctx, node, owner);
    } else if same_text(kind, "import_declaration") {
        extract_import(ctx, node);
    } else if same_text(kind, "enum_declaration") {
        extract_listed(ctx, node, "enum", "constants", "enum_constant");
    } else {
        walk_all(ctx, &node.children, owner);
    }
}

fn walk_all(ctx: &mut ExtractionContext, kids: &Vec<SyntaxNode>, owner: Option<&str>)
    ensures
        final(ctx).env() == old(ctx).env(),
        final(ctx).out() == all_nodes(old(ctx).env(), shapes(kids@), id_of(owner), old(ctx).out()),
    decreases kids, 0int,
{
    let ghost env = ctx.env();
    let ghost start = ctx.out();
    let ghost all = shapes(kids@);
    let mut i: usize = 0;
    proof {
        lemma_shapes(kids@);
    }
    while i < kids.len()
        invariant
            i <= kids@.len(),
            all == shapes(kids@),
            all.len() == kids@.len(),
            forall|k: int| 0 <= k < all.len() ==> #[trigger] all[k] == shape(kids@[k]),
            ctx.env() == env,
            ctx.out() == all_nodes(env, all.take(i as int), id_of(owner), start),
        decreases kids.len() - i,
    {
        proof {
            lemma_take_next(all, i as int);
            assert(all[i as int] == shape(kids@[i as int]));
        }
        walk(ctx, &kids[i], owner);
        i = i + 1;
    }
    assert(all.take(i as int) =~= all);
}

/// Extracts a parsed Java file.
pub fn extract(ctx: &mut ExtractionContext, root: &SyntaxNode)
    ensures
        final(ctx).env() == old(ctx).env(),
        final(ctx).out() == node(old(ctx).env(), shape(*root), None, old(ctx).out()),
{
    walk(ctx, root, None);
}

} // verus!
