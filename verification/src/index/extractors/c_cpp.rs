//! The extractor for C and C++: functions, structs, enums, classes, included
//! files, type definitions, and calls.

use vstd::prelude::*;
use crate::index::extractors::{
    calls, child_by_field, child_in, either_name, either_text, extract_import, field_place, field_text, find_field,
    import_out, kids_in, member_names, names, note_field, walk_calls,
};
use crate::index::parser::{
    id_of, line, line_of, with_list, with_text, Env, ExtractionContext, Meta, Metadata, Out,
};
use crate::index::source::{cut, cut_text};
use crate::index::syntax::{lemma_shapes, shape, shapes, Shape, SyntaxNode};
use crate::index::tier::IndexingTier;
use crate::lookup::lemma_take_next;
use crate::text::{last_word, last_word_text, only, same_text, strip_leading, strip_trailing, trim_end_by, trim_start_by};

verus! {

// ---- names of functions ----------------------------------------------------------------------

/// The identifier that a declarator declares: itself if it is one, or else
/// that of its inner declarator, or else the first among its children.
pub open spec fn declared(env: Env, s: Shape) -> Option<Seq<char>>
    decreases s,
{
    let k = field_place(s.children, "declarator"@) as int;
    if s.kind == "identifier"@ || s.kind == "field_identifier"@ {
        Some(env.text(s))
    } else if k < s.children.len() {
        declared(env, s.children[k])
    } else {
        first_declared(env, s.children)
    }
}

/// The identifier of the first of some nodes that declares one.
pub open spec fn first_declared(env: Env, kids: Seq<Shape>) -> Option<Seq<char>>
    decreases kids,
{
    if kids.len() == 0 {
        None
    } else {
        match first_declared(env, kids.drop_last()) {
            Some(t) => Some(t),
            None => declared(env, kids.last()),
        }
    }
}

fn find_identifier_in(ctx: &ExtractionContext, node: &SyntaxNode) -> (r: Option<String>)
    ensures
        r.deep_view() == declared(ctx.env(), shape(*node)),
    decreases node,
{
    if same_text(node.kind.as_str(), "identifier") || same_text(node.kind.as_str(), "field_identifier") {
        return Some(ctx.node_text(node).to_owned());
    }
    let k = find_field(&node.children, "declarator");
    proof {
        lemma_shapes(node.children@);
    }
    if k < node.children.len() {
        return find_identifier_in(ctx, &node.children[k]);
    }
    let ghost all = shapes(node.children@);
    let mut i: usize = 0;
    while i < node.children.len()
        invariant
            i <= node.children@.len(),
            all == shapes(node.children@),
            all.len() == node.children@.len(),
            forall|k: int| 0 <= k < all.len() ==> #[trigger] all[k] == shape(node.children@[k]),
            shape(*node).children == all,
            shape(*node).kind != "identifier"@ && shape(*node).kind != "field_identifier"@,
            field_place(all, "declarator"@) >= all.len(),
            first_declared(ctx.env(), all.take(i as int)) is None,
        decreases node.children.len() - i,
    {
        proof {
            lemma_take_next(all, i as int);
            assert(all[i as int] == shape(node.children@[i as int]));
        }
        match find_identifier_in(ctx, &node.children[i]) {
            Some(name) => {
                proof {
                    lemma_first_declared(ctx.env(), all, i + 1);
                }
                return Some(name);
            },
            None => {},
        }
        i = i + 1;
    }
    assert(all.take(i as int) =~= all);
    None
}

proof fn lemma_first_declared(env: Env, kids: Seq<Shape>, n: int)
    requires
        0 <= n <= kids.len(),
        first_declared(env, kids.take(n)) is Some,
    ensures
        first_declared(env, kids) == first_declared(env, kids.take(n)),
    decreases kids.len() - n,
{
    if n < kids.len() {
        lemma_take_next(kids, n);
        lemma_first_declared(env, kids, n + 1);
    } else {
        assert(kids.take(n) =~= kids);
    }
}

/// The name of a function: what its declarator declares.
pub open spec fn function_name(env: Env, s: Shape) -> Seq<char> {
    match child_in(s, "declarator"@) {
        Some(d) => match declared(env, d) {
            Some(t) => t,
            None => Seq::empty(),
        },
        None => Seq::empty(),
    }
}

fn find_function_name(ctx: &ExtractionContext, node: &SyntaxNode) -> (r: String)
    ensures
        r@ == function_name(ctx.env(), shape(*node)),
{
    let found = match child_by_field(node, "declarator") {
        Some(d) => find_identifier_in(ctx, d),
        None => None,
    };
    match found {
        Some(t) => t,
        None => {
            let r = String::new();
            assert(r@ =~= Seq::empty());
            r
        },
    }
}

// ---- declarations ------------------------------------------------------------------------------

pub open spec fn function(env: Env, s: Shape, owner: Option<Seq<char>>, out: Out) -> Out {
    let name = function_name(env, s);
    if name.len() == 0 {
        out
    } else {
        let start = Some(line(s.start_row));
        let id = env.id(name, "function"@, start);
        let here = out.node(
            env,
            name,
            "function"@,
            start,
            Some(line(s.end_row)),
            Some(cut(env.text(s), 2000)),
            with_text(Meta::empty(), "return_type"@, field_text(env, s, "type"@)),
        ).owned(owner, id, "contains"@);
        if env.tier == IndexingTier::Fast {
            here
        } else {
            calls(env, kids_in(s, "body"@), id, "call_expression"@, true, here)
        }
    }
}

/// What a struct, an enum or a class is called.
pub open spec fn tag_name(env: Env, s: Shape) -> Seq<char> {
    either_text(env, s, "type_identifier"@, "identifier"@)
}

pub open spec fn struct_out(env: Env, s: Shape, out: Out) -> Out {
    let name = tag_name(env, s);
    if name.len() == 0 {
        out
    } else {
        out.node(
            env,
            name,
            "struct"@,
            Some(line(s.start_row)),
            Some(line(s.end_row)),
            Some(cut(env.text(s), 2000)),
            with_list(
                Meta::empty(),
                "fields"@,
                names(env, kids_in(s, "body"@), "field_declaration"@, "field_declaration"@, "field_identifier"@),
            ),
        )
    }
}

pub open spec fn enum_out(env: Env, s: Shape, out: Out) -> Out {
    let name = tag_name(env, s);
    if name.len() == 0 {
        out
    } else {
        out.node(
            env,
            name,
            "enum"@,
            Some(line(s.start_row)),
            Some(line(s.end_row)),
            None,
            with_list(
                Meta::empty(),
                "values"@,
                names(env, kids_in(s, "body"@), "enumerator"@, "enumerator"@, "identifier"@),
            ),
        )
    }
}

/// The functions among some nodes, each contained by an owner.
pub open spec fn functions(env: Env, kids: Seq<Shape>, owner: Seq<char>, out: Out) -> Out
    decreases kids.len(),
{
    if kids.len() == 0 {
        out
    } else {
        let before = functions(env, kids.drop_last(), owner, out);
        if kids.last().kind == "function_definition"@ {
            function(env, kids.last(), Some(owner), before)
        } else {
            before
        }
    }
}

pub open spec fn class_out(env: Env, s: Shape, out: Out) -> Out {
    let name = tag_name(env, s);
    if name.len() == 0 {
        out
    } else {
        let start = Some(line(s.start_row));
        functions(
            env,
            kids_in(s, "body"@),
            env.id(name, "class"@, start),
            out.node(env, name, "class"@, start, Some(line(s.end_row)), None, Meta::empty()),
        )
    }
}

/// The name that a type definition gives: its last word, without semicolons
/// behind it and stars before it.
pub open spec fn typedef_name(t: Seq<char>) -> Seq<char> {
    trim_start_by(last_word(trim_end_by(t, only(';'))), only('*'))
}

pub open spec fn typedef_out(env: Env, s: Shape, out: Out) -> Out {
    let t = env.text(s);
    let name = typedef_name(t);
    if name.len() == 0 {
        out
    } else {
        out.node(
            env,
            name,
            "type_alias"@,
            Some(line(s.start_row)),
            None,
            Some(cut(t, 500)),
            Meta::empty(),
        )
    }
}

fn extract_function(ctx: &mut ExtractionContext, node: &SyntaxNode, owner: Option<&str>)
    ensures
        final(ctx).env() == old(ctx).env(),
        final(ctx).out() == function(old(ctx).env(), shape(*node), id_of(owner), old(ctx).out()),
{
    let name = find_function_name(ctx, node);
    if name.as_str().is_empty() {
        return;
    }
    let mut meta = Metadata::new();
    note_field(&mut meta, "return_type", ctx, node, "type");
    let content = Some(cut_text(ctx.node_text(node), 2000));
    let id = ctx.add_node(
        name.as_str(),
        "function",
        Some(line_of(node.start_row)),
        Some(line_of(node.end_row)),
        content,
        meta,
    );
    ctx.add_owned(owner, id.as_str(), "contains");
    if ctx.tier != IndexingTier::Fast {
        match child_by_field(node, "body") {
            Some(body) => walk_calls(ctx, &body.children, id.as_str(), "call_expression", true),
            None => {},
        }
    }
}

fn extract_struct(ctx: &mut ExtractionContext, node: &SyntaxNode)
    ensures
        final(ctx).env() == old(ctx).env(),
        final(ctx).out() == struct_out(old(ctx).env(), shape(*node), old(ctx).out()),
{
    let name = either_name(ctx, node, "type_identifier", "identifier");
    if name.as_str().is_empty() {
        return;
    }
    let mut meta = Metadata::new();
    meta.note_list(
        "fields",
        member_names(ctx, node, "body", "field_declaration", "field_declaration", "field_identifier"),
    );
    let content = Some(cut_text(ctx.node_text(node), 2000));
    ctx.add_node(
        name.as_str(),
        "struct",
        Some(line_of(node.start_row)),
        Some(line_of(node.end_row)),
        content,
        meta,
    );
}

fn extract_enum(ctx: &mut ExtractionContext, node: &SyntaxNode)
    ensures
        final(ctx).env() == old(ctx).env(),
        final(ctx).out() == enum_out(old(ctx).env(), shape(*node), old(ctx).out()),
{
    let name = either_name(ctx, node, "type_identifier", "identifier");
    if name.as_str().is_empty() {
        return;
    }
    let mut meta = Metadata::new();
    meta.note_list("values", member_names(ctx, node, "body", "enumerator", "enumerator", "identifier"));
    ctx.add_node(
        name.as_str(),
        "enum",
        Some(line_of(node.start_row)),
        Some(line_of(node.end_row)),
        None,
        meta,
    );
}

fn walk_functions(ctx: &mut ExtractionContext, kids: &Vec<SyntaxNode>, owner: &str)
    ensures
        final(ctx).env() == old(ctx).env(),
        final(ctx).out() == functions(old(ctx).env(), shapes(kids@), owner@, old(ctx).out()),
{
    let ghost env = ctx.env();
    let ghost start = ctx.out();
    let ghost all = shapes(kids@);
    let mut i: usize = 0;
    proof {
        lemma_shapes(kids@);
    }
    while i < kids.len()
        invariant
            i <= kids@.len(),
            all == shapes(kids@),
            all.len() == kids@.len(),
            forall|k: int| 0 <= k < all.len() ==> #[trigger] all[k] == shape(kids@[k]),
            ctx.env() == env,
            ctx.out() == functions(env, all.take(i as int), owner@, start),
        decreases kids.len() - i,
    {
        proof {
            lemma_take_next(all, i as int);
            assert(all[i as int] == shape(kids@[i as int]));
        }
        if same_text(kids[i].kind.as_str(), "function_definition") {
            extract_function(ctx, &kids[i], Some(owner));
        }
        i = i + 1;
    }
    assert(all.take(i as int) =~= all);
}

fn extract_class(ctx: &mut ExtractionContext, node: &SyntaxNode)
    ensures
        final(ctx).env() == old(ctx).env(),
        final(ctx).out() == class_out(old(ctx).env(), shape(*node), old(ctx).out()),
{
    let name = either_name(ctx, node, "type_identifier", "identifier");
    if name.as_str().is_empty() {
        return;
    }
    let id = ctx.add_node(
        name.as_str(),
        "class",
        Some(line_of(node.start_row)),
        Some(line_of(node.end_row)),
        None,
        Metadata::new(),
    );
    match child_by_field(node, "body") {
        Some(body) => walk_functions(ctx, &body.children, id.as_str()),
        None => {},
    }
}

fn extract_typedef(ctx: &mut ExtractionContext, node: &SyntaxNode)
    ensures
        final(ctx).env() == old(ctx).env(),
        final(ctx).out() == typedef_out(old(ctx).env(), shape(*node), old(ctx).out()),
{
    let t = ctx.node_text(node);
    let bare = strip_trailing(t, ';');
    let word = last_word_text(bare.as_str());
    let name = strip_leading(word.as_str(), '*');
    if name.as_str().is_empty() {
        return;
    }
    let content = Some(cut_text(t, 500));
    ctx.add_node(
        name.as_str(),
        "type_alias",
        Some(line_of(node.start_row)),
        None,
        content,
        Metadata::new(),
    );
}

// ---- the tree ------------------------------------------------------------------------------------

/// What a node itself declares.
pub open spec fn declaration(env: Env, s: Shape, owner: Option<Seq<char>>, out: Out) -> Out {
    if s.kind == "function_definition"@ {
        function(env, s, owner, out)
    } else if s.kind == "struct_specifier"@ {
        struct_out(env, s, out)
    } else if s.kind == "enum_specifier"@ {
        enum_out(env, s, out)
    } else if s.kind == "class_specifier"@ {
        class_out(env, s, out)
    } else if s.kind == "preproc_include"@ {
        import_out(env, s, out)
    } else if s.kind == "type_definition"@ {
        typedef_out(env, s, out)
    } else {
        out
    }
}

/// What some nodes declare, each before everything below it.
pub open spec fn all_nodes(env: Env, kids: Seq<Shape>, owner: Option<Seq<char>>, out: Out) -> Out
    decreases kids,
{
    if kids.len() == 0 {
        out
    } else {
        let here = declaration(env, kids.last(), owner, all_nodes(env, kids.drop_last(), owner, out));
        all_nodes(env, kids.last().children, owner, here)
    }
}

fn declare(ctx: &mut ExtractionContext, node: &SyntaxNode, owner: Option<&str>)
    ensures
        final(ctx).env() == old(ctx).env(),
        final(ctx).out() == declaration(old(ctx).env(), shape(*node), id_of(owner), old(ctx).out()),
{
    let kind = node.kind.as_str();
    if same_text(kind, "function_definition") {
        extract_function(ctx, node, owner);
    } else if same_text(kind, "struct_specifier") {
        extract_struct(ctx, node);
    } else if same_text(kind, "enum_specifier") {
        extract_enum(ctx, node);
    } else if same_text(kind, "class_specifier") {
        extract_class(ctx, node);
    } else if same_text(kind, "preproc_include") {
        extract_import(ctx, node);
    } else if same_text(kind, "type_definition") {
        extract_typedef(ctx, node);
    }
}

fn walk_all(ctx: &mut ExtractionContext, kids: &Vec<SyntaxNode>, owner: Option<&str>)
    ensures
        final(ctx).env() == old(ctx).env(),
        final(ctx).out() == all_nodes(old(ctx).env(), shapes(kids@), id_of(owner), old(ctx).out()),
    decreases kids,
{
    let ghost env = ctx.env();
    let ghost start = ctx.out();
    let ghost all = shapes(kids@);
    let mut i: usize = 0;
    proof {
        lemma_shapes(kids@);
    }
    while i < kids.len()
        invariant
            i <= kids@.len(),
            all == shapes(kids@),
            all.len() == kids@.len(),
            forall|k: int| 0 <= k < all.len() ==> #[trigger] all[k] == shape(kids@[k]),
            ctx.env() == env,
            ctx.out() == all_nodes(env, all.take(i as int), id_of(owner), start),
        decreases kids.len() - i,
    {
        proof {
            lemma_take_next(all, i as int);
            assert(all[i as int] == shape(kids@[i as int]));
        }
        declare(ctx, &kids[i], owner);
        walk_all(ctx, &kids[i].children, owner);
        i = i + 1;
    }
    assert(all.take(i as int) =~= all);
}

/// Extracts a parsed C or C++ file.
pub fn extract(ctx: &mut ExtractionContext, root: &SyntaxNode)
    ensures
        final(ctx).env() == old(ctx).env(),
        final(ctx).out() == all_nodes(
            old(ctx).env(),
            shape(*root).children,
            None,
            declaration(old(ctx).env(), shape(*root), None, old(ctx).out()),
        ),
{
    declare(ctx, root, None);
    walk_all(ctx, &root.children, None);
}

} // verus!
