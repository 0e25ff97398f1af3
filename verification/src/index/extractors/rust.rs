//! The Rust extractor: functions, closure bindings, structs, enums, traits,
//! impl blocks, imports, modules, macro calls, and calls.

use vstd::prelude::*;
use crate::gather::gather;
use crate::index::extractors::{
    calls, child_by_field, child_in, either_name, either_text, extract_import, field_place, field_text, find_field,
    import_out, kids_in, member_names, name_text, names, note_field, walk_calls,
};
use crate::index::parser::{
    id_of, line, line_of, with_flag, with_list, with_text, Env, ExtractionContext, Meta, MetaValue, MetaView, Metadata,
    Out,
};
use crate::index::source::{cut, cut_text};
use crate::index::syntax::{lemma_shapes, shape, shapes, Shape, SyntaxNode};
use crate::index::tier::IndexingTier;
use crate::lookup::{lemma_take_next, put};
use crate::text::{
    begins_with, char_place, chars_of, contains_part, end_of_last, find_char, find_end_of_last, has_part, same_text, split_char, split_text, starts_with_text, text_between,
    trim_text, trimmed,
};

verus! {

// ---- derives ----------------------------------------------------------------------------

/// The traits that an attribute derives: what stands between its
/// parentheses, at the commas, trimmed. Parentheses the wrong way round hold
/// nothing.
pub open spec fn derive_names(s: Seq<char>) -> Seq<Seq<char>> {
    let from = char_place(s, '(') + 1;
    let to = end_of_last(s, ')') - 1;
    if has_part(s, "derive"@) && from <= to {
        gather(
            split_char(s.subrange(from as int, to), ','),
            |p: Seq<char>|
                if trimmed(p).len() > 0 {
                    Some(trimmed(p))
                } else {
                    None
                },
        )
    } else {
        Seq::empty()
    }
}

/// The traits that the attributes right before a node derive, the nearest
/// attribute first.
pub open spec fn derives(env: Env, before: Seq<Shape>) -> Seq<Seq<char>>
    decreases before.len(),
{
    if before.len() == 0 || before.last().kind != "attribute_item"@ {
        Seq::empty()
    } else {
        derive_names(env.text(before.last())) + derives(env, before.drop_last())
    }
}

fn parse_derives(s: &str) -> (r: Vec<String>)
    ensures
        r.deep_view() == derive_names(s@),
{
    let mut out: Vec<String> = Vec::new();
    assert(out.deep_view() =~= Seq::<Seq<char>>::empty());
    if !contains_part(s, "derive") {
        return out;
    }
    let v = chars_of(s);
    let from = find_char(&v, '(');
    let to = find_end_of_last(&v, ')');
    if to == 0 || from >= to - 1 {
        return out;
    }
    let inner = text_between(&v, from + 1, to - 1);
    let parts = split_text(inner.as_str(), ',');
    let ghost want = split_char(inner@, ',');
    let ghost f = |p: Seq<char>|
        if trimmed(p).len() > 0 {
            Some(trimmed(p))
        } else {
            None
        };
    assert(parts.deep_view() == want);
    assert(out.deep_view() =~= gather(want.take(0), f));
    let mut i: usize = 0;
    while i < parts.len()
        invariant
            i <= parts@.len(),
            parts.deep_view() == want,
            f == (|p: Seq<char>|
                if trimmed(p).len() > 0 {
                    Some(trimmed(p))
                } else {
                    None
                }),
            out.deep_view() == gather(want.take(i as int), f),
        decreases parts.len() - i,
    {
        proof {
            assert(want.len() == parts@.len());
            lemma_take_next(want, i as int);
            assert(want[i as int] == parts@[i as int]@);
        }
        let t = trim_text(parts[i].as_str());
        if !t.as_str().is_empty() {
            put(&mut out, t);
        }
        i = i + 1;
    }
    assert(want.take(i as int) =~= want);
    out
}

/// The traits that the attributes right before place `i` derive.
fn derives_before(ctx: &ExtractionContext, kids: &Vec<SyntaxNode>, i: usize) -> (r: Vec<String>)
    requires
        i <= kids@.len(),
    ensures
        r.deep_view() == derives(ctx.env(), shapes(kids@).take(i as int)),
{
    let ghost env = ctx.env();
    let ghost all = shapes(kids@);
    let mut out: Vec<String> = Vec::new();
    let mut j: usize = i;
    proof {
        lemma_shapes(kids@);
    }
    assert(out.deep_view() + derives(env, all.take(i as int)) =~= derives(env, all.take(i as int)));
    while j > 0 && same_text(kids[j - 1].kind.as_str(), "attribute_item")
        invariant
            j <= i <= kids@.len(),
            env == ctx.env(),
            all == shapes(kids@),
            all.len() == kids@.len(),
            forall|k: int| 0 <= k < all.len() ==> #[trigger] all[k] == shape(kids@[k]),
            out.deep_view() + derives(env, all.take(j as int)) == derives(env, all.take(i as int)),
        decreases j,
    {
        let mut more = parse_derives(ctx.node_text(&kids[j - 1]));
        let ghost had = out.deep_view();
        let ghost new = more.deep_view();
        proof {
            lemma_take_next(all, j - 1);
            assert(all[j - 1] == shape(kids@[j - 1]));
        }
        out.append(&mut more);
        assert(out.deep_view() =~= had + new);
        assert(had + (new + derives(env, all.take(j - 1))) =~= out.deep_view() + derives(env, all.take(j - 1)));
        j = j - 1;
    }
    proof {
        if j > 0 {
            lemma_take_next(all, j - 1);
            assert(all[j - 1] == shape(kids@[j - 1]));
        }
        assert(out.deep_view() + Seq::<Seq<char>>::empty() =~= out.deep_view());
    }
    out
}

// ---- functions -----------------------------------------------------------------------------

/// Does a text begin with a word, or hold it after a space?
pub open spec fn qualified_by(t: Seq<char>, start: Seq<char>, inside: Seq<char>) -> bool {
    begins_with(t, start) || has_part(t, inside)
}

/// A text where a condition holds.
pub open spec fn text_if(holds: bool, t: Seq<char>) -> Option<Seq<char>> {
    if holds {
        Some(t)
    } else {
        None
    }
}

pub open spec fn function_meta(env: Env, s: Shape) -> Meta {
    let t = env.text(s);
    let m = with_flag(Meta::empty(), "async"@, qualified_by(t, "async "@, " async "@));
    let m = with_flag(m, "unsafe"@, qualified_by(t, "unsafe "@, " unsafe "@));
    let m = with_text(m, "visibility"@, text_if(qualified_by(t, "pub "@, " pub "@), "public"@));
    let m = with_text(m, "return_type"@, field_text(env, s, "return_type"@));
    let m = with_text(m, "parameters"@, field_text(env, s, "parameters"@));
    with_text(m, "generics"@, field_text(env, s, "type_parameters"@))
}

/// A closure that one node binds to a plain name, contained by the function
/// around it.
pub open spec fn closure_at(env: Env, s: Shape, owner: Seq<char>, out: Out) -> Out {
    match (child_in(s, "value"@), child_in(s, "pattern"@)) {
        (Some(value), Some(pattern)) => {
            let name = env.text(pattern);
            if s.kind == "let_declaration"@ && value.kind == "closure_expression"@ && pattern.kind == "identifier"@
                && name.len() > 0 {
                let start = Some(line(s.start_row));
                out.node(
                    env,
                    name,
                    "function"@,
                    start,
                    Some(line(value.end_row)),
                    Some(cut(env.text(s), 2000)),
                    Meta::empty(),
                ).edge(owner, env.id(name, "function"@, start), "contains"@, "EXTRACTED"@)
            } else {
                out
            }
        },
        _ => out,
    }
}

/// The closures that some nodes and everything below them bind to names.
pub open spec fn closures(env: Env, kids: Seq<Shape>, owner: Seq<char>, out: Out) -> Out
    decreases kids,
{
    if kids.len() == 0 {
        out
    } else {
        let here = closure_at(env, kids.last(), owner, closures(env, kids.drop_last(), owner, out));
        closures(env, kids.last().children, owner, here)
    }
}

/// What a function's body adds: its calls, then its named closures.
pub open spec fn body_out(env: Env, s: Shape, id: Seq<char>, out: Out) -> Out {
    if env.tier == IndexingTier::Fast {
        out
    } else {
        match child_in(s, "body"@) {
            Some(body) => closures(
                env,
                body.children,
                id,
                calls(env, body.children, id, "call_expression"@, false, out),
            ),
            None => out,
        }
    }
}

pub open spec fn function(env: Env, s: Shape, owner: Option<Seq<char>>, out: Out) -> Out {
    let name = either_text(env, s, "identifier"@, "metavariable"@);
    if name.len() == 0 {
        out
    } else {
        let start = Some(line(s.start_row));
        let id = env.id(name, "function"@, start);
        body_out(
            env,
            s,
            id,
            out.node(
                env,
                name,
                "function"@,
                start,
                Some(line(s.end_row)),
                Some(cut(env.text(s), 2000)),
                function_meta(env, s),
            ).owned(owner, id, "contains"@),
        )
    }
}

fn qualifies(t: &str, start: &str, inside: &str) -> (r: bool)
    ensures
        r == qualified_by(t@, start@, inside@),
{
    starts_with_text(t, start) || contains_part(t, inside)
}

fn read_function_meta(ctx: &ExtractionContext, node: &SyntaxNode) -> (meta: Metadata)
    ensures
        meta.deep_view() == function_meta(ctx.env(), shape(*node)),
{
    let t = ctx.node_text(node);
    let mut meta = Metadata::new();
    meta.note_flag("async", qualifies(t, "async ", " async "));
    meta.note_flag("unsafe", qualifies(t, "unsafe ", " unsafe "));
    if qualifies(t, "pub ", " pub ") {
        meta.note_text("visibility", Some("public"));
    }
    note_field(&mut meta, "return_type", ctx, node, "return_type");
    note_field(&mut meta, "parameters", ctx, node, "parameters");
    note_field(&mut meta, "generics", ctx, node, "type_parameters");
    meta
}

fn bind_closure(ctx: &mut ExtractionContext, node: &SyntaxNode, owner: &str)
    ensures
        final(ctx).env() == old(ctx).env(),
        final(ctx).out() == closure_at(old(ctx).env(), shape(*node), owner@, old(ctx).out()),
{
    if !same_text(node.kind.as_str(), "let_declaration") {
        return;
    }
    match (child_by_field(node, "value"), child_by_field(node, "pattern")) {
        (Some(value), Some(pattern)) => {
            if same_text(value.kind.as_str(), "closure_expression") && same_text(pattern.kind.as_str(), "identifier") {
                let name = ctx.node_text(pattern).to_owned();
                if !name.as_str().is_empty() {
                    let content = Some(cut_text(ctx.node_text(node), 2000));
                    let id = ctx.add_node(
                        name.as_str(),
                        "function",
                        Some(line_of(node.start_row)),
                        Some(line_of(value.end_row)),
                        content,
                        Metadata::new(),
                    );
                    ctx.add_edge(owner, id.as_str(), "contains", "EXTRACTED");
                }
            }
        },
        _ => {},
    }
}

fn walk_closures(ctx: &mut ExtractionContext, kids: &Vec<SyntaxNode>, owner: &str)
    ensures
        final(ctx).env() == old(ctx).env(),
        final(ctx).out() == closures(old(ctx).env(), shapes(kids@), owner@, old(ctx).out()),
    decreases kids,
{
    let ghost env = ctx.env();
    let ghost start = ctx.out();
    let ghost all = shapes(kids@);
    let mut i: usize = 0;
    proof {
        lemma_shapes(kids@);
    }
    while i < kids.len()
        invariant
            i <= kids@.len(),
            all == shapes(kids@),
            all.len() == kids@.len(),
            forall|k: int| 0 <= k < all.len() ==> #[trigger] all[k] == shape(kids@[k]),
            ctx.env() == env,
            ctx.out() == closures(env, all.take(i as int), owner@, start),
        decreases kids.len() - i,
    {
        let node = &kids[i];
        proof {
            lemma_take_next(all, i as int);
            assert(all[i as int] == shape(*node));
        }
        bind_closure(ctx, node, owner);
        walk_closures(ctx, &node.children, owner);
        i = i + 1;
    }
    assert(all.take(i as int) =~= all);
}

fn extract_function(ctx: &mut ExtractionContext, node: &SyntaxNode, owner: Option<&str>)
    ensures
        final(ctx).env() == old(ctx).env(),
        final(ctx).out() == function(old(ctx).env(), shape(*node), id_of(owner), old(ctx).out()),
{
    let name = either_name(ctx, node, "identifier", "metavariable");
    if name.as_str().is_empty() {
        return;
    }
    let meta = read_function_meta(ctx, node);
    let content = Some(cut_text(ctx.node_text(node), 2000));
    let id = ctx.add_node(
        name.as_str(),
        "function",
        Some(line_of(node.start_row)),
        Some(line_of(node.end_row)),
        content,
        meta,
    );
    ctx.add_owned(owner, id.as_str(), "contains");
    if ctx.tier != IndexingTier::Fast {
        match child_by_field(node, "body") {
            Some(body) => {
                walk_calls(ctx, &body.children, id.as_str(), "call_expression", false);
                walk_closures(ctx, &body.children, id.as_str());
            },
            None => {},
        }
    }
}

// ---- types ----------------------------------------------------------------------------------

pub open spec fn struct_out(env: Env, s: Shape, before: Seq<Shape>, out: Out) -> Out {
    let name = either_text(env, s, "type_identifier"@, "type_identifier"@);
    if name.len() == 0 {
        out
    } else {
        let m = with_list(
            Meta::empty(),
            "fields"@,
            names(env, kids_in(s, "body"@), "field_declaration"@, "field_declaration"@, "field_identifier"@),
        );
        let m = with_list(m, "derives"@, derives(env, before));
        let m = with_text(m, "generics"@, field_text(env, s, "type_parameters"@));
        out.node(
            env,
            name,
            "struct"@,
            Some(line(s.start_row)),
            Some(line(s.end_row)),
            Some(cut(env.text(s), 2000)),
            m,
        )
    }
}

pub open spec fn enum_out(env: Env, s: Shape, before: Seq<Shape>, out: Out) -> Out {
    let name = either_text(env, s, "type_identifier"@, "type_identifier"@);
    if name.len() == 0 {
        out
    } else {
        let m = with_list(
            Meta::empty(),
            "variants"@,
            names(env, kids_in(s, "body"@), "enum_variant"@, "enum_variant"@, "identifier"@),
        );
        let m = with_list(m, "derives"@, derives(env, before));
        out.node(
            env,
            name,
            "enum"@,
            Some(line(s.start_row)),
            Some(line(s.end_row)),
            Some(cut(env.text(s), 2000)),
            m,
        )
    }
}

pub open spec fn trait_out(env: Env, s: Shape, out: Out) -> Out {
    let name = either_text(env, s, "type_identifier"@, "type_identifier"@);
    if name.len() == 0 {
        out
    } else {
        let m = with_list(
            Meta::empty(),
            "methods"@,
            names(env, kids_in(s, "body"@), "function_signature_item"@, "function_item"@, "identifier"@),
        );
        let m = with_text(m, "generics"@, field_text(env, s, "type_parameters"@));
        out.node(
            env,
            name,
            "trait"@,
            Some(line(s.start_row)),
            Some(line(s.end_row)),
            Some(cut(env.text(s), 1000)),
            m,
        )
    }
}

fn extract_struct(ctx: &mut ExtractionContext, kids: &Vec<SyntaxNode>, i: usize)
    requires
        i < kids@.len(),
    ensures
        final(ctx).env() == old(ctx).env(),
        final(ctx).out() == struct_out(
            old(ctx).env(),
            shape(kids@[i as int]),
            shapes(kids@).take(i as int),
            old(ctx).out(),
        ),
{
    let node = &kids[i];
    let name = name_text(ctx, node, "type_identifier");
    if name.as_str().is_empty() {
        return;
    }
    let mut meta = Metadata::new();
    meta.note_list(
        "fields",
        member_names(ctx, node, "body", "field_declaration", "field_declaration", "field_identifier"),
    );
    meta.note_list("derives", derives_before(ctx, kids, i));
    note_field(&mut meta, "generics", ctx, node, "type_parameters");
    let content = Some(cut_text(ctx.node_text(node), 2000));
    ctx.add_node(
        name.as_str(),
        "struct",
        Some(line_of(node.start_row)),
        Some(line_of(node.end_row)),
        content,
        meta,
    );
}

fn extract_enum(ctx: &mut ExtractionContext, kids: &Vec<SyntaxNode>, i: usize)
    requires
        i < kids@.len(),
    ensures
        final(ctx).env() == old(ctx).env(),
        final(ctx).out() == enum_out(
            old(ctx).env(),
            shape(kids@[i as int]),
            shapes(kids@).take(i as int),
            old(ctx).out(),
        ),
{
    let node = &kids[i];
    let name = name_text(ctx, node, "type_identifier");
    if name.as_str().is_empty() {
        return;
    }
    let mut meta = Metadata::new();
    meta.note_list(
        "variants",
        member_names(ctx, node, "body", "enum_variant", "enum_variant", "identifier"),
    );
    meta.note_list("derives", derives_before(ctx, kids, i));
    let content = Some(cut_text(ctx.node_text(node), 2000));
    ctx.add_node(
        name.as_str(),
        "enum",
        Some(line_of(node.start_row)),
        Some(line_of(node.end_row)),
        content,
        meta,
    );
}

fn extract_trait(ctx: &mut ExtractionContext, node: &SyntaxNode)
    ensures
        final(ctx).env() == old(ctx).env(),
        final(ctx).out() == trait_out(old(ctx).env(), shape(*node), old(ctx).out()),
{
    let name = name_text(ctx, node, "type_identifier");
    if name.as_str().is_empty() {
        return;
    }
    let mut meta = Metadata::new();
    meta.note_list(
        "methods",
        member_names(ctx, node, "body", "function_signature_item", "function_item", "identifier"),
    );
    note_field(&mut meta, "generics", ctx, node, "type_parameters");
    let content = Some(cut_text(ctx.node_text(node), 1000));
    ctx.add_node(
        name.as_str(),
        "trait",
        Some(line_of(node.start_row)),
        Some(line_of(node.end_row)),
        content,
        meta,
    );
}

// ---- impl blocks ------------------------------------------------------------------------------

/// The functions among some nodes, each contained by an owner.
pub open spec fn functions(env: Env, kids: Seq<Shape>, owner: Seq<char>, out: Out) -> Out
    decreases kids.len(),
{
    if kids.len() == 0 {
        out
    } else {
        let before = functions(env, kids.drop_last(), owner, out);
        if kids.last().kind == "function_item"@ {
            function(env, kids.last(), Some(owner), before)
        } else {
            before
        }
    }
}

/// What an impl block is called.
pub open spec fn impl_name(of: Seq<char>, by: Option<Seq<char>>) -> Seq<char> {
    match by {
        Some(t) => "impl "@ + t + " for "@ + of,
        None => "impl "@ + of,
    }
}

/// The edge from an impl block to its trait, which is known by name.
pub open spec fn implements(id: Seq<char>, by: Option<Seq<char>>, out: Out) -> Out {
    match by {
        Some(t) => out.name_edge(id, t, "trait"@, "implements"@, "INFERRED"@),
        None => out,
    }
}

pub open spec fn impl_out(env: Env, s: Shape, out: Out) -> Out {
    let by = field_text(env, s, "trait"@);
    match field_text(env, s, "type"@) {
        Some(of) => if of.len() > 0 {
            let name = impl_name(of, by);
            let m = Meta::empty().push(("impl_for"@, MetaView::Text(of)));
            let m = with_text(m, "impl_trait"@, by).push(("inherent"@, MetaView::Flag(by is None)));
            let start = Some(line(s.start_row));
            let id = env.id(name, "impl"@, start);
            functions(
                env,
                kids_in(s, "body"@),
                id,
                implements(id, by, out.node(env, name, "impl"@, start, Some(line(s.end_row)), None, m)),
            )
        } else {
            out
        },
        None => out,
    }
}

fn walk_functions(ctx: &mut ExtractionContext, kids: &Vec<SyntaxNode>, owner: &str)
    ensures
        final(ctx).env() == old(ctx).env(),
        final(ctx).out() == functions(old(ctx).env(), shapes(kids@), owner@, old(ctx).out()),
{
    let ghost env = ctx.env();
    let ghost start = ctx.out();
    let ghost all = shapes(kids@);
    let mut i: usize = 0;
    proof {
        lemma_shapes(kids@);
    }
    while i < kids.len()
        invariant
            i <= kids@.len(),
            all == shapes(kids@),
            all.len() == kids@.len(),
            forall|k: int| 0 <= k < all.len() ==> #[trigger] all[k] == shape(kids@[k]),
            ctx.env() == env,
            ctx.out() == functions(env, all.take(i as int), owner@, start),
        decreases kids.len() - i,
    {
        proof {
            lemma_take_next(all, i as int);
            assert(all[i as int] == shape(kids@[i as int]));
        }
        if same_text(kids[i].kind.as_str(), "function_item") {
            extract_function(ctx, &kids[i], Some(owner));
        }
        i = i + 1;
    }
    assert(all.take(i as int) =~= all);
}

fn name_impl(of: &str, by: &Option<String>) -> (r: String)
    ensures
        r@ == impl_name(of@, by.deep_view()),
{
    let mut r = "impl ".to_owned();
    match by {
        Some(t) => {
            r.append(t.as_str());
            r.append(" for ");
        },
        None => {},
    }
    r.append(of);
    r
}

fn copied_field(ctx: &ExtractionContext, node: &SyntaxNode, field: &str) -> (r: Option<String>)
    ensures
        r.deep_view() == field_text(ctx.env(), shape(*node), field@),
{
    match child_by_field(node, field) {
        Some(c) => Some(ctx.node_text(c).to_owned()),
        None => None,
    }
}

fn extract_impl(ctx: &mut ExtractionContext, node: &SyntaxNode)
    ensures
        final(ctx).env() == old(ctx).env(),
        final(ctx).out() == impl_out(old(ctx).env(), shape(*node), old(ctx).out()),
{
    let by = copied_field(ctx, node, "trait");
    let of = match copied_field(ctx, node, "type") {
        Some(t) => t,
        None => {
            return;
        },
    };
    if of.as_str().is_empty() {
        return;
    }
    let name = name_impl(of.as_str(), &by);
    let mut meta = Metadata::new();
    meta.note("impl_for", MetaValue::Text(of));
    match &by {
        Some(t) => meta.note_text("impl_trait", Some(t.as_str())),
        None => {},
    }
    meta.note("inherent", MetaValue::Flag(by.is_none()));
    let id = ctx.add_node(
        name.as_str(),
        "impl",
        Some(line_of(node.start_row)),
        Some(line_of(node.end_row)),
        None,
        meta,
    );
    match &by {
        Some(t) => ctx.add_name_edge(id.as_str(), t.as_str(), "trait", "implements", "INFERRED"),
        None => {},
    }
    match child_by_field(node, "body") {
        Some(body) => walk_functions(ctx, &body.children, id.as_str()),
        None => {},
    }
}

// ---- imports, modules, macros -----------------------------------------------------------------

pub open spec fn use_out(env: Env, s: Shape, owner: Option<Seq<char>>, out: Out) -> Out {
    import_out(env, s, out).owned(
        owner,
        env.id(env.text(s), "import"@, Some(line(s.start_row))),
        "imports"@,
    )
}

pub open spec fn macro_out(env: Env, s: Shape, owner: Option<Seq<char>>, out: Out) -> Out {
    let name = either_text(env, s, "identifier"@, "identifier"@);
    if name.len() == 0 {
        out
    } else {
        let start = Some(line(s.start_row));
        out.node(env, name, "macro_call"@, start, None, None, Meta::empty()).owned(
            owner,
            env.id(name, "macro_call"@, start),
            "calls"@,
        )
    }
}

/// The node of a module, without what is in it.
pub open spec fn module_out(env: Env, s: Shape, out: Out) -> Out {
    out.node(
        env,
        either_text(env, s, "identifier"@, "identifier"@),
        "module"@,
        Some(line(s.start_row)),
        Some(line(s.end_row)),
        None,
        with_text(Meta::empty(), "visibility"@, text_if(begins_with(env.text(s), "pub "@), "public"@)),
    )
}

fn extract_use(ctx: &mut ExtractionContext, node: &SyntaxNode, owner: Option<&str>)
    ensures
        final(ctx).env() == old(ctx).env(),
        final(ctx).out() == use_out(old(ctx).env(), shape(*node), id_of(owner), old(ctx).out()),
{
    let id = extract_import(ctx, node);
    ctx.add_owned(owner, id.as_str(), "imports");
}

fn extract_macro_invocation(ctx: &mut ExtractionContext, node: &SyntaxNode, owner: Option<&str>)
    ensures
        final(ctx).env() == old(ctx).env(),
        final(ctx).out() == macro_out(old(ctx).env(), shape(*node), id_of(owner), old(ctx).out()),
{
    let name = name_text(ctx, node, "identifier");
    if name.as_str().is_empty() {
        return;
    }
    let id = ctx.add_node(
        name.as_str(),
        "macro_call",
        Some(line_of(node.start_row)),
        None,
        None,
        Metadata::new(),
    );
    ctx.add_owned(owner, id.as_str(), "calls");
}

fn extract_module_node(ctx: &mut ExtractionContext, node: &SyntaxNode, name: &str) -> (id: String)
    requires
        name@ == either_text(old(ctx).env(), shape(*node), "identifier"@, "identifier"@),
    ensures
        id@ == old(ctx).env().id(name@, "module"@, Some(line(shape(*node).start_row))),
        final(ctx).env() == old(ctx).env(),
        final(ctx).out() == module_out(old(ctx).env(), shape(*node), old(ctx).out()),
{
    let mut meta = Metadata::new();
    if starts_with_text(ctx.node_text(node), "pub ") {
        meta.note_text("visibility", Some("public"));
    }
    ctx.add_node(
        name,
        "module",
        Some(line_of(node.start_row)),
        Some(line_of(node.end_row)),
        None,
        meta,
    )
}

// ---- items ------------------------------------------------------------------------------------

/// What the items among some nodes, and the items nested in them, make.
pub open spec fn items(env: Env, kids: Seq<Shape>, owner: Option<Seq<char>>, out: Out) -> Out
    decreases kids, 1int,
{
    if kids.len() == 0 {
        out
    } else {
        last_item(env, kids, owner, items(env, kids.drop_last(), owner, out))
    }
}

/// What the last of some nodes makes.
pub open spec fn last_item(env: Env, kids: Seq<Shape>, owner: Option<Seq<char>>, out: Out) -> Out
    decreases kids, 0int,
{
    let s = kids.last();
    let before = kids.drop_last();
    if kids.len() == 0 {
        out
    } else if s.kind == "function_item"@ {
        function(env, s, owner, out)
    } else if s.kind == "struct_item"@ {
        struct_out(env, s, before, out)
    } else if s.kind == "enum_item"@ {
        enum_out(env, s, before, out)
    } else if s.kind == "trait_item"@ {
        trait_out(env, s, out)
    } else if s.kind == "impl_item"@ {
        impl_out(env, s, out)
    } else if s.kind == "use_declaration"@ {
        use_out(env, s, owner, out)
    } else if s.kind == "mod_item"@ {
        mod_items(env, s, out)
    } else if s.kind == "macro_invocation"@ && env.tier == IndexingTier::Full {
        macro_out(env, s, owner, out)
    } else {
        items(env, s.children, owner, out)
    }
}

/// What a module makes: its own node, and the items in it as its own.
pub open spec fn mod_items(env: Env, s: Shape, out: Out) -> Out
    decreases s, 0int,
{
    let name = either_text(env, s, "identifier"@, "identifier"@);
    let k = field_place(s.children, "body"@) as int;
    if name.len() == 0 {
        out
    } else if k < s.children.len() {
        items(
            env,
            s.children[k].children,
            Some(env.id(name, "module"@, Some(line(s.start_row)))),
            module_out(env, s, out),
        )
    } else {
        module_out(env, s, out)
    }
}

fn extract_mod(ctx: &mut ExtractionContext, node: &SyntaxNode)
    ensures
        final(ctx).env() == old(ctx).env(),
        final(ctx).out() == mod_items(old(ctx).env(), shape(*node), old(ctx).out()),
    decreases node, 0int,
{
    let name = name_text(ctx, node, "identifier");
    if name.as_str().is_empty() {
        return;
    }
    let id = extract_module_node(ctx, node, name.as_str());
    let k = find_field(&node.children, "body");
    proof {
        lemma_shapes(node.children@);
    }
    if k < node.children.len() {
        extract_children(ctx, &node.children[k].children, Some(id.as_str()));
    }
}

fn extract_node(ctx: &mut ExtractionContext, kids: &Vec<SyntaxNode>, i: usize, owner: Option<&str>)
    requires
        i < kids@.len(),
    ensures
        final(ctx).env() == old(ctx).env(),
        final(ctx).out() == last_item(
            old(ctx).env(),
            shapes(kids@).take(i + 1),
            id_of(owner),
            old(ctx).out(),
        ),
    decreases kids, 0int,
{
    let node = &kids[i];
    let kind = node.kind.as_str();
    proof {
        lemma_shapes(kids@);
        lemma_take_next(shapes(kids@), i as int);
    }
    if same_text(kind, "function_item") {
        extract_function(ctx, node, owner);
    } else if same_text(kind, "struct_item") {
        extract_struct(ctx, kids, i);
    } else if same_text(kind, "enum_item") {
        extract_enum(ctx, kids, i);
    } else if same_text(kind, "trait_item") {
        extract_trait(ctx, node);
    } else if same_text(kind, "impl_item") {
        extract_impl(ctx, node);
    } else if same_text(kind, "use_declaration") {
        extract_use(ctx, node, owner);
    } else if same_text(kind, "mod_item") {
        extract_mod(ctx, node);
    } else if same_text(kind, "macro_invocation") && ctx.tier == IndexingTier::Full {
        extract_macro_invocation(ctx, node, owner);
    } else {
        extract_children(ctx, &node.children, owner);
    }
}

fn extract_children(ctx: &mut ExtractionContext, kids: &Vec<SyntaxNode>, owner: Option<&str>)
    ensures
        final(ctx).env() == old(ctx).env(),
        final(ctx).out() == items(old(ctx).env(), shapes(kids@), id_of(owner), old(ctx).out()),
    decreases kids, 1int,
{
    let ghost env = ctx.env();
    let ghost start = ctx.out();
    let ghost all = shapes(kids@);
    let mut i: usize = 0;
    proof {
        lemma_shapes(kids@);
    }
    while i < kids.len()
        invariant
            i <= kids@.len(),
            all == shapes(kids@),
            all.len() == kids@.len(),
            ctx.env() == env,
            ctx.out() == items(env, all.take(i as int), id_of(owner), start),
        decreases kids.len() - i,
    {
        proof {
            lemma_take_next(all, i as int);
        }
        extract_node(ctx, kids, i, owner);
        i = i + 1;
    }
    assert(all.take(i as int) =~= all);
}

/// Extracts a parsed Rust file.
pub fn extract(ctx: &mut ExtractionContext, root: &SyntaxNode)
    ensures
        final(ctx).env() == old(ctx).env(),
        final(ctx).out() == items(old(ctx).env(), shape(*root).children, None, old(ctx).out()),
{
    extract_children(ctx, &root.children, None);
}

} // verus!
