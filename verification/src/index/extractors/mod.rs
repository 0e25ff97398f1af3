//! Extractors: what each language's syntax trees say of its symbols.
//!
//! What an extractor collects is stated as a function of the tree and of
//! what was collected before it.

use vstd::prelude::*;
use crate::gather::gather;
use crate::index::parser::{
    line, line_of, with_text, Env, ExtractionContext, Meta, MetaValue, MetaView, Metadata, Out,
};
use crate::index::source::byte_len;
use crate::index::syntax::{lemma_shapes, shape, shapes, Shape, SyntaxNode};
use crate::lookup::{lemma_take_next, put};
use crate::text::same_text;

pub mod attribution;
pub mod c_cpp;
pub mod c_cpp_found;
pub mod go;
pub mod go_found;
pub mod java;
pub mod java_found;
pub mod notes;
pub mod python;
pub mod python_found;
pub mod rust;
pub mod rust_found;
pub mod trees;
pub mod typescript;
pub mod typescript_found;

verus! {

// ---- looking at children ------------------------------------------------------------

/// The place of the first node of a kind; the length if there is none.
pub open spec fn kind_place(kids: Seq<Shape>, kind: Seq<char>) -> nat
    decreases kids.len(),
{
    if kids.len() == 0 || kids[0].kind == kind {
        0
    } else {
        1 + kind_place(kids.skip(1), kind)
    }
}

/// The place of the first node in a field; the length if there is none.
pub open spec fn field_place(kids: Seq<Shape>, field: Seq<char>) -> nat
    decreases kids.len(),
{
    if kids.len() == 0 || kids[0].field == Some(field) {
        0
    } else {
        1 + field_place(kids.skip(1), field)
    }
}

/// The text of the first child of a kind.
pub open spec fn kind_text(env: Env, s: Shape, kind: Seq<char>) -> Option<Seq<char>> {
    let k = kind_place(s.children, kind);
    if k < s.children.len() {
        Some(env.text(s.children[k as int]))
    } else {
        None
    }
}

/// The text of the first child of one kind or else of another; nothing where
/// there is neither.
pub open spec fn either_text(env: Env, s: Shape, kind: Seq<char>, other: Seq<char>) -> Seq<char> {
    match kind_text(env, s, kind) {
        Some(t) => t,
        None => match kind_text(env, s, other) {
            Some(t) => t,
            None => Seq::empty(),
        },
    }
}

/// The first child in a field.
pub open spec fn child_in(s: Shape, field: Seq<char>) -> Option<Shape> {
    let k = field_place(s.children, field);
    if k < s.children.len() {
        Some(s.children[k as int])
    } else {
        None
    }
}

/// The children of the first child in a field; none where there is none.
pub open spec fn kids_in(s: Shape, field: Seq<char>) -> Seq<Shape> {
    match child_in(s, field) {
        Some(c) => c.children,
        None => Seq::empty(),
    }
}

/// The text of the first child in a field.
pub open spec fn field_text(env: Env, s: Shape, field: Seq<char>) -> Option<Seq<char>> {
    match child_in(s, field) {
        Some(c) => Some(env.text(c)),
        None => None,
    }
}

/// The names that the nodes of one of two kinds carry in a child of a third.
pub open spec fn names(env: Env, kids: Seq<Shape>, kind: Seq<char>, other: Seq<char>, part: Seq<char>) -> Seq<
    Seq<char>,
> {
    gather(
        kids,
        |s: Shape|
            if s.kind == kind || s.kind == other {
                kind_text(env, s, part)
            } else {
                None
            },
    )
}

/// Is a called expression recorded? It is not empty and, where only short
/// ones count, shorter than a hundred bytes.
pub open spec fn is_callee(callee: Seq<char>, short: bool) -> bool {
    callee.len() > 0 && (short ==> byte_len(callee) < 100)
}

/// The call that one node makes: what it has in its `function` field.
pub open spec fn call_at(env: Env, s: Shape, caller: Seq<char>, kind: Seq<char>, short: bool, out: Out) -> Out {
    if s.kind == kind {
        match field_text(env, s, "function"@) {
            Some(callee) => if is_callee(callee, short) {
                out.call(caller, callee)
            } else {
                out
            },
            None => out,
        }
    } else {
        out
    }
}

/// The calls that some nodes and everything below them make, in the order of
/// the source.
pub open spec fn calls(env: Env, kids: Seq<Shape>, caller: Seq<char>, kind: Seq<char>, short: bool, out: Out) -> Out
    decreases kids,
{
    if kids.len() == 0 {
        out
    } else {
        let before = calls(env, kids.drop_last(), caller, kind, short, out);
        let here = call_at(env, kids.last(), caller, kind, short, before);
        calls(env, kids.last().children, caller, kind, short, here)
    }
}

/// The node of an import: named by its own text.
pub open spec fn import_out(env: Env, s: Shape, out: Out) -> Out {
    let t = env.text(s);
    out.node(
        env,
        t,
        "import"@,
        Some(line(s.start_row)),
        None,
        None,
        Meta::empty().push(("raw"@, MetaView::Text(t))),
    )
}

/// The place of the first node of a kind.
pub(crate) fn find_kind(kids: &Vec<SyntaxNode>, kind: &str) -> (r: usize)
    ensures
        r == kind_place(shapes(kids@), kind@),
        r <= kids@.len(),
{
    let ghost all = shapes(kids@);
    let mut i: usize = 0;
    proof {
        lemma_shapes(kids@);
        assert(all.skip(0) =~= all);
    }
    while i < kids.len() && !same_text(kids[i].kind.as_str(), kind)
        invariant
            i <= kids@.len(),
            all == shapes(kids@),
            all.len() == kids@.len(),
            forall|k: int| 0 <= k < kids@.len() ==> #[trigger] all[k] == shape(kids@[k]),
            kind_place(all, kind@) == i + kind_place(all.skip(i as int), kind@),
        decreases kids.len() - i,
    {
        assert(all.skip(i as int)[0] == all[i as int]);
        assert(all.skip(i as int).skip(1) =~= all.skip(i + 1));
        i = i + 1;
    }
    if i < kids.len() {
        assert(all.skip(i as int)[0] == all[i as int]);
    }
    i
}

fn in_field(node: &SyntaxNode, field: &str) -> (r: bool)
    ensures
        r == (shape(*node).field == Some(field@)),
{
    match &node.field {
        Some(f) => same_text(f.as_str(), field),
        None => false,
    }
}

/// The place of the first node in a field.
pub(crate) fn find_field(kids: &Vec<SyntaxNode>, field: &str) -> (r: usize)
    ensures
        r == field_place(shapes(kids@), field@),
        r <= kids@.len(),
{
    let ghost all = shapes(kids@);
    let mut i: usize = 0;
    proof {
        lemma_shapes(kids@);
        assert(all.skip(0) =~= all);
    }
    while i < kids.len() && !in_field(&kids[i], field)
        invariant
            i <= kids@.len(),
            all == shapes(kids@),
            all.len() == kids@.len(),
            forall|k: int| 0 <= k < kids@.len() ==> #[trigger] all[k] == shape(kids@[k]),
            field_place(all, field@) == i + field_place(all.skip(i as int), field@),
        decreases kids.len() - i,
    {
        assert(all.skip(i as int)[0] == all[i as int]);
        assert(all.skip(i as int).skip(1) =~= all.skip(i + 1));
        i = i + 1;
    }
    if i < kids.len() {
        assert(all.skip(i as int)[0] == all[i as int]);
    }
    i
}

/// The text of the first child of a kind.
pub(crate) fn child_text(ctx: &ExtractionContext, node: &SyntaxNode, kind: &str) -> (r: Option<String>)
    ensures
        r.deep_view() == kind_text(ctx.env(), shape(*node), kind@),
{
    let k = find_kind(&node.children, kind);
    proof {
        lemma_shapes(node.children@);
    }
    if k < node.children.len() {
        Some(ctx.node_text(&node.children[k]).to_owned())
    } else {
        None
    }
}

/// The text of the first child of a kind; nothing where there is none.
pub(crate) fn name_text(ctx: &ExtractionContext, node: &SyntaxNode, kind: &str) -> (r: String)
    ensures
        r@ == either_text(ctx.env(), shape(*node), kind@, kind@),
{
    match child_text(ctx, node, kind) {
        Some(t) => t,
        None => {
            let r = String::new();
            assert(r@ =~= Seq::empty());
            r
        },
    }
}

/// The text of the first child of one kind or else of another.
pub(crate) fn either_name(ctx: &ExtractionContext, node: &SyntaxNode, kind: &str, other: &str) -> (r: String)
    ensures
        r@ == either_text(ctx.env(), shape(*node), kind@, other@),
{
    match child_text(ctx, node, kind) {
        Some(t) => t,
        None => name_text(ctx, node, other),
    }
}

/// The first child in a field.
pub(crate) fn child_by_field<'a>(node: &'a SyntaxNode, field: &str) -> (r: Option<&'a SyntaxNode>)
    ensures
        match r {
            Some(c) => child_in(shape(*node), field@) == Some(shape(*c)),
            None => child_in(shape(*node), field@) is None,
        },
{
    let k = find_field(&node.children, field);
    proof {
        lemma_shapes(node.children@);
    }
    if k < node.children.len() {
        Some(&node.children[k])
    } else {
        None
    }
}

/// Notes the text of the first child in a field.
pub(crate) fn note_field(meta: &mut Metadata, key: &str, ctx: &ExtractionContext, node: &SyntaxNode, field: &str)
    ensures
        final(meta).deep_view() == with_text(
            old(meta).deep_view(),
            key@,
            field_text(ctx.env(), shape(*node), field@),
        ),
{
    match child_by_field(node, field) {
        Some(c) => meta.note_text(key, Some(ctx.node_text(c))),
        None => meta.note_text(key, None),
    }
}

/// The names that the members of a field's node carry.
pub(crate) fn member_names(
    ctx: &ExtractionContext,
    node: &SyntaxNode,
    field: &str,
    kind: &str,
    other: &str,
    part: &str,
) -> (r: Vec<String>)
    ensures
        r.deep_view() == names(ctx.env(), kids_in(shape(*node), field@), kind@, other@, part@),
{
    match child_by_field(node, field) {
        Some(body) => names_of(ctx, body, kind, other, part),
        None => {
            let r: Vec<String> = Vec::new();
            assert(r.deep_view() =~= Seq::<Seq<char>>::empty());
            r
        },
    }
}

/// The names that the children of one of two kinds carry.
pub(crate) fn names_of(ctx: &ExtractionContext, body: &SyntaxNode, kind: &str, other: &str, part: &str) -> (r: Vec<
    String,
>)
    ensures
        r.deep_view() == names(ctx.env(), shape(*body).children, kind@, other@, part@),
{
    let ghost env = ctx.env();
    let ghost all = shapes(body.children@);
    let ghost f = |s: Shape|
        if s.kind == kind@ || s.kind == other@ {
            kind_text(env, s, part@)
        } else {
            None
        };
    let mut out: Vec<String> = Vec::new();
    let mut i: usize = 0;
    proof {
        lemma_shapes(body.children@);
        assert(out.deep_view() =~= gather(all.take(0), f));
    }
    while i < body.children.len()
        invariant
            i <= body.children@.len(),
            env == ctx.env(),
            all == shapes(body.children@),
            all.len() == body.children@.len(),
            forall|k: int| 0 <= k < all.len() ==> #[trigger] all[k] == shape(body.children@[k]),
            f == (|s: Shape|
                if s.kind == kind@ || s.kind == other@ {
                    kind_text(env, s, part@)
                } else {
                    None
                }),
            out.deep_view() == gather(all.take(i as int), f),
        decreases body.children.len() - i,
    {
        let child = &body.children[i];
        proof {
            lemma_take_next(all, i as int);
            assert(all[i as int] == shape(*child));
        }
        if same_text(child.kind.as_str(), kind) || same_text(child.kind.as_str(), other) {
            match child_text(ctx, child, part) {
                Some(t) => put(&mut out, t),
                None => {},
            }
        }
        i = i + 1;
    }
    assert(all.take(i as int) =~= all);
    out
}

/// Records the call that one node makes.
pub(crate) fn record_call(ctx: &mut ExtractionContext, node: &SyntaxNode, caller_id: &str, kind: &str, short: bool)
    ensures
        final(ctx).env() == old(ctx).env(),
        final(ctx).out() == call_at(old(ctx).env(), shape(*node), caller_id@, kind@, short, old(ctx).out()),
{
    if same_text(node.kind.as_str(), kind) {
        match child_by_field(node, "function") {
            Some(func) => {
                let callee = ctx.node_text(func).to_owned();
                if recorded(callee.as_str(), short) {
                    ctx.add_call(caller_id, callee.as_str());
                }
            },
            None => {},
        }
    }
}

/// Is a called expression recorded?
pub(crate) fn recorded(callee: &str, short: bool) -> (r: bool)
    ensures
        r == is_callee(callee@, short),
{
    !callee.is_empty() && (!short || callee.as_bytes().len() < 100)
}

/// Records the calls that some nodes and everything below them make.
pub(crate) fn walk_calls(
    ctx: &mut ExtractionContext,
    kids: &Vec<SyntaxNode>,
    caller_id: &str,
    kind: &str,
    short: bool,
)
    ensures
        final(ctx).env() == old(ctx).env(),
        final(ctx).out() == calls(old(ctx).env(), shapes(kids@), caller_id@, kind@, short, old(ctx).out()),
    decreases kids,
{
    let ghost env = ctx.env();
    let ghost start = ctx.out();
    let ghost all = shapes(kids@);
    let mut i: usize = 0;
    proof {
        lemma_shapes(kids@);
    }
    while i < kids.len()
        invariant
            i <= kids@.len(),
            all == shapes(kids@),
            all.len() == kids@.len(),
            forall|k: int| 0 <= k < all.len() ==> #[trigger] all[k] == shape(kids@[k]),
            ctx.env() == env,
            ctx.out() == calls(env, all.take(i as int), caller_id@, kind@, short, start),
        decreases kids.len() - i,
    {
        let node = &kids[i];
        proof {
            lemma_take_next(all, i as int);
            assert(all[i as int] == shape(*node));
        }
        record_call(ctx, node, caller_id, kind, short);
        walk_calls(ctx, &node.children, caller_id, kind, short);
        i = i + 1;
    }
    assert(all.take(i as int) =~= all);
}

/// Adds the node of an import and returns its id.
pub(crate) fn extract_import(ctx: &mut ExtractionContext, node: &SyntaxNode) -> (id: String)
    ensures
        id@ == old(ctx).env().id(
            old(ctx).env().text(shape(*node)),
            "import"@,
            Some(line(shape(*node).start_row)),
        ),
        final(ctx).env() == old(ctx).env(),
        final(ctx).out() == import_out(old(ctx).env(), shape(*node), old(ctx).out()),
{
    let t = ctx.node_text(node).to_owned();
    let mut meta = Metadata::new();
    meta.note("raw", MetaValue::Text(t.as_str().to_owned()));
    ctx.add_node(t.as_str(), "import", Some(line_of(node.start_row)), None, None, meta)
}

} // verus!
