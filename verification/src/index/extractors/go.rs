//! The Go extractor: functions, methods, types, imports, and calls.
//!
//! A method is not nested in its receiver's type; both stand at the top of a
//! file, in any order. So the types are extracted first, and a method whose
//! type is in the same file is contained by it.

use vstd::prelude::*;
use crate::index::extractors::{
    calls, child_by_field, child_in, either_text, extract_import, field_text, import_out, kids_in, name_text, names,
    names_of, note_field, walk_calls,
};
use crate::index::parser::{
    line, line_of, with_flag, with_list, with_text, Env, ExtractionContext, Meta, Metadata, Out,
};
use crate::index::source::{cut, cut_text};
use crate::index::syntax::{lemma_shapes, shape, shapes, Shape, SyntaxNode};
use crate::index::tier::IndexingTier;
use crate::lookup::{lemma_take_next, put};
use crate::text::{
    chars_of, is_uppercase, last_word, last_word_text, only, same_text, strip_leading, text_between, trim_end_by,
    trim_start_by, trim_text, trimmed, uppercase,
};

verus! {

// ---- names -----------------------------------------------------------------------------------

/// Is a name exported? Its first letter is a capital.
pub open spec fn is_exported(name: Seq<char>) -> bool {
    name.len() > 0 && uppercase(name[0])
}

fn exported(name: &str) -> (r: bool)
    ensures
        r == is_exported(name@),
{
    let v = chars_of(name);
    v.len() > 0 && is_uppercase(v[0])
}

/// "Is a parenthesis", as a predicate.
pub open spec fn parenthesis() -> spec_fn(char) -> bool {
    |c: char| c == '(' || c == ')'
}

/// The type of a receiver such as `(r *Type)`: the last word between the
/// parentheses, without stars.
pub open spec fn receiver_type(t: Seq<char>) -> Seq<char> {
    trim_start_by(
        last_word(trimmed(trim_end_by(trim_start_by(t, parenthesis()), parenthesis()))),
        only('*'),
    )
}

fn strip_parentheses(s: &str) -> (r: String)
    ensures
        r@ == trim_end_by(trim_start_by(s@, parenthesis()), parenthesis()),
{
    let v = chars_of(s);
    let n = v.len();
    let mut a: usize = 0;
    assert(v@.subrange(0, n as int) =~= s@);
    while a < n && (v[a] == '(' || v[a] == ')')
        invariant
            a <= n == v@.len(),
            trim_start_by(s@, parenthesis()) == trim_start_by(v@.subrange(a as int, n as int), parenthesis()),
        decreases n - a,
    {
        assert(v@.subrange(a as int, n as int).drop_first() =~= v@.subrange(a + 1, n as int));
        a = a + 1;
    }
    let ghost whole = v@.subrange(a as int, n as int);
    let mut b: usize = n;
    while b > a && (v[b - 1] == '(' || v[b - 1] == ')')
        invariant
            a <= b <= n == v@.len(),
            trim_end_by(whole, parenthesis()) == trim_end_by(v@.subrange(a as int, b as int), parenthesis()),
        decreases b,
    {
        assert(v@.subrange(a as int, b as int).drop_last() =~= v@.subrange(a as int, b - 1));
        b = b - 1;
    }
    text_between(&v, a, b)
}

fn read_receiver(t: &str) -> (r: String)
    ensures
        r@ == receiver_type(t@),
{
    let inner = strip_parentheses(t);
    let clean = trim_text(inner.as_str());
    let word = last_word_text(clean.as_str());
    strip_leading(word.as_str(), '*')
}

// ---- types -------------------------------------------------------------------------------------

/// What has been collected, and the types among it by name and id.
pub struct Typed {
    pub out: Out,
    pub types: Seq<(Seq<char>, Seq<char>)>,
}

/// The id of the last type with a name.
pub open spec fn type_id(types: Seq<(Seq<char>, Seq<char>)>, name: Seq<char>) -> Option<Seq<char>>
    decreases types.len(),
{
    if types.len() == 0 {
        None
    } else if types.last().0 == name {
        Some(types.last().1)
    } else {
        type_id(types.drop_last(), name)
    }
}

/// What a type specification is: its node type, whether it has an end line,
/// its content and its members.
pub open spec fn type_node(env: Env, s: Shape, name: Seq<char>, of: Shape, out: Out) -> (Seq<char>, Out) {
    let m = with_flag(Meta::empty(), "exported"@, is_exported(name));
    let start = Some(line(s.start_row));
    let end = Some(line(s.end_row));
    if of.kind == "struct_type"@ {
        let m = with_list(
            m,
            "fields"@,
            names(env, of.children, "field_declaration"@, "field_declaration"@, "field_identifier"@),
        );
        ("struct"@, out.node(env, name, "struct"@, start, end, Some(cut(env.text(s), 2000)), m))
    } else if of.kind == "interface_type"@ {
        let m = with_list(
            m,
            "methods"@,
            names(env, of.children, "method_spec"@, "method_spec"@, "field_identifier"@),
        );
        ("interface"@, out.node(env, name, "interface"@, start, end, None, m))
    } else {
        ("type_alias"@, out.node(env, name, "type_alias"@, start, None, Some(cut(env.text(s), 500)), m))
    }
}

pub open spec fn type_spec(env: Env, s: Shape, to: Typed) -> Typed {
    let name = either_text(env, s, "type_identifier"@, "type_identifier"@);
    match child_in(s, "type"@) {
        Some(of) => if name.len() > 0 {
            let (node_type, out) = type_node(env, s, name, of, to.out);
            Typed {
                out,
                types: to.types.push((name, env.id(name, node_type, Some(line(s.start_row))))),
            }
        } else {
            to
        },
        None => to,
    }
}

/// The types, named or aliased, that some nodes specify.
pub open spec fn type_specs(env: Env, kids: Seq<Shape>, to: Typed) -> Typed
    decreases kids.len(),
{
    if kids.len() == 0 {
        to
    } else {
        let before = type_specs(env, kids.drop_last(), to);
        if kids.last().kind == "type_spec"@ || kids.last().kind == "type_alias"@ {
            type_spec(env, kids.last(), before)
        } else {
            before
        }
    }
}

/// The types that a node declares, itself or below it.
pub open spec fn types_at(env: Env, s: Shape, to: Typed) -> Typed
    decreases s, 1int,
{
    if s.kind == "type_declaration"@ {
        type_specs(env, s.children, to)
    } else {
        types_below(env, s.children, to)
    }
}

pub open spec fn types_below(env: Env, kids: Seq<Shape>, to: Typed) -> Typed
    decreases kids, 0int,
{
    if kids.len() == 0 {
        to
    } else {
        types_at(env, kids.last(), types_below(env, kids.drop_last(), to))
    }
}

/// Types by name and id, in the order of the source.
struct TypeIds {
    pairs: Vec<(String, String)>,
}

impl TypeIds {
    spec fn seen(&self) -> Seq<(Seq<char>, Seq<char>)> {
        self.pairs.deep_view()
    }

    fn insert(&mut self, name: &str, id: String)
        ensures
            final(self).seen() == old(self).seen().push((name@, id@)),
    {
        let pair = (name.to_owned(), id);
        assert(pair.deep_view() == (name@, id@));
        put(&mut self.pairs, pair);
    }

    fn get(&self, name: &str) -> (r: Option<&str>)
        ensures
            match r {
                Some(id) => type_id(self.seen(), name@) == Some(id@),
                None => type_id(self.seen(), name@) is None,
            },
    {
        let ghost all = self.seen();
        let mut i: usize = self.pairs.len();
        assert(all.take(i as int) =~= all);
        while i > 0
            invariant
                i <= self.pairs@.len(),
                all == self.seen(),
                type_id(all, name@) == type_id(all.take(i as int), name@),
            decreases i,
        {
            let pair = &self.pairs[i - 1];
            proof {
                assert(all.len() == self.pairs@.len());
                lemma_take_next(all, i - 1);
                assert(all[i - 1] == (pair.0@, pair.1@));
            }
            if same_text(pair.0.as_str(), name) {
                return Some(pair.1.as_str());
            }
            i = i - 1;
        }
        None
    }
}

spec fn typed(ctx: &ExtractionContext, types: &TypeIds) -> Typed {
    Typed { out: ctx.out(), types: types.seen() }
}

fn extract_type_node(ctx: &mut ExtractionContext, node: &SyntaxNode, name: &str, of: &SyntaxNode) -> (id: String)
    ensures
        final(ctx).env() == old(ctx).env(),
        final(ctx).out() == type_node(old(ctx).env(), shape(*node), name@, shape(*of), old(ctx).out()).1,
        id@ == old(ctx).env().id(
            name@,
            type_node(old(ctx).env(), shape(*node), name@, shape(*of), old(ctx).out()).0,
            Some(line(shape(*node).start_row)),
        ),
{
    let mut meta = Metadata::new();
    meta.note_flag("exported", exported(name));
    let start = Some(line_of(node.start_row));
    let end = Some(line_of(node.end_row));
    if same_text(of.kind.as_str(), "struct_type") {
        meta.note_list(
            "fields",
            names_of(ctx, of, "field_declaration", "field_declaration", "field_identifier"),
        );
        let content = Some(cut_text(ctx.node_text(node), 2000));
        ctx.add_node(name, "struct", start, end, content, meta)
    } else if same_text(of.kind.as_str(), "interface_type") {
        meta.note_list("methods", names_of(ctx, of, "method_spec", "method_spec", "field_identifier"));
        ctx.add_node(name, "interface", start, end, None, meta)
    } else {
        let content = Some(cut_text(ctx.node_text(node), 500));
        ctx.add_node(name, "type_alias", start, None, content, meta)
    }
}

fn extract_type_spec(ctx: &mut ExtractionContext, node: &SyntaxNode, types: &mut TypeIds)
    ensures
        final(ctx).env() == old(ctx).env(),
        typed(final(ctx), final(types)) == type_spec(
            old(ctx).env(),
            shape(*node),
            typed(old(ctx), old(types)),
        ),
{
    let name = name_text(ctx, node, "type_identifier");
    if name.as_str().is_empty() {
        return;
    }
    match child_by_field(node, "type") {
        Some(of) => {
            let id = extract_type_node(ctx, node, name.as_str(), of);
            types.insert(name.as_str(), id);
        },
        None => {},
    }
}

fn extract_type_decl(ctx: &mut ExtractionContext, kids: &Vec<SyntaxNode>, types: &mut TypeIds)
    ensures
        final(ctx).env() == old(ctx).env(),
        typed(final(ctx), final(types)) == type_specs(
            old(ctx).env(),
            shapes(kids@),
            typed(old(ctx), old(types)),
        ),
{
    let ghost env = ctx.env();
    let ghost start = typed(ctx, types);
    let ghost all = shapes(kids@);
    let mut i: usize = 0;
    proof {
        lemma_shapes(kids@);
    }
    while i < kids.len()
        invariant
            i <= kids@.len(),
            all == shapes(kids@),
            all.len() == kids@.len(),
            forall|k: int| 0 <= k < all.len() ==> #[trigger] all[k] == shape(kids@[k]),
            ctx.env() == env,
            typed(ctx, types) == type_specs(env, all.take(i as int), start),
        decreases kids.len() - i,
    {
        proof {
            lemma_take_next(all, i as int);
            assert(all[i as int] == shape(kids@[i as int]));
        }
        if same_text(kids[i].kind.as_str(), "type_spec") || same_text(kids[i].kind.as_str(), "type_alias") {
            extract_type_spec(ctx, &kids[i], types);
        }
        i = i + 1;
    }
    assert(all.take(i as int) =~= all);
}

fn collect_types(ctx: &mut ExtractionContext, node: &SyntaxNode, types: &mut TypeIds)
    ensures
        final(ctx).env() == old(ctx).env(),
        typed(final(ctx), final(types)) == types_at(
            old(ctx).env(),
            shape(*node),
            typed(old(ctx), old(types)),
        ),
    decreases node,
{
    if same_text(node.kind.as_str(), "type_declaration") {
        extract_type_decl(ctx, &node.children, types);
        return;
    }
    let ghost env = ctx.env();
    let ghost start = typed(ctx, types);
    let ghost all = shapes(node.children@);
    let mut i: usize = 0;
    proof {
        lemma_shapes(node.children@);
    }
    while i < node.children.len()
        invariant
            i <= node.children@.len(),
            all == shapes(node.children@),
            all.len() == node.children@.len(),
            forall|k: int| 0 <= k < all.len() ==> #[trigger] all[k] == shape(node.children@[k]),
            ctx.env() == env,
            typed(ctx, types) == types_below(env, all.take(i as int), start),
        decreases node.children.len() - i,
    {
        proof {
            lemma_take_next(all, i as int);
            assert(all[i as int] == shape(node.children@[i as int]));
        }
        collect_types(ctx, &node.children[i], types);
        i = i + 1;
    }
    assert(all.take(i as int) =~= all);
}

// ---- functions and methods --------------------------------------------------------------------

/// The calls of a body.
pub open spec fn body_calls(env: Env, s: Shape, id: Seq<char>, out: Out) -> Out {
    if env.tier == IndexingTier::Fast {
        out
    } else {
        calls(env, kids_in(s, "body"@), id, "call_expression"@, true, out)
    }
}

pub open spec fn function(env: Env, s: Shape, out: Out) -> Out {
    let name = either_text(env, s, "identifier"@, "identifier"@);
    if name.len() == 0 {
        out
    } else {
        let m = with_flag(Meta::empty(), "exported"@, is_exported(name));
        let m = with_text(m, "parameters"@, field_text(env, s, "parameters"@));
        let m = with_text(m, "return_type"@, field_text(env, s, "result"@));
        let start = Some(line(s.start_row));
        body_calls(
            env,
            s,
            env.id(name, "function"@, start),
            out.node(
                env,
                name,
                "function"@,
                start,
                Some(line(s.end_row)),
                Some(cut(env.text(s), 2000)),
                m,
            ),
        )
    }
}

/// The name of a method's receiver type, where it has one.
pub open spec fn method_of(env: Env, s: Shape) -> Option<Seq<char>> {
    match field_text(env, s, "receiver"@) {
        Some(t) => if receiver_type(t).len() > 0 {
            Some(receiver_type(t))
        } else {
            None
        },
        None => None,
    }
}

/// A method's tie to its type: contained by one in the same file, a member by
/// name of one elsewhere.
pub open spec fn method_tie(
    types: Seq<(Seq<char>, Seq<char>)>,
    of: Option<Seq<char>>,
    id: Seq<char>,
    out: Out,
) -> Out {
    match of {
        Some(name) => match type_id(types, name) {
            Some(owner) => out.edge(owner, id, "contains"@, "EXTRACTED"@),
            None => out.name_edge(id, name, "struct"@, "member_of"@, "INFERRED"@),
        },
        None => out,
    }
}

pub open spec fn method(env: Env, s: Shape, types: Seq<(Seq<char>, Seq<char>)>, out: Out) -> Out {
    let name = either_text(env, s, "field_identifier"@, "field_identifier"@);
    if name.len() == 0 {
        out
    } else {
        let m = with_text(Meta::empty(), "receiver"@, field_text(env, s, "receiver"@));
        let m = with_text(m, "method_of"@, method_of(env, s));
        let m = with_flag(m, "exported"@, is_exported(name));
        let start = Some(line(s.start_row));
        let id = env.id(name, "function"@, start);
        body_calls(
            env,
            s,
            id,
            method_tie(
                types,
                method_of(env, s),
                id,
                out.node(
                    env,
                    name,
                    "function"@,
                    start,
                    Some(line(s.end_row)),
                    Some(cut(env.text(s), 2000)),
                    m,
                ),
            ),
        )
    }
}

/// What a node itself declares beside types.
pub open spec fn declaration(env: Env, s: Shape, types: Seq<(Seq<char>, Seq<char>)>, out: Out) -> Out {
    if s.kind == "function_declaration"@ {
        function(env, s, out)
    } else if s.kind == "method_declaration"@ {
        method(env, s, types, out)
    } else if s.kind == "import_declaration"@ {
        import_out(env, s, out)
    } else {
        out
    }
}

/// What some nodes declare beside types, each before everything below it.
pub open spec fn all_nodes(env: Env, kids: Seq<Shape>, types: Seq<(Seq<char>, Seq<char>)>, out: Out) -> Out
    decreases kids,
{
    if kids.len() == 0 {
        out
    } else {
        let here = declaration(env, kids.last(), types, all_nodes(env, kids.drop_last(), types, out));
        all_nodes(env, kids.last().children, types, here)
    }
}

/// What a file declares: its types, then everything else.
pub open spec fn file(env: Env, root: Shape, out: Out) -> Out {
    let first = types_at(env, root, Typed { out, types: Seq::empty() });
    all_nodes(env, root.children, first.types, declaration(env, root, first.types, first.out))
}

fn walk_body(ctx: &mut ExtractionContext, node: &SyntaxNode, id: &str)
    ensures
        final(ctx).env() == old(ctx).env(),
        final(ctx).out() == body_calls(old(ctx).env(), shape(*node), id@, old(ctx).out()),
{
    if ctx.tier != IndexingTier::Fast {
        match child_by_field(node, "body") {
            Some(body) => walk_calls(ctx, &body.children, id, "call_expression", true),
            None => {},
        }
    }
}

fn extract_function(ctx: &mut ExtractionContext, node: &SyntaxNode)
    ensures
        final(ctx).env() == old(ctx).env(),
        final(ctx).out() == function(old(ctx).env(), shape(*node), old(ctx).out()),
{
    let name = name_text(ctx, node, "identifier");
    if name.as_str().is_empty() {
        return;
    }
    let mut meta = Metadata::new();
    meta.note_flag("exported", exported(name.as_str()));
    note_field(&mut meta, "parameters", ctx, node, "parameters");
    note_field(&mut meta, "return_type", ctx, node, "result");
    let content = Some(cut_text(ctx.node_text(node), 2000));
    let id = ctx.add_node(
        name.as_str(),
        "function",
        Some(line_of(node.start_row)),
        Some(line_of(node.end_row)),
        content,
        meta,
    );
    walk_body(ctx, node, id.as_str());
}

fn read_method_of(ctx: &ExtractionContext, node: &SyntaxNode) -> (r: Option<String>)
    ensures
        r.deep_view() == method_of(ctx.env(), shape(*node)),
{
    match child_by_field(node, "receiver") {
        Some(receiver) => {
            let name = read_receiver(ctx.node_text(receiver));
            if name.as_str().is_empty() {
                None
            } else {
                Some(name)
            }
        },
        None => None,
    }
}

fn extract_method(ctx: &mut ExtractionContext, node: &SyntaxNode, types: &TypeIds)
    ensures
        final(ctx).env() == old(ctx).env(),
        final(ctx).out() == method(old(ctx).env(), shape(*node), types.seen(), old(ctx).out()),
{
    let name = name_text(ctx, node, "field_identifier");
    if name.as_str().is_empty() {
        return;
    }
    let mut meta = Metadata::new();
    note_field(&mut meta, "receiver", ctx, node, "receiver");
    let of = read_method_of(ctx, node);
    match &of {
        Some(t) => meta.note_text("method_of", Some(t.as_str())),
        None => {},
    }
    meta.note_flag("exported", exported(name.as_str()));
    let content = Some(cut_text(ctx.node_text(node), 2000));
    let id = ctx.add_node(
        name.as_str(),
        "function",
        Some(line_of(node.start_row)),
        Some(line_of(node.end_row)),
        content,
        meta,
    );
    match &of {
        Some(t) => match types.get(t.as_str()) {
            Some(owner) => ctx.add_edge(owner, id.as_str(), "contains", "EXTRACTED"),
            None => ctx.add_name_edge(id.as_str(), t.as_str(), "struct", "member_of", "INFERRED"),
        },
        None => {},
    }
    walk_body(ctx, node, id.as_str());
}

fn declare(ctx: &mut ExtractionContext, node: &SyntaxNode, types: &TypeIds)
    ensures
        final(ctx).env() == old(ctx).env(),
        final(ctx).out() == declaration(old(ctx).env(), shape(*node), types.seen(), old(ctx).out()),
{
    let kind = node.kind.as_str();
    if same_text(kind, "function_declaration") {
        extract_function(ctx, node);
    } else if same_text(kind, "method_declaration") {
        extract_method(ctx, node, types);
    } else if same_text(kind, "import_declaration") {
        extract_import(ctx, node);
    }
}

fn walk_all(ctx: &mut ExtractionContext, kids: &Vec<SyntaxNode>, types: &TypeIds)
    ensures
        final(ctx).env() == old(ctx).env(),
        final(ctx).out() == all_nodes(old(ctx).env(), shapes(kids@), types.seen(), old(ctx).out()),
    decreases kids,
{
    let ghost env = ctx.env();
    let ghost start = ctx.out();
    let ghost all = shapes(kids@);
    let mut i: usize = 0;
    proof {
        lemma_shapes(kids@);
    }
    while i < kids.len()
        invariant
            i <= kids@.len(),
            all == shapes(kids@),
            all.len() == kids@.len(),
            forall|k: int| 0 <= k < all.len() ==> #[trigger] all[k] == shape(kids@[k]),
            ctx.env() == env,
            ctx.out() == all_nodes(env, all.take(i as int), types.seen(), start),
        decreases kids.len() - i,
    {
        proof {
            lemma_take_next(all, i as int);
            assert(all[i as int] == shape(kids@[i as int]));
        }
        declare(ctx, &kids[i], types);
        walk_all(ctx, &kids[i].children, types);
        i = i + 1;
    }
    assert(all.take(i as int) =~= all);
}

/// Extracts a parsed Go file.
pub fn extract(ctx: &mut ExtractionContext, root: &SyntaxNode)
    ensures
        final(ctx).env() == old(ctx).env(),
        final(ctx).out() == file(old(ctx).env(), shape(*root), old(ctx).out()),
{
    let mut types = TypeIds { pairs: Vec::new() };
    assert(types.seen() =~= Seq::empty());
    collect_types(ctx, root, &mut types);
    declare(ctx, root, &types);
    walk_all(ctx, &root.children, &types);
}

} // verus!
