//! What the Go extractor finds.

use vstd::prelude::*;

use crate::index::extractors::go::{
    all_nodes, body_calls, declaration, file, function, method, method_of, method_tie, parenthesis, receiver_type, type_id,
    type_node, type_spec, type_specs, types_at, types_below, Typed,
};
use crate::index::extractors::trees::{
    adds, at_path, call_edge, grows, has, holds, is_below, is_call_below, is_call_in, is_field_text, is_first_in,
    is_holding, is_kind_text, is_path, lemma_added, lemma_adds, lemma_adds_edge, lemma_adds_node, lemma_below,
    lemma_below_in, lemma_below_self, lemma_call_in, lemma_calls_add, lemma_calls_grow, lemma_field_text,
    lemma_first_in, lemma_grows, lemma_has, lemma_keeps, lemma_kind_text, lemma_read_name, lemma_type_names,
    stands_at,
};
use crate::index::extractors::{child_in, either_text, import_out, kids_in};
use crate::index::parser::{is_one_line, line, CodeEdgeView, CodeView, Env, Out};
use crate::index::syntax::Shape;
use crate::index::tier::IndexingTier;
use crate::text::{is_space, last_word, only, space, tail_word, trim_end_by, trim_start_by, trimmed};

verus! {

// ---- receivers ------------------------------------------------------------------------------

proof fn lemma_trim_one(c: char, s: Seq<char>, p: spec_fn(char) -> bool)
    requires
        p(c),
        s.len() > 0,
        !p(s[0]),
    ensures
        trim_start_by(seq![c] + s, p) == s,
{
    let whole = seq![c] + s;
    assert(whole.drop_first() =~= s);
    assert(trim_start_by(whole, p) == trim_start_by(s, p));
}

proof fn lemma_trim_last(s: Seq<char>, c: char, p: spec_fn(char) -> bool)
    requires
        p(c),
        s.len() > 0,
        !p(s.last()),
    ensures
        trim_end_by(s.push(c), p) == s,
{
    assert(s.push(c).drop_last() =~= s);
    assert(trim_end_by(s.push(c), p) == trim_end_by(s, p));
}

proof fn lemma_tail(before: Seq<char>, word: Seq<char>)
    requires
        forall|i: int| 0 <= i < word.len() ==> !is_space(#[trigger] word[i]),
    ensures
        tail_word(before + seq![' '] + word) == word,
    decreases word.len(),
{
    let whole = before + seq![' '] + word;
    if word.len() == 0 {
        assert(whole.last() == ' ');
        assert(word =~= Seq::empty());
    } else {
        let rest = word.drop_last();
        assert forall|i: int| 0 <= i < rest.len() implies !is_space(#[trigger] rest[i]) by {
            assert(!is_space(word[i]));
        }
        lemma_tail(before, rest);
        assert(whole.drop_last() =~= before + seq![' '] + rest);
        assert(whole.last() == word[word.len() - 1]);
        assert(rest.push(word.last()) =~= word);
    }
}

/// A name of letters, digits and the like.
pub open spec fn is_word(s: Seq<char>) -> bool {
    s.len() > 0 && forall|i: int| 0 <= i < s.len() ==> !is_space(#[trigger] s[i]) && s[i] != '(' && s[i] != ')' && s[i] != '*'
}

/// The type of a receiver is its last word, without a star: that of `(r T)`, and
/// of `(r *T)`, is `T`.
pub proof fn a_receiver_names_its_type(var: Seq<char>, name: Seq<char>, star: bool)
    requires
        is_word(var),
        is_word(name),
    ensures
        receiver_type(
            seq!['('] + var + seq![' '] + (if star {
                seq!['*'] + name
            } else {
                name
            }) + seq![')'],
        ) == name,
{
    let word = if star {
        seq!['*'] + name
    } else {
        name
    };
    let inner = var + seq![' '] + word;
    let t = seq!['('] + var + seq![' '] + word + seq![')'];
    let open = inner.push(')');
    assert(t =~= seq!['('] + open);
    assert(open[0] == var[0]);
    assert(inner.last() == name.last()) by {
        assert(inner.last() == word.last());
    }
    assert(!is_space(name[name.len() - 1]) && name[name.len() - 1] != ')' && name[name.len() - 1] != '(');
    assert(!is_space(var[0]) && var[0] != '(' && var[0] != ')');
    lemma_trim_one('(', open, parenthesis());
    lemma_trim_last(inner, ')', parenthesis());
    assert(inner[0] == var[0]);
    assert(trim_start_by(inner, space()) == inner);
    assert(trim_end_by(inner, space()) == inner);
    assert(trimmed(inner) == inner);
    assert forall|i: int| 0 <= i < word.len() implies !is_space(#[trigger] word[i]) by {
        if star {
            if i > 0 {
                assert(word[i] == name[i - 1]);
            }
        }
    }
    lemma_tail(var, word);
    assert(last_word(inner) == word);
    assert(name[0] != '*');
    if star {
        lemma_trim_one('*', name, only('*'));
    }
}

// ---- nothing is lost ------------------------------------------------------------------------

proof fn lemma_body_grows(env: Env, s: Shape, id: Seq<char>, out: Out)
    ensures
        grows(out, body_calls(env, s, id, out)),
{
    lemma_calls_grow(env, kids_in(s, "body"@), id, "call_expression"@, true, out);
}

spec fn function_node(env: Env, s: Shape, name: Seq<char>, out: Out) -> Out {
    let m = crate::index::parser::with_flag(
        crate::index::parser::Meta::empty(),
        "exported"@,
        crate::index::extractors::go::is_exported(name),
    );
    let m = crate::index::parser::with_text(
        m,
        "parameters"@,
        crate::index::extractors::field_text(env, s, "parameters"@),
    );
    let m = crate::index::parser::with_text(m, "return_type"@, crate::index::extractors::field_text(env, s, "result"@));
    out.node(
        env,
        name,
        "function"@,
        Some(line(s.start_row)),
        Some(line(s.end_row)),
        Some(crate::index::source::cut(env.text(s), 2000)),
        m,
    )
}

spec fn method_node(env: Env, s: Shape, name: Seq<char>, out: Out) -> Out {
    let m = crate::index::parser::with_text(
        crate::index::parser::Meta::empty(),
        "receiver"@,
        crate::index::extractors::field_text(env, s, "receiver"@),
    );
    let m = crate::index::parser::with_text(m, "method_of"@, method_of(env, s));
    let m = crate::index::parser::with_flag(m, "exported"@, crate::index::extractors::go::is_exported(name));
    out.node(
        env,
        name,
        "function"@,
        Some(line(s.start_row)),
        Some(line(s.end_row)),
        Some(crate::index::source::cut(env.text(s), 2000)),
        m,
    )
}

proof fn lemma_function(env: Env, s: Shape, out: Out)
    ensures
        grows(out, function(env, s, out)),
        either_text(env, s, "identifier"@, "identifier"@).len() > 0 ==> has(
            function(env, s, out),
            env,
            s,
            either_text(env, s, "identifier"@, "identifier"@),
            "function"@,
            Some(s.end_row),
            None,
        ),
{
    lemma_type_names();
    let name = either_text(env, s, "identifier"@, "identifier"@);
    if name.len() > 0 {
        let here = function_node(env, s, name, out);
        assert(here.nodes.drop_last() =~= out.nodes);
        lemma_added(out, here, env, s, name, "function"@, Some(s.end_row));
        lemma_body_grows(env, s, env.id(name, "function"@, Some(line(s.start_row))), here);
        lemma_grows(out, here, function(env, s, out));
        lemma_has(here, function(env, s, out), env, s, name, "function"@, Some(s.end_row), None);
    }
}

proof fn lemma_method(env: Env, s: Shape, types: Seq<(Seq<char>, Seq<char>)>, out: Out)
    ensures
        grows(out, method(env, s, types, out)),
        ({
            let name = either_text(env, s, "field_identifier"@, "field_identifier"@);
            let id = env.id(name, "function"@, Some(line(s.start_row)));
            let after = method(env, s, types, out);
            name.len() > 0 ==> {
                &&& has(after, env, s, name, "function"@, Some(s.end_row), None)
                &&& method_of(env, s) matches Some(of) ==> match type_id(types, of) {
                    Some(owner) => holds(after, Some(owner), id),
                    None => is_one_line(of) ==> after.edges.contains(member_edge(id, of)),
                }
            }
        }),
{
    lemma_type_names();
    let name = either_text(env, s, "field_identifier"@, "field_identifier"@);
    if name.len() > 0 {
        let id = env.id(name, "function"@, Some(line(s.start_row)));
        let here = method_node(env, s, name, out);
        assert(here.nodes.drop_last() =~= out.nodes);
        lemma_added(out, here, env, s, name, "function"@, Some(s.end_row));
        let tied = method_tie(types, method_of(env, s), id, here);
        assert(grows(here, tied));
        if let Some(of) = method_of(env, s) {
            if type_id(types, of) is Some || is_one_line(of) {
                assert(tied.edges.contains(tied.edges[here.edges.len() as int]));
            }
        }
        let after = body_calls(env, s, id, tied);
        lemma_body_grows(env, s, id, tied);
        lemma_keeps(tied, after);
        lemma_grows(out, here, tied);
        lemma_grows(out, tied, after);
        lemma_grows(here, tied, after);
        lemma_has(here, after, env, s, name, "function"@, Some(s.end_row), None);
    }
}

/// The edge by name from a method to its type.
pub open spec fn member_edge(id: Seq<char>, of: Seq<char>) -> CodeEdgeView {
    CodeEdgeView {
        from_id: id,
        to_id: Seq::empty(),
        to_name: Some(of),
        to_type: Some("struct"@),
        edge_type: "member_of"@,
        confidence: "INFERRED"@,
    }
}

proof fn lemma_declaration_grows(env: Env, s: Shape, types: Seq<(Seq<char>, Seq<char>)>, out: Out)
    ensures
        grows(out, declaration(env, s, types, out)),
{
    lemma_function(env, s, out);
    lemma_method(env, s, types, out);
    assert(grows(out, import_out(env, s, out)));
}

proof fn lemma_all_grow(env: Env, kids: Seq<Shape>, types: Seq<(Seq<char>, Seq<char>)>, out: Out)
    ensures
        grows(out, all_nodes(env, kids, types, out)),
    decreases kids,
{
    if kids.len() > 0 {
        let before = all_nodes(env, kids.drop_last(), types, out);
        lemma_all_grow(env, kids.drop_last(), types, out);
        let here = declaration(env, kids.last(), types, before);
        lemma_declaration_grows(env, kids.last(), types, before);
        lemma_all_grow(env, kids.last().children, types, here);
        lemma_grows(out, before, here);
        lemma_grows(out, here, all_nodes(env, kids.last().children, types, here));
    }
}

/// Every node of the tree is looked at.
proof fn lemma_visited(env: Env, kids: Seq<Shape>, types: Seq<(Seq<char>, Seq<char>)>, out: Out, i: int, path: Seq<int>) -> (at: Out)
    requires
        0 <= i < kids.len(),
        is_path(kids[i], path),
    ensures
        grows(declaration(env, at_path(kids[i], path), types, at), all_nodes(env, kids, types, out)),
    decreases kids,
{
    let rest = kids.drop_last();
    let before = all_nodes(env, rest, types, out);
    let here = declaration(env, kids.last(), types, before);
    let below = kids.last().children;
    let after = all_nodes(env, below, types, here);
    lemma_all_grow(env, below, types, here);
    lemma_declaration_grows(env, kids.last(), types, before);
    if i < rest.len() {
        assert(rest[i] == kids[i]);
        let at = lemma_visited(env, rest, types, out, i, path);
        lemma_grows(before, here, after);
        lemma_grows(declaration(env, at_path(kids[i], path), types, at), before, after);
        at
    } else if path.len() == 0 {
        before
    } else {
        lemma_visited(env, below, types, here, path[0], path.skip(1))
    }
}

/// The types of a file, by name and id.
pub open spec fn types_of(env: Env, root: Shape, out: Out) -> Seq<(Seq<char>, Seq<char>)> {
    types_at(env, root, Typed { out, types: Seq::empty() }).types
}

/// Every node of a file is looked at.
proof fn lemma_visited_file(env: Env, root: Shape, out: Out, path: Seq<int>) -> (at: Out)
    requires
        is_path(root, path),
    ensures
        grows(declaration(env, at_path(root, path), types_of(env, root, out), at), file(env, root, out)),
{
    let first = types_at(env, root, Typed { out, types: Seq::empty() });
    let here = declaration(env, root, first.types, first.out);
    lemma_all_grow(env, root.children, first.types, here);
    if path.len() == 0 {
        first.out
    } else {
        lemma_visited(env, root.children, first.types, here, path[0], path.skip(1))
    }
}

proof fn lemma_kinds()
    ensures
        "function_declaration"@ != "method_declaration"@,
        "function_declaration"@ != "import_declaration"@,
        "method_declaration"@ != "import_declaration"@,
        "struct_type"@ != "interface_type"@,
{
    reveal_strlit("function_declaration");
    reveal_strlit("method_declaration");
    reveal_strlit("import_declaration");
    reveal_strlit("struct_type");
    reveal_strlit("interface_type");
    assert("function_declaration"@[0] == 'f' && "method_declaration"@[0] == 'm' && "import_declaration"@[0] == 'i');
    assert("struct_type"@[0] == 's' && "interface_type"@[0] == 'i');
}

// ---- what is found --------------------------------------------------------------------------

/// Every function that has a name is found, wherever it stands, and every call
/// in its body with it, unless the index is made fast.
pub proof fn every_function_is_found(env: Env, root: Shape, out: Out, path: Seq<int>, name: Seq<char>)
    requires
        is_path(root, path),
        at_path(root, path).kind == "function_declaration"@,
        is_kind_text(env, at_path(root, path), "identifier"@, name),
        name.len() > 0,
    ensures
        has(file(env, root, out), env, at_path(root, path), name, "function"@, Some(at_path(root, path).end_row), None),
        forall|body: int, i: int, way: Seq<int>, callee: Seq<char>|
            env.tier != IndexingTier::Fast && #[trigger] is_call_in(env, at_path(root, path), "call_expression"@, true, body, i, way, callee)
                ==> file(env, root, out).edges.contains(
                call_edge(env.id(name, "function"@, Some(line(at_path(root, path).start_row))), callee),
            ),
{
    let s = at_path(root, path);
    lemma_kinds();
    let at = lemma_visited_file(env, root, out, path);
    lemma_kind_text(env, s, "identifier"@, name);
    lemma_function(env, s, at);
    let after = function(env, s, at);
    lemma_has(after, file(env, root, out), env, s, name, "function"@, Some(s.end_row), None);
    lemma_keeps(after, file(env, root, out));
    let id = env.id(name, "function"@, Some(line(s.start_row)));
    assert forall|body: int, i: int, way: Seq<int>, callee: Seq<char>|
        env.tier != IndexingTier::Fast && #[trigger] is_call_in(env, s, "call_expression"@, true, body, i, way, callee) implies file(
        env,
        root,
        out,
    ).edges.contains(call_edge(id, callee)) by {
        lemma_call_in(env, s, "call_expression"@, true, id, function_node(env, s, name, at), body, i, way, callee);
    }
}

/// Every method that has a name is found. It is tied to the type that its
/// receiver names: held by one that the file declares, a member by name of one
/// that it does not. Every call in its body is found, unless the index is made
/// fast.
pub proof fn every_method_is_found(env: Env, root: Shape, out: Out, path: Seq<int>, name: Seq<char>, receiver: Seq<char>)
    requires
        is_path(root, path),
        at_path(root, path).kind == "method_declaration"@,
        is_kind_text(env, at_path(root, path), "field_identifier"@, name),
        name.len() > 0,
        is_field_text(env, at_path(root, path), "receiver"@, receiver),
    ensures
        ({
            let s = at_path(root, path);
            let id = env.id(name, "function"@, Some(line(s.start_row)));
            let after = file(env, root, out);
            let of = receiver_type(receiver);
            &&& has(after, env, s, name, "function"@, Some(s.end_row), None)
            &&& of.len() > 0 ==> match type_id(types_of(env, root, out), of) {
                Some(owner) => holds(after, Some(owner), id),
                None => is_one_line(of) ==> after.edges.contains(member_edge(id, of)),
            }
            &&& forall|body: int, i: int, way: Seq<int>, callee: Seq<char>|
                env.tier != IndexingTier::Fast && #[trigger] is_call_in(env, s, "call_expression"@, true, body, i, way, callee)
                    ==> after.edges.contains(call_edge(id, callee))
        }),
{
    let s = at_path(root, path);
    let types = types_of(env, root, out);
    lemma_kinds();
    let at = lemma_visited_file(env, root, out, path);
    lemma_kind_text(env, s, "field_identifier"@, name);
    lemma_field_text(env, s, "receiver"@, receiver);
    lemma_method(env, s, types, at);
    let after = method(env, s, types, at);
    lemma_has(after, file(env, root, out), env, s, name, "function"@, Some(s.end_row), None);
    lemma_keeps(after, file(env, root, out));
    let id = env.id(name, "function"@, Some(line(s.start_row)));
    let tied = method_tie(types, method_of(env, s), id, method_node(env, s, name, at));
    assert forall|body: int, i: int, way: Seq<int>, callee: Seq<char>|
        env.tier != IndexingTier::Fast && #[trigger] is_call_in(env, s, "call_expression"@, true, body, i, way, callee) implies file(
        env,
        root,
        out,
    ).edges.contains(call_edge(id, callee)) by {
        lemma_call_in(env, s, "call_expression"@, true, id, tied, body, i, way, callee);
    }
}

/// Every import is found, under its own text.
pub proof fn every_import_is_found(env: Env, root: Shape, out: Out, path: Seq<int>)
    requires
        is_path(root, path),
        at_path(root, path).kind == "import_declaration"@,
    ensures
        has(file(env, root, out), env, at_path(root, path), env.text(at_path(root, path)), "import"@, None, None),
{
    lemma_type_names();
    let s = at_path(root, path);
    lemma_kinds();
    let at = lemma_visited_file(env, root, out, path);
    let here = import_out(env, s, at);
    let n = here.nodes[at.nodes.len() as int];
    assert(here.nodes.contains(n));
    lemma_has(here, file(env, root, out), env, s, env.text(s), "import"@, None, None);
}

// ---- types ----------------------------------------------------------------------------------

/// The types of `b` are those of `a` and more.
spec fn goes_on(a: Typed, b: Typed) -> bool {
    &&& grows(a.out, b.out)
    &&& a.types.len() <= b.types.len()
    &&& forall|i: int| 0 <= i < a.types.len() ==> b.types[i] == #[trigger] a.types[i]
}

proof fn lemma_goes_on(a: Typed, b: Typed, c: Typed)
    requires
        goes_on(a, b),
        goes_on(b, c),
    ensures
        goes_on(a, c),
{
    lemma_grows(a.out, b.out, c.out);
    assert forall|i: int| 0 <= i < a.types.len() implies c.types[i] == #[trigger] a.types[i] by {
        assert(b.types[i] == a.types[i]);
    }
}

/// The node type of what a type specification declares.
pub open spec fn type_kind(of: Seq<char>) -> Seq<char> {
    if of == "struct_type"@ {
        "struct"@
    } else if of == "interface_type"@ {
        "interface"@
    } else {
        "type_alias"@
    }
}

proof fn lemma_type_spec(env: Env, s: Shape, to: Typed)
    ensures
        goes_on(to, type_spec(env, s, to)),
        ({
            let name = either_text(env, s, "type_identifier"@, "type_identifier"@);
            let after = type_spec(env, s, to);
            child_in(s, "type"@) matches Some(of) ==> name.len() > 0 ==> {
                let kind = type_kind(of.kind);
                &&& has(
                    after.out,
                    env,
                    s,
                    name,
                    kind,
                    if kind == "type_alias"@ {
                        None
                    } else {
                        Some(s.end_row)
                    },
                    None,
                )
                &&& after.types == to.types.push((name, env.id(name, kind, Some(line(s.start_row)))))
            }
        }),
{
    lemma_type_names();
    lemma_kinds();
    reveal_strlit("struct");
    reveal_strlit("interface");
    reveal_strlit("type_alias");
    assert("struct"@[0] == 's' && "interface"@[0] == 'i' && "type_alias"@[0] == 't');
    let name = either_text(env, s, "type_identifier"@, "type_identifier"@);
    if let Some(of) = child_in(s, "type"@) {
        if name.len() > 0 {
            let (node_type, out) = type_node(env, s, name, of, to.out);
            assert(out.nodes.drop_last() =~= to.out.nodes);
            lemma_added(
                to.out,
                out,
                env,
                s,
                name,
                node_type,
                if node_type == "type_alias"@ {
                    None
                } else {
                    Some(s.end_row)
                },
            );
        }
    }
}

proof fn lemma_type_specs(env: Env, kids: Seq<Shape>, to: Typed)
    ensures
        goes_on(to, type_specs(env, kids, to)),
    decreases kids.len(),
{
    if kids.len() > 0 {
        let before = type_specs(env, kids.drop_last(), to);
        lemma_type_specs(env, kids.drop_last(), to);
        lemma_type_spec(env, kids.last(), before);
        lemma_goes_on(to, before, type_spec(env, kids.last(), before));
    }
}

proof fn lemma_types_at(env: Env, s: Shape, to: Typed)
    ensures
        goes_on(to, types_at(env, s, to)),
    decreases s, 1int,
{
    if s.kind == "type_declaration"@ {
        lemma_type_specs(env, s.children, to);
    } else {
        lemma_types_below(env, s.children, to);
    }
}

proof fn lemma_types_below(env: Env, kids: Seq<Shape>, to: Typed)
    ensures
        goes_on(to, types_below(env, kids, to)),
    decreases kids, 0int,
{
    if kids.len() > 0 {
        let before = types_below(env, kids.drop_last(), to);
        lemma_types_below(env, kids.drop_last(), to);
        lemma_types_at(env, kids.last(), before);
        lemma_goes_on(to, before, types_at(env, kids.last(), before));
    }
}

/// The way leads to a type declaration, through none, and from it to a type
/// specification or alias.
pub open spec fn is_type_path(s: Shape, path: Seq<int>) -> bool
    decreases path.len(),
{
    &&& path.len() > 0
    &&& 0 <= path[0] < s.children.len()
    &&& if s.kind == "type_declaration"@ {
        path.len() == 1 && (s.children[path[0]].kind == "type_spec"@ || s.children[path[0]].kind == "type_alias"@)
    } else {
        is_type_path(s.children[path[0]], path.skip(1))
    }
}

proof fn lemma_one_spec(env: Env, kids: Seq<Shape>, to: Typed, i: int) -> (at: Typed)
    requires
        0 <= i < kids.len(),
        kids[i].kind == "type_spec"@ || kids[i].kind == "type_alias"@,
    ensures
        goes_on(type_spec(env, kids[i], at), type_specs(env, kids, to)),
    decreases kids.len(),
{
    let rest = kids.drop_last();
    let before = type_specs(env, rest, to);
    lemma_type_spec(env, kids.last(), before);
    if i < rest.len() {
        assert(rest[i] == kids[i]);
        let at = lemma_one_spec(env, rest, to, i);
        lemma_goes_on(type_spec(env, kids[i], at), before, type_specs(env, kids, to));
        at
    } else {
        before
    }
}

proof fn lemma_one_below(env: Env, kids: Seq<Shape>, to: Typed, i: int) -> (at: Typed)
    requires
        0 <= i < kids.len(),
    ensures
        goes_on(types_at(env, kids[i], at), types_below(env, kids, to)),
    decreases kids.len(),
{
    let rest = kids.drop_last();
    let before = types_below(env, rest, to);
    lemma_types_at(env, kids.last(), before);
    if i < rest.len() {
        assert(rest[i] == kids[i]);
        let at = lemma_one_below(env, rest, to, i);
        lemma_goes_on(types_at(env, kids[i], at), before, types_below(env, kids, to));
        at
    } else {
        before
    }
}

proof fn lemma_type_visited(env: Env, s: Shape, to: Typed, path: Seq<int>) -> (at: Typed)
    requires
        is_type_path(s, path),
    ensures
        goes_on(type_spec(env, at_path(s, path), at), types_at(env, s, to)),
    decreases path.len(),
{
    let child = s.children[path[0]];
    if s.kind == "type_declaration"@ {
        assert(at_path(child, path.skip(1)) == child);
        lemma_one_spec(env, s.children, to, path[0])
    } else {
        let mid = lemma_one_below(env, s.children, to, path[0]);
        let at = lemma_type_visited(env, child, mid, path.skip(1));
        lemma_goes_on(type_spec(env, at_path(s, path), at), types_at(env, child, mid), types_at(env, s, to));
        at
    }
}

/// Every type that a declaration specifies, with a name and a type, is found: a
/// struct, an interface, or an alias; and the file's types list it.
pub proof fn every_type_is_found(env: Env, root: Shape, out: Out, path: Seq<int>, name: Seq<char>, k: int)
    requires
        is_type_path(root, path),
        is_kind_text(env, at_path(root, path), "type_identifier"@, name),
        name.len() > 0,
        is_first_in(at_path(root, path), "type"@, k),
    ensures
        ({
            let s = at_path(root, path);
            let kind = type_kind(s.children[k].kind);
            &&& has(
                file(env, root, out),
                env,
                s,
                name,
                kind,
                if kind == "type_alias"@ {
                    None
                } else {
                    Some(s.end_row)
                },
                None,
            )
            &&& types_of(env, root, out).contains((name, env.id(name, kind, Some(line(s.start_row)))))
            &&& type_id(types_of(env, root, out), name) is Some
        }),
{
    let s = at_path(root, path);
    let start = Typed { out, types: Seq::empty() };
    let first = types_at(env, root, start);
    let at = lemma_type_visited(env, root, start, path);
    lemma_kind_text(env, s, "type_identifier"@, name);
    lemma_first_in(s, "type"@, k);
    lemma_type_spec(env, s, at);
    let kind = type_kind(s.children[k].kind);
    let row = if kind == "type_alias"@ {
        None
    } else {
        Some(s.end_row)
    };
    let here = type_spec(env, s, at);
    let pair = (name, env.id(name, kind, Some(line(s.start_row))));
    assert(first.types[at.types.len() as int] == here.types[at.types.len() as int]);
    assert(first.types[at.types.len() as int] == pair);
    lemma_type_known(first.types, at.types.len() as int);
    let next = declaration(env, root, first.types, first.out);
    lemma_declaration_grows(env, root, first.types, first.out);
    lemma_all_grow(env, root.children, first.types, next);
    lemma_grows(first.out, next, file(env, root, out));
    lemma_has(here.out, first.out, env, s, name, kind, row, None);
    lemma_has(first.out, file(env, root, out), env, s, name, kind, row, None);
}

/// A type that is listed has an id, that of one of its listings.
proof fn lemma_type_known(types: Seq<(Seq<char>, Seq<char>)>, i: int)
    requires
        0 <= i < types.len(),
    ensures
        type_id(types, types[i].0) is Some,
    decreases types.len(),
{
    if types.last().0 != types[i].0 {
        assert(types.drop_last()[i] == types[i]);
        lemma_type_known(types.drop_last(), i);
    }
}

/// The id of a type is that of one that is listed under the name.
pub proof fn a_type_id_is_of_a_listed_type(types: Seq<(Seq<char>, Seq<char>)>, name: Seq<char>)
    ensures
        type_id(types, name) matches Some(id) ==> types.contains((name, id)),
        type_id(types, name) is None ==> forall|id: Seq<char>| !#[trigger] types.contains((name, id)),
    decreases types.len(),
{
    if types.len() > 0 {
        let rest = types.drop_last();
        a_type_id_is_of_a_listed_type(rest, name);
        if types.last().0 == name {
            assert(types[types.len() - 1] == (name, types.last().1));
        } else {
            if let Some(id) = type_id(rest, name) {
                let k = choose|k: int| 0 <= k < rest.len() && rest[k] == (name, id);
                assert(types[k] == (name, id));
            }
            assert forall|id: Seq<char>| type_id(types, name) is None implies !#[trigger] types.contains((name, id)) by {
                if types.contains((name, id)) {
                    let k = choose|k: int| 0 <= k < types.len() && types[k] == (name, id);
                    assert(k < rest.len());
                    assert(rest[k] == (name, id));
                    assert(rest.contains((name, id)));
                }
            }
        }
    }
}

// ---- nothing else is found ------------------------------------------------------------------

/// The node of a function, a method or a type that has a name, or of an import.
pub open spec fn is_made(n: CodeView, env: Env, t: Shape) -> bool {
    ||| t.kind == "function_declaration"@ && stands_at(n, env, t, "function"@) && is_kind_text(
        env,
        t,
        "identifier"@,
        n.name,
    ) && n.name.len() > 0
    ||| t.kind == "method_declaration"@ && stands_at(n, env, t, "function"@) && is_kind_text(
        env,
        t,
        "field_identifier"@,
        n.name,
    ) && n.name.len() > 0
    ||| (t.kind == "type_spec"@ || t.kind == "type_alias"@) && child_in(t, "type"@) is Some && stands_at(
        n,
        env,
        t,
        type_kind((child_in(t, "type"@)->0).kind),
    ) && is_kind_text(env, t, "type_identifier"@, n.name) && n.name.len() > 0
    ||| t.kind == "import_declaration"@ && stands_at(n, env, t, "import"@) && n.name == env.text(t)
}

/// An edge between a method and its type, or from a function to what is called
/// in it.
pub open spec fn is_tied(e: CodeEdgeView, env: Env, t: Shape) -> bool {
    exists|n: CodeView| #[trigger]
        is_made(n, env, t) && n.node_type == "function"@ && {
            ||| t.kind == "method_declaration"@ && is_holding(e, n.id)
            ||| t.kind == "method_declaration"@ && method_of(env, t) is Some && e == member_edge(
                n.id,
                method_of(env, t)->0,
            )
            ||| env.tier != IndexingTier::Fast && is_call_below(e, env, t, n.id, "call_expression"@, true)
        }
}

pub open spec fn made_fn(env: Env) -> spec_fn(CodeView, Shape) -> bool {
    |n: CodeView, t: Shape| is_made(n, env, t)
}

pub open spec fn tied_fn(env: Env) -> spec_fn(CodeEdgeView, Shape) -> bool {
    |e: CodeEdgeView, t: Shape| is_tied(e, env, t)
}

proof fn lemma_body_adds(env: Env, root: Shape, s: Shape, n: CodeView, out: Out)
    requires
        is_below(s, root),
        is_made(n, env, s),
        n.node_type == "function"@,
    ensures
        adds(out, body_calls(env, s, n.id, out), root, made_fn(env), tied_fn(env)),
{
    if env.tier != IndexingTier::Fast {
        lemma_below_self(s);
        lemma_below_in(s, s, "body"@);
        assert forall|e: CodeEdgeView| #[trigger] is_call_below(e, env, s, n.id, "call_expression"@, true) implies tied_fn(
            env,
        )(e, s) by {
            assert(is_made(n, env, s));
        }
        lemma_calls_add(
            env,
            s,
            kids_in(s, "body"@),
            n.id,
            "call_expression"@,
            true,
            out,
            root,
            made_fn(env),
            tied_fn(env),
        );
    }
}

proof fn lemma_declaration_adds(env: Env, root: Shape, s: Shape, types: Seq<(Seq<char>, Seq<char>)>, out: Out)
    requires
        is_below(s, root),
    ensures
        adds(out, declaration(env, s, types, out), root, made_fn(env), tied_fn(env)),
{
    lemma_kinds();
    let f = made_fn(env);
    let g = tied_fn(env);
    let after = declaration(env, s, types, out);
    lemma_read_name(env, s, "identifier"@);
    lemma_read_name(env, s, "field_identifier"@);
    if s.kind == "function_declaration"@ {
        let name = either_text(env, s, "identifier"@, "identifier"@);
        if name.len() > 0 {
            let here = function_node(env, s, name, out);
            assert(here.nodes.drop_last() =~= out.nodes);
            assert(is_made(here.nodes.last(), env, s));
            lemma_adds_node(out, here, s, root, f, g);
            lemma_body_adds(env, root, s, here.nodes.last(), here);
            lemma_adds(out, here, after, root, f, g);
        }
    } else if s.kind == "method_declaration"@ {
        let name = either_text(env, s, "field_identifier"@, "field_identifier"@);
        if name.len() > 0 {
            let here = method_node(env, s, name, out);
            let n = here.nodes.last();
            assert(here.nodes.drop_last() =~= out.nodes);
            assert(is_made(n, env, s));
            lemma_adds_node(out, here, s, root, f, g);
            let tied = method_tie(types, method_of(env, s), n.id, here);
            if tied != here {
                assert(tied.edges.drop_last() =~= here.edges);
                assert(is_tied(tied.edges.last(), env, s));
            }
            lemma_adds_edge(here, tied, s, root, f, g);
            lemma_adds(out, here, tied, root, f, g);
            lemma_body_adds(env, root, s, n, tied);
            lemma_adds(out, tied, after, root, f, g);
        }
    } else if s.kind == "import_declaration"@ {
        assert(after.nodes.drop_last() =~= out.nodes);
        assert(is_made(after.nodes.last(), env, s));
        lemma_adds_node(out, after, s, root, f, g);
    }
}

proof fn lemma_all_add(env: Env, root: Shape, kids: Seq<Shape>, types: Seq<(Seq<char>, Seq<char>)>, out: Out)
    requires
        forall|i: int| 0 <= i < kids.len() ==> is_below(#[trigger] kids[i], root),
    ensures
        adds(out, all_nodes(env, kids, types, out), root, made_fn(env), tied_fn(env)),
    decreases kids,
{
    if kids.len() > 0 {
        let f = made_fn(env);
        let g = tied_fn(env);
        let rest = kids.drop_last();
        assert forall|i: int| 0 <= i < rest.len() implies is_below(#[trigger] rest[i], root) by {
            assert(rest[i] == kids[i]);
        }
        let last = kids[kids.len() - 1];
        assert(is_below(last, root));
        let before = all_nodes(env, rest, types, out);
        lemma_all_add(env, root, rest, types, out);
        let here = declaration(env, last, types, before);
        lemma_declaration_adds(env, root, last, types, before);
        lemma_below(root, last);
        lemma_all_add(env, root, last.children, types, here);
        lemma_adds(out, before, here, root, f, g);
        lemma_adds(out, here, all_nodes(env, last.children, types, here), root, f, g);
    }
}

proof fn lemma_specs_add(env: Env, root: Shape, kids: Seq<Shape>, to: Typed)
    requires
        forall|i: int| 0 <= i < kids.len() ==> is_below(#[trigger] kids[i], root),
    ensures
        adds(to.out, type_specs(env, kids, to).out, root, made_fn(env), tied_fn(env)),
    decreases kids.len(),
{
    if kids.len() > 0 {
        let f = made_fn(env);
        let g = tied_fn(env);
        let rest = kids.drop_last();
        assert forall|i: int| 0 <= i < rest.len() implies is_below(#[trigger] rest[i], root) by {
            assert(rest[i] == kids[i]);
        }
        let last = kids[kids.len() - 1];
        assert(is_below(last, root));
        let before = type_specs(env, rest, to);
        lemma_specs_add(env, root, rest, to);
        let after = type_spec(env, last, before);
        let name = either_text(env, last, "type_identifier"@, "type_identifier"@);
        if (last.kind == "type_spec"@ || last.kind == "type_alias"@) && child_in(last, "type"@) is Some && name.len() > 0 {
            lemma_read_name(env, last, "type_identifier"@);
            lemma_kinds();
            assert(after.out.nodes.drop_last() =~= before.out.nodes);
            assert(is_made(after.out.nodes.last(), env, last));
            lemma_adds_node(before.out, after.out, last, root, f, g);
            lemma_adds(to.out, before.out, after.out, root, f, g);
        }
    }
}

proof fn lemma_types_add(env: Env, root: Shape, s: Shape, to: Typed)
    requires
        is_below(s, root),
    ensures
        adds(to.out, types_at(env, s, to).out, root, made_fn(env), tied_fn(env)),
    decreases s, 1int,
{
    lemma_below(root, s);
    if s.kind == "type_declaration"@ {
        lemma_specs_add(env, root, s.children, to);
    } else {
        lemma_types_below_add(env, root, s.children, to);
    }
}

proof fn lemma_types_below_add(env: Env, root: Shape, kids: Seq<Shape>, to: Typed)
    requires
        forall|i: int| 0 <= i < kids.len() ==> is_below(#[trigger] kids[i], root),
    ensures
        adds(to.out, types_below(env, kids, to).out, root, made_fn(env), tied_fn(env)),
    decreases kids, 0int,
{
    if kids.len() > 0 {
        let rest = kids.drop_last();
        assert forall|i: int| 0 <= i < rest.len() implies is_below(#[trigger] rest[i], root) by {
            assert(rest[i] == kids[i]);
        }
        let last = kids[kids.len() - 1];
        assert(is_below(last, root));
        let before = types_below(env, rest, to);
        lemma_types_below_add(env, root, rest, to);
        lemma_types_add(env, root, last, before);
        lemma_adds(to.out, before.out, types_at(env, last, before).out, root, made_fn(env), tied_fn(env));
    }
}

/// Nothing is found but functions, methods and types that have a name, and
/// imports, each where it stands in the tree, and nothing is tied but methods
/// to their types and functions to what is called in them.
pub proof fn nothing_else_is_found(env: Env, root: Shape, out: Out)
    ensures
        adds(out, file(env, root, out), root, made_fn(env), tied_fn(env)),
{
    let f = made_fn(env);
    let g = tied_fn(env);
    lemma_below_self(root);
    lemma_below(root, root);
    let none = Typed { out, types: Seq::empty() };
    let first = types_at(env, root, none);
    lemma_types_add(env, root, root, none);
    let here = declaration(env, root, first.types, first.out);
    lemma_declaration_adds(env, root, root, first.types, first.out);
    lemma_all_add(env, root, root.children, first.types, here);
    lemma_adds(out, first.out, here, root, f, g);
    lemma_adds(out, here, file(env, root, out), root, f, g);
}

} // verus!
