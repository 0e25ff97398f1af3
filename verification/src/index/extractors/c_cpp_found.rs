//! What the extractor for C and C++ finds.

use vstd::prelude::*;

use crate::index::extractors::c_cpp::{
    all_nodes, class_out, declaration, declared, enum_out, first_declared, function, function_name, functions,
    struct_out, tag_name, typedef_name, typedef_out,
};
use crate::index::extractors::trees::{
    adds, at_path, call_edge, grows, has, has_none_of, is_below, is_call_below, is_call_in, is_first_in, is_holding,
    is_kind_text, is_path, lemma_added, lemma_adds, lemma_adds_edge, lemma_adds_node, lemma_below, lemma_below_in,
    lemma_below_self, lemma_call_in, lemma_calls_add, lemma_calls_grow, lemma_first_in, lemma_grows, lemma_has,
    lemma_keeps, lemma_kind_text, lemma_new, lemma_no_field, lemma_other_text, lemma_type_names, stands_at,
};
use crate::index::extractors::{field_place, field_text, import_out, kids_in};
use crate::index::parser::{line, with_text, CodeEdgeView, CodeView, Env, Meta, Out};
use crate::index::source::cut;
use crate::index::syntax::Shape;
use crate::index::tier::IndexingTier;
use crate::text::{is_space, last_word, only, tail_word, trim_end_by, trim_start_by};

verus! {

// ---- names ----------------------------------------------------------------------------------

pub open spec fn is_identifier(s: Shape) -> bool {
    s.kind == "identifier"@ || s.kind == "field_identifier"@
}

/// No identifier stands at the node or below it.
pub open spec fn has_no_identifier(s: Shape) -> bool {
    forall|path: Seq<int>| #[trigger] is_path(s, path) ==> !is_identifier(at_path(s, path))
}

/// The way leads to the identifier that a declarator declares: into the inner
/// declarator where there is one, or else into the first child that holds an
/// identifier.
pub open spec fn leads_to_name(s: Shape, path: Seq<int>) -> bool
    decreases path.len(),
{
    if path.len() == 0 {
        is_identifier(s)
    } else {
        &&& !is_identifier(s)
        &&& 0 <= path[0] < s.children.len()
        &&& leads_to_name(s.children[path[0]], path.skip(1))
        &&& is_first_in(s, "declarator"@, path[0]) || is_first_that_names(s, path[0])
    }
}

/// No child is an inner declarator, and no child before that one holds an
/// identifier.
pub open spec fn is_first_that_names(s: Shape, k: int) -> bool {
    &&& forall|j: int| 0 <= j < s.children.len() ==> (#[trigger] s.children[j]).field != Some("declarator"@)
    &&& forall|j: int| 0 <= j < k ==> has_no_identifier(#[trigger] s.children[j])
}

proof fn lemma_no_identifier_below(s: Shape, k: int)
    requires
        has_no_identifier(s),
        0 <= k < s.children.len(),
    ensures
        has_no_identifier(s.children[k]),
        !is_identifier(s),
{
    assert(is_path(s, Seq::empty()));
    assert forall|path: Seq<int>| #[trigger] is_path(s.children[k], path) implies !is_identifier(
        at_path(s.children[k], path),
    ) by {
        let whole = seq![k] + path;
        assert(whole.skip(1) =~= path);
        assert(is_path(s, whole));
    }
}

proof fn lemma_declares_nothing(env: Env, s: Shape)
    requires
        has_no_identifier(s),
    ensures
        declared(env, s) is None,
    decreases s, 1int,
{
    assert(is_path(s, Seq::empty()));
    assert forall|j: int| 0 <= j < s.children.len() implies has_no_identifier(#[trigger] s.children[j]) by {
        lemma_no_identifier_below(s, j);
    }
    let k = field_place(s.children, "declarator"@) as int;
    if k < s.children.len() {
        lemma_declares_nothing(env, s.children[k]);
    } else {
        lemma_none_declares(env, s.children);
    }
}

proof fn lemma_none_declares(env: Env, kids: Seq<Shape>)
    requires
        forall|j: int| 0 <= j < kids.len() ==> has_no_identifier(#[trigger] kids[j]),
    ensures
        first_declared(env, kids) is None,
    decreases kids, 0int,
{
    if kids.len() > 0 {
        assert forall|j: int| 0 <= j < kids.drop_last().len() implies has_no_identifier(
            #[trigger] kids.drop_last()[j],
        ) by {
            assert(kids.drop_last()[j] == kids[j]);
        }
        lemma_none_declares(env, kids.drop_last());
        assert(has_no_identifier(kids[kids.len() - 1]));
        lemma_declares_nothing(env, kids.last());
    }
}

proof fn lemma_first_that_declares(env: Env, kids: Seq<Shape>, k: int, t: Seq<char>)
    requires
        0 <= k < kids.len(),
        forall|j: int| 0 <= j < k ==> has_no_identifier(#[trigger] kids[j]),
        declared(env, kids[k]) == Some(t),
    ensures
        first_declared(env, kids) == Some(t),
    decreases kids.len(),
{
    let rest = kids.drop_last();
    if k < rest.len() {
        assert(rest[k] == kids[k]);
        assert forall|j: int| 0 <= j < k implies has_no_identifier(#[trigger] rest[j]) by {
            assert(rest[j] == kids[j]);
        }
        lemma_first_that_declares(env, rest, k, t);
    } else {
        assert forall|j: int| 0 <= j < rest.len() implies has_no_identifier(#[trigger] rest[j]) by {
            assert(rest[j] == kids[j]);
        }
        lemma_none_declares(env, rest);
    }
}

proof fn lemma_declares(env: Env, s: Shape, path: Seq<int>)
    requires
        leads_to_name(s, path),
    ensures
        declared(env, s) == Some(env.text(at_path(s, path))),
    decreases path.len(),
{
    if path.len() > 0 {
        let child = s.children[path[0]];
        lemma_declares(env, child, path.skip(1));
        if is_first_in(s, "declarator"@, path[0]) {
            lemma_first_in(s, "declarator"@, path[0]);
        } else {
            lemma_no_field(s, "declarator"@);
            lemma_first_that_declares(env, s.children, path[0], env.text(at_path(s, path)));
        }
    }
}

/// A function is called what its declarator declares, however deep the
/// identifier stands.
pub open spec fn is_name(env: Env, s: Shape, d: int, way: Seq<int>, name: Seq<char>) -> bool {
    &&& is_first_in(s, "declarator"@, d)
    &&& leads_to_name(s.children[d], way)
    &&& name == env.text(at_path(s.children[d], way))
}

proof fn lemma_name(env: Env, s: Shape, d: int, way: Seq<int>, name: Seq<char>)
    requires
        is_name(env, s, d, way, name),
    ensures
        function_name(env, s) == name,
{
    lemma_first_in(s, "declarator"@, d);
    lemma_declares(env, s.children[d], way);
}

proof fn lemma_tail(before: Seq<char>, word: Seq<char>)
    requires
        forall|i: int| 0 <= i < word.len() ==> !is_space(#[trigger] word[i]),
    ensures
        tail_word(before + seq![' '] + word) == word,
    decreases word.len(),
{
    let whole = before + seq![' '] + word;
    if word.len() == 0 {
        assert(whole.last() == ' ');
        assert(word =~= Seq::empty());
    } else {
        let rest = word.drop_last();
        assert forall|i: int| 0 <= i < rest.len() implies !is_space(#[trigger] rest[i]) by {
            assert(!is_space(word[i]));
        }
        lemma_tail(before, rest);
        assert(whole.drop_last() =~= before + seq![' '] + rest);
        assert(whole.last() == word[word.len() - 1]);
        assert(rest.push(word.last()) =~= word);
    }
}

/// A type definition gives the name that it ends with, without a star before it
/// and the semicolon behind it.
pub proof fn a_typedef_names_its_last_word(before: Seq<char>, name: Seq<char>, star: bool)
    requires
        name.len() > 0,
        forall|i: int| 0 <= i < name.len() ==> !is_space(#[trigger] name[i]) && name[i] != ';' && name[i] != '*',
    ensures
        typedef_name(
            before + seq![' '] + (if star {
                seq!['*'] + name
            } else {
                name
            }) + seq![';'],
        ) == name,
{
    let word = if star {
        seq!['*'] + name
    } else {
        name
    };
    let inner = before + seq![' '] + word;
    let whole = before + seq![' '] + word + seq![';'];
    assert(whole =~= inner.push(';'));
    assert(whole.drop_last() =~= inner);
    assert(inner.last() == word[word.len() - 1]);
    assert(word[word.len() - 1] == name[name.len() - 1]);
    assert(!is_space(name[name.len() - 1]) && name[name.len() - 1] != ';');
    assert(trim_end_by(whole, only(';')) == trim_end_by(inner, only(';')));
    assert(trim_end_by(inner, only(';')) == inner);
    assert forall|i: int| 0 <= i < word.len() implies !is_space(#[trigger] word[i]) by {
        if star {
            if i > 0 {
                assert(word[i] == name[i - 1]);
            }
        }
    }
    lemma_tail(before, word);
    assert(last_word(inner) == word);
    assert(name[0] != '*');
    if star {
        assert(word.drop_first() =~= name);
        assert(trim_start_by(word, only('*')) == trim_start_by(name, only('*')));
    }
}

// ---- nothing is lost ------------------------------------------------------------------------

spec fn function_node(env: Env, s: Shape, owner: Option<Seq<char>>, out: Out) -> Out {
    let name = function_name(env, s);
    let start = Some(line(s.start_row));
    out.node(
        env,
        name,
        "function"@,
        start,
        Some(line(s.end_row)),
        Some(cut(env.text(s), 2000)),
        with_text(Meta::empty(), "return_type"@, field_text(env, s, "type"@)),
    ).owned(owner, env.id(name, "function"@, start), "contains"@)
}

proof fn lemma_function(env: Env, s: Shape, owner: Option<Seq<char>>, out: Out)
    ensures
        grows(out, function(env, s, owner, out)),
        function_name(env, s).len() > 0 ==> has(
            function(env, s, owner, out),
            env,
            s,
            function_name(env, s),
            "function"@,
            Some(s.end_row),
            owner,
        ),
{
    lemma_type_names();
    let name = function_name(env, s);
    if name.len() > 0 {
        let id = env.id(name, "function"@, Some(line(s.start_row)));
        let here = function_node(env, s, owner, out);
        lemma_new(
            out,
            env,
            s,
            name,
            "function"@,
            Some(line(s.start_row)),
            Some(line(s.end_row)),
            Some(cut(env.text(s), 2000)),
            with_text(Meta::empty(), "return_type"@, field_text(env, s, "type"@)),
            owner,
            Some(s.end_row),
        );
        let after = function(env, s, owner, out);
        lemma_calls_grow(env, kids_in(s, "body"@), id, "call_expression"@, true, here);
        assert(grows(here, after));
        lemma_grows(out, here, after);
        lemma_has(here, after, env, s, name, "function"@, Some(s.end_row), owner);
    }
}

proof fn lemma_functions(env: Env, kids: Seq<Shape>, owner: Seq<char>, out: Out)
    ensures
        grows(out, functions(env, kids, owner, out)),
    decreases kids.len(),
{
    if kids.len() > 0 {
        let before = functions(env, kids.drop_last(), owner, out);
        lemma_functions(env, kids.drop_last(), owner, out);
        lemma_function(env, kids.last(), Some(owner), before);
        lemma_grows(out, before, function(env, kids.last(), Some(owner), before));
    }
}

proof fn lemma_one_function(env: Env, kids: Seq<Shape>, owner: Seq<char>, out: Out, i: int) -> (at: Out)
    requires
        0 <= i < kids.len(),
        kids[i].kind == "function_definition"@,
    ensures
        grows(function(env, kids[i], Some(owner), at), functions(env, kids, owner, out)),
    decreases kids.len(),
{
    let rest = kids.drop_last();
    let before = functions(env, rest, owner, out);
    lemma_function(env, kids.last(), Some(owner), before);
    if i < rest.len() {
        assert(rest[i] == kids[i]);
        let at = lemma_one_function(env, rest, owner, out, i);
        lemma_grows(function(env, kids[i], Some(owner), at), before, functions(env, kids, owner, out));
        at
    } else {
        before
    }
}

spec fn class_node(env: Env, s: Shape, out: Out) -> Out {
    out.node(env, tag_name(env, s), "class"@, Some(line(s.start_row)), Some(line(s.end_row)), None, Meta::empty())
}

proof fn lemma_tags(env: Env, s: Shape, out: Out)
    ensures
        grows(out, struct_out(env, s, out)),
        grows(out, enum_out(env, s, out)),
        grows(out, class_out(env, s, out)),
        tag_name(env, s).len() > 0 ==> {
            &&& has(struct_out(env, s, out), env, s, tag_name(env, s), "struct"@, Some(s.end_row), None)
            &&& has(enum_out(env, s, out), env, s, tag_name(env, s), "enum"@, Some(s.end_row), None)
            &&& has(class_out(env, s, out), env, s, tag_name(env, s), "class"@, Some(s.end_row), None)
        },
{
    lemma_type_names();
    let name = tag_name(env, s);
    if name.len() > 0 {
        let a = struct_out(env, s, out);
        assert(a.nodes.drop_last() =~= out.nodes);
        lemma_added(out, a, env, s, name, "struct"@, Some(s.end_row));
        let b = enum_out(env, s, out);
        assert(b.nodes.drop_last() =~= out.nodes);
        lemma_added(out, b, env, s, name, "enum"@, Some(s.end_row));
        let c = class_node(env, s, out);
        assert(c.nodes.drop_last() =~= out.nodes);
        lemma_added(out, c, env, s, name, "class"@, Some(s.end_row));
        lemma_functions(env, kids_in(s, "body"@), env.id(name, "class"@, Some(line(s.start_row))), c);
        lemma_grows(out, c, class_out(env, s, out));
        lemma_has(c, class_out(env, s, out), env, s, name, "class"@, Some(s.end_row), None);
    }
}

proof fn lemma_typedef(env: Env, s: Shape, out: Out)
    ensures
        grows(out, typedef_out(env, s, out)),
        typedef_name(env.text(s)).len() > 0 ==> has(
            typedef_out(env, s, out),
            env,
            s,
            typedef_name(env.text(s)),
            "type_alias"@,
            None,
            None,
        ),
{
    lemma_type_names();
    let name = typedef_name(env.text(s));
    if name.len() > 0 {
        let a = typedef_out(env, s, out);
        assert(a.nodes.drop_last() =~= out.nodes);
        lemma_added(out, a, env, s, name, "type_alias"@, None);
    }
}

proof fn lemma_import(env: Env, s: Shape, out: Out)
    ensures
        grows(out, import_out(env, s, out)),
        has(import_out(env, s, out), env, s, env.text(s), "import"@, None, None),
{
    lemma_type_names();
    let a = import_out(env, s, out);
    assert(a.nodes.drop_last() =~= out.nodes);
    lemma_added(out, a, env, s, env.text(s), "import"@, None);
}

proof fn lemma_declaration_grows(env: Env, s: Shape, out: Out)
    ensures
        grows(out, declaration(env, s, None, out)),
{
    lemma_function(env, s, None, out);
    lemma_tags(env, s, out);
    lemma_typedef(env, s, out);
    lemma_import(env, s, out);
}

proof fn lemma_all_grow(env: Env, kids: Seq<Shape>, out: Out)
    ensures
        grows(out, all_nodes(env, kids, None, out)),
    decreases kids,
{
    if kids.len() > 0 {
        let before = all_nodes(env, kids.drop_last(), None, out);
        lemma_all_grow(env, kids.drop_last(), out);
        let here = declaration(env, kids.last(), None, before);
        lemma_declaration_grows(env, kids.last(), before);
        lemma_all_grow(env, kids.last().children, here);
        lemma_grows(out, before, here);
        lemma_grows(out, here, all_nodes(env, kids.last().children, None, here));
    }
}

proof fn lemma_visited(env: Env, kids: Seq<Shape>, out: Out, i: int, path: Seq<int>) -> (at: Out)
    requires
        0 <= i < kids.len(),
        is_path(kids[i], path),
    ensures
        grows(declaration(env, at_path(kids[i], path), None, at), all_nodes(env, kids, None, out)),
    decreases kids,
{
    let rest = kids.drop_last();
    let before = all_nodes(env, rest, None, out);
    let here = declaration(env, kids.last(), None, before);
    let below = kids.last().children;
    let after = all_nodes(env, below, None, here);
    lemma_all_grow(env, below, here);
    lemma_declaration_grows(env, kids.last(), before);
    if i < rest.len() {
        assert(rest[i] == kids[i]);
        let at = lemma_visited(env, rest, out, i, path);
        lemma_grows(before, here, after);
        lemma_grows(declaration(env, at_path(kids[i], path), None, at), before, after);
        at
    } else if path.len() == 0 {
        before
    } else {
        lemma_visited(env, below, here, path[0], path.skip(1))
    }
}

/// What a file declares.
pub open spec fn file(env: Env, root: Shape, out: Out) -> Out {
    all_nodes(env, root.children, None, declaration(env, root, None, out))
}

proof fn lemma_visited_file(env: Env, root: Shape, out: Out, path: Seq<int>) -> (at: Out)
    requires
        is_path(root, path),
    ensures
        grows(declaration(env, at_path(root, path), None, at), file(env, root, out)),
{
    let here = declaration(env, root, None, out);
    lemma_all_grow(env, root.children, here);
    if path.len() == 0 {
        out
    } else {
        lemma_visited(env, root.children, here, path[0], path.skip(1))
    }
}

proof fn lemma_kinds()
    ensures
        "function_definition"@ != "struct_specifier"@,
        "function_definition"@ != "enum_specifier"@,
        "function_definition"@ != "class_specifier"@,
        "function_definition"@ != "preproc_include"@,
        "function_definition"@ != "type_definition"@,
        "struct_specifier"@ != "enum_specifier"@,
        "struct_specifier"@ != "class_specifier"@,
        "struct_specifier"@ != "preproc_include"@,
        "struct_specifier"@ != "type_definition"@,
        "enum_specifier"@ != "class_specifier"@,
        "enum_specifier"@ != "preproc_include"@,
        "enum_specifier"@ != "type_definition"@,
        "class_specifier"@ != "preproc_include"@,
        "class_specifier"@ != "type_definition"@,
        "preproc_include"@ != "type_definition"@,
{
    reveal_strlit("function_definition");
    reveal_strlit("struct_specifier");
    reveal_strlit("enum_specifier");
    reveal_strlit("class_specifier");
    reveal_strlit("preproc_include");
    reveal_strlit("type_definition");
    assert("function_definition"@[0] == 'f' && "struct_specifier"@[0] == 's' && "enum_specifier"@[0] == 'e');
    assert("class_specifier"@[0] == 'c' && "preproc_include"@[0] == 'p' && "type_definition"@[0] == 't');
}

// ---- what is found --------------------------------------------------------------------------

/// Every function that has a name is found, wherever it stands, and every call
/// in its body with it, unless the index is made fast.
pub proof fn every_function_is_found(env: Env, root: Shape, out: Out, path: Seq<int>, d: int, way: Seq<int>, name: Seq<char>)
    requires
        is_path(root, path),
        at_path(root, path).kind == "function_definition"@,
        is_name(env, at_path(root, path), d, way, name),
        name.len() > 0,
    ensures
        has(file(env, root, out), env, at_path(root, path), name, "function"@, Some(at_path(root, path).end_row), None),
        forall|body: int, i: int, at: Seq<int>, callee: Seq<char>|
            env.tier != IndexingTier::Fast && #[trigger] is_call_in(
                env,
                at_path(root, path),
                "call_expression"@,
                true,
                body,
                i,
                at,
                callee,
            ) ==> file(env, root, out).edges.contains(
                call_edge(env.id(name, "function"@, Some(line(at_path(root, path).start_row))), callee),
            ),
{
    let s = at_path(root, path);
    let at = lemma_visited_file(env, root, out, path);
    lemma_name(env, s, d, way, name);
    lemma_function(env, s, None, at);
    let after = function(env, s, None, at);
    lemma_has(after, file(env, root, out), env, s, name, "function"@, Some(s.end_row), None);
    lemma_keeps(after, file(env, root, out));
    let id = env.id(name, "function"@, Some(line(s.start_row)));
    assert forall|body: int, i: int, w: Seq<int>, callee: Seq<char>|
        env.tier != IndexingTier::Fast && #[trigger] is_call_in(env, s, "call_expression"@, true, body, i, w, callee) implies file(
        env,
        root,
        out,
    ).edges.contains(call_edge(id, callee)) by {
        lemma_call_in(env, s, "call_expression"@, true, id, function_node(env, s, None, at), body, i, w, callee);
    }
}

/// The name of a struct, an enum or a class: its first type identifier, or where
/// it has none its first identifier.
pub open spec fn is_tag(env: Env, s: Shape, name: Seq<char>) -> bool {
    is_kind_text(env, s, "type_identifier"@, name) || (has_none_of(s, "type_identifier"@) && is_kind_text(
        env,
        s,
        "identifier"@,
        name,
    ))
}

proof fn lemma_tag(env: Env, s: Shape, name: Seq<char>)
    requires
        is_tag(env, s, name),
    ensures
        tag_name(env, s) == name,
{
    if is_kind_text(env, s, "type_identifier"@, name) {
        lemma_kind_text(env, s, "type_identifier"@, name);
    } else {
        lemma_other_text(env, s, "type_identifier"@, "identifier"@, name);
    }
}

/// Every struct, enum and class that has a name is found, wherever it stands.
pub proof fn every_tag_is_found(env: Env, root: Shape, out: Out, path: Seq<int>, name: Seq<char>)
    requires
        is_path(root, path),
        is_tag(env, at_path(root, path), name),
        name.len() > 0,
    ensures
        ({
            let s = at_path(root, path);
            &&& s.kind == "struct_specifier"@ ==> has(
                file(env, root, out),
                env,
                s,
                name,
                "struct"@,
                Some(s.end_row),
                None,
            )
            &&& s.kind == "enum_specifier"@ ==> has(file(env, root, out), env, s, name, "enum"@, Some(s.end_row), None)
            &&& s.kind == "class_specifier"@ ==> has(
                file(env, root, out),
                env,
                s,
                name,
                "class"@,
                Some(s.end_row),
                None,
            )
        }),
{
    let s = at_path(root, path);
    let after = file(env, root, out);
    lemma_kinds();
    let at = lemma_visited_file(env, root, out, path);
    lemma_tag(env, s, name);
    lemma_tags(env, s, at);
    if s.kind == "struct_specifier"@ {
        lemma_has(struct_out(env, s, at), after, env, s, name, "struct"@, Some(s.end_row), None);
    } else if s.kind == "enum_specifier"@ {
        lemma_has(enum_out(env, s, at), after, env, s, name, "enum"@, Some(s.end_row), None);
    } else if s.kind == "class_specifier"@ {
        lemma_has(class_out(env, s, at), after, env, s, name, "class"@, Some(s.end_row), None);
    }
}

/// A class holds every function with a name that stands in its body.
pub proof fn a_class_holds_its_functions(
    env: Env,
    root: Shape,
    out: Out,
    path: Seq<int>,
    name: Seq<char>,
    body: int,
    i: int,
    d: int,
    way: Seq<int>,
    method: Seq<char>,
)
    requires
        is_path(root, path),
        at_path(root, path).kind == "class_specifier"@,
        is_tag(env, at_path(root, path), name),
        name.len() > 0,
        is_first_in(at_path(root, path), "body"@, body),
        0 <= i < at_path(root, path).children[body].children.len(),
        at_path(root, path).children[body].children[i].kind == "function_definition"@,
        is_name(env, at_path(root, path).children[body].children[i], d, way, method),
        method.len() > 0,
    ensures
        ({
            let s = at_path(root, path);
            let f = s.children[body].children[i];
            has(
                file(env, root, out),
                env,
                f,
                method,
                "function"@,
                Some(f.end_row),
                Some(env.id(name, "class"@, Some(line(s.start_row)))),
            )
        }),
{
    let s = at_path(root, path);
    let after = file(env, root, out);
    lemma_kinds();
    let at = lemma_visited_file(env, root, out, path);
    lemma_tag(env, s, name);
    lemma_first_in(s, "body"@, body);
    let kids = s.children[body].children;
    let f = kids[i];
    let owner = env.id(name, "class"@, Some(line(s.start_row)));
    let mid = lemma_one_function(env, kids, owner, class_node(env, s, at), i);
    lemma_name(env, f, d, way, method);
    lemma_function(env, f, Some(owner), mid);
    lemma_grows(function(env, f, Some(owner), mid), class_out(env, s, at), after);
    lemma_has(function(env, f, Some(owner), mid), after, env, f, method, "function"@, Some(f.end_row), Some(owner));
}

/// Every file that is included is found, under the text of its directive.
pub proof fn every_include_is_found(env: Env, root: Shape, out: Out, path: Seq<int>)
    requires
        is_path(root, path),
        at_path(root, path).kind == "preproc_include"@,
    ensures
        has(file(env, root, out), env, at_path(root, path), env.text(at_path(root, path)), "import"@, None, None),
{
    lemma_type_names();
    let s = at_path(root, path);
    lemma_kinds();
    let at = lemma_visited_file(env, root, out, path);
    lemma_import(env, s, at);
    lemma_has(import_out(env, s, at), file(env, root, out), env, s, env.text(s), "import"@, None, None);
}

/// Every type definition that gives a name is found.
pub proof fn every_typedef_is_found(env: Env, root: Shape, out: Out, path: Seq<int>)
    requires
        is_path(root, path),
        at_path(root, path).kind == "type_definition"@,
        typedef_name(env.text(at_path(root, path))).len() > 0,
    ensures
        has(
            file(env, root, out),
            env,
            at_path(root, path),
            typedef_name(env.text(at_path(root, path))),
            "type_alias"@,
            None,
            None,
        ),
{
    let s = at_path(root, path);
    lemma_kinds();
    let at = lemma_visited_file(env, root, out, path);
    lemma_typedef(env, s, at);
    lemma_has(
        typedef_out(env, s, at),
        file(env, root, out),
        env,
        s,
        typedef_name(env.text(s)),
        "type_alias"@,
        None,
        None,
    );
}

// ---- nothing else is found ------------------------------------------------------------------

/// The node of a function, a tag or a type definition that has a name, or of
/// an include.
pub open spec fn is_made(n: CodeView, env: Env, t: Shape) -> bool {
    ||| t.kind == "function_definition"@ && stands_at(n, env, t, "function"@) && n.name == function_name(env, t)
        && n.name.len() > 0
    ||| t.kind == "struct_specifier"@ && stands_at(n, env, t, "struct"@) && n.name == tag_name(env, t) && n.name.len() > 0
    ||| t.kind == "enum_specifier"@ && stands_at(n, env, t, "enum"@) && n.name == tag_name(env, t) && n.name.len() > 0
    ||| t.kind == "class_specifier"@ && stands_at(n, env, t, "class"@) && n.name == tag_name(env, t) && n.name.len() > 0
    ||| t.kind == "type_definition"@ && stands_at(n, env, t, "type_alias"@) && n.name == typedef_name(env.text(t))
        && n.name.len() > 0
    ||| t.kind == "preproc_include"@ && stands_at(n, env, t, "import"@) && n.name == env.text(t)
}

/// An edge to a function from the class that holds it, or from a function to
/// what is called in it.
pub open spec fn is_tied(e: CodeEdgeView, env: Env, t: Shape) -> bool {
    exists|n: CodeView| #[trigger]
        is_made(n, env, t) && n.node_type == "function"@ && {
            ||| is_holding(e, n.id)
            ||| env.tier != IndexingTier::Fast && is_call_below(e, env, t, n.id, "call_expression"@, true)
        }
}

pub open spec fn made_fn(env: Env) -> spec_fn(CodeView, Shape) -> bool {
    |n: CodeView, t: Shape| is_made(n, env, t)
}

pub open spec fn tied_fn(env: Env) -> spec_fn(CodeEdgeView, Shape) -> bool {
    |e: CodeEdgeView, t: Shape| is_tied(e, env, t)
}

proof fn lemma_function_adds(env: Env, root: Shape, s: Shape, owner: Option<Seq<char>>, out: Out)
    requires
        is_below(s, root),
        s.kind == "function_definition"@,
    ensures
        adds(out, function(env, s, owner, out), root, made_fn(env), tied_fn(env)),
{
    let f = made_fn(env);
    let g = tied_fn(env);
    let name = function_name(env, s);
    if name.len() > 0 {
        let id = env.id(name, "function"@, Some(line(s.start_row)));
        let here = function_node(env, s, owner, out);
        let mid = Out { nodes: here.nodes, edges: out.edges };
        let n = mid.nodes.last();
        assert(mid.nodes.drop_last() =~= out.nodes);
        assert(is_made(n, env, s));
        lemma_adds_node(out, mid, s, root, f, g);
        if owner is Some {
            assert(here.edges.drop_last() =~= mid.edges);
            assert(is_tied(here.edges.last(), env, s));
        }
        lemma_adds_edge(mid, here, s, root, f, g);
        lemma_adds(out, mid, here, root, f, g);
        if env.tier != IndexingTier::Fast {
            lemma_below_self(s);
            lemma_below_in(s, s, "body"@);
            let kids = kids_in(s, "body"@);
            assert forall|e: CodeEdgeView| #[trigger] is_call_below(e, env, s, id, "call_expression"@, true) implies g(
                e,
                s,
            ) by {
                assert(is_made(n, env, s));
            }
            lemma_calls_add(env, s, kids, id, "call_expression"@, true, here, root, f, g);
            lemma_adds(out, here, function(env, s, owner, out), root, f, g);
        }
    }
}

proof fn lemma_functions_add(env: Env, root: Shape, kids: Seq<Shape>, owner: Seq<char>, out: Out)
    requires
        forall|i: int| 0 <= i < kids.len() ==> is_below(#[trigger] kids[i], root),
    ensures
        adds(out, functions(env, kids, owner, out), root, made_fn(env), tied_fn(env)),
    decreases kids.len(),
{
    if kids.len() > 0 {
        let rest = kids.drop_last();
        assert forall|i: int| 0 <= i < rest.len() implies is_below(#[trigger] rest[i], root) by {
            assert(rest[i] == kids[i]);
        }
        let last = kids[kids.len() - 1];
        assert(is_below(last, root));
        let before = functions(env, rest, owner, out);
        lemma_functions_add(env, root, rest, owner, out);
        if last.kind == "function_definition"@ {
            lemma_function_adds(env, root, last, Some(owner), before);
            lemma_adds(out, before, function(env, last, Some(owner), before), root, made_fn(env), tied_fn(env));
        }
    }
}

proof fn lemma_declaration_adds(env: Env, root: Shape, s: Shape, out: Out)
    requires
        is_below(s, root),
    ensures
        adds(out, declaration(env, s, None, out), root, made_fn(env), tied_fn(env)),
{
    lemma_kinds();
    let f = made_fn(env);
    let g = tied_fn(env);
    let after = declaration(env, s, None, out);
    let name = tag_name(env, s);
    if s.kind == "function_definition"@ {
        lemma_function_adds(env, root, s, None, out);
    } else if s.kind == "class_specifier"@ {
        if name.len() > 0 {
            let here = class_node(env, s, out);
            assert(here.nodes.drop_last() =~= out.nodes);
            assert(is_made(here.nodes.last(), env, s));
            lemma_adds_node(out, here, s, root, f, g);
            lemma_below_in(root, s, "body"@);
            lemma_functions_add(env, root, kids_in(s, "body"@), env.id(name, "class"@, Some(line(s.start_row))), here);
            lemma_adds(out, here, after, root, f, g);
        }
    } else if after != out {
        assert(after.nodes.drop_last() =~= out.nodes);
        assert(is_made(after.nodes.last(), env, s));
        lemma_adds_node(out, after, s, root, f, g);
    }
}

proof fn lemma_all_add(env: Env, root: Shape, kids: Seq<Shape>, out: Out)
    requires
        forall|i: int| 0 <= i < kids.len() ==> is_below(#[trigger] kids[i], root),
    ensures
        adds(out, all_nodes(env, kids, None, out), root, made_fn(env), tied_fn(env)),
    decreases kids,
{
    if kids.len() > 0 {
        let f = made_fn(env);
        let g = tied_fn(env);
        let rest = kids.drop_last();
        assert forall|i: int| 0 <= i < rest.len() implies is_below(#[trigger] rest[i], root) by {
            assert(rest[i] == kids[i]);
        }
        let last = kids[kids.len() - 1];
        assert(is_below(last, root));
        let before = all_nodes(env, rest, None, out);
        lemma_all_add(env, root, rest, out);
        let here = declaration(env, last, None, before);
        lemma_declaration_adds(env, root, last, before);
        lemma_below(root, last);
        lemma_all_add(env, root, last.children, here);
        lemma_adds(out, before, here, root, f, g);
        lemma_adds(out, here, all_nodes(env, last.children, None, here), root, f, g);
    }
}

/// Nothing is found but functions, tags and type definitions that have a name,
/// and includes, each where it stands in the tree, and nothing is tied but
/// functions to what holds them and to what is called in them.
pub proof fn nothing_else_is_found(env: Env, root: Shape, out: Out)
    ensures
        adds(out, file(env, root, out), root, made_fn(env), tied_fn(env)),
{
    lemma_below_self(root);
    lemma_below(root, root);
    let here = declaration(env, root, None, out);
    lemma_declaration_adds(env, root, root, out);
    lemma_all_add(env, root, root.children, here);
    lemma_adds(out, here, file(env, root, out), root, made_fn(env), tied_fn(env));
}

} // verus!
