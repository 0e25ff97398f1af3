//! What the extractors note of what they find.

use vstd::prelude::*;

use crate::gather::{gather, lemma_gather_member};
use crate::index::extractors::trees::{is_kind_text, lemma_calls_grow, lemma_kind_text};
use crate::index::extractors::typescript::{Above, Kin};
use crate::index::extractors::{
    c_cpp, either_text, field_text, go, java, kids_in, kind_text, names, python, rust, typescript,
};
use crate::index::parser::{line, with_flag, with_list, with_text, CodeView, Env, Meta, MetaView, Out};
use crate::index::syntax::Shape;
use crate::lines::lemma_split_joined;
use crate::text::{begins_with, char_place, has_part, joined, trimmed, uppercase};

verus! {

/// A flag, where it holds.
pub open spec fn flag(key: Seq<char>, holds: bool) -> Meta {
    if holds {
        seq![(key, MetaView::Flag(true))]
    } else {
        Seq::empty()
    }
}

/// A text, where there is one.
pub open spec fn text(key: Seq<char>, t: Option<Seq<char>>) -> Meta {
    match t {
        Some(t) => seq![(key, MetaView::Text(t))],
        None => Seq::empty(),
    }
}

/// A list, unless it is empty.
pub open spec fn list(key: Seq<char>, items: Seq<Seq<char>>) -> Meta {
    if items.len() > 0 {
        seq![(key, MetaView::List(items))]
    } else {
        Seq::empty()
    }
}

proof fn lemma_notes()
    ensures
        forall|m: Meta, key: Seq<char>, holds: bool| #[trigger] with_flag(m, key, holds) == m + flag(key, holds),
        forall|m: Meta, key: Seq<char>, t: Option<Seq<char>>| #[trigger] with_text(m, key, t) == m + text(key, t),
        forall|m: Meta, key: Seq<char>, items: Seq<Seq<char>>| #[trigger] with_list(m, key, items) == m + list(key, items),
        forall|m: Meta| #[trigger] (Meta::empty() + m) == m,
{
    assert forall|m: Meta, key: Seq<char>, holds: bool| #[trigger] with_flag(m, key, holds) == m + flag(key, holds) by {
        assert(with_flag(m, key, holds) =~= m + flag(key, holds));
    }
    assert forall|m: Meta, key: Seq<char>, t: Option<Seq<char>>| #[trigger] with_text(m, key, t) == m + text(key, t) by {
        assert(with_text(m, key, t) =~= m + text(key, t));
    }
    assert forall|m: Meta, key: Seq<char>, items: Seq<Seq<char>>| #[trigger] with_list(m, key, items) == m + list(
        key,
        items,
    ) by {
        assert(with_list(m, key, items) =~= m + list(key, items));
    }
    assert forall|m: Meta| #[trigger] (Meta::empty() + m) == m by {
        assert(Meta::empty() + m =~= m);
    }
}

/// The node that was collected first since then.
pub open spec fn next(before: Out, after: Out) -> CodeView {
    after.nodes[before.nodes.len() as int]
}

// ---- members --------------------------------------------------------------------------------

/// A member of one of the kinds with that name.
pub open spec fn is_member(env: Env, kids: Seq<Shape>, kind: Seq<char>, other: Seq<char>, part: Seq<char>, name: Seq<char>, i: int) -> bool {
    &&& 0 <= i < kids.len()
    &&& kids[i].kind == kind || kids[i].kind == other
    &&& is_kind_text(env, kids[i], part, name)
}

/// Every member of the kinds is listed by its name.
pub proof fn every_member_is_listed(
    env: Env,
    kids: Seq<Shape>,
    kind: Seq<char>,
    other: Seq<char>,
    part: Seq<char>,
    name: Seq<char>,
    i: int,
)
    requires
        is_member(env, kids, kind, other, part, name, i),
    ensures
        names(env, kids, kind, other, part).contains(name),
{
    let f = |s: Shape|
        if s.kind == kind || s.kind == other {
            kind_text(env, s, part)
        } else {
            None
        };
    lemma_gather_member(kids, f, name);
    lemma_kind_text(env, kids[i], part, name);
    assert(f(kids[i]) == Some(name));
}

/// Only members of the kinds are listed, each at most once.
pub proof fn only_members_are_listed(
    env: Env,
    kids: Seq<Shape>,
    s: Shape,
    kind: Seq<char>,
    other: Seq<char>,
    part: Seq<char>,
)
    ensures
        s.kind != kind && s.kind != other ==> names(env, kids.push(s), kind, other, part) == names(env, kids, kind, other, part),
        names(env, kids.push(s), kind, other, part).len() <= names(env, kids, kind, other, part).len() + 1,
{
    assert(kids.push(s).drop_last() =~= kids);
}

// ---- Go -------------------------------------------------------------------------------------

/// A name that begins with an upper-case letter is exported.
pub open spec fn is_upper(name: Seq<char>) -> bool {
    name.len() > 0 && uppercase(name[0])
}

/// A Go function notes whether it is exported, its parameters and its result.
pub proof fn a_go_function_is_noted(env: Env, s: Shape, out: Out)
    requires
        either_text(env, s, "identifier"@, "identifier"@).len() > 0,
    ensures
        next(out, go::function(env, s, out)).metadata == flag(
            "exported"@,
            is_upper(either_text(env, s, "identifier"@, "identifier"@)),
        ) + text("parameters"@, field_text(env, s, "parameters"@)) + text("return_type"@, field_text(env, s, "result"@)),
{
    lemma_notes();
    let name = either_text(env, s, "identifier"@, "identifier"@);
    let id = env.id(name, "function"@, Some(line(s.start_row)));
    let m = with_flag(Meta::empty(), "exported"@, go::is_exported(name));
    let m = with_text(m, "parameters"@, field_text(env, s, "parameters"@));
    let m = with_text(m, "return_type"@, field_text(env, s, "result"@));
    let here = out.node(
        env,
        name,
        "function"@,
        Some(line(s.start_row)),
        Some(line(s.end_row)),
        Some(crate::index::source::cut(env.text(s), 2000)),
        m,
    );
    lemma_calls_grow(env, kids_in(s, "body"@), id, "call_expression"@, true, here);
    assert(go::function(env, s, out).nodes == here.nodes);
}

/// A Go method notes its receiver, the type that the receiver names, and whether
/// it is exported.
pub proof fn a_go_method_is_noted(env: Env, s: Shape, types: Seq<(Seq<char>, Seq<char>)>, out: Out)
    requires
        either_text(env, s, "field_identifier"@, "field_identifier"@).len() > 0,
    ensures
        ({
            let of = match field_text(env, s, "receiver"@) {
                Some(t) => if go::receiver_type(t).len() > 0 {
                    Some(go::receiver_type(t))
                } else {
                    None
                },
                None => None,
            };
            next(out, go::method(env, s, types, out)).metadata == text("receiver"@, field_text(env, s, "receiver"@)) + text(
                "method_of"@,
                of,
            ) + flag("exported"@, is_upper(either_text(env, s, "field_identifier"@, "field_identifier"@)))
        }),
{
    lemma_notes();
    let name = either_text(env, s, "field_identifier"@, "field_identifier"@);
    let id = env.id(name, "function"@, Some(line(s.start_row)));
    let m = with_text(Meta::empty(), "receiver"@, field_text(env, s, "receiver"@));
    let m = with_text(m, "method_of"@, go::method_of(env, s));
    let m = with_flag(m, "exported"@, go::is_exported(name));
    let here = out.node(
        env,
        name,
        "function"@,
        Some(line(s.start_row)),
        Some(line(s.end_row)),
        Some(crate::index::source::cut(env.text(s), 2000)),
        m,
    );
    let tied = go::method_tie(types, go::method_of(env, s), id, here);
    lemma_calls_grow(env, kids_in(s, "body"@), id, "call_expression"@, true, tied);
    assert(tied.nodes == here.nodes);
    assert(go::method(env, s, types, out).nodes == here.nodes);
}

/// A Go type notes whether it is exported, and its fields or its methods.
pub proof fn a_go_type_is_noted(env: Env, s: Shape, name: Seq<char>, of: Shape, out: Out)
    ensures
        next(out, go::type_node(env, s, name, of, out).1).metadata == flag("exported"@, is_upper(name)) + (if of.kind
            == "struct_type"@ {
            list("fields"@, names(env, of.children, "field_declaration"@, "field_declaration"@, "field_identifier"@))
        } else if of.kind == "interface_type"@ {
            list("methods"@, names(env, of.children, "method_spec"@, "method_spec"@, "field_identifier"@))
        } else {
            Seq::empty()
        }),
{
    lemma_notes();
    let f = flag("exported"@, is_upper(name));
    assert(f + Meta::empty() =~= f);
}

// ---- Java -----------------------------------------------------------------------------------

/// A Java class notes what it extends and implements; an interface its methods,
/// an enum its constants.
pub proof fn a_java_type_is_noted(
    env: Env,
    s: Shape,
    name: Seq<char>,
    owner: Option<Seq<char>>,
    node_type: Seq<char>,
    key: Seq<char>,
    member: Seq<char>,
    out: Out,
)
    ensures
        next(out, java::class_node(env, s, name, owner, out)).metadata == text(
            "extends"@,
            field_text(env, s, "superclass"@),
        ) + text("implements"@, field_text(env, s, "interfaces"@)),
        either_text(env, s, "identifier"@, "identifier"@).len() > 0 ==> next(
            out,
            java::listed_type(env, s, node_type, key, member, out),
        ).metadata == list(key, names(env, kids_in(s, "body"@), member, member, "identifier"@)),
{
    lemma_notes();
}

// ---- Python ---------------------------------------------------------------------------------

/// A Python function notes whether it is asynchronous, its parameters and what it
/// returns; a class its bases.
pub proof fn a_python_definition_is_noted(env: Env, s: Shape, name: Seq<char>, owner: Option<Seq<char>>, out: Out)
    ensures
        python::function_meta(env, s) == flag("async"@, begins_with(env.text(s), "async "@)) + text(
            "parameters"@,
            field_text(env, s, "parameters"@),
        ) + text("return_type"@, field_text(env, s, "return_type"@)),
        next(out, python::class_node(env, s, name, owner, out)).metadata == text(
            "bases"@,
            field_text(env, s, "superclasses"@),
        ),
{
    lemma_notes();
}

// ---- Rust -----------------------------------------------------------------------------------

/// A word stands at the start of a text, or after a space in it.
pub open spec fn has_word(t: Seq<char>, start: Seq<char>, inside: Seq<char>) -> bool {
    begins_with(t, start) || has_part(t, inside)
}

/// The text `public`, where it holds.
pub open spec fn public_if(holds: bool) -> Option<Seq<char>> {
    if holds {
        Some("public"@)
    } else {
        None
    }
}

/// A Rust function notes whether it is asynchronous, unsafe and public, what it
/// returns, its parameters and its generics.
pub proof fn a_rust_function_is_noted(env: Env, s: Shape)
    ensures
        rust::function_meta(env, s) == flag("async"@, has_word(env.text(s), "async "@, " async "@)) + flag(
            "unsafe"@,
            has_word(env.text(s), "unsafe "@, " unsafe "@),
        ) + text("visibility"@, public_if(has_word(env.text(s), "pub "@, " pub "@))) + text(
            "return_type"@,
            field_text(env, s, "return_type"@),
        ) + text("parameters"@, field_text(env, s, "parameters"@)) + text("generics"@, field_text(env, s, "type_parameters"@)),
{
    lemma_notes();
}

/// A Rust struct notes its fields, what it derives and its generics; an enum its
/// variants and what it derives; a trait its methods and its generics.
pub proof fn a_rust_type_is_noted(env: Env, s: Shape, before: Seq<Shape>, out: Out)
    requires
        either_text(env, s, "type_identifier"@, "type_identifier"@).len() > 0,
    ensures
        next(out, rust::struct_out(env, s, before, out)).metadata == list(
            "fields"@,
            names(env, kids_in(s, "body"@), "field_declaration"@, "field_declaration"@, "field_identifier"@),
        ) + list("derives"@, rust::derives(env, before)) + text("generics"@, field_text(env, s, "type_parameters"@)),
        next(out, rust::enum_out(env, s, before, out)).metadata == list(
            "variants"@,
            names(env, kids_in(s, "body"@), "enum_variant"@, "enum_variant"@, "identifier"@),
        ) + list("derives"@, rust::derives(env, before)),
        next(out, rust::trait_out(env, s, out)).metadata == list(
            "methods"@,
            names(env, kids_in(s, "body"@), "function_signature_item"@, "function_item"@, "identifier"@),
        ) + text("generics"@, field_text(env, s, "type_parameters"@)),
{
    lemma_notes();
}

/// What a type derives is told by the attributes that stand right before it, the
/// nearest first, and by no others.
pub proof fn derives_are_those_right_before(env: Env, before: Seq<Shape>, s: Shape)
    ensures
        s.kind == "attribute_item"@ ==> rust::derives(env, before.push(s)) == rust::derive_names(env.text(s))
            + rust::derives(env, before),
        s.kind != "attribute_item"@ ==> rust::derives(env, before.push(s)).len() == 0,
        rust::derives(env, Seq::empty()).len() == 0,
{
    assert(before.push(s).drop_last() =~= before);
}

proof fn lemma_char_place(a: Seq<char>, x: char, b: Seq<char>)
    requires
        !a.contains(x),
    ensures
        char_place(a + seq![x] + b, x) == a.len(),
    decreases a.len(),
{
    let s = a + seq![x] + b;
    if a.len() > 0 {
        assert(a.contains(a[0]));
        assert(s[0] == a[0]);
        let rest = a.skip(1);
        if rest.contains(x) {
            let k = choose|k: int| 0 <= k < rest.len() && rest[k] == x;
            assert(a[k + 1] == x);
        }
        assert(s.skip(1) =~= rest + seq![x] + b);
        lemma_char_place(rest, x, b);
    } else {
        assert(s[0] == x);
    }
}

/// A trait in a list of derives: some text without a comma.
pub open spec fn is_trait_name(p: Seq<char>) -> bool {
    trimmed(p).len() > 0 && !p.contains(',')
}

/// An attribute `#[derive(A, B)]` derives each of the traits between its
/// parentheses, in their order, without the white space around them.
pub proof fn an_attribute_derives_what_it_lists(head: Seq<char>, parts: Seq<Seq<char>>)
    requires
        has_part(head, "derive"@),
        !head.contains('('),
        parts.len() > 0,
        forall|i: int| 0 <= i < parts.len() ==> is_trait_name(#[trigger] parts[i]),
    ensures
        rust::derive_names(head + seq!['('] + joined(parts, seq![',']) + seq![')', ']']) == parts.map_values(
            |p: Seq<char>| trimmed(p),
        ),
{
    let inner = joined(parts, seq![',']);
    let t = head + seq!['('] + inner + seq![')', ']'];
    let k = choose|k: int| #[trigger] crate::text::occurs_at(head, "derive"@, k);
    assert(t.subrange(k, k + "derive"@.len()) =~= head.subrange(k, k + "derive"@.len()));
    assert(crate::text::occurs_at(t, "derive"@, k));
    lemma_char_place(head, '(', inner + seq![')', ']']);
    assert(t =~= head + seq!['('] + (inner + seq![')', ']']));
    let body = head + seq!['('] + inner;
    assert(t =~= body + seq![')'] + seq![']']);
    crate::index::extractors::typescript_found::lemma_last(body, ')', seq![']']);
    let from = head.len() + 1;
    let to = body.len() as int;
    assert(t.subrange(from as int, to) =~= inner);
    assert forall|i: int| 0 <= i < parts.len() implies !(#[trigger] parts[i]).contains(',') by {
        assert(is_trait_name(parts[i]));
    }
    lemma_split_joined(parts, ',');
    let f = |p: Seq<char>|
        if trimmed(p).len() > 0 {
            Some(trimmed(p))
        } else {
            None
        };
    lemma_trimmed_parts(parts, f);
}

proof fn lemma_trimmed_parts(parts: Seq<Seq<char>>, f: spec_fn(Seq<char>) -> Option<Seq<char>>)
    requires
        forall|i: int| 0 <= i < parts.len() ==> is_trait_name(#[trigger] parts[i]),
        forall|p: Seq<char>| trimmed(p).len() > 0 ==> #[trigger] f(p) == Some(trimmed(p)),
    ensures
        gather(parts, f) == parts.map_values(|p: Seq<char>| trimmed(p)),
    decreases parts.len(),
{
    let want = parts.map_values(|p: Seq<char>| trimmed(p));
    if parts.len() > 0 {
        let rest = parts.drop_last();
        assert forall|i: int| 0 <= i < rest.len() implies is_trait_name(#[trigger] rest[i]) by {
            assert(rest[i] == parts[i]);
        }
        lemma_trimmed_parts(rest, f);
        assert(is_trait_name(parts[parts.len() - 1]));
        assert(f(parts.last()) == Some(trimmed(parts.last())));
        assert(rest.map_values(|p: Seq<char>| trimmed(p)).push(trimmed(parts.last())) =~= want);
    } else {
        assert(gather(parts, f) =~= want);
    }
}

// ---- C and C++ ------------------------------------------------------------------------------

/// A C function notes what it returns, a struct its fields and an enum its
/// values.
pub proof fn a_c_declaration_is_noted(env: Env, s: Shape, owner: Option<Seq<char>>, out: Out)
    ensures
        c_cpp::function_name(env, s).len() > 0 ==> next(out, c_cpp::function(env, s, owner, out)).metadata == text(
            "return_type"@,
            field_text(env, s, "type"@),
        ),
        c_cpp::tag_name(env, s).len() > 0 ==> next(out, c_cpp::struct_out(env, s, out)).metadata == list(
            "fields"@,
            names(env, kids_in(s, "body"@), "field_declaration"@, "field_declaration"@, "field_identifier"@),
        ),
        c_cpp::tag_name(env, s).len() > 0 ==> next(out, c_cpp::enum_out(env, s, out)).metadata == list(
            "values"@,
            names(env, kids_in(s, "body"@), "enumerator"@, "enumerator"@, "identifier"@),
        ),
{
    lemma_notes();
    let name = c_cpp::function_name(env, s);
    if name.len() > 0 {
        let start = Some(line(s.start_row));
        let id = env.id(name, "function"@, start);
        let here = out.node(
            env,
            name,
            "function"@,
            start,
            Some(line(s.end_row)),
            Some(crate::index::source::cut(env.text(s), 2000)),
            with_text(Meta::empty(), "return_type"@, field_text(env, s, "type"@)),
        ).owned(owner, id, "contains"@);
        lemma_calls_grow(env, kids_in(s, "body"@), id, "call_expression"@, true, here);
        assert(c_cpp::function(env, s, owner, out).nodes == here.nodes);
    }
}

// ---- TypeScript and JavaScript --------------------------------------------------------------

proof fn lemma_ts_calls(env: Env, kids: Seq<Shape>, up: Above, caller: Seq<char>, out: Out)
    ensures
        typescript::calls(env, kids, up, caller, out).nodes == out.nodes,
    decreases kids,
{
    if kids.len() > 0 {
        let s = kids.last();
        let had = typescript::calls(env, kids.drop_last(), up, caller, out);
        lemma_ts_calls(env, kids.drop_last(), up, caller, out);
        let here = crate::index::extractors::call_at(env, s, caller, "call_expression"@, true, had);
        lemma_ts_calls(env, s.children, typescript::below(up, s.kind), caller, here);
    }
}

/// A function notes whether it is asynchronous and exported.
pub proof fn a_script_function_is_noted(env: Env, s: Shape, up: Above, out: Out)
    requires
        typescript::function_name(env, s).len() > 0,
    ensures
        next(out, typescript::function(env, s, up, out)).metadata == flag("async"@, has_part(env.text(s), "async "@)) + flag(
            "exported"@,
            begins_with(env.text(s), "export "@),
        ),
{
    lemma_notes();
    let name = typescript::function_name(env, s);
    let t = env.text(s);
    let m = with_flag(Meta::empty(), "async"@, has_part(t, "async "@));
    let m = with_flag(m, "exported"@, begins_with(t, "export "@));
    let start = Some(line(s.start_row));
    let here = out.node(
        env,
        name,
        "function"@,
        start,
        Some(line(s.end_row)),
        Some(crate::index::source::cut(t, 2000)),
        m,
    );
    lemma_ts_calls(env, s.children, typescript::below(up, s.kind), env.id(name, "function"@, start), here);
    assert(typescript::function(env, s, up, out).nodes == here.nodes);
}

/// An interface notes its properties and methods; a variable notes whether its
/// declaration stands in an export.
pub proof fn a_script_declaration_is_noted(
    env: Env,
    s: Shape,
    up: Above,
    d: Shape,
    value: Shape,
    name: Seq<char>,
    node_type: Seq<char>,
    out: Out,
)
    ensures
        typescript::title(env, s).len() > 0 ==> next(out, typescript::interface_out(env, s, out)).metadata == list(
            "properties"@,
            names(env, kids_in(s, "body"@), "property_signature"@, "method_signature"@, "property_identifier"@),
        ),
        next(out, typescript::binding(env, s, up, d, value, name, node_type, out)).metadata == flag(
            "exported"@,
            up.first == Kin::Export,
        ),
{
    lemma_notes();
    let here = out.node(
        env,
        name,
        node_type,
        Some(line(s.start_row)),
        Some(line(value.end_row)),
        Some(crate::index::source::cut(env.text(s), 2000)),
        with_flag(Meta::empty(), "exported"@, up.first == Kin::Export),
    );
    lemma_ts_calls(
        env,
        d.children,
        typescript::below(typescript::below(up, s.kind), d.kind),
        env.id(name, node_type, Some(line(s.start_row))),
        here,
    );
    assert(typescript::binding(env, s, up, d, value, name, node_type, out).nodes == here.nodes);
}

} // verus!
