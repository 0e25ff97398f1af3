//! Which definition a call of a TypeScript or JavaScript file belongs to.

use vstd::multiset::Multiset;
use vstd::prelude::*;

use crate::gather::{gather, lemma_gather_push};
use crate::index::extractors::typescript::{
    all_nodes, at_root, base_name, below, binding, binding_at, binding_name, bindings, call_each,
    callee_at, calls, file, function, function_name, is_apart, is_claimed, is_function, made_at,
    method, methods, node, owns_calls, scope_callees, scope_out, Above, Kin,
};
use crate::index::extractors::{call_at, child_in, field_text, is_callee};
use crate::index::parser::{is_one_line, line, CodeEdgeView, Env, Out};
use crate::index::syntax::Shape;
use crate::index::tier::IndexingTier;
use crate::text::stem;

verus! {

/// Calls: who calls, and what.
pub type Calls = Multiset<(Seq<char>, Seq<char>)>;

/// A call among the edges.
pub open spec fn call_of() -> spec_fn(CodeEdgeView) -> Option<(Seq<char>, Seq<char>)> {
    |e: CodeEdgeView|
        match e.to_name {
            Some(callee) => if e.edge_type == "calls"@ {
                Some((e.from_id, callee))
            } else {
                None
            },
            None => None,
        }
}

/// The calls among the edges that were made.
pub open spec fn recorded_calls(out: Out) -> Calls {
    gather(out.edges, call_of()).to_multiset()
}

/// The call that one node is, for a caller: a call expression whose callee is
/// not empty, is shorter than a hundred bytes and stands on one line.
pub open spec fn call_here(env: Env, s: Shape, caller: Seq<char>) -> Calls {
    match field_text(env, s, "function"@) {
        Some(callee) => if s.kind == "call_expression"@ && is_callee(callee, true) && is_one_line(callee) {
            Multiset::singleton((caller, callee))
        } else {
            Multiset::empty()
        },
        None => Multiset::empty(),
    }
}

/// What the nearest enclosing definition of a node is.
pub enum Holder {
    /// A function or a binding, by its id.
    Definition(Seq<char>),
    /// None: the node is in the module's own scope, whose node has the id.
    Module(Seq<char>),
    /// None that is walked: the node is in a class outside of functions.
    Nothing,
}

/// The id of what a node that owns its calls defines; `parent` is the node
/// around it.
pub open spec fn owner_id(env: Env, parent: Shape, s: Shape, up: Above) -> Seq<char> {
    if is_function(env, s) {
        env.id(function_name(env, s), "function"@, Some(line(s.start_row)))
    } else {
        let value = child_in(s, "value"@)->0;
        env.id(
            binding_name(env, s),
            if value.kind == "arrow_function"@ {
                "function"@
            } else {
                "object"@
            },
            Some(line(parent.start_row)),
        )
    }
}

/// The nearest definition for what stands below a node.
pub open spec fn held_below(env: Env, parent: Shape, s: Shape, up: Above, holder: Holder) -> Holder {
    if owns_calls(env, s, up) {
        Holder::Definition(owner_id(env, parent, s, up))
    } else if holder is Module && is_apart(s.kind) {
        Holder::Nothing
    } else {
        holder
    }
}

pub open spec fn call_held(env: Env, s: Shape, holder: Holder) -> Calls {
    match holder {
        Holder::Definition(id) => call_here(env, s, id),
        Holder::Module(id) => call_here(env, s, id),
        Holder::Nothing => Multiset::empty(),
    }
}

/// Every call in the children `kids` of `parent` and below them, each once,
/// with its nearest enclosing definition; `holder` is that of the children.
pub open spec fn attributed(env: Env, parent: Shape, kids: Seq<Shape>, up: Above, holder: Holder) -> Calls
    decreases kids,
{
    if kids.len() == 0 {
        Multiset::empty()
    } else {
        let s = kids.last();
        attributed(env, parent, kids.drop_last(), up, holder).add(call_held(env, s, holder)).add(
            attributed(env, s, s.children, below(up, s.kind), held_below(env, parent, s, up, holder)),
        )
    }
}

/// The id of the node for a file's module scope.
pub open spec fn module_id(env: Env) -> Seq<char> {
    env.id(stem(base_name(env.file)), "module"@, Some(1))
}

/// A call belongs to the nearest enclosing definition, once: where calls are
/// wanted at all, the calls that extracting a file records are exactly those
/// that its tree makes, each with the nearest definition around it, or with
/// the module's scope where there is none. Calls in a class outside of
/// functions, other than in a definition, are not recorded.
pub proof fn a_call_belongs_to_the_nearest_definition_once(env: Env, root: Shape, out: Out)
    requires
        env.tier != IndexingTier::Fast,
        !is_function(env, root),
    ensures
        recorded_calls(file(env, root, out)) == recorded_calls(out).add(
            attributed(env, root, root.children, below(at_root(), root.kind), Holder::Module(module_id(env))),
        ),
{
    let up = below(at_root(), root.kind);
    let made = node(env, root, at_root(), out);
    let id = module_id(env);
    lemma_node(env, root, at_root(), out);
    lemma_scope_out(env, root, made);
    lemma_attributed(env, root, root.children, up, Holder::Module(id));
    assert(recorded_calls(file(env, root, out)) =~= recorded_calls(out).add(
        attributed(env, root, root.children, up, Holder::Module(id)),
    ));
}

// ---- what each walk records -------------------------------------------------------------------

/// The calls of a caller in some nodes and below them, up to what owns its
/// calls; in the module's scope, up to what is apart from it too.
spec fn own(env: Env, kids: Seq<Shape>, up: Above, caller: Seq<char>, module: bool) -> Calls
    decreases kids,
{
    if kids.len() == 0 {
        Multiset::empty()
    } else {
        let s = kids.last();
        let before = own(env, kids.drop_last(), up, caller, module);
        if owns_calls(env, s, up) || (module && is_apart(s.kind)) {
            before
        } else {
            before.add(call_here(env, s, caller)).add(own(env, s.children, below(up, s.kind), caller, module))
        }
    }
}

/// The own calls of a node that owns its calls.
spec fn owned(env: Env, parent: Shape, s: Shape, up: Above) -> Calls {
    if owns_calls(env, s, up) {
        own(env, s.children, below(up, s.kind), owner_id(env, parent, s, up), false)
    } else {
        Multiset::empty()
    }
}

/// The own calls of every definition among some nodes and below them.
spec fn all_owned(env: Env, parent: Shape, kids: Seq<Shape>, up: Above) -> Calls
    decreases kids,
{
    if kids.len() == 0 {
        Multiset::empty()
    } else {
        let s = kids.last();
        all_owned(env, parent, kids.drop_last(), up).add(owned(env, parent, s, up)).add(
            all_owned(env, s, s.children, below(up, s.kind)),
        )
    }
}

/// The own calls of the bindings among the children of a declaration.
spec fn bound(env: Env, parent: Shape, kids: Seq<Shape>, up: Above) -> Calls
    decreases kids.len(),
{
    if kids.len() == 0 {
        Multiset::empty()
    } else {
        let s = kids.last();
        let before = bound(env, parent, kids.drop_last(), up);
        if is_claimed(env, s, up) {
            before.add(owned(env, parent, s, up))
        } else {
            before
        }
    }
}

spec fn own_held(env: Env, kids: Seq<Shape>, up: Above, holder: Holder) -> Calls {
    match holder {
        Holder::Definition(id) => own(env, kids, up, id, false),
        Holder::Module(id) => own(env, kids, up, id, true),
        Holder::Nothing => Multiset::empty(),
    }
}

/// No node is of two kinds.
proof fn lemma_kinds()
    ensures
        "function_declaration"@ != "call_expression"@,
        "variable_declarator"@ != "call_expression"@,
        "variable_declarator"@ != "function_declaration"@,
        "class_declaration"@ != "call_expression"@,
        "interface_declaration"@ != "call_expression"@,
        "type_alias_declaration"@ != "call_expression"@,
        "import_statement"@ != "call_expression"@,
        "export_statement"@ != "function_declaration"@,
        "import_statement"@ != "function_declaration"@,
        "export_statement"@ != "lexical_declaration"@,
        "export_statement"@ != "variable_declaration"@,
        "import_statement"@ != "lexical_declaration"@,
        "import_statement"@ != "variable_declaration"@,
        "class_declaration"@ != "lexical_declaration"@,
        "class_declaration"@ != "variable_declaration"@,
        "interface_declaration"@ != "lexical_declaration"@,
        "interface_declaration"@ != "variable_declaration"@,
        "type_alias_declaration"@ != "lexical_declaration"@,
        "type_alias_declaration"@ != "variable_declaration"@,
        "function_declaration"@ != "lexical_declaration"@,
        "function_declaration"@ != "variable_declaration"@,
        "program"@ != "lexical_declaration"@,
        "program"@ != "variable_declaration"@,
        "class_declaration"@ != "function_declaration"@,
        "interface_declaration"@ != "function_declaration"@,
        "type_alias_declaration"@ != "function_declaration"@,
        "lexical_declaration"@ != "class_declaration"@,
        "lexical_declaration"@ != "interface_declaration"@,
        "lexical_declaration"@ != "type_alias_declaration"@,
        "calls"@ != "contains"@,
{
    reveal_strlit("function_declaration");
    reveal_strlit("variable_declarator");
    reveal_strlit("variable_declaration");
    reveal_strlit("lexical_declaration");
    reveal_strlit("class_declaration");
    reveal_strlit("interface_declaration");
    reveal_strlit("type_alias_declaration");
    reveal_strlit("import_statement");
    reveal_strlit("export_statement");
    reveal_strlit("call_expression");
    reveal_strlit("program");
    reveal_strlit("calls");
    reveal_strlit("contains");
    assert("function_declaration"@[0] == 'f');
    assert("variable_declarator"@[0] == 'v');
    assert("variable_declaration"@[0] == 'v');
    assert("lexical_declaration"@[0] == 'l');
    assert("class_declaration"@[1] == 'l');
    assert("call_expression"@[0] == 'c');
    assert("interface_declaration"@[1] == 'n');
    assert("type_alias_declaration"@[0] == 't');
    assert("import_statement"@[1] == 'm');
    assert("export_statement"@[0] == 'e');
    assert("calls"@[1] == 'a');
    assert("contains"@[1] == 'o');
}

/// The calls of a holder, and then those of every definition below.
proof fn lemma_attributed(env: Env, parent: Shape, kids: Seq<Shape>, up: Above, holder: Holder)
    ensures
        attributed(env, parent, kids, up, holder) == own_held(env, kids, up, holder).add(
            all_owned(env, parent, kids, up),
        ),
    decreases kids,
{
    let all = attributed(env, parent, kids, up, holder);
    if kids.len() > 0 {
        let s = kids.last();
        let inner = held_below(env, parent, s, up, holder);
        lemma_kinds();
        lemma_attributed(env, parent, kids.drop_last(), up, holder);
        lemma_attributed(env, s, s.children, below(up, s.kind), inner);
        if owns_calls(env, s, up) || is_apart(s.kind) {
            assert(s.kind != "call_expression"@);
        }
    }
    assert(all =~= own_held(env, kids, up, holder).add(all_owned(env, parent, kids, up)));
}

proof fn lemma_call_at(env: Env, s: Shape, caller: Seq<char>, out: Out)
    ensures
        recorded_calls(call_at(env, s, caller, "call_expression"@, true, out)) == recorded_calls(out).add(
            call_here(env, s, caller),
        ),
{
    match field_text(env, s, "function"@) {
        Some(callee) => {
            lemma_call(out, caller, callee);
        },
        None => {},
    }
    assert(recorded_calls(call_at(env, s, caller, "call_expression"@, true, out)) =~= recorded_calls(out).add(
        call_here(env, s, caller),
    ));
}

/// What one call adds to the recorded ones: itself, where its callee stands
/// on one line.
proof fn lemma_call(out: Out, caller: Seq<char>, callee: Seq<char>)
    ensures
        recorded_calls(out.call(caller, callee)) == (if is_one_line(callee) {
            recorded_calls(out).insert((caller, callee))
        } else {
            recorded_calls(out)
        }),
{
    broadcast use vstd::seq_lib::group_to_multiset_ensures;

    if is_one_line(callee) {
        let e = out.call(caller, callee).edges.last();
        assert(out.call(caller, callee).edges == out.edges.push(e));
        lemma_gather_push(out.edges, e, call_of());
        vstd::seq_lib::to_multiset_build(gather(out.edges, call_of()), (caller, callee));
    }
}

proof fn lemma_calls(env: Env, kids: Seq<Shape>, up: Above, caller: Seq<char>, out: Out)
    ensures
        recorded_calls(calls(env, kids, up, caller, out)) == recorded_calls(out).add(own(env, kids, up, caller, false)),
    decreases kids,
{
    if kids.len() > 0 {
        let s = kids.last();
        let before = calls(env, kids.drop_last(), up, caller, out);
        lemma_calls(env, kids.drop_last(), up, caller, out);
        if !owns_calls(env, s, up) {
            let here = call_at(env, s, caller, "call_expression"@, true, before);
            lemma_call_at(env, s, caller, before);
            lemma_calls(env, s.children, below(up, s.kind), caller, here);
        }
    }
    assert(recorded_calls(calls(env, kids, up, caller, out)) =~= recorded_calls(out).add(
        own(env, kids, up, caller, false),
    ));
}

/// The calls of one caller to some callees.
spec fn to_each(caller: Seq<char>, callees: Seq<Seq<char>>) -> Calls
    decreases callees.len(),
{
    if callees.len() == 0 {
        Multiset::empty()
    } else {
        let before = to_each(caller, callees.drop_last());
        if is_one_line(callees.last()) {
            before.insert((caller, callees.last()))
        } else {
            before
        }
    }
}

proof fn lemma_call_each(caller: Seq<char>, callees: Seq<Seq<char>>, out: Out)
    ensures
        recorded_calls(call_each(caller, callees, out)) == recorded_calls(out).add(to_each(caller, callees)),
    decreases callees.len(),
{
    if callees.len() > 0 {
        lemma_call_each(caller, callees.drop_last(), out);
        lemma_call(call_each(caller, callees.drop_last(), out), caller, callees.last());
    }
    assert(recorded_calls(call_each(caller, callees, out)) =~= recorded_calls(out).add(to_each(caller, callees)));
}

proof fn lemma_scope_callees(env: Env, kids: Seq<Shape>, up: Above, caller: Seq<char>, found: Seq<Seq<char>>)
    ensures
        to_each(caller, scope_callees(env, kids, up, found)) == to_each(caller, found).add(
            own(env, kids, up, caller, true),
        ),
    decreases kids,
{
    if kids.len() > 0 {
        let s = kids.last();
        let before = scope_callees(env, kids.drop_last(), up, found);
        lemma_scope_callees(env, kids.drop_last(), up, caller, found);
        if !(owns_calls(env, s, up) || is_apart(s.kind)) {
            let here = callee_at(env, s, before);
            assert(to_each(caller, here) =~= to_each(caller, before).add(call_here(env, s, caller))) by {
                match field_text(env, s, "function"@) {
                    Some(callee) => {
                        assert(before.push(callee).drop_last() =~= before);
                    },
                    None => {},
                }
            }
            lemma_scope_callees(env, s.children, below(up, s.kind), caller, here);
        }
    }
    assert(to_each(caller, scope_callees(env, kids, up, found)) =~= to_each(caller, found).add(
        own(env, kids, up, caller, true),
    ));
}

proof fn lemma_scope_out(env: Env, root: Shape, out: Out)
    ensures
        recorded_calls(scope_out(env, root, out)) == recorded_calls(out).add(
            own(env, root.children, below(at_root(), root.kind), module_id(env), true),
        ),
{
    let up = below(at_root(), root.kind);
    let id = module_id(env);
    let callees = scope_callees(env, root.children, up, Seq::empty());
    lemma_scope_callees(env, root.children, up, id, Seq::empty());
    assert(to_each(id, Seq::empty()) =~= Multiset::empty());
    assert(to_each(id, callees) =~= own(env, root.children, up, id, true));
    if callees.len() > 0 {
        let name = stem(base_name(env.file));
        let here = out.node(
            env,
            name,
            "module"@,
            Some(1),
            Some(line(root.end_row)),
            None,
            crate::index::parser::Meta::empty(),
        );
        lemma_call_each(id, callees, here);
        assert(recorded_calls(here) == recorded_calls(out));
    }
    assert(recorded_calls(scope_out(env, root, out)) =~= recorded_calls(out).add(
        own(env, root.children, up, id, true),
    ));
}

proof fn lemma_methods(env: Env, kids: Seq<Shape>, owner: Seq<char>, out: Out)
    ensures
        recorded_calls(methods(env, kids, owner, out)) == recorded_calls(out),
    decreases kids.len(),
{
    if kids.len() > 0 {
        let before = methods(env, kids.drop_last(), owner, out);
        lemma_methods(env, kids.drop_last(), owner, out);
        lemma_kinds();
        let after = method(env, kids.last(), owner, before);
        if after.edges != before.edges {
            assert(after.edges == before.edges.push(after.edges.last()));
            lemma_gather_push(before.edges, after.edges.last(), call_of());
        }
    }
}

proof fn lemma_bindings(env: Env, decl: Shape, up: Above, kids: Seq<Shape>, out: Out)
    requires
        env.tier != IndexingTier::Fast,
        decl.kind == "lexical_declaration"@ || decl.kind == "variable_declaration"@,
    ensures
        recorded_calls(bindings(env, decl, up, kids, out)) == recorded_calls(out).add(
            bound(env, decl, kids, below(up, decl.kind)),
        ),
    decreases kids.len(),
{
    if kids.len() > 0 {
        let s = kids.last();
        let inner = below(up, decl.kind);
        let before = bindings(env, decl, up, kids.drop_last(), out);
        lemma_kinds();
        lemma_bindings(env, decl, up, kids.drop_last(), out);
        lemma_binding_at(env, decl, up, s, before);
    }
    assert(recorded_calls(bindings(env, decl, up, kids, out)) =~= recorded_calls(out).add(
        bound(env, decl, kids, below(up, decl.kind)),
    ));
}

proof fn lemma_binding_at(env: Env, decl: Shape, up: Above, s: Shape, out: Out)
    requires
        env.tier != IndexingTier::Fast,
        decl.kind == "lexical_declaration"@ || decl.kind == "variable_declaration"@,
    ensures
        recorded_calls(binding_at(env, decl, up, s, out)) == (if is_claimed(env, s, below(up, decl.kind)) {
            recorded_calls(out).add(owned(env, decl, s, below(up, decl.kind)))
        } else {
            recorded_calls(out)
        }),
{
    let inner = below(up, decl.kind);
    lemma_kinds();
    reveal_strlit("export_statement");
    reveal_strlit("program");
    assert(inner.first == Kin::Binding);
    if is_claimed(env, s, inner) {
        let value = child_in(s, "value"@)->0;
        let id = owner_id(env, decl, s, inner);
        let name = binding_name(env, s);
        let node_type = if value.kind == "arrow_function"@ {
            "function"@
        } else {
            "object"@
        };
        assert(binding_at(env, decl, up, s, out) == binding(env, decl, up, s, value, name, node_type, out));
        let start = out.node(
            env,
            name,
            node_type,
            Some(line(decl.start_row)),
            Some(line(value.end_row)),
            Some(crate::index::source::cut(env.text(decl), 2000)),
            crate::index::parser::with_flag(crate::index::parser::Meta::empty(), "exported"@, up.first == Kin::Export),
        );
        lemma_calls(env, s.children, below(inner, s.kind), id, start);
        assert(recorded_calls(start) == recorded_calls(out));
    }
}

/// What a node records itself: its own calls, where it is a function, and
/// those of its bindings.
proof fn lemma_made_at(env: Env, s: Shape, up: Above, out: Out)
    requires
        env.tier != IndexingTier::Fast,
    ensures
        recorded_calls(made_at(env, s, up, out)) == recorded_calls(out).add(
            (if is_function(env, s) {
                own(
                    env,
                    s.children,
                    below(up, s.kind),
                    env.id(function_name(env, s), "function"@, Some(line(s.start_row))),
                    false,
                )
            } else {
                Multiset::empty()
            }).add(bound(env, s, s.children, below(up, s.kind))),
        ),
{
    let inner = below(up, s.kind);
    lemma_kinds();
    if s.kind == "lexical_declaration"@ || s.kind == "variable_declaration"@ {
        lemma_bindings(env, s, up, s.children, out);
        reveal_strlit("variable_declaration");
        reveal_strlit("class_declaration");
        reveal_strlit("interface_declaration");
        reveal_strlit("type_alias_declaration");
        assert(made_at(env, s, up, out) == bindings(env, s, up, s.children, out));
    } else {
        assert(inner.first != Kin::Binding);
        lemma_none_bound(env, s, s.children, inner);
        if s.kind == "function_declaration"@ {
            let name = function_name(env, s);
            if name.len() > 0 {
                let id = env.id(name, "function"@, Some(line(s.start_row)));
                let here = out.node(
                    env,
                    name,
                    "function"@,
                    Some(line(s.start_row)),
                    Some(line(s.end_row)),
                    Some(crate::index::source::cut(env.text(s), 2000)),
                    crate::index::parser::with_flag(
                        crate::index::parser::with_flag(
                            crate::index::parser::Meta::empty(),
                            "async"@,
                            crate::text::has_part(env.text(s), "async "@),
                        ),
                        "exported"@,
                        crate::text::begins_with(env.text(s), "export "@),
                    ),
                );
                lemma_calls(env, s.children, inner, id, here);
                assert(recorded_calls(here) == recorded_calls(out));
            }
        } else if s.kind == "class_declaration"@ {
            let name = crate::index::extractors::typescript::title(env, s);
            if name.len() > 0 {
                let start = Some(line(s.start_row));
                let here = out.node(
                    env,
                    name,
                    "class"@,
                    start,
                    Some(line(s.end_row)),
                    None,
                    crate::index::parser::with_flag(
                        crate::index::parser::Meta::empty(),
                        "exported"@,
                        crate::text::begins_with(env.text(s), "export "@),
                    ),
                );
                lemma_methods(
                    env,
                    crate::index::extractors::kids_in(s, "body"@),
                    env.id(name, "class"@, start),
                    here,
                );
                assert(recorded_calls(here) == recorded_calls(out));
            }
        }
    }
    assert(recorded_calls(made_at(env, s, up, out)) =~= recorded_calls(out).add(
        (if is_function(env, s) {
            own(
                env,
                s.children,
                inner,
                env.id(function_name(env, s), "function"@, Some(line(s.start_row))),
                false,
            )
        } else {
            Multiset::empty()
        }).add(bound(env, s, s.children, inner)),
    ));
}

proof fn lemma_none_bound(env: Env, parent: Shape, kids: Seq<Shape>, up: Above)
    requires
        up.first != Kin::Binding,
    ensures
        bound(env, parent, kids, up) == Multiset::<(Seq<char>, Seq<char>)>::empty(),
    decreases kids.len(),
{
    if kids.len() > 0 {
        lemma_none_bound(env, parent, kids.drop_last(), up);
    }
}

/// What a node and everything below it record.
proof fn lemma_node(env: Env, s: Shape, up: Above, out: Out)
    requires
        env.tier != IndexingTier::Fast,
    ensures
        recorded_calls(node(env, s, up, out)) == recorded_calls(out).add(
            if is_function(env, s) {
                own(
                    env,
                    s.children,
                    below(up, s.kind),
                    env.id(function_name(env, s), "function"@, Some(line(s.start_row))),
                    false,
                )
            } else {
                Multiset::empty()
            },
        ).add(all_owned(env, s, s.children, below(up, s.kind))),
    decreases s, 1int,
{
    let inner = below(up, s.kind);
    let made = made_at(env, s, up, out);
    lemma_made_at(env, s, up, out);
    lemma_all_nodes(env, s, s.children, inner, made);
    let mine = if is_function(env, s) {
        own(env, s.children, inner, env.id(function_name(env, s), "function"@, Some(line(s.start_row))), false)
    } else {
        Multiset::empty()
    };
    let b = bound(env, s, s.children, inner);
    let all = recorded_calls(node(env, s, up, out));
    let rest = all_owned(env, s, s.children, inner);
    assert(all.add(b) == recorded_calls(made).add(rest));
    assert forall|x: (Seq<char>, Seq<char>)| #[trigger] all.count(x) == recorded_calls(out).add(mine).add(rest).count(x) by {
        assert(all.add(b).count(x) == recorded_calls(made).add(rest).count(x));
    }
    assert(all =~= recorded_calls(out).add(mine).add(rest));
}

proof fn lemma_all_nodes(env: Env, parent: Shape, kids: Seq<Shape>, up: Above, out: Out)
    requires
        env.tier != IndexingTier::Fast,
    ensures
        recorded_calls(all_nodes(env, kids, up, out)).add(bound(env, parent, kids, up)) == recorded_calls(out).add(
            all_owned(env, parent, kids, up),
        ),
    decreases kids, 0int,
{
    let all = recorded_calls(all_nodes(env, kids, up, out)).add(bound(env, parent, kids, up));
    if kids.len() > 0 {
        let s = kids.last();
        let before = all_nodes(env, kids.drop_last(), up, out);
        lemma_kinds();
        lemma_all_nodes(env, parent, kids.drop_last(), up, out);
        lemma_node(env, s, up, before);
        let a = recorded_calls(before).add(bound(env, parent, kids.drop_last(), up));
        let b = recorded_calls(out).add(all_owned(env, parent, kids.drop_last(), up));
        assert(a == b);
        assert forall|x: (Seq<char>, Seq<char>)| #[trigger]
            all.count(x) == recorded_calls(out).add(all_owned(env, parent, kids, up)).count(x) by {
            assert(a.count(x) == b.count(x));
        }
    }
    assert(all =~= recorded_calls(out).add(all_owned(env, parent, kids, up)));
}

} // verus!
