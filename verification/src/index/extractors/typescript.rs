//! The extractor for TypeScript and JavaScript: functions, classes, methods,
//! interfaces, type aliases, imports, exports, named value bindings, and
//! calls.
//!
//! A call belongs to the nearest enclosing definition, once. Each walk for
//! calls stops where the next one starts: a named function and a binding that
//! became a definition own the calls below them; what no definition owns
//! belongs to one node for the file's module scope. The methods of a class are
//! not walked: what they call stays with the function around the class, and
//! with nothing where there is none.

use vstd::prelude::*;
use crate::index::extractors::{
    call_at, child_by_field, child_in, either_name, either_text, extract_import, field_text, import_out, is_callee,
    kids_in, member_names, name_text, names, record_call, recorded,
};
use crate::index::parser::{
    line, line_of, with_flag, with_list, Env, ExtractionContext, Meta, Metadata, Out,
};
use crate::index::source::{cut, cut_text};
use crate::index::syntax::{lemma_shapes, shape, shapes, Shape, SyntaxNode};
use crate::index::tier::IndexingTier;
use crate::lookup::{lemma_take_next, put};
use crate::text::{
    begins_with, chars_of, contains_part, end_of_last, find_end_of_last, has_part, same_text, starts_with_text, stem,
    stem_of, text_between,
};

verus! {

// ---- ancestors ------------------------------------------------------------------------------

/// What matters of an ancestor's kind.
#[derive(Clone, Copy, Debug, PartialEq, Eq, Structural)]
pub enum Kin {
    Program,
    Export,
    Binding,
    Other,
    Nothing,
}

/// The three nearest ancestors of a node.
#[derive(Clone, Copy, Debug, PartialEq, Eq, Structural)]
pub struct Above {
    pub first: Kin,
    pub second: Kin,
    pub third: Kin,
}

pub open spec fn kin(kind: Seq<char>) -> Kin {
    if kind == "program"@ {
        Kin::Program
    } else if kind == "export_statement"@ {
        Kin::Export
    } else if kind == "lexical_declaration"@ || kind == "variable_declaration"@ {
        Kin::Binding
    } else {
        Kin::Other
    }
}

/// The ancestors of a root: it has none.
pub open spec fn at_root() -> Above {
    Above { first: Kin::Nothing, second: Kin::Nothing, third: Kin::Nothing }
}

/// The ancestors of a node's children.
pub open spec fn below(up: Above, kind: Seq<char>) -> Above {
    Above { first: kin(kind), second: up.first, third: up.second }
}

/// Is a declaration with these ancestors at module level? It stands right
/// under the program, or in an export right under the program.
pub open spec fn is_module_level(first: Kin, second: Kin) -> bool {
    first == Kin::Program || (first == Kin::Export && second == Kin::Program)
}

fn kin_of(kind: &str) -> (r: Kin)
    ensures
        r == kin(kind@),
{
    if same_text(kind, "program") {
        Kin::Program
    } else if same_text(kind, "export_statement") {
        Kin::Export
    } else if same_text(kind, "lexical_declaration") || same_text(kind, "variable_declaration") {
        Kin::Binding
    } else {
        Kin::Other
    }
}

fn step_down(up: Above, kind: &str) -> (r: Above)
    ensures
        r == below(up, kind@),
{
    Above { first: kin_of(kind), second: up.first, third: up.second }
}

fn module_level(first: Kin, second: Kin) -> (r: bool)
    ensures
        r == is_module_level(first, second),
{
    first == Kin::Program || (first == Kin::Export && second == Kin::Program)
}

// ---- calls ------------------------------------------------------------------------------------

/// What a function is called.
pub open spec fn function_name(env: Env, s: Shape) -> Seq<char> {
    either_text(env, s, "identifier"@, "property_identifier"@)
}

/// What a binding is called.
pub open spec fn binding_name(env: Env, s: Shape) -> Seq<char> {
    either_text(env, s, "identifier"@, "identifier"@)
}

/// Is a node a function that becomes a definition? It has a name.
pub open spec fn is_function(env: Env, s: Shape) -> bool {
    s.kind == "function_declaration"@ && function_name(env, s).len() > 0
}

/// Did a declarator become a definition of its own? It has a name, and its
/// value is an arrow function, or an object in a declaration at module level.
pub open spec fn is_claimed(env: Env, s: Shape, up: Above) -> bool {
    match child_in(s, "value"@) {
        Some(value) => s.kind == "variable_declarator"@ && up.first == Kin::Binding && binding_name(env, s).len() > 0 && (
        value.kind == "arrow_function"@ || (value.kind == "object"@ && is_module_level(up.second, up.third))),
        None => false,
    }
}

/// Does a node own the calls below it?
pub open spec fn owns_calls(env: Env, s: Shape, up: Above) -> bool {
    is_function(env, s) || is_claimed(env, s, up)
}

/// The calls that some nodes and everything below them make, up to what owns
/// its calls.
pub open spec fn calls(env: Env, kids: Seq<Shape>, up: Above, caller: Seq<char>, out: Out) -> Out
    decreases kids,
{
    if kids.len() == 0 {
        out
    } else {
        let before = calls(env, kids.drop_last(), up, caller, out);
        let s = kids.last();
        if owns_calls(env, s, up) {
            before
        } else {
            let here = call_at(env, s, caller, "call_expression"@, true, before);
            calls(env, s.children, below(up, s.kind), caller, here)
        }
    }
}

fn is_claimed_binding(ctx: &ExtractionContext, node: &SyntaxNode, up: Above) -> (r: bool)
    ensures
        r == is_claimed(ctx.env(), shape(*node), up),
{
    if !same_text(node.kind.as_str(), "variable_declarator") || up.first != Kin::Binding {
        return false;
    }
    match child_by_field(node, "value") {
        Some(value) => {
            let defines = same_text(value.kind.as_str(), "arrow_function") || (same_text(value.kind.as_str(), "object")
                && module_level(up.second, up.third));
            if defines {
                !name_text(ctx, node, "identifier").as_str().is_empty()
            } else {
                false
            }
        },
        None => false,
    }
}

fn owns_its_calls(ctx: &ExtractionContext, node: &SyntaxNode, up: Above) -> (r: bool)
    ensures
        r == owns_calls(ctx.env(), shape(*node), up),
{
    if same_text(node.kind.as_str(), "function_declaration") {
        let name = either_name(ctx, node, "identifier", "property_identifier");
        if !name.as_str().is_empty() {
            return true;
        }
    }
    is_claimed_binding(ctx, node, up)
}

fn walk_calls(ctx: &mut ExtractionContext, kids: &Vec<SyntaxNode>, up: Above, caller_id: &str)
    ensures
        final(ctx).env() == old(ctx).env(),
        final(ctx).out() == calls(old(ctx).env(), shapes(kids@), up, caller_id@, old(ctx).out()),
    decreases kids,
{
    let ghost env = ctx.env();
    let ghost start = ctx.out();
    let ghost all = shapes(kids@);
    let mut i: usize = 0;
    proof {
        lemma_shapes(kids@);
    }
    while i < kids.len()
        invariant
            i <= kids@.len(),
            all == shapes(kids@),
            all.len() == kids@.len(),
            forall|k: int| 0 <= k < all.len() ==> #[trigger] all[k] == shape(kids@[k]),
            ctx.env() == env,
            ctx.out() == calls(env, all.take(i as int), up, caller_id@, start),
        decreases kids.len() - i,
    {
        let node = &kids[i];
        proof {
            lemma_take_next(all, i as int);
            assert(all[i as int] == shape(*node));
        }
        if !owns_its_calls(ctx, node, up) {
            record_call(ctx, node, caller_id, "call_expression", true);
            walk_calls(ctx, &node.children, step_down(up, node.kind.as_str()), caller_id);
        }
        i = i + 1;
    }
    assert(all.take(i as int) =~= all);
}

// ---- module scope -------------------------------------------------------------------------------

/// Can a node hold no call of the module's own scope, other than in a
/// definition?
pub open spec fn is_apart(kind: Seq<char>) -> bool {
    kind == "class_declaration"@ || kind == "interface_declaration"@ || kind == "type_alias_declaration"@ || kind
        == "import_statement"@
}

/// The callee of one node, behind those found before.
pub open spec fn callee_at(env: Env, s: Shape, found: Seq<Seq<char>>) -> Seq<Seq<char>> {
    match field_text(env, s, "function"@) {
        Some(callee) => if s.kind == "call_expression"@ && is_callee(callee, true) {
            found.push(callee)
        } else {
            found
        },
        None => found,
    }
}

/// What some nodes and everything below them call in the module's own scope.
pub open spec fn scope_callees(env: Env, kids: Seq<Shape>, up: Above, found: Seq<Seq<char>>) -> Seq<Seq<char>>
    decreases kids,
{
    if kids.len() == 0 {
        found
    } else {
        let before = scope_callees(env, kids.drop_last(), up, found);
        let s = kids.last();
        if owns_calls(env, s, up) || is_apart(s.kind) {
            before
        } else {
            scope_callees(env, s.children, below(up, s.kind), callee_at(env, s, before))
        }
    }
}

/// The last part of a path, behind its last slash or backslash.
pub open spec fn base_name(path: Seq<char>) -> Seq<char> {
    let slash = end_of_last(path, '/');
    let back = end_of_last(path, '\\');
    path.skip(
        (if slash >= back {
            slash
        } else {
            back
        }) as int,
    )
}

/// Calls to each of some callees.
pub open spec fn call_each(id: Seq<char>, callees: Seq<Seq<char>>, out: Out) -> Out
    decreases callees.len(),
{
    if callees.len() == 0 {
        out
    } else {
        call_each(id, callees.drop_last(), out).call(id, callees.last())
    }
}

/// The node of the module's own scope with its calls, where it makes any.
pub open spec fn scope_out(env: Env, root: Shape, out: Out) -> Out {
    let callees = scope_callees(env, root.children, below(at_root(), root.kind), Seq::empty());
    if callees.len() == 0 {
        out
    } else {
        let name = stem(base_name(env.file));
        call_each(
            env.id(name, "module"@, Some(1)),
            callees,
            out.node(env, name, "module"@, Some(1), Some(line(root.end_row)), None, Meta::empty()),
        )
    }
}

fn owns_its_own_scope(ctx: &ExtractionContext, node: &SyntaxNode, up: Above) -> (r: bool)
    ensures
        r == (owns_calls(ctx.env(), shape(*node), up) || is_apart(shape(*node).kind)),
{
    let kind = node.kind.as_str();
    same_text(kind, "class_declaration") || same_text(kind, "interface_declaration") || same_text(
        kind,
        "type_alias_declaration",
    ) || same_text(kind, "import_statement") || owns_its_calls(ctx, node, up)
}

fn collect_callee(ctx: &ExtractionContext, node: &SyntaxNode, found: &mut Vec<String>)
    ensures
        final(found).deep_view() == callee_at(ctx.env(), shape(*node), old(found).deep_view()),
{
    if !same_text(node.kind.as_str(), "call_expression") {
        return;
    }
    match child_by_field(node, "function") {
        Some(func) => {
            let callee = ctx.node_text(func);
            if recorded(callee, true) {
                put(found, callee.to_owned());
            }
        },
        None => {},
    }
}

fn collect_module_scope_calls(ctx: &ExtractionContext, kids: &Vec<SyntaxNode>, up: Above, found: &mut Vec<String>)
    ensures
        final(found).deep_view() == scope_callees(ctx.env(), shapes(kids@), up, old(found).deep_view()),
    decreases kids,
{
    let ghost env = ctx.env();
    let ghost start = found.deep_view();
    let ghost all = shapes(kids@);
    let mut i: usize = 0;
    proof {
        lemma_shapes(kids@);
    }
    while i < kids.len()
        invariant
            i <= kids@.len(),
            env == ctx.env(),
            all == shapes(kids@),
            all.len() == kids@.len(),
            forall|k: int| 0 <= k < all.len() ==> #[trigger] all[k] == shape(kids@[k]),
            found.deep_view() == scope_callees(env, all.take(i as int), up, start),
        decreases kids.len() - i,
    {
        let node = &kids[i];
        proof {
            lemma_take_next(all, i as int);
            assert(all[i as int] == shape(*node));
        }
        if !owns_its_own_scope(ctx, node, up) {
            collect_callee(ctx, node, found);
            collect_module_scope_calls(ctx, &node.children, step_down(up, node.kind.as_str()), found);
        }
        i = i + 1;
    }
    assert(all.take(i as int) =~= all);
}

/// The name of a file's module scope: its base name without its extension.
pub fn module_scope_name(file_path: &str) -> (r: String)
    ensures
        r@ == stem(base_name(file_path@)),
{
    let v = chars_of(file_path);
    let slash = find_end_of_last(&v, '/');
    let back = find_end_of_last(&v, '\\');
    let from: usize = if slash >= back {
        slash
    } else {
        back
    };
    let base = text_between(&v, from, v.len());
    assert(base@ =~= file_path@.skip(from as int));
    stem_of(base.as_str())
}

fn extract_module_scope_calls(ctx: &mut ExtractionContext, root: &SyntaxNode)
    ensures
        final(ctx).env() == old(ctx).env(),
        final(ctx).out() == scope_out(old(ctx).env(), shape(*root), old(ctx).out()),
{
    let mut callees: Vec<String> = Vec::new();
    assert(callees.deep_view() =~= Seq::<Seq<char>>::empty());
    let top = Above { first: Kin::Nothing, second: Kin::Nothing, third: Kin::Nothing };
    collect_module_scope_calls(ctx, &root.children, step_down(top, root.kind.as_str()), &mut callees);
    assert(callees.deep_view().len() == callees@.len());
    if callees.len() == 0 {
        return;
    }
    let name = module_scope_name(ctx.file_path.as_str());
    let id = ctx.add_node(
        name.as_str(),
        "module",
        Some(1),
        Some(line_of(root.end_row)),
        None,
        Metadata::new(),
    );
    let ghost env = ctx.env();
    let ghost start = ctx.out();
    let ghost all = callees.deep_view();
    let mut i: usize = 0;
    while i < callees.len()
        invariant
            i <= callees@.len(),
            all == callees.deep_view(),
            ctx.env() == env,
            ctx.out() == call_each(id@, all.take(i as int), start),
        decreases callees.len() - i,
    {
        proof {
            assert(all.len() == callees@.len());
            lemma_take_next(all, i as int);
            assert(all[i as int] == callees@[i as int]@);
        }
        ctx.add_call(id.as_str(), callees[i].as_str());
        i = i + 1;
    }
    assert(all.take(i as int) =~= all);
}

// ---- definitions ----------------------------------------------------------------------------------

pub open spec fn function(env: Env, s: Shape, up: Above, out: Out) -> Out {
    let name = function_name(env, s);
    if name.len() == 0 {
        out
    } else {
        let t = env.text(s);
        let m = with_flag(Meta::empty(), "async"@, has_part(t, "async "@));
        let m = with_flag(m, "exported"@, begins_with(t, "export "@));
        let start = Some(line(s.start_row));
        let here = out.node(
            env,
            name,
            "function"@,
            start,
            Some(line(s.end_row)),
            Some(cut(t, 2000)),
            m,
        );
        if env.tier == IndexingTier::Fast {
            here
        } else {
            calls(env, s.children, below(up, s.kind), env.id(name, "function"@, start), here)
        }
    }
}

/// What a class, an interface or a type alias is called.
pub open spec fn title(env: Env, s: Shape) -> Seq<char> {
    either_text(env, s, "type_identifier"@, "identifier"@)
}

pub open spec fn method(env: Env, s: Shape, owner: Seq<char>, out: Out) -> Out {
    let name = either_text(env, s, "property_identifier"@, "identifier"@);
    if name.len() == 0 {
        out
    } else {
        let start = Some(line(s.start_row));
        out.node(
            env,
            name,
            "function"@,
            start,
            Some(line(s.end_row)),
            Some(cut(env.text(s), 2000)),
            Meta::empty(),
        ).edge(owner, env.id(name, "function"@, start), "contains"@, "EXTRACTED"@)
    }
}

/// The methods and fields among some nodes, each contained by an owner.
pub open spec fn methods(env: Env, kids: Seq<Shape>, owner: Seq<char>, out: Out) -> Out
    decreases kids.len(),
{
    if kids.len() == 0 {
        out
    } else {
        let before = methods(env, kids.drop_last(), owner, out);
        if kids.last().kind == "method_definition"@ || kids.last().kind == "public_field_definition"@ {
            method(env, kids.last(), owner, before)
        } else {
            before
        }
    }
}

pub open spec fn class_out(env: Env, s: Shape, out: Out) -> Out {
    let name = title(env, s);
    if name.len() == 0 {
        out
    } else {
        let start = Some(line(s.start_row));
        methods(
            env,
            kids_in(s, "body"@),
            env.id(name, "class"@, start),
            out.node(
                env,
                name,
                "class"@,
                start,
                Some(line(s.end_row)),
                None,
                with_flag(Meta::empty(), "exported"@, begins_with(env.text(s), "export "@)),
            ),
        )
    }
}

pub open spec fn interface_out(env: Env, s: Shape, out: Out) -> Out {
    let name = title(env, s);
    if name.len() == 0 {
        out
    } else {
        out.node(
            env,
            name,
            "interface"@,
            Some(line(s.start_row)),
            Some(line(s.end_row)),
            None,
            with_list(
                Meta::empty(),
                "properties"@,
                names(
                    env,
                    kids_in(s, "body"@),
                    "property_signature"@,
                    "method_signature"@,
                    "property_identifier"@,
                ),
            ),
        )
    }
}

pub open spec fn alias_out(env: Env, s: Shape, out: Out) -> Out {
    let name = title(env, s);
    if name.len() == 0 {
        out
    } else {
        out.node(
            env,
            name,
            "type_alias"@,
            Some(line(s.start_row)),
            None,
            Some(cut(env.text(s), 500)),
            Meta::empty(),
        )
    }
}

fn extract_function(ctx: &mut ExtractionContext, node: &SyntaxNode, up: Above)
    ensures
        final(ctx).env() == old(ctx).env(),
        final(ctx).out() == function(old(ctx).env(), shape(*node), up, old(ctx).out()),
{
    let name = either_name(ctx, node, "identifier", "property_identifier");
    if name.as_str().is_empty() {
        return;
    }
    let t = ctx.node_text(node);
    let mut meta = Metadata::new();
    meta.note_flag("async", contains_part(t, "async "));
    meta.note_flag("exported", starts_with_text(t, "export "));
    let content = Some(cut_text(t, 2000));
    let id = ctx.add_node(
        name.as_str(),
        "function",
        Some(line_of(node.start_row)),
        Some(line_of(node.end_row)),
        content,
        meta,
    );
    if ctx.tier != IndexingTier::Fast {
        walk_calls(ctx, &node.children, step_down(up, node.kind.as_str()), id.as_str());
    }
}

fn extract_method(ctx: &mut ExtractionContext, node: &SyntaxNode, owner: &str)
    ensures
        final(ctx).env() == old(ctx).env(),
        final(ctx).out() == method(old(ctx).env(), shape(*node), owner@, old(ctx).out()),
{
    let name = either_name(ctx, node, "property_identifier", "identifier");
    if name.as_str().is_empty() {
        return;
    }
    let content = Some(cut_text(ctx.node_text(node), 2000));
    let id = ctx.add_node(
        name.as_str(),
        "function",
        Some(line_of(node.start_row)),
        Some(line_of(node.end_row)),
        content,
        Metadata::new(),
    );
    ctx.add_edge(owner, id.as_str(), "contains", "EXTRACTED");
}

fn walk_methods(ctx: &mut ExtractionContext, kids: &Vec<SyntaxNode>, owner: &str)
    ensures
        final(ctx).env() == old(ctx).env(),
        final(ctx).out() == methods(old(ctx).env(), shapes(kids@), owner@, old(ctx).out()),
{
    let ghost env = ctx.env();
    let ghost start = ctx.out();
    let ghost all = shapes(kids@);
    let mut i: usize = 0;
    proof {
        lemma_shapes(kids@);
    }
    while i < kids.len()
        invariant
            i <= kids@.len(),
            all == shapes(kids@),
            all.len() == kids@.len(),
            forall|k: int| 0 <= k < all.len() ==> #[trigger] all[k] == shape(kids@[k]),
            ctx.env() == env,
            ctx.out() == methods(env, all.take(i as int), owner@, start),
        decreases kids.len() - i,
    {
        proof {
            lemma_take_next(all, i as int);
            assert(all[i as int] == shape(kids@[i as int]));
        }
        if same_text(kids[i].kind.as_str(), "method_definition") || same_text(
            kids[i].kind.as_str(),
            "public_field_definition",
        ) {
            extract_method(ctx, &kids[i], owner);
        }
        i = i + 1;
    }
    assert(all.take(i as int) =~= all);
}

fn extract_class(ctx: &mut ExtractionContext, node: &SyntaxNode)
    ensures
        final(ctx).env() == old(ctx).env(),
        final(ctx).out() == class_out(old(ctx).env(), shape(*node), old(ctx).out()),
{
    let name = either_name(ctx, node, "type_identifier", "identifier");
    if name.as_str().is_empty() {
        return;
    }
    let mut meta = Metadata::new();
    meta.note_flag("exported", starts_with_text(ctx.node_text(node), "export "));
    let id = ctx.add_node(
        name.as_str(),
        "class",
        Some(line_of(node.start_row)),
        Some(line_of(node.end_row)),
        None,
        meta,
    );
    match child_by_field(node, "body") {
        Some(body) => walk_methods(ctx, &body.children, id.as_str()),
        None => {},
    }
}

fn extract_interface(ctx: &mut ExtractionContext, node: &SyntaxNode)
    ensures
        final(ctx).env() == old(ctx).env(),
        final(ctx).out() == interface_out(old(ctx).env(), shape(*node), old(ctx).out()),
{
    let name = either_name(ctx, node, "type_identifier", "identifier");
    if name.as_str().is_empty() {
        return;
    }
    let mut meta = Metadata::new();
    meta.note_list(
        "properties",
        member_names(ctx, node, "body", "property_signature", "method_signature", "property_identifier"),
    );
    ctx.add_node(
        name.as_str(),
        "interface",
        Some(line_of(node.start_row)),
        Some(line_of(node.end_row)),
        None,
        meta,
    );
}

fn extract_type_alias(ctx: &mut ExtractionContext, node: &SyntaxNode)
    ensures
        final(ctx).env() == old(ctx).env(),
        final(ctx).out() == alias_out(old(ctx).env(), shape(*node), old(ctx).out()),
{
    let name = either_name(ctx, node, "type_identifier", "identifier");
    if name.as_str().is_empty() {
        return;
    }
    let content = Some(cut_text(ctx.node_text(node), 500));
    ctx.add_node(
        name.as_str(),
        "type_alias",
        Some(line_of(node.start_row)),
        None,
        content,
        Metadata::new(),
    );
}

// ---- bindings -----------------------------------------------------------------------------------

/// The definition that one binding makes of its value, with its calls.
pub open spec fn binding(
    env: Env,
    decl: Shape,
    up: Above,
    s: Shape,
    value: Shape,
    name: Seq<char>,
    node_type: Seq<char>,
    out: Out,
) -> Out {
    let start = Some(line(decl.start_row));
    let here = out.node(
        env,
        name,
        node_type,
        start,
        Some(line(value.end_row)),
        Some(cut(env.text(decl), 2000)),
        with_flag(Meta::empty(), "exported"@, up.first == Kin::Export),
    );
    if env.tier == IndexingTier::Fast {
        here
    } else {
        calls(
            env,
            s.children,
            below(below(up, decl.kind), s.kind),
            env.id(name, node_type, start),
            here,
        )
    }
}

/// What one declarator of a declaration defines: an arrow function anywhere,
/// an object at module level.
pub open spec fn binding_at(env: Env, decl: Shape, up: Above, s: Shape, out: Out) -> Out {
    let name = binding_name(env, s);
    match child_in(s, "value"@) {
        Some(value) => if s.kind != "variable_declarator"@ || name.len() == 0 {
            out
        } else if value.kind == "arrow_function"@ {
            binding(env, decl, up, s, value, name, "function"@, out)
        } else if value.kind == "object"@ && is_module_level(up.first, up.second) {
            binding(env, decl, up, s, value, name, "object"@, out)
        } else {
            out
        },
        None => out,
    }
}

/// What the declarators among some children of a declaration define.
pub open spec fn bindings(env: Env, decl: Shape, up: Above, kids: Seq<Shape>, out: Out) -> Out
    decreases kids.len(),
{
    if kids.len() == 0 {
        out
    } else {
        binding_at(env, decl, up, kids.last(), bindings(env, decl, up, kids.drop_last(), out))
    }
}

fn bind_value(
    ctx: &mut ExtractionContext,
    decl: &SyntaxNode,
    up: Above,
    node: &SyntaxNode,
    value: &SyntaxNode,
    name: &str,
    node_type: &str,
)
    ensures
        final(ctx).env() == old(ctx).env(),
        final(ctx).out() == binding(
            old(ctx).env(),
            shape(*decl),
            up,
            shape(*node),
            shape(*value),
            name@,
            node_type@,
            old(ctx).out(),
        ),
{
    let mut meta = Metadata::new();
    meta.note_flag("exported", up.first == Kin::Export);
    let content = Some(cut_text(ctx.node_text(decl), 2000));
    let id = ctx.add_node(
        name,
        node_type,
        Some(line_of(decl.start_row)),
        Some(line_of(value.end_row)),
        content,
        meta,
    );
    if ctx.tier != IndexingTier::Fast {
        let inner = step_down(step_down(up, decl.kind.as_str()), node.kind.as_str());
        walk_calls(ctx, &node.children, inner, id.as_str());
    }
}

fn extract_binding(ctx: &mut ExtractionContext, decl: &SyntaxNode, up: Above, node: &SyntaxNode)
    ensures
        final(ctx).env() == old(ctx).env(),
        final(ctx).out() == binding_at(
            old(ctx).env(),
            shape(*decl),
            up,
            shape(*node),
            old(ctx).out(),
        ),
{
    if !same_text(node.kind.as_str(), "variable_declarator") {
        return;
    }
    let name = name_text(ctx, node, "identifier");
    if name.as_str().is_empty() {
        return;
    }
    match child_by_field(node, "value") {
        Some(value) => {
            if same_text(value.kind.as_str(), "arrow_function") {
                bind_value(ctx, decl, up, node, value, name.as_str(), "function");
            } else if same_text(value.kind.as_str(), "object") && module_level(up.first, up.second) {
                bind_value(ctx, decl, up, node, value, name.as_str(), "object");
            }
        },
        None => {},
    }
}

fn extract_value_bindings(ctx: &mut ExtractionContext, decl: &SyntaxNode, up: Above)
    ensures
        final(ctx).env() == old(ctx).env(),
        final(ctx).out() == bindings(
            old(ctx).env(),
            shape(*decl),
            up,
            shape(*decl).children,
            old(ctx).out(),
        ),
{
    let ghost env = ctx.env();
    let ghost start = ctx.out();
    let ghost all = shapes(decl.children@);
    let mut i: usize = 0;
    proof {
        lemma_shapes(decl.children@);
    }
    while i < decl.children.len()
        invariant
            i <= decl.children@.len(),
            all == shapes(decl.children@),
            all.len() == decl.children@.len(),
            forall|k: int| 0 <= k < all.len() ==> #[trigger] all[k] == shape(decl.children@[k]),
            ctx.env() == env,
            ctx.out() == bindings(env, shape(*decl), up, all.take(i as int), start),
        decreases decl.children.len() - i,
    {
        proof {
            lemma_take_next(all, i as int);
            assert(all[i as int] == shape(decl.children@[i as int]));
        }
        extract_binding(ctx, decl, up, &decl.children[i]);
        i = i + 1;
    }
    assert(all.take(i as int) =~= all);
}

// ---- the tree -----------------------------------------------------------------------------------

/// What a declaration defines.
pub open spec fn definition(env: Env, s: Shape, up: Above, out: Out) -> Out {
    if s.kind == "function_declaration"@ {
        function(env, s, up, out)
    } else if s.kind == "class_declaration"@ {
        class_out(env, s, out)
    } else if s.kind == "interface_declaration"@ {
        interface_out(env, s, out)
    } else if s.kind == "type_alias_declaration"@ {
        alias_out(env, s, out)
    } else if s.kind == "lexical_declaration"@ || s.kind == "variable_declaration"@ {
        bindings(env, s, up, s.children, out)
    } else {
        out
    }
}

/// What an export makes itself: an import where it exports from elsewhere.
/// What it declares is made by the declaration.
pub open spec fn export_out(env: Env, s: Shape, out: Out) -> Out {
    if has_part(env.text(s), " from "@) {
        import_out(env, s, out)
    } else {
        out
    }
}

/// What a node makes itself.
pub open spec fn made_at(env: Env, s: Shape, up: Above, out: Out) -> Out {
    if s.kind == "export_statement"@ {
        export_out(env, s, out)
    } else if s.kind == "import_statement"@ {
        import_out(env, s, out)
    } else {
        definition(env, s, up, out)
    }
}

/// What a node makes, before everything below it.
pub open spec fn node(env: Env, s: Shape, up: Above, out: Out) -> Out
    decreases s, 1int,
{
    all_nodes(env, s.children, below(up, s.kind), made_at(env, s, up, out))
}

pub open spec fn all_nodes(env: Env, kids: Seq<Shape>, up: Above, out: Out) -> Out
    decreases kids, 0int,
{
    if kids.len() == 0 {
        out
    } else {
        node(env, kids.last(), up, all_nodes(env, kids.drop_last(), up, out))
    }
}

/// What a file makes: its definitions, then the calls of its module scope.
pub open spec fn file(env: Env, root: Shape, out: Out) -> Out {
    let made = node(env, root, at_root(), out);
    if env.tier == IndexingTier::Fast {
        made
    } else {
        scope_out(env, root, made)
    }
}

fn define(ctx: &mut ExtractionContext, node: &SyntaxNode, up: Above)
    ensures
        final(ctx).env() == old(ctx).env(),
        final(ctx).out() == definition(old(ctx).env(), shape(*node), up, old(ctx).out()),
{
    let kind = node.kind.as_str();
    if same_text(kind, "function_declaration") {
        extract_function(ctx, node, up);
    } else if same_text(kind, "class_declaration") {
        extract_class(ctx, node);
    } else if same_text(kind, "interface_declaration") {
        extract_interface(ctx, node);
    } else if same_text(kind, "type_alias_declaration") {
        extract_type_alias(ctx, node);
    } else if same_text(kind, "lexical_declaration") || same_text(kind, "variable_declaration") {
        extract_value_bindings(ctx, node, up);
    }
}

fn extract_export(ctx: &mut ExtractionContext, node: &SyntaxNode)
    ensures
        final(ctx).env() == old(ctx).env(),
        final(ctx).out() == export_out(old(ctx).env(), shape(*node), old(ctx).out()),
{
    if contains_part(ctx.node_text(node), " from ") {
        extract_import(ctx, node);
    }
}

fn walk(ctx: &mut ExtractionContext, node: &SyntaxNode, up: Above)
    ensures
        final(ctx).env() == old(ctx).env(),
        final(ctx).out() == self::node(old(ctx).env(), shape(*node), up, old(ctx).out()),
    decreases node,
{
    let ghost env = ctx.env();
    let kind = node.kind.as_str();
    if same_text(kind, "export_statement") {
        extract_export(ctx, node);
    } else if same_text(kind, "import_statement") {
        extract_import(ctx, node);
    } else {
        define(ctx, node, up);
    }
    let inner = step_down(up, kind);
    let ghost here = ctx.out();
    let ghost all = shapes(node.children@);
    let mut i: usize = 0;
    proof {
        lemma_shapes(node.children@);
    }
    while i < node.children.len()
        invariant
            i <= node.children@.len(),
            all == shapes(node.children@),
            all.len() == node.children@.len(),
            forall|k: int| 0 <= k < all.len() ==> #[trigger] all[k] == shape(node.children@[k]),
            ctx.env() == env,
            ctx.out() == all_nodes(env, all.take(i as int), inner, here),
        decreases node.children.len() - i,
    {
        proof {
            lemma_take_next(all, i as int);
            assert(all[i as int] == shape(node.children@[i as int]));
        }
        walk(ctx, &node.children[i], inner);
        i = i + 1;
    }
    assert(all.take(i as int) =~= all);
}

/// Extracts a parsed TypeScript or JavaScript file.
pub fn extract(ctx: &mut ExtractionContext, root: &SyntaxNode)
    ensures
        final(ctx).env() == old(ctx).env(),
        final(ctx).out() == file(old(ctx).env(), shape(*root), old(ctx).out()),
{
    let top = Above { first: Kin::Nothing, second: Kin::Nothing, third: Kin::Nothing };
    walk(ctx, root, top);
    if ctx.tier != IndexingTier::Fast {
        extract_module_scope_calls(ctx, root);
    }
}

} // verus!
