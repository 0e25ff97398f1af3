//! Places in syntax trees, and what the calls below a place leave behind.

use vstd::prelude::*;

use crate::index::extractors::{call_at, calls, child_in, either_text, field_place, field_text, kids_in, kind_place, kind_text};
use crate::index::parser::{line, CodeEdgeView, CodeView, Env, Meta, Out};
use crate::index::source::{byte_len, cut};
use crate::index::syntax::Shape;

verus! {

// ---- places ---------------------------------------------------------------------------------

/// The numbers lead from child to child, starting at `s`.
pub open spec fn is_path(s: Shape, path: Seq<int>) -> bool
    decreases path.len(),
{
    path.len() == 0 || (0 <= path[0] < s.children.len() && is_path(s.children[path[0]], path.skip(1)))
}

/// The node that a path leads to.
pub open spec fn at_path(s: Shape, path: Seq<int>) -> Shape
    decreases path.len(),
{
    if path.len() == 0 {
        s
    } else {
        at_path(s.children[path[0]], path.skip(1))
    }
}

/// The first child of a kind.
pub open spec fn is_first_of(s: Shape, kind: Seq<char>, k: int) -> bool {
    &&& 0 <= k < s.children.len()
    &&& s.children[k].kind == kind
    &&& forall|j: int| 0 <= j < k ==> (#[trigger] s.children[j]).kind != kind
}

/// The first child in a field.
pub open spec fn is_first_in(s: Shape, field: Seq<char>, k: int) -> bool {
    &&& 0 <= k < s.children.len()
    &&& s.children[k].field == Some(field)
    &&& forall|j: int| 0 <= j < k ==> (#[trigger] s.children[j]).field != Some(field)
}

/// The text of the first child of a kind is `t`.
pub open spec fn is_kind_text(env: Env, s: Shape, kind: Seq<char>, t: Seq<char>) -> bool {
    exists|k: int| #[trigger] is_first_of(s, kind, k) && t == env.text(s.children[k])
}

/// The text of the first child in a field is `t`.
pub open spec fn is_field_text(env: Env, s: Shape, field: Seq<char>, t: Seq<char>) -> bool {
    exists|k: int| #[trigger] is_first_in(s, field, k) && t == env.text(s.children[k])
}

proof fn lemma_kind_place_at(kids: Seq<Shape>, kind: Seq<char>, k: int)
    requires
        0 <= k < kids.len(),
        kids[k].kind == kind,
        forall|j: int| 0 <= j < k ==> (#[trigger] kids[j]).kind != kind,
    ensures
        kind_place(kids, kind) == k,
    decreases k,
{
    if k > 0 {
        assert(kids[0].kind != kind);
        let rest = kids.skip(1);
        assert forall|j: int| 0 <= j < k - 1 implies (#[trigger] rest[j]).kind != kind by {
            assert(kids[j + 1].kind != kind);
        }
        lemma_kind_place_at(rest, kind, k - 1);
    }
}

proof fn lemma_field_place_at(kids: Seq<Shape>, field: Seq<char>, k: int)
    requires
        0 <= k < kids.len(),
        kids[k].field == Some(field),
        forall|j: int| 0 <= j < k ==> (#[trigger] kids[j]).field != Some(field),
    ensures
        field_place(kids, field) == k,
    decreases k,
{
    if k > 0 {
        assert(kids[0].field != Some(field));
        let rest = kids.skip(1);
        assert forall|j: int| 0 <= j < k - 1 implies (#[trigger] rest[j]).field != Some(field) by {
            assert(kids[j + 1].field != Some(field));
        }
        lemma_field_place_at(rest, field, k - 1);
    }
}

proof fn lemma_no_kind_place(kids: Seq<Shape>, kind: Seq<char>)
    requires
        forall|j: int| 0 <= j < kids.len() ==> (#[trigger] kids[j]).kind != kind,
    ensures
        kind_place(kids, kind) == kids.len(),
    decreases kids.len(),
{
    if kids.len() > 0 {
        assert(kids[0].kind != kind);
        let rest = kids.skip(1);
        assert forall|j: int| 0 <= j < rest.len() implies (#[trigger] rest[j]).kind != kind by {
            assert(kids[j + 1].kind != kind);
        }
        lemma_no_kind_place(rest, kind);
    }
}

/// The first child of a kind is found.
pub proof fn lemma_first_of(s: Shape, kind: Seq<char>, k: int)
    requires
        is_first_of(s, kind, k),
    ensures
        kind_place(s.children, kind) == k,
{
    lemma_kind_place_at(s.children, kind, k);
}

/// The first child in a field is found.
pub proof fn lemma_first_in(s: Shape, field: Seq<char>, k: int)
    requires
        is_first_in(s, field, k),
    ensures
        field_place(s.children, field) == k,
        child_in(s, field) == Some(s.children[k]),
{
    lemma_field_place_at(s.children, field, k);
}

pub proof fn lemma_kind_text(env: Env, s: Shape, kind: Seq<char>, t: Seq<char>)
    requires
        is_kind_text(env, s, kind, t),
    ensures
        kind_text(env, s, kind) == Some(t),
        forall|other: Seq<char>| #[trigger] either_text(env, s, kind, other) == t,
{
    let k = choose|k: int| #[trigger] is_first_of(s, kind, k) && t == env.text(s.children[k]);
    lemma_first_of(s, kind, k);
}

/// No child is in the field.
pub proof fn lemma_no_field(s: Shape, field: Seq<char>)
    requires
        forall|j: int| 0 <= j < s.children.len() ==> (#[trigger] s.children[j]).field != Some(field),
    ensures
        child_in(s, field) is None,
        field_place(s.children, field) == s.children.len(),
{
    lemma_no_field_place(s.children, field);
}

proof fn lemma_no_field_place(kids: Seq<Shape>, field: Seq<char>)
    requires
        forall|j: int| 0 <= j < kids.len() ==> (#[trigger] kids[j]).field != Some(field),
    ensures
        field_place(kids, field) == kids.len(),
    decreases kids.len(),
{
    if kids.len() > 0 {
        assert(kids[0].field != Some(field));
        let rest = kids.skip(1);
        assert forall|j: int| 0 <= j < rest.len() implies (#[trigger] rest[j]).field != Some(field) by {
            assert(kids[j + 1].field != Some(field));
        }
        lemma_no_field_place(rest, field);
    }
}

/// No child is of the kind.
pub open spec fn has_none_of(s: Shape, kind: Seq<char>) -> bool {
    forall|j: int| 0 <= j < s.children.len() ==> (#[trigger] s.children[j]).kind != kind
}

pub proof fn lemma_other_text(env: Env, s: Shape, kind: Seq<char>, other: Seq<char>, t: Seq<char>)
    requires
        has_none_of(s, kind),
        is_kind_text(env, s, other, t),
    ensures
        either_text(env, s, kind, other) == t,
{
    lemma_no_kind_place(s.children, kind);
    lemma_kind_text(env, s, other, t);
}

pub proof fn lemma_field_text(env: Env, s: Shape, field: Seq<char>, t: Seq<char>)
    requires
        is_field_text(env, s, field, t),
    ensures
        field_text(env, s, field) == Some(t),
{
    let k = choose|k: int| #[trigger] is_first_in(s, field, k) && t == env.text(s.children[k]);
    lemma_first_in(s, field, k);
}

// ---- growth ---------------------------------------------------------------------------------

/// What was collected stays.
pub open spec fn grows(a: Out, b: Out) -> bool {
    &&& a.nodes.len() <= b.nodes.len()
    &&& a.edges.len() <= b.edges.len()
    &&& forall|i: int| 0 <= i < a.nodes.len() ==> b.nodes[i] == #[trigger] a.nodes[i]
    &&& forall|i: int| 0 <= i < a.edges.len() ==> b.edges[i] == #[trigger] a.edges[i]
}

pub proof fn lemma_grows(a: Out, b: Out, c: Out)
    requires
        grows(a, b),
        grows(b, c),
    ensures
        grows(a, c),
{
    assert forall|i: int| 0 <= i < a.nodes.len() implies c.nodes[i] == #[trigger] a.nodes[i] by {
        assert(b.nodes[i] == a.nodes[i]);
    }
    assert forall|i: int| 0 <= i < a.edges.len() implies c.edges[i] == #[trigger] a.edges[i] by {
        assert(b.edges[i] == a.edges[i]);
    }
}

pub proof fn lemma_keeps(a: Out, b: Out)
    requires
        grows(a, b),
    ensures
        forall|n: CodeView| #[trigger] a.nodes.contains(n) ==> b.nodes.contains(n),
        forall|e: CodeEdgeView| #[trigger] a.edges.contains(e) ==> b.edges.contains(e),
{
    assert forall|n: CodeView| #[trigger] a.nodes.contains(n) implies b.nodes.contains(n) by {
        let i = choose|i: int| 0 <= i < a.nodes.len() && a.nodes[i] == n;
        assert(b.nodes[i] == n);
    }
    assert forall|e: CodeEdgeView| #[trigger] a.edges.contains(e) implies b.edges.contains(e) by {
        let i = choose|i: int| 0 <= i < a.edges.len() && a.edges[i] == e;
        assert(b.edges[i] == e);
    }
}

pub proof fn lemma_calls_grow(env: Env, kids: Seq<Shape>, caller: Seq<char>, kind: Seq<char>, short: bool, out: Out)
    ensures
        grows(out, calls(env, kids, caller, kind, short, out)),
        calls(env, kids, caller, kind, short, out).nodes == out.nodes,
    decreases kids,
{
    if kids.len() > 0 {
        let before = calls(env, kids.drop_last(), caller, kind, short, out);
        lemma_calls_grow(env, kids.drop_last(), caller, kind, short, out);
        let here = call_at(env, kids.last(), caller, kind, short, before);
        lemma_calls_grow(env, kids.last().children, caller, kind, short, here);
        assert(grows(before, here));
        lemma_grows(out, before, here);
        lemma_grows(out, here, calls(env, kids.last().children, caller, kind, short, here));
    }
}

/// A node of that type for a syntax node with that name; it ends with that row,
/// where it has an end. Functions, structs and type aliases keep the front of
/// their text.
pub open spec fn is_for(
    n: CodeView,
    env: Env,
    s: Shape,
    name: Seq<char>,
    node_type: Seq<char>,
    end: Option<nat>,
) -> bool {
    &&& n.name == name
    &&& n.node_type == node_type
    &&& n.language == env.language
    &&& n.id == env.id(name, node_type, Some(line(s.start_row)))
    &&& s.start_row < u32::MAX ==> n.start_line == Some((s.start_row + 1) as i64)
    &&& end matches Some(row) ==> row < u32::MAX ==> n.end_line == Some((row + 1) as i64)
    &&& end is None ==> n.end_line is None
    &&& keeps_text(n.content, env, s, node_type)
}

/// What a node keeps of its text, by its type.
pub open spec fn keeps_text(content: Option<Seq<char>>, env: Env, s: Shape, node_type: Seq<char>) -> bool {
    &&& node_type == "function"@ ==> content == Some(cut(env.text(s), 2000))
    &&& node_type == "struct"@ ==> content == Some(cut(env.text(s), 2000))
    &&& node_type == "type_alias"@ ==> content == Some(cut(env.text(s), 500))
}

/// The types of nodes differ.
pub proof fn lemma_type_names()
    ensures
        "function"@.len() == 8,
        "struct"@.len() == 6 && "struct"@[0] == 's',
        "type_alias"@.len() == 10 && "type_alias"@[0] == 't',
        "enum"@.len() == 4,
        "trait"@.len() == 5,
        "class"@.len() == 5,
        "interface"@.len() == 9,
        "impl"@.len() == 4,
        "module"@.len() == 6 && "module"@[0] == 'm',
        "macro_call"@.len() == 10 && "macro_call"@[0] == 'm',
        "import"@.len() == 6 && "import"@[0] == 'i',
        "object"@.len() == 6 && "object"@[0] == 'o',
{
    reveal_strlit("function");
    reveal_strlit("struct");
    reveal_strlit("type_alias");
    reveal_strlit("enum");
    reveal_strlit("trait");
    reveal_strlit("class");
    reveal_strlit("interface");
    reveal_strlit("impl");
    reveal_strlit("module");
    reveal_strlit("macro_call");
    reveal_strlit("import");
    reveal_strlit("object");
}

/// The edge from a holder.
pub open spec fn holds(out: Out, owner: Option<Seq<char>>, id: Seq<char>) -> bool {
    owner is Some ==> out.edges.contains(
        CodeEdgeView {
            from_id: owner->0,
            to_id: id,
            to_name: None,
            to_type: None,
            edge_type: "contains"@,
            confidence: "EXTRACTED"@,
        },
    )
}

/// The node of that type for the syntax node was collected, and its holder holds it.
pub open spec fn has(out: Out, env: Env, s: Shape, name: Seq<char>, node_type: Seq<char>, end: Option<nat>, owner: Option<
    Seq<char>,
>) -> bool {
    exists|n: CodeView| #[trigger] out.nodes.contains(n) && is_for(n, env, s, name, node_type, end) && holds(out, owner, n.id)
}

pub proof fn lemma_has(
    a: Out,
    b: Out,
    env: Env,
    s: Shape,
    name: Seq<char>,
    node_type: Seq<char>,
    end: Option<nat>,
    owner: Option<Seq<char>>,
)
    requires
        grows(a, b),
        has(a, env, s, name, node_type, end, owner),
    ensures
        has(b, env, s, name, node_type, end, owner),
{
    lemma_keeps(a, b);
    let n = choose|n: CodeView| #[trigger]
        a.nodes.contains(n) && is_for(n, env, s, name, node_type, end) && holds(a, owner, n.id);
    assert(b.nodes.contains(n));
}

/// The node that was collected last.
pub proof fn lemma_new(
    before: Out,
    env: Env,
    s: Shape,
    name: Seq<char>,
    node_type: Seq<char>,
    start: Option<u32>,
    end: Option<u32>,
    content: Option<Seq<char>>,
    metadata: Meta,
    owner: Option<Seq<char>>,
    row: Option<nat>,
)
    requires
        start == Some(line(s.start_row)),
        row matches Some(r) ==> end == Some(line(r)),
        row is None ==> end is None,
        keeps_text(content, env, s, node_type),
    ensures
        ({
            let after = before.node(env, name, node_type, start, end, content, metadata);
            let owned = after.owned(owner, env.id(name, node_type, start), "contains"@);
            &&& grows(before, after)
            &&& grows(before, owned)
            &&& has(after, env, s, name, node_type, row, None)
            &&& has(owned, env, s, name, node_type, row, owner)
        }),
{
    let after = before.node(env, name, node_type, start, end, content, metadata);
    let owned = after.owned(owner, env.id(name, node_type, start), "contains"@);
    let n = after.nodes[before.nodes.len() as int];
    assert(after.nodes.contains(n));
    assert(owned.nodes.contains(n));
    if owner is Some {
        assert(owned.edges.contains(owned.edges[before.edges.len() as int]));
    }
}

/// The node that was collected last, and nothing else with it.
pub proof fn lemma_added(before: Out, after: Out, env: Env, s: Shape, name: Seq<char>, node_type: Seq<char>, row: Option<nat>)
    requires
        after.nodes.len() == before.nodes.len() + 1,
        after.nodes.drop_last() == before.nodes,
        after.edges == before.edges,
        is_for(after.nodes.last(), env, s, name, node_type, row),
    ensures
        grows(before, after),
        has(after, env, s, name, node_type, row, None),
{
    assert forall|i: int| 0 <= i < before.nodes.len() implies after.nodes[i] == #[trigger] before.nodes[i] by {
        assert(after.nodes.drop_last()[i] == after.nodes[i]);
    }
    assert(after.nodes.contains(after.nodes.last()));
}

// ---- calls ----------------------------------------------------------------------------------

/// The edge of a call by name.
pub open spec fn call_edge(caller: Seq<char>, callee: Seq<char>) -> CodeEdgeView {
    CodeEdgeView {
        from_id: caller,
        to_id: Seq::empty(),
        to_name: Some(callee),
        to_type: Some("function"@),
        edge_type: "calls"@,
        confidence: "INFERRED"@,
    }
}

/// A text that can be the name of what is called: some text without a line
/// break and, where only short ones count, of less than a hundred bytes.
pub open spec fn is_callable(t: Seq<char>, short: bool) -> bool {
    &&& t.len() > 0
    &&& forall|i: int| 0 <= i < t.len() ==> #[trigger] t[i] != '\n' && t[i] != '\r'
    &&& short ==> byte_len(t) < 100
}

/// Every call below some nodes leaves an edge from the caller to what it calls.
pub proof fn every_call_below_is_recorded(
    env: Env,
    kids: Seq<Shape>,
    caller: Seq<char>,
    kind: Seq<char>,
    short: bool,
    out: Out,
    i: int,
    path: Seq<int>,
    callee: Seq<char>,
)
    requires
        0 <= i < kids.len(),
        is_path(kids[i], path),
        at_path(kids[i], path).kind == kind,
        is_field_text(env, at_path(kids[i], path), "function"@, callee),
        is_callable(callee, short),
    ensures
        calls(env, kids, caller, kind, short, out).edges.contains(call_edge(caller, callee)),
    decreases kids,
{
    let rest = kids.drop_last();
    let before = calls(env, rest, caller, kind, short, out);
    let here = call_at(env, kids.last(), caller, kind, short, before);
    let below = kids.last().children;
    let after = calls(env, below, caller, kind, short, here);
    lemma_calls_grow(env, below, caller, kind, short, here);
    lemma_keeps(here, after);
    if i < rest.len() {
        assert(rest[i] == kids[i]);
        every_call_below_is_recorded(env, rest, caller, kind, short, out, i, path, callee);
        assert(grows(before, here));
        lemma_keeps(before, here);
    } else if path.len() == 0 {
        lemma_field_text(env, kids[i], "function"@, callee);
        assert(here.edges[before.edges.len() as int] == call_edge(caller, callee));
    } else {
        every_call_below_is_recorded(env, below, caller, kind, short, here, path[0], path.skip(1), callee);
    }
}

/// Calls leave nothing but call edges of the caller, each from a node of the
/// kind below.
pub proof fn every_recorded_call_is_below(
    env: Env,
    kids: Seq<Shape>,
    caller: Seq<char>,
    kind: Seq<char>,
    short: bool,
    out: Out,
    k: int,
) -> (r: (int, Seq<int>, Seq<char>))
    requires
        out.edges.len() <= k < calls(env, kids, caller, kind, short, out).edges.len(),
    ensures
        ({
            let (i, path, callee) = r;
            &&& 0 <= i < kids.len()
            &&& is_path(kids[i], path)
            &&& at_path(kids[i], path).kind == kind
            &&& field_text(env, at_path(kids[i], path), "function"@) == Some(callee)
            &&& is_callable(callee, short)
            &&& calls(env, kids, caller, kind, short, out).edges[k] == call_edge(caller, callee)
        }),
    decreases kids,
{
    let rest = kids.drop_last();
    let before = calls(env, rest, caller, kind, short, out);
    let here = call_at(env, kids.last(), caller, kind, short, before);
    let below = kids.last().children;
    lemma_calls_grow(env, rest, caller, kind, short, out);
    lemma_calls_grow(env, below, caller, kind, short, here);
    let last = kids.len() - 1;
    if k < before.edges.len() {
        let (i, path, callee) = every_recorded_call_is_below(env, rest, caller, kind, short, out, k);
        assert(kids[i] == rest[i]);
        assert(here.edges[k] == before.edges[k]);
        (i, path, callee)
    } else if k < here.edges.len() {
        let callee = field_text(env, kids.last(), "function"@)->0;
        assert(here.edges[k] == call_edge(caller, callee));
        assert(is_path(kids[last], Seq::empty()));
        (last, Seq::empty(), callee)
    } else {
        let (i, path, callee) = every_recorded_call_is_below(env, below, caller, kind, short, here, k);
        let whole = seq![i] + path;
        assert(whole.skip(1) =~= path);
        assert(whole[0] == i);
        (last, whole, callee)
    }
}

/// The body of a function holds a call of that.
pub open spec fn is_call_in(
    env: Env,
    s: Shape,
    kind: Seq<char>,
    short: bool,
    body: int,
    i: int,
    way: Seq<int>,
    callee: Seq<char>,
) -> bool {
    &&& is_first_in(s, "body"@, body)
    &&& 0 <= i < s.children[body].children.len()
    &&& is_path(s.children[body].children[i], way)
    &&& at_path(s.children[body].children[i], way).kind == kind
    &&& is_field_text(env, at_path(s.children[body].children[i], way), "function"@, callee)
    &&& is_callable(callee, short)
}

/// A call in a body is recorded.
pub proof fn lemma_call_in(
    env: Env,
    s: Shape,
    kind: Seq<char>,
    short: bool,
    caller: Seq<char>,
    out: Out,
    body: int,
    i: int,
    way: Seq<int>,
    callee: Seq<char>,
)
    requires
        is_call_in(env, s, kind, short, body, i, way, callee),
    ensures
        calls(env, kids_in(s, "body"@), caller, kind, short, out).edges.contains(call_edge(caller, callee)),
{
    lemma_first_in(s, "body"@, body);
    every_call_below_is_recorded(env, s.children[body].children, caller, kind, short, out, i, way, callee);
}

// ---- where things come from -----------------------------------------------------------------

/// `t` is `s` itself or stands somewhere below it.
pub open spec fn is_below(t: Shape, s: Shape) -> bool {
    exists|path: Seq<int>| #[trigger] is_path(s, path) && at_path(s, path) == t
}

pub proof fn lemma_below_self(s: Shape)
    ensures
        is_below(s, s),
{
    assert(is_path(s, Seq::empty()));
}

proof fn lemma_path_push(root: Shape, path: Seq<int>, i: int)
    requires
        is_path(root, path),
        0 <= i < at_path(root, path).children.len(),
    ensures
        is_path(root, path.push(i)),
        at_path(root, path.push(i)) == at_path(root, path).children[i],
    decreases path.len(),
{
    let longer = path.push(i);
    if path.len() == 0 {
        assert(longer.skip(1) =~= Seq::empty());
        assert(longer[0] == i);
        assert(is_path(root.children[i], longer.skip(1)));
        assert(at_path(root.children[i], longer.skip(1)) == root.children[i]);
    } else {
        lemma_path_push(root.children[path[0]], path.skip(1), i);
        assert(longer.skip(1) =~= path.skip(1).push(i));
    }
}

/// What is a child of something below is below.
pub proof fn lemma_below(root: Shape, s: Shape)
    requires
        is_below(s, root),
    ensures
        forall|i: int| 0 <= i < s.children.len() ==> is_below(#[trigger] s.children[i], root),
{
    let path = choose|path: Seq<int>| #[trigger] is_path(root, path) && at_path(root, path) == s;
    assert forall|i: int| 0 <= i < s.children.len() implies is_below(#[trigger] s.children[i], root) by {
        lemma_path_push(root, path, i);
    }
}

proof fn lemma_below_path(root: Shape, s: Shape, path: Seq<int>)
    requires
        is_below(s, root),
        is_path(s, path),
    ensures
        is_below(at_path(s, path), root),
    decreases path.len(),
{
    if path.len() > 0 {
        lemma_below(root, s);
        lemma_below_path(root, s.children[path[0]], path.skip(1));
    }
}

/// What is in a field of something below is below, with all its children.
pub proof fn lemma_below_in(root: Shape, s: Shape, field: Seq<char>)
    requires
        is_below(s, root),
    ensures
        child_in(s, field) matches Some(c) ==> is_below(c, root),
        forall|i: int| 0 <= i < kids_in(s, field).len() ==> is_below(#[trigger] kids_in(s, field)[i], root),
{
    lemma_below(root, s);
    if let Some(c) = child_in(s, field) {
        let k = field_place(s.children, field) as int;
        assert(is_below(s.children[k], root));
        lemma_below(root, c);
    }
}

proof fn lemma_kind_place_is(kids: Seq<Shape>, kind: Seq<char>)
    ensures
        ({
            let k = kind_place(kids, kind) as int;
            &&& k <= kids.len()
            &&& k < kids.len() ==> kids[k].kind == kind
            &&& forall|j: int| 0 <= j < k ==> (#[trigger] kids[j]).kind != kind
        }),
    decreases kids.len(),
{
    if kids.len() > 0 && kids[0].kind != kind {
        lemma_kind_place_is(kids.skip(1), kind);
        let k = kind_place(kids, kind) as int;
        assert forall|j: int| 0 <= j < k implies (#[trigger] kids[j]).kind != kind by {
            if j > 0 {
                assert(kids.skip(1)[j - 1].kind != kind);
            }
        }
    }
}

/// A name that was read is the text of the first child of the kind.
pub proof fn lemma_read_name(env: Env, s: Shape, kind: Seq<char>)
    ensures
        either_text(env, s, kind, kind).len() > 0 ==> is_kind_text(env, s, kind, either_text(env, s, kind, kind)),
        kind_text(env, s, kind) matches Some(t) ==> is_kind_text(env, s, kind, t),
{
    lemma_kind_place_is(s.children, kind);
    let k = kind_place(s.children, kind) as int;
    if k < s.children.len() {
        assert(is_first_of(s, kind, k));
    }
}

/// The node comes from something below.
pub open spec fn comes_from(n: CodeView, root: Shape, f: spec_fn(CodeView, Shape) -> bool) -> bool {
    exists|t: Shape| #[trigger] is_below(t, root) && f(n, t)
}

/// The edge comes from something below.
pub open spec fn is_tied_by(e: CodeEdgeView, root: Shape, g: spec_fn(CodeEdgeView, Shape) -> bool) -> bool {
    exists|t: Shape| #[trigger] is_below(t, root) && g(e, t)
}

/// What was collected stays, and all that is new comes from something below.
pub open spec fn adds(
    a: Out,
    b: Out,
    root: Shape,
    f: spec_fn(CodeView, Shape) -> bool,
    g: spec_fn(CodeEdgeView, Shape) -> bool,
) -> bool {
    &&& grows(a, b)
    &&& forall|i: int| a.nodes.len() <= i < b.nodes.len() ==> comes_from(#[trigger] b.nodes[i], root, f)
    &&& forall|i: int| a.edges.len() <= i < b.edges.len() ==> is_tied_by(#[trigger] b.edges[i], root, g)
}

pub proof fn lemma_adds(
    a: Out,
    b: Out,
    c: Out,
    root: Shape,
    f: spec_fn(CodeView, Shape) -> bool,
    g: spec_fn(CodeEdgeView, Shape) -> bool,
)
    requires
        adds(a, b, root, f, g),
        adds(b, c, root, f, g),
    ensures
        adds(a, c, root, f, g),
{
    lemma_grows(a, b, c);
    assert forall|i: int| a.nodes.len() <= i < c.nodes.len() implies comes_from(#[trigger] c.nodes[i], root, f) by {
        if i < b.nodes.len() {
            assert(c.nodes[i] == b.nodes[i]);
        }
    }
    assert forall|i: int| a.edges.len() <= i < c.edges.len() implies is_tied_by(#[trigger] c.edges[i], root, g) by {
        if i < b.edges.len() {
            assert(c.edges[i] == b.edges[i]);
        }
    }
}

/// One more node.
pub proof fn lemma_adds_node(
    a: Out,
    b: Out,
    s: Shape,
    root: Shape,
    f: spec_fn(CodeView, Shape) -> bool,
    g: spec_fn(CodeEdgeView, Shape) -> bool,
)
    requires
        is_below(s, root),
        b.nodes.len() == a.nodes.len() + 1,
        b.nodes.drop_last() == a.nodes,
        b.edges == a.edges,
        f(b.nodes.last(), s),
    ensures
        adds(a, b, root, f, g),
{
    assert forall|i: int| 0 <= i < a.nodes.len() implies b.nodes[i] == #[trigger] a.nodes[i] by {
        assert(b.nodes.drop_last()[i] == b.nodes[i]);
    }
    assert(comes_from(b.nodes.last(), root, f));
}

/// One more edge, or none.
pub proof fn lemma_adds_edge(
    a: Out,
    b: Out,
    s: Shape,
    root: Shape,
    f: spec_fn(CodeView, Shape) -> bool,
    g: spec_fn(CodeEdgeView, Shape) -> bool,
)
    requires
        is_below(s, root),
        b == a || {
            &&& b.edges.len() == a.edges.len() + 1
            &&& b.edges.drop_last() == a.edges
            &&& b.nodes == a.nodes
            &&& g(b.edges.last(), s)
        },
    ensures
        adds(a, b, root, f, g),
{
    if b != a {
        assert forall|i: int| 0 <= i < a.edges.len() implies b.edges[i] == #[trigger] a.edges[i] by {
            assert(b.edges.drop_last()[i] == b.edges[i]);
        }
        assert(is_tied_by(b.edges.last(), root, g));
    }
}

/// The edge of a call that stands below `s`: from the caller to what has been
/// called there.
pub open spec fn is_call_below(e: CodeEdgeView, env: Env, s: Shape, caller: Seq<char>, kind: Seq<char>, short: bool) -> bool {
    exists|u: Shape| #[trigger]
        is_below(u, s) && u.kind == kind && field_text(env, u, "function"@) is Some && is_callable(
            field_text(env, u, "function"@)->0,
            short,
        ) && e == call_edge(caller, field_text(env, u, "function"@)->0)
}

/// Calls add edges of calls below, and nothing else.
pub proof fn lemma_calls_add(
    env: Env,
    s: Shape,
    kids: Seq<Shape>,
    caller: Seq<char>,
    kind: Seq<char>,
    short: bool,
    out: Out,
    root: Shape,
    f: spec_fn(CodeView, Shape) -> bool,
    g: spec_fn(CodeEdgeView, Shape) -> bool,
)
    requires
        is_below(s, root),
        forall|i: int| 0 <= i < kids.len() ==> is_below(#[trigger] kids[i], s),
        forall|e: CodeEdgeView| #[trigger] is_call_below(e, env, s, caller, kind, short) ==> g(e, s),
    ensures
        adds(out, calls(env, kids, caller, kind, short, out), root, f, g),
{
    let after = calls(env, kids, caller, kind, short, out);
    lemma_calls_grow(env, kids, caller, kind, short, out);
    assert forall|k: int| out.edges.len() <= k < after.edges.len() implies is_tied_by(#[trigger] after.edges[k], root, g) by {
        let (i, path, callee) = every_recorded_call_is_below(env, kids, caller, kind, short, out, k);
        assert(is_below(kids[i], s));
        lemma_below_path(s, kids[i], path);
        assert(is_call_below(after.edges[k], env, s, caller, kind, short));
    }
}

/// The node stands where the syntax node does, with that type.
pub open spec fn stands_at(n: CodeView, env: Env, t: Shape, node_type: Seq<char>) -> bool {
    &&& n.node_type == node_type
    &&& n.language == env.language
    &&& n.id == env.id(n.name, node_type, Some(line(t.start_row)))
}

/// The edge by which a holder holds the node.
pub open spec fn is_holding(e: CodeEdgeView, id: Seq<char>) -> bool {
    &&& e.to_id == id
    &&& e.to_name is None
    &&& e.to_type is None
    &&& e.edge_type == "contains"@
    &&& e.confidence == "EXTRACTED"@
}

} // verus!
