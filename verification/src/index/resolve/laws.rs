//! Laws of the cascade.

use vstd::prelude::*;

use crate::gather::{gather, lemma_gather_same};
use crate::index::resolve::cascade::{
    attempt, bare_cascade, binding_of, bound, cascade, hits, ids_at, passes, qualified_cascade,
    terminal, Test,
};
use crate::index::resolve::indices::{
    answers, by_id_order, has_imports, ids, imports_admit, in_pool, is_import_of, place_of_id, pool,
    use_admits,
};
use crate::index::resolve::names::{bare, family, module_relative, normalized, sep};
use crate::index::resolve::{AttemptView, BindingView, EdgeView, NodeView};
use crate::lookup::{lemma_places_of, places_of};
use crate::order::{
    is_permutation, is_stable_order, lemma_permutation_covers, lemma_permuted_multiset,
    lemma_sorted, lemma_stable_order_is_permutation, lemma_stable_order_sorts, permuted, sorted,
    Sortable,
};
use crate::text::{finishes_with, has_part};

verus! {

// ---- gathered places are members ------------------------------------------------------------

proof fn lemma_hits_members(nodes: Seq<NodeView>, candidates: Seq<usize>, t: Test)
    ensures
        forall|i: int| 0 <= i < hits(nodes, candidates, t).len() ==> candidates.contains(
            #[trigger] hits(nodes, candidates, t)[i],
        ) && passes(nodes, t, nodes[hits(nodes, candidates, t)[i] as int]),
    decreases candidates.len(),
{
    let h = hits(nodes, candidates, t);
    if candidates.len() > 0 {
        let rest = candidates.drop_last();
        let hr = hits(nodes, rest, t);
        lemma_hits_members(nodes, rest, t);
        assert forall|i: int| 0 <= i < h.len() implies candidates.contains(#[trigger] h[i]) && passes(
            nodes,
            t,
            nodes[h[i] as int],
        ) by {
            if i < hr.len() {
                assert(h[i] == hr[i]);
                assert(rest.contains(hr[i]));
                let k = choose|k: int| 0 <= k < rest.len() && rest[k] == hr[i];
                assert(candidates[k] == h[i]);
            } else {
                assert(candidates[candidates.len() - 1] == h[i]);
            }
        }
    }
}

proof fn lemma_pool_members(
    nodes: Seq<NodeView>,
    name: Seq<char>,
    node_type: Seq<char>,
    lang: Seq<char>,
    order: Seq<usize>,
)
    requires
        forall|i: int| 0 <= i < order.len() ==> (#[trigger] order[i]) < nodes.len(),
    ensures
        forall|i: int| 0 <= i < gather(order, in_pool(nodes, name, node_type, lang)).len() ==> {
            let at = #[trigger] gather(order, in_pool(nodes, name, node_type, lang))[i];
            at < nodes.len() && answers(nodes[at as int], name, node_type, lang)
        },
    decreases order.len(),
{
    let f = in_pool(nodes, name, node_type, lang);
    let g = gather(order, f);
    if order.len() > 0 {
        let rest = order.drop_last();
        assert forall|i: int| 0 <= i < rest.len() implies (#[trigger] rest[i]) < nodes.len() by {
            assert(order[i] < nodes.len());
        }
        lemma_pool_members(nodes, name, node_type, lang, rest);
        assert forall|i: int| 0 <= i < g.len() implies {
            let at = #[trigger] g[i];
            at < nodes.len() && answers(nodes[at as int], name, node_type, lang)
        } by {
            let gr = gather(rest, f);
            if i < gr.len() {
                assert(g[i] == gr[i]);
            } else {
                assert(order[order.len() - 1] < nodes.len());
            }
        }
    }
}

// ---- what a binding holds ----------------------------------------------------------------------

/// A binding names a target exactly where it is resolved, and candidates exactly
/// where it is ambiguous; candidates are sorted and at least two. Confidence is
/// one of three.
pub proof fn a_binding_has_one_of_three_shapes(edge: EdgeView, nodes: Seq<NodeView>)
    ensures
        ({
            let b = binding_of(edge, nodes);
            ||| {
                &&& b.confidence == "RESOLVED"@
                &&& b.to_id is Some
                &&& b.candidates is None
            }
            ||| {
                &&& b.confidence == "UNRESOLVED"@
                &&& b.to_id is None
                &&& b.candidates is None
            }
            ||| {
                &&& b.confidence == "AMBIGUOUS"@
                &&& b.to_id is None
                &&& b.candidates is Some
                &&& b.candidates->0.len() >= 2
                &&& crate::order::is_ascending::<String>(b.candidates->0)
            }
        }),
{
    match place_of_id(nodes, edge.from_id) {
        None => {},
        Some(at) => {
            let source = nodes[at];
            let name = normalized(edge.to_name);
            let candidates = pool(nodes, bare(name), edge.to_type, family(source.language));
            let h1 = hits(nodes, candidates, Test::Exact(name));
            let h2 = hits(nodes, candidates, Test::Suffix(name));
            lemma_sorted::<String>(ids_at(nodes, h1 + h2));
            lemma_sorted::<String>(ids_at(nodes, candidates));
        },
    }
}

/// The nodes that a binding speaks of: its target, or its candidates.
pub open spec fn speaks_of(b: BindingView, id: Seq<char>) -> bool {
    b.to_id == Some(id) || (b.candidates is Some && b.candidates->0.contains(id))
}

proof fn lemma_terminal_speaks(nodes: Seq<NodeView>, left: Seq<usize>, id: Seq<char>)
    requires
        speaks_of(terminal(nodes, left), id),
    ensures
        exists|i: int| 0 <= i < left.len() && nodes[#[trigger] left[i] as int].id == id,
{
    if left.len() == 1 {
        assert(nodes[left[0] as int].id == id);
    } else if left.len() > 1 {
        broadcast use vstd::seq_lib::group_to_multiset_ensures;

        let s = ids_at(nodes, left);
        lemma_sorted::<String>(s);
        assert(sorted::<String>(s).to_multiset().contains(id));
        assert(s.to_multiset().contains(id));
        assert(s.contains(id));
        let i = choose|i: int| 0 <= i < s.len() && s[i] == id;
        assert(nodes[left[i] as int].id == id);
    }
}

/// Every node that a binding speaks of is a definition of the reference's bare
/// name and type in the language family of the reference: definitions of other
/// languages never blend in.
pub proof fn a_binding_stays_in_its_language_family(
    edge: EdgeView,
    nodes: Seq<NodeView>,
    id: Seq<char>,
)
    requires
        nodes.len() <= usize::MAX,
        speaks_of(binding_of(edge, nodes), id),
    ensures
        place_of_id(nodes, edge.from_id) is Some,
        exists|i: int|
            0 <= i < nodes.len() && (#[trigger] nodes[i]).id == id && answers(
                nodes[i],
                bare(normalized(edge.to_name)),
                edge.to_type,
                family(nodes[place_of_id(nodes, edge.from_id)->0].language),
            ),
{
    let at = place_of_id(nodes, edge.from_id)->0;
    let source = nodes[at];
    let name = normalized(edge.to_name);
    let lang = family(source.language);
    let candidates = pool(nodes, bare(name), edge.to_type, lang);
    lemma_by_id_order(nodes);
    lemma_pool_members(nodes, bare(name), edge.to_type, lang, by_id_order(nodes));
    let left = lemma_source_of_binding(edge, nodes, id);
    assert(candidates.contains(left));
    let k = choose|k: int| 0 <= k < candidates.len() && candidates[k] == left;
    assert(nodes[left as int].id == id);
}

/// A stable order of the ids exists.
pub(crate) proof fn lemma_by_id_order(nodes: Seq<NodeView>)
    requires
        nodes.len() <= usize::MAX,
    ensures
        is_stable_order::<String>(ids(nodes), by_id_order(nodes)),
{
    crate::order::lemma_stable_order_exists::<String>(ids(nodes));
}

/// The place, among the candidates, of a node that the binding speaks of.
proof fn lemma_source_of_binding(edge: EdgeView, nodes: Seq<NodeView>, id: Seq<char>) -> (r: usize)
    requires
        speaks_of(binding_of(edge, nodes), id),
    ensures
        place_of_id(nodes, edge.from_id) is Some,
        ({
            let source = nodes[place_of_id(nodes, edge.from_id)->0];
            let name = normalized(edge.to_name);
            let candidates = pool(nodes, bare(name), edge.to_type, family(source.language));
            &&& candidates.contains(r)
            &&& nodes[r as int].id == id
            &&& has_part(name, sep()) ==> passes(nodes, Test::Relative(name), nodes[r as int]) || (
            source.language == "rust"@ && passes(nodes, Test::Relative(module_relative(name)), nodes[r as int]))
        }),
{
    let at = place_of_id(nodes, edge.from_id)->0;
    let source = nodes[at];
    let name = normalized(edge.to_name);
    let candidates = pool(nodes, bare(name), edge.to_type, family(source.language));
    if has_part(name, sep()) {
        let h1 = hits(nodes, candidates, Test::Exact(name));
        let h2 = hits(nodes, candidates, Test::Suffix(name));
        let h3 = hits(nodes, candidates, Test::Relative(module_relative(name)));
        lemma_hits_members(nodes, candidates, Test::Exact(name));
        lemma_hits_members(nodes, candidates, Test::Suffix(name));
        lemma_hits_members(nodes, candidates, Test::Relative(module_relative(name)));
        if h1.len() == 1 {
            h1[0]
        } else if h2.len() == 1 {
            h2[0]
        } else if source.language == "rust"@ && module_relative(name) != name && h3.len() == 1 {
            h3[0]
        } else {
            let left = h1 + h2;
            lemma_terminal_speaks(nodes, left, id);
            let i = choose|i: int| 0 <= i < left.len() && nodes[#[trigger] left[i] as int].id == id;
            if i < h1.len() {
                assert(left[i] == h1[i]);
            } else {
                assert(left[i] == h2[i - h1.len()]);
            }
            left[i]
        }
    } else {
        let h3 = hits(nodes, candidates, Test::SameFile(source.file_path));
        let h4 = hits(nodes, candidates, Test::Imported(source.file_path));
        lemma_hits_members(nodes, candidates, Test::SameFile(source.file_path));
        lemma_hits_members(nodes, candidates, Test::Imported(source.file_path));
        if h3.len() == 1 {
            h3[0]
        } else if has_imports(nodes, source.file_path) && h4.len() == 1 {
            h4[0]
        } else {
            lemma_terminal_speaks(nodes, candidates, id);
            let i = choose|i: int|
                0 <= i < candidates.len() && nodes[#[trigger] candidates[i] as int].id == id;
            candidates[i]
        }
    }
}

/// A qualified name never falls back to its bare tail: whatever the binding
/// speaks of has that whole name, as its qualified name or as the end of it
/// behind `::`; in Rust the same holds of the name without a leading run of
/// `crate::`, `self::` and `super::`.
pub proof fn a_qualified_name_never_binds_by_its_bare_tail(
    edge: EdgeView,
    nodes: Seq<NodeView>,
    id: Seq<char>,
)
    requires
        has_part(normalized(edge.to_name), sep()),
        speaks_of(binding_of(edge, nodes), id),
    ensures
        ({
            let name = normalized(edge.to_name);
            let rel = module_relative(name);
            let source = nodes[place_of_id(nodes, edge.from_id)->0];
            exists|r: usize| #![trigger nodes[r as int]]
                nodes[r as int].id == id && {
                    let q = nodes[r as int].qualified_name;
                    ||| q == name
                    ||| finishes_with(q, sep() + name)
                    ||| source.language == "rust"@ && (q == rel || finishes_with(q, sep() + rel))
                }
        }),
{
    let r = lemma_source_of_binding(edge, nodes, id);
    assert(nodes[r as int].id == id);
}

/// No node passes both the exact and the suffix rule, so the two rules never
/// list a candidate twice.
pub proof fn exact_and_suffix_hits_are_disjoint(
    nodes: Seq<NodeView>,
    n: NodeView,
    name: Seq<char>,
)
    ensures
        !(passes(nodes, Test::Exact(name), n) && passes(nodes, Test::Suffix(name), n)),
{
}

// ---- the module-relative retry only adds ------------------------------------------------------

/// The cascade for a qualified name without the module-relative retry.
pub open spec fn plain_qualified(
    nodes: Seq<NodeView>,
    name: Seq<char>,
    candidates: Seq<usize>,
) -> BindingView {
    let h1 = hits(nodes, candidates, Test::Exact(name));
    let h2 = hits(nodes, candidates, Test::Suffix(name));
    if h1.len() == 1 {
        bound(nodes[h1[0] as int], "r1"@)
    } else if h2.len() == 1 {
        bound(nodes[h2[0] as int], "r2"@)
    } else {
        terminal(nodes, h1 + h2)
    }
}

/// The module-relative retry never rebinds a reference that was bound without
/// it, and never makes one ambiguous that was not: it either binds by its own
/// unique match, or changes nothing.
pub proof fn the_module_relative_retry_only_adds(
    nodes: Seq<NodeView>,
    source: NodeView,
    name: Seq<char>,
    candidates: Seq<usize>,
)
    ensures
        ({
            let plain = plain_qualified(nodes, name, candidates);
            let b = qualified_cascade(nodes, source, name, candidates).0;
            ||| b == plain
            ||| {
                &&& plain.to_id is None
                &&& b.resolved_by == "r2m"@
                &&& b.to_id is Some
                &&& hits(nodes, candidates, Test::Relative(module_relative(name))).len() == 1
            }
        }),
{
}

// ---- the order of the nodes does not matter -----------------------------------------------------

/// No two nodes share an id.
pub open spec fn distinct_ids(nodes: Seq<NodeView>) -> bool {
    forall|i: int, j: int| 0 <= i < j < nodes.len() ==> (#[trigger] nodes[i]).id != (#[trigger] nodes[j]).id
}

/// The nodes in the order of their ids.
spec fn line(nodes: Seq<NodeView>) -> Seq<NodeView> {
    permuted(nodes, by_id_order(nodes))
}

/// The nodes at these places.
pub open spec fn at(nodes: Seq<NodeView>, places: Seq<usize>) -> Seq<NodeView> {
    Seq::new(places.len(), |i: int| nodes[places[i] as int])
}

pub open spec fn test_fn(nodes: Seq<NodeView>, t: Test) -> spec_fn(NodeView) -> Option<NodeView> {
    |n: NodeView|
        if passes(nodes, t, n) {
            Some(n)
        } else {
            None
        }
}

pub open spec fn pool_fn(name: Seq<char>, node_type: Seq<char>, lang: Seq<char>) -> spec_fn(NodeView) -> Option<NodeView> {
    |n: NodeView|
        if answers(n, name, node_type, lang) {
            Some(n)
        } else {
            None
        }
}

pub(crate) proof fn lemma_hits_at(nodes: Seq<NodeView>, candidates: Seq<usize>, t: Test)
    ensures
        at(nodes, hits(nodes, candidates, t)) == gather(at(nodes, candidates), test_fn(nodes, t)),
    decreases candidates.len(),
{
    let whole = at(nodes, candidates);
    if candidates.len() > 0 {
        let rest = candidates.drop_last();
        lemma_hits_at(nodes, rest, t);
        assert(whole.drop_last() =~= at(nodes, rest));
        assert(whole.last() == nodes[candidates.last() as int]);
    }
    assert(at(nodes, hits(nodes, candidates, t)) =~= gather(whole, test_fn(nodes, t)));
}

pub(crate) proof fn lemma_pool_at(
    nodes: Seq<NodeView>,
    order: Seq<usize>,
    name: Seq<char>,
    node_type: Seq<char>,
    lang: Seq<char>,
)
    ensures
        at(nodes, gather(order, in_pool(nodes, name, node_type, lang))) == gather(
            at(nodes, order),
            pool_fn(name, node_type, lang),
        ),
    decreases order.len(),
{
    let whole = at(nodes, order);
    if order.len() > 0 {
        let rest = order.drop_last();
        lemma_pool_at(nodes, rest, name, node_type, lang);
        assert(whole.drop_last() =~= at(nodes, rest));
        assert(whole.last() == nodes[order.last() as int]);
    }
    assert(at(nodes, gather(order, in_pool(nodes, name, node_type, lang))) =~= gather(
        whole,
        pool_fn(name, node_type, lang),
    ));
}

/// The nodes in the order of their ids do not depend on the order in which they
/// are given.
proof fn lemma_line_same(a: Seq<NodeView>, b: Seq<NodeView>, p: Seq<usize>)
    requires
        distinct_ids(a),
        is_permutation(p, a.len()),
        b == permuted(a, p),
        a.len() <= usize::MAX,
    ensures
        line(a) == line(b),
{
    lemma_by_id_order(a);
    lemma_by_id_order(b);
    let oa = by_id_order(a);
    let ob = by_id_order(b);
    lemma_stable_order_is_permutation::<String>(ids(a), oa);
    lemma_stable_order_is_permutation::<String>(ids(b), ob);
    lemma_stable_order_sorts::<String>(ids(a), oa);
    lemma_stable_order_sorts::<String>(ids(b), ob);
    lemma_permuted_multiset(ids(a), p);
    assert(permuted(ids(a), p) =~= ids(b));
    crate::order::lemma_sorted_same_items::<String>(ids(a), ids(b));
    // At each place both lines hold the node with the same id.
    assert forall|i: int| 0 <= i < a.len() implies line(a)[i] == line(b)[i] by {
        assert(permuted(ids(a), oa)[i] == permuted(ids(b), ob)[i]);
        let x = oa[i] as int;
        let y = p[ob[i] as int] as int;
        assert(ob[i] < b.len());
        assert(p[ob[i] as int] < a.len());
        assert(a[x].id == a[y].id);
        if x < y {
            assert(a[x].id != a[y].id);
        } else if y < x {
            assert(a[y].id != a[x].id);
        }
    }
    assert(line(a) =~= line(b));
}

/// The tests of the rules do not depend on the order of the nodes.
proof fn lemma_imports_same(a: Seq<NodeView>, b: Seq<NodeView>, p: Seq<usize>, file: Seq<char>, name: Seq<char>)
    requires
        is_permutation(p, a.len()),
        b == permuted(a, p),
        a.len() <= usize::MAX,
    ensures
        imports_admit(a, file, name) == imports_admit(b, file, name),
        has_imports(a, file) == has_imports(b, file),
{
    assert forall|i: int| 0 <= i < a.len() implies b.contains(#[trigger] a[i]) by {
        lemma_permutation_covers(p, a.len(), i as usize);
        let k = choose|k: int| 0 <= k < p.len() && p[k] == i as usize;
        assert(b[k] == a[i]);
    }
    assert forall|i: int| 0 <= i < b.len() implies a.contains(#[trigger] b[i]) by {
        assert(a[p[i] as int] == b[i]);
        assert(p[i] < a.len());
    }
    if imports_admit(a, file, name) {
        let i = choose|i: int|
            0 <= i < a.len() && is_import_of(#[trigger] a[i], file) && use_admits(a[i].name, name);
        let k = choose|k: int| 0 <= k < b.len() && b[k] == a[i];
        assert(is_import_of(b[k], file));
    }
    if imports_admit(b, file, name) {
        let i = choose|i: int|
            0 <= i < b.len() && is_import_of(#[trigger] b[i], file) && use_admits(b[i].name, name);
        let k = choose|k: int| 0 <= k < a.len() && a[k] == b[i];
        assert(is_import_of(a[k], file));
    }
    if has_imports(a, file) {
        let i = choose|i: int| 0 <= i < a.len() && is_import_of(#[trigger] a[i], file);
        let k = choose|k: int| 0 <= k < b.len() && b[k] == a[i];
        assert(is_import_of(b[k], file));
    }
    if has_imports(b, file) {
        let i = choose|i: int| 0 <= i < b.len() && is_import_of(#[trigger] b[i], file);
        let k = choose|k: int| 0 <= k < a.len() && a[k] == b[i];
        assert(is_import_of(a[k], file));
    }
}

proof fn lemma_hits_same(
    a: Seq<NodeView>,
    b: Seq<NodeView>,
    p: Seq<usize>,
    ca: Seq<usize>,
    cb: Seq<usize>,
    t: Test,
)
    requires
        is_permutation(p, a.len()),
        b == permuted(a, p),
        a.len() <= usize::MAX,
        at(a, ca) == at(b, cb),
    ensures
        at(a, hits(a, ca, t)) == at(b, hits(b, cb, t)),
        hits(a, ca, t).len() == hits(b, cb, t).len(),
{
    lemma_hits_at(a, ca, t);
    lemma_hits_at(b, cb, t);
    let s = at(a, ca);
    let f = test_fn(a, t);
    let g = test_fn(b, t);
    assert forall|i: int| 0 <= i < s.len() implies f(#[trigger] s[i]) == g(s[i]) by {
        match t {
            Test::Imported(file) => {
                lemma_imports_same(a, b, p, file, s[i].qualified_name);
            },
            _ => {},
        }
    }
    lemma_gather_same(s, s, f, g);
    assert(at(a, hits(a, ca, t)).len() == hits(a, ca, t).len());
    assert(at(b, hits(b, cb, t)).len() == hits(b, cb, t).len());
}

pub(crate) proof fn lemma_terminal_same(a: Seq<NodeView>, b: Seq<NodeView>, la: Seq<usize>, lb: Seq<usize>)
    requires
        at(a, la) == at(b, lb),
    ensures
        terminal(a, la) == terminal(b, lb),
        la.len() == lb.len(),
        la.len() > 0 ==> a[la[0] as int] == b[lb[0] as int],
{
    assert(at(a, la).len() == la.len());
    assert(at(b, lb).len() == lb.len());
    if la.len() > 0 {
        assert(at(a, la)[0] == at(b, lb)[0]);
    }
    assert(ids_at(a, la) =~= ids_at(b, lb)) by {
        assert forall|i: int| 0 <= i < la.len() implies ids_at(a, la)[i] == ids_at(b, lb)[i] by {
            assert(at(a, la)[i] == at(b, lb)[i]);
        }
    }
}

/// Shuffling the nodes changes no binding: where no two nodes share an id, what
/// the cascade says of a reference does not depend on the order of the nodes.
pub proof fn node_order_does_not_matter(
    edge: EdgeView,
    nodes: Seq<NodeView>,
    shuffled: Seq<NodeView>,
    p: Seq<usize>,
)
    requires
        nodes.len() <= usize::MAX,
        distinct_ids(nodes),
        is_permutation(p, nodes.len()),
        shuffled == permuted(nodes, p),
    ensures
        binding_of(edge, shuffled) == binding_of(edge, nodes),
{
    let a = nodes;
    let b = shuffled;
    lemma_line_same(a, b, p);
    lemma_place_same(a, b, p, edge.from_id);
    match place_of_id(a, edge.from_id) {
        None => {},
        Some(i) => {
            let source = a[i];
            let name = normalized(edge.to_name);
            let lang = family(source.language);
            let ca = pool(a, bare(name), edge.to_type, lang);
            let cb = pool(b, bare(name), edge.to_type, lang);
            assert(at(a, by_id_order(a)) =~= line(a));
            assert(at(b, by_id_order(b)) =~= line(b));
            lemma_pool_at(a, by_id_order(a), bare(name), edge.to_type, lang);
            lemma_pool_at(b, by_id_order(b), bare(name), edge.to_type, lang);
            if has_part(name, sep()) {
                lemma_hits_same(a, b, p, ca, cb, Test::Exact(name));
                lemma_hits_same(a, b, p, ca, cb, Test::Suffix(name));
                lemma_hits_same(a, b, p, ca, cb, Test::Relative(module_relative(name)));
                let a1 = hits(a, ca, Test::Exact(name));
                let b1 = hits(b, cb, Test::Exact(name));
                let a2 = hits(a, ca, Test::Suffix(name));
                let b2 = hits(b, cb, Test::Suffix(name));
                lemma_terminal_same(a, b, a1, b1);
                lemma_terminal_same(a, b, a2, b2);
                lemma_terminal_same(
                    a,
                    b,
                    hits(a, ca, Test::Relative(module_relative(name))),
                    hits(b, cb, Test::Relative(module_relative(name))),
                );
                assert(at(a, a1 + a2) =~= at(a, a1) + at(a, a2));
                assert(at(b, b1 + b2) =~= at(b, b1) + at(b, b2));
                lemma_terminal_same(a, b, a1 + a2, b1 + b2);
            } else {
                let file = source.file_path;
                lemma_hits_same(a, b, p, ca, cb, Test::SameFile(file));
                lemma_hits_same(a, b, p, ca, cb, Test::Imported(file));
                lemma_terminal_same(a, b, hits(a, ca, Test::SameFile(file)), hits(b, cb, Test::SameFile(file)));
                lemma_terminal_same(a, b, hits(a, ca, Test::Imported(file)), hits(b, cb, Test::Imported(file)));
                lemma_terminal_same(a, b, ca, cb);
                lemma_imports_same(a, b, p, file, file);
            }
        },
    }
}

/// With distinct ids, an id names the same node in every order.
proof fn lemma_place_same(a: Seq<NodeView>, b: Seq<NodeView>, p: Seq<usize>, id: Seq<char>)
    requires
        distinct_ids(a),
        is_permutation(p, a.len()),
        b == permuted(a, p),
        a.len() <= usize::MAX,
    ensures
        (place_of_id(a, id) is Some) == (place_of_id(b, id) is Some),
        place_of_id(a, id) is Some ==> a[place_of_id(a, id)->0] == b[place_of_id(b, id)->0],
{
    let qa = places_of(ids(a), id);
    let qb = places_of(ids(b), id);
    lemma_places_of(ids(a), id);
    lemma_places_of(ids(b), id);
    if qa.len() > 0 {
        let i = qa[qa.len() - 1] as int;
        assert(ids(a)[i] == id);
        lemma_permutation_covers(p, a.len(), i as usize);
        let k = choose|k: int| 0 <= k < p.len() && p[k] == i as usize;
        assert(ids(b)[k] == id);
        assert(qb.contains(k as usize));
    }
    if qb.len() > 0 {
        let k = qb[qb.len() - 1] as int;
        assert(ids(b)[k] == id);
        let j = p[k] as int;
        assert(p[k] < a.len());
        assert(ids(a)[j] == id);
        assert(qa.contains(j as usize));
        let i = qa[qa.len() - 1] as int;
        assert(ids(a)[i] == id);
        assert(a[i].id == a[j].id);
        if i < j {
            assert(a[i].id != a[j].id);
        } else if j < i {
            assert(a[j].id != a[i].id);
        }
    }
}

/// The rule admitted places below `n`.
pub open spec fn admits_below(a: AttemptView, n: nat) -> bool {
    forall|i: int| 0 <= i < a.hits.len() ==> #[trigger] a.hits[i] < n
}

/// Every rule of a trace admits places of nodes only.
pub proof fn a_trace_admits_nodes(edge: EdgeView, nodes: Seq<NodeView>)
    requires
        nodes.len() <= usize::MAX,
    ensures
        forall|a: int| 0 <= a < cascade(edge, nodes).1.attempts.len() ==> admits_below(
            #[trigger] cascade(edge, nodes).1.attempts[a],
            nodes.len(),
        ),
{
    if let Some(at) = place_of_id(nodes, edge.from_id) {
        let source = nodes[at];
        let name = normalized(edge.to_name);
        let lang = family(source.language);
        let candidates = pool(nodes, bare(name), edge.to_type, lang);
        lemma_pool_within(nodes, bare(name), edge.to_type, lang);
        if has_part(name, sep()) {
            lemma_qualified_within(nodes, source, name, candidates);
        } else {
            lemma_bare_within(nodes, source, candidates);
        }
    }
}

proof fn lemma_pool_within(nodes: Seq<NodeView>, name: Seq<char>, node_type: Seq<char>, lang: Seq<char>)
    requires
        nodes.len() <= usize::MAX,
    ensures
        forall|i: int| 0 <= i < pool(nodes, name, node_type, lang).len() ==> #[trigger] pool(
            nodes,
            name,
            node_type,
            lang,
        )[i] < nodes.len(),
{
    lemma_by_id_order(nodes);
    lemma_stable_order_is_permutation::<String>(ids(nodes), by_id_order(nodes));
    lemma_pool_members(nodes, name, node_type, lang, by_id_order(nodes));
}

proof fn lemma_attempt_within(nodes: Seq<NodeView>, candidates: Seq<usize>, t: Test, rule: Seq<char>)
    requires
        forall|i: int| 0 <= i < candidates.len() ==> #[trigger] candidates[i] < nodes.len(),
    ensures
        admits_below(attempt(rule, hits(nodes, candidates, t)), nodes.len()),
{
    lemma_hits_members(nodes, candidates, t);
}

proof fn lemma_qualified_within(nodes: Seq<NodeView>, source: NodeView, name: Seq<char>, candidates: Seq<usize>)
    requires
        forall|i: int| 0 <= i < candidates.len() ==> #[trigger] candidates[i] < nodes.len(),
    ensures
        forall|a: int| 0 <= a < qualified_cascade(nodes, source, name, candidates).1.attempts.len() ==> admits_below(
            #[trigger] qualified_cascade(nodes, source, name, candidates).1.attempts[a],
            nodes.len(),
        ),
{
    lemma_attempt_within(nodes, candidates, Test::Exact(name), "r1"@);
    lemma_attempt_within(nodes, candidates, Test::Suffix(name), "r2"@);
    lemma_attempt_within(nodes, candidates, Test::Relative(module_relative(name)), "r2m"@);
}

proof fn lemma_bare_within(nodes: Seq<NodeView>, source: NodeView, candidates: Seq<usize>)
    requires
        forall|i: int| 0 <= i < candidates.len() ==> #[trigger] candidates[i] < nodes.len(),
    ensures
        forall|a: int| 0 <= a < bare_cascade(nodes, source, candidates).1.attempts.len() ==> admits_below(
            #[trigger] bare_cascade(nodes, source, candidates).1.attempts[a],
            nodes.len(),
        ),
{
    lemma_attempt_within(nodes, candidates, Test::SameFile(source.file_path), "r3"@);
    lemma_attempt_within(nodes, candidates, Test::Imported(source.file_path), "r4"@);
    assert(admits_below(attempt("r5"@, candidates), nodes.len()));
}

/// A trace names each rule once.
pub proof fn a_trace_names_each_rule_once(edge: EdgeView, nodes: Seq<NodeView>)
    ensures
        names_each_once(cascade(edge, nodes).1.attempts),
{
    if let Some(at) = place_of_id(nodes, edge.from_id) {
        let source = nodes[at];
        let name = normalized(edge.to_name);
        let candidates = pool(nodes, bare(name), edge.to_type, family(source.language));
        if has_part(name, sep()) {
            lemma_qualified_names(nodes, source, name, candidates);
        } else {
            lemma_bare_names(nodes, source, candidates);
        }
    }
}

/// No rule is named twice.
pub open spec fn names_each_once(attempts: Seq<AttemptView>) -> bool {
    forall|a: int, b: int| 0 <= a < b < attempts.len() ==> (#[trigger] attempts[a]).rule != (#[trigger] attempts[b]).rule
}

proof fn lemma_qualified_names(nodes: Seq<NodeView>, source: NodeView, name: Seq<char>, candidates: Seq<usize>)
    ensures
        names_each_once(qualified_cascade(nodes, source, name, candidates).1.attempts),
{
    lemma_rules_differ();
}

proof fn lemma_bare_names(nodes: Seq<NodeView>, source: NodeView, candidates: Seq<usize>)
    ensures
        names_each_once(bare_cascade(nodes, source, candidates).1.attempts),
{
    lemma_rules_differ();
}

proof fn lemma_rules_differ()
    ensures
        "r1"@ != "r2"@,
        "r1"@ != "r2m"@,
        "r2"@ != "r2m"@,
        "r3"@ != "r4"@,
        "r3"@ != "r5"@,
        "r4"@ != "r5"@,
{
    reveal_strlit("r1");
    reveal_strlit("r2");
    reveal_strlit("r2m");
    reveal_strlit("r3");
    reveal_strlit("r4");
    reveal_strlit("r5");
    assert("r1"@[1] == '1' && "r2"@[1] == '2' && "r3"@[1] == '3' && "r4"@[1] == '4' && "r5"@[1] == '5');
    assert("r2m"@.len() == 3 && "r2"@.len() == 2 && "r1"@.len() == 2);
}

} // verus!
