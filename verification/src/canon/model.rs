//! What refinement and the search below it compute, and why the result names
//! an isomorphism class.
//!
//! A graph here is dense: its vertices are `0..n`, an edge is a label with an
//! ordered list of vertices, and a colouring gives each vertex a number.

use vstd::prelude::*;

use crate::gather::gather;
use crate::order::{seq_before_at, sorted, Sortable};
use crate::ranks::{distinct, lemma_rank_distinct, lemma_rank_order, ranks};

verus! {

/// Every vertex of every edge is below `n`.
pub open spec fn edges_within(edges: Seq<(u64, Seq<usize>)>, n: nat) -> bool {
    forall|i: int, j: int|
        0 <= i < edges.len() && 0 <= j < edges[i].1.len() ==> (#[trigger] edges[i].1[j]) < n
}

// ---- one round of refinement ----------------------------------------------------

/// The places at which `v` stands in an edge.
pub open spec fn places(verts: Seq<usize>, v: usize) -> Seq<u64>
    decreases verts.len(),
{
    if verts.len() == 0 {
        Seq::empty()
    } else {
        let rest = places(verts.drop_last(), v);
        if verts.last() == v {
            rest.push((verts.len() - 1) as u64)
        } else {
            rest
        }
    }
}

/// The colours along an edge.
pub open spec fn colors_along(verts: Seq<usize>, colors: Seq<u64>) -> Seq<u64> {
    Seq::new(verts.len(), |i: int| colors[verts[i] as int])
}

/// What an incident edge tells of `v`: its label, its arity, the colours along
/// it and the places of `v` in it. Entries of equal arity compare field by
/// field, so the order of entries is the lexicographic order of the fields.
pub open spec fn entry(e: (u64, Seq<usize>), colors: Seq<u64>, v: usize) -> Seq<u64> {
    seq![e.0, e.1.len() as u64] + colors_along(e.1, colors) + places(e.1, v)
}

pub open spec fn entry_of(
    colors: Seq<u64>,
    v: usize,
) -> spec_fn((u64, Seq<usize>)) -> Option<Seq<u64>> {
    |e: (u64, Seq<usize>)|
        if e.1.contains(v) {
            Some(entry(e, colors, v))
        } else {
            None
        }
}

/// The sorted entries of the edges that meet `v`.
pub open spec fn signature(
    v: usize,
    colors: Seq<u64>,
    edges: Seq<(u64, Seq<usize>)>,
) -> Seq<Seq<u64>> {
    sorted::<Vec<u64>>(gather(edges, entry_of(colors, v)))
}

/// A vertex's colour followed by its signature.
pub open spec fn vertex_key(
    colors: Seq<u64>,
    edges: Seq<(u64, Seq<usize>)>,
    v: usize,
) -> Seq<Seq<u64>> {
    seq![seq![colors[v as int]]] + signature(v, colors, edges)
}

pub open spec fn vertex_keys(
    colors: Seq<u64>,
    edges: Seq<(u64, Seq<usize>)>,
) -> Seq<Seq<Seq<u64>>> {
    Seq::new(colors.len(), |v: int| vertex_key(colors, edges, v as usize))
}

/// One round: every vertex is recoloured by the rank of its key.
pub open spec fn round(colors: Seq<u64>, edges: Seq<(u64, Seq<usize>)>) -> Seq<u64> {
    ranks::<Vec<Vec<u64>>>(vertex_keys(colors, edges))
}

/// Rounds until one adds no class; the colours are then dense ranks.
pub open spec fn refined(colors: Seq<u64>, edges: Seq<(u64, Seq<usize>)>) -> Seq<u64>
    decreases colors.len() - distinct(colors),
{
    let next = round(colors, edges);
    proof {
        next.lemma_cardinality_of_set();
    }
    if distinct(next) <= distinct(colors) {
        next
    } else {
        refined(next, edges)
    }
}

/// `fine` splits the classes of `coarse` and keeps their order.
pub open spec fn splits(coarse: Seq<u64>, fine: Seq<u64>) -> bool {
    &&& fine.len() == coarse.len()
    &&& forall|u: int, v: int|
        0 <= u < coarse.len() && 0 <= v < coarse.len() && coarse[u] < coarse[v]
            ==> (#[trigger] fine[u]) < (#[trigger] fine[v])
}

/// All colours are below the number of vertices.
pub open spec fn is_dense(colors: Seq<u64>) -> bool {
    forall|v: int| 0 <= v < colors.len() ==> #[trigger] colors[v] < colors.len()
}

proof fn lemma_key_order(colors: Seq<u64>, edges: Seq<(u64, Seq<usize>)>, u: usize, v: usize)
    ensures
        colors[u as int] < colors[v as int] ==> <Vec<Vec<u64>> as Sortable>::before(
            vertex_key(colors, edges, u),
            vertex_key(colors, edges, v),
        ),
        vertex_key(colors, edges, u) == vertex_key(colors, edges, v) ==> colors[u as int] == colors[v as int],
{
    let a = vertex_key(colors, edges, u);
    let b = vertex_key(colors, edges, v);
    assert(a[0] == seq![colors[u as int]]);
    assert(b[0] == seq![colors[v as int]]);
    assert(a[0][0] == colors[u as int]);
    assert(b[0][0] == colors[v as int]);
    if colors[u as int] < colors[v as int] {
        assert(seq_before_at::<u64>(a[0], b[0], 0));
        assert(seq_before_at::<Vec<u64>>(a, b, 0));
    }
}

pub proof fn lemma_round(colors: Seq<u64>, edges: Seq<(u64, Seq<usize>)>)
    requires
        colors.len() <= usize::MAX,
    ensures
        splits(colors, round(colors, edges)),
        is_dense(round(colors, edges)),
        distinct(colors) <= distinct(round(colors, edges)),
        distinct(round(colors, edges)) == distinct(vertex_keys(colors, edges)),
        distinct(round(colors, edges)) <= colors.len(),
{
    let keys = vertex_keys(colors, edges);
    let next = round(colors, edges);
    assert forall|u: int, v: int|
        0 <= u < colors.len() && 0 <= v < colors.len() && colors[u] < colors[v] implies (#[trigger] next[u]) < (
    #[trigger] next[v]) by {
        lemma_key_order(colors, edges, u as usize, v as usize);
        lemma_rank_order::<Vec<Vec<u64>>>(keys, u, v);
    }
    keys.lemma_cardinality_of_set();
    assert forall|v: int| 0 <= v < next.len() implies #[trigger] next[v] < next.len() by {
        lemma_rank_order::<Vec<Vec<u64>>>(keys, v, v);
    }
    lemma_rank_distinct::<Vec<Vec<u64>>>(keys);
    let g = |k: Seq<Seq<u64>>| k[0][0];
    vstd::seq_lib::seq_to_set_is_finite(keys);
    assert(keys.to_set().map(g) =~= colors.to_set()) by {
        assert forall|c: u64| keys.to_set().map(g).contains(c) implies colors.to_set().contains(c) by {
            let k = choose|k: Seq<Seq<u64>>| keys.to_set().contains(k) && g(k) == c;
            let v = choose|v: int| 0 <= v < keys.len() && keys[v] == k;
            assert(keys[v][0][0] == colors[v]);
        }
        assert forall|c: u64| colors.to_set().contains(c) implies keys.to_set().map(g).contains(c) by {
            let v = choose|v: int| 0 <= v < colors.len() && colors[v] == c;
            assert(keys[v][0][0] == colors[v]);
            assert(keys.to_set().contains(keys[v]));
            assert(g(keys[v]) == c);
        }
    }
    vstd::set_lib::lemma_map_size_bound(keys.to_set(), colors.to_set(), g);
}

pub proof fn lemma_splits_transitive(a: Seq<u64>, b: Seq<u64>, c: Seq<u64>)
    requires
        splits(a, b),
        splits(b, c),
    ensures
        splits(a, c),
{
    assert forall|u: int, v: int| 0 <= u < a.len() && 0 <= v < a.len() && a[u] < a[v] implies (#[trigger] c[u]) < (
    #[trigger] c[v]) by {
        assert(b[u] < b[v]);
    }
}

/// Refinement only splits, keeps the order of classes, and ends dense.
pub proof fn lemma_refined(colors: Seq<u64>, edges: Seq<(u64, Seq<usize>)>)
    requires
        colors.len() <= usize::MAX,
    ensures
        splits(colors, refined(colors, edges)),
        is_dense(refined(colors, edges)),
        distinct(colors) <= distinct(refined(colors, edges)),
        distinct(refined(colors, edges)) <= colors.len(),
    decreases colors.len() - distinct(colors),
{
    let next = round(colors, edges);
    lemma_round(colors, edges);
    if distinct(next) > distinct(colors) {
        lemma_refined(next, edges);
        lemma_splits_transitive(colors, next, refined(next, edges));
    }
}

// ---- the search -------------------------------------------------------------------

/// Vertex `v` set apart from its class, just above it.
pub open spec fn individualized(colors: Seq<u64>, v: usize) -> Seq<u64> {
    Seq::new(
        colors.len(),
        |u: int|
            if u == v {
                (2 * colors[u] + 1) as u64
            } else {
                (2 * colors[u]) as u64
            },
    )
}

/// The colouring reached by setting `v` apart and refining.
pub open spec fn child(colors: Seq<u64>, edges: Seq<(u64, Seq<usize>)>, v: usize) -> Seq<u64> {
    refined(individualized(colors, v), edges)
}

/// Two vertices share colour `c`.
pub open spec fn shared(colors: Seq<u64>, c: u64) -> bool {
    exists|u: int, w: int|
        0 <= u < w < colors.len() && #[trigger] colors[u] == c && #[trigger] colors[w] == c
}

/// No two vertices share a colour.
pub open spec fn is_discrete(colors: Seq<u64>) -> bool {
    forall|u: int, w: int| 0 <= u < w < colors.len() ==> #[trigger] colors[u] != #[trigger] colors[w]
}

/// `v` is in the first class that holds more than one vertex.
pub open spec fn in_target(colors: Seq<u64>, v: usize) -> bool {
    &&& v < colors.len()
    &&& shared(colors, colors[v as int])
    &&& forall|c: u64| #[trigger] shared(colors, c) ==> colors[v as int] <= c
}

/// Setting the vertices of `path` apart, one after the other, each in the
/// target class of its turn, ends in a discrete colouring.
pub open spec fn is_descent(
    colors: Seq<u64>,
    edges: Seq<(u64, Seq<usize>)>,
    path: Seq<usize>,
) -> bool
    decreases path.len(),
{
    if path.len() == 0 {
        is_discrete(colors)
    } else {
        in_target(colors, path[0]) && is_descent(child(colors, edges, path[0]), edges, path.drop_first())
    }
}

/// The colouring at the end of `path`.
pub open spec fn end_of(
    colors: Seq<u64>,
    edges: Seq<(u64, Seq<usize>)>,
    path: Seq<usize>,
) -> Seq<u64>
    decreases path.len(),
{
    if path.len() == 0 {
        colors
    } else {
        end_of(child(colors, edges, path[0]), edges, path.drop_first())
    }
}

/// The edges with each vertex replaced by its colour.
pub open spec fn renamed(edges: Seq<(u64, Seq<usize>)>, colors: Seq<u64>) -> Seq<(u64, Seq<u32>)> {
    Seq::new(
        edges.len(),
        |i: int|
            (
                edges[i].0,
                Seq::new(edges[i].1.len(), |j: int| colors[edges[i].1[j] as int] as u32),
            ),
    )
}

/// The edge list that a discrete colouring stands for.
pub open spec fn leaf_edges(colors: Seq<u64>, edges: Seq<(u64, Seq<usize>)>) -> Seq<(u64, Seq<u32>)> {
    sorted::<(u64, Vec<u32>)>(renamed(edges, colors))
}

/// `out` is the edge list of a discrete colouring below `colors`.
pub open spec fn has_leaf(
    colors: Seq<u64>,
    edges: Seq<(u64, Seq<usize>)>,
    out: Seq<(u64, Seq<u32>)>,
) -> bool {
    exists|path: Seq<usize>| #[trigger] leads_to(colors, edges, path, out)
}

pub open spec fn leads_to(
    colors: Seq<u64>,
    edges: Seq<(u64, Seq<usize>)>,
    path: Seq<usize>,
    out: Seq<(u64, Seq<u32>)>,
) -> bool {
    is_descent(colors, edges, path) && leaf_edges(end_of(colors, edges, path), edges) == out
}

/// `out` is the least edge list of all discrete colourings below `colors`.
pub open spec fn is_least_leaf(
    colors: Seq<u64>,
    edges: Seq<(u64, Seq<usize>)>,
    out: Seq<(u64, Seq<u32>)>,
) -> bool {
    &&& has_leaf(colors, edges, out)
    &&& forall|other: Seq<(u64, Seq<u32>)>| #[trigger]
        has_leaf(colors, edges, other) ==> !<Vec<(u64, Vec<u32>)> as Sortable>::before(other, out)
}

/// Below a colouring that is not discrete lie the leaves of its children.
pub proof fn lemma_leaf_step(
    colors: Seq<u64>,
    edges: Seq<(u64, Seq<usize>)>,
    out: Seq<(u64, Seq<u32>)>,
)
    requires
        !is_discrete(colors),
    ensures
        has_leaf(colors, edges, out) <==> exists|v: usize|
            in_target(colors, v) && #[trigger] has_leaf(child(colors, edges, v), edges, out),
{
    if has_leaf(colors, edges, out) {
        let path = choose|path: Seq<usize>| #[trigger] leads_to(colors, edges, path, out);
        let v = path[0];
        assert(leads_to(child(colors, edges, v), edges, path.drop_first(), out));
        assert(has_leaf(child(colors, edges, v), edges, out));
    }
    if exists|v: usize| in_target(colors, v) && #[trigger] has_leaf(child(colors, edges, v), edges, out) {
        let v = choose|v: usize|
            in_target(colors, v) && #[trigger] has_leaf(child(colors, edges, v), edges, out);
        let tail = choose|path: Seq<usize>| #[trigger]
            leads_to(child(colors, edges, v), edges, path, out);
        let path = seq![v] + tail;
        assert(path.drop_first() =~= tail);
        assert(path[0] == v);
        assert(leads_to(colors, edges, path, out));
    }
}

/// The leaf of a discrete colouring is its own edge list.
pub proof fn lemma_leaf_discrete(
    colors: Seq<u64>,
    edges: Seq<(u64, Seq<usize>)>,
    out: Seq<(u64, Seq<u32>)>,
)
    requires
        is_discrete(colors),
    ensures
        has_leaf(colors, edges, out) <==> out == leaf_edges(colors, edges),
{
    if has_leaf(colors, edges, out) {
        let path = choose|path: Seq<usize>| #[trigger] leads_to(colors, edges, path, out);
        if path.len() > 0 {
            assert(in_target(colors, path[0]));
            assert(shared(colors, colors[path[0] as int]));
        }
    }
    if out == leaf_edges(colors, edges) {
        assert(leads_to(colors, edges, Seq::empty(), out));
    }
}

/// Setting a vertex apart from a class of several makes one more class.
pub proof fn lemma_individualized(colors: Seq<u64>, v: usize)
    requires
        v < colors.len(),
        shared(colors, colors[v as int]),
        is_dense(colors),
        2 * colors.len() + 1 <= u64::MAX,
    ensures
        splits(colors, individualized(colors, v)),
        distinct(individualized(colors, v)) == distinct(colors) + 1,
{
    let ind = individualized(colors, v);
    let f = |c: u64| (2 * c) as u64;
    let a = colors.to_set();
    let b = a.map(f);
    let top = (2 * colors[v as int] + 1) as u64;
    assert(colors[v as int] < colors.len());
    vstd::seq_lib::seq_to_set_is_finite(colors);
    assert(vstd::relations::injective_on(f, a)) by {
        assert forall|x1: u64, x2: u64| a.contains(x1) && a.contains(x2) && #[trigger] f(x1) == #[trigger] f(x2) implies x1
            == x2 by {
            let i = choose|i: int| 0 <= i < colors.len() && colors[i] == x1;
            let j = choose|j: int| 0 <= j < colors.len() && colors[j] == x2;
            assert(colors[i] < colors.len());
            assert(colors[j] < colors.len());
        }
    }
    vstd::set_lib::lemma_map_size(a, b, f);
    let (u, w) = choose|u: int, w: int|
        0 <= u < w < colors.len() && #[trigger] colors[u] == colors[v as int] && #[trigger] colors[w]
            == colors[v as int];
    let other = if u == v {
        w
    } else {
        u
    };
    assert(ind.to_set() =~= b.insert(top)) by {
        assert forall|c: u64| ind.to_set().contains(c) implies b.insert(top).contains(c) by {
            let i = choose|i: int| 0 <= i < ind.len() && ind[i] == c;
            if i != v {
                assert(a.contains(colors[i]));
                assert(f(colors[i]) == c);
            }
        }
        assert forall|c: u64| b.insert(top).contains(c) implies ind.to_set().contains(c) by {
            if c == top {
                assert(ind[v as int] == top);
            } else {
                let x = choose|x: u64| a.contains(x) && f(x) == c;
                let i = choose|i: int| 0 <= i < colors.len() && colors[i] == x;
                if i == v {
                    assert(ind[other] == c);
                } else {
                    assert(ind[i] == c);
                }
            }
        }
    }
    assert(!b.contains(top)) by {
        if b.contains(top) {
            let x = choose|x: u64| a.contains(x) && f(x) == top;
            let i = choose|i: int| 0 <= i < colors.len() && colors[i] == x;
            assert(colors[i] < colors.len());
        }
    }
    assert forall|x: int, y: int|
        0 <= x < colors.len() && 0 <= y < colors.len() && colors[x] < colors[y] implies (#[trigger] ind[x]) < (
    #[trigger] ind[y]) by {
        assert(colors[x] < colors.len());
        assert(colors[y] < colors.len());
    }
}

/// A child has more classes than its parent, splits it, and is dense.
pub proof fn lemma_child(colors: Seq<u64>, edges: Seq<(u64, Seq<usize>)>, v: usize)
    requires
        v < colors.len(),
        shared(colors, colors[v as int]),
        is_dense(colors),
        2 * colors.len() + 1 <= u64::MAX,
        colors.len() <= usize::MAX,
    ensures
        splits(colors, child(colors, edges, v)),
        is_dense(child(colors, edges, v)),
        distinct(colors) < distinct(child(colors, edges, v)) <= colors.len(),
{
    lemma_individualized(colors, v);
    lemma_refined(individualized(colors, v), edges);
    lemma_splits_transitive(colors, individualized(colors, v), child(colors, edges, v));
}

/// A colouring that is not discrete has a target class.
pub proof fn lemma_target_exists(colors: Seq<u64>)
    requires
        !is_discrete(colors),
        colors.len() <= usize::MAX,
    ensures
        exists|v: usize| in_target(colors, v),
{
    let (u, w) = choose|u: int, w: int|
        0 <= u < w < colors.len() && #[trigger] colors[u] == #[trigger] colors[w];
    assert(shared(colors, colors[u]));
    lemma_least_shared(colors, colors[u]);
    let c = choose|c: u64|
        shared(colors, c) && (forall|d: u64| #[trigger] shared(colors, d) ==> c <= d);
    let (x, y) = choose|x: int, y: int|
        0 <= x < y < colors.len() && #[trigger] colors[x] == c && #[trigger] colors[y] == c;
    assert(in_target(colors, x as usize));
}

proof fn lemma_least_shared(colors: Seq<u64>, c: u64)
    requires
        shared(colors, c),
    ensures
        exists|l: u64| shared(colors, l) && (forall|d: u64| #[trigger] shared(colors, d) ==> l <= d),
    decreases c,
{
    if exists|d: u64| #[trigger] shared(colors, d) && d < c {
        let d = choose|d: u64| #[trigger] shared(colors, d) && d < c;
        lemma_least_shared(colors, d);
    }
}

/// Every dense colouring has a leaf below it.
pub proof fn lemma_leaf_exists(colors: Seq<u64>, edges: Seq<(u64, Seq<usize>)>)
    requires
        is_dense(colors),
        2 * colors.len() + 1 <= u64::MAX,
        colors.len() <= usize::MAX,
    ensures
        exists|out: Seq<(u64, Seq<u32>)>| has_leaf(colors, edges, out),
    decreases colors.len() - distinct(colors),
{
    if is_discrete(colors) {
        lemma_leaf_discrete(colors, edges, leaf_edges(colors, edges));
    } else {
        lemma_target_exists(colors);
        let v = choose|v: usize| in_target(colors, v);
        lemma_child(colors, edges, v);
        colors.lemma_cardinality_of_set();
        lemma_leaf_exists(child(colors, edges, v), edges);
        let out = choose|out: Seq<(u64, Seq<u32>)>| has_leaf(child(colors, edges, v), edges, out);
        lemma_leaf_step(colors, edges, out);
    }
}

/// The colouring at the end of a descent splits the one at its start.
pub proof fn lemma_end_splits(colors: Seq<u64>, edges: Seq<(u64, Seq<usize>)>, path: Seq<usize>)
    requires
        is_descent(colors, edges, path),
        is_dense(colors),
        2 * colors.len() + 1 <= u64::MAX,
        colors.len() <= usize::MAX,
    ensures
        splits(colors, end_of(colors, edges, path)),
        is_dense(end_of(colors, edges, path)),
        is_discrete(end_of(colors, edges, path)),
    decreases path.len(),
{
    if path.len() > 0 {
        let v = path[0];
        lemma_child(colors, edges, v);
        lemma_end_splits(child(colors, edges, v), edges, path.drop_first());
        lemma_splits_transitive(
            colors,
            child(colors, edges, v),
            end_of(child(colors, edges, v), edges, path.drop_first()),
        );
    }
}

} // verus!
