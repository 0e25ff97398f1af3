//! Isomorphisms of coloured graphs: what they keep, and how a shared edge list
//! gives one back.

use vstd::prelude::*;

use crate::canon::model::{
    child, colors_along, edges_within, entry_of, has_leaf, in_target, individualized, is_dense,
    is_discrete, leads_to, leaf_edges, places, refined, renamed, round, shared, vertex_key,
    vertex_keys,
};
use crate::gather::{gather, lemma_gather_all, lemma_gather_multiset, lemma_gather_same};
use crate::order::{is_permutation, lemma_permutation_covers, lemma_sorted_same_items, Sortable};
use crate::ranks::{distinct, lower};

verus! {

/// An edge list of vertices, each vertex renamed by `p`.
pub open spec fn relabel(verts: Seq<usize>, p: Seq<usize>) -> Seq<usize> {
    Seq::new(verts.len(), |i: int| p[verts[i] as int])
}

pub open spec fn relabel_all(edges: Seq<(u64, Seq<usize>)>, p: Seq<usize>) -> Seq<(u64, Seq<usize>)> {
    Seq::new(edges.len(), |i: int| (edges[i].0, relabel(edges[i].1, p)))
}

/// `p` maps the first coloured graph onto the second: it keeps colours, labels
/// and the order of vertices within edges.
pub open spec fn carries(
    p: Seq<usize>,
    c1: Seq<u64>,
    e1: Seq<(u64, Seq<usize>)>,
    c2: Seq<u64>,
    e2: Seq<(u64, Seq<usize>)>,
) -> bool {
    &&& is_permutation(p, c1.len())
    &&& c2.len() == c1.len()
    &&& c1.len() <= usize::MAX
    &&& edges_within(e1, c1.len())
    &&& forall|v: int| 0 <= v < c1.len() ==> c2[#[trigger] p[v] as int] == c1[v]
    &&& relabel_all(e1, p).to_multiset() == e2.to_multiset()
}

proof fn lemma_places_relabel(verts: Seq<usize>, p: Seq<usize>, v: usize, n: nat)
    requires
        is_permutation(p, n),
        forall|i: int| 0 <= i < verts.len() ==> (#[trigger] verts[i]) < n,
        v < n,
    ensures
        places(relabel(verts, p), p[v as int]) == places(verts, v),
    decreases verts.len(),
{
    if verts.len() > 0 {
        let rest = verts.drop_last();
        assert forall|i: int| 0 <= i < rest.len() implies (#[trigger] rest[i]) < n by {
            assert(verts[i] < n);
        }
        lemma_places_relabel(rest, p, v, n);
        assert(relabel(verts, p).drop_last() =~= relabel(rest, p));
        let l = verts[verts.len() - 1];
        assert(l < n);
        if l < v {
            assert(p[l as int] != p[v as int]);
        } else if v < l {
            assert(p[v as int] != p[l as int]);
        }
    }
}

proof fn lemma_entry_relabel(
    p: Seq<usize>,
    c1: Seq<u64>,
    c2: Seq<u64>,
    e: (u64, Seq<usize>),
    v: usize,
)
    requires
        is_permutation(p, c1.len()),
        forall|u: int| 0 <= u < c1.len() ==> c2[#[trigger] p[u] as int] == c1[u],
        forall|i: int| 0 <= i < e.1.len() ==> (#[trigger] e.1[i]) < c1.len(),
        v < c1.len(),
    ensures
        entry_of(c2, p[v as int])((e.0, relabel(e.1, p))) == entry_of(c1, v)(e),
{
    let r = relabel(e.1, p);
    lemma_places_relabel(e.1, p, v, c1.len());
    assert(colors_along(r, c2) =~= colors_along(e.1, c1)) by {
        assert forall|i: int| 0 <= i < e.1.len() implies c2[r[i] as int] == c1[e.1[i] as int] by {
            let u = e.1[i] as int;
            assert(c2[p[u] as int] == c1[u]);
        }
    }
    if e.1.contains(v) {
        let i = choose|i: int| 0 <= i < e.1.len() && e.1[i] == v;
        assert(r[i] == p[v as int]);
    }
    if r.contains(p[v as int]) {
        let i = choose|i: int| 0 <= i < r.len() && r[i] == p[v as int];
        let u = e.1[i];
        assert(u < c1.len());
        if u < v {
            assert(p[u as int] != p[v as int]);
        } else if v < u {
            assert(p[v as int] != p[u as int]);
        }
        assert(e.1[i] == v);
    }
}

/// An isomorphism keeps the key of every vertex.
proof fn lemma_carries_key(
    p: Seq<usize>,
    c1: Seq<u64>,
    e1: Seq<(u64, Seq<usize>)>,
    c2: Seq<u64>,
    e2: Seq<(u64, Seq<usize>)>,
    v: usize,
)
    requires
        carries(p, c1, e1, c2, e2),
        v < c1.len(),
    ensures
        vertex_key(c2, e2, p[v as int]) == vertex_key(c1, e1, v),
{
    let w = p[v as int];
    let f = entry_of(c1, v);
    let g = entry_of(c2, w);
    let r = relabel_all(e1, p);
    assert forall|i: int| 0 <= i < e1.len() implies f(#[trigger] e1[i]) == g(r[i]) by {
        assert forall|j: int| 0 <= j < e1[i].1.len() implies (#[trigger] e1[i].1[j]) < c1.len() by {}
        lemma_entry_relabel(p, c1, c2, e1[i], v);
    }
    lemma_gather_same(e1, r, f, g);
    lemma_gather_multiset(r, e2, g);
    lemma_sorted_same_items::<Vec<u64>>(gather(r, g), gather(e2, g));
    assert(c2[p[v as int] as int] == c1[v as int]);
}

/// An isomorphism maps one round onto the other.
proof fn lemma_carries_round(
    p: Seq<usize>,
    c1: Seq<u64>,
    e1: Seq<(u64, Seq<usize>)>,
    c2: Seq<u64>,
    e2: Seq<(u64, Seq<usize>)>,
)
    requires
        carries(p, c1, e1, c2, e2),
    ensures
        carries(p, round(c1, e1), e1, round(c2, e2), e2),
        distinct(c1) == distinct(c2),
{
    let k1 = vertex_keys(c1, e1);
    let k2 = vertex_keys(c2, e2);
    let n = c1.len();
    assert forall|v: int| 0 <= v < n implies k2[#[trigger] p[v] as int] == k1[v] by {
        lemma_carries_key(p, c1, e1, c2, e2, v as usize);
    }
    lemma_same_values(p, k1, k2);
    lemma_same_values(p, c1, c2);
    assert forall|v: int| 0 <= v < n implies round(c2, e2)[#[trigger] p[v] as int] == round(c1, e1)[v] by {
        assert(k2[p[v] as int] == k1[v]);
        assert(lower::<Vec<Vec<u64>>>(k1, k1[v]) =~= lower::<Vec<Vec<u64>>>(k2, k1[v]));
    }
}

/// Lists that a permutation maps onto each other hold the same values.
proof fn lemma_same_values<A>(p: Seq<usize>, s: Seq<A>, t: Seq<A>)
    requires
        is_permutation(p, s.len()),
        t.len() == s.len(),
        s.len() <= usize::MAX,
        forall|v: int| 0 <= v < s.len() ==> t[#[trigger] p[v] as int] == s[v],
    ensures
        s.to_set() == t.to_set(),
{
    assert(s.to_set() =~= t.to_set()) by {
        assert forall|x: A| s.to_set().contains(x) implies t.to_set().contains(x) by {
            let v = choose|v: int| 0 <= v < s.len() && s[v] == x;
            assert(t[p[v] as int] == s[v]);
            assert(p[v] < s.len());
        }
        assert forall|x: A| t.to_set().contains(x) implies s.to_set().contains(x) by {
            let w = choose|w: int| 0 <= w < t.len() && t[w] == x;
            lemma_permutation_covers(p, s.len(), w as usize);
            let v = choose|v: int| 0 <= v < p.len() && p[v] == w as usize;
            assert(t[p[v] as int] == s[v]);
        }
    }
}

/// An isomorphism maps one refinement onto the other.
pub proof fn lemma_carries_refined(
    p: Seq<usize>,
    c1: Seq<u64>,
    e1: Seq<(u64, Seq<usize>)>,
    c2: Seq<u64>,
    e2: Seq<(u64, Seq<usize>)>,
)
    requires
        carries(p, c1, e1, c2, e2),
    ensures
        carries(p, refined(c1, e1), e1, refined(c2, e2), e2),
    decreases c1.len() - distinct(c1),
{
    let n1 = round(c1, e1);
    let n2 = round(c2, e2);
    lemma_carries_round(p, c1, e1, c2, e2);
    lemma_carries_round(p, n1, e1, n2, e2);
    n1.lemma_cardinality_of_set();
    if distinct(n1) > distinct(c1) {
        lemma_carries_refined(p, n1, e1, n2, e2);
    }
}

proof fn lemma_carries_child(
    p: Seq<usize>,
    c1: Seq<u64>,
    e1: Seq<(u64, Seq<usize>)>,
    c2: Seq<u64>,
    e2: Seq<(u64, Seq<usize>)>,
    v: usize,
)
    requires
        carries(p, c1, e1, c2, e2),
        v < c1.len(),
    ensures
        carries(p, child(c1, e1, v), e1, child(c2, e2, p[v as int]), e2),
{
    let i1 = individualized(c1, v);
    let i2 = individualized(c2, p[v as int]);
    assert forall|u: int| 0 <= u < c1.len() implies i2[#[trigger] p[u] as int] == i1[u] by {
        assert(c2[p[u] as int] == c1[u]);
        if u < v {
            assert(p[u] != p[v as int]);
        } else if v < u {
            assert(p[v as int] != p[u]);
        }
    }
    lemma_carries_refined(p, i1, e1, i2, e2);
}

proof fn lemma_carries_shared(
    p: Seq<usize>,
    c1: Seq<u64>,
    e1: Seq<(u64, Seq<usize>)>,
    c2: Seq<u64>,
    e2: Seq<(u64, Seq<usize>)>,
    c: u64,
)
    requires
        carries(p, c1, e1, c2, e2),
    ensures
        shared(c1, c) <==> shared(c2, c),
{
    if shared(c1, c) {
        let (u, w) = choose|u: int, w: int|
            0 <= u < w < c1.len() && #[trigger] c1[u] == c && #[trigger] c1[w] == c;
        assert(p[u] != p[w]);
        assert(c2[p[u] as int] == c);
        assert(c2[p[w] as int] == c);
        if p[u] < p[w] {
            assert(shared(c2, c));
        } else {
            assert(shared(c2, c));
        }
    }
    if shared(c2, c) {
        let (u, w) = choose|u: int, w: int|
            0 <= u < w < c2.len() && #[trigger] c2[u] == c && #[trigger] c2[w] == c;
        lemma_permutation_covers(p, c1.len(), u as usize);
        lemma_permutation_covers(p, c1.len(), w as usize);
        let x = choose|x: int| 0 <= x < p.len() && p[x] == u as usize;
        let y = choose|y: int| 0 <= y < p.len() && p[y] == w as usize;
        assert(c2[p[x] as int] == c1[x]);
        assert(c2[p[y] as int] == c1[y]);
        if x < y {
            assert(shared(c1, c));
        } else {
            assert(shared(c1, c));
        }
    }
}

proof fn lemma_carries_target(
    p: Seq<usize>,
    c1: Seq<u64>,
    e1: Seq<(u64, Seq<usize>)>,
    c2: Seq<u64>,
    e2: Seq<(u64, Seq<usize>)>,
)
    requires
        carries(p, c1, e1, c2, e2),
    ensures
        is_discrete(c1) ==> is_discrete(c2),
        forall|v: usize| v < c1.len() && in_target(c1, v) ==> in_target(c2, #[trigger] p[v as int]),
{
    assert forall|c: u64| #[trigger] shared(c1, c) <==> shared(c2, c) by {
        lemma_carries_shared(p, c1, e1, c2, e2, c);
    }
    if is_discrete(c1) {
        assert forall|u: int, w: int| 0 <= u < w < c2.len() implies #[trigger] c2[u] != #[trigger] c2[w] by {
            if c2[u] == c2[w] {
                assert(shared(c2, c2[u]));
                assert(shared(c1, c2[u]));
            }
        }
    }
    assert forall|v: usize| v < c1.len() && in_target(c1, v) implies in_target(c2, #[trigger] p[v as int]) by {
        assert(c2[p[v as int] as int] == c1[v as int]);
        assert forall|c: u64| #[trigger] shared(c2, c) implies c2[p[v as int] as int] <= c by {
            assert(shared(c1, c));
        }
    }
}

/// Discrete colourings that an isomorphism maps onto each other stand for the
/// same edge list.
proof fn lemma_carries_leaf(
    p: Seq<usize>,
    c1: Seq<u64>,
    e1: Seq<(u64, Seq<usize>)>,
    c2: Seq<u64>,
    e2: Seq<(u64, Seq<usize>)>,
)
    requires
        carries(p, c1, e1, c2, e2),
    ensures
        leaf_edges(c1, e1) == leaf_edges(c2, e2),
{
    let r = relabel_all(e1, p);
    assert(renamed(r, c2) =~= renamed(e1, c1)) by {
        assert forall|i: int| 0 <= i < e1.len() implies renamed(r, c2)[i] == renamed(e1, c1)[i] by {
            assert forall|j: int| 0 <= j < e1[i].1.len() implies c2[r[i].1[j] as int] == c1[e1[i].1[j] as int] by {
                let u = e1[i].1[j] as int;
                assert(c2[p[u] as int] == c1[u]);
            }
            assert(renamed(r, c2)[i].1 =~= renamed(e1, c1)[i].1);
        }
    }
    lemma_renamed_multiset(r, e2, c2);
    lemma_sorted_same_items::<(u64, Vec<u32>)>(renamed(r, c2), renamed(e2, c2));
}

/// Renaming keeps the equality of edge multisets.
pub proof fn lemma_renamed_multiset(
    a: Seq<(u64, Seq<usize>)>,
    b: Seq<(u64, Seq<usize>)>,
    colors: Seq<u64>,
)
    requires
        a.to_multiset() == b.to_multiset(),
    ensures
        renamed(a, colors).to_multiset() == renamed(b, colors).to_multiset(),
{
    let f = |e: (u64, Seq<usize>)|
        Some((e.0, Seq::new(e.1.len(), |j: int| colors[e.1[j] as int] as u32)));
    lemma_gather_multiset(a, b, f);
    lemma_gather_all(a, f);
    lemma_gather_all(b, f);
    assert(gather(a, f) =~= renamed(a, colors));
    assert(gather(b, f) =~= renamed(b, colors));
}

/// An isomorphism maps every descent onto one with the same leaf.
pub proof fn lemma_carries_leads(
    p: Seq<usize>,
    c1: Seq<u64>,
    e1: Seq<(u64, Seq<usize>)>,
    c2: Seq<u64>,
    e2: Seq<(u64, Seq<usize>)>,
    path: Seq<usize>,
    out: Seq<(u64, Seq<u32>)>,
)
    requires
        carries(p, c1, e1, c2, e2),
        leads_to(c1, e1, path, out),
    ensures
        has_leaf(c2, e2, out),
    decreases path.len(),
{
    lemma_carries_target(p, c1, e1, c2, e2);
    if path.len() == 0 {
        lemma_carries_leaf(p, c1, e1, c2, e2);
        assert(leads_to(c2, e2, Seq::empty(), out));
    } else {
        let v = path[0];
        let w = p[v as int];
        lemma_carries_child(p, c1, e1, c2, e2, v);
        assert(leads_to(child(c1, e1, v), e1, path.drop_first(), out));
        lemma_carries_leads(p, child(c1, e1, v), e1, child(c2, e2, w), e2, path.drop_first(), out);
        let tail = choose|q: Seq<usize>| #[trigger] leads_to(child(c2, e2, w), e2, q, out);
        let whole = seq![w] + tail;
        assert(whole.drop_first() =~= tail);
        assert(whole[0] == w);
        assert(leads_to(c2, e2, whole, out));
    }
}

/// The leaves of one graph are leaves of any graph that it is mapped onto.
pub proof fn lemma_carries_leaves(
    p: Seq<usize>,
    c1: Seq<u64>,
    e1: Seq<(u64, Seq<usize>)>,
    c2: Seq<u64>,
    e2: Seq<(u64, Seq<usize>)>,
)
    requires
        carries(p, c1, e1, c2, e2),
    ensures
        forall|out: Seq<(u64, Seq<u32>)>| has_leaf(c1, e1, out) ==> #[trigger] has_leaf(c2, e2, out),
{
    assert forall|out: Seq<(u64, Seq<u32>)>| has_leaf(c1, e1, out) implies #[trigger] has_leaf(c2, e2, out) by {
        let path = choose|path: Seq<usize>| #[trigger] leads_to(c1, e1, path, out);
        lemma_carries_leads(p, c1, e1, c2, e2, path, out);
    }
}

// ---- inverse and transpositions --------------------------------------------------

/// The inverse of a permutation.
pub open spec fn inverse(p: Seq<usize>) -> Seq<usize> {
    Seq::new(p.len(), |w: int| (choose|v: int| 0 <= v < p.len() && #[trigger] p[v] == w) as usize)
}

pub proof fn lemma_inverse(p: Seq<usize>, n: nat)
    requires
        is_permutation(p, n),
        n <= usize::MAX,
    ensures
        is_permutation(inverse(p), n),
        forall|v: int| 0 <= v < n ==> inverse(p)[#[trigger] p[v] as int] == v,
        forall|w: int| 0 <= w < n ==> p[#[trigger] inverse(p)[w] as int] == w,
{
    let q = inverse(p);
    assert forall|w: int| 0 <= w < n implies 0 <= #[trigger] q[w] < n && p[q[w] as int] == w by {
        lemma_permutation_covers(p, n, w as usize);
        let i = choose|i: int| 0 <= i < p.len() && p[i] == w as usize;
        assert(p[i] == w);
        let v = choose|v: int| 0 <= v < p.len() && #[trigger] p[v] == w;
        assert(q[w] == v as usize);
    }
    assert forall|w: int, x: int| 0 <= w < x < n implies #[trigger] q[w] != #[trigger] q[x] by {
        assert(p[q[w] as int] == w);
        assert(p[q[x] as int] == x);
    }
    assert forall|v: int| 0 <= v < n implies q[#[trigger] p[v] as int] == v by {
        let w = p[v] as int;
        assert(p[q[w] as int] == w);
        let u = q[w] as int;
        if u < v {
            assert(p[u] != p[v]);
        } else if v < u {
            assert(p[v] != p[u]);
        }
    }
}

/// The exchange of `a` and `b`.
pub open spec fn swapped(n: nat, a: usize, b: usize) -> Seq<usize> {
    Seq::new(
        n,
        |u: int|
            if u == a {
                b
            } else if u == b {
                a
            } else {
                u as usize
            },
    )
}

/// Where exchanging two vertices of one class maps the edges onto themselves,
/// setting either apart leads to the same leaves.
pub proof fn lemma_swap_leaves(colors: Seq<u64>, edges: Seq<(u64, Seq<usize>)>, a: usize, b: usize)
    requires
        a < colors.len(),
        b < colors.len(),
        colors.len() <= usize::MAX,
        colors[a as int] == colors[b as int],
        edges_within(edges, colors.len()),
        relabel_all(edges, swapped(colors.len(), a, b)).to_multiset() == edges.to_multiset(),
    ensures
        forall|out: Seq<(u64, Seq<u32>)>|
            has_leaf(child(colors, edges, b), edges, out) ==> #[trigger] has_leaf(
                child(colors, edges, a),
                edges,
                out,
            ),
{
    let p = swapped(colors.len(), a, b);
    assert(carries(p, colors, edges, colors, edges));
    lemma_carries_child(p, colors, edges, colors, edges, b);
    assert(p[b as int] == a);
    lemma_carries_leaves(p, child(colors, edges, b), edges, child(colors, edges, a), edges);
}

// ---- from equal edge lists back to an isomorphism --------------------------------

/// The renaming of vertices by a discrete, dense colouring, as a permutation.
pub open spec fn as_permutation(leaf: Seq<u64>) -> Seq<usize> {
    Seq::new(leaf.len(), |v: int| leaf[v] as usize)
}

pub proof fn lemma_leaf_permutation(leaf: Seq<u64>)
    requires
        is_dense(leaf),
        is_discrete(leaf),
        leaf.len() <= usize::MAX,
    ensures
        is_permutation(as_permutation(leaf), leaf.len()),
        forall|v: int| 0 <= v < leaf.len() ==> #[trigger] as_permutation(leaf)[v] == leaf[v],
{
    let p = as_permutation(leaf);
    assert forall|v: int| 0 <= v < leaf.len() implies #[trigger] p[v] == leaf[v] by {
        assert(leaf[v] < leaf.len());
    }
    assert forall|i: int, j: int| 0 <= i < j < p.len() implies #[trigger] p[i] != #[trigger] p[j] by {
        assert(leaf[i] != leaf[j]);
        assert(p[i] == leaf[i]);
        assert(p[j] == leaf[j]);
    }
    assert forall|i: int| 0 <= i < p.len() implies 0 <= #[trigger] p[i] < leaf.len() by {
        assert(leaf[i] < leaf.len());
        assert(p[i] == leaf[i]);
    }
}

/// Where two discrete colourings rename two graphs to the same edge list, going
/// down by the first and up by the second maps the edges of the first graph
/// onto those of the second.
pub proof fn lemma_leaf_edges_map(
    l1: Seq<u64>,
    e1: Seq<(u64, Seq<usize>)>,
    l2: Seq<u64>,
    e2: Seq<(u64, Seq<usize>)>,
    p: Seq<usize>,
)
    requires
        l1.len() == l2.len(),
        l1.len() <= usize::MAX,
        l1.len() <= 0x1_0000_0000,
        edges_within(e1, l1.len()),
        edges_within(e2, l2.len()),
        is_dense(l1),
        is_dense(l2),
        is_discrete(l2),
        p.len() == l1.len(),
        forall|v: int| 0 <= v < p.len() ==> (#[trigger] p[v]) < p.len() && l2[p[v] as int] == l1[v],
        leaf_edges(l1, e1) == leaf_edges(l2, e2),
    ensures
        relabel_all(e1, p).to_multiset() == e2.to_multiset(),
{
    let n = l1.len();
    let r1 = renamed(e1, l1);
    let r2 = renamed(e2, l2);
    lemma_sorted_same_items::<(u64, Vec<u32>)>(r1, r2);
    // The way back from colours to the vertices of the second graph.
    let up = |e: (u64, Seq<u32>)|
        Some(
            (
                e.0,
                Seq::new(e.1.len(), |j: int| inverse(as_permutation(l2))[e.1[j] as int]),
            ),
        );
    lemma_leaf_permutation(l2);
    let q = as_permutation(l2);
    lemma_inverse(q, n);
    lemma_gather_multiset(r1, r2, up);
    lemma_gather_all(r1, up);
    lemma_gather_all(r2, up);
    assert(gather(r2, up) =~= e2) by {
        assert forall|i: int| 0 <= i < e2.len() implies gather(r2, up)[i] == e2[i] by {
            let back = up(r2[i])->0;
            assert forall|j: int| 0 <= j < e2[i].1.len() implies back.1[j] == e2[i].1[j] by {
                let v = e2[i].1[j] as int;
                assert(v < n);
                assert(q[v] == l2[v]);
                assert(l2[v] < n);
                assert(inverse(q)[q[v] as int] == v);
            }
            assert(back.1 =~= e2[i].1);
        }
    }
    let m = relabel_all(e1, p);
    assert(gather(r1, up) =~= m) by {
        assert forall|i: int| 0 <= i < e1.len() implies gather(r1, up)[i] == m[i] by {
            let back = up(r1[i])->0;
            assert forall|j: int| 0 <= j < e1[i].1.len() implies back.1[j] == m[i].1[j] by {
                let v = e1[i].1[j] as int;
                assert(v < n);
                assert(l1[v] < n);
                let w = p[v] as int;
                assert(l2[w] == l1[v]);
                assert(q[w] == l2[w]);
                assert(inverse(q)[q[w] as int] == w);
            }
            assert(back.1 =~= m[i].1);
        }
    }
}

} // verus!
