//! Laws of canonical forms.

use vstd::prelude::*;

use crate::canon::iso::{
    as_permutation, carries, inverse, lemma_carries_leaves, lemma_carries_refined, lemma_inverse,
    lemma_leaf_edges_map, lemma_leaf_permutation, relabel, relabel_all,
};
use crate::canon::model::{
    edges_within, end_of, has_leaf, is_dense, leads_to, lemma_end_splits, lemma_refined, refined,
    splits,
};
use crate::canon::{
    certifies, dense_edges, enumerates, is_certificate, seeds, CertificateView, GraphView,
};
use crate::gather::{gather, lemma_gather_all, lemma_gather_multiset};
use crate::order::{
    is_ascending, is_permutation, lemma_ascending_unique, lemma_permutation_covers,
    lemma_permuted_multiset, lemma_sorted, lemma_sorted_same_items, permuted, sorted, Sortable,
};
use crate::ranks::{lemma_rank_order, lower, ranks};

verus! {

/// There are at most 2^32 distinct vertex ids.
pub proof fn lemma_few_vertices(verts: Seq<u32>)
    requires
        verts.no_duplicates(),
    ensures
        verts.len() <= 0x1_0000_0000,
{
    verts.unique_seq_to_set();
    let f = |x: u32| x as int;
    let a = verts.to_set();
    let b = vstd::set_lib::set_int_range(0, 0x1_0000_0000);
    vstd::set_lib::lemma_int_range(0, 0x1_0000_0000);
    vstd::seq_lib::seq_to_set_is_finite(verts);
    vstd::set_lib::lemma_map_size(a, a.map(f), f);
    assert(a.map(f).subset_of(b));
    vstd::set_lib::lemma_len_subset(a.map(f), b);
}

/// Where every edge vertex is coloured, its place in the list of vertices is one.
pub proof fn lemma_dense_within(g: GraphView, verts: Seq<u32>)
    requires
        g.is_covered(),
        enumerates(verts, g.colors.dom()),
        verts.len() <= usize::MAX,
    ensures
        edges_within(dense_edges(g.edges, verts), verts.len()),
        forall|i: int, j: int| #![trigger g.edges[i].1[j]]
            0 <= i < g.edges.len() && 0 <= j < g.edges[i].1.len() ==> {
                let k = dense_edges(g.edges, verts)[i].1[j];
                k < verts.len() && verts[k as int] == g.edges[i].1[j]
            },
{
    assert forall|i: int, j: int| #![trigger g.edges[i].1[j]]
        0 <= i < g.edges.len() && 0 <= j < g.edges[i].1.len() implies {
        let k = dense_edges(g.edges, verts)[i].1[j];
        k < verts.len() && verts[k as int] == g.edges[i].1[j]
    } by {
        let v = g.edges[i].1[j];
        assert(verts.to_set().contains(v));
        assert(verts.contains(v));
    }
    let d = dense_edges(g.edges, verts);
    assert forall|i: int, j: int| 0 <= i < d.len() && 0 <= j < d[i].1.len() implies (#[trigger] d[i].1[j])
        < verts.len() by {
        let v = g.edges[i].1[j];
    }
}

// ---- isomorphism of graphs --------------------------------------------------------

/// The edges with each vertex renamed by `m`.
pub open spec fn rename_edges(edges: Seq<(u64, Seq<u32>)>, m: Map<u32, u32>) -> Seq<(u64, Seq<u32>)> {
    Seq::new(
        edges.len(),
        |i: int| (edges[i].0, Seq::new(edges[i].1.len(), |j: int| m[edges[i].1[j]])),
    )
}

/// `m` is a bijection from the vertices of `g` to those of `h` that keeps seed
/// colours, edge labels and the order of vertices within edges.
pub open spec fn is_isomorphism(m: Map<u32, u32>, g: GraphView, h: GraphView) -> bool {
    &&& m.dom() == g.colors.dom()
    &&& m.is_injective()
    &&& m.values() == h.colors.dom()
    &&& forall|v: u32| #[trigger] g.colors.contains_key(v) ==> h.colors[m[v]] == g.colors[v]
    &&& rename_edges(g.edges, m).to_multiset() == h.edges.to_multiset()
}

/// There is an isomorphism from `g` to `h`.
pub open spec fn isomorphic(g: GraphView, h: GraphView) -> bool {
    exists|m: Map<u32, u32>| is_isomorphism(m, g, h)
}

proof fn lemma_carries_inverse(
    p: Seq<usize>,
    c1: Seq<u64>,
    e1: Seq<(u64, Seq<usize>)>,
    c2: Seq<u64>,
    e2: Seq<(u64, Seq<usize>)>,
)
    requires
        carries(p, c1, e1, c2, e2),
        edges_within(e2, c2.len()),
    ensures
        carries(inverse(p), c2, e2, c1, e1),
{
    let n = c1.len();
    let q = inverse(p);
    lemma_inverse(p, n);
    let f = |e: (u64, Seq<usize>)| Some((e.0, relabel(e.1, q)));
    let r = relabel_all(e1, p);
    lemma_gather_multiset(r, e2, f);
    lemma_gather_all(r, f);
    lemma_gather_all(e2, f);
    assert(gather(e2, f) =~= relabel_all(e2, q));
    assert(gather(r, f) =~= e1) by {
        assert forall|i: int| 0 <= i < e1.len() implies gather(r, f)[i] == e1[i] by {
            assert forall|j: int| 0 <= j < e1[i].1.len() implies relabel(r[i].1, q)[j] == e1[i].1[j] by {
                let v = e1[i].1[j] as int;
                assert(v < n);
                assert(q[p[v] as int] == v);
            }
            assert(relabel(r[i].1, q) =~= e1[i].1);
        }
    }
    assert forall|w: int| 0 <= w < n implies c1[#[trigger] q[w] as int] == c2[w] by {
        assert(p[q[w] as int] == w);
        assert(c2[p[q[w] as int] as int] == c1[q[w] as int]);
    }
}

/// An isomorphism of graphs, as a map of places.
proof fn lemma_iso_carries(
    m: Map<u32, u32>,
    g: GraphView,
    h: GraphView,
    vg: Seq<u32>,
    vh: Seq<u32>,
) -> (p: Seq<usize>)
    requires
        is_isomorphism(m, g, h),
        g.is_covered(),
        h.is_covered(),
        enumerates(vg, g.colors.dom()),
        enumerates(vh, h.colors.dom()),
        vg.len() <= usize::MAX,
        vh.len() <= usize::MAX,
    ensures
        vg.len() == vh.len(),
        sorted::<(u64, u64)>(seeds(vg, g.colors)) == sorted::<(u64, u64)>(seeds(vh, h.colors)),
        carries(
            p,
            ranks::<(u64, u64)>(seeds(vg, g.colors)),
            dense_edges(g.edges, vg),
            ranks::<(u64, u64)>(seeds(vh, h.colors)),
            dense_edges(h.edges, vh),
        ),
{
    let n = vg.len();
    let sg = seeds(vg, g.colors);
    let sh = seeds(vh, h.colors);
    let dg = dense_edges(g.edges, vg);
    let dh = dense_edges(h.edges, vh);
    vg.unique_seq_to_set();
    vh.unique_seq_to_set();
    // The two vertex sets have the same size.
    let f = |v: u32| m[v];
    vstd::seq_lib::seq_to_set_is_finite(vg);
    assert(m.values() =~= m.dom().map(f)) by {
        assert forall|w: u32| m.values().contains(w) implies m.dom().map(f).contains(w) by {
            let v = choose|v: u32| m.dom().contains(v) && m[v] == w;
            assert(f(v) == w);
        }
        assert forall|w: u32| m.dom().map(f).contains(w) implies m.values().contains(w) by {
            let v = choose|v: u32| m.dom().contains(v) && f(v) == w;
            assert(m.contains_key(v) && m[v] == w);
        }
    }
    vstd::set_lib::lemma_map_size(m.dom(), m.values(), f);
    let p = Seq::new(n, |v: int| vh.index_of(m[vg[v]]) as usize);
    assert forall|v: int| 0 <= v < n implies (#[trigger] p[v]) < n && vh[p[v] as int] == m[vg[v]] by {
        assert(vg.to_set().contains(vg[v]));
        assert(m.contains_key(vg[v]));
        assert(m.values().contains(m[vg[v]]));
        assert(vh.to_set().contains(m[vg[v]]));
    }
    assert forall|i: int, j: int| 0 <= i < j < n implies #[trigger] p[i] != #[trigger] p[j] by {
        assert(vg[i] != vg[j]);
        assert(vg.to_set().contains(vg[i]) && vg.to_set().contains(vg[j]));
        assert(vh[p[i] as int] == m[vg[i]]);
        assert(vh[p[j] as int] == m[vg[j]]);
    }
    assert(is_permutation(p, n));
    assert forall|v: int| 0 <= v < n implies sh[#[trigger] p[v] as int] == sg[v] by {
        assert(vg.to_set().contains(vg[v]));
        assert(vh[p[v] as int] == m[vg[v]]);
        assert(g.colors.contains_key(vg[v]));
    }
    assert(permuted(sh, p) =~= sg);
    lemma_permuted_multiset(sh, p);
    lemma_sorted_same_items::<(u64, u64)>(sg, sh);
    assert(sg.to_set() =~= sh.to_set()) by {
        broadcast use vstd::seq_lib::group_to_multiset_ensures;

        assert forall|x: (u64, u64)| sg.to_set().contains(x) <==> sh.to_set().contains(x) by {
            assert(sg.contains(x) <==> sg.to_multiset().contains(x));
            assert(sh.contains(x) <==> sh.to_multiset().contains(x));
        }
    }
    assert forall|v: int| 0 <= v < n implies ranks::<(u64, u64)>(sh)[#[trigger] p[v] as int] == ranks::<
        (u64, u64),
    >(sg)[v] by {
        assert(sh[p[v] as int] == sg[v]);
        assert(lower::<(u64, u64)>(sg, sg[v]) =~= lower::<(u64, u64)>(sh, sg[v]));
    }
    lemma_dense_within(g, vg);
    lemma_dense_within(h, vh);
    let d = |e: (u64, Seq<u32>)|
        Some((e.0, Seq::new(e.1.len(), |j: int| vh.index_of(e.1[j]) as usize)));
    let rg = rename_edges(g.edges, m);
    lemma_gather_multiset(rg, h.edges, d);
    lemma_gather_all(rg, d);
    lemma_gather_all(h.edges, d);
    assert(gather(h.edges, d) =~= dh);
    assert(gather(rg, d) =~= relabel_all(dg, p)) by {
        assert forall|i: int| 0 <= i < g.edges.len() implies gather(rg, d)[i] == relabel_all(dg, p)[i] by {
            let a = (d(rg[i])->0).1;
            let b = relabel(dg[i].1, p);
            assert forall|j: int| 0 <= j < g.edges[i].1.len() implies a[j] == b[j] by {
                let v = g.edges[i].1[j];
                let k = dg[i].1[j];
                assert(k < n && vg[k as int] == v);
                assert(p[k as int] == vh.index_of(m[vg[k as int]]) as usize);
            }
            assert(a =~= b);
        }
    }
    p
}

/// Isomorphic graphs have the same certificate.
pub proof fn isomorphic_graphs_share_a_certificate(
    g: GraphView,
    h: GraphView,
    cg: CertificateView,
    ch: CertificateView,
)
    requires
        g.is_covered(),
        h.is_covered(),
        g.colors.dom().finite(),
        g.colors.dom().len() <= usize::MAX,
        is_certificate(g, cg),
        is_certificate(h, ch),
        isomorphic(g, h),
    ensures
        cg == ch,
{
    let m = choose|m: Map<u32, u32>| is_isomorphism(m, g, h);
    let f = |v: u32| m[v];
    assert(m.values() =~= m.dom().map(f)) by {
        assert forall|w: u32| m.values().contains(w) implies m.dom().map(f).contains(w) by {
            let v = choose|v: u32| m.dom().contains(v) && m[v] == w;
            assert(f(v) == w);
        }
        assert forall|w: u32| m.dom().map(f).contains(w) implies m.values().contains(w) by {
            let v = choose|v: u32| m.dom().contains(v) && f(v) == w;
            assert(m.contains_key(v) && m[v] == w);
        }
    }
    vstd::set_lib::lemma_map_size(m.dom(), m.values(), f);
    if g.colors.dom().len() == 0 {
        assert(cg.colors =~= ch.colors);
        assert(cg.edges =~= ch.edges);
    } else {
        let vg = choose|vg: Seq<u32>| enumerates(vg, g.colors.dom()) && #[trigger] certifies(g, vg, cg);
        let vh = choose|vh: Seq<u32>| enumerates(vh, h.colors.dom()) && #[trigger] certifies(h, vh, ch);
        vg.unique_seq_to_set();
        vh.unique_seq_to_set();
        let p = lemma_iso_carries(m, g, h, vg, vh);
        let c1 = ranks::<(u64, u64)>(seeds(vg, g.colors));
        let c2 = ranks::<(u64, u64)>(seeds(vh, h.colors));
        let e1 = dense_edges(g.edges, vg);
        let e2 = dense_edges(h.edges, vh);
        lemma_dense_within(h, vh);
        lemma_carries_inverse(p, c1, e1, c2, e2);
        lemma_carries_refined(p, c1, e1, c2, e2);
        lemma_carries_refined(inverse(p), c2, e2, c1, e1);
        let s1 = refined(c1, e1);
        let s2 = refined(c2, e2);
        lemma_carries_leaves(p, s1, e1, s2, e2);
        lemma_carries_leaves(inverse(p), s2, e2, s1, e1);
        <Vec<(u64, Vec<u32>)> as Sortable>::before_total(cg.edges, ch.edges);
        assert(has_leaf(s2, e2, cg.edges));
        assert(has_leaf(s1, e1, ch.edges));
    }
}

/// The seed colour of a vertex stands, in the sorted seed colours, at the place
/// that a leaf gives the vertex.
proof fn lemma_leaf_seed(seed: Seq<(u64, u64)>, leaf: Seq<u64>, v: int)
    requires
        seed.len() <= usize::MAX,
        splits(ranks::<(u64, u64)>(seed), leaf),
        is_dense(leaf),
        crate::canon::model::is_discrete(leaf),
        0 <= v < seed.len(),
    ensures
        leaf[v] < seed.len(),
        sorted::<(u64, u64)>(seed)[leaf[v] as int] == seed[v],
{
    let n = seed.len();
    let r = ranks::<(u64, u64)>(seed);
    let p = as_permutation(leaf);
    lemma_leaf_permutation(leaf);
    let q = inverse(p);
    lemma_inverse(p, n);
    let line = permuted(seed, q);
    lemma_permuted_multiset(seed, q);
    assert(is_ascending::<(u64, u64)>(line)) by {
        assert forall|i: int, j: int| 0 <= i < j < n implies !<(u64, u64) as Sortable>::before(
            #[trigger] line[j],
            #[trigger] line[i],
        ) by {
            let a = q[i] as int;
            let b = q[j] as int;
            assert(p[a] == i && p[b] == j);
            assert(leaf[a] == i && leaf[b] == j);
            lemma_rank_order::<(u64, u64)>(seed, b, a);
            if <(u64, u64) as Sortable>::before(seed[b], seed[a]) {
                assert(r[b] < r[a]);
                assert(leaf[b] < leaf[a]);
            }
        }
    }
    lemma_sorted::<(u64, u64)>(seed);
    lemma_ascending_unique::<(u64, u64)>(line, sorted::<(u64, u64)>(seed));
    assert(p[v] == leaf[v]);
    assert(q[p[v] as int] == v);
}

proof fn lemma_shared_certificate_maps(g: GraphView, h: GraphView, cert: CertificateView)
    requires
        g.is_covered(),
        h.is_covered(),
        g.colors.dom().finite(),
        h.colors.dom().finite(),
        0 < g.colors.dom().len() <= usize::MAX,
        0 < h.colors.dom().len() <= usize::MAX,
        is_certificate(g, cert),
        is_certificate(h, cert),
    ensures
        isomorphic(g, h),
{
    let vg = choose|vg: Seq<u32>| enumerates(vg, g.colors.dom()) && #[trigger] certifies(g, vg, cert);
    let vh = choose|vh: Seq<u32>| enumerates(vh, h.colors.dom()) && #[trigger] certifies(h, vh, cert);
    vg.unique_seq_to_set();
    vh.unique_seq_to_set();
    lemma_few_vertices(vg);
    lemma_few_vertices(vh);
    let n = vg.len();
    let sg = seeds(vg, g.colors);
    let sh = seeds(vh, h.colors);
    lemma_sorted::<(u64, u64)>(sg);
    lemma_sorted::<(u64, u64)>(sh);
    assert(vh.len() == n);
    let e1 = dense_edges(g.edges, vg);
    let e2 = dense_edges(h.edges, vh);
    lemma_dense_within(g, vg);
    lemma_dense_within(h, vh);
    let c1 = ranks::<(u64, u64)>(sg);
    let c2 = ranks::<(u64, u64)>(sh);
    let s1 = refined(c1, e1);
    let s2 = refined(c2, e2);
    lemma_refined(c1, e1);
    lemma_refined(c2, e2);
    let path1 = choose|path: Seq<usize>| #[trigger] leads_to(s1, e1, path, cert.edges);
    let path2 = choose|path: Seq<usize>| #[trigger] leads_to(s2, e2, path, cert.edges);
    let l1 = end_of(s1, e1, path1);
    let l2 = end_of(s2, e2, path2);
    lemma_end_splits(s1, e1, path1);
    lemma_end_splits(s2, e2, path2);
    crate::canon::model::lemma_splits_transitive(c1, s1, l1);
    crate::canon::model::lemma_splits_transitive(c2, s2, l2);
    lemma_leaf_permutation(l1);
    lemma_leaf_permutation(l2);
    let q = as_permutation(l2);
    lemma_inverse(q, n);
    let p = Seq::new(n, |v: int| inverse(q)[l1[v] as int]);
    assert forall|v: int| 0 <= v < n implies (#[trigger] p[v]) < n && l2[p[v] as int] == l1[v] by {
        assert(l1[v] < n);
        let w = inverse(q)[l1[v] as int] as int;
        assert(q[w] == l1[v]);
        assert(q[w] == l2[w]);
    }
    assert forall|i: int, j: int| 0 <= i < j < n implies #[trigger] p[i] != #[trigger] p[j] by {
        assert(l2[p[i] as int] == l1[i]);
        assert(l2[p[j] as int] == l1[j]);
        assert(l1[i] != l1[j]);
    }
    lemma_leaf_edges_map(l1, e1, l2, e2, p);
    assert forall|v: int| 0 <= v < n implies sh[#[trigger] p[v] as int] == sg[v] by {
        lemma_leaf_seed(sg, l1, v);
        lemma_leaf_seed(sh, l2, p[v] as int);
        assert(l2[p[v] as int] == l1[v]);
    }
    // The map of places, as a map of vertices.
    let m = Map::<u32, u32>::new(
        |x: u32| g.colors.contains_key(x),
        |x: u32| vh[p[vg.index_of(x)] as int],
    );
    assert(m.dom() =~= g.colors.dom());
    assert forall|x: u32| #[trigger] g.colors.contains_key(x) implies {
        let k = vg.index_of(x);
        &&& 0 <= k < n
        &&& vg[k] == x
        &&& m[x] == vh[p[k] as int]
        &&& h.colors.contains_key(m[x])
        &&& h.colors[m[x]] == g.colors[x]
    } by {
        assert(vg.to_set().contains(x));
        assert(vg.contains(x));
        let k = vg.index_of(x);
        assert(vg[k] == x);
        assert(p[k] < n);
        assert(vh.to_set().contains(vh[p[k] as int]));
        assert(sh[p[k] as int] == sg[k]);
    }
    assert(m.is_injective()) by {
        assert forall|x: u32, y: u32| x != y && m.contains_key(x) && m.contains_key(y) implies #[trigger] m[x]
            != #[trigger] m[y] by {
            assert(g.colors.contains_key(x) && g.colors.contains_key(y));
            let a = vg.index_of(x);
            let b = vg.index_of(y);
            assert(vg[a] == x && vg[b] == y);
            if a < b {
                assert(p[a] != p[b]);
            } else {
                assert(p[b] != p[a]);
            }
            assert(p[a] < n && p[b] < n);
        }
    }
    assert(m.values() =~= h.colors.dom()) by {
        assert forall|w: u32| h.colors.dom().contains(w) implies m.values().contains(w) by {
            assert(vh.to_set().contains(w));
            let b = vh.index_of(w);
            assert(vh.contains(w));
            assert(vh[b] == w);
            lemma_permutation_covers(p, n, b as usize);
            let a = choose|a: int| 0 <= a < p.len() && p[a] == b as usize;
            let x = vg[a];
            assert(vg.to_set().contains(x));
            assert(g.colors.contains_key(x));
            assert(vg.index_of(x) == a) by {
                assert(vg.contains(x));
            }
            assert(m.contains_key(x) && m[x] == w);
        }
        assert forall|w: u32| m.values().contains(w) implies h.colors.dom().contains(w) by {
            let x = choose|x: u32| m.dom().contains(x) && m[x] == w;
            assert(g.colors.contains_key(x));
        }
    }
    let up = |e: (u64, Seq<usize>)| Some((e.0, Seq::new(e.1.len(), |j: int| vh[e.1[j] as int])));
    let moved = relabel_all(e1, p);
    lemma_gather_multiset(moved, e2, up);
    lemma_gather_all(moved, up);
    lemma_gather_all(e2, up);
    assert(gather(e2, up) =~= h.edges) by {
        assert forall|i: int| 0 <= i < h.edges.len() implies gather(e2, up)[i] == h.edges[i] by {
            let a = (up(e2[i])->0).1;
            assert forall|j: int| 0 <= j < h.edges[i].1.len() implies a[j] == h.edges[i].1[j] by {
                let v = h.edges[i].1[j];
            }
            assert(a =~= h.edges[i].1);
        }
    }
    assert(gather(moved, up) =~= rename_edges(g.edges, m)) by {
        assert forall|i: int| 0 <= i < g.edges.len() implies gather(moved, up)[i] == rename_edges(g.edges, m)[i] by {
            let a = (up(moved[i])->0).1;
            let b = rename_edges(g.edges, m)[i].1;
            assert forall|j: int| 0 <= j < g.edges[i].1.len() implies a[j] == b[j] by {
                let v = g.edges[i].1[j];
                assert(g.colors.contains_key(v));
                let k = e1[i].1[j];
                assert(k < n && vg[k as int] == v);
                assert(vg.index_of(v) == k) by {
                    assert(vg.contains(v));
                }
            }
            assert(a =~= b);
        }
    }
    assert(is_isomorphism(m, g, h));
}

/// Graphs with the same certificate are isomorphic. A graph without vertices
/// shares the empty certificate with every other, so its edges, which can only
/// be edges without vertices, are left out.
pub proof fn graphs_that_share_a_certificate_are_isomorphic(
    g: GraphView,
    h: GraphView,
    cert: CertificateView,
)
    requires
        g.is_covered(),
        h.is_covered(),
        g.colors.dom().finite(),
        h.colors.dom().finite(),
        g.colors.dom().len() <= usize::MAX,
        h.colors.dom().len() <= usize::MAX,
        g.colors.dom().len() == 0 ==> g.edges.len() == 0,
        h.colors.dom().len() == 0 ==> h.edges.len() == 0,
        is_certificate(g, cert),
        is_certificate(h, cert),
    ensures
        isomorphic(g, h),
{
    if g.colors.dom().len() == 0 || h.colors.dom().len() == 0 {
        lemma_empty_certificate(g, cert);
        lemma_empty_certificate(h, cert);
        let m = Map::<u32, u32>::empty();
        assert(g.colors.dom() =~= Set::empty());
        assert(h.colors.dom() =~= Set::empty());
        assert(m.values() =~= h.colors.dom());
        assert(rename_edges(g.edges, m) =~= h.edges);
        assert(m.is_injective());
        assert(is_isomorphism(m, g, h));
    } else {
        lemma_shared_certificate_maps(g, h, cert);
    }
}

/// Only a graph without vertices has a certificate without colours.
proof fn lemma_empty_certificate(g: GraphView, cert: CertificateView)
    requires
        is_certificate(g, cert),
        g.colors.dom().finite(),
    ensures
        cert.colors.len() == g.colors.dom().len(),
{
    if g.colors.dom().len() > 0 {
        let vg = choose|vg: Seq<u32>| enumerates(vg, g.colors.dom()) && #[trigger] certifies(g, vg, cert);
        vg.unique_seq_to_set();
        lemma_sorted::<(u64, u64)>(seeds(vg, g.colors));
    }
}

/// Two graphs have the same certificate exactly where they are isomorphic as
/// typed, coloured hypergraphs. Left out are graphs that hold edges but no
/// vertices: they share the empty certificate.
pub proof fn certificate_names_isomorphism_class(
    g: GraphView,
    h: GraphView,
    cg: CertificateView,
    ch: CertificateView,
)
    requires
        g.is_covered(),
        h.is_covered(),
        g.colors.dom().finite(),
        h.colors.dom().finite(),
        g.colors.dom().len() <= usize::MAX,
        h.colors.dom().len() <= usize::MAX,
        g.colors.dom().len() == 0 ==> g.edges.len() == 0,
        h.colors.dom().len() == 0 ==> h.edges.len() == 0,
        is_certificate(g, cg),
        is_certificate(h, ch),
    ensures
        cg == ch <==> isomorphic(g, h),
{
    if isomorphic(g, h) {
        isomorphic_graphs_share_a_certificate(g, h, cg, ch);
    }
    if cg == ch {
        graphs_that_share_a_certificate_are_isomorphic(g, h, cg);
    }
}

/// A graph has one certificate.
pub proof fn certificate_is_unique(g: GraphView, a: CertificateView, b: CertificateView)
    requires
        g.is_covered(),
        g.colors.dom().finite(),
        g.colors.dom().len() <= usize::MAX,
        is_certificate(g, a),
        is_certificate(g, b),
    ensures
        a == b,
{
    let m = Map::<u32, u32>::new(|x: u32| g.colors.contains_key(x), |x: u32| x);
    assert(m.dom() =~= g.colors.dom());
    assert(m.values() =~= g.colors.dom()) by {
        assert forall|w: u32| g.colors.dom().contains(w) implies m.values().contains(w) by {
            assert(m.contains_key(w) && m[w] == w);
        }
    }
    assert(rename_edges(g.edges, m) =~= g.edges) by {
        assert forall|i: int| 0 <= i < g.edges.len() implies rename_edges(g.edges, m)[i] == g.edges[i] by {
            assert forall|j: int| 0 <= j < g.edges[i].1.len() implies m[g.edges[i].1[j]] == g.edges[i].1[j] by {
                assert(g.colors.contains_key(g.edges[i].1[j]));
            }
            assert(rename_edges(g.edges, m)[i].1 =~= g.edges[i].1);
        }
    }
    assert(is_isomorphism(m, g, g));
    isomorphic_graphs_share_a_certificate(g, g, a, b);
}

/// The colours of a certificate are the sorted seed colours of the graph.
pub proof fn certificate_colors_are_sorted_seeds(g: GraphView, cert: CertificateView, verts: Seq<u32>)
    requires
        g.is_covered(),
        g.colors.dom().finite(),
        is_certificate(g, cert),
        enumerates(verts, g.colors.dom()),
    ensures
        cert.colors == sorted::<(u64, u64)>(seeds(verts, g.colors)),
{
    lemma_empty_certificate(g, cert);
    let sv = seeds(verts, g.colors);
    lemma_sorted::<(u64, u64)>(sv);
    verts.unique_seq_to_set();
    if g.colors.dom().len() == 0 {
        assert(sorted::<(u64, u64)>(sv) =~= cert.colors);
    } else {
        let vg = choose|vg: Seq<u32>| enumerates(vg, g.colors.dom()) && #[trigger] certifies(g, vg, cert);
        vg.unique_seq_to_set();
        lemma_seeds_multiset(vg, verts, g.colors);
        lemma_sorted_same_items::<(u64, u64)>(seeds(vg, g.colors), sv);
    }
}

proof fn lemma_seeds_multiset(a: Seq<u32>, b: Seq<u32>, colors: Map<u32, (u64, u64)>)
    requires
        a.no_duplicates(),
        b.no_duplicates(),
        a.to_set() == b.to_set(),
    ensures
        seeds(a, colors).to_multiset() == seeds(b, colors).to_multiset(),
{
    a.lemma_multiset_has_no_duplicates();
    b.lemma_multiset_has_no_duplicates();
    assert(a.to_multiset() =~= b.to_multiset()) by {
        broadcast use vstd::seq_lib::group_to_multiset_ensures;

        assert forall|x: u32| a.to_multiset().count(x) == b.to_multiset().count(x) by {
            assert(a.to_set().contains(x) <==> a.contains(x));
            assert(b.to_set().contains(x) <==> b.contains(x));
            assert(a.contains(x) <==> a.to_multiset().count(x) > 0);
            assert(b.contains(x) <==> b.to_multiset().count(x) > 0);
        }
    }
    let f = |v: u32| Some(colors[v]);
    lemma_gather_multiset(a, b, f);
    lemma_gather_all(a, f);
    lemma_gather_all(b, f);
    assert(gather(a, f) =~= seeds(a, colors));
    assert(gather(b, f) =~= seeds(b, colors));
}

} // verus!
