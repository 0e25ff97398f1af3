//! Canonical forms of typed, vertex-coloured hypergraphs, by individualization
//! and refinement.
//!
//! Vertices are coloured by an isomorphism-invariant signature until the
//! partition is stable. Where a class of several vertices is left, each of them
//! (one per orbit, as far as exchanges of two vertices show orbits) is set apart
//! in turn; the least edge list over all outcomes is the canonical one.

pub mod hash;
pub mod iso;
pub mod laws;
pub mod model;
pub mod search;
pub mod stable;

pub use crate::canon::hash::{certificate_hash, fnv1a64};

use std::collections::BTreeMap;

use vstd::prelude::*;

use crate::canon::model::{is_least_leaf, lemma_refined, refined};
use crate::canon::search::{canon_search, incidence, refine};
use crate::order::{sort_keys, sorted};
use crate::ranks::{rank_all, ranks};

verus! {

/// A caller's vertex id. Ids need not be contiguous.
pub type Vertex = u32;

/// The label of an edge type.
pub type Label = u64;

/// A vertex's seed colour: a class, then a kind. Colours compare in that order.
pub type Color = (u64, u64);

/// A labelled hyperedge with an ordered list of vertices.
#[derive(Debug, Clone, PartialEq, Eq, PartialOrd, Ord)]
pub struct TypedEdge {
    pub label: Label,
    pub verts: Vec<Vertex>,
}

/// A typed, vertex-coloured hypergraph. `colors` is the set of vertices with
/// their seed colours; a vertex without edges is legal.
#[derive(Debug, Clone, Default)]
pub struct TypedGraph {
    pub edges: Vec<TypedEdge>,
    pub colors: BTreeMap<Vertex, Color>,
}

/// A canonical form: the sorted seed colours, and the edges over the canonical
/// vertices `0..n`.
#[derive(Debug, Clone, Default, PartialEq, Eq, PartialOrd, Ord)]
pub struct Certificate {
    pub colors: Vec<Color>,
    pub edges: Vec<(Label, Vec<u32>)>,
}

/// A graph as mathematical values.
pub struct GraphView {
    pub edges: Seq<(u64, Seq<u32>)>,
    pub colors: Map<u32, (u64, u64)>,
}

/// A certificate as mathematical values.
pub struct CertificateView {
    pub colors: Seq<(u64, u64)>,
    pub edges: Seq<(u64, Seq<u32>)>,
}

impl View for TypedGraph {
    type V = GraphView;

    open spec fn view(&self) -> GraphView {
        GraphView {
            edges: Seq::new(
                self.edges@.len(),
                |i: int| (self.edges@[i].label, self.edges@[i].verts@),
            ),
            colors: self.colors@,
        }
    }
}

impl View for Certificate {
    type V = CertificateView;

    open spec fn view(&self) -> CertificateView {
        CertificateView { colors: self.colors@, edges: self.edges.deep_view() }
    }
}

impl GraphView {
    /// Every vertex of every edge has a seed colour.
    pub open spec fn is_covered(self) -> bool {
        forall|i: int, j: int|
            0 <= i < self.edges.len() && 0 <= j < self.edges[i].1.len()
                ==> self.colors.contains_key(#[trigger] self.edges[i].1[j])
    }
}

/// `verts` lists the members of `dom`, each once.
pub open spec fn enumerates(verts: Seq<u32>, dom: Set<u32>) -> bool {
    verts.no_duplicates() && verts.to_set() == dom
}

/// The seed colours along a list of vertices.
pub open spec fn seeds(verts: Seq<u32>, colors: Map<u32, (u64, u64)>) -> Seq<(u64, u64)> {
    Seq::new(verts.len(), |i: int| colors[verts[i]])
}

/// The edges with each vertex replaced by its place in `verts`.
pub open spec fn dense_edges(
    edges: Seq<(u64, Seq<u32>)>,
    verts: Seq<u32>,
) -> Seq<(u64, Seq<usize>)> {
    Seq::new(
        edges.len(),
        |i: int|
            (
                edges[i].0,
                Seq::new(edges[i].1.len(), |j: int| verts.index_of(edges[i].1[j]) as usize),
            ),
    )
}

/// The stable partition that refinement makes of the seed colours.
pub open spec fn stable_start(g: GraphView, verts: Seq<u32>) -> Seq<u64> {
    refined(ranks::<(u64, u64)>(seeds(verts, g.colors)), dense_edges(g.edges, verts))
}

/// With the vertices taken in the order `verts`, `cert` holds the sorted seed
/// colours and the least edge list of all discrete colourings below the stable
/// partition.
pub open spec fn certifies(g: GraphView, verts: Seq<u32>, cert: CertificateView) -> bool {
    &&& cert.colors == sorted::<(u64, u64)>(seeds(verts, g.colors))
    &&& is_least_leaf(stable_start(g, verts), dense_edges(g.edges, verts), cert.edges)
}

/// `cert` is the canonical form of `g`. A graph without vertices has the empty
/// one.
pub open spec fn is_certificate(g: GraphView, cert: CertificateView) -> bool {
    if g.colors.dom().len() == 0 {
        cert.colors == Seq::<(u64, u64)>::empty() && cert.edges == Seq::<(u64, Seq<u32>)>::empty()
    } else {
        exists|verts: Seq<u32>|
            enumerates(verts, g.colors.dom()) && #[trigger] certifies(g, verts, cert)
    }
}

/// The vertices of a graph.
fn vertex_list(g: &TypedGraph) -> (verts: Vec<Vertex>)
    ensures
        enumerates(verts@, g.colors@.dom()),
        verts.len() <= 0x1_0000_0000,
{
    let mut verts: Vec<Vertex> = Vec::new();
    let ghost all = vstd::std_specs::iter::IteratorSpec::remaining(&g.colors.keys());
    for v in it: g.colors.keys()
        invariant
            it.seq() == all,
            verts@ == all.unref().take(it.index() as int),
    {
        verts.push(*v);
        assert(verts@ =~= all.unref().take(it.index() + 1));
    }
    assert(verts@ =~= all.unref());
    assert(verts@.no_duplicates()) by {
        assert forall|i: int, j: int| 0 <= i < verts.len() && 0 <= j < verts.len() && i != j implies verts[i] != verts[j] by {
            assert(all[i] != all[j]);
        }
    }
    proof {
        laws::lemma_few_vertices(verts@);
    }
    verts
}


/// The canonical form of a graph. Two graphs have the same canonical form
/// exactly where they are isomorphic: see [`laws::certificate_names_isomorphism_class`].
pub fn canonical(g: &TypedGraph) -> (cert: Certificate)
    requires
        g@.is_covered(),
    ensures
        is_certificate(g@, cert@),
{
    let verts = vertex_list(g);
    let n: usize = verts.len();
    proof {
        verts@.unique_seq_to_set();
    }
    if n == 0 {
        let cert = Certificate { colors: Vec::new(), edges: Vec::new() };
        assert(cert@.edges =~= Seq::<(u64, Seq<u32>)>::empty());
        return cert;
    }
    let mut index: BTreeMap<u32, usize> = BTreeMap::new();
    let mut seed: Vec<Color> = Vec::new();
    let mut again: Vec<Color> = Vec::new();
    let mut i: usize = 0;
    while i < n
        invariant
            i <= n,
            n == verts.len(),
            enumerates(verts@, g.colors@.dom()),
            seed@ == seeds(verts@, g.colors@).take(i as int),
            again@ == seed@,
            forall|k: int| 0 <= k < i ==> index@.contains_key(#[trigger] verts[k]) && index@[verts[k]] == k,
        decreases n - i,
    {
        let v: u32 = verts[i];
        assert(verts@.to_set().contains(v)) by {
            assert(verts@[i as int] == v);
        }
        let c: (u64, u64) = *g.colors.get(&v).unwrap();
        seed.push(c);
        again.push(c);
        index.insert(v, i);
        assert(seed@ =~= seeds(verts@, g.colors@).take(i + 1));
        i = i + 1;
    }
    assert(seed@ =~= seeds(verts@, g.colors@));
    let ghost target = dense_edges(g@.edges, verts@);
    let mut edges: Vec<(u64, Vec<usize>)> = Vec::new();
    let mut i: usize = 0;
    while i < g.edges.len()
        invariant
            i <= g.edges.len(),
            n == verts.len(),
            g@.is_covered(),
            enumerates(verts@, g.colors@.dom()),
            target == dense_edges(g@.edges, verts@),
            forall|k: int| 0 <= k < n ==> index@.contains_key(#[trigger] verts[k]) && index@[verts[k]] == k,
            edges.len() == i,
            forall|k: int| 0 <= k < i ==> (#[trigger] edges[k]).deep_view() == target[k],
        decreases g.edges.len() - i,
    {
        let e = &g.edges[i];
        assert(g@.edges[i as int] == (e.label, e.verts@));
        let mut places: Vec<usize> = Vec::new();
        let mut j: usize = 0;
        while j < e.verts.len()
            invariant
                j <= e.verts.len(),
                i < g.edges.len(),
                n == verts.len(),
                g@.is_covered(),
                g@.edges[i as int] == (e.label, e.verts@),
                enumerates(verts@, g.colors@.dom()),
                target == dense_edges(g@.edges, verts@),
                forall|k: int| 0 <= k < n ==> index@.contains_key(#[trigger] verts[k]) && index@[verts[k]] == k,
                places@ == target[i as int].1.take(j as int),
            decreases e.verts.len() - j,
        {
            let v: u32 = e.verts[j];
            proof {
                assert(g@.edges[i as int].1[j as int] == v);
                assert(verts@.to_set().contains(v));
                let k = verts@.index_of(v);
                assert(index@.contains_key(verts[k]) && index@[verts[k]] == k);
            }
            places.push(*index.get(&v).unwrap());
            assert(places@ =~= target[i as int].1.take(j + 1));
            j = j + 1;
        }
        assert(places.deep_view() =~= target[i as int].1);
        edges.push((e.label, places));
        assert(edges[i as int].deep_view() == target[i as int]);
        i = i + 1;
    }
    assert(edges.deep_view() =~= target);
    proof {
        laws::lemma_dense_within(g@, verts@);
    }
    assert(seed.deep_view() =~= seed@);
    let (init, kinds) = rank_all(&seed);
    let inc = incidence(n, &edges);
    let start = refine(init, &edges, &inc);
    proof {
        lemma_refined(init@, target);
    }
    let least = canon_search(start, &edges, &inc);
    assert(again.deep_view() =~= seed@);
    let colors = sort_keys(again);
    let cert = Certificate { colors, edges: least };
    assert(colors.deep_view() =~= colors@);
    assert(certifies(g@, verts@, cert@));
    cert
}

} // verus!
