//! Laws of fingerprints.

use vstd::prelude::*;

use crate::canon::hash::{certificate_bytes, fnv_from, FNV_OFFSET};
use crate::canon::laws::{certificate_is_unique, is_isomorphism, isomorphic, isomorphic_graphs_share_a_certificate, rename_edges};
use crate::canon::{is_certificate, CertificateView, GraphView};
use crate::gather::{gather, lemma_gather_all, lemma_gather_multiset};
use crate::graph::web::places;
use crate::index::fingerprint::hood::{
    hood, hood_fits, is_graph_hash, is_hood_hash, kind_number, lemma_hood_covered, lemma_touching_step, lemma_touching_within,
    ties_within, touches, touching, Tie,
};
use crate::index::fingerprint::numbering::{hood_nodes, lemma_hood_nodes, lemma_number, lemma_number_at, number};
use crate::order::is_permutation;

verus! {

proof fn lemma_vertices_finite(s: Set<u32>, n: nat)
    requires
        n <= 0x1_0000_0000,
        forall|x: u32| #[trigger] s.contains(x) ==> x < n,
    ensures
        s.finite(),
        s.len() <= n,
{
    let f = |i: int| i as u32;
    let r = vstd::set_lib::set_int_range(0, n as int);
    vstd::set_lib::lemma_int_range(0, n as int);
    r.lemma_map_finite(f);
    vstd::set_lib::lemma_map_size_bound(r, r.map(f), f);
    assert(s.subset_of(r.map(f))) by {
        assert forall|x: u32| s.contains(x) implies r.map(f).contains(x) by {
            assert(r.contains(x as int) && f(x as int) == x);
        }
    }
    vstd::set_lib::lemma_len_subset(s, r.map(f));
}

pub(crate) proof fn lemma_hood_small(kinds: Seq<Seq<char>>, all: Seq<Tie>, centre: usize)
    requires
        hood_fits(all, centre),
    ensures
        hood(kinds, all, centre).colors.dom().finite(),
        hood(kinds, all, centre).colors.dom().len() <= u32::MAX,
        hood(kinds, all, centre).is_covered(),
{
    lemma_vertices_finite(hood(kinds, all, centre).colors.dom(), hood_nodes(touching(all, centre), centre).len());
    lemma_hood_covered(kinds, all, centre);
}

/// Isomorphic graphs have the same hash.
pub proof fn isomorphic_graphs_share_a_hash(g: GraphView, h: GraphView, a: u64, b: u64)
    requires
        g.is_covered(),
        h.is_covered(),
        g.colors.dom().finite(),
        g.colors.dom().len() <= usize::MAX,
        isomorphic(g, h),
        is_graph_hash(g, a),
        is_graph_hash(h, b),
    ensures
        a == b,
{
    reveal(is_graph_hash);
    let ca = choose|cert: CertificateView| #[trigger]
        is_certificate(g, cert) && a == fnv_from(FNV_OFFSET, certificate_bytes(cert));
    let cb = choose|cert: CertificateView| #[trigger]
        is_certificate(h, cert) && b == fnv_from(FNV_OFFSET, certificate_bytes(cert));
    isomorphic_graphs_share_a_certificate(g, h, ca, cb);
}

/// A graph has one hash.
pub proof fn a_graph_has_one_hash(g: GraphView, a: u64, b: u64)
    requires
        g.is_covered(),
        g.colors.dom().finite(),
        g.colors.dom().len() <= usize::MAX,
        is_graph_hash(g, a),
        is_graph_hash(g, b),
    ensures
        a == b,
{
    reveal(is_graph_hash);
    let ca = choose|cert: CertificateView| #[trigger]
        is_certificate(g, cert) && a == fnv_from(FNV_OFFSET, certificate_bytes(cert));
    let cb = choose|cert: CertificateView| #[trigger]
        is_certificate(g, cert) && b == fnv_from(FNV_OFFSET, certificate_bytes(cert));
    certificate_is_unique(g, ca, cb);
}

/// A neighbourhood has one hash.
pub proof fn a_neighbourhood_has_one_hash(kinds: Seq<Seq<char>>, all: Seq<Tie>, centre: usize, a: u64, b: u64)
    requires
        hood_fits(all, centre),
        is_hood_hash(kinds, all, centre, a),
        is_hood_hash(kinds, all, centre, b),
    ensures
        a == b,
{
    lemma_hood_small(kinds, all, centre);
    a_graph_has_one_hash(hood(kinds, all, centre), a, b);
}

/// A reference after the nodes have changed places.
pub open spec fn moved(t: Tie, p: Seq<usize>) -> Tie {
    (p[t.0 as int], p[t.1 as int], t.2)
}

/// The references after the nodes have changed places.
pub open spec fn moved_all(all: Seq<Tie>, p: Seq<usize>) -> Seq<Tie> {
    Seq::new(all.len(), |i: int| moved(all[i], p))
}

pub open spec fn own_fn(v: usize) -> spec_fn(Tie) -> Option<Tie> {
    |t: Tie|
        if touches(t, v) {
            Some(t)
        } else {
            None
        }
}

pub(crate) proof fn lemma_touching_gather(all: Seq<Tie>, v: usize)
    requires
        all.len() <= usize::MAX,
    ensures
        touching(all, v) == gather(all, own_fn(v)),
    decreases all.len(),
{
    if all.len() == 0 {
        assert(places(0) =~= Seq::empty());
        assert(touching(all, v) =~= Seq::empty());
    } else {
        lemma_touching_gather(all.drop_last(), v);
        lemma_touching_step(all, v);
    }
}

pub open spec fn edge_fn(list: Seq<usize>) -> spec_fn(Tie) -> Option<(u64, Seq<u32>)> {
    |t: Tie| Some((kind_number(t.2), seq![number(list, t.0), number(list, t.1)]))
}

proof fn lemma_hood_edges(kinds: Seq<Seq<char>>, all: Seq<Tie>, v: usize)
    ensures
        hood(kinds, all, v).edges == gather(touching(all, v), edge_fn(hood_nodes(touching(all, v), v))),
{
    let f = edge_fn(hood_nodes(touching(all, v), v));
    lemma_gather_all(touching(all, v), f);
    assert(hood(kinds, all, v).edges =~= gather(touching(all, v), f));
}

/// The moved references that touch the moved node are the references that touch
/// the node, moved.
pub(crate) proof fn lemma_moved_own(all: Seq<Tie>, p: Seq<usize>, n: nat, c: usize)
    requires
        ties_within(all, n),
        is_permutation(p, n),
        c < n,
    ensures
        gather(moved_all(all, p), own_fn(p[c as int])) == moved_all(gather(all, own_fn(c)), p),
    decreases all.len(),
{
    let m = moved_all(all, p);
    if all.len() == 0 {
        assert(m =~= Seq::empty());
        assert(moved_all(gather(all, own_fn(c)), p) =~= Seq::empty());
    } else {
        let rest = all.drop_last();
        assert forall|i: int| 0 <= i < rest.len() implies (#[trigger] rest[i]).0 < n && rest[i].1 < n by {
            assert(rest[i] == all[i]);
        }
        lemma_moved_own(rest, p, n, c);
        assert(m.drop_last() =~= moved_all(rest, p));
        let t = all.last();
        assert(all[all.len() - 1] == t);
        assert(m.last() == moved(t, p));
        assert(touches(moved(t, p), p[c as int]) == touches(t, c)) by {
            if p[t.0 as int] == p[c as int] && t.0 != c {
                if t.0 < c {
                    assert(p[t.0 as int] != p[c as int]);
                } else {
                    assert(p[c as int] != p[t.0 as int]);
                }
            }
            if p[t.1 as int] == p[c as int] && t.1 != c {
                if t.1 < c {
                    assert(p[t.1 as int] != p[c as int]);
                } else {
                    assert(p[c as int] != p[t.1 as int]);
                }
            }
        }
        let own = gather(rest, own_fn(c));
        if touches(t, c) {
            assert(moved_all(own.push(t), p) =~= moved_all(own, p).push(moved(t, p)));
        }
    }
}

/// The nodes move to other places: `p` says where to. Kinds and references go
/// with them.
pub open spec fn same_structure(
    kinds: Seq<Seq<char>>,
    all: Seq<Tie>,
    kinds2: Seq<Seq<char>>,
    all2: Seq<Tie>,
    p: Seq<usize>,
) -> bool {
    &&& kinds.len() == kinds2.len()
    &&& is_permutation(p, kinds.len())
    &&& forall|i: int| 0 <= i < kinds.len() ==> #[trigger] kinds2[p[i] as int] == kinds[i]
    &&& all2.to_multiset() == moved_all(all, p).to_multiset()
}

proof fn lemma_same_members<A>(a: Seq<A>, b: Seq<A>, x: A)
    requires
        a.to_multiset() == b.to_multiset(),
        a.contains(x),
    ensures
        b.contains(x),
{
    broadcast use vstd::seq_lib::group_to_multiset_ensures;

    assert(a.to_multiset().count(x) > 0);
}

/// Two places go to two places.
proof fn lemma_places_apart(p: Seq<usize>, n: nat, x: usize, y: usize)
    requires
        is_permutation(p, n),
        x < n,
        y < n,
        x != y,
    ensures
        p[x as int] != p[y as int],
{
    if x < y {
        assert(p[x as int] != p[y as int]);
    } else {
        assert(p[y as int] != p[x as int]);
    }
}

/// The references around a node go to those around the node that it becomes.
proof fn lemma_own_goes(
    kinds: Seq<Seq<char>>,
    all: Seq<Tie>,
    kinds2: Seq<Seq<char>>,
    all2: Seq<Tie>,
    p: Seq<usize>,
    c: usize,
)
    requires
        ties_within(all, kinds.len()),
        ties_within(all2, kinds.len()),
        same_structure(kinds, all, kinds2, all2, p),
        c < kinds.len(),
    ensures
        touching(all2, p[c as int]).to_multiset() == moved_all(touching(all, c), p).to_multiset(),
{
    let pc = p[c as int];
    lemma_touching_gather(all, c);
    lemma_touching_gather(all2, pc);
    lemma_moved_own(all, p, kinds.len(), c);
    lemma_gather_multiset(all2, moved_all(all, p), own_fn(pc));
}

/// The nodes of a neighbourhood go to the nodes of the other.
proof fn lemma_hood_nodes_go(own: Seq<Tie>, own2: Seq<Tie>, p: Seq<usize>, n: nat, c: usize)
    requires
        is_permutation(p, n),
        c < n,
        forall|i: int| 0 <= i < own.len() ==> (#[trigger] own[i]).0 < n && own[i].1 < n,
        own2.to_multiset() == moved_all(own, p).to_multiset(),
    ensures
        forall|i: int| 0 <= i < hood_nodes(own, c).len() ==> #[trigger] hood_nodes(own, c)[i] < n,
        forall|i: int| 0 <= i < hood_nodes(own, c).len() ==> hood_nodes(own2, p[c as int]).contains(
            p[#[trigger] hood_nodes(own, c)[i] as int],
        ),
        forall|w: usize| #[trigger] hood_nodes(own2, p[c as int]).contains(w) ==> exists|v: usize|
            hood_nodes(own, c).contains(v) && v < n && #[trigger] p[v as int] == w,
{
    let pc = p[c as int];
    let list = hood_nodes(own, c);
    let list2 = hood_nodes(own2, pc);
    let own_moved = moved_all(own, p);
    lemma_hood_nodes(own, c);
    lemma_hood_nodes(own2, pc);
    assert forall|k: int| 0 <= k < list.len() implies #[trigger] list[k] < n && list2.contains(p[list[k] as int]) by {
        let v = list[k];
        assert(list.contains(v));
        if v == c {
            assert(list2.contains(pc));
        } else {
            let i = choose|i: int| 0 <= i < own.len() && touches(#[trigger] own[i], v);
            let t = moved(own[i], p);
            assert(own[i].0 < n && own[i].1 < n);
            assert(own_moved[i] == t);
            assert(own_moved.contains(t));
            lemma_same_members(own_moved, own2, t);
            let j = choose|j: int| 0 <= j < own2.len() && own2[j] == t;
            assert(touches(own2[j], p[v as int]));
        }
    }
    assert forall|w: usize| #[trigger] list2.contains(w) implies exists|v: usize|
        list.contains(v) && v < n && #[trigger] p[v as int] == w by {
        if w == pc {
            assert(list.contains(c) && p[c as int] == w);
        } else {
            let j = choose|j: int| 0 <= j < own2.len() && touches(#[trigger] own2[j], w);
            let t = own2[j];
            assert(own2.contains(t));
            lemma_same_members(own2, own_moved, t);
            let i = choose|i: int| 0 <= i < own_moved.len() && own_moved[i] == t;
            assert(own[i].0 < n && own[i].1 < n);
            let v = if p[own[i].0 as int] == w {
                own[i].0
            } else {
                own[i].1
            };
            assert(touches(own[i], v));
            assert(list.contains(v) && p[v as int] == w);
        }
    }
}

/// The number of a node goes to the number of the node that it becomes.
pub open spec fn number_map(list: Seq<usize>, list2: Seq<usize>, p: Seq<usize>) -> Map<u32, u32> {
    Map::new(|x: u32| x < list.len(), |x: u32| number(list2, p[list[x as int] as int]))
}

/// The numbers of the one list go to those of the other, one to one.
proof fn lemma_number_map(list: Seq<usize>, list2: Seq<usize>, p: Seq<usize>, n: nat)
    requires
        is_permutation(p, n),
        list.no_duplicates(),
        list2.no_duplicates(),
        list.len() <= u32::MAX,
        list2.len() <= u32::MAX,
        forall|i: int| 0 <= i < list.len() ==> #[trigger] list[i] < n,
        forall|i: int| 0 <= i < list.len() ==> list2.contains(p[#[trigger] list[i] as int]),
        forall|w: usize| #[trigger] list2.contains(w) ==> exists|v: usize|
            list.contains(v) && v < n && #[trigger] p[v as int] == w,
    ensures
        number_map(list, list2, p).is_injective(),
        number_map(list, list2, p).values() == Set::<u32>::new(|y: u32| y < list2.len()),
        forall|x: u32| x < list.len() ==> (#[trigger] number_map(list, list2, p)[x]) < list2.len() && list2[number_map(
            list,
            list2,
            p,
        )[x] as int] == p[list[x as int] as int],
{
    let m = number_map(list, list2, p);
    assert forall|x: u32| x < list.len() implies (#[trigger] m[x]) < list2.len() && list2[m[x] as int] == p[list[x as int] as int] by {
        assert(list2.contains(p[list[x as int] as int]));
        lemma_number(list2, p[list[x as int] as int]);
    }
    assert forall|x: u32, y: u32| x != y && m.dom().contains(x) && m.dom().contains(y) implies #[trigger] m[x]
        != #[trigger] m[y] by {
        assert(list[x as int] != list[y as int]);
        lemma_places_apart(p, n, list[x as int], list[y as int]);
        assert(list2[m[x] as int] == p[list[x as int] as int]);
        assert(list2[m[y] as int] == p[list[y as int] as int]);
    }
    let all2 = Set::<u32>::new(|y: u32| y < list2.len());
    assert forall|y: u32| m.values().contains(y) implies all2.contains(y) by {
        let x = choose|x: u32| #[trigger] m.contains_key(x) && m[x] == y;
        assert(m[x] < list2.len());
    }
    assert forall|y: u32| all2.contains(y) implies m.values().contains(y) by {
        let w = list2[y as int];
        assert(list2.contains(w));
        let v = choose|v: usize| list.contains(v) && v < n && #[trigger] p[v as int] == w;
        lemma_number(list, v);
        let x = number(list, v);
        lemma_number_at(list2, y as int);
        assert(m.contains_key(x) && m[x] == y);
    }
    assert(m.values() =~= all2);
}

proof fn lemma_hoods_match(
    kinds: Seq<Seq<char>>,
    all: Seq<Tie>,
    kinds2: Seq<Seq<char>>,
    all2: Seq<Tie>,
    p: Seq<usize>,
    c: usize,
) -> (m: Map<u32, u32>)
    requires
        ties_within(all, kinds.len()),
        ties_within(all2, kinds.len()),
        hood_fits(all, c),
        hood_fits(all2, p[c as int]),
        same_structure(kinds, all, kinds2, all2, p),
        c < kinds.len(),
    ensures
        is_isomorphism(m, hood(kinds, all, c), hood(kinds2, all2, p[c as int])),
{
    let n = kinds.len();
    let pc = p[c as int];
    let g = hood(kinds, all, c);
    let h = hood(kinds2, all2, pc);
    let own = touching(all, c);
    let own2 = touching(all2, pc);
    let list = hood_nodes(own, c);
    let list2 = hood_nodes(own2, pc);
    let own_moved = moved_all(own, p);
    let m = number_map(list, list2, p);
    lemma_own_goes(kinds, all, kinds2, all2, p, c);
    lemma_own_within(all, c, n);
    lemma_hood_nodes(own, c);
    lemma_hood_nodes(own2, pc);
    lemma_hood_nodes_go(own, own2, p, n, c);
    lemma_number_map(list, list2, p, n);
    assert(m.dom() =~= g.colors.dom());
    assert(m.values() =~= h.colors.dom());
    assert forall|x: u32| #[trigger] g.colors.contains_key(x) implies h.colors[m[x]] == g.colors[x] by {
        let v = list[x as int];
        assert(m[x] < list2.len());
        assert(list2[m[x] as int] == p[v as int]);
        assert(kinds2[p[v as int] as int] == kinds[v as int]);
        if x != 0 {
            assert(list[x as int] != list[0]);
            lemma_places_apart(p, n, v, c);
        }
    }
    assert(rename_edges(g.edges, m).to_multiset() == h.edges.to_multiset()) by {
        let f = edge_fn(list2);
        lemma_hood_edges(kinds2, all2, pc);
        lemma_gather_multiset(own2, own_moved, f);
        lemma_gather_all(own_moved, f);
        assert forall|i: int| 0 <= i < own.len() implies rename_edges(g.edges, m)[i] == gather(own_moved, f)[i] by {
            let a = own[i].0;
            let b = own[i].1;
            assert(touches(own[i], a) && touches(own[i], b));
            assert(list.contains(a) && list.contains(b));
            lemma_number(list, a);
            lemma_number(list, b);
            assert(g.edges[i].1 == seq![number(list, a), number(list, b)]);
            assert(own_moved[i] == moved(own[i], p));
            assert(rename_edges(g.edges, m)[i].1 =~= seq![number(list2, p[a as int]), number(list2, p[b as int])]);
        }
        assert(rename_edges(g.edges, m) =~= gather(own_moved, f));
    }
    m
}

pub(crate) proof fn lemma_own_within(all: Seq<Tie>, c: usize, n: nat)
    requires
        ties_within(all, n),
    ensures
        forall|i: int| 0 <= i < touching(all, c).len() ==> (#[trigger] touching(all, c)[i]).0 < n && touching(all, c)[i].1 < n,
{
    lemma_touching_within(all, c);
    let own = touching(all, c);
    let at = crate::index::fingerprint::hood::touching_places(all, c);
    assert forall|i: int| 0 <= i < own.len() implies (#[trigger] own[i]).0 < n && own[i].1 < n by {
        assert(at[i] < all.len());
        assert(own[i] == all[at[i] as int]);
    }
}

/// A hash depends on structure and kinds alone: where the nodes of two graphs
/// correspond one to one, with the same kinds and the same references between
/// them, nodes that correspond have the same hash. Ids, names and qualified
/// names, the order of the nodes and the order of the references do not matter.
pub proof fn a_rename_keeps_every_hash(
    kinds: Seq<Seq<char>>,
    all: Seq<Tie>,
    kinds2: Seq<Seq<char>>,
    all2: Seq<Tie>,
    p: Seq<usize>,
    c: usize,
    a: u64,
    b: u64,
)
    requires
        ties_within(all, kinds.len()),
        ties_within(all2, kinds.len()),
        hood_fits(all, c),
        hood_fits(all2, p[c as int]),
        same_structure(kinds, all, kinds2, all2, p),
        c < kinds.len(),
        is_hood_hash(kinds, all, c, a),
        is_hood_hash(kinds2, all2, p[c as int], b),
    ensures
        a == b,
{
    let pc = p[c as int];
    let g = hood(kinds, all, c);
    let h = hood(kinds2, all2, pc);
    let m = lemma_hoods_match(kinds, all, kinds2, all2, p, c);
    assert(isomorphic(g, h));
    lemma_hood_small(kinds, all, c);
    lemma_hood_small(kinds2, all2, pc);
    isomorphic_graphs_share_a_hash(g, h, a, b);
}

/// References without a target do not count.
pub proof fn open_references_do_not_count(
    nodes: Seq<crate::index::resolve::NodeView>,
    edges: Seq<crate::graph::web::QueryEdgeView>,
    e: crate::graph::web::QueryEdgeView,
)
    requires
        e.to_id.len() == 0,
    ensures
        crate::index::fingerprint::hood::ties(nodes, edges.push(e)) == crate::index::fingerprint::hood::ties(nodes, edges),
{
    crate::gather::lemma_gather_push(edges, e, crate::index::fingerprint::hood::tie_fn(nodes));
}

} // verus!
