//! Which nodes bound references lead to, told by the references themselves.

use vstd::prelude::*;

use crate::graph::paths::{leads_over, lemma_place_within, links_are_bound_references};
use crate::graph::walk::{
    comes_from, has_link, is_chained, is_reached, leads, lemma_leads_back, lemma_leads_on,
    lemma_walk, walk, walk_depth_is_distance,
};
use crate::graph::web::{lemma_links_within, links, places, root_fn, roots_of, QueryEdgeView, Way};
use crate::index::resolve::indices::{ids, place_of_id};
use crate::index::resolve::NodeView;
use crate::lookup::{lemma_places_of, places_of};

verus! {

/// The node that an id names: the last that has it.
pub open spec fn is_named(nodes: Seq<NodeView>, id: Seq<char>, v: int) -> bool {
    &&& 0 <= v < nodes.len()
    &&& nodes[v].id == id
    &&& forall|w: int| v < w < nodes.len() ==> (#[trigger] nodes[w]).id != id
}

/// Reference `e` is resolved and refers from node `u` to node `v`.
pub open spec fn refers(nodes: Seq<NodeView>, edges: Seq<QueryEdgeView>, e: int, u: int, v: int) -> bool {
    &&& 0 <= e < edges.len()
    &&& 0 <= u < nodes.len()
    &&& edges[e].confidence == "RESOLVED"@
    &&& edges[e].to_id.len() > 0
    &&& edges[e].from_id == nodes[u].id
    &&& is_named(nodes, edges[e].to_id, v)
}

/// Reference `e` is resolved and refers to node `u` from node `v`.
pub open spec fn is_referred(nodes: Seq<NodeView>, edges: Seq<QueryEdgeView>, e: int, u: int, v: int) -> bool {
    &&& 0 <= e < edges.len()
    &&& 0 <= u < nodes.len()
    &&& edges[e].confidence == "RESOLVED"@
    &&& edges[e].to_id.len() > 0
    &&& edges[e].to_id == nodes[u].id
    &&& is_named(nodes, edges[e].from_id, v)
}

/// One step along the references, or against them.
pub open spec fn is_step(nodes: Seq<NodeView>, edges: Seq<QueryEdgeView>, along: bool, e: int, u: int, v: int) -> bool {
    if along {
        refers(nodes, edges, e, u, v)
    } else {
        is_referred(nodes, edges, e, u, v)
    }
}

pub open spec fn steps(nodes: Seq<NodeView>, edges: Seq<QueryEdgeView>, along: bool, u: int, v: int) -> bool {
    exists|e: int| is_step(nodes, edges, along, e, u, v)
}

/// The nodes, each a step from the one before it.
pub open spec fn is_trail(nodes: Seq<NodeView>, edges: Seq<QueryEdgeView>, along: bool, trail: Seq<int>) -> bool {
    &&& trail.len() > 0
    &&& forall|i: int| 0 <= i < trail.len() - 1 ==> steps(nodes, edges, along, #[trigger] trail[i], trail[i + 1])
}

/// A trail of that many steps leads from the one node to the other.
pub open spec fn reaches(nodes: Seq<NodeView>, edges: Seq<QueryEdgeView>, along: bool, u: int, v: int, k: nat) -> bool {
    exists|trail: Seq<int>| #[trigger]
        is_trail(nodes, edges, along, trail) && trail.len() == k + 1 && trail[0] == u && trail[k as int] == v
}

/// The least number of steps from the one node to the other.
pub open spec fn is_distance(nodes: Seq<NodeView>, edges: Seq<QueryEdgeView>, along: bool, u: int, v: int, k: nat) -> bool {
    &&& reaches(nodes, edges, along, u, v, k)
    &&& forall|j: nat| j < k ==> !#[trigger] reaches(nodes, edges, along, u, v, j)
}

// ---- the links say the same -----------------------------------------------------------------

pub open spec fn is_along(way: Way) -> bool {
    way == Way::Forward
}

pub proof fn lemma_named(nodes: Seq<NodeView>, id: Seq<char>, v: int)
    requires
        nodes.len() <= usize::MAX,
    ensures
        place_of_id(nodes, id) == Some(v) <==> is_named(nodes, id, v),
{
    let q = places_of(ids(nodes), id);
    lemma_places_of(ids(nodes), id);
    lemma_place_within(nodes, id);
    if place_of_id(nodes, id) == Some(v) {
        assert forall|w: int| v < w < nodes.len() implies (#[trigger] nodes[w]).id != id by {
            if nodes[w].id == id {
                assert(ids(nodes)[w] == id);
                assert(q.contains(w as usize));
                let k = choose|k: int| 0 <= k < q.len() && q[k] == w as usize;
                if k < q.len() - 1 {
                    assert(q[k] < q[q.len() - 1]);
                }
            }
        }
    }
    if is_named(nodes, id, v) {
        assert(ids(nodes)[v] == id);
        assert(q.contains(v as usize));
        let t = place_of_id(nodes, id)->0;
        let k = choose|k: int| 0 <= k < q.len() && q[k] == v as usize;
        if k < q.len() - 1 {
            assert(q[k] < q[q.len() - 1]);
        }
        assert(t >= v);
        if t > v {
            assert(nodes[t].id != id);
        }
    }
}

proof fn lemma_step(nodes: Seq<NodeView>, edges: Seq<QueryEdgeView>, way: Way, e: usize, u: usize, v: usize)
    requires
        nodes.len() <= usize::MAX,
        u < nodes.len(),
    ensures
        leads_over(nodes, edges, e, u, v, way) <==> is_step(nodes, edges, is_along(way), e as int, u as int, v as int),
{
    match way {
        Way::Forward => lemma_named(nodes, edges[e as int].to_id, v as int),
        Way::Backward => lemma_named(nodes, edges[e as int].from_id, v as int),
    }
}

proof fn lemma_link_steps(nodes: Seq<NodeView>, edges: Seq<QueryEdgeView>, way: Way, u: usize, v: usize)
    requires
        nodes.len() <= usize::MAX,
        edges.len() <= usize::MAX,
        u < nodes.len(),
    ensures
        has_link(links(nodes, edges, way), u, v) <==> steps(nodes, edges, is_along(way), u as int, v as int),
{
    let ls = links(nodes, edges, way);
    if has_link(ls, u, v) {
        let k = choose|k: int| 0 <= k < ls(u).len() && (#[trigger] ls(u)[k]).1 == v;
        let via = ls(u)[k].0;
        assert(ls(u).contains((via, v)));
        links_are_bound_references(nodes, edges, u, via, v, way);
        lemma_step(nodes, edges, way, via, u, v);
        assert(is_step(nodes, edges, is_along(way), via as int, u as int, v as int));
    }
    if steps(nodes, edges, is_along(way), u as int, v as int) {
        let e = choose|e: int| is_step(nodes, edges, is_along(way), e, u as int, v as int);
        lemma_step(nodes, edges, way, e as usize, u, v);
        links_are_bound_references(nodes, edges, u, e as usize, v, way);
        let k = choose|k: int| 0 <= k < ls(u).len() && #[trigger] ls(u)[k] == (e as usize, v);
        assert(ls(u)[k].1 == v);
    }
}

/// So many links lead from node to node exactly where a trail of so many steps does.
pub proof fn lemma_leads_reaches(nodes: Seq<NodeView>, edges: Seq<QueryEdgeView>, way: Way, root: usize, v: int, k: nat)
    requires
        root < nodes.len() <= usize::MAX,
        edges.len() <= usize::MAX,
    ensures
        reaches(nodes, edges, is_along(way), root as int, v, k) <==> 0 <= v < nodes.len() && leads(
            root,
            v as usize,
            k,
            links(nodes, edges, way),
        ),
    decreases k,
{
    let ls = links(nodes, edges, way);
    let along = is_along(way);
    if k == 0 {
        if v == root {
            let t = seq![v];
            assert(is_trail(nodes, edges, along, t));
            assert(t.len() == 1 && t[0] == root as int);
        }
    } else {
        let j = (k - 1) as nat;
        if reaches(nodes, edges, along, root as int, v, k) {
            let t = choose|t: Seq<int>| #[trigger]
                is_trail(nodes, edges, along, t) && t.len() == k + 1 && t[0] == root && t[k as int] == v;
            let u = t[j as int];
            let s = t.drop_last();
            assert(is_trail(nodes, edges, along, s)) by {
                assert forall|i: int| 0 <= i < s.len() - 1 implies steps(nodes, edges, along, #[trigger] s[i], s[i + 1]) by {
                    assert(s[i] == t[i] && s[i + 1] == t[i + 1]);
                    assert(steps(nodes, edges, along, t[i], t[i + 1]));
                }
            }
            assert(s[0] == root && s[j as int] == u && s.len() == j + 1);
            lemma_leads_reaches(nodes, edges, way, root, u, j);
            assert(steps(nodes, edges, along, t[j as int], t[j + 1int]));
            let e = choose|e: int| is_step(nodes, edges, along, e, u, v);
            lemma_link_steps(nodes, edges, way, u as usize, v as usize);
            lemma_leads_on(root, u as usize, v as usize, j, ls);
        }
        if 0 <= v < nodes.len() && leads(root, v as usize, k, ls) {
            let u = lemma_leads_back(root, v as usize, j, ls);
            lemma_leads_in(nodes, edges, way, root, u, j);
            lemma_leads_reaches(nodes, edges, way, root, u as int, j);
            lemma_link_steps(nodes, edges, way, u, v as usize);
            let s = choose|t: Seq<int>| #[trigger]
                is_trail(nodes, edges, along, t) && t.len() == j + 1 && t[0] == root && t[j as int] == u as int;
            let t = s.push(v);
            assert(is_trail(nodes, edges, along, t)) by {
                assert forall|i: int| 0 <= i < t.len() - 1 implies steps(nodes, edges, along, #[trigger] t[i], t[i + 1]) by {
                    if i < s.len() - 1 {
                        assert(steps(nodes, edges, along, s[i], s[i + 1]));
                    }
                }
            }
            assert(t.len() == k + 1 && t[0] == root && t[k as int] == v);
        }
    }
}

proof fn lemma_leads_in(nodes: Seq<NodeView>, edges: Seq<QueryEdgeView>, way: Way, root: usize, v: usize, k: nat)
    requires
        root < nodes.len() <= usize::MAX,
        leads(root, v, k, links(nodes, edges, way)),
    ensures
        v < nodes.len(),
    decreases k,
{
    if k > 0 {
        let ls = links(nodes, edges, way);
        let u = lemma_leads_back(root, v, (k - 1) as nat, ls);
        lemma_leads_in(nodes, edges, way, root, u, (k - 1) as nat);
        lemma_links_within(nodes, edges, way);
        let i = choose|i: int| 0 <= i < ls(u).len() && (#[trigger] ls(u)[i]).1 == v;
        assert(ls(u)[i].1 < nodes.len());
    }
}

/// What a walk visits: every node within the depth, each once and at its
/// distance, from a node one step before it and one nearer.
pub proof fn lemma_walk_visits(nodes: Seq<NodeView>, edges: Seq<QueryEdgeView>, way: Way, root: usize, max_depth: usize)
    requires
        root < nodes.len() <= usize::MAX,
        edges.len() <= usize::MAX,
    ensures
        ({
            let order = walk(root, links(nodes, edges, way), max_depth, nodes.len());
            let along = is_along(way);
            &&& order.len() > 0
            &&& order[0].node == root && order[0].depth == 0
            &&& forall|i: int| 0 <= i < order.len() ==> {
                &&& (#[trigger] order[i]).depth <= max_depth
                &&& order[i].node < nodes.len()
                &&& is_distance(nodes, edges, along, root as int, order[i].node as int, order[i].depth as nat)
            }
            &&& forall|i: int| 0 < i < order.len() ==> {
                &&& (#[trigger] order[i]).depth > 0
                &&& is_step(nodes, edges, along, order[i].via as int, order[i].parent as int, order[i].node as int)
                &&& is_distance(nodes, edges, along, root as int, order[i].parent as int, (order[i].depth - 1) as nat)
            }
            &&& forall|i: int, j: int| 0 <= i < j < order.len() ==> (#[trigger] order[i]).node != (#[trigger] order[j]).node
            &&& forall|i: int, j: int| 0 <= i < j < order.len() ==> (#[trigger] order[i]).depth <= (#[trigger] order[j]).depth
            &&& forall|v: int, k: nat| k <= max_depth && #[trigger] reaches(nodes, edges, along, root as int, v, k)
                ==> 0 <= v < nodes.len() && is_reached(order, v as usize)
        }),
{
    let ls = links(nodes, edges, way);
    let order = walk(root, ls, max_depth, nodes.len());
    let along = is_along(way);
    lemma_links_within(nodes, edges, way);
    walk_depth_is_distance(root, ls, max_depth, nodes.len());
    lemma_walk(root, ls, max_depth, nodes.len());
    assert forall|i: int| 0 <= i < order.len() implies is_distance(
        nodes,
        edges,
        along,
        root as int,
        (#[trigger] order[i]).node as int,
        order[i].depth as nat,
    ) by {
        let v = order[i].node;
        assert(leads(root, v, order[i].depth as nat, ls));
        lemma_leads_reaches(nodes, edges, way, root, v as int, order[i].depth as nat);
        assert forall|j: nat| j < order[i].depth implies !#[trigger] reaches(nodes, edges, along, root as int, v as int, j) by {
            assert(!leads(root, order[i].node, j, ls));
            lemma_leads_reaches(nodes, edges, way, root, v as int, j);
        }
    }
    assert forall|i: int| 0 < i < order.len() implies {
        &&& (#[trigger] order[i]).depth > 0
        &&& is_step(nodes, edges, along, order[i].via as int, order[i].parent as int, order[i].node as int)
        &&& is_distance(nodes, edges, along, root as int, order[i].parent as int, (order[i].depth - 1) as nat)
    } by {
        assert(comes_from(order, order[i], ls, max_depth)) by {
            reveal(is_chained);
        }
        let v = order[i];
        let j = choose|j: int|
            0 <= j < order.len() && (#[trigger] order[j]).node == v.parent && v.depth == order[j].depth + 1
                && order[j].depth < max_depth && ls(v.parent).contains((v.via, v.node));
        assert(order[j].node < nodes.len());
        links_are_bound_references(nodes, edges, v.parent, v.via, v.node, way);
        lemma_step(nodes, edges, way, v.via, v.parent, v.node);
        assert(is_distance(nodes, edges, along, root as int, order[j].node as int, order[j].depth as nat));
    }
    assert forall|v: int, k: nat| k <= max_depth && #[trigger] reaches(nodes, edges, along, root as int, v, k) implies 0 <= v
        < nodes.len() && is_reached(order, v as usize) by {
        lemma_leads_reaches(nodes, edges, way, root, v, k);
    }
}

/// The places with a property, in order.
pub proof fn lemma_roots(nodes: Seq<NodeView>, p: spec_fn(NodeView) -> bool)
    requires
        nodes.len() <= usize::MAX,
    ensures
        forall|i: int| 0 <= i < roots_of(nodes, p).len() ==> (#[trigger] roots_of(nodes, p)[i]) < nodes.len() && p(
            nodes[roots_of(nodes, p)[i] as int],
        ),
        forall|i: int, j: int| 0 <= i < j < roots_of(nodes, p).len() ==> #[trigger] roots_of(nodes, p)[i] < #[trigger] roots_of(
            nodes,
            p,
        )[j],
        forall|v: int| 0 <= v < nodes.len() && p(#[trigger] nodes[v]) ==> roots_of(nodes, p).contains(v as usize),
{
    let all = places(nodes.len());
    let f = root_fn(nodes, p);
    let r = roots_of(nodes, p);
    crate::index::fingerprint::hood::lemma_ascending_gather(all, f, nodes.len() as int);
    assert forall|i: int| 0 <= i < r.len() implies (#[trigger] r[i]) < nodes.len() && p(nodes[r[i] as int]) by {
        assert(r.contains(r[i]));
        crate::gather::lemma_gather_member(all, f, r[i]);
    }
    assert forall|v: int| 0 <= v < nodes.len() && p(#[trigger] nodes[v]) implies r.contains(v as usize) by {
        assert(f(all[v]) == Some(v as usize));
        crate::gather::lemma_gather_member(all, f, v as usize);
    }
}

} // verus!
