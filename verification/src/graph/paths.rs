//! The ways by which dependents are reached, and what holds of all walks along
//! references.

use vstd::prelude::*;

use crate::gather::{flatten, lemma_gather_member};
use crate::graph::dependencies::{
    dependency_group, dependency_walk, is_definition_of, item_of, matching_roots,
};
use crate::graph::walk::{
    comes_from, has_link, is_chained, is_reached, leads, lemma_leads_back, lemma_leads_on, lemma_walk,
    walk_depth_is_distance, Visit,
};
use crate::graph::web::{
    far_end, is_bound, lemma_links_within, link_fn, links, near_end, near_ends, query_views, roots_of, touching, walk_web,
    QueryEdge, QueryEdgeView, Way, Web,
};
use crate::index::resolve::indices::{ids, place_of_id};
use crate::index::resolve::{node_views, NodeView, ResolverNode};
use crate::lookup::{lemma_places_of, lemma_take_next, places_of, put};

verus! {

/// The references by which a walk backward came from a root to a dependent.
#[derive(Debug, Clone, PartialEq, Eq)]
pub struct ReversePath {
    pub root_node_id: String,
    /// The places of the references, from the root outward.
    pub hops: Vec<usize>,
}

#[verifier::ext_equal]
pub struct PathView {
    pub root_node_id: Seq<char>,
    pub hops: Seq<usize>,
}

impl DeepView for ReversePath {
    type V = PathView;

    open spec fn deep_view(&self) -> PathView {
        PathView { root_node_id: self.root_node_id@, hops: self.hops@ }
    }
}

/// The place of the visit that a visit comes from.
pub open spec fn parent_place(order: Seq<Visit>, i: int) -> int {
    choose|j: int| 0 <= j < i && (#[trigger] order[j]).node == order[i].parent
}

/// The references that lead from the root to the visit at place `i`.
pub open spec fn hops_to(order: Seq<Visit>, i: int) -> Seq<usize>
    decreases i,
{
    let j = parent_place(order, i);
    if 0 <= j < i {
        hops_to(order, j).push(order[i].via)
    } else {
        Seq::empty()
    }
}

/// One path for every node that the walk backward from a root reaches.
pub open spec fn paths_from(nodes: Seq<NodeView>, edges: Seq<QueryEdgeView>, max_depth: usize) -> spec_fn(usize) -> Seq<
    PathView,
> {
    |root: usize|
        {
            let order = dependency_walk(nodes, edges, root, Way::Backward, max_depth);
            Seq::new(
                (order.len() - 1) as nat,
                |i: int| PathView { root_node_id: nodes[root as int].id, hops: hops_to(order, i + 1) },
            )
        }
}

/// The paths of every definition of a name.
pub open spec fn reverse_paths(
    nodes: Seq<NodeView>,
    edges: Seq<QueryEdgeView>,
    subject: Seq<char>,
    max_depth: usize,
) -> Seq<PathView> {
    flatten(roots_of(nodes, is_definition_of(subject)), paths_from(nodes, edges, max_depth))
}

/// The visit that a visit comes from stands before it.
pub proof fn lemma_parent(order: Seq<Visit>, i: int, nodes: Seq<NodeView>, edges: Seq<QueryEdgeView>, root: usize, way: Way, max_depth: usize)
    requires
        root < nodes.len() <= usize::MAX,
        order == dependency_walk(nodes, edges, root, way, max_depth),
        0 < i < order.len(),
    ensures
        0 <= parent_place(order, i) < i,
        order[parent_place(order, i)].node == order[i].parent,
        order[i].depth == order[parent_place(order, i)].depth + 1,
        links(nodes, edges, way)(order[i].parent).contains((order[i].via, order[i].node)),
        forall|j: int| 0 <= j < order.len() && (#[trigger] order[j]).node == order[i].parent ==> j == parent_place(order, i),
{
    let ls = links(nodes, edges, way);
    lemma_links_within(nodes, edges, way);
    lemma_walk(root, ls, max_depth, nodes.len());
    assert(comes_from(order, order[i], ls, max_depth)) by {
        reveal(is_chained);
    }
    let v = order[i];
    let j = choose|j: int|
        0 <= j < order.len() && (#[trigger] order[j]).node == v.parent && v.depth == order[j].depth + 1
            && order[j].depth < max_depth && ls(v.parent).contains((v.via, v.node));
    if i < j {
        assert(order[i].depth <= order[j].depth);
    }
    assert(j < i);
    let p = parent_place(order, i);
    assert(0 <= p < i && order[p].node == v.parent);
    if p < j {
        assert(order[p].node != order[j].node);
    } else if j < p {
        assert(order[j].node != order[p].node);
    }
    assert forall|k: int| 0 <= k < order.len() && (#[trigger] order[k]).node == order[i].parent implies k == p by {
        if p < k {
            assert(order[p].node != order[k].node);
        } else if k < p {
            assert(order[k].node != order[p].node);
        }
    }
}

fn copy_places(v: &Vec<usize>) -> (r: Vec<usize>)
    ensures
        r@ == v@,
{
    let mut out: Vec<usize> = Vec::new();
    let mut i: usize = 0;
    while i < v.len()
        invariant
            i <= v.len(),
            out@ == v@.take(i as int),
        decreases v.len() - i,
    {
        out.push(v[i]);
        proof {
            lemma_take_next(v@, i as int);
        }
        i += 1;
    }
    assert(v@.take(i as int) =~= v@);
    out
}

fn hops_along(nodes: &[ResolverNode], edges: &[QueryEdge], order: &Vec<Visit>, Ghost(root): Ghost<usize>, Ghost(
    max_depth,
): Ghost<usize>) -> (r: Vec<Vec<usize>>)
    requires
        root < nodes.len() <= usize::MAX,
        order@ == dependency_walk(node_views(nodes@), query_views(edges@), root, Way::Backward, max_depth),
        order.len() > 0,
        forall|i: int| 0 <= i < order.len() ==> (#[trigger] order@[i]).node < nodes.len() && order@[i].parent < nodes.len(),
    ensures
        r.len() == order.len(),
        forall|i: int| 0 <= i < r.len() ==> (#[trigger] r@[i])@ == hops_to(order@, i),
{
    let ghost nv = node_views(nodes@);
    let ghost ev = query_views(edges@);
    let mut at: Vec<usize> = Vec::new();
    let mut n: usize = 0;
    while n < nodes.len()
        invariant
            n <= nodes.len(),
            at.len() == n,
        decreases nodes.len() - n,
    {
        at.push(0);
        n += 1;
    }
    proof {
        let ls = links(nv, ev, Way::Backward);
        lemma_links_within(nv, ev, Way::Backward);
        lemma_walk(root, ls, max_depth, nv.len());
        assert(hops_to(order@, 0) =~= Seq::empty());
    }
    let mut out: Vec<Vec<usize>> = Vec::new();
    out.push(Vec::new());
    let first: usize = order[0].node;
    assert(order@[0].node < nodes.len());
    at.set(first, 0);
    let mut i: usize = 1;
    while i < order.len()
        invariant
            1 <= i <= order.len(),
            out.len() == i,
            at.len() == nodes.len(),
            nv == node_views(nodes@),
            ev == query_views(edges@),
            root < nodes.len() <= usize::MAX,
            order@ == dependency_walk(nv, ev, root, Way::Backward, max_depth),
            forall|i: int| 0 <= i < order.len() ==> (#[trigger] order@[i]).node < nodes.len() && order@[i].parent
                < nodes.len(),
            forall|i: int, j: int| 0 <= i < j < order.len() ==> (#[trigger] order@[i]).node != (#[trigger] order@[j]).node,
            forall|j: int| 0 <= j < i ==> at@[(#[trigger] order@[j]).node as int] == j,
            forall|j: int| 0 <= j < i ==> (#[trigger] out@[j])@ == hops_to(order@, j),
        decreases order.len() - i,
    {
        let v = order[i];
        assert(order@[i as int].node < nodes.len());
        proof {
            lemma_parent(order@, i as int, nv, ev, root, Way::Backward, max_depth);
        }
        let ghost p = parent_place(order@, i as int);
        assert(order@[p].node == v.parent);
        let j: usize = at[v.parent];
        assert(j == p);
        let mut hops = copy_places(&out[j]);
        hops.push(v.via);
        let ghost before = out@;
        out.push(hops);
        at.set(v.node, i);
        assert forall|k: int| 0 <= k < i + 1 implies at@[(#[trigger] order@[k]).node as int] == k by {
            if k < i {
                assert(order@[k].node != order@[i as int].node);
            }
        }
        assert forall|k: int| 0 <= k < i + 1 implies (#[trigger] out@[k])@ == hops_to(order@, k) by {
            if k < i {
                assert(out@[k] == before[k]);
            } else {
                assert(out@[k]@ =~= hops_to(order@, p).push(v.via));
            }
        }
        i += 1;
    }
    out
}

/// The paths to the dependents of every definition of a name, root by root, in
/// the order in which the walk reaches them.
pub fn reverse_dependency_paths(nodes: &[ResolverNode], edges: &[QueryEdge], subject: &str, max_depth: usize) -> (r: Vec<
    ReversePath,
>)
    ensures
        r.deep_view() == reverse_paths(node_views(nodes@), query_views(edges@), subject@, max_depth),
{
    let ghost nv = node_views(nodes@);
    let ghost ev = query_views(edges@);
    let web = Web::build(nodes, edges);
    let roots = matching_roots(nodes, subject);
    let ghost f = paths_from(nv, ev, max_depth);
    let mut out: Vec<ReversePath> = Vec::new();
    let mut i: usize = 0;
    while i < roots.len()
        invariant
            i <= roots.len(),
            nv == node_views(nodes@),
            ev == query_views(edges@),
            web.describes(nv, ev),
            nodes.len() <= usize::MAX,
            forall|i: int| 0 <= i < roots.len() ==> #[trigger] roots@[i] < nodes.len(),
            f == paths_from(nv, ev, max_depth),
            out.deep_view() == flatten(roots@.take(i as int), f),
        decreases roots.len() - i,
    {
        let root: usize = roots[i];
        assert(roots@[i as int] < nodes.len());
        let order = walk_web(nodes, edges, &web, root, Way::Backward, max_depth);
        let hops = hops_along(nodes, edges, &order, Ghost(root), Ghost(max_depth));
        let ghost before = out.deep_view();
        let ghost own = f(root);
        proof {
            lemma_take_next(roots@, i as int);
            assert(before + own.take(0) =~= before);
        }
        let mut k: usize = 1;
        while k < order.len()
            invariant
                1 <= k <= order.len(),
                hops.len() == order.len(),
                root < nodes.len(),
                nv == node_views(nodes@),
                ev == query_views(edges@),
                order@ == dependency_walk(nv, ev, root, Way::Backward, max_depth),
                forall|i: int| 0 <= i < hops.len() ==> (#[trigger] hops@[i])@ == hops_to(order@, i),
                f == paths_from(nv, ev, max_depth),
                own == f(root),
                out.deep_view() == before + own.take(k - 1),
            decreases order.len() - k,
        {
            assert(hops@[k as int]@ == hops_to(order@, k as int));
            proof {
                lemma_take_next(own, k - 1);
                assert(before + own.take(k as int) =~= (before + own.take(k - 1)).push(own[k - 1]));
            }
            put(
                &mut out,
                ReversePath { root_node_id: nodes[root].id.as_str().to_owned(), hops: copy_places(&hops[k]) },
            );
            k += 1;
        }
        assert(own.take(k - 1) =~= own);
        i += 1;
    }
    assert(roots@.take(i as int) =~= roots@);
    out
}

// ---- laws --------------------------------------------------------------------------------

/// The ids of the nodes are distinct.
pub open spec fn distinct_ids(nodes: Seq<NodeView>) -> bool {
    forall|i: int, j: int| 0 <= i < j < nodes.len() ==> (#[trigger] nodes[i]).id != (#[trigger] nodes[j]).id
}

/// A bound reference that leads, in the given sense, from node `u` to node `v`.
pub open spec fn leads_over(nodes: Seq<NodeView>, edges: Seq<QueryEdgeView>, via: usize, u: usize, v: usize, way: Way) -> bool {
    &&& via < edges.len()
    &&& is_bound(edges[via as int])
    &&& near_end(edges[via as int], way) == nodes[u as int].id
    &&& place_of_id(nodes, far_end(edges[via as int], way)) == Some(v as int)
}

/// The links of a node are its bound references.
pub proof fn links_are_bound_references(
    nodes: Seq<NodeView>,
    edges: Seq<QueryEdgeView>,
    u: usize,
    via: usize,
    v: usize,
    way: Way,
)
    requires
        u < nodes.len() <= usize::MAX,
        edges.len() <= usize::MAX,
    ensures
        links(nodes, edges, way)(u).contains((via, v)) <==> leads_over(nodes, edges, via, u, v, way),
{
    let id = nodes[u as int].id;
    let at = touching(edges, id, way);
    let f = link_fn(nodes, edges, way);
    lemma_gather_member(at, f, (via, v));
    lemma_places_of(near_ends(edges, way), id);
    if links(nodes, edges, way)(u).contains((via, v)) {
        let i = choose|i: int| 0 <= i < at.len() && f(#[trigger] at[i]) == Some((via, v));
        assert(at[i] < edges.len());
        assert(at[i] == via);
        lemma_place_within(nodes, far_end(edges[via as int], way));
    }
    if leads_over(nodes, edges, via, u, v, way) {
        assert(near_ends(edges, way)[via as int] == id);
        assert(at.contains(via));
        let i = choose|i: int| 0 <= i < at.len() && at[i] == via;
        assert(f(at[i]) == Some((via, v)));
    }
}

pub(crate) proof fn lemma_place_within(nodes: Seq<NodeView>, id: Seq<char>)
    requires
        nodes.len() <= usize::MAX,
    ensures
        place_of_id(nodes, id) matches Some(t) ==> 0 <= t < nodes.len() && nodes[t].id == id,
{
    lemma_places_of(ids(nodes), id);
    let q = places_of(ids(nodes), id);
    if q.len() > 0 {
        assert(q[q.len() - 1] < nodes.len());
        assert(ids(nodes)[q[q.len() - 1] as int] == id);
    }
}

proof fn lemma_place_of_own(nodes: Seq<NodeView>, u: usize)
    requires
        u < nodes.len() <= usize::MAX,
        distinct_ids(nodes),
    ensures
        place_of_id(nodes, nodes[u as int].id) == Some(u as int),
{
    let id = nodes[u as int].id;
    lemma_places_of(ids(nodes), id);
    lemma_place_within(nodes, id);
    assert(ids(nodes)[u as int] == id);
    assert(places_of(ids(nodes), id).contains(u));
    let t = place_of_id(nodes, id)->0;
    if t < u {
        assert(nodes[t].id != nodes[u as int].id);
    } else if u < t {
        assert(nodes[u as int].id != nodes[t].id);
    }
}

pub open spec fn other(way: Way) -> Way {
    match way {
        Way::Forward => Way::Backward,
        Way::Backward => Way::Forward,
    }
}

proof fn lemma_link_turns(nodes: Seq<NodeView>, edges: Seq<QueryEdgeView>, u: usize, v: usize, way: Way)
    requires
        u < nodes.len() <= usize::MAX,
        v < nodes.len(),
        edges.len() <= usize::MAX,
        distinct_ids(nodes),
        has_link(links(nodes, edges, way), u, v),
    ensures
        has_link(links(nodes, edges, other(way)), v, u),
{
    let ls = links(nodes, edges, way);
    let k = choose|k: int| 0 <= k < ls(u).len() && (#[trigger] ls(u)[k]).1 == v;
    let via = ls(u)[k].0;
    assert(ls(u).contains((via, v)));
    links_are_bound_references(nodes, edges, u, via, v, way);
    lemma_place_within(nodes, far_end(edges[via as int], way));
    lemma_place_of_own(nodes, u);
    assert(leads_over(nodes, edges, via, v, u, other(way)));
    links_are_bound_references(nodes, edges, v, via, u, other(way));
    let back = links(nodes, edges, other(way));
    let i = choose|i: int| 0 <= i < back(v).len() && #[trigger] back(v)[i] == (via, u);
    assert(back(v)[i].1 == u);
}

proof fn lemma_leads_within(nodes: Seq<NodeView>, edges: Seq<QueryEdgeView>, root: usize, v: usize, k: nat, way: Way)
    requires
        root < nodes.len() <= usize::MAX,
        leads(root, v, k, links(nodes, edges, way)),
    ensures
        v < nodes.len(),
    decreases k,
{
    if k > 0 {
        let ls = links(nodes, edges, way);
        let u = lemma_leads_back(root, v, (k - 1) as nat, ls);
        lemma_leads_within(nodes, edges, root, u, (k - 1) as nat, way);
        lemma_links_within(nodes, edges, way);
        let i = choose|i: int| 0 <= i < ls(u).len() && (#[trigger] ls(u)[i]).1 == v;
        assert(ls(u)[i].1 < nodes.len());
    }
}

/// One link, then `k` more.
proof fn lemma_leads_first(nodes: Seq<NodeView>, edges: Seq<QueryEdgeView>, a: usize, b: usize, c: usize, k: nat, way: Way)
    requires
        has_link(links(nodes, edges, way), a, b),
        leads(b, c, k, links(nodes, edges, way)),
    ensures
        leads(a, c, k + 1, links(nodes, edges, way)),
    decreases k,
{
    let ls = links(nodes, edges, way);
    if k == 0 {
        lemma_leads_on(a, a, c, 0, ls);
    } else {
        let u = lemma_leads_back(b, c, (k - 1) as nat, ls);
        lemma_leads_first(nodes, edges, a, b, u, (k - 1) as nat, way);
        lemma_leads_on(a, u, c, k, ls);
    }
}

/// Dependents are the inverse of dependencies: where the ids of the nodes are
/// distinct, `k` references lead forward from `a` to `b` exactly where `k`
/// references lead backward from `b` to `a`.
pub proof fn dependents_invert_dependencies(nodes: Seq<NodeView>, edges: Seq<QueryEdgeView>, a: usize, b: usize, k: nat)
    requires
        a < nodes.len() <= usize::MAX,
        b < nodes.len(),
        edges.len() <= usize::MAX,
        distinct_ids(nodes),
    ensures
        leads(a, b, k, links(nodes, edges, Way::Forward)) <==> leads(b, a, k, links(nodes, edges, Way::Backward)),
{
    if leads(a, b, k, links(nodes, edges, Way::Forward)) {
        lemma_leads_turn(nodes, edges, a, b, k, Way::Forward);
    }
    if leads(b, a, k, links(nodes, edges, Way::Backward)) {
        lemma_leads_turn(nodes, edges, b, a, k, Way::Backward);
    }
}

proof fn lemma_leads_turn(nodes: Seq<NodeView>, edges: Seq<QueryEdgeView>, a: usize, b: usize, k: nat, way: Way)
    requires
        a < nodes.len() <= usize::MAX,
        edges.len() <= usize::MAX,
        distinct_ids(nodes),
        leads(a, b, k, links(nodes, edges, way)),
    ensures
        leads(b, a, k, links(nodes, edges, other(way))),
    decreases k,
{
    if k > 0 {
        let ls = links(nodes, edges, way);
        lemma_leads_within(nodes, edges, a, b, k, way);
        let u = lemma_leads_back(a, b, (k - 1) as nat, ls);
        lemma_leads_within(nodes, edges, a, u, (k - 1) as nat, way);
        lemma_leads_turn(nodes, edges, a, u, (k - 1) as nat, way);
        lemma_link_turns(nodes, edges, u, b, way);
        lemma_leads_first(nodes, edges, b, u, a, (k - 1) as nat, other(way));
    }
}

/// The items of a group are exactly the nodes, other than the root, that at most
/// `max_depth` bound references lead to; each stands there once, with its least
/// distance as its depth; and they come in order of depth.
pub proof fn group_items_are_distances(
    nodes: Seq<NodeView>,
    edges: Seq<QueryEdgeView>,
    root: usize,
    way: Way,
    max_depth: usize,
    include_ambiguous: bool,
)
    requires
        root < nodes.len() <= usize::MAX,
    ensures
        ({
            let order = dependency_walk(nodes, edges, root, way, max_depth);
            let ls = links(nodes, edges, way);
            let items = dependency_group(nodes, edges, root, way, max_depth, include_ambiguous).items;
            &&& order.len() == items.len() + 1
            &&& order[0].node == root
            &&& forall|i: int| 0 <= i < items.len() ==> {
                &&& (#[trigger] items[i]) == item_of(nodes, order[i + 1])
                &&& 0 < items[i].depth <= max_depth
                &&& leads(root, order[i + 1].node, items[i].depth as nat, ls)
                &&& forall|k: nat| k < items[i].depth ==> !#[trigger] leads(root, order[i + 1].node, k, ls)
            }
            &&& forall|i: int, j: int| 0 <= i < j < items.len() ==> (#[trigger] items[i]).depth <= (#[trigger] items[j]).depth
            &&& forall|i: int, j: int| 0 <= i < j < order.len() ==> (#[trigger] order[i]).node != (#[trigger] order[j]).node
            &&& forall|v: usize, k: nat| k <= max_depth && #[trigger] leads(root, v, k, ls) ==> is_reached(order, v)
        }),
{
    let order = dependency_walk(nodes, edges, root, way, max_depth);
    let ls = links(nodes, edges, way);
    let items = dependency_group(nodes, edges, root, way, max_depth, include_ambiguous).items;
    lemma_links_within(nodes, edges, way);
    walk_depth_is_distance(root, ls, max_depth, nodes.len());
    lemma_walk(root, ls, max_depth, nodes.len());
    assert forall|i: int| 0 <= i < items.len() implies {
        &&& (#[trigger] items[i]) == item_of(nodes, order[i + 1])
        &&& 0 < items[i].depth <= max_depth
        &&& leads(root, order[i + 1].node, items[i].depth as nat, ls)
        &&& forall|k: nat| k < items[i].depth ==> !#[trigger] leads(root, order[i + 1].node, k, ls)
    } by {
        assert(order[i + 1].depth <= max_depth);
        assert(order[0].node != order[i + 1].node);
        if items[i].depth == 0 {
            assert(leads(root, order[i + 1].node, 0, ls));
        }
    }
    assert forall|i: int, j: int| 0 <= i < j < items.len() implies (#[trigger] items[i]).depth
        <= (#[trigger] items[j]).depth by {
        assert(order[i + 1].depth <= order[j + 1].depth);
    }
}

/// The references, from the root outward, lead to `end`: each is bound, its
/// target is where the ones before it led, and its source is the next node.
pub open spec fn is_route(nodes: Seq<NodeView>, edges: Seq<QueryEdgeView>, root: usize, hops: Seq<usize>, end: usize) -> bool
    decreases hops.len(),
{
    if hops.len() == 0 {
        end == root
    } else {
        exists|u: usize|
            is_route(nodes, edges, root, hops.drop_last(), u) && #[trigger] leads_over(
                nodes,
                edges,
                hops.last(),
                u,
                end,
                Way::Backward,
            )
    }
}

/// Every path has as many hops as its end is deep, and its hops lead from the
/// root to that end.
pub proof fn paths_are_routes(nodes: Seq<NodeView>, edges: Seq<QueryEdgeView>, root: usize, max_depth: usize, i: int)
    requires
        root < nodes.len() <= usize::MAX,
        edges.len() <= usize::MAX,
        0 <= i < dependency_walk(nodes, edges, root, Way::Backward, max_depth).len(),
    ensures
        ({
            let order = dependency_walk(nodes, edges, root, Way::Backward, max_depth);
            &&& hops_to(order, i).len() == order[i].depth
            &&& is_route(nodes, edges, root, hops_to(order, i), order[i].node)
        }),
    decreases i,
{
    let order = dependency_walk(nodes, edges, root, Way::Backward, max_depth);
    let ls = links(nodes, edges, Way::Backward);
    lemma_links_within(nodes, edges, Way::Backward);
    lemma_walk(root, ls, max_depth, nodes.len());
    if i == 0 {
        assert(hops_to(order, 0) =~= Seq::empty());
    } else {
        lemma_parent(order, i, nodes, edges, root, Way::Backward, max_depth);
        let j = parent_place(order, i);
        paths_are_routes(nodes, edges, root, max_depth, j);
        assert(order[j].node < nodes.len());
        links_are_bound_references(nodes, edges, order[i].parent, order[i].via, order[i].node, Way::Backward);
        let hops = hops_to(order, i);
        assert(hops.drop_last() =~= hops_to(order, j));
        assert(leads_over(nodes, edges, hops.last(), order[j].node, order[i].node, Way::Backward));
    }
}

} // verus!
