//! What call chains and dependencies tell of the references that they are made of.

use vstd::prelude::*;

use crate::gather::{
    lemma_flatten_has, lemma_flatten_member, lemma_gather_member, lemma_gather_push,
};
use crate::graph::call_chain::{
    ambiguous_call, call_group, call_groups, call_walk, is_function_named, AmbiguousCallView,
};
use crate::graph::dependencies::{
    ambiguous_ref, dependency_group, dependency_groups, dependency_walk, is_definition_of, unresolved_ref,
    AmbiguousRefView, DependencyNodeView, UnresolvedRefView,
};
use crate::graph::reach::{
    is_along, is_distance, is_named, is_step, lemma_named, lemma_roots, lemma_walk_visits, reaches, refers,
};
use crate::graph::walk::{is_reached, Visit};
use crate::graph::web::{
    ambiguous_fn, ambiguous_hits, candidate_names, claims, hits_out, in_hit_fn, name_fn, near_ends,
    out_hit_fn, places, roots_of, slot_fn, slot_ids, slots, touching, Hit, QueryEdgeView, Way,
};
use crate::index::resolve::NodeView;
use crate::lookup::{lemma_places_of, places_of};

verus! {

// ---- who calls whom -------------------------------------------------------------------------

/// Every entry of a call chain is a call: a resolved reference leads from a
/// function with the caller's name and file to one with the callee's, and the
/// caller is one step nearer to the root than the depth says.
pub proof fn every_entry_is_a_call(
    nodes: Seq<NodeView>,
    edges: Seq<QueryEdgeView>,
    root: usize,
    max_depth: usize,
    include_ambiguous: bool,
    i: int,
)
    requires
        root < nodes.len() <= usize::MAX,
        edges.len() <= usize::MAX,
        0 <= i < call_group(nodes, edges, root, max_depth, include_ambiguous).entries.len(),
    ensures
        ({
            let entry = call_group(nodes, edges, root, max_depth, include_ambiguous).entries[i];
            &&& 1 <= entry.depth <= max_depth
            &&& exists|e: int, u: int, v: int| #[trigger]
                refers(nodes, edges, e, u, v) && entry.caller_name == nodes[u].name && entry.caller_file == nodes[u].file_path
                    && entry.callee_name == nodes[v].name && entry.callee_file == nodes[v].file_path && v != root
                    && is_distance(nodes, edges, true, root as int, u, (entry.depth - 1) as nat) && is_distance(
                    nodes,
                    edges,
                    true,
                    root as int,
                    v,
                    entry.depth as nat,
                )
        }),
{
    let order = call_walk(nodes, edges, root, max_depth);
    lemma_walk_visits(nodes, edges, Way::Forward, root, max_depth);
    let v = order[i + 1];
    assert(order[0].node != order[i + 1].node);
    assert(is_step(nodes, edges, true, v.via as int, v.parent as int, v.node as int));
    assert(refers(nodes, edges, v.via as int, v.parent as int, v.node as int));
}

/// Every function within the depth has an entry, with its distance from the
/// root as its depth; the entries are of different functions, as `which` lists
/// them, and come in order of depth.
pub proof fn every_function_within_reach_is_listed(
    nodes: Seq<NodeView>,
    edges: Seq<QueryEdgeView>,
    root: usize,
    max_depth: usize,
    include_ambiguous: bool,
) -> (which: Seq<int>)
    requires
        root < nodes.len() <= usize::MAX,
        edges.len() <= usize::MAX,
    ensures
        ({
            let entries = call_group(nodes, edges, root, max_depth, include_ambiguous).entries;
            &&& which.len() == entries.len()
            &&& which.no_duplicates()
            &&& forall|i: int| 0 <= i < which.len() ==> {
                &&& 0 <= (#[trigger] which[i]) < nodes.len()
                &&& which[i] != root
                &&& entries[i].callee_name == nodes[which[i]].name
                &&& entries[i].callee_file == nodes[which[i]].file_path
                &&& is_distance(nodes, edges, true, root as int, which[i], entries[i].depth as nat)
            }
            &&& forall|v: int, k: nat| v != root && k <= max_depth && #[trigger] reaches(nodes, edges, true, root as int, v, k)
                ==> which.contains(v)
            &&& forall|i: int, j: int| 0 <= i < j < entries.len() ==> (#[trigger] entries[i]).depth <= (#[trigger] entries[j]).depth
        }),
{
    let order = call_walk(nodes, edges, root, max_depth);
    let entries = call_group(nodes, edges, root, max_depth, include_ambiguous).entries;
    let which = Seq::new(entries.len(), |i: int| order[i + 1].node as int);
    lemma_walk_visits(nodes, edges, Way::Forward, root, max_depth);
    lemma_others(order, which, nodes, edges, true, root, max_depth);
    assert forall|i: int, j: int| 0 <= i < j < entries.len() implies (#[trigger] entries[i]).depth
        <= (#[trigger] entries[j]).depth by {
        assert(order[i + 1].depth <= order[j + 1].depth);
    }
    assert forall|i: int| 0 <= i < which.len() implies {
        &&& 0 <= (#[trigger] which[i]) < nodes.len()
        &&& entries[i].callee_name == nodes[which[i]].name
        &&& entries[i].callee_file == nodes[which[i]].file_path
        &&& is_distance(nodes, edges, true, root as int, which[i], entries[i].depth as nat)
    } by {
        assert(order[i + 1].node < nodes.len());
    }
    which
}

/// The nodes of a walk but the root.
proof fn lemma_others(
    order: Seq<Visit>,
    which: Seq<int>,
    nodes: Seq<NodeView>,
    edges: Seq<QueryEdgeView>,
    along: bool,
    root: usize,
    max_depth: usize,
)
    requires
        order.len() > 0,
        order[0].node == root,
        which == Seq::new((order.len() - 1) as nat, |i: int| order[i + 1].node as int),
        forall|i: int, j: int| 0 <= i < j < order.len() ==> (#[trigger] order[i]).node != (#[trigger] order[j]).node,
        forall|v: int, k: nat| k <= max_depth && #[trigger] reaches(nodes, edges, along, root as int, v, k) ==> 0 <= v
            < nodes.len() && is_reached(order, v as usize),
        nodes.len() <= usize::MAX,
    ensures
        which.no_duplicates(),
        forall|i: int| 0 <= i < which.len() ==> #[trigger] which[i] != root,
        forall|v: int, k: nat| v != root && k <= max_depth && #[trigger] reaches(nodes, edges, along, root as int, v, k)
            ==> which.contains(v),
{
    assert forall|i: int, j: int| 0 <= i < which.len() && 0 <= j < which.len() && i != j implies which[i] != which[j] by {
        if i < j {
            assert(order[i + 1].node != order[j + 1].node);
        } else {
            assert(order[j + 1].node != order[i + 1].node);
        }
    }
    assert forall|i: int| 0 <= i < which.len() implies #[trigger] which[i] != root by {
        assert(order[0].node != order[i + 1].node);
    }
    assert forall|v: int, k: nat| v != root && k <= max_depth && #[trigger] reaches(nodes, edges, along, root as int, v, k) implies which.contains(
        v,
    ) by {
        let j = choose|j: int| 0 <= j < order.len() && (#[trigger] order[j]).node == v as usize;
        assert(j > 0);
        assert(which[j - 1] == v);
    }
}

/// One group for every function of the name, in the order of the nodes, each
/// under its own qualified name and file.
pub proof fn every_function_of_the_name_has_a_group(
    nodes: Seq<NodeView>,
    edges: Seq<QueryEdgeView>,
    function_name: Seq<char>,
    max_depth: usize,
    include_ambiguous: bool,
) -> (which: Seq<usize>)
    requires
        nodes.len() <= usize::MAX,
    ensures
        ({
            let groups = call_groups(nodes, edges, function_name, max_depth, include_ambiguous);
            &&& which.len() == groups.len()
            &&& forall|i: int, j: int| 0 <= i < j < which.len() ==> #[trigger] which[i] < #[trigger] which[j]
            &&& forall|i: int| 0 <= i < which.len() ==> {
                &&& (#[trigger] which[i]) < nodes.len()
                &&& nodes[which[i] as int].name == function_name
                &&& nodes[which[i] as int].node_type == "function"@
                &&& groups[i] == call_group(nodes, edges, which[i], max_depth, include_ambiguous)
                &&& groups[i].root_qualified_name == nodes[which[i] as int].qualified_name
                &&& groups[i].root_file == nodes[which[i] as int].file_path
            }
            &&& forall|v: int| 0 <= v < nodes.len() && (#[trigger] nodes[v]).name == function_name && nodes[v].node_type
                == "function"@ ==> which.contains(v as usize)
        }),
{
    let which = roots_of(nodes, is_function_named(function_name));
    lemma_roots(nodes, is_function_named(function_name));
    assert forall|v: int| 0 <= v < nodes.len() && (#[trigger] nodes[v]).name == function_name && nodes[v].node_type
        == "function"@ implies which.contains(v as usize) by {
        assert(is_function_named(function_name)(nodes[v]));
    }
    assert forall|i: int| 0 <= i < which.len() implies {
        &&& (#[trigger] which[i]) < nodes.len()
        &&& nodes[which[i] as int].name == function_name
        &&& nodes[which[i] as int].node_type == "function"@
    } by {
        assert(is_function_named(function_name)(nodes[which[i] as int]));
    }
    which
}

// ---- references that could not be told ------------------------------------------------------

/// The ambiguous references out of the nodes nearer than the limit, each with
/// the depth that following it would have led to.
proof fn lemma_hits_along(nodes: Seq<NodeView>, edges: Seq<QueryEdgeView>, root: usize, max_depth: usize, h: Hit)
    requires
        root < nodes.len() <= usize::MAX,
        edges.len() <= usize::MAX,
    ensures
        ambiguous_hits(
            nodes,
            edges,
            dependency_walk(nodes, edges, root, Way::Forward, max_depth),
            Way::Forward,
            max_depth,
        ).contains(h) <==> {
            &&& h.edge < edges.len()
            &&& edges[h.edge as int].confidence == "AMBIGUOUS"@
            &&& edges[h.edge as int].from_id == nodes[h.from as int].id
            &&& 1 <= h.depth <= max_depth
            &&& h.from < nodes.len()
            &&& is_distance(nodes, edges, true, root as int, h.from as int, (h.depth - 1) as nat)
        },
{
    let order = dependency_walk(nodes, edges, root, Way::Forward, max_depth);
    let f = ambiguous_fn(nodes, edges, Way::Forward, max_depth);
    let hits = ambiguous_hits(nodes, edges, order, Way::Forward, max_depth);
    lemma_walk_visits(nodes, edges, Way::Forward, root, max_depth);
    if hits.contains(h) {
        let k = choose|k: int| 0 <= k < hits.len() && hits[k] == h;
        lemma_flatten_member(order, f, k);
        let i = choose|i: int| 0 <= i < order.len() && f(#[trigger] order[i]).contains(hits[k]);
        let v = order[i];
        let at = touching(edges, nodes[v.node as int].id, Way::Forward);
        lemma_gather_member(at, out_hit_fn(edges, v, "AMBIGUOUS"@), h);
        let j = choose|j: int| 0 <= j < at.len() && out_hit_fn(edges, v, "AMBIGUOUS"@)(#[trigger] at[j]) == Some(h);
        lemma_places_of(near_ends(edges, Way::Forward), nodes[v.node as int].id);
        assert(at[j] < edges.len());
        assert(near_ends(edges, Way::Forward)[at[j] as int] == nodes[v.node as int].id);
    }
    if h.edge < edges.len() && edges[h.edge as int].confidence == "AMBIGUOUS"@ && edges[h.edge as int].from_id
        == nodes[h.from as int].id && 1 <= h.depth <= max_depth && h.from < nodes.len() && is_distance(
        nodes,
        edges,
        true,
        root as int,
        h.from as int,
        (h.depth - 1) as nat,
    ) {
        let d = (h.depth - 1) as nat;
        assert(reaches(nodes, edges, true, root as int, h.from as int, d));
        let i = choose|i: int| 0 <= i < order.len() && (#[trigger] order[i]).node == h.from;
        let v = order[i];
        assert(is_distance(nodes, edges, true, root as int, v.node as int, v.depth as nat));
        lemma_one_distance(nodes, edges, true, root as int, v.node as int, v.depth as nat, d);
        let at = touching(edges, nodes[v.node as int].id, Way::Forward);
        lemma_places_of(near_ends(edges, Way::Forward), nodes[v.node as int].id);
        assert(near_ends(edges, Way::Forward)[h.edge as int] == nodes[v.node as int].id);
        assert(at.contains(h.edge));
        let j = choose|j: int| 0 <= j < at.len() && at[j] == h.edge;
        assert(out_hit_fn(edges, v, "AMBIGUOUS"@)(at[j]) == Some(h));
        lemma_gather_member(at, out_hit_fn(edges, v, "AMBIGUOUS"@), h);
        lemma_flatten_has(order, f, i, h);
    }
}

/// A node has one distance.
proof fn lemma_one_distance(nodes: Seq<NodeView>, edges: Seq<QueryEdgeView>, along: bool, u: int, v: int, a: nat, b: nat)
    requires
        is_distance(nodes, edges, along, u, v, a),
        is_distance(nodes, edges, along, u, v, b),
    ensures
        a == b,
{
    if a < b {
        assert(!reaches(nodes, edges, along, u, v, a));
    } else if b < a {
        assert(!reaches(nodes, edges, along, u, v, b));
    }
}

/// The ambiguous references that name a node among their candidates.
proof fn lemma_claims(edges: Seq<QueryEdgeView>, id: Seq<char>, e: usize)
    requires
        edges.len() <= usize::MAX,
        slots(edges).len() <= usize::MAX,
    ensures
        claims(edges, id).contains(e) <==> e < edges.len() && edges[e as int].confidence == "AMBIGUOUS"@
            && edges[e as int].candidates.contains(id),
{
    let all = places(edges.len());
    let f = slot_fn(edges);
    let q = places_of(slot_ids(edges), id);
    let c = claims(edges, id);
    lemma_places_of(slot_ids(edges), id);
    if c.contains(e) {
        let k = choose|k: int| 0 <= k < c.len() && c[k] == e;
        assert(q[k] < slot_ids(edges).len());
        assert(slot_ids(edges)[q[k] as int] == id);
        lemma_flatten_member(all, f, q[k] as int);
        let i = choose|i: int| 0 <= i < all.len() && f(#[trigger] all[i]).contains(slots(edges)[q[k] as int]);
        let own = f(all[i]);
        let j = choose|j: int| 0 <= j < own.len() && own[j] == slots(edges)[q[k] as int];
        assert(own[j] == (edges[i].candidates[j], i as usize));
        assert(edges[i].candidates[j] == id);
    }
    if e < edges.len() && edges[e as int].confidence == "AMBIGUOUS"@ && edges[e as int].candidates.contains(id) {
        let j = choose|j: int| 0 <= j < edges[e as int].candidates.len() && edges[e as int].candidates[j] == id;
        let own = f(all[e as int]);
        assert(own[j] == (id, e));
        assert(own.contains((id, e)));
        lemma_flatten_has(all, f, e as int, (id, e));
        let s = choose|s: int| 0 <= s < slots(edges).len() && slots(edges)[s] == (id, e);
        assert(slot_ids(edges)[s] == id);
        assert(q.contains(s as usize));
        let k = choose|k: int| 0 <= k < q.len() && q[k] == s as usize;
        assert(c[k] == e);
    }
}

/// The ambiguous references that may mean one of the nodes nearer than the limit.
proof fn lemma_hits_against(nodes: Seq<NodeView>, edges: Seq<QueryEdgeView>, root: usize, max_depth: usize, h: Hit)
    requires
        root < nodes.len() <= usize::MAX,
        edges.len() <= usize::MAX,
        slots(edges).len() <= usize::MAX,
    ensures
        ambiguous_hits(
            nodes,
            edges,
            dependency_walk(nodes, edges, root, Way::Backward, max_depth),
            Way::Backward,
            max_depth,
        ).contains(h) <==> {
            &&& h.edge < edges.len()
            &&& edges[h.edge as int].confidence == "AMBIGUOUS"@
            &&& is_named(nodes, edges[h.edge as int].from_id, h.from as int)
            &&& 1 <= h.depth <= max_depth
            &&& exists|u: int| #[trigger] is_distance(nodes, edges, false, root as int, u, (h.depth - 1) as nat) && 0 <= u
                < nodes.len() && edges[h.edge as int].candidates.contains(nodes[u].id)
        },
{
    let order = dependency_walk(nodes, edges, root, Way::Backward, max_depth);
    let f = ambiguous_fn(nodes, edges, Way::Backward, max_depth);
    let hits = ambiguous_hits(nodes, edges, order, Way::Backward, max_depth);
    lemma_walk_visits(nodes, edges, Way::Backward, root, max_depth);
    if hits.contains(h) {
        let k = choose|k: int| 0 <= k < hits.len() && hits[k] == h;
        lemma_flatten_member(order, f, k);
        let i = choose|i: int| 0 <= i < order.len() && f(#[trigger] order[i]).contains(hits[k]);
        let v = order[i];
        let at = claims(edges, nodes[v.node as int].id);
        lemma_gather_member(at, in_hit_fn(nodes, edges, v), h);
        let j = choose|j: int| 0 <= j < at.len() && in_hit_fn(nodes, edges, v)(#[trigger] at[j]) == Some(h);
        assert(at.contains(at[j]));
        lemma_claims(edges, nodes[v.node as int].id, at[j]);
        crate::graph::paths::lemma_place_within(nodes, edges[at[j] as int].from_id);
        lemma_named(nodes, edges[at[j] as int].from_id, h.from as int);
        assert(is_distance(nodes, edges, false, root as int, v.node as int, (h.depth - 1) as nat));
    }
    if h.edge < edges.len() && edges[h.edge as int].confidence == "AMBIGUOUS"@ && is_named(
        nodes,
        edges[h.edge as int].from_id,
        h.from as int,
    ) && 1 <= h.depth <= max_depth && exists|u: int| #[trigger]
        is_distance(nodes, edges, false, root as int, u, (h.depth - 1) as nat) && 0 <= u < nodes.len()
            && edges[h.edge as int].candidates.contains(nodes[u].id) {
        let d = (h.depth - 1) as nat;
        let u = choose|u: int| #[trigger]
            is_distance(nodes, edges, false, root as int, u, d) && 0 <= u < nodes.len()
                && edges[h.edge as int].candidates.contains(nodes[u].id);
        assert(reaches(nodes, edges, false, root as int, u, d));
        let i = choose|i: int| 0 <= i < order.len() && (#[trigger] order[i]).node == u as usize;
        let v = order[i];
        assert(is_distance(nodes, edges, false, root as int, v.node as int, v.depth as nat));
        lemma_one_distance(nodes, edges, false, root as int, u, v.depth as nat, d);
        lemma_claims(edges, nodes[u].id, h.edge);
        lemma_named(nodes, edges[h.edge as int].from_id, h.from as int);
        let at = claims(edges, nodes[v.node as int].id);
        let j = choose|j: int| 0 <= j < at.len() && at[j] == h.edge;
        assert(in_hit_fn(nodes, edges, v)(at[j]) == Some(h));
        lemma_gather_member(at, in_hit_fn(nodes, edges, v), h);
        lemma_flatten_has(order, f, i, h);
    }
}

/// The candidates of a reference are shown by the qualified names of the nodes
/// that their ids name, one after the other; an id that names none is left out.
pub proof fn candidates_are_shown_by_name(nodes: Seq<NodeView>, e: QueryEdgeView, more: QueryEdgeView, id: Seq<char>)
    requires
        nodes.len() <= usize::MAX,
        more.candidates == e.candidates.push(id),
    ensures
        e.candidates.len() == 0 ==> candidate_names(nodes, e).len() == 0,
        forall|v: int| #[trigger] is_named(nodes, id, v) ==> candidate_names(nodes, more) == candidate_names(nodes, e).push(
            nodes[v].qualified_name,
        ),
        (forall|v: int| 0 <= v < nodes.len() ==> (#[trigger] nodes[v]).id != id) ==> candidate_names(nodes, more)
            == candidate_names(nodes, e),
{
    lemma_gather_push(e.candidates, id, name_fn(nodes));
    assert forall|v: int| #[trigger] is_named(nodes, id, v) implies candidate_names(nodes, more) == candidate_names(
        nodes,
        e,
    ).push(nodes[v].qualified_name) by {
        lemma_named(nodes, id, v);
    }
    crate::graph::paths::lemma_place_within(nodes, id);
}

/// The ambiguous calls of a chain, exactly: where they are wanted, those of the
/// functions nearer than the limit, with what they name; otherwise none.
pub proof fn ambiguous_calls_are_those_within_reach(
    nodes: Seq<NodeView>,
    edges: Seq<QueryEdgeView>,
    root: usize,
    max_depth: usize,
    include_ambiguous: bool,
    a: AmbiguousCallView,
)
    requires
        root < nodes.len() <= usize::MAX,
        edges.len() <= usize::MAX,
    ensures
        call_group(nodes, edges, root, max_depth, include_ambiguous).ambiguous.contains(a) <==> include_ambiguous
            && exists|e: int, u: int| #![trigger edges[e], nodes[u]]
            {
                &&& 0 <= e < edges.len() && 0 <= u < nodes.len()
                &&& edges[e].confidence == "AMBIGUOUS"@
                &&& edges[e].from_id == nodes[u].id
                &&& 1 <= a.depth <= max_depth
                &&& is_distance(nodes, edges, true, root as int, u, (a.depth - 1) as nat)
                &&& a.caller_name == nodes[u].name
                &&& a.caller_file == nodes[u].file_path
                &&& a.to_name == edges[e].to_name
                &&& a.to_type == edges[e].to_type
                &&& a.candidates == candidate_names(nodes, edges[e])
            },
{
    let g = call_group(nodes, edges, root, max_depth, include_ambiguous);
    let hits = ambiguous_hits(nodes, edges, call_walk(nodes, edges, root, max_depth), Way::Forward, max_depth);
    if g.ambiguous.contains(a) {
        let i = choose|i: int| 0 <= i < g.ambiguous.len() && g.ambiguous[i] == a;
        let h = hits[i];
        assert(hits.contains(h));
        lemma_hits_along(nodes, edges, root, max_depth, h);
        assert(edges[h.edge as int].from_id == nodes[h.from as int].id);
    }
    if include_ambiguous && exists|e: int, u: int| #![trigger edges[e], nodes[u]]
        {
            &&& 0 <= e < edges.len() && 0 <= u < nodes.len()
            &&& edges[e].confidence == "AMBIGUOUS"@
            &&& edges[e].from_id == nodes[u].id
            &&& 1 <= a.depth <= max_depth
            &&& is_distance(nodes, edges, true, root as int, u, (a.depth - 1) as nat)
            &&& a.caller_name == nodes[u].name
            &&& a.caller_file == nodes[u].file_path
            &&& a.to_name == edges[e].to_name
            &&& a.to_type == edges[e].to_type
            &&& a.candidates == candidate_names(nodes, edges[e])
        } {
        let (e, u) = choose|e: int, u: int| #![trigger edges[e], nodes[u]]
            {
                &&& 0 <= e < edges.len() && 0 <= u < nodes.len()
                &&& edges[e].confidence == "AMBIGUOUS"@
                &&& edges[e].from_id == nodes[u].id
                &&& 1 <= a.depth <= max_depth
                &&& is_distance(nodes, edges, true, root as int, u, (a.depth - 1) as nat)
                &&& a.caller_name == nodes[u].name
                &&& a.caller_file == nodes[u].file_path
                &&& a.to_name == edges[e].to_name
                &&& a.to_type == edges[e].to_type
                &&& a.candidates == candidate_names(nodes, edges[e])
            };
        let h = Hit { edge: e as usize, from: u as usize, depth: a.depth };
        lemma_hits_along(nodes, edges, root, max_depth, h);
        let i = choose|i: int| 0 <= i < hits.len() && hits[i] == h;
        assert(g.ambiguous[i] == ambiguous_call(nodes, edges, h));
        assert(g.ambiguous[i] =~= a);
    }
}

// ---- what depends on what -------------------------------------------------------------------

/// The item says what the node is.
pub open spec fn is_item(d: DependencyNodeView, n: NodeView) -> bool {
    &&& d.node_id == n.id
    &&& d.name == n.name
    &&& d.qualified_name == n.qualified_name
    &&& d.node_type == n.node_type
    &&& d.file_path == n.file_path
}

/// The items of a group are the nodes, other than the root, within the depth:
/// along the references for dependencies, against them for dependents. Each is
/// listed once, as `which` tells, at its distance from the root, and the nearer
/// come first.
pub proof fn items_are_the_nodes_within_reach(
    nodes: Seq<NodeView>,
    edges: Seq<QueryEdgeView>,
    root: usize,
    way: Way,
    max_depth: usize,
    include_ambiguous: bool,
) -> (which: Seq<int>)
    requires
        root < nodes.len() <= usize::MAX,
        edges.len() <= usize::MAX,
    ensures
        ({
            let along = way == Way::Forward;
            let g = dependency_group(nodes, edges, root, way, max_depth, include_ambiguous);
            &&& g.root_node_id == nodes[root as int].id
            &&& g.root_qualified_name == nodes[root as int].qualified_name
            &&& g.root_file == nodes[root as int].file_path
            &&& which.len() == g.items.len()
            &&& which.no_duplicates()
            &&& forall|i: int| 0 <= i < which.len() ==> {
                &&& 0 <= (#[trigger] which[i]) < nodes.len()
                &&& which[i] != root
                &&& is_item(g.items[i], nodes[which[i]])
                &&& 1 <= g.items[i].depth <= max_depth
                &&& is_distance(nodes, edges, along, root as int, which[i], g.items[i].depth as nat)
            }
            &&& forall|v: int, k: nat| v != root && k <= max_depth && #[trigger] reaches(nodes, edges, along, root as int, v, k)
                ==> which.contains(v)
            &&& forall|i: int, j: int| 0 <= i < j < g.items.len() ==> (#[trigger] g.items[i]).depth
                <= (#[trigger] g.items[j]).depth
        }),
{
    let along = is_along(way);
    let order = dependency_walk(nodes, edges, root, way, max_depth);
    let g = dependency_group(nodes, edges, root, way, max_depth, include_ambiguous);
    let which = Seq::new(g.items.len(), |i: int| order[i + 1].node as int);
    lemma_walk_visits(nodes, edges, way, root, max_depth);
    lemma_others(order, which, nodes, edges, along, root, max_depth);
    assert forall|i: int, j: int| 0 <= i < j < g.items.len() implies (#[trigger] g.items[i]).depth
        <= (#[trigger] g.items[j]).depth by {
        assert(order[i + 1].depth <= order[j + 1].depth);
    }
    assert forall|i: int| 0 <= i < which.len() implies {
        &&& 0 <= (#[trigger] which[i]) < nodes.len()
        &&& is_item(g.items[i], nodes[which[i]])
        &&& 1 <= g.items[i].depth <= max_depth
        &&& is_distance(nodes, edges, along, root as int, which[i], g.items[i].depth as nat)
    } by {
        assert(order[i + 1].node < nodes.len());
    }
    which
}

/// One group for every definition of the name, in the order of the nodes; an
/// import is no definition.
pub proof fn every_definition_of_the_name_has_a_group(
    nodes: Seq<NodeView>,
    edges: Seq<QueryEdgeView>,
    name: Seq<char>,
    way: Way,
    max_depth: usize,
    include_ambiguous: bool,
) -> (which: Seq<usize>)
    requires
        nodes.len() <= usize::MAX,
    ensures
        ({
            let groups = dependency_groups(nodes, edges, name, way, max_depth, include_ambiguous);
            &&& which.len() == groups.len()
            &&& forall|i: int, j: int| 0 <= i < j < which.len() ==> #[trigger] which[i] < #[trigger] which[j]
            &&& forall|i: int| 0 <= i < which.len() ==> {
                &&& (#[trigger] which[i]) < nodes.len()
                &&& nodes[which[i] as int].name == name
                &&& nodes[which[i] as int].node_type != "import"@
                &&& groups[i] == dependency_group(nodes, edges, which[i], way, max_depth, include_ambiguous)
            }
            &&& forall|v: int| 0 <= v < nodes.len() && (#[trigger] nodes[v]).name == name && nodes[v].node_type != "import"@
                ==> which.contains(v as usize)
        }),
{
    let which = roots_of(nodes, is_definition_of(name));
    lemma_roots(nodes, is_definition_of(name));
    assert forall|v: int| 0 <= v < nodes.len() && (#[trigger] nodes[v]).name == name && nodes[v].node_type != "import"@ implies which.contains(
        v as usize,
    ) by {
        assert(is_definition_of(name)(nodes[v]));
    }
    assert forall|i: int| 0 <= i < which.len() implies {
        &&& (#[trigger] which[i]) < nodes.len()
        &&& nodes[which[i] as int].name == name
        &&& nodes[which[i] as int].node_type != "import"@
    } by {
        assert(is_definition_of(name)(nodes[which[i] as int]));
    }
    which
}

/// The unresolved references of a group, exactly: those of the root itself, at
/// depth one, where its dependencies are asked for.
pub proof fn unresolved_references_are_the_roots_own(
    nodes: Seq<NodeView>,
    edges: Seq<QueryEdgeView>,
    root: usize,
    way: Way,
    max_depth: usize,
    include_ambiguous: bool,
    r: UnresolvedRefView,
)
    requires
        root < nodes.len() <= usize::MAX,
        edges.len() <= usize::MAX,
    ensures
        dependency_group(nodes, edges, root, way, max_depth, include_ambiguous).unresolved.contains(r) <==> {
            &&& way == Way::Forward
            &&& max_depth > 0
            &&& r.depth == 1
            &&& r.from_name == nodes[root as int].name
            &&& r.from_file == nodes[root as int].file_path
            &&& exists|e: int| #![trigger edges[e]]
                0 <= e < edges.len() && edges[e].confidence == "UNRESOLVED"@ && edges[e].from_id == nodes[root as int].id
                    && r.to_name == edges[e].to_name && r.to_type == edges[e].to_type
        },
{
    let g = dependency_group(nodes, edges, root, way, max_depth, include_ambiguous);
    let order = dependency_walk(nodes, edges, root, way, max_depth);
    lemma_walk_visits(nodes, edges, way, root, max_depth);
    let id = nodes[root as int].id;
    let at = touching(edges, id, Way::Forward);
    let f = out_hit_fn(edges, order[0], "UNRESOLVED"@);
    let own = hits_out(nodes, edges, order[0], "UNRESOLVED"@, max_depth);
    lemma_places_of(near_ends(edges, Way::Forward), id);
    if g.unresolved.contains(r) {
        let i = choose|i: int| 0 <= i < g.unresolved.len() && g.unresolved[i] == r;
        let h = own[i];
        assert(own.contains(h));
        lemma_gather_member(at, f, h);
        let j = choose|j: int| 0 <= j < at.len() && f(#[trigger] at[j]) == Some(h);
        assert(at[j] < edges.len());
        assert(near_ends(edges, Way::Forward)[at[j] as int] == id);
        assert(edges[at[j] as int].confidence == "UNRESOLVED"@);
    }
    if way == Way::Forward && max_depth > 0 && r.depth == 1 && r.from_name == nodes[root as int].name && r.from_file
        == nodes[root as int].file_path && exists|e: int| #![trigger edges[e]]
        0 <= e < edges.len() && edges[e].confidence == "UNRESOLVED"@ && edges[e].from_id == id && r.to_name == edges[e].to_name
            && r.to_type == edges[e].to_type {
        let e = choose|e: int| #![trigger edges[e]]
            0 <= e < edges.len() && edges[e].confidence == "UNRESOLVED"@ && edges[e].from_id == id && r.to_name
                == edges[e].to_name && r.to_type == edges[e].to_type;
        let h = Hit { edge: e as usize, from: root, depth: 1 };
        assert(near_ends(edges, Way::Forward)[e] == id);
        assert(at.contains(e as usize));
        let j = choose|j: int| 0 <= j < at.len() && at[j] == e as usize;
        assert(f(at[j]) == Some(h));
        lemma_gather_member(at, f, h);
        let i = choose|i: int| 0 <= i < own.len() && own[i] == h;
        assert(g.unresolved[i] == unresolved_ref(nodes, edges, h));
        assert(g.unresolved[i] =~= r);
    }
}

/// The reference as it is told of an ambiguous edge from a node.
pub open spec fn tells_ambiguous(r: AmbiguousRefView, n: NodeView, nodes: Seq<NodeView>, e: QueryEdgeView) -> bool {
    &&& e.confidence == "AMBIGUOUS"@
    &&& r.from_name == n.name
    &&& r.from_file == n.file_path
    &&& r.to_name == e.to_name
    &&& r.to_type == e.to_type
    &&& r.candidates == candidate_names(nodes, e)
}

/// Node `f` is the source of reference `e`, and the walk comes by it one step
/// beyond that many: along the references, at the source itself; against them,
/// at one of the candidates.
pub open spec fn comes_by(nodes: Seq<NodeView>, edges: Seq<QueryEdgeView>, way: Way, root: int, e: int, f: int, k: nat) -> bool {
    &&& 0 <= e < edges.len() && 0 <= f < nodes.len()
    &&& way == Way::Forward ==> edges[e].from_id == nodes[f].id && is_distance(nodes, edges, true, root, f, k)
    &&& way == Way::Backward ==> is_named(nodes, edges[e].from_id, f) && exists|u: int| #[trigger]
        is_distance(nodes, edges, false, root, u, k) && 0 <= u < nodes.len() && edges[e].candidates.contains(nodes[u].id)
}

/// The ambiguous references of a group, exactly. They are left out unless they
/// are wanted. Among dependencies they are those out of the nodes nearer than
/// the limit; among dependents, those that have such a node as a candidate.
pub proof fn ambiguous_references_are_those_within_reach(
    nodes: Seq<NodeView>,
    edges: Seq<QueryEdgeView>,
    root: usize,
    way: Way,
    max_depth: usize,
    include_ambiguous: bool,
    r: AmbiguousRefView,
)
    requires
        root < nodes.len() <= usize::MAX,
        edges.len() <= usize::MAX,
        slots(edges).len() <= usize::MAX,
    ensures
        dependency_group(nodes, edges, root, way, max_depth, include_ambiguous).ambiguous.contains(r) <==> {
            &&& include_ambiguous
            &&& 1 <= r.depth <= max_depth
            &&& exists|e: int, f: int| #[trigger]
                comes_by(nodes, edges, way, root as int, e, f, (r.depth - 1) as nat) && tells_ambiguous(
                    r,
                    nodes[f],
                    nodes,
                    edges[e],
                )
        },
{
    let g = dependency_group(nodes, edges, root, way, max_depth, include_ambiguous);
    let hits = ambiguous_hits(nodes, edges, dependency_walk(nodes, edges, root, way, max_depth), way, max_depth);
    if g.ambiguous.contains(r) {
        let i = choose|i: int| 0 <= i < g.ambiguous.len() && g.ambiguous[i] == r;
        let h = hits[i];
        assert(hits.contains(h));
        match way {
            Way::Forward => lemma_hits_along(nodes, edges, root, max_depth, h),
            Way::Backward => lemma_hits_against(nodes, edges, root, max_depth, h),
        }
        assert(comes_by(nodes, edges, way, root as int, h.edge as int, h.from as int, (r.depth - 1) as nat));
        assert(tells_ambiguous(r, nodes[h.from as int], nodes, edges[h.edge as int]));
    }
    if include_ambiguous && 1 <= r.depth <= max_depth && exists|e: int, f: int| #[trigger]
        comes_by(nodes, edges, way, root as int, e, f, (r.depth - 1) as nat) && tells_ambiguous(r, nodes[f], nodes, edges[e]) {
        let (e, f) = choose|e: int, f: int| #[trigger]
            comes_by(nodes, edges, way, root as int, e, f, (r.depth - 1) as nat) && tells_ambiguous(
                r,
                nodes[f],
                nodes,
                edges[e],
            );
        let h = Hit { edge: e as usize, from: f as usize, depth: r.depth };
        match way {
            Way::Forward => lemma_hits_along(nodes, edges, root, max_depth, h),
            Way::Backward => lemma_hits_against(nodes, edges, root, max_depth, h),
        }
        let i = choose|i: int| 0 <= i < hits.len() && hits[i] == h;
        assert(g.ambiguous[i] == ambiguous_ref(nodes, edges, h));
        assert(g.ambiguous[i] =~= r);
    }
}

} // verus!
