//! How far a hop stands from a definition of a subject.

use vstd::prelude::*;

use crate::gather::lemma_gather_member;
use crate::graph::dependencies::{is_definition_of, matching_roots};
use crate::graph::explain::opt_text;
use crate::graph::explain::rows::{ExplainGraph, GraphRows};
use crate::graph::walk::{is_distance, is_reached, leads, walk, walk_depth_is_distance, Links, Visit};
use crate::graph::web::{lemma_links_within, links, places, query_views, root_fn, roots_of, walk_web, Way, Web};
use crate::index::resolve::{node_views, NodeView, ResolverNode};
use crate::text::same_text;

verus! {

impl GraphRows {
    /// The bound references, from what is referred to back to what refers.
    pub open spec fn back_links(self) -> Links {
        links(self.resolver_nodes(), self.query_edges(), Way::Backward)
    }

    /// Is the node at a place a definition of the subject?
    pub open spec fn defines(self, root: usize, subject: Seq<char>) -> bool {
        root < self.nodes.len() && is_definition_of(subject)(self.resolver_nodes()[root as int])
    }
}

/// A node with the id is reached backward from `root` over `k` bound
/// references, and over no fewer.
pub open spec fn stands_away(g: GraphRows, root: usize, id: Seq<char>, k: nat) -> bool {
    exists|v: usize|
        v < g.nodes.len() && g.resolver_nodes()[v as int].id == id && #[trigger] is_distance(root, v, k, g.back_links())
}

/// The hop is at that depth from `root`: what it reveals stands `depth`
/// references away, and what it lands on one reference nearer.
pub open spec fn is_hop_from(g: GraphRows, root: usize, from_id: Seq<char>, to_id: Seq<char>, depth: usize) -> bool {
    &&& depth > 0
    &&& stands_away(g, root, to_id, (depth - 1) as nat)
    &&& stands_away(g, root, from_id, depth as nat)
}

/// The node at a place is a definition of the subject, under that id.
pub open spec fn is_root(g: GraphRows, root: usize, subject: Seq<char>, id: Option<Seq<char>>) -> bool {
    g.defines(root, subject) && id == Some(g.resolver_nodes()[root as int].id)
}

/// The hop is at that depth from the definition of the subject with that id.
pub open spec fn is_hop_at(
    g: GraphRows,
    subject: Seq<char>,
    root_id: Option<Seq<char>>,
    from_id: Seq<char>,
    to_id: Seq<char>,
    depth: usize,
) -> bool {
    exists|root: usize| is_root(g, root, subject, root_id) && #[trigger] is_hop_from(g, root, from_id, to_id, depth)
}

/// A walk holds a node with the id at that depth.
spec fn is_met(nodes: Seq<NodeView>, order: Seq<Visit>, id: Seq<char>, depth: usize) -> bool {
    exists|i: int|
        0 <= i < order.len() && (#[trigger] order[i]).depth == depth && nodes[order[i].node as int].id == id
}

fn meets(nodes: &[ResolverNode], order: &Vec<Visit>, id: &str, depth: usize) -> (r: bool)
    requires
        forall|i: int| 0 <= i < order.len() ==> (#[trigger] order@[i]).node < nodes.len(),
    ensures
        r == is_met(node_views(nodes@), order@, id@, depth),
{
    let ghost nv = node_views(nodes@);
    let mut i: usize = 0;
    while i < order.len()
        invariant
            i <= order.len(),
            nv == node_views(nodes@),
            forall|i: int| 0 <= i < order.len() ==> (#[trigger] order@[i]).node < nodes.len(),
            forall|k: int| 0 <= k < i ==> (#[trigger] order@[k]).depth != depth || nv[order@[k].node as int].id != id@,
        decreases order.len() - i,
    {
        let v = order[i];
        assert(order@[i as int].node < nodes.len());
        assert(nv[v.node as int] == nodes@[v.node as int].deep_view());
        if v.depth == depth && same_text(nodes[v.node].id.as_str(), id) {
            return true;
        }
        i += 1;
    }
    false
}

/// The depths in a walk are the distances.
proof fn lemma_met(g: GraphRows, root: usize, id: Seq<char>, depth: usize, max_depth: usize)
    requires
        root < g.nodes.len() <= usize::MAX,
        depth <= max_depth,
    ensures
        is_met(g.resolver_nodes(), walk(root, g.back_links(), max_depth, g.nodes.len()), id, depth) == stands_away(
            g,
            root,
            id,
            depth as nat,
        ),
{
    let nv = g.resolver_nodes();
    let ls = g.back_links();
    let order = walk(root, ls, max_depth, g.nodes.len());
    lemma_links_within(nv, g.query_edges(), Way::Backward);
    walk_depth_is_distance(root, ls, max_depth, g.nodes.len());
    crate::graph::walk::lemma_walk(root, ls, max_depth, g.nodes.len());
    if is_met(nv, order, id, depth) {
        let i = choose|i: int|
            0 <= i < order.len() && (#[trigger] order[i]).depth == depth && nv[order[i].node as int].id == id;
        assert(is_distance(root, order[i].node, depth as nat, ls));
    }
    if stands_away(g, root, id, depth as nat) {
        let v = choose|v: usize|
            v < g.nodes.len() && nv[v as int].id == id && #[trigger] is_distance(root, v, depth as nat, ls);
        assert(leads(root, v, depth as nat, ls));
        assert(is_reached(order, v));
        let i = choose|i: int| 0 <= i < order.len() && (#[trigger] order[i]).node == v;
        assert(leads(root, order[i].node, order[i].depth as nat, ls));
    }
}

/// The definitions of a subject are the roots of its walks.
pub proof fn lemma_defines(g: GraphRows, subject: Seq<char>, root: usize)
    requires
        g.nodes.len() <= usize::MAX,
    ensures
        roots_of(g.resolver_nodes(), is_definition_of(subject)).contains(root) == g.defines(root, subject),
{
    let nv = g.resolver_nodes();
    let f = root_fn(nv, is_definition_of(subject));
    let all = places(nv.len());
    lemma_gather_member(all, f, root);
    if g.defines(root, subject) {
        assert(all[root as int] == root);
        assert(f(all[root as int]) == Some(root));
    }
}

/// Is the hop at that depth from the definition of the subject with that id?
pub(crate) fn has_hop_at(
    graph: &ExplainGraph,
    subject: &str,
    root_id: &Option<String>,
    from_id: &str,
    to_id: &str,
    depth: usize,
) -> (r: bool)
    requires
        graph.wf(),
    ensures
        r == is_hop_at(graph.rows(), subject@, opt_text(*root_id), from_id@, to_id@, depth),
{
    if depth == 0 {
        return false;
    }
    let id = match root_id {
        Some(id) => id.as_str(),
        None => {
            return false;
        },
    };
    let ghost g = graph.rows();
    let nodes = graph.resolver_nodes();
    let edges = graph.query_edges();
    let web = Web::build(nodes, edges.as_slice());
    let roots = matching_roots(nodes, subject);
    let ghost nv = node_views(nodes@);
    assert(nv.len() == g.nodes.len());
    let mut i: usize = 0;
    while i < roots.len()
        invariant
            i <= roots.len(),
            depth > 0,
            g == graph.rows(),
            nv == node_views(nodes@),
            nv == g.resolver_nodes(),
            nv.len() == g.nodes.len(),
            query_views(edges@) == g.query_edges(),
            web.describes(nv, query_views(edges@)),
            roots@ == roots_of(nv, is_definition_of(subject@)),
            forall|i: int| 0 <= i < roots.len() ==> #[trigger] roots@[i] < nodes.len(),
            opt_text(*root_id) == Some(id@),
            forall|k: int|
                0 <= k < i && nv[#[trigger] roots@[k] as int].id == id@ ==> !is_hop_from(
                    g,
                    roots@[k],
                    from_id@,
                    to_id@,
                    depth,
                ),
        decreases roots.len() - i,
    {
        let root: usize = roots[i];
        assert(roots@[i as int] < nodes.len());
        assert(nv[root as int] == nodes@[root as int].deep_view());
        if same_text(nodes[root].id.as_str(), id) {
            let order = walk_web(nodes, edges.as_slice(), &web, root, Way::Backward, depth);
            proof {
                lemma_met(g, root, from_id@, depth, depth);
                lemma_met(g, root, to_id@, (depth - 1) as usize, depth);
            }
            if meets(nodes, &order, from_id, depth) && meets(nodes, &order, to_id, depth - 1) {
                proof {
                    assert(roots@.contains(root));
                    lemma_defines(g, subject@, root);
                    assert(is_root(g, root, subject@, opt_text(*root_id)));
                    assert(is_hop_from(g, root, from_id@, to_id@, depth));
                }
                return true;
            }
        }
        i += 1;
    }
    proof {
        if is_hop_at(g, subject@, opt_text(*root_id), from_id@, to_id@, depth) {
            let root = choose|root: usize|
                is_root(g, root, subject@, opt_text(*root_id)) && #[trigger] is_hop_from(g, root, from_id@, to_id@, depth);
            lemma_defines(g, subject@, root);
            let k = choose|k: int| 0 <= k < roots@.len() && roots@[k] == root;
            assert(!is_hop_from(g, roots@[k], from_id@, to_id@, depth));
        }
    }
    false
}

} // verus!
