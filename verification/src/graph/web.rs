//! References as queries read them, and the links that they make.

use vstd::prelude::*;

use crate::gather::{flatten, gather};
use crate::graph::walk::{
    expand, follow, is_mid_state, is_reached, is_walk_state, lemma_expanded, lemma_follow_one, lemma_follow_step,
    lemma_start, links_within, start, walk, walk_from, Links, Visit,
};
use crate::index::resolve::indices::{ids, place_of_id};
use crate::index::resolve::{node_views, NodeView, ResolverNode};
use crate::lookup::{lemma_places_of, lemma_take_next, places_of, put, SortedIndex};
use crate::text::same_text;

verus! {

/// A reference with what resolution left of it.
#[derive(Debug, Clone)]
pub struct QueryEdge {
    pub from_id: String,
    pub to_id: String,
    pub to_name: String,
    pub to_type: String,
    pub edge_type: String,
    pub confidence: String,
    /// The ids that were left, where the reference is ambiguous.
    pub candidates: Vec<String>,
}

#[verifier::ext_equal]
pub struct QueryEdgeView {
    pub from_id: Seq<char>,
    pub to_id: Seq<char>,
    pub to_name: Seq<char>,
    pub to_type: Seq<char>,
    pub edge_type: Seq<char>,
    pub confidence: Seq<char>,
    pub candidates: Seq<Seq<char>>,
}

impl DeepView for QueryEdge {
    type V = QueryEdgeView;

    open spec fn deep_view(&self) -> QueryEdgeView {
        QueryEdgeView {
            from_id: self.from_id@,
            to_id: self.to_id@,
            to_name: self.to_name@,
            to_type: self.to_type@,
            edge_type: self.edge_type@,
            confidence: self.confidence@,
            candidates: self.candidates.deep_view(),
        }
    }
}

pub open spec fn query_views(edges: Seq<QueryEdge>) -> Seq<QueryEdgeView> {
    Seq::new(edges.len(), |i: int| edges[i].deep_view())
}

/// The sense in which references are followed.
#[derive(Debug, Clone, Copy, PartialEq, Eq, Structural)]
pub enum Way {
    /// From the source to the target.
    Forward,
    /// From the target to the source.
    Backward,
}

pub open spec fn near_end(e: QueryEdgeView, way: Way) -> Seq<char> {
    match way {
        Way::Forward => e.from_id,
        Way::Backward => e.to_id,
    }
}

pub open spec fn far_end(e: QueryEdgeView, way: Way) -> Seq<char> {
    match way {
        Way::Forward => e.to_id,
        Way::Backward => e.from_id,
    }
}

pub open spec fn near_ends(edges: Seq<QueryEdgeView>, way: Way) -> Seq<Seq<char>> {
    Seq::new(edges.len(), |i: int| near_end(edges[i], way))
}

/// The references at a node, by their places.
pub open spec fn touching(edges: Seq<QueryEdgeView>, id: Seq<char>, way: Way) -> Seq<usize> {
    places_of(near_ends(edges, way), id)
}

/// Is the reference bound to a definition?
pub open spec fn is_bound(e: QueryEdgeView) -> bool {
    e.confidence == "RESOLVED"@ && e.to_id.len() > 0
}

pub open spec fn link_fn(
    nodes: Seq<NodeView>,
    edges: Seq<QueryEdgeView>,
    way: Way,
) -> spec_fn(usize) -> Option<(usize, usize)> {
    |i: usize|
        if is_bound(edges[i as int]) {
            match place_of_id(nodes, far_end(edges[i as int], way)) {
                Some(t) => Some((i, t as usize)),
                None => None,
            }
        } else {
            None
        }
}

/// The links of a node: its bound references, in their order, whose other end
/// is a known node. References that are ambiguous or unresolved make no links.
pub open spec fn links(nodes: Seq<NodeView>, edges: Seq<QueryEdgeView>, way: Way) -> Links {
    |v: usize| gather(touching(edges, nodes[v as int].id, way), link_fn(nodes, edges, way))
}

/// A candidate of an ambiguous reference: its id and the place of the reference.
pub open spec fn slot_fn(edges: Seq<QueryEdgeView>) -> spec_fn(usize) -> Seq<(Seq<char>, usize)> {
    |i: usize|
        if edges[i as int].confidence == "AMBIGUOUS"@ {
            Seq::new(edges[i as int].candidates.len(), |k: int| (edges[i as int].candidates[k], i))
        } else {
            Seq::empty()
        }
}

/// The places of a list.
pub open spec fn places(n: nat) -> Seq<usize> {
    Seq::new(n, |i: int| i as usize)
}

/// The candidates of all ambiguous references.
pub open spec fn slots(edges: Seq<QueryEdgeView>) -> Seq<(Seq<char>, usize)> {
    flatten(places(edges.len()), slot_fn(edges))
}

pub open spec fn slot_ids(edges: Seq<QueryEdgeView>) -> Seq<Seq<char>> {
    Seq::new(slots(edges).len(), |i: int| slots(edges)[i].0)
}

/// The qualified names of a reference's candidates; ids that no node has are
/// left out.
pub open spec fn candidate_names(nodes: Seq<NodeView>, e: QueryEdgeView) -> Seq<Seq<char>> {
    gather(e.candidates, name_fn(nodes))
}

pub open spec fn name_fn(nodes: Seq<NodeView>) -> spec_fn(Seq<char>) -> Option<Seq<char>> {
    |id: Seq<char>|
        match place_of_id(nodes, id) {
            Some(i) => Some(nodes[i].qualified_name),
            None => None,
        }
}

/// Finds nodes by id and references by either end.
pub struct Web {
    id_index: SortedIndex<String>,
    from_index: SortedIndex<String>,
    to_index: SortedIndex<String>,
    slot_index: SortedIndex<String>,
    slot_edges: Vec<usize>,
}

impl Web {
    pub closed spec fn describes(&self, nodes: Seq<NodeView>, edges: Seq<QueryEdgeView>) -> bool {
        &&& self.id_index.wf()
        &&& self.id_index.keys() == ids(nodes)
        &&& self.from_index.wf()
        &&& self.from_index.keys() == near_ends(edges, Way::Forward)
        &&& self.to_index.wf()
        &&& self.to_index.keys() == near_ends(edges, Way::Backward)
        &&& self.slot_index.wf()
        &&& self.slot_index.keys() == slot_ids(edges)
        &&& self.slot_edges@ == Seq::new(slots(edges).len(), |i: int| slots(edges)[i].1)
        &&& nodes.len() <= usize::MAX
        &&& edges.len() <= usize::MAX
        &&& forall|i: int| 0 <= i < self.slot_edges.len() ==> #[trigger] self.slot_edges@[i] < edges.len()
    }

    pub fn build(nodes: &[ResolverNode], edges: &[QueryEdge]) -> (r: Web)
        ensures
            r.describes(node_views(nodes@), query_views(edges@)),
    {
        let ghost nv = node_views(nodes@);
        let ghost ev = query_views(edges@);
        let mut node_ids: Vec<String> = Vec::new();
        let mut i: usize = 0;
        while i < nodes.len()
            invariant
                i <= nodes.len(),
                nv == node_views(nodes@),
                node_ids.deep_view() == ids(nv).take(i as int),
            decreases nodes.len() - i,
        {
            put(&mut node_ids, nodes[i].id.as_str().to_owned());
            proof {
                lemma_take_next(ids(nv), i as int);
            }
            i += 1;
        }
        assert(ids(nv).take(i as int) =~= ids(nv));
        let mut from_ids: Vec<String> = Vec::new();
        let mut to_ids: Vec<String> = Vec::new();
        let mut slot_keys: Vec<String> = Vec::new();
        let mut slot_edges: Vec<usize> = Vec::new();
        let mut j: usize = 0;
        while j < edges.len()
            invariant
                j <= edges.len(),
                ev == query_views(edges@),
                from_ids.deep_view() == near_ends(ev, Way::Forward).take(j as int),
                to_ids.deep_view() == near_ends(ev, Way::Backward).take(j as int),
                pairs_up(slot_keys.deep_view(), slot_edges@, flatten(places(ev.len()).take(j as int), slot_fn(ev))),
                forall|i: int| 0 <= i < slot_edges.len() ==> #[trigger] slot_edges@[i] < ev.len(),
            decreases edges.len() - j,
        {
            let e = &edges[j];
            put(&mut from_ids, e.from_id.as_str().to_owned());
            put(&mut to_ids, e.to_id.as_str().to_owned());
            proof {
                lemma_take_next(near_ends(ev, Way::Forward), j as int);
                lemma_take_next(near_ends(ev, Way::Backward), j as int);
                lemma_take_next(places(ev.len()), j as int);
            }
            let ghost before = flatten(places(ev.len()).take(j as int), slot_fn(ev));
            if same_text(e.confidence.as_str(), "AMBIGUOUS") {
                let ghost own = slot_fn(ev)(j);
                assert(own =~= Seq::new(ev[j as int].candidates.len(), |k: int| (ev[j as int].candidates[k], j)));
                let mut k: usize = 0;
                while k < e.candidates.len()
                    invariant
                        k <= e.candidates.len(),
                        j < ev.len(),
                        e.candidates.deep_view() == ev[j as int].candidates,
                        own == Seq::new(ev[j as int].candidates.len(), |k: int| (ev[j as int].candidates[k], j)),
                        pairs_up(slot_keys.deep_view(), slot_edges@, before + own.take(k as int)),
                        forall|i: int| 0 <= i < slot_edges.len() ==> #[trigger] slot_edges@[i] < ev.len(),
                    decreases e.candidates.len() - k,
                {
                    assert(e.candidates.deep_view()[k as int] == e.candidates[k as int]@);
                    put(&mut slot_keys, e.candidates[k].as_str().to_owned());
                    slot_edges.push(j);
                    proof {
                        lemma_take_next(own, k as int);
                        assert(before + own.take(k + 1int) =~= (before + own.take(k as int)).push(own[k as int]));
                    }
                    k += 1;
                }
                assert(own.take(k as int) =~= own);
            } else {
                assert(slot_fn(ev)(j) =~= Seq::empty());
                assert(before + Seq::empty() =~= before);
            }
            j += 1;
        }
        assert(near_ends(ev, Way::Forward).take(j as int) =~= near_ends(ev, Way::Forward));
        assert(near_ends(ev, Way::Backward).take(j as int) =~= near_ends(ev, Way::Backward));
        assert(places(ev.len()).take(j as int) =~= places(ev.len()));
        assert(slot_keys.deep_view() =~= slot_ids(ev));
        assert(slot_edges@ =~= Seq::new(slots(ev).len(), |i: int| slots(ev)[i].1));
        Web {
            id_index: SortedIndex::build(node_ids),
            from_index: SortedIndex::build(from_ids),
            to_index: SortedIndex::build(to_ids),
            slot_index: SortedIndex::build(slot_keys),
            slot_edges,
        }
    }

    /// The place of the node with that id; of several, the last.
    pub(crate) fn find(
        &self,
        id: &String,
        Ghost(nodes): Ghost<Seq<NodeView>>,
        Ghost(edges): Ghost<Seq<QueryEdgeView>>,
    ) -> (r: Option<usize>)
        requires
            self.describes(nodes, edges),
        ensures
            match r {
                Some(i) => i < nodes.len() && place_of_id(nodes, id@) == Some(i as int) && nodes[i as int].id == id@,
                None => place_of_id(nodes, id@) is None,
            },
    {
        let q = self.id_index.places(id);
        let n: usize = q.len();
        if n == 0 {
            None
        } else {
            proof {
                lemma_places_of(ids(nodes), id@);
            }
            assert(q@[n - 1] < nodes.len());
            Some(q[n - 1])
        }
    }

    /// The references at a node.
    pub(crate) fn at(
        &self,
        id: &String,
        way: Way,
        Ghost(nodes): Ghost<Seq<NodeView>>,
        Ghost(edges): Ghost<Seq<QueryEdgeView>>,
    ) -> (r: Vec<usize>)
        requires
            self.describes(nodes, edges),
        ensures
            r@ == touching(edges, id@, way),
            forall|i: int| 0 <= i < r.len() ==> #[trigger] r@[i] < edges.len(),
    {
        proof {
            lemma_places_of(near_ends(edges, way), id@);
        }
        match way {
            Way::Forward => self.from_index.places(id),
            Way::Backward => self.to_index.places(id),
        }
    }

    /// The ambiguous references that have a node among their candidates, once
    /// for each time it stands there.
    pub(crate) fn claiming(
        &self,
        id: &String,
        Ghost(nodes): Ghost<Seq<NodeView>>,
        Ghost(edges): Ghost<Seq<QueryEdgeView>>,
    ) -> (r: Vec<usize>)
        requires
            self.describes(nodes, edges),
        ensures
            r@ == claims(edges, id@),
            forall|i: int| 0 <= i < r.len() ==> #[trigger] r@[i] < edges.len(),
    {
        let q = self.slot_index.places(id);
        proof {
            lemma_places_of(slot_ids(edges), id@);
        }
        let mut out: Vec<usize> = Vec::new();
        let mut i: usize = 0;
        while i < q.len()
            invariant
                i <= q.len(),
                self.describes(nodes, edges),
                q@ == places_of(slot_ids(edges), id@),
                forall|j: int| 0 <= j < q.len() ==> #[trigger] q@[j] < slots(edges).len(),
                out@ == claims(edges, id@).take(i as int),
                forall|j: int| 0 <= j < out.len() ==> #[trigger] out@[j] < edges.len(),
            decreases q.len() - i,
        {
            assert(q@[i as int] < slots(edges).len());
            let e: usize = self.slot_edges[q[i]];
            out.push(e);
            proof {
                lemma_take_next(claims(edges, id@), i as int);
            }
            i += 1;
        }
        assert(claims(edges, id@).take(i as int) =~= claims(edges, id@));
        out
    }
}

/// The ambiguous references that have the node among their candidates.
pub open spec fn claims(edges: Seq<QueryEdgeView>, id: Seq<char>) -> Seq<usize> {
    let q = places_of(slot_ids(edges), id);
    Seq::new(q.len(), |i: int| slots(edges)[q[i] as int].1)
}

pub open spec fn pairs_up(keys: Seq<Seq<char>>, places: Seq<usize>, pairs: Seq<(Seq<char>, usize)>) -> bool {
    &&& keys.len() == pairs.len()
    &&& places.len() == pairs.len()
    &&& forall|i: int| 0 <= i < pairs.len() ==> keys[i] == (#[trigger] pairs[i]).0 && places[i] == pairs[i].1
}

/// The links of every node lead to nodes.
pub proof fn lemma_links_within(nodes: Seq<NodeView>, edges: Seq<QueryEdgeView>, way: Way)
    requires
        nodes.len() <= usize::MAX,
    ensures
        links_within(links(nodes, edges, way), nodes.len()),
{
    let ls = links(nodes, edges, way);
    assert forall|v: usize, k: int| v < nodes.len() && 0 <= k < ls(v).len() implies (#[trigger] ls(v)[k]).1 < nodes.len() by {
        lemma_linked_nodes(nodes, edges, way, touching(edges, nodes[v as int].id, way));
    }
}

proof fn lemma_linked_nodes(nodes: Seq<NodeView>, edges: Seq<QueryEdgeView>, way: Way, at: Seq<usize>)
    requires
        nodes.len() <= usize::MAX,
    ensures
        forall|k: int| 0 <= k < gather(at, link_fn(nodes, edges, way)).len() ==> (#[trigger] gather(
            at,
            link_fn(nodes, edges, way),
        )[k]).1 < nodes.len(),
    decreases at.len(),
{
    if at.len() > 0 {
        let f = link_fn(nodes, edges, way);
        let rest = gather(at.drop_last(), f);
        lemma_linked_nodes(nodes, edges, way, at.drop_last());
        let id = far_end(edges[at.last() as int], way);
        lemma_places_of(ids(nodes), id);
        let q = places_of(ids(nodes), id);
        if q.len() > 0 {
            assert(q[q.len() - 1] < nodes.len());
        }
        assert forall|k: int| 0 <= k < gather(at, f).len() implies (#[trigger] gather(at, f)[k]).1 < nodes.len() by {
            if k < rest.len() {
                assert(gather(at, f)[k] == rest[k]);
            }
        }
    }
}

fn links_at(nodes: &[ResolverNode], edges: &[QueryEdge], web: &Web, v: usize, way: Way) -> (r: Vec<(usize, usize)>)
    requires
        web.describes(node_views(nodes@), query_views(edges@)),
        v < nodes.len(),
    ensures
        r@ == links(node_views(nodes@), query_views(edges@), way)(v),
{
    let ghost nv = node_views(nodes@);
    let ghost ev = query_views(edges@);
    let q = web.at(&nodes[v].id, way, Ghost(nv), Ghost(ev));
    let mut out: Vec<(usize, usize)> = Vec::new();
    let mut i: usize = 0;
    while i < q.len()
        invariant
            i <= q.len(),
            nv == node_views(nodes@),
            ev == query_views(edges@),
            web.describes(nv, ev),
            forall|j: int| 0 <= j < q.len() ==> #[trigger] q@[j] < edges.len(),
            out@ == gather(q@.take(i as int), link_fn(nv, ev, way)),
        decreases q.len() - i,
    {
        let ei: usize = q[i];
        assert(q@[i as int] < edges.len());
        let e = &edges[ei];
        assert(ev[ei as int] == e.deep_view());
        proof {
            lemma_take_next(q@, i as int);
        }
        if same_text(e.confidence.as_str(), "RESOLVED") && !e.to_id.as_str().is_empty() {
            let far = match way {
                Way::Forward => &e.to_id,
                Way::Backward => &e.from_id,
            };
            match web.find(far, Ghost(nv), Ghost(ev)) {
                Some(t) => {
                    out.push((ei, t));
                },
                None => {},
            }
        }
        i += 1;
    }
    assert(q@.take(i as int) =~= q@);
    out
}

/// Walks the bound references from a node.
pub(crate) fn walk_web(
    nodes: &[ResolverNode],
    edges: &[QueryEdge],
    web: &Web,
    root: usize,
    way: Way,
    max_depth: usize,
) -> (order: Vec<Visit>)
    requires
        web.describes(node_views(nodes@), query_views(edges@)),
        root < nodes.len(),
    ensures
        order@ == walk(root, links(node_views(nodes@), query_views(edges@), way), max_depth, nodes@.len()),
        forall|i: int| 0 <= i < order.len() ==> (#[trigger] order@[i]).node < nodes.len() && order@[i].parent < nodes.len()
            && order@[i].depth <= max_depth,
        order.len() > 0,
{
    let ghost nv = node_views(nodes@);
    let ghost ev = query_views(edges@);
    let ghost ls = links(nv, ev, way);
    let ghost n = nodes@.len();
    let mut seen: Vec<bool> = Vec::new();
    let mut i: usize = 0;
    while i < nodes.len()
        invariant
            i <= nodes.len(),
            seen.len() == i,
            forall|v: int| 0 <= v < i ==> seen@[v] == (v == root),
        decreases nodes.len() - i,
    {
        seen.push(i == root);
        i += 1;
    }
    let mut order: Vec<Visit> = Vec::new();
    order.push(Visit { node: root, depth: 0, parent: root, via: 0 });
    assert(order@ =~= start(root));
    proof {
        lemma_start(root, ls, max_depth, n);
        lemma_links_within(nv, ev, way);
        assert(start(root)[0].node == root);
    }
    let mut head: usize = 0;
    while head < order.len()
        invariant
            head <= order.len(),
            web.describes(nv, ev),
            nv == node_views(nodes@),
            ev == query_views(edges@),
            ls == links(nv, ev, way),
            n == nodes@.len(),
            n <= usize::MAX,
            links_within(ls, n),
            seen.len() == n,
            is_walk_state(order@, head as int, root, ls, max_depth, n),
            forall|i: int| 0 <= i < order.len() ==> (#[trigger] order@[i]).parent < n,
            forall|v: usize| v < n ==> #[trigger] seen@[v as int] == is_reached(order@, v),
            walk_from(order@, head as int, ls, max_depth, n) == walk(root, ls, max_depth, n),
        decreases n - head,
    {
        let at = order[head];
        let ghost before = order@;
        if at.depth < max_depth {
            let out = links_at(nodes, edges, web, at.node, way);
            assert(out@.take(0) =~= Seq::empty());
            assert(is_mid_state(order@, head as int, 0, root, ls, max_depth, n)) by {
                reveal(crate::graph::walk::are_reached);
            }
            let mut k: usize = 0;
            while k < out.len()
                invariant
                    k <= out.len(),
                    head < before.len(),
                    at == before[head as int],
                    at.node < n,
                    at.depth < max_depth,
                    out@ == ls(at.node),
                    n == nodes@.len(),
                    n <= usize::MAX,
                    links_within(ls, n),
                    seen.len() == n,
                    order@[head as int] == at,
                    is_mid_state(order@, head as int, k as int, root, ls, max_depth, n),
                    forall|i: int| 0 <= i < order.len() ==> (#[trigger] order@[i]).parent < n,
                    forall|v: usize| v < n ==> #[trigger] seen@[v as int] == is_reached(order@, v),
                    order@ == follow(before, at, out@.take(k as int)),
                decreases out.len() - k,
            {
                let (via, to) = out[k];
                let ghost mid = order@;
                proof {
                    lemma_follow_step(before, at, out@, k as int);
                    lemma_follow_one(mid, head as int, k as int, root, ls, max_depth, n);
                    assert(ls(at.node)[k as int].1 < n);
                }
                if !seen[to] {
                    let v = Visit { node: to, depth: at.depth + 1, parent: at.node, via };
                    order.push(v);
                    seen.set(to, true);
                    proof {
                        assert forall|u: usize| u < n implies #[trigger] seen@[u as int] == is_reached(order@, u) by {
                            if u == to {
                                assert(order@[mid.len() as int].node == to);
                            } else {
                                if is_reached(mid, u) {
                                    let i = choose|i: int| 0 <= i < mid.len() && (#[trigger] mid[i]).node == u;
                                    assert(order@[i].node == u);
                                }
                                if is_reached(order@, u) {
                                    let i = choose|i: int| 0 <= i < order@.len() && (#[trigger] order@[i]).node == u;
                                    assert(mid[i].node == u);
                                }
                            }
                        }
                    }
                }
                k += 1;
            }
            assert(out@.take(k as int) =~= out@);
            assert(order@ == expand(before, head as int, ls, max_depth));
        }
        proof {
            lemma_expanded(order@, head as int, root, ls, max_depth, n);
        }
        head += 1;
    }
    order
}

/// A reference that a walk came by without following it.
#[derive(Debug, Clone, Copy, PartialEq, Eq, Structural)]
pub struct Hit {
    pub edge: usize,
    /// The node that the reference stands in.
    pub from: usize,
    pub depth: usize,
}

pub open spec fn out_hit_fn(edges: Seq<QueryEdgeView>, v: Visit, confidence: Seq<char>) -> spec_fn(usize) -> Option<Hit> {
    |i: usize|
        if edges[i as int].confidence == confidence {
            Some(Hit { edge: i, from: v.node, depth: (v.depth + 1) as usize })
        } else {
            None
        }
}

/// The references of that confidence out of a node that the walk expanded.
pub open spec fn hits_out(
    nodes: Seq<NodeView>,
    edges: Seq<QueryEdgeView>,
    v: Visit,
    confidence: Seq<char>,
    max_depth: usize,
) -> Seq<Hit> {
    if v.depth < max_depth {
        gather(touching(edges, nodes[v.node as int].id, Way::Forward), out_hit_fn(edges, v, confidence))
    } else {
        Seq::empty()
    }
}

pub open spec fn in_hit_fn(nodes: Seq<NodeView>, edges: Seq<QueryEdgeView>, v: Visit) -> spec_fn(usize) -> Option<Hit> {
    |i: usize|
        match place_of_id(nodes, edges[i as int].from_id) {
            Some(s) => Some(Hit { edge: i, from: s as usize, depth: (v.depth + 1) as usize }),
            None => None,
        }
}

/// The ambiguous references that may mean a node that the walk expanded.
pub open spec fn hits_in(nodes: Seq<NodeView>, edges: Seq<QueryEdgeView>, v: Visit, max_depth: usize) -> Seq<Hit> {
    if v.depth < max_depth {
        gather(claims(edges, nodes[v.node as int].id), in_hit_fn(nodes, edges, v))
    } else {
        Seq::empty()
    }
}

pub open spec fn ambiguous_fn(
    nodes: Seq<NodeView>,
    edges: Seq<QueryEdgeView>,
    way: Way,
    max_depth: usize,
) -> spec_fn(Visit) -> Seq<Hit> {
    |v: Visit|
        match way {
            Way::Forward => hits_out(nodes, edges, v, "AMBIGUOUS"@, max_depth),
            Way::Backward => hits_in(nodes, edges, v, max_depth),
        }
}

/// The ambiguous references that a walk came by, in the order of the walk.
pub open spec fn ambiguous_hits(
    nodes: Seq<NodeView>,
    edges: Seq<QueryEdgeView>,
    order: Seq<Visit>,
    way: Way,
    max_depth: usize,
) -> Seq<Hit> {
    flatten(order, ambiguous_fn(nodes, edges, way, max_depth))
}

/// Every hit names a reference and a node.
pub open spec fn hits_within(hits: Seq<Hit>, n_edges: nat, n_nodes: nat) -> bool {
    forall|i: int| 0 <= i < hits.len() ==> (#[trigger] hits[i]).edge < n_edges && hits[i].from < n_nodes
}

pub(crate) fn find_hits_out(
    nodes: &[ResolverNode],
    edges: &[QueryEdge],
    web: &Web,
    v: Visit,
    confidence: &str,
    max_depth: usize,
) -> (r: Vec<Hit>)
    requires
        web.describes(node_views(nodes@), query_views(edges@)),
        v.node < nodes.len(),
    ensures
        r@ == hits_out(node_views(nodes@), query_views(edges@), v, confidence@, max_depth),
        hits_within(r@, edges@.len(), nodes@.len()),
{
    let ghost nv = node_views(nodes@);
    let ghost ev = query_views(edges@);
    let mut out: Vec<Hit> = Vec::new();
    if v.depth < max_depth {
        let q = web.at(&nodes[v.node].id, Way::Forward, Ghost(nv), Ghost(ev));
        let mut i: usize = 0;
        while i < q.len()
            invariant
                i <= q.len(),
                nv == node_views(nodes@),
                ev == query_views(edges@),
                v.node < nodes.len(),
                v.depth < max_depth,
                forall|j: int| 0 <= j < q.len() ==> #[trigger] q@[j] < edges.len(),
                out@ == gather(q@.take(i as int), out_hit_fn(ev, v, confidence@)),
                hits_within(out@, edges@.len(), nodes@.len()),
            decreases q.len() - i,
        {
            let ei: usize = q[i];
            assert(q@[i as int] < edges.len());
            assert(ev[ei as int] == edges[ei as int].deep_view());
            proof {
                lemma_take_next(q@, i as int);
            }
            if same_text(edges[ei].confidence.as_str(), confidence) {
                out.push(Hit { edge: ei, from: v.node, depth: v.depth + 1 });
            }
            i += 1;
        }
        assert(q@.take(i as int) =~= q@);
    }
    out
}

pub(crate) fn find_hits_in(
    nodes: &[ResolverNode],
    edges: &[QueryEdge],
    web: &Web,
    v: Visit,
    max_depth: usize,
) -> (r: Vec<Hit>)
    requires
        web.describes(node_views(nodes@), query_views(edges@)),
        v.node < nodes.len(),
    ensures
        r@ == hits_in(node_views(nodes@), query_views(edges@), v, max_depth),
        hits_within(r@, edges@.len(), nodes@.len()),
{
    let ghost nv = node_views(nodes@);
    let ghost ev = query_views(edges@);
    let mut out: Vec<Hit> = Vec::new();
    if v.depth < max_depth {
        let q = web.claiming(&nodes[v.node].id, Ghost(nv), Ghost(ev));
        let mut i: usize = 0;
        while i < q.len()
            invariant
                i <= q.len(),
                nv == node_views(nodes@),
                ev == query_views(edges@),
                web.describes(nv, ev),
                v.node < nodes.len(),
                v.depth < max_depth,
                forall|j: int| 0 <= j < q.len() ==> #[trigger] q@[j] < edges.len(),
                out@ == gather(q@.take(i as int), in_hit_fn(nv, ev, v)),
                hits_within(out@, edges@.len(), nodes@.len()),
            decreases q.len() - i,
        {
            let ei: usize = q[i];
            assert(q@[i as int] < edges.len());
            assert(ev[ei as int] == edges[ei as int].deep_view());
            proof {
                lemma_take_next(q@, i as int);
            }
            match web.find(&edges[ei].from_id, Ghost(nv), Ghost(ev)) {
                Some(s) => {
                    out.push(Hit { edge: ei, from: s, depth: v.depth + 1 });
                },
                None => {},
            }
            i += 1;
        }
        assert(q@.take(i as int) =~= q@);
    }
    out
}

pub(crate) fn find_ambiguous(
    nodes: &[ResolverNode],
    edges: &[QueryEdge],
    web: &Web,
    order: &Vec<Visit>,
    way: Way,
    max_depth: usize,
) -> (r: Vec<Hit>)
    requires
        web.describes(node_views(nodes@), query_views(edges@)),
        forall|i: int| 0 <= i < order.len() ==> (#[trigger] order@[i]).node < nodes.len(),
    ensures
        r@ == ambiguous_hits(node_views(nodes@), query_views(edges@), order@, way, max_depth),
        hits_within(r@, edges@.len(), nodes@.len()),
{
    let ghost nv = node_views(nodes@);
    let ghost ev = query_views(edges@);
    let mut out: Vec<Hit> = Vec::new();
    let mut i: usize = 0;
    while i < order.len()
        invariant
            i <= order.len(),
            nv == node_views(nodes@),
            ev == query_views(edges@),
            web.describes(nv, ev),
            forall|i: int| 0 <= i < order.len() ==> (#[trigger] order@[i]).node < nodes.len(),
            out@ == flatten(order@.take(i as int), ambiguous_fn(nv, ev, way, max_depth)),
            hits_within(out@, edges@.len(), nodes@.len()),
        decreases order.len() - i,
    {
        proof {
            lemma_take_next(order@, i as int);
        }
        let v = order[i];
        let mut own = match way {
            Way::Forward => find_hits_out(nodes, edges, web, v, "AMBIGUOUS", max_depth),
            Way::Backward => find_hits_in(nodes, edges, web, v, max_depth),
        };
        let ghost a = out@;
        let ghost b = own@;
        out.append(&mut own);
        assert(hits_within(out@, edges@.len(), nodes@.len())) by {
            assert forall|k: int| 0 <= k < out@.len() implies (#[trigger] out@[k]).edge < edges@.len() && out@[k].from
                < nodes@.len() by {
                if k < a.len() {
                    assert(out@[k] == a[k]);
                } else {
                    assert(out@[k] == b[k - a.len()]);
                }
            }
        }
        i += 1;
    }
    assert(order@.take(i as int) =~= order@);
    out
}

pub(crate) fn find_candidate_names(nodes: &[ResolverNode], edges: &[QueryEdge], web: &Web, e: &QueryEdge) -> (r: Vec<String>)
    requires
        web.describes(node_views(nodes@), query_views(edges@)),
    ensures
        r.deep_view() == candidate_names(node_views(nodes@), e.deep_view()),
{
    let ghost nv = node_views(nodes@);
    let ghost ev = query_views(edges@);
    let ghost cs = e.candidates.deep_view();
    let mut out: Vec<String> = Vec::new();
    let mut i: usize = 0;
    while i < e.candidates.len()
        invariant
            i <= e.candidates.len(),
            nv == node_views(nodes@),
            ev == query_views(edges@),
            web.describes(nv, ev),
            cs == e.candidates.deep_view(),
            out.deep_view() == gather(cs.take(i as int), name_fn(nv)),
        decreases e.candidates.len() - i,
    {
        proof {
            lemma_take_next(cs, i as int);
        }
        match web.find(&e.candidates[i], Ghost(nv), Ghost(ev)) {
            Some(t) => {
                put(&mut out, nodes[t].qualified_name.as_str().to_owned());
            },
            None => {},
        }
        i += 1;
    }
    assert(cs.take(i as int) =~= cs);
    out
}

pub open spec fn root_fn(nodes: Seq<NodeView>, p: spec_fn(NodeView) -> bool) -> spec_fn(usize) -> Option<usize> {
    |i: usize|
        if p(nodes[i as int]) {
            Some(i)
        } else {
            None
        }
}

/// The places of the nodes with a property.
pub open spec fn roots_of(nodes: Seq<NodeView>, p: spec_fn(NodeView) -> bool) -> Seq<usize> {
    gather(places(nodes.len()), root_fn(nodes, p))
}

} // verus!
