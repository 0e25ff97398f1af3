//! The graph that chains are built from and checked against.

use vstd::prelude::*;

use crate::gather::gather;
use crate::graph::explain::{DeletedSymbol, DeletedView, EdgeKey, EdgeRow, ExplainEdge, ExplainNode, KeyView, NodeRow};
use crate::graph::web::{query_views, QueryEdge, QueryEdgeView};
use crate::index::resolve::cascade::{cascade, resolve_one_traced};
use crate::index::resolve::laws::{a_trace_admits_nodes, admits_below};
use crate::index::resolve::indices::{build_indices, place_of_id, pool, Indices};
use crate::index::resolve::names::{bare, language_family};
use crate::index::resolve::{
    node_views, Binding, BindingView, EdgeView, NodeView, ResolutionTrace, ResolverNode, TraceView, UnresolvedEdge,
};
use crate::lookup::{lemma_places_of, lemma_take_next, places_of, put, SortedIndex};
use crate::order::{sort_keys, sorted};
use crate::text::{copy_texts, same_text};

verus! {

#[verifier::ext_equal]
pub struct GraphRows {
    pub nodes: Seq<NodeRow>,
    pub edges: Seq<EdgeRow>,
    pub deleted: Seq<DeletedView>,
}

/// A node as the cascade reads it.
pub open spec fn resolver_view(n: NodeRow) -> NodeView {
    NodeView {
        id: n.node_id,
        name: n.name,
        node_type: n.node_type,
        language: n.language,
        file_path: n.file_path,
        qualified_name: n.qualified_name,
    }
}

/// A reference as queries read it.
pub open spec fn query_view(e: EdgeRow) -> QueryEdgeView {
    QueryEdgeView {
        from_id: e.key.from_id,
        to_id: e.to_id,
        to_name: e.key.to_name,
        to_type: e.key.to_type,
        edge_type: e.key.edge_type,
        confidence: e.confidence,
        candidates: e.candidates,
    }
}

/// A reference as the cascade reads it.
pub open spec fn capture(key: KeyView) -> EdgeView {
    EdgeView { from_id: key.from_id, to_name: key.to_name, to_type: key.to_type, edge_type: key.edge_type }
}

pub open spec fn key_tuple(key: KeyView) -> (Seq<char>, (Seq<char>, (Seq<char>, Seq<char>))) {
    (key.from_id, (key.to_name, (key.to_type, key.edge_type)))
}

pub open spec fn definition_fn(name: Seq<char>) -> spec_fn(NodeRow) -> Option<Seq<char>> {
    |n: NodeRow|
        if n.name == name && n.node_type != "import"@ {
            Some(n.node_id)
        } else {
            None
        }
}

impl GraphRows {
    /// The nodes as the cascade reads them.
    pub open spec fn resolver_nodes(self) -> Seq<NodeView> {
        Seq::new(self.nodes.len(), |i: int| resolver_view(self.nodes[i]))
    }

    /// The references as queries read them.
    pub open spec fn query_edges(self) -> Seq<QueryEdgeView> {
        Seq::new(self.edges.len(), |i: int| query_view(self.edges[i]))
    }

    pub open spec fn keys(self) -> Seq<(Seq<char>, (Seq<char>, (Seq<char>, Seq<char>)))> {
        Seq::new(self.edges.len(), |i: int| key_tuple(self.edges[i].key))
    }

    /// The node with an id; of several, the last.
    pub open spec fn node(self, id: Seq<char>) -> Option<NodeRow> {
        match place_of_id(self.resolver_nodes(), id) {
            Some(i) => Some(self.nodes[i]),
            None => None,
        }
    }

    /// The only reference with a key; none where there are several.
    pub open spec fn edge(self, key: KeyView) -> Option<EdgeRow> {
        let q = places_of(self.keys(), key_tuple(key));
        if q.len() == 1 {
            Some(self.edges[q[0] as int])
        } else {
            None
        }
    }

    /// The ids of the live definitions of a name, sorted.
    pub open spec fn live_definitions(self, name: Seq<char>) -> Seq<Seq<char>> {
        sorted::<String>(gather(self.nodes, definition_fn(name)))
    }

    /// What the cascade says of a reference.
    pub open spec fn rerun(self, key: KeyView) -> (BindingView, TraceView) {
        cascade(capture(key), self.resolver_nodes())
    }

    /// The ids of the nodes at some places, sorted.
    pub open spec fn ids_of(self, at: Seq<usize>) -> Seq<Seq<char>> {
        sorted::<String>(Seq::new(at.len(), |i: int| self.nodes[at[i] as int].node_id))
    }

    /// The ids of a candidate pool, sorted.
    pub open spec fn pool_ids(self, bare: Seq<char>, to_type: Seq<char>, language_family: Seq<char>) -> Seq<Seq<char>> {
        self.ids_of(pool(self.resolver_nodes(), bare, to_type, language_family))
    }
}

/// A project's graph.
pub struct ExplainGraph {
    nodes: Vec<ExplainNode>,
    edges: Vec<ExplainEdge>,
    deleted: Vec<DeletedSymbol>,
    /// The same nodes, in the same order, as the cascade reads them.
    resolver_nodes: Vec<ResolverNode>,
    indices: Indices,
    key_index: SortedIndex<(String, (String, (String, String)))>,
}

impl EdgeKey {
    pub(crate) fn copy(&self) -> (r: EdgeKey)
        ensures
            r.deep_view() == self.deep_view(),
    {
        EdgeKey {
            from_id: self.from_id.as_str().to_owned(),
            to_name: self.to_name.as_str().to_owned(),
            to_type: self.to_type.as_str().to_owned(),
            edge_type: self.edge_type.as_str().to_owned(),
        }
    }
}

impl ExplainEdge {
    /// What identifies the reference.
    pub fn key(&self) -> (r: EdgeKey)
        ensures
            r.deep_view() == self.deep_view().key,
    {
        EdgeKey {
            from_id: self.from_id.as_str().to_owned(),
            to_name: self.to_name.as_str().to_owned(),
            to_type: self.to_type.as_str().to_owned(),
            edge_type: self.edge_type.as_str().to_owned(),
        }
    }

    /// The reference as queries read it.
    pub fn as_query_edge(&self) -> (r: QueryEdge)
        ensures
            r.deep_view() == query_view(self.deep_view()),
    {
        QueryEdge {
            from_id: self.from_id.as_str().to_owned(),
            to_id: self.to_id.as_str().to_owned(),
            to_name: self.to_name.as_str().to_owned(),
            to_type: self.to_type.as_str().to_owned(),
            edge_type: self.edge_type.as_str().to_owned(),
            confidence: self.confidence.as_str().to_owned(),
            candidates: copy_texts(&self.candidates),
        }
    }
}

impl ExplainGraph {
    /// The rows of the graph.
    pub closed spec fn rows(&self) -> GraphRows {
        GraphRows {
            nodes: self.nodes.deep_view(),
            edges: self.edges.deep_view(),
            deleted: self.deleted.deep_view(),
        }
    }

    /// The indices describe the rows.
    pub closed spec fn wf(&self) -> bool {
        &&& node_views(self.resolver_nodes@) == self.rows().resolver_nodes()
        &&& self.indices.describes(node_views(self.resolver_nodes@))
        &&& self.key_index.wf()
        &&& self.key_index.keys() == self.rows().keys()
    }

    /// The graph of the given rows.
    pub fn from_parts(nodes: Vec<ExplainNode>, edges: Vec<ExplainEdge>, deleted: Vec<DeletedSymbol>) -> (r: Self)
        ensures
            r.wf(),
            r.rows() == (GraphRows {
                nodes: nodes.deep_view(),
                edges: edges.deep_view(),
                deleted: deleted.deep_view(),
            }),
    {
        let ghost rows = GraphRows {
            nodes: nodes.deep_view(),
            edges: edges.deep_view(),
            deleted: deleted.deep_view(),
        };
        let mut resolver_nodes: Vec<ResolverNode> = Vec::new();
        let mut i: usize = 0;
        while i < nodes.len()
            invariant
                i <= nodes.len(),
                rows.nodes == nodes.deep_view(),
                resolver_nodes.deep_view() == rows.resolver_nodes().take(i as int),
            decreases nodes.len() - i,
        {
            let n = &nodes[i];
            proof {
                lemma_take_next(rows.resolver_nodes(), i as int);
            }
            put(
                &mut resolver_nodes,
                ResolverNode {
                    id: n.node_id.as_str().to_owned(),
                    name: n.name.as_str().to_owned(),
                    node_type: n.node_type.as_str().to_owned(),
                    language: n.language.as_str().to_owned(),
                    file_path: n.file_path.as_str().to_owned(),
                    qualified_name: n.qualified_name.as_str().to_owned(),
                },
            );
            i += 1;
        }
        assert(rows.resolver_nodes().take(i as int) =~= rows.resolver_nodes());
        assert(node_views(resolver_nodes@) =~= resolver_nodes.deep_view());
        let indices = build_indices(resolver_nodes.as_slice());
        let mut keys: Vec<(String, (String, (String, String)))> = Vec::new();
        let mut k: usize = 0;
        while k < edges.len()
            invariant
                k <= edges.len(),
                rows.edges == edges.deep_view(),
                keys.deep_view() == rows.keys().take(k as int),
            decreases edges.len() - k,
        {
            let e = &edges[k];
            proof {
                lemma_take_next(rows.keys(), k as int);
            }
            let key: (String, (String, (String, String))) = (
                e.from_id.as_str().to_owned(),
                (e.to_name.as_str().to_owned(), (e.to_type.as_str().to_owned(), e.edge_type.as_str().to_owned())),
            );
            assert(key.deep_view() == key_tuple(rows.edges[k as int].key));
            put(&mut keys, key);
            k += 1;
        }
        assert(rows.keys().take(k as int) =~= rows.keys());
        let key_index = SortedIndex::build(keys);
        ExplainGraph { nodes, edges, deleted, resolver_nodes, indices, key_index }
    }

    pub(crate) fn find_place(&self, node_id: &String) -> (r: Option<usize>)
        requires
            self.wf(),
        ensures
            match r {
                Some(i) => i < self.rows().nodes.len() && place_of_id(self.rows().resolver_nodes(), node_id@) == Some(
                    i as int,
                ),
                None => place_of_id(self.rows().resolver_nodes(), node_id@) is None,
            },
    {
        let ghost nv = node_views(self.resolver_nodes@);
        self.indices.find_id(node_id, Ghost(nv))
    }

    /// The node with an id.
    pub fn node(&self, node_id: &String) -> (r: Option<&ExplainNode>)
        requires
            self.wf(),
        ensures
            match r {
                Some(n) => self.rows().node(node_id@) == Some(n.deep_view()),
                None => self.rows().node(node_id@) is None,
            },
    {
        match self.find_place(node_id) {
            Some(i) => Some(&self.nodes[i]),
            None => None,
        }
    }

    /// All nodes.
    pub fn nodes(&self) -> (r: &[ExplainNode])
        ensures
            r.deep_view() == self.rows().nodes,
    {
        let r = self.nodes.as_slice();
        assert(r.deep_view() =~= self.rows().nodes);
        r
    }

    /// All references.
    pub fn edges(&self) -> (r: &[ExplainEdge])
        ensures
            r.deep_view() == self.rows().edges,
    {
        let r = self.edges.as_slice();
        assert(r.deep_view() =~= self.rows().edges);
        r
    }

    /// All records of deletions.
    pub fn deleted(&self) -> (r: &[DeletedSymbol])
        ensures
            r.deep_view() == self.rows().deleted,
    {
        let r = self.deleted.as_slice();
        assert(r.deep_view() =~= self.rows().deleted);
        r
    }

    /// The nodes as the cascade reads them.
    pub(crate) fn resolver_nodes(&self) -> (r: &[ResolverNode])
        requires
            self.wf(),
        ensures
            node_views(r@) == self.rows().resolver_nodes(),
    {
        self.resolver_nodes.as_slice()
    }

    /// The references as queries read them.
    pub(crate) fn query_edges(&self) -> (r: Vec<QueryEdge>)
        ensures
            query_views(r@) == self.rows().query_edges(),
    {
        let ghost want = self.rows().query_edges();
        let mut out: Vec<QueryEdge> = Vec::new();
        let mut i: usize = 0;
        while i < self.edges.len()
            invariant
                i <= self.edges.len(),
                want == self.rows().query_edges(),
                out.deep_view() == want.take(i as int),
            decreases self.edges.len() - i,
        {
            proof {
                lemma_take_next(want, i as int);
            }
            assert(self.rows().edges[i as int] == self.edges@[i as int].deep_view());
            put(&mut out, self.edges[i].as_query_edge());
            i += 1;
        }
        assert(query_views(out@) =~= want);
        out
    }

    /// The only reference with a key.
    pub fn edge(&self, key: &EdgeKey) -> (r: Option<&ExplainEdge>)
        requires
            self.wf(),
        ensures
            match r {
                Some(e) => self.rows().edge(key.deep_view()) == Some(e.deep_view()),
                None => self.rows().edge(key.deep_view()) is None,
            },
    {
        let k: (String, (String, (String, String))) = (
            key.from_id.as_str().to_owned(),
            (key.to_name.as_str().to_owned(), (key.to_type.as_str().to_owned(), key.edge_type.as_str().to_owned())),
        );
        assert(k.deep_view() == key_tuple(key.deep_view()));
        let q = self.key_index.places(&k);
        if q.len() == 1 {
            proof {
                lemma_places_of(self.rows().keys(), key_tuple(key.deep_view()));
            }
            assert(q@[0] < self.edges.len());
            Some(&self.edges[q[0]])
        } else {
            None
        }
    }

    /// The ids of the live definitions of a name, sorted.
    pub fn live_definitions(&self, name: &str) -> (r: Vec<String>)
        ensures
            r.deep_view() == self.rows().live_definitions(name@),
    {
        let ghost nv = self.rows().nodes;
        let mut out: Vec<String> = Vec::new();
        let mut i: usize = 0;
        while i < self.nodes.len()
            invariant
                i <= self.nodes.len(),
                nv == self.rows().nodes,
                out.deep_view() == gather(nv.take(i as int), definition_fn(name@)),
            decreases self.nodes.len() - i,
        {
            proof {
                lemma_take_next(nv, i as int);
            }
            let n = &self.nodes[i];
            assert(nv[i as int] == n.deep_view());
            if same_text(n.name.as_str(), name) && !same_text(n.node_type.as_str(), "import") {
                put(&mut out, n.node_id.as_str().to_owned());
            }
            i += 1;
        }
        assert(nv.take(i as int) =~= nv);
        sort_keys(out)
    }

    /// Runs the cascade for a reference.
    pub fn rerun(&self, key: &EdgeKey) -> (r: (Binding, ResolutionTrace))
        requires
            self.wf(),
        ensures
            (r.0.deep_view(), r.1.deep_view()) == self.rows().rerun(key.deep_view()),
            forall|a: int| 0 <= a < r.1.attempts.len() ==> admits_below(
                (#[trigger] r.1.attempts@[a]).deep_view(),
                self.rows().nodes.len(),
            ),
    {
        let edge = UnresolvedEdge {
            from_id: key.from_id.as_str().to_owned(),
            to_name: key.to_name.as_str().to_owned(),
            to_type: key.to_type.as_str().to_owned(),
            edge_type: key.edge_type.as_str().to_owned(),
        };
        let r = resolve_one_traced(&edge, self.resolver_nodes.as_slice(), &self.indices);
        let n: usize = self.resolver_nodes.len();
        proof {
            assert(edge.deep_view() == capture(key.deep_view()));
            assert(node_views(self.resolver_nodes@).len() == n);
            a_trace_admits_nodes(edge.deep_view(), node_views(self.resolver_nodes@));
            let attempts = r.1.deep_view().attempts;
            assert forall|a: int| 0 <= a < r.1.attempts.len() implies admits_below(
                (#[trigger] r.1.attempts@[a]).deep_view(),
                self.rows().nodes.len(),
            ) by {
                assert(attempts[a] == r.1.attempts@[a].deep_view());
                assert(attempts == cascade(edge.deep_view(), node_views(self.resolver_nodes@)).1.attempts);
            }
        }
        r
    }

    /// The ids of the nodes at some places, sorted.
    pub(crate) fn ids_of(&self, at: &Vec<usize>) -> (r: Vec<String>)
        requires
            self.wf(),
            forall|i: int| 0 <= i < at.len() ==> #[trigger] at@[i] < self.rows().nodes.len(),
        ensures
            r.deep_view() == self.rows().ids_of(at@),
    {
        let ghost rows = self.rows();
        let ghost want = Seq::new(at@.len(), |i: int| rows.nodes[at@[i] as int].node_id);
        let mut out: Vec<String> = Vec::new();
        let mut i: usize = 0;
        while i < at.len()
            invariant
                i <= at.len(),
                rows == self.rows(),
                forall|i: int| 0 <= i < at.len() ==> #[trigger] at@[i] < rows.nodes.len(),
                want == Seq::new(at@.len(), |i: int| rows.nodes[at@[i] as int].node_id),
                out.deep_view() == want.take(i as int),
            decreases at.len() - i,
        {
            assert(at@[i as int] < rows.nodes.len());
            proof {
                lemma_take_next(want, i as int);
            }
            put(&mut out, self.nodes[at[i]].node_id.as_str().to_owned());
            i += 1;
        }
        assert(want.take(i as int) =~= want);
        sort_keys(out)
    }

    /// The ids of a candidate pool, sorted.
    pub fn pool_ids(&self, bare: &str, to_type: &str, language_family: &str) -> (r: Vec<String>)
        requires
            self.wf(),
        ensures
            r.deep_view() == self.rows().pool_ids(bare@, to_type@, language_family@),
    {
        let ghost nv = node_views(self.resolver_nodes@);
        let at = self.indices.find_pool(bare, to_type, language_family, Ghost(nv));
        self.ids_of(&at)
    }
}

} // verus!
