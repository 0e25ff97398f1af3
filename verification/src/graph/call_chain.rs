//! Call chains: which functions a function calls, directly and through others.

use vstd::prelude::*;

use crate::gather::gather;
use crate::graph::walk::{leads, walk, walk_depth_is_distance, Visit};
use crate::graph::web::{
    ambiguous_hits, candidate_names, find_ambiguous, find_candidate_names, hits_within, lemma_links_within, links, places,
    query_views, root_fn, roots_of, walk_web, Hit, QueryEdge, QueryEdgeView, Way, Web,
};
use crate::index::resolve::{node_views, NodeView, ResolverNode};
use crate::lookup::{lemma_take_next, put};
use crate::text::same_text;

verus! {

/// A call that the walk followed.
#[derive(Debug, Clone)]
pub struct CallChainEntry {
    pub depth: usize,
    pub caller_name: String,
    pub callee_name: String,
    pub caller_file: String,
    pub callee_file: String,
}

/// A call whose target could not be told among several; it is never followed.
#[derive(Debug, Clone)]
pub struct AmbiguousCall {
    pub depth: usize,
    pub caller_name: String,
    pub caller_file: String,
    pub to_name: String,
    pub to_type: String,
    pub candidates: Vec<String>,
}

/// The call chain of one starting function.
#[derive(Debug, Clone)]
pub struct CallChainGroup {
    pub root_qualified_name: String,
    pub root_file: String,
    pub entries: Vec<CallChainEntry>,
    pub ambiguous: Vec<AmbiguousCall>,
}

#[derive(Debug, Clone)]
pub struct CallChainResult {
    pub groups: Vec<CallChainGroup>,
    /// Did more than one function answer to the name?
    pub name_ambiguous: bool,
}

#[verifier::ext_equal]
pub struct EntryView {
    pub depth: usize,
    pub caller_name: Seq<char>,
    pub callee_name: Seq<char>,
    pub caller_file: Seq<char>,
    pub callee_file: Seq<char>,
}

#[verifier::ext_equal]
pub struct AmbiguousCallView {
    pub depth: usize,
    pub caller_name: Seq<char>,
    pub caller_file: Seq<char>,
    pub to_name: Seq<char>,
    pub to_type: Seq<char>,
    pub candidates: Seq<Seq<char>>,
}

#[verifier::ext_equal]
pub struct CallGroupView {
    pub root_qualified_name: Seq<char>,
    pub root_file: Seq<char>,
    pub entries: Seq<EntryView>,
    pub ambiguous: Seq<AmbiguousCallView>,
}

impl DeepView for CallChainEntry {
    type V = EntryView;

    open spec fn deep_view(&self) -> EntryView {
        EntryView {
            depth: self.depth,
            caller_name: self.caller_name@,
            callee_name: self.callee_name@,
            caller_file: self.caller_file@,
            callee_file: self.callee_file@,
        }
    }
}

impl DeepView for AmbiguousCall {
    type V = AmbiguousCallView;

    open spec fn deep_view(&self) -> AmbiguousCallView {
        AmbiguousCallView {
            depth: self.depth,
            caller_name: self.caller_name@,
            caller_file: self.caller_file@,
            to_name: self.to_name@,
            to_type: self.to_type@,
            candidates: self.candidates.deep_view(),
        }
    }
}

impl DeepView for CallChainGroup {
    type V = CallGroupView;

    open spec fn deep_view(&self) -> CallGroupView {
        CallGroupView {
            root_qualified_name: self.root_qualified_name@,
            root_file: self.root_file@,
            entries: self.entries.deep_view(),
            ambiguous: self.ambiguous.deep_view(),
        }
    }
}

/// Is the node a function of that name?
pub open spec fn is_function_named(name: Seq<char>) -> spec_fn(NodeView) -> bool {
    |n: NodeView| n.name == name && n.node_type == "function"@
}

pub open spec fn entry_of(nodes: Seq<NodeView>, v: Visit) -> EntryView {
    EntryView {
        depth: v.depth,
        caller_name: nodes[v.parent as int].name,
        callee_name: nodes[v.node as int].name,
        caller_file: nodes[v.parent as int].file_path,
        callee_file: nodes[v.node as int].file_path,
    }
}

pub open spec fn ambiguous_call(nodes: Seq<NodeView>, edges: Seq<QueryEdgeView>, h: Hit) -> AmbiguousCallView {
    AmbiguousCallView {
        depth: h.depth,
        caller_name: nodes[h.from as int].name,
        caller_file: nodes[h.from as int].file_path,
        to_name: edges[h.edge as int].to_name,
        to_type: edges[h.edge as int].to_type,
        candidates: candidate_names(nodes, edges[h.edge as int]),
    }
}

/// The nodes that a walk along the calls reaches, the root first.
pub open spec fn call_walk(nodes: Seq<NodeView>, edges: Seq<QueryEdgeView>, root: usize, max_depth: usize) -> Seq<Visit> {
    walk(root, links(nodes, edges, Way::Forward), max_depth, nodes.len())
}

/// The group of one starting function: an entry for every other function that
/// the walk reaches and, where they are wanted, the ambiguous calls that it
/// came by.
pub open spec fn call_group(
    nodes: Seq<NodeView>,
    edges: Seq<QueryEdgeView>,
    root: usize,
    max_depth: usize,
    include_ambiguous: bool,
) -> CallGroupView {
    let order = call_walk(nodes, edges, root, max_depth);
    let hits = ambiguous_hits(nodes, edges, order, Way::Forward, max_depth);
    CallGroupView {
        root_qualified_name: nodes[root as int].qualified_name,
        root_file: nodes[root as int].file_path,
        entries: Seq::new((order.len() - 1) as nat, |i: int| entry_of(nodes, order[i + 1])),
        ambiguous: if include_ambiguous {
            Seq::new(hits.len(), |i: int| ambiguous_call(nodes, edges, hits[i]))
        } else {
            Seq::empty()
        },
    }
}

/// One group for every function of the name.
pub open spec fn call_groups(
    nodes: Seq<NodeView>,
    edges: Seq<QueryEdgeView>,
    function_name: Seq<char>,
    max_depth: usize,
    include_ambiguous: bool,
) -> Seq<CallGroupView> {
    let roots = roots_of(nodes, is_function_named(function_name));
    Seq::new(roots.len(), |i: int| call_group(nodes, edges, roots[i], max_depth, include_ambiguous))
}

fn make_call_group(
    nodes: &[ResolverNode],
    edges: &[QueryEdge],
    web: &Web,
    root: usize,
    max_depth: usize,
    include_ambiguous: bool,
) -> (r: CallChainGroup)
    requires
        web.describes(node_views(nodes@), query_views(edges@)),
        root < nodes.len(),
    ensures
        r.deep_view() == call_group(node_views(nodes@), query_views(edges@), root, max_depth, include_ambiguous),
{
    let ghost nv = node_views(nodes@);
    let ghost ev = query_views(edges@);
    let order = walk_web(nodes, edges, web, root, Way::Forward, max_depth);
    let ghost want = Seq::new((order@.len() - 1) as nat, |i: int| entry_of(nv, order@[i + 1]));
    let mut entries: Vec<CallChainEntry> = Vec::new();
    let mut i: usize = 1;
    while i < order.len()
        invariant
            1 <= i <= order.len(),
            nv == node_views(nodes@),
            forall|i: int| 0 <= i < order.len() ==> (#[trigger] order@[i]).node < nodes.len() && order@[i].parent
                < nodes.len(),
            want == Seq::new((order@.len() - 1) as nat, |i: int| entry_of(nv, order@[i + 1])),
            entries.deep_view() == want.take(i - 1),
        decreases order.len() - i,
    {
        let v = order[i];
        assert(order@[i as int].node < nodes.len());
        let caller = &nodes[v.parent];
        let callee = &nodes[v.node];
        proof {
            lemma_take_next(want, i - 1);
        }
        put(
            &mut entries,
            CallChainEntry {
                depth: v.depth,
                caller_name: caller.name.as_str().to_owned(),
                callee_name: callee.name.as_str().to_owned(),
                caller_file: caller.file_path.as_str().to_owned(),
                callee_file: callee.file_path.as_str().to_owned(),
            },
        );
        i += 1;
    }
    assert(want.take(i - 1) =~= want);
    let mut ambiguous: Vec<AmbiguousCall> = Vec::new();
    assert(ambiguous.deep_view() =~= Seq::empty());
    if include_ambiguous {
        let hits = find_ambiguous(nodes, edges, web, &order, Way::Forward, max_depth);
        let ghost calls = Seq::new(hits@.len(), |i: int| ambiguous_call(nv, ev, hits@[i]));
        assert(calls.take(0) =~= Seq::empty());
        let mut k: usize = 0;
        while k < hits.len()
            invariant
                k <= hits.len(),
                nv == node_views(nodes@),
                ev == query_views(edges@),
                web.describes(nv, ev),
                hits_within(hits@, edges@.len(), nodes@.len()),
                calls == Seq::new(hits@.len(), |i: int| ambiguous_call(nv, ev, hits@[i])),
                ambiguous.deep_view() == calls.take(k as int),
            decreases hits.len() - k,
        {
            let h = hits[k];
            assert(hits@[k as int].edge < edges.len());
            let e = &edges[h.edge];
            let caller = &nodes[h.from];
            proof {
                lemma_take_next(calls, k as int);
            }
            put(
                &mut ambiguous,
                AmbiguousCall {
                    depth: h.depth,
                    caller_name: caller.name.as_str().to_owned(),
                    caller_file: caller.file_path.as_str().to_owned(),
                    to_name: e.to_name.as_str().to_owned(),
                    to_type: e.to_type.as_str().to_owned(),
                    candidates: find_candidate_names(nodes, edges, web, e),
                },
            );
            k += 1;
        }
        assert(calls.take(k as int) =~= calls);
    }
    CallChainGroup {
        root_qualified_name: nodes[root].qualified_name.as_str().to_owned(),
        root_file: nodes[root].file_path.as_str().to_owned(),
        entries,
        ambiguous,
    }
}

/// The call chains of every function of a name, each walked on its own along
/// bound calls, no deeper than `max_depth`.
pub fn compute_call_chains(
    nodes: &[ResolverNode],
    edges: &[QueryEdge],
    function_name: &str,
    max_depth: usize,
    include_ambiguous: bool,
) -> (r: CallChainResult)
    ensures
        r.groups.deep_view() == call_groups(
            node_views(nodes@),
            query_views(edges@),
            function_name@,
            max_depth,
            include_ambiguous,
        ),
        r.name_ambiguous == (r.groups.len() > 1),
{
    let ghost nv = node_views(nodes@);
    let ghost ev = query_views(edges@);
    let web = Web::build(nodes, edges);
    let ghost p = is_function_named(function_name@);
    let ghost all = places(nv.len());
    let mut groups: Vec<CallChainGroup> = Vec::new();
    assert(all.take(0) =~= Seq::empty());
    let mut i: usize = 0;
    while i < nodes.len()
        invariant
            i <= nodes.len(),
            nv == node_views(nodes@),
            ev == query_views(edges@),
            web.describes(nv, ev),
            p == is_function_named(function_name@),
            all == places(nv.len()),
            groups.deep_view() == ({
                let roots = gather(all.take(i as int), root_fn(nv, p));
                Seq::new(roots.len(), |k: int| call_group(nv, ev, roots[k], max_depth, include_ambiguous))
            }),
        decreases nodes.len() - i,
    {
        proof {
            lemma_take_next(all, i as int);
        }
        let ghost roots = gather(all.take(i as int), root_fn(nv, p));
        let n = &nodes[i];
        assert(nv[i as int] == n.deep_view());
        if same_text(n.name.as_str(), function_name) && same_text(n.node_type.as_str(), "function") {
            let g = make_call_group(nodes, edges, &web, i, max_depth, include_ambiguous);
            put(&mut groups, g);
            proof {
                let after = gather(all.take(i + 1), root_fn(nv, p));
                assert(after == roots.push(i));
                assert(groups.deep_view() =~= Seq::new(
                    after.len(),
                    |k: int| call_group(nv, ev, after[k], max_depth, include_ambiguous),
                ));
            }
        }
        i += 1;
    }
    assert(all.take(i as int) =~= all);
    let name_ambiguous = groups.len() > 1;
    CallChainResult { groups, name_ambiguous }
}

/// The entries of a group come in order of their depth, no deeper than the
/// limit; each names a function whose least distance from the root, counted in
/// bound calls, is its depth; and each function that so many bound calls lead to
/// has exactly one entry, unless it is the root.
pub proof fn call_entries_are_distances(nodes: Seq<NodeView>, edges: Seq<QueryEdgeView>, root: usize, max_depth: usize)
    requires
        root < nodes.len() <= usize::MAX,
    ensures
        ({
            let order = call_walk(nodes, edges, root, max_depth);
            let calls = links(nodes, edges, Way::Forward);
            let entries = call_group(nodes, edges, root, max_depth, false).entries;
            &&& order.len() == entries.len() + 1
            &&& order[0].node == root
            &&& forall|i: int| 0 <= i < entries.len() ==> {
                &&& (#[trigger] entries[i]) == entry_of(nodes, order[i + 1])
                &&& 0 < entries[i].depth <= max_depth
                &&& leads(root, order[i + 1].node, entries[i].depth as nat, calls)
                &&& forall|k: nat| k < entries[i].depth ==> !#[trigger] leads(root, order[i + 1].node, k, calls)
            }
            &&& forall|i: int, j: int| 0 <= i < j < entries.len() ==> (#[trigger] entries[i]).depth <= (#[trigger] entries[j]).depth
            &&& forall|i: int, j: int| 0 <= i < j < order.len() ==> (#[trigger] order[i]).node != (#[trigger] order[j]).node
            &&& forall|v: usize, k: nat| k <= max_depth && #[trigger] leads(root, v, k, calls)
                ==> exists|i: int| 0 <= i < order.len() && (#[trigger] order[i]).node == v
        }),
{
    let order = call_walk(nodes, edges, root, max_depth);
    let calls = links(nodes, edges, Way::Forward);
    let entries = call_group(nodes, edges, root, max_depth, false).entries;
    lemma_links_within(nodes, edges, Way::Forward);
    walk_depth_is_distance(root, calls, max_depth, nodes.len());
    crate::graph::walk::lemma_walk(root, calls, max_depth, nodes.len());
    assert forall|i: int| 0 <= i < entries.len() implies {
        &&& (#[trigger] entries[i]) == entry_of(nodes, order[i + 1])
        &&& 0 < entries[i].depth <= max_depth
        &&& leads(root, order[i + 1].node, entries[i].depth as nat, calls)
        &&& forall|k: nat| k < entries[i].depth ==> !#[trigger] leads(root, order[i + 1].node, k, calls)
    } by {
        assert(order[i + 1].depth <= max_depth);
        assert(order[0].node != order[i + 1].node);
        if entries[i].depth == 0 {
            assert(leads(root, order[i + 1].node, 0, calls));
        }
    }
    assert forall|i: int, j: int| 0 <= i < j < entries.len() implies (#[trigger] entries[i]).depth
        <= (#[trigger] entries[j]).depth by {
        assert(order[i + 1].depth <= order[j + 1].depth);
    }
    assert forall|v: usize, k: nat| k <= max_depth && #[trigger] leads(root, v, k, calls) implies exists|i: int|
        0 <= i < order.len() && (#[trigger] order[i]).node == v by {
        assert(crate::graph::walk::is_reached(order, v));
    }
}

} // verus!
