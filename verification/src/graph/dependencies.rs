//! What a symbol depends on, what depends on it, and references that still
//! name a symbol that is gone.
//!
//! Bound references drive the walks. Ambiguous ones are reported where they are
//! wanted, and never followed. A symbol's own unresolved references are always
//! reported when its dependencies are asked for; when the dependents of a name
//! are asked for, the whole project is scanned for unresolved references that
//! still plausibly mean it.

use vstd::prelude::*;

pub use crate::graph::paths::{reverse_dependency_paths, ReversePath};

use crate::gather::gather;
use crate::graph::walk::{walk, Visit};
use crate::graph::web::{
    ambiguous_hits, candidate_names, find_ambiguous, find_candidate_names, find_hits_out, hits_out,
    hits_within, links, places, query_views, root_fn, roots_of, walk_web, Hit, QueryEdge,
    QueryEdgeView, Way, Web,
};
use crate::index::resolve::indices::place_of_id;
use crate::index::resolve::names::{
    bare, bare_name, family, is_qualified_name, language_family, normalize_separators, normalized, sep,
};
use crate::index::resolve::{node_views, NodeView, ResolverNode};
use crate::lookup::{lemma_take_next, put};
use crate::text::{ends_with_text, finishes_with, has_part, same_text};

verus! {

#[derive(Debug, Clone)]
pub struct DependencyNode {
    pub node_id: String,
    pub name: String,
    pub qualified_name: String,
    pub node_type: String,
    pub file_path: String,
    pub depth: usize,
}

/// A reference that could not be bound to anything.
#[derive(Debug, Clone)]
pub struct UnresolvedRef {
    pub from_name: String,
    pub from_file: String,
    pub to_name: String,
    pub to_type: String,
    /// The depth at which a walk came by it; 0 where it was found by a scan.
    pub depth: usize,
}

/// A reference that could mean several definitions.
#[derive(Debug, Clone)]
pub struct AmbiguousRef {
    pub from_name: String,
    pub from_file: String,
    pub to_name: String,
    pub to_type: String,
    pub candidates: Vec<String>,
    pub depth: usize,
}

/// The dependencies, or dependents, of one symbol.
#[derive(Debug, Clone)]
pub struct DependencyGroup {
    pub root_node_id: String,
    pub root_qualified_name: String,
    pub root_file: String,
    pub items: Vec<DependencyNode>,
    pub unresolved: Vec<UnresolvedRef>,
    pub ambiguous: Vec<AmbiguousRef>,
}

#[derive(Debug, Clone, Default)]
pub struct DependencyResult {
    pub groups: Vec<DependencyGroup>,
    /// Did more than one symbol answer to the name?
    pub name_ambiguous: bool,
    /// Unresolved references, anywhere, that plausibly mean the name.
    pub stale_references: Vec<UnresolvedRef>,
    /// How many definitions the scan for stale references matched against.
    pub live_definitions: usize,
}

#[verifier::ext_equal]
pub struct DependencyNodeView {
    pub node_id: Seq<char>,
    pub name: Seq<char>,
    pub qualified_name: Seq<char>,
    pub node_type: Seq<char>,
    pub file_path: Seq<char>,
    pub depth: usize,
}

#[verifier::ext_equal]
pub struct UnresolvedRefView {
    pub from_name: Seq<char>,
    pub from_file: Seq<char>,
    pub to_name: Seq<char>,
    pub to_type: Seq<char>,
    pub depth: usize,
}

#[verifier::ext_equal]
pub struct AmbiguousRefView {
    pub from_name: Seq<char>,
    pub from_file: Seq<char>,
    pub to_name: Seq<char>,
    pub to_type: Seq<char>,
    pub candidates: Seq<Seq<char>>,
    pub depth: usize,
}

#[verifier::ext_equal]
pub struct DependencyGroupView {
    pub root_node_id: Seq<char>,
    pub root_qualified_name: Seq<char>,
    pub root_file: Seq<char>,
    pub items: Seq<DependencyNodeView>,
    pub unresolved: Seq<UnresolvedRefView>,
    pub ambiguous: Seq<AmbiguousRefView>,
}

impl DeepView for DependencyNode {
    type V = DependencyNodeView;

    open spec fn deep_view(&self) -> DependencyNodeView {
        DependencyNodeView {
            node_id: self.node_id@,
            name: self.name@,
            qualified_name: self.qualified_name@,
            node_type: self.node_type@,
            file_path: self.file_path@,
            depth: self.depth,
        }
    }
}

impl DeepView for UnresolvedRef {
    type V = UnresolvedRefView;

    open spec fn deep_view(&self) -> UnresolvedRefView {
        UnresolvedRefView {
            from_name: self.from_name@,
            from_file: self.from_file@,
            to_name: self.to_name@,
            to_type: self.to_type@,
            depth: self.depth,
        }
    }
}

impl DeepView for AmbiguousRef {
    type V = AmbiguousRefView;

    open spec fn deep_view(&self) -> AmbiguousRefView {
        AmbiguousRefView {
            from_name: self.from_name@,
            from_file: self.from_file@,
            to_name: self.to_name@,
            to_type: self.to_type@,
            candidates: self.candidates.deep_view(),
            depth: self.depth,
        }
    }
}

impl DeepView for DependencyGroup {
    type V = DependencyGroupView;

    open spec fn deep_view(&self) -> DependencyGroupView {
        DependencyGroupView {
            root_node_id: self.root_node_id@,
            root_qualified_name: self.root_qualified_name@,
            root_file: self.root_file@,
            items: self.items.deep_view(),
            unresolved: self.unresolved.deep_view(),
            ambiguous: self.ambiguous.deep_view(),
        }
    }
}

// ---- groups -------------------------------------------------------------------------

/// Is the node a definition of that name? An import is a reference, not a
/// definition.
pub open spec fn is_definition_of(name: Seq<char>) -> spec_fn(NodeView) -> bool {
    |n: NodeView| n.name == name && n.node_type != "import"@
}

pub open spec fn item_of(nodes: Seq<NodeView>, v: Visit) -> DependencyNodeView {
    let n = nodes[v.node as int];
    DependencyNodeView {
        node_id: n.id,
        name: n.name,
        qualified_name: n.qualified_name,
        node_type: n.node_type,
        file_path: n.file_path,
        depth: v.depth,
    }
}

pub open spec fn unresolved_ref(nodes: Seq<NodeView>, edges: Seq<QueryEdgeView>, h: Hit) -> UnresolvedRefView {
    UnresolvedRefView {
        from_name: nodes[h.from as int].name,
        from_file: nodes[h.from as int].file_path,
        to_name: edges[h.edge as int].to_name,
        to_type: edges[h.edge as int].to_type,
        depth: h.depth,
    }
}

pub open spec fn ambiguous_ref(nodes: Seq<NodeView>, edges: Seq<QueryEdgeView>, h: Hit) -> AmbiguousRefView {
    AmbiguousRefView {
        from_name: nodes[h.from as int].name,
        from_file: nodes[h.from as int].file_path,
        to_name: edges[h.edge as int].to_name,
        to_type: edges[h.edge as int].to_type,
        candidates: candidate_names(nodes, edges[h.edge as int]),
        depth: h.depth,
    }
}

/// The nodes that a walk along the references reaches, the root first.
pub open spec fn dependency_walk(
    nodes: Seq<NodeView>,
    edges: Seq<QueryEdgeView>,
    root: usize,
    way: Way,
    max_depth: usize,
) -> Seq<Visit> {
    walk(root, links(nodes, edges, way), max_depth, nodes.len())
}

/// The group of one symbol: an item for every other node that the walk reaches;
/// going forward, the symbol's own unresolved references; and, where they are
/// wanted, the ambiguous references that the walk came by.
pub open spec fn dependency_group(
    nodes: Seq<NodeView>,
    edges: Seq<QueryEdgeView>,
    root: usize,
    way: Way,
    max_depth: usize,
    include_ambiguous: bool,
) -> DependencyGroupView {
    let order = dependency_walk(nodes, edges, root, way, max_depth);
    let hits = ambiguous_hits(nodes, edges, order, way, max_depth);
    let own = hits_out(nodes, edges, order[0], "UNRESOLVED"@, max_depth);
    DependencyGroupView {
        root_node_id: nodes[root as int].id,
        root_qualified_name: nodes[root as int].qualified_name,
        root_file: nodes[root as int].file_path,
        items: Seq::new((order.len() - 1) as nat, |i: int| item_of(nodes, order[i + 1])),
        unresolved: if way == Way::Forward {
            Seq::new(own.len(), |i: int| unresolved_ref(nodes, edges, own[i]))
        } else {
            Seq::empty()
        },
        ambiguous: if include_ambiguous {
            Seq::new(hits.len(), |i: int| ambiguous_ref(nodes, edges, hits[i]))
        } else {
            Seq::empty()
        },
    }
}

/// One group for every definition of the name.
pub open spec fn dependency_groups(
    nodes: Seq<NodeView>,
    edges: Seq<QueryEdgeView>,
    name: Seq<char>,
    way: Way,
    max_depth: usize,
    include_ambiguous: bool,
) -> Seq<DependencyGroupView> {
    let roots = roots_of(nodes, is_definition_of(name));
    Seq::new(roots.len(), |i: int| dependency_group(nodes, edges, roots[i], way, max_depth, include_ambiguous))
}

fn items_along(nodes: &[ResolverNode], order: &Vec<Visit>) -> (r: Vec<DependencyNode>)
    requires
        order.len() > 0,
        forall|i: int| 0 <= i < order.len() ==> (#[trigger] order@[i]).node < nodes.len(),
    ensures
        r.deep_view() == Seq::new((order@.len() - 1) as nat, |i: int| item_of(node_views(nodes@), order@[i + 1])),
{
    let ghost nv = node_views(nodes@);
    let ghost want = Seq::new((order@.len() - 1) as nat, |i: int| item_of(nv, order@[i + 1]));
    let mut items: Vec<DependencyNode> = Vec::new();
    let mut i: usize = 1;
    while i < order.len()
        invariant
            1 <= i <= order.len(),
            nv == node_views(nodes@),
            forall|i: int| 0 <= i < order.len() ==> (#[trigger] order@[i]).node < nodes.len(),
            want == Seq::new((order@.len() - 1) as nat, |i: int| item_of(nv, order@[i + 1])),
            items.deep_view() == want.take(i - 1),
        decreases order.len() - i,
    {
        let v = order[i];
        assert(order@[i as int].node < nodes.len());
        let n = &nodes[v.node];
        proof {
            lemma_take_next(want, i - 1);
        }
        put(
            &mut items,
            DependencyNode {
                node_id: n.id.as_str().to_owned(),
                name: n.name.as_str().to_owned(),
                qualified_name: n.qualified_name.as_str().to_owned(),
                node_type: n.node_type.as_str().to_owned(),
                file_path: n.file_path.as_str().to_owned(),
                depth: v.depth,
            },
        );
        i += 1;
    }
    assert(want.take(i - 1) =~= want);
    items
}

fn unresolved_refs(nodes: &[ResolverNode], edges: &[QueryEdge], hits: &Vec<Hit>) -> (r: Vec<UnresolvedRef>)
    requires
        hits_within(hits@, edges@.len(), nodes@.len()),
    ensures
        r.deep_view() == Seq::new(
            hits@.len(),
            |i: int| unresolved_ref(node_views(nodes@), query_views(edges@), hits@[i]),
        ),
{
    let ghost nv = node_views(nodes@);
    let ghost ev = query_views(edges@);
    let ghost want = Seq::new(hits@.len(), |i: int| unresolved_ref(nv, ev, hits@[i]));
    let mut out: Vec<UnresolvedRef> = Vec::new();
    let mut i: usize = 0;
    while i < hits.len()
        invariant
            i <= hits.len(),
            nv == node_views(nodes@),
            ev == query_views(edges@),
            hits_within(hits@, edges@.len(), nodes@.len()),
            want == Seq::new(hits@.len(), |i: int| unresolved_ref(nv, ev, hits@[i])),
            out.deep_view() == want.take(i as int),
        decreases hits.len() - i,
    {
        let h = hits[i];
        assert(hits@[i as int].edge < edges.len());
        proof {
            lemma_take_next(want, i as int);
        }
        put(
            &mut out,
            UnresolvedRef {
                from_name: nodes[h.from].name.as_str().to_owned(),
                from_file: nodes[h.from].file_path.as_str().to_owned(),
                to_name: edges[h.edge].to_name.as_str().to_owned(),
                to_type: edges[h.edge].to_type.as_str().to_owned(),
                depth: h.depth,
            },
        );
        i += 1;
    }
    assert(want.take(i as int) =~= want);
    out
}

fn ambiguous_refs(nodes: &[ResolverNode], edges: &[QueryEdge], web: &Web, hits: &Vec<Hit>) -> (r: Vec<AmbiguousRef>)
    requires
        web.describes(node_views(nodes@), query_views(edges@)),
        hits_within(hits@, edges@.len(), nodes@.len()),
    ensures
        r.deep_view() == Seq::new(
            hits@.len(),
            |i: int| ambiguous_ref(node_views(nodes@), query_views(edges@), hits@[i]),
        ),
{
    let ghost nv = node_views(nodes@);
    let ghost ev = query_views(edges@);
    let ghost want = Seq::new(hits@.len(), |i: int| ambiguous_ref(nv, ev, hits@[i]));
    let mut out: Vec<AmbiguousRef> = Vec::new();
    let mut i: usize = 0;
    while i < hits.len()
        invariant
            i <= hits.len(),
            nv == node_views(nodes@),
            ev == query_views(edges@),
            web.describes(nv, ev),
            hits_within(hits@, edges@.len(), nodes@.len()),
            want == Seq::new(hits@.len(), |i: int| ambiguous_ref(nv, ev, hits@[i])),
            out.deep_view() == want.take(i as int),
        decreases hits.len() - i,
    {
        let h = hits[i];
        assert(hits@[i as int].edge < edges.len());
        proof {
            lemma_take_next(want, i as int);
        }
        put(
            &mut out,
            AmbiguousRef {
                from_name: nodes[h.from].name.as_str().to_owned(),
                from_file: nodes[h.from].file_path.as_str().to_owned(),
                to_name: edges[h.edge].to_name.as_str().to_owned(),
                to_type: edges[h.edge].to_type.as_str().to_owned(),
                candidates: find_candidate_names(nodes, edges, web, &edges[h.edge]),
                depth: h.depth,
            },
        );
        i += 1;
    }
    assert(want.take(i as int) =~= want);
    out
}

fn make_group(
    nodes: &[ResolverNode],
    edges: &[QueryEdge],
    web: &Web,
    root: usize,
    way: Way,
    max_depth: usize,
    include_ambiguous: bool,
) -> (r: DependencyGroup)
    requires
        web.describes(node_views(nodes@), query_views(edges@)),
        root < nodes.len(),
    ensures
        r.deep_view() == dependency_group(node_views(nodes@), query_views(edges@), root, way, max_depth, include_ambiguous),
{
    let ghost nv = node_views(nodes@);
    let ghost ev = query_views(edges@);
    let order = walk_web(nodes, edges, web, root, way, max_depth);
    let items = items_along(nodes, &order);
    let unresolved: Vec<UnresolvedRef> = match way {
        Way::Forward => {
            assert(order@[0].node < nodes.len());
            let own = find_hits_out(nodes, edges, web, order[0], "UNRESOLVED", max_depth);
            unresolved_refs(nodes, edges, &own)
        },
        Way::Backward => Vec::new(),
    };
    assert(way == Way::Backward ==> unresolved.deep_view() =~= Seq::empty());
    let ambiguous: Vec<AmbiguousRef> = if include_ambiguous {
        let hits = find_ambiguous(nodes, edges, web, &order, way, max_depth);
        ambiguous_refs(nodes, edges, web, &hits)
    } else {
        Vec::new()
    };
    assert(!include_ambiguous ==> ambiguous.deep_view() =~= Seq::empty());
    DependencyGroup {
        root_node_id: nodes[root].id.as_str().to_owned(),
        root_qualified_name: nodes[root].qualified_name.as_str().to_owned(),
        root_file: nodes[root].file_path.as_str().to_owned(),
        items,
        unresolved,
        ambiguous,
    }
}

/// The places of the definitions of a name.
pub(crate) fn matching_roots(nodes: &[ResolverNode], name: &str) -> (r: Vec<usize>)
    ensures
        r@ == roots_of(node_views(nodes@), is_definition_of(name@)),
        forall|i: int| 0 <= i < r.len() ==> #[trigger] r@[i] < nodes.len(),
{
    let ghost nv = node_views(nodes@);
    let ghost all = places(nv.len());
    let mut out: Vec<usize> = Vec::new();
    let mut i: usize = 0;
    while i < nodes.len()
        invariant
            i <= nodes.len(),
            nv == node_views(nodes@),
            all == places(nv.len()),
            out@ == gather(all.take(i as int), root_fn(nv, is_definition_of(name@))),
            forall|k: int| 0 <= k < out.len() ==> #[trigger] out@[k] < nodes.len(),
        decreases nodes.len() - i,
    {
        proof {
            lemma_take_next(all, i as int);
        }
        assert(nv[i as int] == nodes[i as int].deep_view());
        if same_text(nodes[i].name.as_str(), name) && !same_text(nodes[i].node_type.as_str(), "import") {
            out.push(i);
        }
        i += 1;
    }
    assert(all.take(i as int) =~= all);
    out
}

fn make_groups(
    nodes: &[ResolverNode],
    edges: &[QueryEdge],
    web: &Web,
    name: &str,
    way: Way,
    max_depth: usize,
    include_ambiguous: bool,
) -> (r: Vec<DependencyGroup>)
    requires
        web.describes(node_views(nodes@), query_views(edges@)),
    ensures
        r.deep_view() == dependency_groups(
            node_views(nodes@),
            query_views(edges@),
            name@,
            way,
            max_depth,
            include_ambiguous,
        ),
{
    let ghost nv = node_views(nodes@);
    let ghost ev = query_views(edges@);
    let roots = matching_roots(nodes, name);
    let ghost want = dependency_groups(nv, ev, name@, way, max_depth, include_ambiguous);
    let mut groups: Vec<DependencyGroup> = Vec::new();
    let mut i: usize = 0;
    while i < roots.len()
        invariant
            i <= roots.len(),
            nv == node_views(nodes@),
            ev == query_views(edges@),
            web.describes(nv, ev),
            roots@ == roots_of(nv, is_definition_of(name@)),
            forall|i: int| 0 <= i < roots.len() ==> #[trigger] roots@[i] < nodes.len(),
            want == dependency_groups(nv, ev, name@, way, max_depth, include_ambiguous),
            groups.deep_view() == want.take(i as int),
        decreases roots.len() - i,
    {
        assert(roots@[i as int] < nodes.len());
        let g = make_group(nodes, edges, web, roots[i], way, max_depth, include_ambiguous);
        proof {
            lemma_take_next(want, i as int);
        }
        put(&mut groups, g);
        i += 1;
    }
    assert(want.take(i as int) =~= want);
    groups
}

/// What every definition of a name depends on.
pub fn compute_dependencies(
    nodes: &[ResolverNode],
    edges: &[QueryEdge],
    start_name: &str,
    max_depth: usize,
    include_ambiguous: bool,
) -> (r: DependencyResult)
    ensures
        r.groups.deep_view() == dependency_groups(
            node_views(nodes@),
            query_views(edges@),
            start_name@,
            Way::Forward,
            max_depth,
            include_ambiguous,
        ),
        r.name_ambiguous == (r.groups.len() > 1),
        r.stale_references.len() == 0,
        r.live_definitions == 0,
{
    let web = Web::build(nodes, edges);
    let groups = make_groups(nodes, edges, &web, start_name, Way::Forward, max_depth, include_ambiguous);
    DependencyResult {
        name_ambiguous: groups.len() > 1,
        groups,
        stale_references: Vec::new(),
        live_definitions: 0,
    }
}

// ---- references to what is gone ----------------------------------------------------------

/// Could the reference text `name`, read with its type and the language of its
/// source, mean the definition `n`? A name of several segments must be the
/// whole qualified name or its end; a bare one need not.
pub open spec fn may_mean(n: NodeView, name: Seq<char>, to_type: Seq<char>, language: Seq<char>) -> bool {
    &&& n.node_type == to_type
    &&& family(n.language) == family(language)
    &&& (!has_part(name, sep()) || n.qualified_name == name || finishes_with(n.qualified_name, sep() + name))
}

/// Does an unresolved reference plausibly mean the symbol of that bare name? Its
/// own bare tail must be that name. Where definitions of the name are left, it
/// could mean one of them; where none is left, the tail decides.
pub open spec fn is_stale(
    raw: Seq<char>,
    to_type: Seq<char>,
    language: Seq<char>,
    queried_bare: Seq<char>,
    live: Seq<NodeView>,
) -> bool {
    &&& bare(normalized(raw)) == queried_bare
    &&& live.len() == 0 || exists|i: int|
        0 <= i < live.len() && may_mean(#[trigger] live[i], normalized(raw), to_type, language)
}

/// The nodes at some places.
pub open spec fn nodes_at(nodes: Seq<NodeView>, at: Seq<usize>) -> Seq<NodeView> {
    Seq::new(at.len(), |i: int| nodes[at[i] as int])
}

/// Does an unresolved reference plausibly mean the symbol `queried_bare`, whose
/// definitions stand at the places `live`?
pub fn is_stale_candidate(
    raw_to_name: &str,
    to_type: &str,
    from_language: &str,
    queried_bare: &str,
    nodes: &[ResolverNode],
    live: &Vec<usize>,
) -> (r: bool)
    requires
        forall|i: int| 0 <= i < live.len() ==> #[trigger] live@[i] < nodes.len(),
    ensures
        r == is_stale(raw_to_name@, to_type@, from_language@, queried_bare@, nodes_at(node_views(nodes@), live@)),
{
    let ghost nv = node_views(nodes@);
    let ghost lv = nodes_at(nv, live@);
    let name = normalize_separators(raw_to_name);
    if !same_text(bare_name(name.as_str()), queried_bare) {
        return false;
    }
    if live.len() == 0 {
        return true;
    }
    let fam = language_family(from_language);
    let qualified = is_qualified_name(name.as_str());
    let mut suffix: String = "::".to_owned();
    suffix.append(name.as_str());
    proof {
        reveal_strlit("::");
        assert("::"@ =~= sep());
    }
    let mut i: usize = 0;
    while i < live.len()
        invariant
            i <= live.len(),
            nv == node_views(nodes@),
            lv == nodes_at(nv, live@),
            forall|i: int| 0 <= i < live.len() ==> #[trigger] live@[i] < nodes.len(),
            name@ == normalized(raw_to_name@),
            bare(name@) == queried_bare@,
            fam@ == family(from_language@),
            qualified == has_part(name@, sep()),
            suffix@ == sep() + name@,
            forall|j: int| 0 <= j < i ==> !may_mean(#[trigger] lv[j], name@, to_type@, from_language@),
        decreases live.len() - i,
    {
        assert(live@[i as int] < nodes.len());
        let n = &nodes[live[i]];
        assert(lv[i as int] == n.deep_view());
        if same_text(n.node_type.as_str(), to_type) && same_text(language_family(n.language.as_str()), fam) && (!qualified
            || same_text(n.qualified_name.as_str(), name.as_str()) || ends_with_text(
            n.qualified_name.as_str(),
            suffix.as_str(),
        )) {
            return true;
        }
        i += 1;
    }
    false
}

/// An unresolved reference that plausibly means the name, as it is reported.
pub open spec fn stale_fn(
    nodes: Seq<NodeView>,
    queried_bare: Seq<char>,
    live: Seq<NodeView>,
) -> spec_fn(QueryEdgeView) -> Option<UnresolvedRefView> {
    |e: QueryEdgeView|
        match place_of_id(nodes, e.from_id) {
            Some(i) => if e.confidence == "UNRESOLVED"@ && is_stale(
                e.to_name,
                e.to_type,
                nodes[i].language,
                queried_bare,
                live,
            ) {
                Some(
                    UnresolvedRefView {
                        from_name: nodes[i].name,
                        from_file: nodes[i].file_path,
                        to_name: e.to_name,
                        to_type: e.to_type,
                        depth: 0,
                    },
                )
            } else {
                None
            },
            None => None,
        }
}

/// The definitions that answer to the bare tail of a queried name.
pub open spec fn live_of(nodes: Seq<NodeView>, queried: Seq<char>) -> Seq<NodeView> {
    nodes_at(nodes, roots_of(nodes, is_definition_of(bare(normalized(queried)))))
}

/// The unresolved references of known nodes that plausibly mean the name.
pub open spec fn stale_refs(nodes: Seq<NodeView>, edges: Seq<QueryEdgeView>, queried: Seq<char>) -> Seq<UnresolvedRefView> {
    gather(edges, stale_fn(nodes, bare(normalized(queried)), live_of(nodes, queried)))
}

fn find_stale_references(nodes: &[ResolverNode], edges: &[QueryEdge], web: &Web, queried: &str) -> (r: (
    Vec<UnresolvedRef>,
    usize,
))
    requires
        web.describes(node_views(nodes@), query_views(edges@)),
    ensures
        r.0.deep_view() == stale_refs(node_views(nodes@), query_views(edges@), queried@),
        r.1 == live_of(node_views(nodes@), queried@).len(),
{
    let ghost nv = node_views(nodes@);
    let ghost ev = query_views(edges@);
    let name = normalize_separators(queried);
    let queried_bare = bare_name(name.as_str());
    let live = matching_roots(nodes, queried_bare);
    let ghost lv = nodes_at(nv, live@);
    let mut out: Vec<UnresolvedRef> = Vec::new();
    let mut i: usize = 0;
    while i < edges.len()
        invariant
            i <= edges.len(),
            nv == node_views(nodes@),
            ev == query_views(edges@),
            web.describes(nv, ev),
            lv == nodes_at(nv, live@),
            forall|i: int| 0 <= i < live.len() ==> #[trigger] live@[i] < nodes.len(),
            out.deep_view() == gather(ev.take(i as int), stale_fn(nv, queried_bare@, lv)),
        decreases edges.len() - i,
    {
        let e = &edges[i];
        proof {
            lemma_take_next(ev, i as int);
        }
        assert(ev[i as int] == e.deep_view());
        if same_text(e.confidence.as_str(), "UNRESOLVED") {
            match web.find(&e.from_id, Ghost(nv), Ghost(ev)) {
                Some(k) => {
                    let from = &nodes[k];
                    assert(nv[k as int] == from.deep_view());
                    if is_stale_candidate(
                        e.to_name.as_str(),
                        e.to_type.as_str(),
                        from.language.as_str(),
                        queried_bare,
                        nodes,
                        &live,
                    ) {
                        put(
                            &mut out,
                            UnresolvedRef {
                                from_name: from.name.as_str().to_owned(),
                                from_file: from.file_path.as_str().to_owned(),
                                to_name: e.to_name.as_str().to_owned(),
                                to_type: e.to_type.as_str().to_owned(),
                                depth: 0,
                            },
                        );
                    }
                },
                None => {},
            }
        }
        i += 1;
    }
    assert(ev.take(i as int) =~= ev);
    (out, live.len())
}

/// What depends on every definition of a name, and the unresolved references
/// that plausibly mean it.
pub fn compute_reverse_dependencies(
    nodes: &[ResolverNode],
    edges: &[QueryEdge],
    target_name: &str,
    max_depth: usize,
    include_ambiguous: bool,
) -> (r: DependencyResult)
    ensures
        r.groups.deep_view() == dependency_groups(
            node_views(nodes@),
            query_views(edges@),
            target_name@,
            Way::Backward,
            max_depth,
            include_ambiguous,
        ),
        r.name_ambiguous == (r.groups.len() > 1),
        r.stale_references.deep_view() == stale_refs(node_views(nodes@), query_views(edges@), target_name@),
        r.live_definitions == live_of(node_views(nodes@), target_name@).len(),
{
    let web = Web::build(nodes, edges);
    let groups = make_groups(nodes, edges, &web, target_name, Way::Backward, max_depth, include_ambiguous);
    let (stale_references, live_definitions) = find_stale_references(nodes, edges, &web, target_name);
    DependencyResult { name_ambiguous: groups.len() > 1, groups, stale_references, live_definitions }
}

} // verus!
