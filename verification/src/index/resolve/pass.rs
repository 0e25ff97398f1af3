//! Resolution passes over a whole project: which references are examined, what
//! is written for each, and which files refer to which.

use vstd::prelude::*;

use crate::gather::{gather, lemma_gather_push};
use crate::index::resolve::cascade::{binding_of, resolve_one};
use crate::index::resolve::indices::{build_indices, place_of_id};
use crate::index::resolve::names::{bare, bare_name, normalize_separators, normalized};
use crate::index::resolve::{
    edge_views, node_views, Binding, BindingView, EdgeView, NodeView, ResolverNode, UnresolvedEdge,
};
use crate::lookup::{lemma_take_next, put};
use crate::order::{is_distinct_sorted, sort_distinct, Sortable};
use crate::text::{has_text, same_text};

verus! {

/// The outcome of a pass.
#[derive(Debug, Default, Clone, Copy)]
pub struct ResolveStats {
    pub edges_considered: usize,
    pub resolved: usize,
    pub ambiguous: usize,
    pub unresolved: usize,
    pub file_refs: usize,
}

/// A reference with what the cascade says of it, as it is stored.
#[derive(Debug, Clone)]
pub struct ResolvedEdge {
    pub from_id: String,
    /// The id of the target, or the empty text.
    pub to_id: String,
    pub to_name: String,
    pub to_type: String,
    pub edge_type: String,
    pub confidence: &'static str,
    pub resolved_by: &'static str,
    pub candidates: Option<Vec<String>>,
}

/// What a pass writes.
#[derive(Debug, Clone)]
pub struct PassResult {
    /// One row per reference that was examined, in their order.
    pub rows: Vec<ResolvedEdge>,
    pub stats: ResolveStats,
}

#[verifier::ext_equal]
pub struct RowView {
    pub edge: EdgeView,
    pub to_id: Seq<char>,
    pub confidence: Seq<char>,
    pub resolved_by: Seq<char>,
    pub candidates: Option<Seq<Seq<char>>>,
}

impl DeepView for ResolvedEdge {
    type V = RowView;

    open spec fn deep_view(&self) -> RowView {
        RowView {
            edge: EdgeView {
                from_id: self.from_id@,
                to_name: self.to_name@,
                to_type: self.to_type@,
                edge_type: self.edge_type@,
            },
            to_id: self.to_id@,
            confidence: self.confidence@,
            resolved_by: self.resolved_by@,
            candidates: match self.candidates {
                Some(v) => Some(v.deep_view()),
                None => None,
            },
        }
    }
}

/// What is stored for a reference.
pub open spec fn row_of(e: EdgeView, b: BindingView) -> RowView {
    RowView {
        edge: e,
        to_id: match b.to_id {
            Some(id) => id,
            None => Seq::empty(),
        },
        confidence: b.confidence,
        resolved_by: b.resolved_by,
        candidates: b.candidates,
    }
}

/// What is stored for each reference.
pub open spec fn rows_of(edges: Seq<EdgeView>, nodes: Seq<NodeView>) -> Seq<RowView> {
    Seq::new(edges.len(), |i: int| row_of(edges[i], binding_of(edges[i], nodes)))
}

/// How many rows have that confidence.
pub open spec fn count_with(rows: Seq<RowView>, confidence: Seq<char>) -> nat
    decreases rows.len(),
{
    if rows.len() == 0 {
        0
    } else {
        count_with(rows.drop_last(), confidence) + (if rows.last().confidence == confidence {
            1nat
        } else {
            0nat
        })
    }
}

/// The numbers are those of the rows: every row is resolved, ambiguous, or
/// neither.
pub open spec fn counts(stats: ResolveStats, rows: Seq<RowView>) -> bool {
    &&& stats.edges_considered == rows.len()
    &&& stats.resolved == count_with(rows, "RESOLVED"@)
    &&& stats.ambiguous == count_with(rows, "AMBIGUOUS"@)
    &&& stats.resolved + stats.ambiguous + stats.unresolved == rows.len()
}

fn row_for(edge: &UnresolvedEdge, b: Binding) -> (r: ResolvedEdge)
    ensures
        r.deep_view() == row_of(edge.deep_view(), b.deep_view()),
        r.confidence@ == b.confidence@,
{
    let to_id = match b.to_id {
        Some(id) => id,
        None => String::new(),
    };
    let r = ResolvedEdge {
        from_id: edge.from_id.clone(),
        to_id,
        to_name: edge.to_name.clone(),
        to_type: edge.to_type.clone(),
        edge_type: edge.edge_type.clone(),
        confidence: b.confidence,
        resolved_by: b.resolved_by,
        candidates: b.candidates,
    };
    assert(r.deep_view() =~= row_of(edge.deep_view(), b.deep_view()));
    r
}

/// Resolves every given reference. The number of file references is not counted
/// here.
pub fn resolve_edges(nodes: &[ResolverNode], edges: &[UnresolvedEdge]) -> (r: PassResult)
    ensures
        r.rows.deep_view() == rows_of(edge_views(edges@), node_views(nodes@)),
        counts(r.stats, r.rows.deep_view()),
        r.stats.file_refs == 0,
{
    let indices = build_indices(nodes);
    let ghost views = node_views(nodes@);
    let ghost ev = edge_views(edges@);
    let ghost goal = rows_of(ev, views);
    let mut rows: Vec<ResolvedEdge> = Vec::new();
    let mut resolved: usize = 0;
    let mut ambiguous: usize = 0;
    let mut unresolved: usize = 0;
    let mut i: usize = 0;
    proof {
        reveal_strlit("RESOLVED");
        reveal_strlit("AMBIGUOUS");
        assert("RESOLVED"@.len() != "AMBIGUOUS"@.len());
    }
    while i < edges.len()
        invariant
            i <= edges.len(),
            views == node_views(nodes@),
            ev == edge_views(edges@),
            goal == rows_of(ev, views),
            indices.describes(views),
            "RESOLVED"@ != "AMBIGUOUS"@,
            rows.deep_view() == goal.take(i as int),
            resolved == count_with(goal.take(i as int), "RESOLVED"@),
            ambiguous == count_with(goal.take(i as int), "AMBIGUOUS"@),
            resolved + ambiguous + unresolved == i,
        decreases edges.len() - i,
    {
        let edge = &edges[i];
        assert(ev[i as int] == edge.deep_view());
        let row = row_for(edge, resolve_one(edge, nodes, &indices));
        proof {
            lemma_take_next(goal, i as int);
        }
        if same_text(row.confidence, "RESOLVED") {
            resolved = resolved + 1;
        } else if same_text(row.confidence, "AMBIGUOUS") {
            ambiguous = ambiguous + 1;
        } else {
            unresolved = unresolved + 1;
        }
        put(&mut rows, row);
        i = i + 1;
    }
    assert(goal.take(edges.len() as int) =~= goal);
    let stats = ResolveStats {
        edges_considered: edges.len(),
        resolved,
        ambiguous,
        unresolved,
        file_refs: 0,
    };
    PassResult { rows, stats }
}

// ---- which references an incremental pass examines -----------------------------------------

/// Is the reference's own node in one of the changed files, or is the bare
/// tail of its name one of the names that came or went?
pub open spec fn is_affected(
    e: EdgeView,
    nodes: Seq<NodeView>,
    changed_files: Seq<Seq<char>>,
    delta_names: Seq<Seq<char>>,
) -> bool {
    ||| exists|i: int|
        0 <= i < nodes.len() && (#[trigger] nodes[i]).id == e.from_id && changed_files.contains(
            nodes[i].file_path,
        )
    ||| delta_names.contains(bare(normalized(e.to_name)))
}

pub open spec fn affected_fn(
    nodes: Seq<NodeView>,
    changed_files: Seq<Seq<char>>,
    delta_names: Seq<Seq<char>>,
) -> spec_fn(EdgeView) -> Option<EdgeView> {
    |e: EdgeView|
        if is_affected(e, nodes, changed_files, delta_names) {
            Some(e)
        } else {
            None
        }
}

/// The references that an incremental pass examines.
pub open spec fn affected(
    edges: Seq<EdgeView>,
    nodes: Seq<NodeView>,
    changed_files: Seq<Seq<char>>,
    delta_names: Seq<Seq<char>>,
) -> Seq<EdgeView> {
    gather(edges, affected_fn(nodes, changed_files, delta_names))
}

fn in_changed_file(nodes: &[ResolverNode], from_id: &String, changed_files: &Vec<String>) -> (r: bool)
    ensures
        r == exists|i: int|
            0 <= i < nodes.len() && (#[trigger] node_views(nodes@)[i]).id == from_id@
                && changed_files.deep_view().contains(node_views(nodes@)[i].file_path),
{
    let ghost views = node_views(nodes@);
    let mut i: usize = 0;
    while i < nodes.len()
        invariant
            i <= nodes.len(),
            views == node_views(nodes@),
            forall|k: int| 0 <= k < i ==> !((#[trigger] views[k]).id == from_id@ && changed_files.deep_view().contains(views[k].file_path)),
        decreases nodes.len() - i,
    {
        assert(views[i as int] == nodes[i as int].deep_view());
        if same_text(nodes[i].id.as_str(), from_id.as_str()) && has_text(
            changed_files,
            nodes[i].file_path.as_str(),
        ) {
            return true;
        }
        i = i + 1;
    }
    false
}

fn copy_edge(e: &UnresolvedEdge) -> (r: UnresolvedEdge)
    ensures
        r.deep_view() == e.deep_view(),
{
    UnresolvedEdge {
        from_id: e.from_id.clone(),
        to_name: e.to_name.clone(),
        to_type: e.to_type.clone(),
        edge_type: e.edge_type.clone(),
    }
}

/// The references that an incremental pass examines: those of the changed
/// files, and every other whose name's bare tail came or went. All others keep
/// what they are bound to.
pub fn affected_edges(
    nodes: &[ResolverNode],
    edges: &[UnresolvedEdge],
    changed_files: &Vec<String>,
    delta_names: &Vec<String>,
) -> (r: Vec<UnresolvedEdge>)
    ensures
        r.deep_view() == affected(
            edge_views(edges@),
            node_views(nodes@),
            changed_files.deep_view(),
            delta_names.deep_view(),
        ),
{
    let ghost views = node_views(nodes@);
    let ghost ev = edge_views(edges@);
    let ghost f = affected_fn(views, changed_files.deep_view(), delta_names.deep_view());
    let mut r: Vec<UnresolvedEdge> = Vec::new();
    let mut i: usize = 0;
    while i < edges.len()
        invariant
            i <= edges.len(),
            views == node_views(nodes@),
            ev == edge_views(edges@),
            f == affected_fn(views, changed_files.deep_view(), delta_names.deep_view()),
            r.deep_view() == gather(ev.take(i as int), f),
        decreases edges.len() - i,
    {
        let e = &edges[i];
        assert(ev[i as int] == e.deep_view());
        proof {
            lemma_take_next(ev, i as int);
            lemma_gather_push(ev.take(i as int), ev[i as int], f);
        }
        let near: bool = in_changed_file(nodes, &e.from_id, changed_files);
        let hit: bool = if near {
            true
        } else {
            let name = normalize_separators(e.to_name.as_str());
            has_text(delta_names, bare_name(name.as_str()))
        };
        if hit {
            put(&mut r, copy_edge(e));
        }
        i = i + 1;
    }
    assert(ev.take(edges.len() as int) =~= ev);
    r
}

// ---- which files refer to which --------------------------------------------------------------

/// The file of the node with that id.
pub open spec fn file_of(nodes: Seq<NodeView>, id: Seq<char>) -> Option<Seq<char>> {
    match place_of_id(nodes, id) {
        Some(i) => Some(nodes[i].file_path),
        None => None,
    }
}

/// The files of the two ends of a bound reference, where they are known and differ.
pub open spec fn file_pair(
    nodes: Seq<NodeView>,
    ends: (Seq<char>, Seq<char>),
) -> Option<(Seq<char>, Seq<char>)> {
    match (file_of(nodes, ends.0), file_of(nodes, ends.1)) {
        (Some(a), Some(b)) => if a != b {
            Some((a, b))
        } else {
            None
        },
        _ => None,
    }
}

/// The file pairs of bound references.
pub open spec fn file_pairs(
    nodes: Seq<NodeView>,
    ends: Seq<(Seq<char>, Seq<char>)>,
) -> Seq<(Seq<char>, Seq<char>)> {
    gather(ends, |e: (Seq<char>, Seq<char>)| file_pair(nodes, e))
}

/// The pairs of distinct files of which one refers to the other by a bound
/// reference, each once, sorted. `ends` holds the ids of the two ends of each
/// bound reference.
pub fn derive_file_refs(nodes: &[ResolverNode], ends: &Vec<(String, String)>) -> (r: Vec<(String, String)>)
    ensures
        is_distinct_sorted::<(String, String)>(
            file_pairs(node_views(nodes@), ends.deep_view()),
            r.deep_view(),
        ),
{
    let indices = build_indices(nodes);
    let ghost views = node_views(nodes@);
    let ghost ev = ends.deep_view();
    let ghost f = |e: (Seq<char>, Seq<char>)| file_pair(views, e);
    let mut pairs: Vec<(String, String)> = Vec::new();
    let mut i: usize = 0;
    while i < ends.len()
        invariant
            i <= ends.len(),
            views == node_views(nodes@),
            ev == ends.deep_view(),
            f == (|e: (Seq<char>, Seq<char>)| file_pair(views, e)),
            indices.describes(views),
            pairs.deep_view() == gather(ev.take(i as int), f),
        decreases ends.len() - i,
    {
        assert(ev[i as int] == (ends[i as int].0@, ends[i as int].1@));
        proof {
            lemma_take_next(ev, i as int);
            lemma_gather_push(ev.take(i as int), ev[i as int], f);
        }
        let from = indices.find_id(&ends[i].0, Ghost(views));
        let to = indices.find_id(&ends[i].1, Ghost(views));
        match (from, to) {
            (Some(a), Some(b)) => {
                assert(views[a as int] == nodes[a as int].deep_view());
                assert(views[b as int] == nodes[b as int].deep_view());
                if !same_text(nodes[a].file_path.as_str(), nodes[b].file_path.as_str()) {
                    put(&mut pairs, (nodes[a].file_path.clone(), nodes[b].file_path.clone()));
                }
            },
            _ => {},
        }
        i = i + 1;
    }
    assert(ev.take(ends.len() as int) =~= ev);
    sort_distinct(pairs)
}

pub open spec fn bound_ends_fn() -> spec_fn(RowView) -> Option<(Seq<char>, Seq<char>)> {
    |r: RowView|
        if r.confidence == "RESOLVED"@ {
            Some((r.edge.from_id, r.to_id))
        } else {
            None
        }
}

/// The two ends of each resolved row.
pub fn bound_ends(rows: &Vec<ResolvedEdge>) -> (r: Vec<(String, String)>)
    ensures
        r.deep_view() == gather(rows.deep_view(), bound_ends_fn()),
{
    let ghost rv = rows.deep_view();
    let mut r: Vec<(String, String)> = Vec::new();
    let mut i: usize = 0;
    while i < rows.len()
        invariant
            i <= rows.len(),
            rv == rows.deep_view(),
            r.deep_view() == gather(rv.take(i as int), bound_ends_fn()),
        decreases rows.len() - i,
    {
        assert(rv[i as int] == rows[i as int].deep_view());
        proof {
            lemma_take_next(rv, i as int);
            lemma_gather_push(rv.take(i as int), rv[i as int], bound_ends_fn());
        }
        if same_text(rows[i].confidence, "RESOLVED") {
            put(&mut r, (rows[i].from_id.clone(), rows[i].to_id.clone()));
        }
        i = i + 1;
    }
    assert(rv.take(rows.len() as int) =~= rv);
    r
}

/// The greatest of the generations, or 0.
pub open spec fn greatest(gens: Seq<i64>) -> i64
    decreases gens.len(),
{
    if gens.len() == 0 {
        0
    } else if gens.len() == 1 {
        gens[0]
    } else {
        let rest = greatest(gens.drop_last());
        if gens.last() > rest {
            gens.last()
        } else {
            rest
        }
    }
}

/// The generation of a new pass: one more than the greatest so far, or 1.
pub fn next_resolution_gen(gens: &Vec<i64>) -> (r: i64)
    requires
        greatest(gens@) < i64::MAX,
    ensures
        r == greatest(gens@) + 1,
{
    let mut m: i64 = 0;
    let mut i: usize = 0;
    while i < gens.len()
        invariant
            i <= gens.len(),
            m == greatest(gens@.take(i as int)),
        decreases gens.len() - i,
    {
        proof {
            lemma_take_next(gens@, i as int);
        }
        if i == 0 || gens[i] > m {
            m = gens[i];
        }
        i = i + 1;
    }
    assert(gens@.take(gens.len() as int) =~= gens@);
    m + 1
}


/// What a full pass writes: a row per reference, and the file graph.
#[derive(Debug, Clone)]
pub struct ProjectPass {
    pub rows: Vec<ResolvedEdge>,
    pub file_pairs: Vec<(String, String)>,
    pub stats: ResolveStats,
}

/// The full pass: every given reference is resolved, and the file graph is
/// derived from those that are bound.
pub fn resolve_project(nodes: &[ResolverNode], edges: &[UnresolvedEdge]) -> (r: ProjectPass)
    ensures
        r.rows.deep_view() == rows_of(edge_views(edges@), node_views(nodes@)),
        counts(r.stats, r.rows.deep_view()),
        is_distinct_sorted::<(String, String)>(
            file_pairs(node_views(nodes@), gather(r.rows.deep_view(), bound_ends_fn())),
            r.file_pairs.deep_view(),
        ),
        r.stats.file_refs == r.file_pairs.len(),
{
    let PassResult { rows, stats } = resolve_edges(nodes, edges);
    let ends = bound_ends(&rows);
    let file_pairs = derive_file_refs(nodes, &ends);
    let stats = ResolveStats {
        edges_considered: stats.edges_considered,
        resolved: stats.resolved,
        ambiguous: stats.ambiguous,
        unresolved: stats.unresolved,
        file_refs: file_pairs.len(),
    };
    ProjectPass { rows, file_pairs, stats }
}

/// The incremental pass: with no changed file nothing is examined; otherwise
/// the affected references are resolved again, whatever they were bound to.
pub fn resolve_incremental(
    nodes: &[ResolverNode],
    edges: &[UnresolvedEdge],
    changed_files: &Vec<String>,
    delta_names: &Vec<String>,
) -> (r: PassResult)
    ensures
        r.rows.deep_view() == (if changed_files.len() == 0 {
            Seq::empty()
        } else {
            rows_of(
                affected(
                    edge_views(edges@),
                    node_views(nodes@),
                    changed_files.deep_view(),
                    delta_names.deep_view(),
                ),
                node_views(nodes@),
            )
        }),
        counts(r.stats, r.rows.deep_view()),
        r.stats.file_refs == 0,
{
    if changed_files.len() == 0 {
        let rows: Vec<ResolvedEdge> = Vec::new();
        assert(rows.deep_view() =~= Seq::<RowView>::empty());
        let stats = ResolveStats {
            edges_considered: 0,
            resolved: 0,
            ambiguous: 0,
            unresolved: 0,
            file_refs: 0,
        };
        return PassResult { rows, stats };
    }
    let picked = affected_edges(nodes, edges, changed_files, delta_names);
    assert(edge_views(picked@) =~= picked.deep_view());
    resolve_edges(nodes, picked.as_slice())
}

/// An incremental pass gives every reference that it examines what a full pass
/// would give it.
pub proof fn an_incremental_pass_agrees_with_a_full_one(
    edges: Seq<EdgeView>,
    nodes: Seq<NodeView>,
    changed_files: Seq<Seq<char>>,
    delta_names: Seq<Seq<char>>,
)
    ensures
        forall|i: int|
            0 <= i < rows_of(affected(edges, nodes, changed_files, delta_names), nodes).len() ==> rows_of(
                edges,
                nodes,
            ).contains(#[trigger] rows_of(affected(edges, nodes, changed_files, delta_names), nodes)[i]),
    decreases edges.len(),
{
    let a = affected(edges, nodes, changed_files, delta_names);
    let full = rows_of(edges, nodes);
    if edges.len() > 0 {
        let rest = edges.drop_last();
        an_incremental_pass_agrees_with_a_full_one(rest, nodes, changed_files, delta_names);
        let ar = affected(rest, nodes, changed_files, delta_names);
        assert forall|i: int| 0 <= i < rows_of(a, nodes).len() implies full.contains(
            #[trigger] rows_of(a, nodes)[i],
        ) by {
            if i < ar.len() {
                assert(a[i] == ar[i]);
                let row = rows_of(ar, nodes)[i];
                assert(rows_of(rest, nodes).contains(row));
                let k = choose|k: int| 0 <= k < rest.len() && rows_of(rest, nodes)[k] == row;
                assert(full[k] == row);
            } else {
                assert(full[edges.len() - 1] == rows_of(a, nodes)[i]);
            }
        }
    }
}

} // verus!
