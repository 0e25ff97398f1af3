//! What a pass over the references of a project leaves.

use vstd::prelude::*;

use crate::gather::{gather, lemma_gather_member};
use crate::graph::reach::{is_named, lemma_named};
use crate::index::fingerprint::update::lemma_distinct_keys;
use crate::index::resolve::cascade::binding_of;
use crate::index::resolve::indices::place_of_id;
use crate::index::resolve::names::{bare, normalized};
use crate::index::resolve::pass::{
    affected, affected_fn, bound_ends_fn, count_with, file_pair, file_pairs, greatest, rows_of, RowView,
};
use crate::index::resolve::{EdgeView, NodeView};
use crate::order::is_distinct_sorted;

verus! {

/// Every reference has one row, in the order of the references, that says what it
/// is bound to: the id of a definition where it is bound, and none otherwise.
pub proof fn every_reference_has_a_row(edges: Seq<EdgeView>, nodes: Seq<NodeView>, i: int)
    requires
        0 <= i < edges.len(),
    ensures
        ({
            let r = rows_of(edges, nodes)[i];
            let b = binding_of(edges[i], nodes);
            &&& rows_of(edges, nodes).len() == edges.len()
            &&& r.edge == edges[i]
            &&& b.to_id matches Some(id) ==> r.to_id == id
            &&& b.to_id is None ==> r.to_id.len() == 0
            &&& r.confidence == b.confidence
            &&& r.resolved_by == b.resolved_by
            &&& r.candidates == b.candidates
        }),
{
}

/// A number of rows counts those with the confidence.
pub proof fn rows_are_counted_by_confidence(rows: Seq<RowView>, confidence: Seq<char>)
    ensures
        count_with(rows, confidence) == rows.filter(|r: RowView| r.confidence == confidence).len(),
    decreases rows.len(),
{
    reveal(Seq::filter);
    if rows.len() > 0 {
        rows_are_counted_by_confidence(rows.drop_last(), confidence);
    }
}

/// The source of the reference is in one of the files.
pub open spec fn is_from(nodes: Seq<NodeView>, e: EdgeView, files: Seq<Seq<char>>, i: int) -> bool {
    0 <= i < nodes.len() && nodes[i].id == e.from_id && files.contains(nodes[i].file_path)
}

/// An incremental pass examines the references of the changed files, and those
/// whose last segment is a name that came or went; no others.
pub proof fn a_reference_is_examined_for_its_file_or_its_name(
    edges: Seq<EdgeView>,
    nodes: Seq<NodeView>,
    changed_files: Seq<Seq<char>>,
    delta_names: Seq<Seq<char>>,
    e: EdgeView,
)
    ensures
        affected(edges, nodes, changed_files, delta_names).contains(e) <==> {
            &&& edges.contains(e)
            &&& (exists|i: int| #[trigger] is_from(nodes, e, changed_files, i)) || delta_names.contains(
                bare(normalized(e.to_name)),
            )
        },
{
    let f = affected_fn(nodes, changed_files, delta_names);
    lemma_gather_member(edges, f, e);
    if affected(edges, nodes, changed_files, delta_names).contains(e) {
        let k = choose|k: int| 0 <= k < edges.len() && f(#[trigger] edges[k]) == Some(e);
        assert(edges[k] == e);
        if exists|i: int| 0 <= i < nodes.len() && (#[trigger] nodes[i]).id == e.from_id && changed_files.contains(
            nodes[i].file_path,
        ) {
            let i = choose|i: int|
                0 <= i < nodes.len() && (#[trigger] nodes[i]).id == e.from_id && changed_files.contains(nodes[i].file_path);
            assert(is_from(nodes, e, changed_files, i));
        }
    }
    if edges.contains(e) && ((exists|i: int| #[trigger] is_from(nodes, e, changed_files, i)) || delta_names.contains(
        bare(normalized(e.to_name)),
    )) {
        let k = choose|k: int| 0 <= k < edges.len() && edges[k] == e;
        if exists|i: int| #[trigger] is_from(nodes, e, changed_files, i) {
            let i = choose|i: int| #[trigger] is_from(nodes, e, changed_files, i);
            assert(nodes[i].id == e.from_id);
        }
        assert(f(edges[k]) == Some(e));
    }
}

/// Row `r` is resolved, from a node of the one file to one of the other.
pub open spec fn crosses(rows: Seq<RowView>, nodes: Seq<NodeView>, from: Seq<char>, to: Seq<char>, r: int, u: int, v: int) -> bool {
    &&& 0 <= r < rows.len()
    &&& rows[r].confidence == "RESOLVED"@
    &&& is_named(nodes, rows[r].edge.from_id, u)
    &&& is_named(nodes, rows[r].to_id, v)
    &&& nodes[u].file_path == from
    &&& nodes[v].file_path == to
    &&& from != to
}

/// Files refer to files, exactly: the one to the other where a resolved reference
/// leads from a node of the one to a node of the other. No pair is listed twice.
pub proof fn files_refer_by_resolved_references(
    rows: Seq<RowView>,
    nodes: Seq<NodeView>,
    pairs: Seq<(Seq<char>, Seq<char>)>,
    from: Seq<char>,
    to: Seq<char>,
)
    requires
        nodes.len() <= usize::MAX,
        is_distinct_sorted::<(String, String)>(file_pairs(nodes, gather(rows, bound_ends_fn())), pairs),
    ensures
        pairs.contains((from, to)) <==> exists|r: int, u: int, v: int| #[trigger]
            crosses(rows, nodes, from, to, r, u, v),
        pairs.no_duplicates(),
{
    let ends = gather(rows, bound_ends_fn());
    let all = file_pairs(nodes, ends);
    let f = |e: (Seq<char>, Seq<char>)| file_pair(nodes, e);
    lemma_distinct_keys(all, pairs);
    lemma_gather_member(ends, f, (from, to));
    if pairs.contains((from, to)) {
        assert(all.contains((from, to)));
        let k = choose|k: int| 0 <= k < ends.len() && f(#[trigger] ends[k]) == Some((from, to));
        assert(ends.contains(ends[k]));
        lemma_gather_member(rows, bound_ends_fn(), ends[k]);
        let r = choose|r: int| 0 <= r < rows.len() && bound_ends_fn()(#[trigger] rows[r]) == Some(ends[k]);
        let u = place_of_id(nodes, ends[k].0)->0;
        let v = place_of_id(nodes, ends[k].1)->0;
        lemma_named(nodes, ends[k].0, u);
        lemma_named(nodes, ends[k].1, v);
        assert(crosses(rows, nodes, from, to, r, u, v));
    }
    if exists|r: int, u: int, v: int| #[trigger] crosses(rows, nodes, from, to, r, u, v) {
        let (r, u, v) = choose|r: int, u: int, v: int| #[trigger] crosses(rows, nodes, from, to, r, u, v);
        let end = (rows[r].edge.from_id, rows[r].to_id);
        assert(bound_ends_fn()(rows[r]) == Some(end));
        lemma_gather_member(rows, bound_ends_fn(), end);
        let k = choose|k: int| 0 <= k < ends.len() && ends[k] == end;
        lemma_named(nodes, end.0, u);
        lemma_named(nodes, end.1, v);
        assert(f(ends[k]) == Some((from, to)));
        assert(all.contains((from, to)));
    }
}

/// The greatest of some generations is one of them, and none is greater; without
/// any it is zero.
pub proof fn the_greatest_generation_is_one_of_them(gens: Seq<i64>)
    ensures
        gens.len() == 0 ==> greatest(gens) == 0,
        gens.len() > 0 ==> gens.contains(greatest(gens)),
        forall|i: int| 0 <= i < gens.len() ==> #[trigger] gens[i] <= greatest(gens),
    decreases gens.len(),
{
    if gens.len() == 1 {
        assert(gens[0] == greatest(gens));
    } else if gens.len() > 1 {
        let rest = gens.drop_last();
        the_greatest_generation_is_one_of_them(rest);
        let k = choose|k: int| 0 <= k < rest.len() && rest[k] == greatest(rest);
        assert(gens[k] == rest[k]);
        let last = gens.len() - 1;
        assert(gens[last] <= greatest(gens));
        assert forall|i: int| 0 <= i < gens.len() implies #[trigger] gens[i] <= greatest(gens) by {
            if i < last {
                assert(rest[i] == gens[i]);
            }
        }
    }
}

} // verus!
