//! The impact of touching some files.

use vstd::prelude::*;
use crate::facade::{
    verdict_on, project_dependency_result, AmbiguousRefusal, Dependent, DependentView, MatchedSymbol, RefusalView,
    StaleReference, StaleView, StructuralVerdict, TargetView, VerdictTarget, VerdictView, DEFAULT_DEPTH,
};
use crate::gather::{flatten, gather, lemma_gather_all, lemma_gather_len, lemma_gather_member, lemma_gather_multiset};
use crate::graph::dependencies::compute_reverse_dependencies;
use crate::graph::explain::chains::symbol_chains;
use crate::graph::explain::rows::GraphRows;
use crate::graph::explain::{
    explain_symbol, Chain, ChainView, DeletedSymbol, DeletedView, ExplainGraph, Membership, MembershipView,
};
use crate::graph::web::{query_views, QueryEdge, QueryEdgeView};
use crate::index::resolve::{node_views, NodeView, ResolverNode};
use crate::lookup::{lemma_take_next, put};
use crate::order::{
    is_distinct_sorted, lemma_distinct_sorted, lemma_sorted_same_items, lemma_stable_order_exists,
    lemma_stable_order_is_permutation, lemma_stable_order_sorts, permuted, sort_by_keys, sort_distinct, stable_indices,
    stable_sort,
};
use crate::text::{copy_texts, firsts, has_text, put_first, same_text};

verus! {

// ---- the names that some files touch ---------------------------------------------------------

/// The name of a definition in some files.
pub open spec fn defined_in(paths: Seq<Seq<char>>) -> spec_fn(NodeView) -> Option<Seq<char>> {
    |n: NodeView|
        if paths.contains(n.file_path) && n.node_type != "import"@ && n.name.len() > 0 {
            Some(n.name)
        } else {
            None
        }
}

/// The names that are defined in some files, each once.
pub open spec fn touched(nodes: Seq<NodeView>, paths: Seq<Seq<char>>) -> Seq<Seq<char>> {
    firsts(gather(nodes, defined_in(paths)))
}

/// The name of a definition that disappeared from some files, unless the
/// files define it still.
pub open spec fn gone_from(paths: Seq<Seq<char>>, live: Seq<Seq<char>>) -> spec_fn(DeletedView) -> Option<Seq<char>> {
    |d: DeletedView|
        if paths.contains(d.file_path) && d.name.len() > 0 && !live.contains(d.name) {
            Some(d.name)
        } else {
            None
        }
}

/// The record of a definition that disappeared from some files, unless the
/// files define it still.
pub open spec fn gone_row(paths: Seq<Seq<char>>, live: Seq<Seq<char>>) -> spec_fn(DeletedView) -> Option<DeletedView> {
    |d: DeletedView|
        if paths.contains(d.file_path) && d.name.len() > 0 && !live.contains(d.name) {
            Some(d)
        } else {
            None
        }
}

/// Records without those that came before.
pub open spec fn distinct_rows(s: Seq<DeletedView>) -> Seq<DeletedView>
    decreases s.len(),
{
    if s.len() == 0 {
        Seq::empty()
    } else {
        let before = distinct_rows(s.drop_last());
        if before.contains(s.last()) {
            before
        } else {
            before.push(s.last())
        }
    }
}

/// What orders records: all that they hold.
pub type RowKey = (((String, String), String), String);

pub open spec fn row_keys(s: Seq<DeletedView>) -> Seq<(((Seq<char>, Seq<char>), Seq<char>), Seq<char>)> {
    s.map_values(|d: DeletedView| (((d.name, d.qualified_name), d.file_path), d.node_type))
}

/// The records of what disappeared from some files, by name, qualified name,
/// file and type.
pub open spec fn gone_rows(
    deleted: Seq<DeletedView>,
    paths: Seq<Seq<char>>,
    live: Seq<Seq<char>>,
) -> Seq<DeletedView> {
    let rows = distinct_rows(gather(deleted, gone_row(paths, live)));
    stable_sort::<RowKey, DeletedView>(row_keys(rows), rows)
}

/// The names that are defined in some files, each once, in the order of the
/// nodes.
pub fn touched_symbol_names(nodes: &[ResolverNode], paths: &Vec<String>) -> (r: Vec<String>)
    ensures
        r.deep_view() == touched(node_views(nodes@), paths.deep_view()),
{
    let ghost all = node_views(nodes@);
    let ghost f = defined_in(paths.deep_view());
    let mut out: Vec<String> = Vec::new();
    let mut i: usize = 0;
    assert(out.deep_view() =~= firsts(gather(all.take(0), f)));
    while i < nodes.len()
        invariant
            i <= nodes@.len(),
            all == node_views(nodes@),
            f == defined_in(paths.deep_view()),
            out.deep_view() == firsts(gather(all.take(i as int), f)),
        decreases nodes.len() - i,
    {
        let node = &nodes[i];
        proof {
            assert(all.len() == nodes@.len());
            lemma_take_next(all, i as int);
            assert(all[i as int] == node.deep_view());
        }
        if has_text(paths, node.file_path.as_str()) && !same_text(node.node_type.as_str(), "import")
            && !node.name.as_str().is_empty() {
            proof {
                let before = gather(all.take(i as int), f);
                assert(before.push(node.name@).drop_last() =~= before);
            }
            put_first(&mut out, node.name.as_str());
        }
        i = i + 1;
    }
    assert(all.take(i as int) =~= all);
    out
}

/// The names that disappeared from some files and are not defined there
/// still, in order.
pub fn deleted_symbol_names(deleted: &Vec<DeletedSymbol>, paths: &Vec<String>, live: &Vec<String>) -> (r: Vec<String>)
    ensures
        is_distinct_sorted::<String>(
            gather(deleted.deep_view(), gone_from(paths.deep_view(), live.deep_view())),
            r.deep_view(),
        ),
{
    let ghost all = deleted.deep_view();
    let ghost f = gone_from(paths.deep_view(), live.deep_view());
    let mut out: Vec<String> = Vec::new();
    let mut i: usize = 0;
    assert(out.deep_view() =~= gather(all.take(0), f));
    while i < deleted.len()
        invariant
            i <= deleted@.len(),
            all == deleted.deep_view(),
            f == gone_from(paths.deep_view(), live.deep_view()),
            out.deep_view() == gather(all.take(i as int), f),
        decreases deleted.len() - i,
    {
        let d = &deleted[i];
        proof {
            assert(all.len() == deleted@.len());
            lemma_take_next(all, i as int);
            assert(all[i as int] == d.deep_view());
        }
        if has_text(paths, d.file_path.as_str()) && !d.name.as_str().is_empty() && !has_text(live, d.name.as_str()) {
            put(&mut out, d.name.as_str().to_owned());
        }
        i = i + 1;
    }
    assert(all.take(i as int) =~= all);
    sort_distinct(out)
}

fn same_row(a: &DeletedSymbol, b: &DeletedSymbol) -> (r: bool)
    ensures
        r == (a.deep_view() == b.deep_view()),
{
    same_text(a.name.as_str(), b.name.as_str()) && same_text(a.qualified_name.as_str(), b.qualified_name.as_str())
        && same_text(a.node_type.as_str(), b.node_type.as_str()) && same_text(
        a.file_path.as_str(),
        b.file_path.as_str(),
    )
}

fn copy_deleted(d: &DeletedSymbol) -> (r: DeletedSymbol)
    ensures
        r.deep_view() == d.deep_view(),
{
    DeletedSymbol {
        name: d.name.as_str().to_owned(),
        qualified_name: d.qualified_name.as_str().to_owned(),
        node_type: d.node_type.as_str().to_owned(),
        file_path: d.file_path.as_str().to_owned(),
    }
}

fn has_row(rows: &Vec<DeletedSymbol>, d: &DeletedSymbol) -> (r: bool)
    ensures
        r == rows.deep_view().contains(d.deep_view()),
{
    let ghost all = rows.deep_view();
    let mut i: usize = 0;
    while i < rows.len()
        invariant
            i <= rows@.len(),
            all == rows.deep_view(),
            forall|k: int| 0 <= k < i ==> #[trigger] all[k] != d.deep_view(),
        decreases rows.len() - i,
    {
        assert(all[i as int] == rows@[i as int].deep_view());
        if same_row(&rows[i], d) {
            return true;
        }
        i = i + 1;
    }
    false
}

/// The records of what disappeared from some files and is not defined there
/// still.
pub fn deleted_symbol_rows(deleted: &Vec<DeletedSymbol>, paths: &Vec<String>, live: &Vec<String>) -> (r: Vec<
    DeletedSymbol,
>)
    ensures
        r.deep_view() == gone_rows(deleted.deep_view(), paths.deep_view(), live.deep_view()),
{
    let ghost all = deleted.deep_view();
    let ghost f = gone_row(paths.deep_view(), live.deep_view());
    let mut out: Vec<DeletedSymbol> = Vec::new();
    let mut i: usize = 0;
    assert(out.deep_view() =~= distinct_rows(gather(all.take(0), f)));
    while i < deleted.len()
        invariant
            i <= deleted@.len(),
            all == deleted.deep_view(),
            f == gone_row(paths.deep_view(), live.deep_view()),
            out.deep_view() == distinct_rows(gather(all.take(i as int), f)),
        decreases deleted.len() - i,
    {
        let d = &deleted[i];
        proof {
            assert(all.len() == deleted@.len());
            lemma_take_next(all, i as int);
            assert(all[i as int] == d.deep_view());
        }
        if has_text(paths, d.file_path.as_str()) && !d.name.as_str().is_empty() && !has_text(live, d.name.as_str()) {
            proof {
                let before = gather(all.take(i as int), f);
                assert(before.push(d.deep_view()).drop_last() =~= before);
            }
            if !has_row(&out, d) {
                put(&mut out, copy_deleted(d));
            }
        }
        i = i + 1;
    }
    assert(all.take(i as int) =~= all);
    sort_rows(out)
}

fn sort_rows(rows: Vec<DeletedSymbol>) -> (r: Vec<DeletedSymbol>)
    ensures
        r.deep_view() == stable_sort::<RowKey, DeletedView>(
            row_keys(rows.deep_view()),
            rows.deep_view(),
        ),
{
    let ghost want = row_keys(rows.deep_view());
    let mut keys: Vec<RowKey> = Vec::new();
    let mut i: usize = 0;
    assert(keys.deep_view() =~= want.take(0));
    while i < rows.len()
        invariant
            i <= rows@.len(),
            want == row_keys(rows.deep_view()),
            keys.deep_view() == want.take(i as int),
        decreases rows.len() - i,
    {
        let d = &rows[i];
        proof {
            assert(want.len() == rows@.len());
            lemma_take_next(want, i as int);
            assert(rows.deep_view()[i as int] == d.deep_view());
        }
        let key = (
            (
                (d.name.as_str().to_owned(), d.qualified_name.as_str().to_owned()),
                d.file_path.as_str().to_owned(),
            ),
            d.node_type.as_str().to_owned(),
        );
        assert(key.deep_view() == want[i as int]);
        put(&mut keys, key);
        i = i + 1;
    }
    assert(want.take(i as int) =~= want);
    assert(keys.deep_view().len() == keys@.len());
    sort_by_keys(&keys, rows)
}

/// Records, each once, are those that were given.
pub proof fn lemma_distinct_rows(s: Seq<DeletedView>)
    ensures
        distinct_rows(s).no_duplicates(),
        distinct_rows(s).len() <= s.len(),
        forall|d: DeletedView| #[trigger] distinct_rows(s).contains(d) <==> s.contains(d),
    decreases s.len(),
{
    if s.len() > 0 {
        let rest = s.drop_last();
        let before = distinct_rows(rest);
        let after = distinct_rows(s);
        lemma_distinct_rows(rest);
        assert(s =~= rest.push(s.last()));
        assert forall|d: DeletedView| #[trigger] after.contains(d) <==> s.contains(d) by {
            broadcast use vstd::seq_lib::group_seq_properties;

            assert(before.contains(d) <==> rest.contains(d));
        }
    }
}

/// The keys of records that are distinct have the records' items, each once.
proof fn lemma_same_keys(a: Seq<DeletedView>, b: Seq<DeletedView>)
    requires
        a.no_duplicates(),
        b.no_duplicates(),
        forall|d: DeletedView| #[trigger] a.contains(d) <==> b.contains(d),
    ensures
        row_keys(a).to_multiset() == row_keys(b).to_multiset(),
{
    broadcast use vstd::seq_lib::group_to_multiset_ensures;

    a.lemma_multiset_has_no_duplicates();
    b.lemma_multiset_has_no_duplicates();
    assert(a.to_multiset() =~= b.to_multiset()) by {
        assert forall|d: DeletedView| a.to_multiset().count(d) == b.to_multiset().count(d) by {
            assert(a.contains(d) <==> b.contains(d));
        }
    }
    let f = |d: DeletedView| Some((((d.name, d.qualified_name), d.file_path), d.node_type));
    lemma_gather_multiset(a, b, f);
    lemma_gather_all(a, f);
    lemma_gather_all(b, f);
    assert(gather(a, f) =~= row_keys(a));
    assert(gather(b, f) =~= row_keys(b));
}

/// The records of what disappeared are listed in one order, whatever order
/// they were given in, and however often each.
pub proof fn the_lost_are_listed_in_one_order(
    a: Seq<DeletedView>,
    b: Seq<DeletedView>,
    paths: Seq<Seq<char>>,
    live: Seq<Seq<char>>,
)
    requires
        forall|d: DeletedView| #[trigger] a.contains(d) <==> b.contains(d),
        a.len() <= usize::MAX,
        b.len() <= usize::MAX,
    ensures
        gone_rows(a, paths, live) == gone_rows(b, paths, live),
{
    let f = gone_row(paths, live);
    let x = distinct_rows(gather(a, f));
    let y = distinct_rows(gather(b, f));
    lemma_distinct_rows(gather(a, f));
    lemma_distinct_rows(gather(b, f));
    lemma_gather_len(a, f);
    lemma_gather_len(b, f);
    assert forall|d: DeletedView| #[trigger] x.contains(d) <==> y.contains(d) by {
        lemma_gather_member(a, f, d);
        lemma_gather_member(b, f, d);
        if x.contains(d) {
            assert(gather(a, f).contains(d));
            let k = choose|k: int| 0 <= k < a.len() && f(#[trigger] a[k]) == Some(d);
            assert(a[k] == d);
            assert(a.contains(d));
            assert(b.contains(d));
            let j = choose|j: int| 0 <= j < b.len() && b[j] == d;
            assert(f(b[j]) == Some(d));
            assert(y.contains(d));
        }
        if y.contains(d) {
            assert(gather(b, f).contains(d));
            let k = choose|k: int| 0 <= k < b.len() && f(#[trigger] b[k]) == Some(d);
            assert(b[k] == d);
            assert(b.contains(d));
            assert(a.contains(d));
            let j = choose|j: int| 0 <= j < a.len() && a[j] == d;
            assert(f(a[j]) == Some(d));
        }
    }
    lemma_same_keys(x, y);
    let kx = row_keys(x);
    let ky = row_keys(y);
    let p = stable_indices::<RowKey>(kx);
    let q = stable_indices::<RowKey>(ky);
    lemma_stable_order_exists::<RowKey>(kx);
    lemma_stable_order_exists::<RowKey>(ky);
    lemma_stable_order_is_permutation::<RowKey>(kx, p);
    lemma_stable_order_is_permutation::<RowKey>(ky, q);
    lemma_stable_order_sorts::<RowKey>(kx, p);
    lemma_stable_order_sorts::<RowKey>(ky, q);
    lemma_sorted_same_items::<RowKey>(kx, ky);
    assert(permuted(x, p) =~= permuted(y, q)) by {
        assert(permuted(kx, p).len() == permuted(ky, q).len());
        assert forall|i: int| 0 <= i < p.len() implies permuted(x, p)[i] == permuted(y, q)[i] by {
            assert(permuted(kx, p)[i] == permuted(ky, q)[i]);
            assert(kx[p[i] as int] == ky[q[i] as int]);
        }
    }
}

// ---- verdicts together ------------------------------------------------------------------------

/// What tells references apart: the source's file and name, and the name
/// referred to.
pub open spec fn refusal_key(a: RefusalView) -> (Seq<char>, Seq<char>, Seq<char>) {
    (a.from_file, a.from_name, a.to_name)
}

pub open spec fn stale_key(a: StaleView) -> (Seq<char>, Seq<char>, Seq<char>) {
    (a.from_file, a.from_name, a.to_name)
}

/// Dependents with those of a second list behind them whose node is not yet
/// there.
pub open spec fn more_dependents(s: Seq<DependentView>, t: Seq<DependentView>) -> Seq<DependentView>
    decreases t.len(),
{
    if t.len() == 0 {
        s
    } else {
        let before = more_dependents(s, t.drop_last());
        if exists|k: int| 0 <= k < before.len() && (#[trigger] before[k]).item.node_id == t.last().item.node_id {
            before
        } else {
            before.push(t.last())
        }
    }
}

pub open spec fn more_refusals(s: Seq<RefusalView>, t: Seq<RefusalView>) -> Seq<RefusalView>
    decreases t.len(),
{
    if t.len() == 0 {
        s
    } else {
        let before = more_refusals(s, t.drop_last());
        if exists|k: int| 0 <= k < before.len() && refusal_key(#[trigger] before[k]) == refusal_key(t.last()) {
            before
        } else {
            before.push(t.last())
        }
    }
}

pub open spec fn more_stale(s: Seq<StaleView>, t: Seq<StaleView>) -> Seq<StaleView>
    decreases t.len(),
{
    if t.len() == 0 {
        s
    } else {
        let before = more_stale(s, t.drop_last());
        if exists|k: int| 0 <= k < before.len() && stale_key(#[trigger] before[k]) == stale_key(t.last()) {
            before
        } else {
            before.push(t.last())
        }
    }
}

/// Two verdicts together: every definition that either matched, and every
/// finding once.
pub open spec fn together(a: VerdictView, b: VerdictView) -> VerdictView {
    VerdictView {
        resolved_dependents: more_dependents(a.resolved_dependents, b.resolved_dependents),
        ambiguous_refusals: more_refusals(a.ambiguous_refusals, b.ambiguous_refusals),
        stale_references: more_stale(a.stale_references, b.stale_references),
        name_ambiguous: a.name_ambiguous || b.name_ambiguous,
        matched_symbols: a.matched_symbols + b.matched_symbols,
        ..a
    }
}

/// A verdict that says nothing.
pub open spec fn empty_verdict(target: TargetView, graph_empty: bool) -> VerdictView {
    VerdictView {
        target,
        resolved_dependents: Seq::empty(),
        ambiguous_refusals: Seq::empty(),
        stale_references: Seq::empty(),
        name_ambiguous: false,
        matched_symbols: Seq::empty(),
        graph_empty,
        explanations: None,
    }
}

/// The verdict on some names together.
pub open spec fn verdict_on_all(
    target: TargetView,
    nodes: Seq<NodeView>,
    edges: Seq<QueryEdgeView>,
    names: Seq<Seq<char>>,
) -> VerdictView
    decreases names.len(),
{
    if names.len() == 0 {
        empty_verdict(target, nodes.len() == 0)
    } else {
        together(
            verdict_on_all(target, nodes, edges, names.drop_last()),
            verdict_on(target, nodes, edges, names.last()),
        )
    }
}

fn join_dependents(out: &mut Vec<Dependent>, more: Vec<Dependent>)
    ensures
        final(out).deep_view() == more_dependents(old(out).deep_view(), more.deep_view()),
{
    let ghost had = out.deep_view();
    let ghost all = more.deep_view();
    let mut i: usize = 0;
    while i < more.len()
        invariant
            i <= more@.len(),
            all == more.deep_view(),
            out.deep_view() == more_dependents(had, all.take(i as int)),
        decreases more.len() - i,
    {
        let d = &more[i];
        proof {
            assert(all.len() == more@.len());
            lemma_take_next(all, i as int);
            assert(all[i as int] == d.deep_view());
        }
        let ghost before = out.deep_view();
        let mut k: usize = 0;
        let mut found = false;
        while k < out.len() && !found
            invariant
                k <= out@.len(),
                before == out.deep_view(),
                !found ==> forall|j: int| 0 <= j < k ==> (#[trigger] before[j]).item.node_id != d.node_id@,
                found ==> exists|j: int| 0 <= j < before.len() && (#[trigger] before[j]).item.node_id == d.node_id@,
            decreases out.len() - k + (if found { 0int } else { 1int }),
        {
            assert(before[k as int] == out@[k as int].deep_view());
            if same_text(out[k].node_id.as_str(), d.node_id.as_str()) {
                found = true;
            } else {
                k = k + 1;
            }
        }
        if !found {
            let copy = Dependent {
                node_id: d.node_id.as_str().to_owned(),
                name: d.name.as_str().to_owned(),
                qualified_name: d.qualified_name.as_str().to_owned(),
                node_type: d.node_type.as_str().to_owned(),
                file_path: d.file_path.as_str().to_owned(),
                depth: d.depth,
                of_symbol: d.of_symbol.as_str().to_owned(),
            };
            put(out, copy);
        }
        i = i + 1;
    }
    assert(all.take(i as int) =~= all);
}

fn join_refusals(out: &mut Vec<AmbiguousRefusal>, more: Vec<AmbiguousRefusal>)
    ensures
        final(out).deep_view() == more_refusals(old(out).deep_view(), more.deep_view()),
{
    let ghost had = out.deep_view();
    let ghost all = more.deep_view();
    let mut i: usize = 0;
    while i < more.len()
        invariant
            i <= more@.len(),
            all == more.deep_view(),
            out.deep_view() == more_refusals(had, all.take(i as int)),
        decreases more.len() - i,
    {
        let d = &more[i];
        proof {
            assert(all.len() == more@.len());
            lemma_take_next(all, i as int);
            assert(all[i as int] == d.deep_view());
        }
        let ghost before = out.deep_view();
        let ghost key = refusal_key(d.deep_view());
        let mut k: usize = 0;
        let mut found = false;
        while k < out.len() && !found
            invariant
                k <= out@.len(),
                before == out.deep_view(),
                key == refusal_key(d.deep_view()),
                !found ==> forall|j: int| 0 <= j < k ==> refusal_key(#[trigger] before[j]) != key,
                found ==> exists|j: int| 0 <= j < before.len() && refusal_key(#[trigger] before[j]) == key,
            decreases out.len() - k + (if found { 0int } else { 1int }),
        {
            assert(before[k as int] == out@[k as int].deep_view());
            if same_text(out[k].from_file.as_str(), d.from_file.as_str()) && same_text(
                out[k].from_name.as_str(),
                d.from_name.as_str(),
            ) && same_text(out[k].to_name.as_str(), d.to_name.as_str()) {
                found = true;
            } else {
                k = k + 1;
            }
        }
        if !found {
            let copy = AmbiguousRefusal {
                from_name: d.from_name.as_str().to_owned(),
                from_file: d.from_file.as_str().to_owned(),
                to_name: d.to_name.as_str().to_owned(),
                to_type: d.to_type.as_str().to_owned(),
                candidates: copy_texts(&d.candidates),
                of_symbol: d.of_symbol.as_str().to_owned(),
            };
            put(out, copy);
        }
        i = i + 1;
    }
    assert(all.take(i as int) =~= all);
}

fn join_stale(out: &mut Vec<StaleReference>, more: Vec<StaleReference>)
    ensures
        final(out).deep_view() == more_stale(old(out).deep_view(), more.deep_view()),
{
    let ghost had = out.deep_view();
    let ghost all = more.deep_view();
    let mut i: usize = 0;
    while i < more.len()
        invariant
            i <= more@.len(),
            all == more.deep_view(),
            out.deep_view() == more_stale(had, all.take(i as int)),
        decreases more.len() - i,
    {
        let d = &more[i];
        proof {
            assert(all.len() == more@.len());
            lemma_take_next(all, i as int);
            assert(all[i as int] == d.deep_view());
        }
        let ghost before = out.deep_view();
        let ghost key = stale_key(d.deep_view());
        let mut k: usize = 0;
        let mut found = false;
        while k < out.len() && !found
            invariant
                k <= out@.len(),
                before == out.deep_view(),
                key == stale_key(d.deep_view()),
                !found ==> forall|j: int| 0 <= j < k ==> stale_key(#[trigger] before[j]) != key,
                found ==> exists|j: int| 0 <= j < before.len() && stale_key(#[trigger] before[j]) == key,
            decreases out.len() - k + (if found { 0int } else { 1int }),
        {
            assert(before[k as int] == out@[k as int].deep_view());
            if same_text(out[k].from_file.as_str(), d.from_file.as_str()) && same_text(
                out[k].from_name.as_str(),
                d.from_name.as_str(),
            ) && same_text(out[k].to_name.as_str(), d.to_name.as_str()) {
                found = true;
            } else {
                k = k + 1;
            }
        }
        if !found {
            let copy = StaleReference {
                from_name: d.from_name.as_str().to_owned(),
                from_file: d.from_file.as_str().to_owned(),
                to_name: d.to_name.as_str().to_owned(),
                to_type: d.to_type.as_str().to_owned(),
            };
            put(out, copy);
        }
        i = i + 1;
    }
    assert(all.take(i as int) =~= all);
}

fn join_matched(out: &mut Vec<MatchedSymbol>, more: Vec<MatchedSymbol>)
    ensures
        final(out).deep_view() == old(out).deep_view() + more.deep_view(),
{
    let ghost had = out.deep_view();
    let ghost all = more.deep_view();
    let mut more = more;
    out.append(&mut more);
    assert(out.deep_view() =~= had + all);
}

fn silent(target: VerdictTarget, graph_empty: bool) -> (r: StructuralVerdict)
    ensures
        r.deep_view() == empty_verdict(target.deep_view(), graph_empty),
{
    let r = StructuralVerdict {
        target,
        resolved_dependents: Vec::new(),
        ambiguous_refusals: Vec::new(),
        stale_references: Vec::new(),
        name_ambiguous: false,
        matched_symbols: Vec::new(),
        graph_empty,
        explanations: None,
    };
    proof {
        assert(r.resolved_dependents.deep_view() =~= Seq::empty());
        assert(r.ambiguous_refusals.deep_view() =~= Seq::empty());
        assert(r.stale_references.deep_view() =~= Seq::empty());
        assert(r.matched_symbols.deep_view() =~= Seq::empty());
    }
    r
}

fn add_verdict(
    v: &mut StructuralVerdict,
    nodes: &[ResolverNode],
    edges: &[QueryEdge],
    paths: &Vec<String>,
    name: &str,
)
    requires
        old(v).deep_view().target == TargetView::Paths(paths.deep_view()),
    ensures
        final(v).deep_view() == together(
            old(v).deep_view(),
            verdict_on(
                TargetView::Paths(paths.deep_view()),
                node_views(nodes@),
                query_views(edges@),
                name@,
            ),
        ),
{
    let result = compute_reverse_dependencies(nodes, edges, name, DEFAULT_DEPTH, true);
    proof {
        assert(node_views(nodes@).len() == nodes@.len());
        assert(result.groups.deep_view().len() == result.groups@.len());
    }
    let one = project_dependency_result(
        VerdictTarget::Paths(copy_texts(paths)),
        name,
        &result,
        nodes.len() == 0,
    );
    v.name_ambiguous = v.name_ambiguous || one.name_ambiguous;
    join_matched(&mut v.matched_symbols, one.matched_symbols);
    join_dependents(&mut v.resolved_dependents, one.resolved_dependents);
    join_refusals(&mut v.ambiguous_refusals, one.ambiguous_refusals);
    join_stale(&mut v.stale_references, one.stale_references);
}

fn verdict_on_names(nodes: &[ResolverNode], edges: &[QueryEdge], paths: &Vec<String>, names: &Vec<String>) -> (r:
    StructuralVerdict)
    ensures
        r.deep_view() == verdict_on_all(
            TargetView::Paths(paths.deep_view()),
            node_views(nodes@),
            query_views(edges@),
            names.deep_view(),
        ),
{
    let ghost target = TargetView::Paths(paths.deep_view());
    let ghost nv = node_views(nodes@);
    let ghost ev = query_views(edges@);
    let ghost all = names.deep_view();
    assert(nv.len() == nodes@.len());
    let mut v = silent(VerdictTarget::Paths(copy_texts(paths)), nodes.len() == 0);
    let mut i: usize = 0;
    while i < names.len()
        invariant
            i <= names@.len(),
            all == names.deep_view(),
            target == TargetView::Paths(paths.deep_view()),
            nv == node_views(nodes@),
            ev == query_views(edges@),
            v.deep_view() == verdict_on_all(target, nv, ev, all.take(i as int)),
            v.deep_view().target == target,
        decreases names.len() - i,
    {
        proof {
            assert(all.len() == names@.len());
            lemma_take_next(all, i as int);
            assert(all[i as int] == names@[i as int]@);
        }
        add_verdict(&mut v, nodes, edges, paths, names[i].as_str());
        i = i + 1;
    }
    assert(all.take(i as int) =~= all);
    v
}

/// The impact of touching some files: that of every name they define or have
/// lost, together.
pub fn impact_verdict_for_paths(
    nodes: &[ResolverNode],
    edges: &[QueryEdge],
    deleted: &Vec<DeletedSymbol>,
    paths: &Vec<String>,
) -> (r: StructuralVerdict)
    ensures
        exists|lost: Seq<Seq<char>>| #[trigger]
            is_distinct_sorted::<String>(
                gather(
                    deleted.deep_view(),
                    gone_from(paths.deep_view(), touched(node_views(nodes@), paths.deep_view())),
                ),
                lost,
            ) && r.deep_view() == verdict_on_all(
                TargetView::Paths(paths.deep_view()),
                node_views(nodes@),
                query_views(edges@),
                touched(node_views(nodes@), paths.deep_view()) + lost,
            ),
{
    let mut names = touched_symbol_names(nodes, paths);
    let mut lost = deleted_symbol_names(deleted, paths, &names);
    let ghost first = names.deep_view();
    let ghost second = lost.deep_view();
    names.append(&mut lost);
    assert(names.deep_view() =~= first + second);
    verdict_on_names(nodes, edges, paths, &names)
}

/// No name is asked about twice: what files have lost is not what they still
/// define, and neither list holds a name twice.
pub proof fn touched_and_lost_are_apart(
    nodes: Seq<NodeView>,
    deleted: Seq<DeletedView>,
    paths: Seq<Seq<char>>,
    lost: Seq<Seq<char>>,
    i: int,
    j: int,
)
    requires
        is_distinct_sorted::<String>(gather(deleted, gone_from(paths, touched(nodes, paths))), lost),
        0 <= i < j < (touched(nodes, paths) + lost).len(),
    ensures
        (touched(nodes, paths) + lost)[i] != (touched(nodes, paths) + lost)[j],
{
    let live = touched(nodes, paths);
    let f = gone_from(paths, live);
    lemma_distinct_sorted::<String>(gather(deleted, f), lost);
    lemma_firsts(gather(nodes, defined_in(paths)));
    let all = live + lost;
    if j < live.len() {
        assert(all[i] == live[i] && all[j] == live[j]);
    } else {
        let x = lost[j - live.len()];
        assert(lost.contains(x));
        if i < live.len() {
            lemma_gather_member(deleted, f, x);
            assert(gather(deleted, f).contains(x));
            assert(!live.contains(x));
            assert(live.contains(live[i]));
        } else {
            assert(lost[i - live.len()] != lost[j - live.len()]);
        }
    }
}

proof fn lemma_firsts(s: Seq<Seq<char>>)
    ensures
        forall|i: int, j: int| 0 <= i < j < firsts(s).len() ==> #[trigger] firsts(s)[i] != #[trigger] firsts(s)[j],
    decreases s.len(),
{
    if s.len() > 0 {
        lemma_firsts(s.drop_last());
        let before = firsts(s.drop_last());
        assert forall|i: int, j: int| 0 <= i < j < firsts(s).len() implies #[trigger] firsts(s)[i]
            != #[trigger] firsts(s)[j] by {
            if j == before.len() {
                assert(before.contains(before[i]));
            }
        }
    }
}

// ---- evidence ------------------------------------------------------------------------------------

pub open spec fn named_chains(g: GraphRows, project: Seq<char>) -> spec_fn(Seq<char>) -> Seq<ChainView> {
    |name: Seq<char>| symbol_chains(g, project, name, MembershipView::ExplicitSymbol)
}

pub open spec fn lost_chains(g: GraphRows, project: Seq<char>) -> spec_fn(DeletedView) -> Seq<ChainView> {
    |d: DeletedView| symbol_chains(g, project, d.name, MembershipView::Deleted(d))
}

/// The evidence behind a verdict on some files: the chains of every name they
/// define, then those of every record of what they lost.
pub open spec fn path_chains(
    g: GraphRows,
    project: Seq<char>,
    names: Seq<Seq<char>>,
    rows: Seq<DeletedView>,
) -> Seq<ChainView> {
    flatten(names, named_chains(g, project)) + flatten(rows, lost_chains(g, project))
}

fn join_chains(out: &mut Vec<Chain>, more: Vec<Chain>)
    ensures
        final(out).deep_view() == old(out).deep_view() + more.deep_view(),
{
    let ghost had = out.deep_view();
    let ghost all = more.deep_view();
    let mut more = more;
    out.append(&mut more);
    assert(out.deep_view() =~= had + all);
}

fn chains_for(graph: &ExplainGraph, project_id: &str, names: &Vec<String>, rows: &Vec<DeletedSymbol>) -> (r: Vec<Chain>)
    requires
        graph.wf(),
    ensures
        r.deep_view() == path_chains(graph.rows(), project_id@, names.deep_view(), rows.deep_view()),
{
    let ghost g = graph.rows();
    let ghost all = names.deep_view();
    let ghost lost = rows.deep_view();
    let mut out: Vec<Chain> = Vec::new();
    let mut i: usize = 0;
    assert(out.deep_view() =~= flatten(all.take(0), named_chains(g, project_id@)));
    while i < names.len()
        invariant
            i <= names@.len(),
            graph.wf(),
            g == graph.rows(),
            all == names.deep_view(),
            out.deep_view() == flatten(all.take(i as int), named_chains(g, project_id@)),
        decreases names.len() - i,
    {
        proof {
            assert(all.len() == names@.len());
            lemma_take_next(all, i as int);
            assert(all[i as int] == names@[i as int]@);
        }
        join_chains(
            &mut out,
            explain_symbol(graph, project_id, names[i].as_str(), &Membership::ExplicitSymbol),
        );
        i = i + 1;
    }
    assert(all.take(i as int) =~= all);
    let ghost first = out.deep_view();
    let mut k: usize = 0;
    assert(out.deep_view() =~= first + flatten(lost.take(0), lost_chains(g, project_id@)));
    while k < rows.len()
        invariant
            k <= rows@.len(),
            graph.wf(),
            g == graph.rows(),
            lost == rows.deep_view(),
            out.deep_view() == first + flatten(lost.take(k as int), lost_chains(g, project_id@)),
        decreases rows.len() - k,
    {
        proof {
            assert(lost.len() == rows@.len());
            lemma_take_next(lost, k as int);
            assert(lost[k as int] == rows@[k as int].deep_view());
        }
        let ghost before = flatten(lost.take(k as int), lost_chains(g, project_id@));
        let membership = Membership::Deleted(copy_deleted(&rows[k]));
        let more = explain_symbol(graph, project_id, rows[k].name.as_str(), &membership);
        let ghost new = more.deep_view();
        join_chains(&mut out, more);
        assert((first + before) + new =~= first + (before + new));
        k = k + 1;
    }
    assert(lost.take(k as int) =~= lost);
    out
}

/// The impact of touching some files, with the evidence behind it. The
/// evidence changes nothing else of the verdict.
pub fn explain_verdict_for_paths(
    nodes: &[ResolverNode],
    edges: &[QueryEdge],
    graph: &ExplainGraph,
    deleted: &Vec<DeletedSymbol>,
    project_id: &str,
    paths: &Vec<String>,
) -> (r: StructuralVerdict)
    requires
        graph.wf(),
    ensures
        r.deep_view().explanations == Some(
            path_chains(
                graph.rows(),
                project_id@,
                touched(node_views(nodes@), paths.deep_view()),
                gone_rows(
                    deleted.deep_view(),
                    paths.deep_view(),
                    touched(node_views(nodes@), paths.deep_view()),
                ),
            ),
        ),
        exists|lost: Seq<Seq<char>>| #[trigger]
            is_distinct_sorted::<String>(
                gather(
                    deleted.deep_view(),
                    gone_from(paths.deep_view(), touched(node_views(nodes@), paths.deep_view())),
                ),
                lost,
            ) && (VerdictView { explanations: None, ..r.deep_view() }) == verdict_on_all(
                TargetView::Paths(paths.deep_view()),
                node_views(nodes@),
                query_views(edges@),
                touched(node_views(nodes@), paths.deep_view()) + lost,
            ),
{
    let mut verdict = impact_verdict_for_paths(nodes, edges, deleted, paths);
    let names = touched_symbol_names(nodes, paths);
    let rows = deleted_symbol_rows(deleted, paths, &names);
    let chains = chains_for(graph, project_id, &names, &rows);
    proof {
        lemma_no_evidence(
            TargetView::Paths(paths.deep_view()),
            node_views(nodes@),
            query_views(edges@),
        );
    }
    verdict.explanations = Some(chains);
    verdict
}

proof fn lemma_no_evidence(target: TargetView, nodes: Seq<NodeView>, edges: Seq<QueryEdgeView>)
    ensures
        forall|names: Seq<Seq<char>>|
            (#[trigger] verdict_on_all(target, nodes, edges, names)).explanations is None,
{
    assert forall|names: Seq<Seq<char>>|
        (#[trigger] verdict_on_all(target, nodes, edges, names)).explanations is None by {
        lemma_no_evidence_for(target, nodes, edges, names);
    }
}

proof fn lemma_no_evidence_for(
    target: TargetView,
    nodes: Seq<NodeView>,
    edges: Seq<QueryEdgeView>,
    names: Seq<Seq<char>>,
)
    ensures
        verdict_on_all(target, nodes, edges, names).explanations is None,
    decreases names.len(),
{
    if names.len() > 0 {
        lemma_no_evidence_for(target, nodes, edges, names.drop_last());
    }
}

/// The impact of touching a symbol, with the evidence behind it.
pub fn explain_verdict(
    nodes: &[ResolverNode],
    edges: &[QueryEdge],
    graph: &ExplainGraph,
    project_id: &str,
    symbol: &str,
) -> (r: StructuralVerdict)
    requires
        graph.wf(),
    ensures
        r.deep_view() == (VerdictView {
            explanations: Some(
                symbol_chains(graph.rows(), project_id@, symbol@, MembershipView::ExplicitSymbol),
            ),
            ..verdict_on(TargetView::Symbol(symbol@), node_views(nodes@), query_views(edges@), symbol@)
        }),
{
    let mut verdict = crate::facade::impact_verdict(nodes, edges, symbol);
    let chains = explain_symbol(graph, project_id, symbol, &Membership::ExplicitSymbol);
    verdict.explanations = Some(chains);
    verdict
}

} // verus!
