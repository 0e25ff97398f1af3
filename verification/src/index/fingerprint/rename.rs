//! Renaming changes no fingerprint.

use vstd::prelude::*;

use crate::gather::{gather, lemma_gather_all, lemma_gather_member, lemma_gather_multiset, lemma_gather_same};
use crate::graph::web::{places, QueryEdgeView};
use crate::index::fingerprint::hood::{
    are_hood_hashes, combined, count_names, definition_fn, definition_keys, definitions, hood_fits,
    is_definition, is_fingerprint, is_hood_hash, is_kind_list, is_name_tie, is_numberable,
    kinds_of, lemma_definitions_len, lemma_hoods_fit, lemma_members, lemma_ties_within, lists_fingerprints, members, row_keys, symbol_key, tie_fn,
    ties, ties_within, total_names, total_ties, touching, Tie,
};
use crate::index::fingerprint::laws::{
    a_neighbourhood_has_one_hash, a_rename_keeps_every_hash, lemma_moved_own, lemma_touching_gather,
    moved, moved_all, own_fn, same_structure,
};
use crate::index::fingerprint::SymbolView;
use crate::index::resolve::indices::ids;
use crate::index::resolve::NodeView;
use crate::lookup::{lemma_places_of, places_of};
use crate::order::{
    is_distinct_sorted, is_permutation, lemma_ascending_unique, lemma_distinct_sorted, lemma_permutation_covers,
    lemma_sorted_same_items, Sortable,
};
use crate::text::joined;

verus! {

/// The sizes that fingerprints can be computed for.
pub open spec fn fits(nodes: Seq<NodeView>, edges: Seq<QueryEdgeView>) -> bool {
    &&& nodes.len() <= usize::MAX
    &&& edges.len() <= usize::MAX
    &&& is_numberable(nodes, edges)
}

/// Two rows say the same of the structure of their symbols.
pub open spec fn same_print(a: SymbolView, b: SymbolView) -> bool {
    &&& a.hash == b.hash
    &&& a.node_type == b.node_type
    &&& a.edge_count == b.edge_count
    &&& a.name_edge_count == b.name_edge_count
}

/// The nodes correspond one to one by `p`, with the same kinds and the same
/// references between them, and those that share a key go on sharing one.
pub open spec fn same_project(
    nodes: Seq<NodeView>,
    edges: Seq<QueryEdgeView>,
    nodes2: Seq<NodeView>,
    edges2: Seq<QueryEdgeView>,
    p: Seq<usize>,
) -> bool {
    &&& same_structure(kinds_of(nodes), ties(nodes, edges), kinds_of(nodes2), ties(nodes2, edges2), p)
    &&& forall|i: int, j: int|
        0 <= i < nodes.len() && 0 <= j < nodes.len() ==> (symbol_key(#[trigger] nodes[i]) == symbol_key(#[trigger] nodes[j])
            <==> symbol_key(nodes2[p[i] as int]) == symbol_key(nodes2[p[j] as int]))
}

/// Fingerprints depend on structure and kinds alone: where the nodes of two
/// projects correspond, the rows of symbols that correspond agree on the hash,
/// the kinds and both counts of references. Ids, names, keys and the order of
/// nodes and references do not matter.
pub proof fn corresponding_symbols_share_a_fingerprint(
    nodes: Seq<NodeView>,
    edges: Seq<QueryEdgeView>,
    rows: Seq<SymbolView>,
    nodes2: Seq<NodeView>,
    edges2: Seq<QueryEdgeView>,
    rows2: Seq<SymbolView>,
    p: Seq<usize>,
    c: usize,
    a: int,
    b: int,
)
    requires
        fits(nodes, edges),
        fits(nodes2, edges2),
        lists_fingerprints(rows, nodes, edges),
        lists_fingerprints(rows2, nodes2, edges2),
        same_project(nodes, edges, nodes2, edges2, p),
        c < nodes.len(),
        0 <= a < rows.len(),
        0 <= b < rows2.len(),
        row_keys(rows)[a] == symbol_key(nodes[c as int]),
        row_keys(rows2)[b] == symbol_key(nodes2[p[c as int] as int]),
    ensures
        same_print(rows[a], rows2[b]),
{
    let n = nodes.len();
    let kinds = kinds_of(nodes);
    let kinds2 = kinds_of(nodes2);
    let all = ties(nodes, edges);
    let all2 = ties(nodes2, edges2);
    let key = symbol_key(nodes[c as int]);
    let key2 = symbol_key(nodes2[p[c as int] as int]);
    let at = members(nodes, key);
    let at2 = members(nodes2, key2);
    let went = Seq::new(at.len(), |i: int| p[at[i] as int]);
    assert(is_fingerprint(rows[a], nodes, all));
    assert(is_fingerprint(rows2[b], nodes2, all2));
    lemma_ties_within(nodes, edges);
    lemma_ties_within(nodes2, edges2);
    lemma_hoods_fit(nodes, edges);
    lemma_hoods_fit(nodes2, edges2);
    lemma_members(nodes, key);
    lemma_members(nodes2, key2);
    lemma_members_go(nodes, edges, nodes2, edges2, p, c);
    assert(went.to_multiset() == at2.to_multiset());

    // The hashes.
    let hashes = choose|hashes: Seq<u64>| #[trigger]
        are_hood_hashes(kinds, all, at, hashes) && rows[a].hash == combined(hashes);
    let hashes2 = choose|hashes: Seq<u64>| #[trigger]
        are_hood_hashes(kinds2, all2, at2, hashes) && rows2[b].hash == combined(hashes);
    let h = hash_fn(kinds2, all2);
    assert forall|i: int| 0 <= i < at2.len() implies h(#[trigger] at2[i]) == Some(hashes2[i]) by {
        assert(is_hood_hash(kinds2, all2, at2[i], hashes2[i]));
        assert(hood_fits(all2, at2[i]));
        let x = choose|x: u64| is_hood_hash(kinds2, all2, at2[i], x);
        a_neighbourhood_has_one_hash(kinds2, all2, at2[i], x, hashes2[i]);
    }
    assert forall|i: int| 0 <= i < went.len() implies h(#[trigger] went[i]) == Some(hashes[i]) by {
        assert(at[i] < n);
        assert(is_hood_hash(kinds, all, at[i], hashes[i]));
        lemma_same_multiset_contains(went, at2, went[i]);
        let j = choose|j: int| 0 <= j < at2.len() && at2[j] == went[i];
        assert(h(at2[j]) == Some(hashes2[j]));
        assert(is_hood_hash(kinds2, all2, at2[j], hashes2[j]));
        assert(hood_fits(all, at[i]) && hood_fits(all2, at2[j]));
        a_rename_keeps_every_hash(kinds, all, kinds2, all2, p, at[i], hashes[i], hashes2[j]);
    }
    lemma_gather_all(at2, h);
    lemma_gather_all(went, h);
    assert(gather(at2, h) =~= hashes2);
    assert(gather(went, h) =~= hashes);
    lemma_gather_multiset(went, at2, h);
    lemma_combined(hashes, hashes2);

    // The counts.
    let f = |v: usize| touching(all2, v).len();
    let g = |v: usize| count_names(touching(all2, v));
    lemma_total_ties_sum(all2, at2);
    lemma_total_names_sum(all2, at2);
    lemma_sum_multiset(went, at2, f);
    lemma_sum_multiset(went, at2, g);
    lemma_totals_go(kinds, all, kinds2, all2, p, at);
    assert(went =~= moved_places(at, p));

    // The kinds.
    let k1 = Seq::new(at.len(), |i: int| nodes[at[i] as int].node_type);
    let k2 = Seq::new(at2.len(), |i: int| nodes2[at2[i] as int].node_type);
    assert forall|x: Seq<char>| k1.contains(x) <==> k2.contains(x) by {
        if k1.contains(x) {
            let i = choose|i: int| 0 <= i < k1.len() && k1[i] == x;
            assert(at[i] < n);
            assert(kinds2[p[at[i] as int] as int] == kinds[at[i] as int]);
            assert(p[at[i] as int] < n);
            lemma_same_multiset_contains(went, at2, went[i]);
            let j = choose|j: int| 0 <= j < at2.len() && at2[j] == went[i];
            assert(k2[j] == x);
        }
        if k2.contains(x) {
            let j = choose|j: int| 0 <= j < k2.len() && k2[j] == x;
            assert(at2.contains(at2[j]));
            lemma_same_multiset_contains(at2, went, at2[j]);
            let i = choose|i: int| 0 <= i < went.len() && went[i] == at2[j];
            assert(at[i] < n);
            assert(p[at[i] as int] < n);
            assert(kinds2[p[at[i] as int] as int] == kinds[at[i] as int]);
            assert(k1[i] == x);
        }
    }
    lemma_kind_list(k1, k2, rows[a].node_type, rows2[b].node_type);
}

// ---- renaming ids and keys -----------------------------------------------------------------------

/// A reference that has a target.
pub open spec fn targeted() -> spec_fn(QueryEdgeView) -> Option<QueryEdgeView> {
    |e: QueryEdgeView|
        if e.to_id.len() > 0 {
            Some(e)
        } else {
            None
        }
}

/// A renaming of ids: two are never made one, and no id stays none.
pub open spec fn renames_ids(f: spec_fn(Seq<char>) -> Seq<char>) -> bool {
    &&& f(Seq::empty()) == Seq::<char>::empty()
    &&& forall|x: Seq<char>, y: Seq<char>| #[trigger] f(x) == #[trigger] f(y) ==> x == y
}

/// A renaming of keys: two are never made one.
pub open spec fn renames_keys(f: spec_fn((Seq<char>, Seq<char>)) -> (Seq<char>, Seq<char>)) -> bool {
    forall|x: (Seq<char>, Seq<char>), y: (Seq<char>, Seq<char>)| #[trigger] f(x) == #[trigger] f(y) ==> x == y
}

/// The nodes under other ids and keys, with their kinds; their names, and
/// whatever else a node has, may be anything.
pub open spec fn nodes_renamed(
    nodes: Seq<NodeView>,
    nodes2: Seq<NodeView>,
    f: spec_fn(Seq<char>) -> Seq<char>,
    k: spec_fn((Seq<char>, Seq<char>)) -> (Seq<char>, Seq<char>),
) -> bool {
    &&& nodes2.len() == nodes.len()
    &&& forall|i: int|
        0 <= i < nodes.len() ==> (#[trigger] nodes2[i]).id == f(nodes[i].id) && nodes2[i].node_type == nodes[i].node_type
            && symbol_key(nodes2[i]) == k(symbol_key(nodes[i]))
}

/// The references that have targets, between the renamed ids; references
/// without a target may come and go.
pub open spec fn edges_renamed(
    edges: Seq<QueryEdgeView>,
    edges2: Seq<QueryEdgeView>,
    f: spec_fn(Seq<char>) -> Seq<char>,
) -> bool {
    let a = gather(edges, targeted());
    let b = gather(edges2, targeted());
    &&& a.len() == b.len()
    &&& forall|i: int|
        0 <= i < a.len() ==> (#[trigger] b[i]).from_id == f(a[i].from_id) && b[i].to_id == f(a[i].to_id) && b[i].edge_type
            == a[i].edge_type
}

/// A pure rename changes no fingerprint: where the ids of the nodes, their
/// names and the keys of the symbols are renamed, and kinds and references stay,
/// every symbol has a row under its new key, and that row agrees with the old
/// one on the hash, the kinds and both counts. References without a target do
/// not count.
pub proof fn a_rename_keeps_every_fingerprint(
    nodes: Seq<NodeView>,
    edges: Seq<QueryEdgeView>,
    rows: Seq<SymbolView>,
    nodes2: Seq<NodeView>,
    edges2: Seq<QueryEdgeView>,
    rows2: Seq<SymbolView>,
    f: spec_fn(Seq<char>) -> Seq<char>,
    k: spec_fn((Seq<char>, Seq<char>)) -> (Seq<char>, Seq<char>),
)
    requires
        fits(nodes, edges),
        fits(nodes2, edges2),
        renames_ids(f),
        renames_keys(k),
        nodes_renamed(nodes, nodes2, f, k),
        edges_renamed(edges, edges2, f),
        lists_fingerprints(rows, nodes, edges),
        lists_fingerprints(rows2, nodes2, edges2),
    ensures
        forall|a: int| 0 <= a < rows.len() ==> row_keys(rows2).contains(k(#[trigger] row_keys(rows)[a])),
        forall|a: int, b: int|
            0 <= a < rows.len() && 0 <= b < rows2.len() && k(#[trigger] row_keys(rows)[a]) == #[trigger] row_keys(rows2)[b]
                ==> same_print(rows[a], rows2[b]),
{
    let n = nodes.len();
    let p = places(n);
    let kinds = kinds_of(nodes);
    let kinds2 = kinds_of(nodes2);
    let all = ties(nodes, edges);
    lemma_ties_renamed(nodes, edges, nodes2, edges2, f, k);
    lemma_ties_within(nodes, edges);
    assert(kinds2 =~= kinds);
    assert(is_permutation(p, n));
    assert(moved_all(all, p) =~= all) by {
        assert forall|i: int| 0 <= i < all.len() implies moved_all(all, p)[i] == all[i] by {
            assert(all[i].0 < n && all[i].1 < n);
        }
    }
    assert(same_structure(kinds, all, kinds2, ties(nodes2, edges2), p));
    assert forall|i: int, j: int| 0 <= i < n && 0 <= j < n implies (symbol_key(#[trigger] nodes[i]) == symbol_key(
        #[trigger] nodes[j],
    ) <==> symbol_key(nodes2[p[i] as int]) == symbol_key(nodes2[p[j] as int])) by {
        assert(symbol_key(nodes2[i]) == k(symbol_key(nodes[i])));
        assert(symbol_key(nodes2[j]) == k(symbol_key(nodes[j])));
    }
    assert(same_project(nodes, edges, nodes2, edges2, p));
    assert forall|a: int| 0 <= a < rows.len() implies row_keys(rows2).contains(k(#[trigger] row_keys(rows)[a])) by {
        let c = lemma_row_node(nodes, edges, rows, a);
        lemma_node_row(nodes2, edges2, rows2, c, k(row_keys(rows)[a]));
    }
    assert forall|a: int, b: int|
        0 <= a < rows.len() && 0 <= b < rows2.len() && k(#[trigger] row_keys(rows)[a]) == #[trigger] row_keys(rows2)[b] implies same_print(
        rows[a],
        rows2[b],
    ) by {
        let c = lemma_row_node(nodes, edges, rows, a);
        assert(nodes2[c as int].node_type == nodes[c as int].node_type);
        corresponding_symbols_share_a_fingerprint(nodes, edges, rows, nodes2, edges2, rows2, p, c, a, b);
    }
}

/// A definition that a row is about.
pub(crate) proof fn lemma_row_node(nodes: Seq<NodeView>, edges: Seq<QueryEdgeView>, rows: Seq<SymbolView>, a: int) -> (c: usize)
    requires
        nodes.len() <= usize::MAX,
        lists_fingerprints(rows, nodes, edges),
        0 <= a < rows.len(),
    ensures
        c < nodes.len(),
        is_definition(nodes[c as int]),
        symbol_key(nodes[c as int]) == row_keys(rows)[a],
{
    let keys = definition_keys(nodes);
    let key = row_keys(rows)[a];
    lemma_distinct_sorted::<(String, String)>(keys, row_keys(rows));
    assert(row_keys(rows).contains(key));
    assert(keys.contains(key));
    let i = choose|i: int| 0 <= i < keys.len() && keys[i] == key;
    let c = definitions(nodes)[i];
    lemma_definition_places(nodes, c);
    assert(definitions(nodes).contains(c));
    c
}

/// The key of a definition has a row.
pub(crate) proof fn lemma_node_row(
    nodes: Seq<NodeView>,
    edges: Seq<QueryEdgeView>,
    rows: Seq<SymbolView>,
    c: usize,
    key: (Seq<char>, Seq<char>),
)
    requires
        nodes.len() <= usize::MAX,
        lists_fingerprints(rows, nodes, edges),
        c < nodes.len(),
        is_definition(nodes[c as int]),
        symbol_key(nodes[c as int]) == key,
    ensures
        row_keys(rows).contains(key),
{
    let keys = definition_keys(nodes);
    lemma_definition_places(nodes, c);
    let i = choose|i: int| 0 <= i < definitions(nodes).len() && definitions(nodes)[i] == c;
    lemma_distinct_sorted::<(String, String)>(keys, row_keys(rows));
    assert(keys[i] == key);
    assert(keys.contains(key));
    assert(row_keys(rows).contains(key));
}

proof fn lemma_definition_places(nodes: Seq<NodeView>, c: usize)
    requires
        nodes.len() <= usize::MAX,
    ensures
        definitions(nodes).contains(c) <==> c < nodes.len() && is_definition(nodes[c as int]),
{
    let all = places(nodes.len());
    let f = definition_fn(nodes);
    lemma_gather_member(all, f, c);
    if definitions(nodes).contains(c) {
        let i = choose|i: int| 0 <= i < all.len() && f(#[trigger] all[i]) == Some(c);
        assert(all[i] == i);
    }
    if c < nodes.len() && is_definition(nodes[c as int]) {
        assert(f(all[c as int]) == Some(c));
    }
}

/// The members of a symbol are the definitions with its key.
pub(crate) proof fn lemma_member(nodes: Seq<NodeView>, key: (Seq<char>, Seq<char>), c: usize)
    requires
        nodes.len() <= usize::MAX,
    ensures
        members(nodes, key).contains(c) <==> c < nodes.len() && is_definition(nodes[c as int]) && symbol_key(
            nodes[c as int],
        ) == key,
{
    let defs = definitions(nodes);
    let keys = definition_keys(nodes);
    let q = places_of(keys, key);
    let m = members(nodes, key);
    lemma_definitions_len(nodes);
    lemma_places_of(keys, key);
    lemma_definition_places(nodes, c);
    if m.contains(c) {
        let i = choose|i: int| 0 <= i < m.len() && m[i] == c;
        assert(q[i] < keys.len());
        assert(keys[q[i] as int] == key);
        assert(defs[q[i] as int] == c);
        assert(defs.contains(c));
    }
    if c < nodes.len() && is_definition(nodes[c as int]) && symbol_key(nodes[c as int]) == key {
        let d = choose|d: int| 0 <= d < defs.len() && defs[d] == c;
        assert(keys[d] == key);
        assert(q.contains(d as usize));
        let i = choose|i: int| 0 <= i < q.len() && q[i] == d as usize;
        assert(m[i] == c);
    }
}

/// The members of a symbol go to the members of the one that it becomes.
proof fn lemma_members_go(
    nodes: Seq<NodeView>,
    edges: Seq<QueryEdgeView>,
    nodes2: Seq<NodeView>,
    edges2: Seq<QueryEdgeView>,
    p: Seq<usize>,
    c: usize,
)
    requires
        fits(nodes, edges),
        fits(nodes2, edges2),
        same_project(nodes, edges, nodes2, edges2, p),
        c < nodes.len(),
    ensures
        moved_places(members(nodes, symbol_key(nodes[c as int])), p).to_multiset() == members(
            nodes2,
            symbol_key(nodes2[p[c as int] as int]),
        ).to_multiset(),
{
    let n = nodes.len();
    let key = symbol_key(nodes[c as int]);
    let key2 = symbol_key(nodes2[p[c as int] as int]);
    let at = members(nodes, key);
    let at2 = members(nodes2, key2);
    let went = moved_places(at, p);
    let kinds = kinds_of(nodes);
    let kinds2 = kinds_of(nodes2);
    lemma_members(nodes, key);
    lemma_members(nodes2, key2);
    assert(nodes2.len() == n) by {
        assert(kinds2.len() == kinds.len());
    }
    assert forall|v: usize| v < n implies (#[trigger] at.contains(v) <==> at2.contains(p[v as int])) by {
        assert(p[v as int] < n);
        assert(kinds2[p[v as int] as int] == kinds[v as int]);
        lemma_member(nodes, key, v);
        lemma_member(nodes2, key2, p[v as int]);
        assert(symbol_key(nodes[v as int]) == symbol_key(nodes[c as int]) <==> symbol_key(nodes2[p[v as int] as int])
            == symbol_key(nodes2[p[c as int] as int]));
    }
    assert forall|w: usize| #[trigger] went.contains(w) <==> at2.contains(w) by {
        if went.contains(w) {
            let i = choose|i: int| 0 <= i < went.len() && went[i] == w;
            assert(at[i] < n);
            assert(at.contains(at[i]));
        }
        if at2.contains(w) {
            let j = choose|j: int| 0 <= j < at2.len() && at2[j] == w;
            assert(at2[j] < n);
            lemma_permutation_covers(p, n, w);
            let v = choose|v: int| 0 <= v < p.len() && p[v] == w;
            assert(at.contains(v as usize));
            let i = choose|i: int| 0 <= i < at.len() && at[i] == v as usize;
            assert(went[i] == w);
        }
    }
    assert forall|i: int, j: int| 0 <= i < j < went.len() implies #[trigger] went[i] != #[trigger] went[j] by {
        assert(at[i] != at[j]);
        assert(at[i] < n && at[j] < n);
        if at[i] < at[j] {
            assert(p[at[i] as int] != p[at[j] as int]);
        } else {
            assert(p[at[j] as int] != p[at[i] as int]);
        }
    }
    lemma_same_set_same_multiset(went, at2);
}

/// Some places after the nodes have changed places.
pub open spec fn moved_places(at: Seq<usize>, p: Seq<usize>) -> Seq<usize> {
    Seq::new(at.len(), |i: int| p[at[i] as int])
}

proof fn lemma_same_set_same_multiset<A>(a: Seq<A>, b: Seq<A>)
    requires
        forall|i: int, j: int| 0 <= i < j < a.len() ==> #[trigger] a[i] != #[trigger] a[j],
        forall|i: int, j: int| 0 <= i < j < b.len() ==> #[trigger] b[i] != #[trigger] b[j],
        forall|x: A| #[trigger] a.contains(x) <==> b.contains(x),
    ensures
        a.to_multiset() == b.to_multiset(),
{
    broadcast use vstd::seq_lib::group_to_multiset_ensures;

    assert(a.no_duplicates());
    assert(b.no_duplicates());
    a.lemma_multiset_has_no_duplicates();
    b.lemma_multiset_has_no_duplicates();
    assert forall|x: A| #[trigger] a.to_multiset().count(x) == b.to_multiset().count(x) by {
        assert(a.contains(x) <==> a.to_multiset().count(x) > 0);
        assert(b.contains(x) <==> b.to_multiset().count(x) > 0);
        if a.contains(x) {
            assert(a.to_multiset().contains(x) && b.to_multiset().contains(x));
        }
    }
    assert(a.to_multiset() =~= b.to_multiset());
}

proof fn lemma_same_multiset_contains<A>(a: Seq<A>, b: Seq<A>, x: A)
    requires
        a.to_multiset() == b.to_multiset(),
        a.contains(x),
    ensures
        b.contains(x),
{
    broadcast use vstd::seq_lib::group_to_multiset_ensures;

    assert(a.to_multiset().count(x) > 0);
}

/// The hash of a node's neighbourhood.
spec fn hash_fn(kinds: Seq<Seq<char>>, all: Seq<Tie>) -> spec_fn(usize) -> Option<u64> {
    |v: usize| Some(choose|x: u64| is_hood_hash(kinds, all, v, x))
}

proof fn lemma_combined(a: Seq<u64>, b: Seq<u64>)
    requires
        a.to_multiset() == b.to_multiset(),
    ensures
        combined(a) == combined(b),
{
    broadcast use vstd::seq_lib::group_to_multiset_ensures;

    vstd::seq_lib::to_multiset_len(a);
    vstd::seq_lib::to_multiset_len(b);
    lemma_sorted_same_items::<u64>(a, b);
    if a.len() == 1 {
        assert(a.contains(a[0]));
        lemma_same_multiset_contains(a, b, a[0]);
    }
}

// ---- sums ----------------------------------------------------------------------------------------

spec fn sum<A>(s: Seq<A>, f: spec_fn(A) -> nat) -> nat
    decreases s.len(),
{
    if s.len() == 0 {
        0
    } else {
        sum(s.drop_last(), f) + f(s.last())
    }
}

proof fn lemma_sum_add<A>(s: Seq<A>, t: Seq<A>, f: spec_fn(A) -> nat)
    ensures
        sum(s + t, f) == sum(s, f) + sum(t, f),
    decreases t.len(),
{
    if t.len() == 0 {
        assert(s + t =~= s);
    } else {
        lemma_sum_add(s, t.drop_last(), f);
        assert((s + t).drop_last() =~= s + t.drop_last());
    }
}

/// A sum depends on the items alone.
proof fn lemma_sum_multiset<A>(s: Seq<A>, t: Seq<A>, f: spec_fn(A) -> nat)
    requires
        s.to_multiset() == t.to_multiset(),
    ensures
        sum(s, f) == sum(t, f),
    decreases s.len(),
{
    broadcast use vstd::seq_lib::group_to_multiset_ensures;

    vstd::seq_lib::to_multiset_len(s);
    vstd::seq_lib::to_multiset_len(t);
    if s.len() > 0 {
        let x = s.last();
        assert(s.contains(x));
        lemma_same_multiset_contains(s, t, x);
        let i = choose|i: int| 0 <= i < t.len() && t[i] == x;
        let a = t.subrange(0, i);
        let b = t.subrange(i + 1, t.len() as int);
        let rest = t.remove(i);
        assert(rest =~= a + b);
        assert(t =~= a.push(x) + b);
        vstd::seq_lib::to_multiset_remove(t, i);
        assert(s =~= s.drop_last().push(x));
        vstd::seq_lib::to_multiset_build(s.drop_last(), x);
        assert(s.drop_last().to_multiset() =~= rest.to_multiset());
        lemma_sum_multiset(s.drop_last(), rest, f);
        lemma_sum_add(a, b, f);
        lemma_sum_add(a.push(x), b, f);
        assert(a.push(x).drop_last() =~= a);
    }
}

proof fn lemma_total_ties_sum(all: Seq<Tie>, at: Seq<usize>)
    ensures
        total_ties(all, at) == sum(at, |v: usize| touching(all, v).len()),
    decreases at.len(),
{
    if at.len() > 0 {
        lemma_total_ties_sum(all, at.drop_last());
    }
}

proof fn lemma_total_names_sum(all: Seq<Tie>, at: Seq<usize>)
    ensures
        total_names(all, at) == sum(at, |v: usize| count_names(touching(all, v))),
    decreases at.len(),
{
    if at.len() > 0 {
        lemma_total_names_sum(all, at.drop_last());
    }
}

spec fn name_weight() -> spec_fn(Tie) -> nat {
    |t: Tie|
        if is_name_tie(t) {
            1nat
        } else {
            0nat
        }
}

proof fn lemma_count_names_sum(own: Seq<Tie>)
    ensures
        count_names(own) == sum(own, name_weight()),
    decreases own.len(),
{
    if own.len() > 0 {
        lemma_count_names_sum(own.drop_last());
    }
}

proof fn lemma_count_names_moved(own: Seq<Tie>, p: Seq<usize>)
    ensures
        count_names(moved_all(own, p)) == count_names(own),
    decreases own.len(),
{
    let m = moved_all(own, p);
    if own.len() > 0 {
        lemma_count_names_moved(own.drop_last(), p);
        assert(m.drop_last() =~= moved_all(own.drop_last(), p));
        assert(m.last() == moved(own.last(), p));
    }
}

/// A node goes on touching as many references.
proof fn lemma_touching_goes(
    kinds: Seq<Seq<char>>,
    all: Seq<Tie>,
    kinds2: Seq<Seq<char>>,
    all2: Seq<Tie>,
    p: Seq<usize>,
    c: usize,
)
    requires
        ties_within(all, kinds.len()),
        ties_within(all2, kinds.len()),
        same_structure(kinds, all, kinds2, all2, p),
        c < kinds.len(),
    ensures
        touching(all2, p[c as int]).len() == touching(all, c).len(),
        count_names(touching(all2, p[c as int])) == count_names(touching(all, c)),
{
    let pc = p[c as int];
    let own = touching(all, c);
    let own2 = touching(all2, pc);
    let own_moved = moved_all(own, p);
    lemma_touching_gather(all, c);
    lemma_touching_gather(all2, pc);
    lemma_moved_own(all, p, kinds.len(), c);
    lemma_gather_multiset(all2, moved_all(all, p), own_fn(pc));
    assert(own2.to_multiset() == own_moved.to_multiset());
    vstd::seq_lib::to_multiset_len(own2);
    vstd::seq_lib::to_multiset_len(own_moved);
    lemma_count_names_sum(own2);
    lemma_count_names_sum(own_moved);
    lemma_sum_multiset(own2, own_moved, name_weight());
    lemma_count_names_moved(own, p);
}

proof fn lemma_totals_go(
    kinds: Seq<Seq<char>>,
    all: Seq<Tie>,
    kinds2: Seq<Seq<char>>,
    all2: Seq<Tie>,
    p: Seq<usize>,
    at: Seq<usize>,
)
    requires
        ties_within(all, kinds.len()),
        ties_within(all2, kinds.len()),
        same_structure(kinds, all, kinds2, all2, p),
        forall|i: int| 0 <= i < at.len() ==> #[trigger] at[i] < kinds.len(),
    ensures
        total_ties(all, at) == sum(moved_places(at, p), |v: usize| touching(all2, v).len()),
        total_names(all, at) == sum(moved_places(at, p), |v: usize| count_names(touching(all2, v))),
    decreases at.len(),
{
    let went = moved_places(at, p);
    if at.len() > 0 {
        let rest = at.drop_last();
        assert forall|i: int| 0 <= i < rest.len() implies #[trigger] rest[i] < kinds.len() by {
            assert(at[i] < kinds.len());
        }
        assert(at[at.len() - 1] < kinds.len());
        lemma_totals_go(kinds, all, kinds2, all2, p, rest);
        assert(went.drop_last() =~= moved_places(rest, p));
        lemma_touching_goes(kinds, all, kinds2, all2, p, at.last());
    }
}

// ---- kinds and references ------------------------------------------------------------------------

/// What is sorted and distinct is told by what it holds.
proof fn lemma_same_list<K: Sortable>(
    s: Seq<<K as DeepView>::V>,
    t: Seq<<K as DeepView>::V>,
    a: Seq<<K as DeepView>::V>,
    b: Seq<<K as DeepView>::V>,
)
    requires
        is_distinct_sorted::<K>(s, a),
        is_distinct_sorted::<K>(t, b),
        forall|x: <K as DeepView>::V| #[trigger] s.contains(x) <==> t.contains(x),
    ensures
        a == b,
{
    lemma_distinct_sorted::<K>(s, a);
    lemma_distinct_sorted::<K>(t, b);
    assert forall|x: <K as DeepView>::V| #[trigger] a.contains(x) <==> b.contains(x) by {
        assert(s.contains(x) <==> t.contains(x));
    }
    lemma_same_set_same_multiset(a, b);
    assert forall|i: int, j: int| 0 <= i < j < a.len() implies !K::before(#[trigger] a[j], #[trigger] a[i]) by {
        if K::before(a[j], a[i]) {
            assert(K::before(a[i], a[j]));
            K::before_transitive(a[i], a[j], a[i]);
            K::before_irreflexive(a[i]);
        }
    }
    assert forall|i: int, j: int| 0 <= i < j < b.len() implies !K::before(#[trigger] b[j], #[trigger] b[i]) by {
        if K::before(b[j], b[i]) {
            assert(K::before(b[i], b[j]));
            K::before_transitive(b[i], b[j], b[i]);
            K::before_irreflexive(b[i]);
        }
    }
    lemma_ascending_unique::<K>(a, b);
}

proof fn lemma_kind_list(k1: Seq<Seq<char>>, k2: Seq<Seq<char>>, a: Seq<char>, b: Seq<char>)
    requires
        is_kind_list(k1, a),
        is_kind_list(k2, b),
        forall|x: Seq<char>| k1.contains(x) <==> k2.contains(x),
    ensures
        a == b,
{
    let l1 = choose|list: Seq<Seq<char>>| #[trigger] is_distinct_sorted::<String>(k1, list) && a == joined(list, "+"@);
    let l2 = choose|list: Seq<Seq<char>>| #[trigger] is_distinct_sorted::<String>(k2, list) && b == joined(list, "+"@);
    lemma_same_list::<String>(k1, k2, l1, l2);
}

/// The places of a renamed value among renamed values.
proof fn lemma_places_renamed(s: Seq<Seq<char>>, t: Seq<Seq<char>>, f: spec_fn(Seq<char>) -> Seq<char>, x: Seq<char>)
    requires
        renames_ids(f),
        s.len() == t.len(),
        forall|i: int| 0 <= i < s.len() ==> #[trigger] t[i] == f(s[i]),
    ensures
        places_of(t, f(x)) == places_of(s, x),
    decreases s.len(),
{
    if s.len() > 0 {
        assert forall|i: int| 0 <= i < s.drop_last().len() implies #[trigger] t.drop_last()[i] == f(s.drop_last()[i]) by {
            assert(t[i] == f(s[i]));
        }
        lemma_places_renamed(s.drop_last(), t.drop_last(), f, x);
        assert(t[t.len() - 1] == f(s[s.len() - 1]));
    }
}

/// References without a target are not among the ties.
proof fn lemma_ties_targeted(nodes: Seq<NodeView>, edges: Seq<QueryEdgeView>)
    ensures
        ties(nodes, edges) == gather(gather(edges, targeted()), tie_fn(nodes)),
    decreases edges.len(),
{
    if edges.len() > 0 {
        let e = edges.last();
        let rest = gather(edges.drop_last(), targeted());
        lemma_ties_targeted(nodes, edges.drop_last());
        if e.to_id.len() > 0 {
            crate::gather::lemma_gather_push(rest, e, tie_fn(nodes));
        }
    }
}

proof fn lemma_ties_renamed(
    nodes: Seq<NodeView>,
    edges: Seq<QueryEdgeView>,
    nodes2: Seq<NodeView>,
    edges2: Seq<QueryEdgeView>,
    f: spec_fn(Seq<char>) -> Seq<char>,
    k: spec_fn((Seq<char>, Seq<char>)) -> (Seq<char>, Seq<char>),
)
    requires
        renames_ids(f),
        nodes_renamed(nodes, nodes2, f, k),
        edges_renamed(edges, edges2, f),
    ensures
        ties(nodes2, edges2) == ties(nodes, edges),
{
    let a = gather(edges, targeted());
    let b = gather(edges2, targeted());
    lemma_ties_targeted(nodes, edges);
    lemma_ties_targeted(nodes2, edges2);
    let empty = Seq::<char>::empty();
    assert forall|i: int| 0 <= i < a.len() implies tie_fn(nodes)(#[trigger] a[i]) == tie_fn(nodes2)(b[i]) by {
        let x = a[i].from_id;
        let y = a[i].to_id;
        assert(b[i].from_id == f(x) && b[i].to_id == f(y));
        assert forall|i: int| 0 <= i < ids(nodes).len() implies #[trigger] ids(nodes2)[i] == f(ids(nodes)[i]) by {
            assert(nodes2[i].id == f(nodes[i].id));
        }
        lemma_places_renamed(ids(nodes), ids(nodes2), f, x);
        lemma_places_renamed(ids(nodes), ids(nodes2), f, y);
        lemma_empty_stays(f, x);
        lemma_empty_stays(f, y);
    }
    lemma_gather_same(a, b, tie_fn(nodes), tie_fn(nodes2));
}

proof fn lemma_empty_stays(f: spec_fn(Seq<char>) -> Seq<char>, x: Seq<char>)
    requires
        renames_ids(f),
    ensures
        f(x).len() == 0 <==> x.len() == 0,
{
    let empty = Seq::<char>::empty();
    if x.len() == 0 {
        assert(x =~= empty);
    }
    if f(x).len() == 0 {
        assert(f(x) =~= empty);
        assert(f(x) == f(empty));
    }
}

} // verus!
