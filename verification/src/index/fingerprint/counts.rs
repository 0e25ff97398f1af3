//! What a fingerprint counts, and what it tells apart.

use vstd::prelude::*;

use crate::canon::hash::{certificate_bytes, fnv_from, FNV_OFFSET};
use crate::canon::laws::{graphs_that_share_a_certificate_are_isomorphic, is_isomorphism, rename_edges};
use crate::canon::{is_certificate, CertificateView};
use crate::gather::{gather, lemma_gather_all, lemma_gather_len, lemma_gather_multiset, lemma_gather_push};
use crate::graph::paths::lemma_place_within;
use crate::graph::reach::{is_named, lemma_named};
use crate::graph::web::{places, QueryEdgeView};
use crate::index::fingerprint::hood::{
    are_hood_hashes, combined, hood, hood_fits, is_fingerprint, is_graph_hash, is_hood_hash,
    kinds_of, lemma_members, lemma_touching_step, lists_fingerprints, members, row_keys, tie_fn,
    ties, ties_within, total_names, total_ties, touches, touching, touching_places, Tie,
};
use crate::index::fingerprint::laws::{lemma_hood_small, lemma_own_within, lemma_touching_gather, own_fn};
use crate::index::fingerprint::numbering::{hood_nodes, lemma_hood_nodes, lemma_number, lemma_number_at, number};
use crate::index::fingerprint::rename::{lemma_member, lemma_node_row, lemma_row_node};
use crate::index::fingerprint::SymbolView;
use crate::index::resolve::NodeView;
use crate::order::{is_distinct_sorted, lemma_distinct_sorted};
use crate::text::joined;

verus! {

// ---- counts ---------------------------------------------------------------------------------

/// Node `v` is a definition of that name in that file.
pub open spec fn defines(nodes: Seq<NodeView>, name: Seq<char>, file: Seq<char>, v: int) -> bool {
    &&& 0 <= v < nodes.len()
    &&& nodes[v].node_type != "import"@
    &&& nodes[v].node_type != "macro_call"@
    &&& nodes[v].qualified_name == name
    &&& nodes[v].file_path == file
}

/// Some node defines the symbol.
pub open spec fn is_defined(nodes: Seq<NodeView>, name: Seq<char>, file: Seq<char>) -> bool {
    exists|v: int| defines(nodes, name, file, v)
}

/// How many of the two ends, where they differ, define the symbol.
pub open spec fn ends_at(nodes: Seq<NodeView>, name: Seq<char>, file: Seq<char>, f: int, t: int) -> nat {
    (if defines(nodes, name, file, f) {
        1nat
    } else {
        0nat
    }) + (if t != f && defines(nodes, name, file, t) {
        1nat
    } else {
        0nat
    })
}

spec fn meets(t: Tie, at: Seq<usize>) -> nat
    decreases at.len(),
{
    if at.len() == 0 {
        0
    } else {
        meets(t, at.drop_last()) + (if touches(t, at.last()) {
            1nat
        } else {
            0nat
        })
    }
}

proof fn lemma_totals_push(all: Seq<Tie>, t: Tie, at: Seq<usize>)
    requires
        all.len() < usize::MAX,
    ensures
        total_ties(all.push(t), at) == total_ties(all, at) + meets(t, at),
        total_names(all.push(t), at) == total_names(all, at) + (if t.2 == "contains"@ {
            0nat
        } else {
            meets(t, at)
        }),
    decreases at.len(),
{
    if at.len() > 0 {
        lemma_totals_push(all, t, at.drop_last());
        lemma_touching_step(all.push(t), at.last());
        assert(all.push(t).drop_last() =~= all);
        let own = touching(all, at.last());
        assert(own.push(t).drop_last() =~= own);
    }
}

proof fn lemma_totals_none(at: Seq<usize>)
    ensures
        total_ties(Seq::empty(), at) == 0,
        total_names(Seq::empty(), at) == 0,
    decreases at.len(),
{
    if at.len() > 0 {
        lemma_totals_none(at.drop_last());
        assert(places(0) =~= Seq::empty());
        assert(touching_places(Seq::empty(), at.last()) =~= Seq::empty());
        assert(touching(Seq::empty(), at.last()) =~= Seq::empty());
    }
}

proof fn lemma_meets(t: Tie, at: Seq<usize>)
    requires
        forall|i: int, j: int| 0 <= i < j < at.len() ==> #[trigger] at[i] != #[trigger] at[j],
    ensures
        meets(t, at) == (if at.contains(t.0) {
            1nat
        } else {
            0nat
        }) + (if t.1 != t.0 && at.contains(t.1) {
            1nat
        } else {
            0nat
        }),
    decreases at.len(),
{
    if at.len() > 0 {
        let rest = at.drop_last();
        assert forall|i: int, j: int| 0 <= i < j < rest.len() implies #[trigger] rest[i] != #[trigger] rest[j] by {
            assert(at[i] != at[j]);
        }
        lemma_meets(t, rest);
        assert forall|x: usize| #[trigger] at.contains(x) <==> rest.contains(x) || x == at.last() by {
            if rest.contains(x) {
                let k = choose|k: int| 0 <= k < rest.len() && rest[k] == x;
                assert(at[k] == x);
            }
            if at.contains(x) && x != at.last() {
                let k = choose|k: int| 0 <= k < at.len() && at[k] == x;
                assert(rest[k] == x);
            }
            if x == at.last() {
                assert(at[at.len() - 1] == x);
            }
        }
        assert(!rest.contains(at.last())) by {
            if rest.contains(at.last()) {
                let k = choose|k: int| 0 <= k < rest.len() && rest[k] == at.last();
                assert(at[k] != at[at.len() - 1]);
            }
        }
    }
}

/// A reference with both ends known is counted, whatever its kind: one more of
/// them raises the count of a symbol by the number of its ends that define the
/// symbol, and the count of names likewise, unless it is containment.
pub proof fn every_known_reference_counts(
    nodes: Seq<NodeView>,
    edges: Seq<QueryEdgeView>,
    e: QueryEdgeView,
    f: int,
    t: int,
    before: SymbolView,
    after: SymbolView,
)
    requires
        nodes.len() <= usize::MAX,
        edges.len() < usize::MAX,
        e.from_id.len() > 0,
        e.to_id.len() > 0,
        is_named(nodes, e.from_id, f),
        is_named(nodes, e.to_id, t),
        is_fingerprint(before, nodes, ties(nodes, edges)),
        is_fingerprint(after, nodes, ties(nodes, edges.push(e))),
        after.qualified_name == before.qualified_name,
        after.file_path == before.file_path,
    ensures
        after.edge_count == before.edge_count + ends_at(nodes, before.qualified_name, before.file_path, f, t),
        after.name_edge_count == before.name_edge_count + (if e.edge_type == "contains"@ {
            0
        } else {
            ends_at(nodes, before.qualified_name, before.file_path, f, t)
        }),
{
    let all = ties(nodes, edges);
    let tie: Tie = (f as usize, t as usize, e.edge_type);
    let key = (before.qualified_name, before.file_path);
    let at = members(nodes, key);
    lemma_named(nodes, e.from_id, f);
    lemma_named(nodes, e.to_id, t);
    lemma_gather_push(edges, e, tie_fn(nodes));
    lemma_gather_len(edges, tie_fn(nodes));
    assert(ties(nodes, edges.push(e)) == all.push(tie));
    lemma_totals_push(all, tie, at);
    lemma_members(nodes, key);
    lemma_meets(tie, at);
    lemma_member(nodes, key, f as usize);
    lemma_member(nodes, key, t as usize);
}

/// A reference with an end that is not known is not counted: it changes no
/// fingerprint.
pub proof fn no_unknown_reference_counts(nodes: Seq<NodeView>, edges: Seq<QueryEdgeView>, e: QueryEdgeView, rows: Seq<SymbolView>)
    requires
        nodes.len() <= usize::MAX,
        ({
            ||| e.from_id.len() == 0
            ||| e.to_id.len() == 0
            ||| forall|v: int| 0 <= v < nodes.len() ==> (#[trigger] nodes[v]).id != e.from_id
            ||| forall|v: int| 0 <= v < nodes.len() ==> (#[trigger] nodes[v]).id != e.to_id
        }),
    ensures
        lists_fingerprints(rows, nodes, edges.push(e)) <==> lists_fingerprints(rows, nodes, edges),
{
    lemma_gather_push(edges, e, tie_fn(nodes));
    lemma_place_within(nodes, e.from_id);
    lemma_place_within(nodes, e.to_id);
}

/// Without references every count is zero.
pub proof fn nothing_counts_to_nothing(nodes: Seq<NodeView>, row: SymbolView)
    requires
        is_fingerprint(row, nodes, ties(nodes, Seq::empty())),
    ensures
        row.edge_count == 0,
        row.name_edge_count == 0,
{
    assert(ties(nodes, Seq::empty()) =~= Seq::empty());
    lemma_totals_none(members(nodes, (row.qualified_name, row.file_path)));
}

/// There is one row for every symbol that a node defines, and none besides.
pub proof fn every_defined_symbol_has_one_row(nodes: Seq<NodeView>, edges: Seq<QueryEdgeView>, rows: Seq<SymbolView>)
    requires
        nodes.len() <= usize::MAX,
        lists_fingerprints(rows, nodes, edges),
    ensures
        forall|v: int, name: Seq<char>, file: Seq<char>| #[trigger]
            defines(nodes, name, file, v) ==> exists|i: int| #![trigger rows[i]]
                0 <= i < rows.len() && rows[i].qualified_name == name && rows[i].file_path == file,
        forall|i: int| 0 <= i < rows.len() ==> is_defined(nodes, (#[trigger] rows[i]).qualified_name, rows[i].file_path),
        forall|i: int, j: int| #![trigger rows[i], rows[j]]
            0 <= i < j < rows.len() ==> rows[i].qualified_name != rows[j].qualified_name || rows[i].file_path
                != rows[j].file_path,
{
    let keys = row_keys(rows);
    assert forall|v: int, name: Seq<char>, file: Seq<char>| #[trigger] defines(nodes, name, file, v) implies exists|i: int| #![trigger rows[i]]
        0 <= i < rows.len() && rows[i].qualified_name == name && rows[i].file_path == file by {
        lemma_node_row(nodes, edges, rows, v as usize, (name, file));
        let i = choose|i: int| 0 <= i < keys.len() && keys[i] == (name, file);
        assert(rows[i].qualified_name == name);
    }
    assert forall|i: int| 0 <= i < rows.len() implies is_defined(
        nodes,
        (#[trigger] rows[i]).qualified_name,
        rows[i].file_path,
    ) by {
        let c = lemma_row_node(nodes, edges, rows, i);
        assert(defines(nodes, rows[i].qualified_name, rows[i].file_path, c as int));
    }
    lemma_distinct_sorted::<(String, String)>(crate::index::fingerprint::hood::definition_keys(nodes), keys);
    assert forall|i: int, j: int| #![trigger rows[i], rows[j]] 0 <= i < j < rows.len() implies rows[i].qualified_name
        != rows[j].qualified_name || rows[i].file_path != rows[j].file_path by {
        assert(keys[i] != keys[j]);
    }
}

/// A symbol whose definitions are of one kind has that kind.
pub proof fn a_symbol_has_the_kind_of_its_definitions(nodes: Seq<NodeView>, all: Seq<Tie>, row: SymbolView, v: int)
    requires
        nodes.len() <= usize::MAX,
        is_fingerprint(row, nodes, all),
        defines(nodes, row.qualified_name, row.file_path, v),
        forall|w: int| #[trigger]
            defines(nodes, row.qualified_name, row.file_path, w) ==> nodes[w].node_type == nodes[v].node_type,
    ensures
        row.node_type == nodes[v].node_type,
{
    let key = (row.qualified_name, row.file_path);
    let at = members(nodes, key);
    let kinds = Seq::new(at.len(), |i: int| nodes[at[i] as int].node_type);
    let list = choose|list: Seq<Seq<char>>| #[trigger]
        is_distinct_sorted::<String>(kinds, list) && row.node_type == joined(list, "+"@);
    lemma_distinct_sorted::<String>(kinds, list);
    lemma_members(nodes, key);
    lemma_member(nodes, key, v as usize);
    let k = choose|k: int| 0 <= k < at.len() && at[k] == v as usize;
    assert(kinds[k] == nodes[v].node_type);
    assert(kinds.contains(nodes[v].node_type));
    assert(list.contains(nodes[v].node_type));
    assert forall|i: int| 0 <= i < list.len() implies #[trigger] list[i] == nodes[v].node_type by {
        assert(list.contains(list[i]));
        assert(kinds.contains(list[i]));
        let j = choose|j: int| 0 <= j < kinds.len() && kinds[j] == list[i];
        assert(at.contains(at[j]));
        lemma_member(nodes, key, at[j]);
        assert(defines(nodes, row.qualified_name, row.file_path, at[j] as int));
    }
    if list.len() > 1 {
        assert(list[0] != list[1]);
    }
}

/// The hash of a symbol with one definition is that of the certificate of the
/// definition's neighbourhood.
pub proof fn a_lone_definition_is_hashed_by_its_certificate(nodes: Seq<NodeView>, all: Seq<Tie>, row: SymbolView, c: usize)
    requires
        nodes.len() <= usize::MAX,
        is_fingerprint(row, nodes, all),
        defines(nodes, row.qualified_name, row.file_path, c as int),
        forall|w: int| #[trigger] defines(nodes, row.qualified_name, row.file_path, w) ==> w == c,
    ensures
        exists|cert: CertificateView| #[trigger]
            is_certificate(hood(kinds_of(nodes), all, c), cert) && row.hash == fnv_from(FNV_OFFSET, certificate_bytes(cert)),
{
    let key = (row.qualified_name, row.file_path);
    let at = members(nodes, key);
    lemma_members(nodes, key);
    lemma_member(nodes, key, c);
    assert(at.len() == 1) by {
        if at.len() > 1 {
            assert(at.contains(at[0]) && at.contains(at[1]));
            lemma_member(nodes, key, at[0]);
            lemma_member(nodes, key, at[1]);
            assert(defines(nodes, row.qualified_name, row.file_path, at[0] as int));
            assert(defines(nodes, row.qualified_name, row.file_path, at[1] as int));
            assert(at[0] != at[1]);
        }
    }
    assert(at[0] == c);
    let hashes = choose|hashes: Seq<u64>| #[trigger]
        are_hood_hashes(kinds_of(nodes), all, at, hashes) && row.hash == combined(hashes);
    assert(is_hood_hash(kinds_of(nodes), all, at[0], hashes[0]));
    reveal(is_graph_hash);
}

// ---- what a certificate tells ---------------------------------------------------------------

/// The references at a node: their kinds by number, and their ends as `q` maps them.
pub open spec fn around(c: usize, q: Map<usize, usize>) -> spec_fn(Tie) -> Option<(u64, usize, usize)> {
    |t: Tie|
        if t.0 == c || t.1 == c {
            Some((fnv_from(FNV_OFFSET, vstd::utf8::encode_utf8(t.2)), q[t.0], q[t.1]))
        } else {
            None
        }
}

/// Every node as itself.
pub open spec fn itself() -> Map<usize, usize> {
    Map::new(|v: usize| true, |v: usize| v)
}

spec fn lifted(list: Seq<usize>) -> spec_fn((u64, Seq<u32>)) -> Option<(u64, usize, usize)> {
    |e: (u64, Seq<u32>)| Some((e.0, list[e.1[0] as int], list[e.1[1] as int]))
}

proof fn lemma_around(all: Seq<Tie>, c: usize, q: Map<usize, usize>)
    ensures
        gather(all, around(c, q)) == gather(gather(all, own_fn(c)), around(c, q)),
    decreases all.len(),
{
    if all.len() > 0 {
        lemma_around(all.drop_last(), c, q);
        let t = all.last();
        let own = gather(all.drop_last(), own_fn(c));
        if touches(t, c) {
            lemma_gather_push(own, t, around(c, q));
        }
    }
}

/// The references of a neighbourhood, by its nodes, are those at the centre.
proof fn lemma_lifted(kinds: Seq<Seq<char>>, all: Seq<Tie>, c: usize)
    requires
        ties_within(all, kinds.len()),
        c < kinds.len(),
        hood_fits(all, c),
    ensures
        gather(hood(kinds, all, c).edges, lifted(hood_nodes(touching(all, c), c))) == gather(all, around(c, itself())),
{
    let h = hood(kinds, all, c);
    let own = touching(all, c);
    let list = hood_nodes(own, c);
    let f = lifted(list);
    lemma_hood_small(kinds, all, c);
    lemma_hood_nodes(own, c);
    lemma_own_within(all, c, kinds.len());
    lemma_touching_gather(all, c);
    lemma_gather_all(h.edges, f);
    lemma_around(all, c, itself());
    assert forall|i: int| 0 <= i < own.len() implies around(c, itself())(#[trigger] own[i]) is Some by {
        crate::index::fingerprint::hood::lemma_touching_within(all, c);
    }
    lemma_gather_all(own, around(c, itself()));
    assert forall|i: int| 0 <= i < own.len() implies gather(h.edges, f)[i] == gather(own, around(c, itself()))[i] by {
        let a = own[i].0;
        let b = own[i].1;
        assert(touches(own[i], a) && touches(own[i], b));
        assert(list.contains(a) && list.contains(b));
        lemma_number(list, a);
        lemma_number(list, b);
        assert(around(c, itself())(own[i]) is Some);
        assert(f(h.edges[i]) == Some((kind_of(own[i].2), a, b)));
    }
    assert(gather(h.edges, f) =~= gather(own, around(c, itself())));
}

/// Neighbourhoods that share a certificate are the same but for names: their
/// nodes correspond one to one, the centre to the centre, each to one of its
/// kind, and the references at the one are those at the other, kind by kind and
/// end by end. Kinds are told by their numbers.
#[verifier::spinoff_prover]
#[verifier::rlimit(40)]
pub proof fn a_shared_certificate_means_the_same_surroundings(
    kinds: Seq<Seq<char>>,
    all: Seq<Tie>,
    c: usize,
    kinds2: Seq<Seq<char>>,
    all2: Seq<Tie>,
    c2: usize,
    cert: CertificateView,
) -> (q: Map<usize, usize>)
    requires
        ties_within(all, kinds.len()),
        ties_within(all2, kinds2.len()),
        c < kinds.len(),
        c2 < kinds2.len(),
        hood_fits(all, c),
        hood_fits(all2, c2),
        is_certificate(hood(kinds, all, c), cert),
        is_certificate(hood(kinds2, all2, c2), cert),
    ensures
        q.contains_key(c) && q[c] == c2,
        forall|i: int| 0 <= i < all.len() && ((#[trigger] all[i]).0 == c || all[i].1 == c) ==> q.contains_key(all[i].0)
            && q.contains_key(all[i].1),
        q.is_injective(),
        forall|v: usize| #[trigger]
            q.contains_key(v) ==> fnv_from(FNV_OFFSET, vstd::utf8::encode_utf8(kinds2[q[v] as int])) == fnv_from(
                FNV_OFFSET,
                vstd::utf8::encode_utf8(kinds[v as int]),
            ),
        gather(all, around(c, q)).to_multiset() == gather(all2, around(c2, itself())).to_multiset(),
{
    let g = hood(kinds, all, c);
    let h = hood(kinds2, all2, c2);
    let own = touching(all, c);
    let own2 = touching(all2, c2);
    let list = hood_nodes(own, c);
    let list2 = hood_nodes(own2, c2);
    lemma_hood_small(kinds, all, c);
    lemma_hood_small(kinds2, all2, c2);
    lemma_hood_nodes(own, c);
    lemma_hood_nodes(own2, c2);
    assert(g.colors.contains_key(0) && h.colors.contains_key(0));
    assert(g.colors.dom().len() > 0) by {
        vstd::set_lib::lemma_set_empty_equivalency_len(g.colors.dom());
    }
    assert(h.colors.dom().len() > 0) by {
        vstd::set_lib::lemma_set_empty_equivalency_len(h.colors.dom());
    }
    graphs_that_share_a_certificate_are_isomorphic(g, h, cert);
    let m = choose|m: Map<u32, u32>| is_isomorphism(m, g, h);
    assert forall|x: u32| #[trigger] m.contains_key(x) implies m[x] < list2.len() by {
        assert(m.values().contains(m[x]));
        assert(h.colors.contains_key(m[x]));
    }
    let q = Map::<usize, usize>::new(|v: usize| list.contains(v), |v: usize| list2[m[number(list, v)] as int]);
    assert(m[0] == 0) by {
        assert(m.contains_key(0));
        assert(g.colors.contains_key(0));
        assert(h.colors[m[0]] == g.colors[0]);
    }
    assert(list.contains(c));
    lemma_number_at(list, 0);
    assert forall|v: usize| #[trigger] q.contains_key(v) implies number(list, v) < list.len() && m.contains_key(
        number(list, v),
    ) && q[v] == list2[m[number(list, v)] as int] && kind_of(kinds2[q[v] as int]) == kind_of(kinds[v as int]) by {
        lemma_number(list, v);
        let x = number(list, v);
        assert(g.colors.contains_key(x));
        assert(h.colors[m[x]] == g.colors[x]);
        assert(m.contains_key(x));
        assert(h.colors.contains_key(m[x])) by {
            assert(m.values().contains(m[x]));
        }
    }
    assert forall|v: usize, w: usize| v != w && q.dom().contains(v) && q.dom().contains(w) implies #[trigger] q[v]
        != #[trigger] q[w] by {
        assert(q.contains_key(v) && q.contains_key(w));
        lemma_number(list, v);
        lemma_number(list, w);
        let x = number(list, v);
        let y = number(list, w);
        assert(x != y);
        assert(m.dom().contains(x) && m.dom().contains(y));
        assert(m[x] != m[y]);
    }
    lemma_own_within(all, c, kinds.len());
    lemma_touching_gather(all, c);
    assert forall|i: int| 0 <= i < all.len() && ((#[trigger] all[i]).0 == c || all[i].1 == c) implies q.contains_key(all[i].0)
        && q.contains_key(all[i].1) by {
        let t = all[i];
        crate::gather::lemma_gather_member(all, own_fn(c), t);
        assert(own_fn(c)(all[i]) == Some(t));
        let k = choose|k: int| 0 <= k < own.len() && own[k] == t;
        assert(touches(own[k], t.0) && touches(own[k], t.1));
    }
    // The references.
    let f = lifted(list2);
    let moved = rename_edges(g.edges, m);
    lemma_gather_multiset(moved, h.edges, f);
    lemma_gather_all(moved, f);
    lemma_lifted(kinds2, all2, c2);
    lemma_around(all, c, q);
    assert forall|i: int| 0 <= i < own.len() implies around(c, q)(#[trigger] own[i]) is Some by {
        crate::index::fingerprint::hood::lemma_touching_within(all, c);
    }
    lemma_gather_all(own, around(c, q));
    assert(gather(moved, f) =~= gather(own, around(c, q))) by {
        assert forall|i: int| 0 <= i < own.len() implies gather(moved, f)[i] == gather(own, around(c, q))[i] by {
            let a = own[i].0;
            let b = own[i].1;
            assert(touches(own[i], a) && touches(own[i], b));
            assert(list.contains(a) && list.contains(b));
            assert(q.contains_key(a) && q.contains_key(b));
            assert(around(c, q)(own[i]) is Some);
            assert(moved[i].1[0] == m[number(list, a)] && moved[i].1[1] == m[number(list, b)]);
            assert(f(moved[i]) == Some((kind_of(own[i].2), q[a], q[b])));
        }
    }
    q
}

spec fn kind_of(kind: Seq<char>) -> u64 {
    fnv_from(FNV_OFFSET, vstd::utf8::encode_utf8(kind))
}

} // verus!
