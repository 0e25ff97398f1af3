//! Neighbourhoods, their hashes, and the fingerprints made of them.

use vstd::prelude::*;

use crate::canon::hash::{certificate_bytes, certificate_hash, fnv1a64, fnv_from, le64, FNV_OFFSET};
use crate::canon::{canonical, is_certificate, CertificateView, GraphView, TypedEdge, TypedGraph};
use crate::gather::{gather, lemma_gather_len, lemma_gather_member};
use crate::graph::web::{places, query_views, QueryEdge, QueryEdgeView, Web};
use crate::index::fingerprint::numbering::{
    hood_colors, hood_nodes, lemma_distinct_places, lemma_hood_nodes, lemma_hood_nodes_few, lemma_hood_nodes_step, lemma_number,
    lemma_number_at, noted, number, Numbering,
};
use crate::index::fingerprint::{SymbolFingerprint, SymbolView};
use crate::index::resolve::indices::{ids, place_of_id};
use crate::index::resolve::{node_views, NodeView, ResolverNode};
use crate::lookup::{lemma_places_of, lemma_take_next, places_of, put, SortedIndex};
use crate::order::{is_distinct_sorted, sort_distinct, sort_keys, sorted};
use crate::text::{join_texts, joined, same_text};

verus! {

/// A reference between known nodes: the places of its ends, and its kind.
pub type Tie = (usize, usize, Seq<char>);

pub open spec fn tie_fn(nodes: Seq<NodeView>) -> spec_fn(QueryEdgeView) -> Option<Tie> {
    |e: QueryEdgeView|
        if e.from_id.len() > 0 && e.to_id.len() > 0 {
            match (place_of_id(nodes, e.from_id), place_of_id(nodes, e.to_id)) {
                (Some(f), Some(t)) => Some((f as usize, t as usize, e.edge_type)),
                _ => None,
            }
        } else {
            None
        }
}

/// The references that take part: those with both ends known.
pub open spec fn ties(nodes: Seq<NodeView>, edges: Seq<QueryEdgeView>) -> Seq<Tie> {
    gather(edges, tie_fn(nodes))
}

/// Does the reference touch the node?
pub open spec fn touches(t: Tie, v: usize) -> bool {
    t.0 == v || t.1 == v
}

pub open spec fn touch_fn(all: Seq<Tie>, v: usize) -> spec_fn(usize) -> Option<usize> {
    |i: usize|
        if touches(all[i as int], v) {
            Some(i)
        } else {
            None
        }
}

/// The places of the references that touch a node.
pub open spec fn touching_places(all: Seq<Tie>, v: usize) -> Seq<usize> {
    gather(places(all.len()), touch_fn(all, v))
}

/// The references that touch a node.
pub open spec fn touching(all: Seq<Tie>, v: usize) -> Seq<Tie> {
    let at = touching_places(all, v);
    Seq::new(at.len(), |i: int| all[at[i] as int])
}

/// The number that stands for a kind of node or reference.
pub open spec fn kind_number(kind: Seq<char>) -> u64 {
    fnv_from(FNV_OFFSET, vstd::utf8::encode_utf8(kind))
}

/// The neighbourhood of a node. The nodes are named by the order in which its
/// references meet them, the centre first; a node is coloured by its kind, and
/// the centre is set apart.
pub open spec fn hood(kinds: Seq<Seq<char>>, all: Seq<Tie>, centre: usize) -> GraphView {
    let own = touching(all, centre);
    let list = hood_nodes(own, centre);
    GraphView {
        edges: Seq::new(own.len(), |i: int| (kind_number(own[i].2), seq![number(list, own[i].0), number(list, own[i].1)])),
        colors: hood_colors(kinds, list),
    }
}

/// Every end of every reference is below `n`.
pub open spec fn ties_within(all: Seq<Tie>, n: nat) -> bool {
    &&& n <= usize::MAX
    &&& all.len() <= usize::MAX
    &&& forall|i: int| 0 <= i < all.len() ==> (#[trigger] all[i]).0 < n && all[i].1 < n
}

/// The nodes of the neighbourhood can be numbered.
pub open spec fn hood_fits(all: Seq<Tie>, centre: usize) -> bool {
    hood_nodes(touching(all, centre), centre).len() <= u32::MAX
}

/// The nodes of every definition's neighbourhood can be numbered.
pub open spec fn hoods_fit(nodes: Seq<NodeView>, all: Seq<Tie>) -> bool {
    forall|c: usize| c < nodes.len() && is_definition(nodes[c as int]) ==> #[trigger] hood_fits(all, c)
}

/// The sizes that fingerprints can be computed for: no definition has more
/// nodes around it than there are numbers for. Few nodes or few references in
/// all are enough.
pub open spec fn is_numberable(nodes: Seq<NodeView>, edges: Seq<QueryEdgeView>) -> bool {
    nodes.len() <= u32::MAX || edges.len() < u32::MAX || hoods_fit(nodes, ties(nodes, edges))
}

/// `h` is the hash of the canonical form of the graph.
#[verifier::opaque]
pub open spec fn is_graph_hash(g: GraphView, h: u64) -> bool {
    exists|cert: CertificateView| #[trigger]
        is_certificate(g, cert) && h == fnv_from(FNV_OFFSET, certificate_bytes(cert))
}

/// `h` is the hash of the canonical form of the node's neighbourhood.
pub open spec fn is_hood_hash(kinds: Seq<Seq<char>>, all: Seq<Tie>, centre: usize, h: u64) -> bool {
    is_graph_hash(hood(kinds, all, centre), h)
}

pub open spec fn kinds_of(nodes: Seq<NodeView>) -> Seq<Seq<char>> {
    Seq::new(nodes.len(), |i: int| nodes[i].node_type)
}

// ---- one symbol ---------------------------------------------------------------------------

/// Is the node a definition? Imports and macro calls are references.
pub open spec fn is_definition(n: NodeView) -> bool {
    n.node_type != "import"@ && n.node_type != "macro_call"@
}

pub open spec fn symbol_key(n: NodeView) -> (Seq<char>, Seq<char>) {
    (n.qualified_name, n.file_path)
}

pub open spec fn definition_fn(nodes: Seq<NodeView>) -> spec_fn(usize) -> Option<usize> {
    |i: usize|
        if is_definition(nodes[i as int]) {
            Some(i)
        } else {
            None
        }
}

/// The places of the definitions.
pub open spec fn definitions(nodes: Seq<NodeView>) -> Seq<usize> {
    gather(places(nodes.len()), definition_fn(nodes))
}

/// The keys of the definitions.
pub open spec fn definition_keys(nodes: Seq<NodeView>) -> Seq<(Seq<char>, Seq<char>)> {
    let at = definitions(nodes);
    Seq::new(at.len(), |i: int| symbol_key(nodes[at[i] as int]))
}

/// The places of the definitions with a key.
pub open spec fn members(nodes: Seq<NodeView>, key: (Seq<char>, Seq<char>)) -> Seq<usize> {
    let q = places_of(definition_keys(nodes), key);
    Seq::new(q.len(), |i: int| definitions(nodes)[q[i] as int])
}

pub open spec fn number_bytes(hashes: Seq<u64>) -> Seq<u8>
    decreases hashes.len(),
{
    if hashes.len() == 0 {
        Seq::empty()
    } else {
        number_bytes(hashes.drop_last()) + le64(hashes.last())
    }
}

/// The hash of a symbol: that of its only member, or the hash of the members'
/// hashes, sorted, with their number before them.
pub open spec fn combined(hashes: Seq<u64>) -> u64 {
    if hashes.len() == 1 {
        hashes[0]
    } else {
        fnv_from(FNV_OFFSET, le64(hashes.len() as u64) + number_bytes(sorted::<u64>(hashes)))
    }
}

pub open spec fn is_name_tie(t: Tie) -> bool {
    t.2 != "contains"@
}

/// How many of the references are not containment.
pub open spec fn count_names(own: Seq<Tie>) -> nat
    decreases own.len(),
{
    if own.len() == 0 {
        0
    } else {
        count_names(own.drop_last()) + (if is_name_tie(own.last()) {
            1nat
        } else {
            0nat
        })
    }
}

/// How many references touch the members, taken one by one.
pub open spec fn total_ties(all: Seq<Tie>, at: Seq<usize>) -> nat
    decreases at.len(),
{
    if at.len() == 0 {
        0
    } else {
        total_ties(all, at.drop_last()) + touching(all, at.last()).len()
    }
}

/// How many references other than containment touch the members.
pub open spec fn total_names(all: Seq<Tie>, at: Seq<usize>) -> nat
    decreases at.len(),
{
    if at.len() == 0 {
        0
    } else {
        total_names(all, at.drop_last()) + count_names(touching(all, at.last()))
    }
}

/// The hashes of some nodes' neighbourhoods.
pub open spec fn are_hood_hashes(kinds: Seq<Seq<char>>, all: Seq<Tie>, at: Seq<usize>, hashes: Seq<u64>) -> bool {
    &&& hashes.len() == at.len()
    &&& forall|i: int| 0 <= i < at.len() ==> is_hood_hash(kinds, all, at[i], #[trigger] hashes[i])
}

/// The kinds of the members, each once, in order, joined.
pub open spec fn is_kind_list(kinds: Seq<Seq<char>>, text: Seq<char>) -> bool {
    exists|list: Seq<Seq<char>>| #[trigger] is_distinct_sorted::<String>(kinds, list) && text == joined(list, "+"@)
}

/// The row is the fingerprint of its symbol.
pub open spec fn is_fingerprint(row: SymbolView, nodes: Seq<NodeView>, all: Seq<Tie>) -> bool {
    let at = members(nodes, (row.qualified_name, row.file_path));
    &&& exists|hashes: Seq<u64>| #[trigger]
        are_hood_hashes(kinds_of(nodes), all, at, hashes) && row.hash == combined(hashes)
    &&& row.edge_count == total_ties(all, at)
    &&& row.name_edge_count == total_names(all, at)
    &&& is_kind_list(Seq::new(at.len(), |i: int| nodes[at[i] as int].node_type), row.node_type)
}

pub open spec fn row_keys(rows: Seq<SymbolView>) -> Seq<(Seq<char>, Seq<char>)> {
    Seq::new(rows.len(), |i: int| (rows[i].qualified_name, rows[i].file_path))
}

/// The rows are the fingerprints of all symbols, each once, in the order of
/// their keys.
pub open spec fn lists_fingerprints(rows: Seq<SymbolView>, nodes: Seq<NodeView>, edges: Seq<QueryEdgeView>) -> bool {
    &&& is_distinct_sorted::<(String, String)>(definition_keys(nodes), row_keys(rows))
    &&& forall|i: int| 0 <= i < rows.len() ==> is_fingerprint(#[trigger] rows[i], nodes, ties(nodes, edges))
}

// ---- how many references there can be ------------------------------------------------------

spec fn meeting(t: Tie, at: Seq<usize>) -> nat
    decreases at.len(),
{
    if at.len() == 0 {
        0
    } else {
        meeting(t, at.drop_last()) + (if touches(t, at.last()) {
            1nat
        } else {
            0nat
        })
    }
}

spec fn distinct_places(at: Seq<usize>) -> bool {
    forall|i: int, j: int| 0 <= i < j < at.len() ==> #[trigger] at[i] != #[trigger] at[j]
}

proof fn lemma_meeting_one(t: Tie, at: Seq<usize>)
    requires
        distinct_places(at),
    ensures
        meeting(t, at) <= 2,
        !at.contains(t.0) && !at.contains(t.1) ==> meeting(t, at) == 0,
        !at.contains(t.0) || !at.contains(t.1) ==> meeting(t, at) <= 1,
    decreases at.len(),
{
    if at.len() > 0 {
        let rest = at.drop_last();
        assert(distinct_places(rest)) by {
            assert forall|i: int, j: int| 0 <= i < j < rest.len() implies #[trigger] rest[i] != #[trigger] rest[j] by {
                assert(at[i] != at[j]);
            }
        }
        lemma_meeting_one(t, rest);
        let x = at.last();
        assert(!rest.contains(x)) by {
            if rest.contains(x) {
                let k = choose|k: int| 0 <= k < rest.len() && rest[k] == x;
                assert(at[k] != at[at.len() - 1]);
            }
        }
        assert(at.contains(x));
        assert forall|y: usize| rest.contains(y) implies at.contains(y) by {
            let k = choose|k: int| 0 <= k < rest.len() && rest[k] == y;
            assert(at[k] == y);
        }
    }
}

pub proof fn lemma_touching_step(all: Seq<Tie>, v: usize)
    requires
        0 < all.len() <= usize::MAX,
    ensures
        touching(all, v) == (if touches(all.last(), v) {
            touching(all.drop_last(), v).push(all.last())
        } else {
            touching(all.drop_last(), v)
        }),
        touching_places(all, v).len() == touching(all, v).len(),
{
    let rest = all.drop_last();
    let ps = places(all.len());
    let pr = places(rest.len());
    assert(ps.drop_last() =~= pr);
    assert(gather(pr, touch_fn(all, v)) == gather(pr, touch_fn(rest, v))) by {
        assert forall|i: int| 0 <= i < pr.len() implies touch_fn(all, v)(#[trigger] pr[i]) == touch_fn(rest, v)(pr[i]) by {
            assert(all[i] == rest[i]);
        }
        crate::gather::lemma_gather_same(pr, pr, touch_fn(all, v), touch_fn(rest, v));
    }
    let before = touching_places(rest, v);
    lemma_touching_within(rest, v);
    assert(ps.last() == (all.len() - 1) as usize);
    assert forall|i: int| 0 <= i < before.len() implies all[before[i] as int] == rest[before[i] as int] by {
        assert(before[i] < rest.len());
    }
    if touches(all.last(), v) {
        assert(touching(all, v) =~= touching(rest, v).push(all.last()));
    } else {
        assert(touching(all, v) =~= touching(rest, v));
    }
}

/// The places of the references that touch a node are places.
pub proof fn lemma_touching_within(all: Seq<Tie>, v: usize)
    requires
        all.len() <= usize::MAX,
    ensures
        forall|i: int| 0 <= i < touching_places(all, v).len() ==> #[trigger] touching_places(all, v)[i] < all.len(),
        forall|i: int| 0 <= i < touching(all, v).len() ==> touches(#[trigger] touching(all, v)[i], v),
{
    let at = touching_places(all, v);
    assert forall|i: int| 0 <= i < at.len() implies #[trigger] at[i] < all.len() && touches(all[at[i] as int], v) by {
        assert(at.contains(at[i]));
        lemma_gather_member(places(all.len()), touch_fn(all, v), at[i]);
        let k = choose|k: int|
            0 <= k < places(all.len()).len() && touch_fn(all, v)(#[trigger] places(all.len())[k]) == Some(at[i]);
        assert(places(all.len())[k] == at[i]);
    }
}

/// Every reference touches two of the members at most.
pub proof fn lemma_total_ties(all: Seq<Tie>, at: Seq<usize>)
    requires
        all.len() <= usize::MAX,
        forall|i: int, j: int| 0 <= i < j < at.len() ==> #[trigger] at[i] != #[trigger] at[j],
    ensures
        total_ties(all, at) <= 2 * all.len(),
    decreases all.len(),
{
    if all.len() == 0 {
        lemma_no_ties(all, at);
    } else {
        lemma_total_ties(all.drop_last(), at);
        lemma_total_step(all, at);
        lemma_meeting_one(all.last(), at);
    }
}

proof fn lemma_no_ties(all: Seq<Tie>, at: Seq<usize>)
    requires
        all.len() == 0,
    ensures
        total_ties(all, at) == 0,
    decreases at.len(),
{
    if at.len() > 0 {
        lemma_no_ties(all, at.drop_last());
        assert(places(0) =~= Seq::empty());
        assert(touching_places(all, at.last()) =~= Seq::empty());
    }
}

proof fn lemma_total_step(all: Seq<Tie>, at: Seq<usize>)
    requires
        0 < all.len() <= usize::MAX,
    ensures
        total_ties(all, at) == total_ties(all.drop_last(), at) + meeting(all.last(), at),
    decreases at.len(),
{
    if at.len() > 0 {
        lemma_total_step(all, at.drop_last());
        lemma_touching_step(all, at.last());
    }
}

proof fn lemma_count_names(own: Seq<Tie>)
    ensures
        count_names(own) <= own.len(),
    decreases own.len(),
{
    if own.len() > 0 {
        lemma_count_names(own.drop_last());
    }
}

pub proof fn lemma_total_names(all: Seq<Tie>, at: Seq<usize>)
    ensures
        total_names(all, at) <= total_ties(all, at),
    decreases at.len(),
{
    if at.len() > 0 {
        lemma_total_names(all, at.drop_last());
        lemma_count_names(touching(all, at.last()));
    }
}

proof fn lemma_total_monotone(all: Seq<Tie>, at: Seq<usize>, i: int)
    requires
        0 <= i <= at.len(),
    ensures
        total_ties(all, at.take(i)) <= total_ties(all, at),
        total_names(all, at.take(i)) <= total_names(all, at),
    decreases at.len() - i,
{
    if i < at.len() {
        lemma_take_next(at, i);
        lemma_total_monotone(all, at, i + 1);
    } else {
        assert(at.take(i) =~= at);
    }
}

// ---- executed -------------------------------------------------------------------------------

/// A reference between known nodes, with the place of its row.
struct Link {
    from: usize,
    to: usize,
    row: usize,
}

spec fn link_ties(links: Seq<Link>, edges: Seq<QueryEdgeView>) -> Seq<Tie> {
    Seq::new(links.len(), |i: int| (links[i].from, links[i].to, edges[links[i].row as int].edge_type))
}

spec fn links_fit(links: Seq<Link>, n_nodes: nat, n_edges: nat) -> bool {
    forall|i: int| 0 <= i < links.len() ==> (#[trigger] links[i]).from < n_nodes && links[i].to < n_nodes && links[i].row
        < n_edges
}

fn find_links(nodes: &[ResolverNode], edges: &[QueryEdge]) -> (r: Vec<Link>)
    ensures
        link_ties(r@, query_views(edges@)) == ties(node_views(nodes@), query_views(edges@)),
        links_fit(r@, nodes@.len(), edges@.len()),
        r.len() <= edges.len(),
{
    let ghost nv = node_views(nodes@);
    let ghost ev = query_views(edges@);
    let ghost f = tie_fn(nv);
    let web = Web::build(nodes, edges);
    let mut out: Vec<Link> = Vec::new();
    assert(link_ties(out@, ev) =~= gather(ev.take(0), f));
    let mut i: usize = 0;
    while i < edges.len()
        invariant
            i <= edges.len(),
            nv == node_views(nodes@),
            ev == query_views(edges@),
            f == tie_fn(nv),
            web.describes(nv, ev),
            link_ties(out@, ev) == gather(ev.take(i as int), f),
            links_fit(out@, nodes@.len(), edges@.len()),
            out.len() <= i,
        decreases edges.len() - i,
    {
        let e = &edges[i];
        proof {
            lemma_take_next(ev, i as int);
        }
        assert(ev[i as int] == e.deep_view());
        if !e.from_id.as_str().is_empty() && !e.to_id.as_str().is_empty() {
            match (web.find(&e.from_id, Ghost(nv), Ghost(ev)), web.find(&e.to_id, Ghost(nv), Ghost(ev))) {
                (Some(a), Some(b)) => {
                    let ghost before = link_ties(out@, ev);
                    out.push(Link { from: a, to: b, row: i });
                    assert(link_ties(out@, ev) =~= before.push((a, b, ev[i as int].edge_type)));
                },
                _ => {},
            }
        }
        i += 1;
    }
    assert(ev.take(i as int) =~= ev);
    out
}

fn adjacency(links: &Vec<Link>, n: usize, Ghost(all): Ghost<Seq<Tie>>) -> (adj: Vec<Vec<usize>>)
    requires
        all.len() == links.len(),
        forall|i: int| 0 <= i < links.len() ==> (#[trigger] links@[i]).from < n && links@[i].to < n,
        forall|i: int| 0 <= i < links.len() ==> (#[trigger] all[i]).0 == links@[i].from && all[i].1 == links@[i].to,
    ensures
        adj.len() == n,
        forall|v: int| 0 <= v < n ==> (#[trigger] adj@[v])@ == touching_places(all, v as usize),
{
    let ghost ps = places(all.len());
    let mut adj: Vec<Vec<usize>> = Vec::new();
    let mut k: usize = 0;
    while k < n
        invariant
            k <= n,
            adj.len() == k,
            forall|v: int| 0 <= v < k ==> (#[trigger] adj@[v])@ == Seq::<usize>::empty(),
        decreases n - k,
    {
        adj.push(Vec::new());
        k += 1;
    }
    assert(ps.take(0) =~= Seq::empty());
    let mut i: usize = 0;
    while i < links.len()
        invariant
            i <= links.len(),
            all.len() == links.len(),
            ps == places(all.len()),
            adj.len() == n,
            forall|i: int| 0 <= i < links.len() ==> (#[trigger] links@[i]).from < n && links@[i].to < n,
            forall|i: int| 0 <= i < links.len() ==> (#[trigger] all[i]).0 == links@[i].from && all[i].1 == links@[i].to,
            forall|v: int| 0 <= v < n ==> (#[trigger] adj@[v])@ == gather(ps.take(i as int), touch_fn(all, v as usize)),
        decreases links.len() - i,
    {
        let f: usize = links[i].from;
        let t: usize = links[i].to;
        assert(links@[i as int].from < n && links@[i as int].to < n);
        assert(all[i as int].0 == f && all[i as int].1 == t);
        proof {
            lemma_take_next(ps, i as int);
        }
        let ghost before = adj@;
        adj[f].push(i);
        if t != f {
            adj[t].push(i);
        }
        assert forall|v: int| 0 <= v < n implies (#[trigger] adj@[v])@ == gather(
            ps.take(i + 1),
            touch_fn(all, v as usize),
        ) by {
            assert(before[v]@ == gather(ps.take(i as int), touch_fn(all, v as usize)));
            if v == f || v == t {
                assert(adj@[v]@ =~= before[v]@.push(i));
            } else {
                assert(adj@[v]@ == before[v]@);
            }
        }
        i += 1;
    }
    assert(ps.take(i as int) =~= ps);
    adj
}

/// What a node adds to its symbol.
struct Member {
    hash: u64,
    ties: usize,
    names: usize,
}

#[verifier::spinoff_prover]
fn make_hood(
    nodes: &[ResolverNode],
    edges: &[QueryEdge],
    links: &Vec<Link>,
    at: &Vec<usize>,
    centre: usize,
    Ghost(all): Ghost<Seq<Tie>>,
) -> (r: (TypedGraph, usize))
    requires
        hood_fits(all, centre),
        links_fit(links@, nodes@.len(), edges@.len()),
        all == link_ties(links@, query_views(edges@)),
        centre < nodes.len(),
        at@ == touching_places(all, centre),
        forall|i: int| 0 <= i < at.len() ==> #[trigger] at@[i] < links.len(),
    ensures
        r.0@ == hood(kinds_of(node_views(nodes@)), all, centre),
        r.1 == count_names(touching(all, centre)),
{
    let ghost nv = node_views(nodes@);
    let ghost ev = query_views(edges@);
    let ghost kinds = kinds_of(nv);
    let ghost own = touching(all, centre);
    let ghost list = hood_nodes(own, centre);
    let mut numbering = Numbering::new(Ghost(kinds));
    let mut tedges: Vec<TypedEdge> = Vec::new();
    let mut names: usize = 0;
    proof {
        assert(own.take(0) =~= Seq::empty());
        lemma_hood_nodes(own.take(0), centre);
        lemma_hood_nodes(own, centre);
    }
    numbering.enter(nodes, centre, Ghost(Seq::empty()));
    let mut i: usize = 0;
    while i < at.len()
        invariant
            i <= at.len(),
            nv == node_views(nodes@),
            ev == query_views(edges@),
            kinds == kinds_of(nv),
            links_fit(links@, nodes@.len(), edges@.len()),
            all == link_ties(links@, ev),
            centre < nodes.len(),
            forall|i: int| 0 <= i < at.len() ==> #[trigger] at@[i] < links.len(),
            own == touching(all, centre),
            list == hood_nodes(own, centre),
            list.len() <= u32::MAX,
            at@ == touching_places(all, centre),
            own.len() == at.len(),
            names == count_names(own.take(i as int)),
            names <= i,
            numbering.holds(kinds, hood_nodes(own.take(i as int), centre)),
            tedges.len() == i,
            forall|k: int| 0 <= k < i ==> is_hood_edge(#[trigger] tedges@[k], own[k], list),
        decreases at.len() - i,
    {
        assert(at@[i as int] < links.len());
        let l = &links[at[i]];
        assert(links@[at@[i as int] as int].from < nodes@.len());
        assert(own[i as int] == all[at@[i as int] as int]);
        let f: usize = l.from;
        let t: usize = l.to;
        assert(own[i as int] == (f, t, ev[l.row as int].edge_type));
        proof {
            lemma_take_next(own, i as int);
            lemma_hood_nodes_step(own, centre, i as int);
        }
        let kind = &edges[l.row].edge_type;
        assert(ev[l.row as int].edge_type == kind@);
        let ghost before = hood_nodes(own.take(i as int), centre);
        let ghost between = noted(before, f);
        let a: u32 = numbering.enter(nodes, f, Ghost(before));
        let b: u32 = numbering.enter(nodes, t, Ghost(between));
        assert(between[a as int] == list[a as int]);
        assert(noted(between, t)[b as int] == list[b as int]);
        let mut verts: Vec<u32> = Vec::new();
        verts.push(a);
        verts.push(b);
        tedges.push(TypedEdge { label: fnv1a64(kind.as_str().as_bytes()), verts });
        assert(is_hood_edge(tedges@[i as int], own[i as int], list));
        if !same_text(kind.as_str(), "contains") {
            names += 1;
        }
        i += 1;
    }
    assert(own.take(i as int) =~= own);
    let g = TypedGraph { edges: tedges, colors: numbering.colors };
    proof {
        let want = hood(kinds, all, centre);
        assert forall|k: int| 0 <= k < own.len() implies g@.edges[k] == want.edges[k] by {
            assert(is_hood_edge(tedges@[k], own[k], list));
            lemma_number_at(list, tedges@[k].verts@[0] as int);
            lemma_number_at(list, tedges@[k].verts@[1] as int);
            assert(tedges@[k].verts@ =~= want.edges[k].1);
        }
        assert(g@.edges =~= want.edges);
    }
    (g, names)
}

/// The edge stands for the reference, its ends numbered by the list.
spec fn is_hood_edge(e: TypedEdge, t: Tie, list: Seq<usize>) -> bool {
    &&& e.label == kind_number(t.2)
    &&& e.verts@.len() == 2
    &&& e.verts@[0] < list.len() && list[e.verts@[0] as int] == t.0
    &&& e.verts@[1] < list.len() && list[e.verts@[1] as int] == t.1
}

pub proof fn lemma_hood_covered(kinds: Seq<Seq<char>>, all: Seq<Tie>, centre: usize)
    requires
        hood_fits(all, centre),
    ensures
        hood(kinds, all, centre).is_covered(),
{
    let g = hood(kinds, all, centre);
    let own = touching(all, centre);
    let list = hood_nodes(own, centre);
    lemma_hood_nodes(own, centre);
    assert forall|i: int, j: int| 0 <= i < g.edges.len() && 0 <= j < g.edges[i].1.len() implies g.colors.contains_key(
        #[trigger] g.edges[i].1[j],
    ) by {
        assert(touches(own[i], own[i].0) && touches(own[i], own[i].1));
        assert(list.contains(own[i].0) && list.contains(own[i].1));
        lemma_number(list, own[i].0);
        lemma_number(list, own[i].1);
    }
}

pub(crate) proof fn lemma_ties_within(nodes: Seq<NodeView>, edges: Seq<QueryEdgeView>)
    requires
        nodes.len() <= usize::MAX,
        edges.len() <= usize::MAX,
    ensures
        ties_within(ties(nodes, edges), nodes.len()),
    decreases edges.len(),
{
    let all = ties(nodes, edges);
    if edges.len() > 0 {
        let rest = edges.drop_last();
        let e = edges.last();
        lemma_ties_within(nodes, rest);
        lemma_place_known(nodes, e.from_id);
        lemma_place_known(nodes, e.to_id);
        lemma_ties_len(nodes, edges);
        assert forall|i: int| 0 <= i < all.len() implies (#[trigger] all[i]).0 < nodes.len() && all[i].1 < nodes.len() by {
            if i < ties(nodes, rest).len() {
                assert(all[i] == ties(nodes, rest)[i]);
            }
        }
    }
}

proof fn lemma_ties_len(nodes: Seq<NodeView>, edges: Seq<QueryEdgeView>)
    ensures
        ties(nodes, edges).len() <= edges.len(),
    decreases edges.len(),
{
    if edges.len() > 0 {
        lemma_ties_len(nodes, edges.drop_last());
    }
}

proof fn lemma_place_known(nodes: Seq<NodeView>, id: Seq<char>)
    requires
        nodes.len() <= usize::MAX,
    ensures
        place_of_id(nodes, id) matches Some(i) ==> 0 <= i < nodes.len(),
{
    lemma_places_of(ids(nodes), id);
    let q = places_of(ids(nodes), id);
    if q.len() > 0 {
        assert(q[q.len() - 1] < ids(nodes).len());
    }
}

/// Few nodes or few references leave every neighbourhood small enough.
pub(crate) proof fn lemma_hoods_fit(nodes: Seq<NodeView>, edges: Seq<QueryEdgeView>)
    requires
        nodes.len() <= usize::MAX,
        edges.len() <= usize::MAX,
        is_numberable(nodes, edges),
    ensures
        hoods_fit(nodes, ties(nodes, edges)),
{
    let all = ties(nodes, edges);
    lemma_ties_within(nodes, edges);
    lemma_gather_len(edges, tie_fn(nodes));
    assert forall|c: usize| c < nodes.len() && is_definition(nodes[c as int]) implies #[trigger] hood_fits(all, c) by {
        let at = touching_places(all, c);
        let own = touching(all, c);
        let list = hood_nodes(own, c);
        lemma_touching_within(all, c);
        lemma_gather_len(places(all.len()), touch_fn(all, c));
        assert forall|i: int| 0 <= i < own.len() implies touches(#[trigger] own[i], c) && own[i].0 < nodes.len() && own[i].1
            < nodes.len() by {
            assert(own[i] == all[at[i] as int]);
            assert(at[i] < all.len());
        }
        lemma_hood_nodes_few(own, c);
        lemma_hood_nodes(own, c);
        assert forall|i: int| 0 <= i < list.len() implies #[trigger] list[i] < nodes.len() by {
            assert(list.contains(list[i]));
            if list[i] != c {
                let k = choose|k: int| 0 <= k < own.len() && touches(#[trigger] own[k], list[i]);
                assert(own[k].0 < nodes.len());
            }
        }
        lemma_distinct_places(list, nodes.len());
    }
}

fn make_member(
    nodes: &[ResolverNode],
    edges: &[QueryEdge],
    links: &Vec<Link>,
    at: &Vec<usize>,
    centre: usize,
    Ghost(all): Ghost<Seq<Tie>>,
) -> (r: Member)
    requires
        hood_fits(all, centre),
        links_fit(links@, nodes@.len(), edges@.len()),
        all == link_ties(links@, query_views(edges@)),
        centre < nodes.len(),
        at@ == touching_places(all, centre),
    ensures
        is_hood_hash(kinds_of(node_views(nodes@)), all, centre, r.hash),
        r.ties == touching(all, centre).len(),
        r.names == count_names(touching(all, centre)),
{
    let ghost kinds = kinds_of(node_views(nodes@));
    let n: usize = links.len();
    proof {
        assert(all.len() == n);
        lemma_touching_within(all, centre);
        lemma_hood_covered(kinds, all, centre);
    }
    let (g, names) = make_hood(nodes, edges, links, at, centre, Ghost(all));
    let cert = canonical(&g);
    let hash = certificate_hash(&cert);
    assert(is_graph_hash(g@, hash)) by {
        reveal(is_graph_hash);
        assert(is_certificate(g@, cert@));
    }
    Member { hash, ties: at.len(), names }
}

fn append_number(bytes: &mut Vec<u8>, x: u64)
    ensures
        final(bytes)@ == old(bytes)@ + le64(x),
{
    let b = vstd::bytes::u64_to_le_bytes(x);
    let ghost before = bytes@;
    let ghost want = le64(x);
    assert(before + want.take(0) =~= before);
    let mut i: usize = 0;
    while i < b.len()
        invariant
            i <= b.len(),
            b@ == want,
            bytes@ == before + want.take(i as int),
        decreases b.len() - i,
    {
        proof {
            lemma_take_next(want, i as int);
            assert(before + want.take(i + 1) =~= (before + want.take(i as int)).push(want[i as int]));
        }
        bytes.push(b[i]);
        i += 1;
    }
    assert(want.take(i as int) =~= want);
}

fn combine(hashes: Vec<u64>) -> (r: u64)
    requires
        hashes.len() > 0,
    ensures
        r == combined(hashes@),
{
    if hashes.len() == 1 {
        return hashes[0];
    }
    let ghost hv = hashes@;
    assert(hashes.deep_view() =~= hv);
    let n: usize = hashes.len();
    let order = sort_keys(hashes);
    let ghost sv = sorted::<u64>(hv);
    assert(order@ =~= order.deep_view());
    let mut bytes: Vec<u8> = Vec::new();
    append_number(&mut bytes, n as u64);
    let ghost head = le64(n as u64);
    assert(bytes@ =~= head);
    assert(head + number_bytes(sv.take(0)) =~= head);
    let mut i: usize = 0;
    while i < order.len()
        invariant
            i <= order.len(),
            order@ == sv,
            bytes@ == head + number_bytes(sv.take(i as int)),
        decreases order.len() - i,
    {
        let ghost before = number_bytes(sv.take(i as int));
        append_number(&mut bytes, order[i]);
        proof {
            lemma_take_next(sv, i as int);
            assert(head + before + le64(sv[i as int]) =~= head + (before + le64(sv[i as int])));
        }
        i += 1;
    }
    assert(sv.take(i as int) =~= sv);
    fnv1a64(bytes.as_slice())
}

pub(crate) proof fn lemma_definitions(nodes: Seq<NodeView>)
    requires
        nodes.len() <= usize::MAX,
    ensures
        forall|i: int| 0 <= i < definitions(nodes).len() ==> #[trigger] definitions(nodes)[i] < nodes.len(),
        forall|i: int, j: int| 0 <= i < j < definitions(nodes).len() ==> #[trigger] definitions(nodes)[i]
            != #[trigger] definitions(nodes)[j],
        forall|i: int| 0 <= i < definitions(nodes).len() ==> is_definition(nodes[#[trigger] definitions(nodes)[i] as int]),
{
    lemma_ascending_gather(places(nodes.len()), definition_fn(nodes), nodes.len() as int);
    let d = definitions(nodes);
    assert forall|i: int, j: int| 0 <= i < j < d.len() implies #[trigger] d[i] != #[trigger] d[j] by {
        assert(d[i] < d[j]);
    }
    assert forall|i: int| 0 <= i < d.len() implies is_definition(nodes[#[trigger] d[i] as int]) by {
        let all = places(nodes.len());
        assert(d.contains(d[i]));
        lemma_gather_member(all, definition_fn(nodes), d[i]);
        let k = choose|k: int| 0 <= k < all.len() && definition_fn(nodes)(#[trigger] all[k]) == Some(d[i]);
        assert(is_definition(nodes[all[k] as int]));
    }
}

/// A selection of ascending places ascends.
pub(crate) proof fn lemma_ascending_gather(s: Seq<usize>, f: spec_fn(usize) -> Option<usize>, n: int)
    requires
        forall|i: int| 0 <= i < s.len() ==> #[trigger] s[i] < n,
        forall|i: int, j: int| 0 <= i < j < s.len() ==> #[trigger] s[i] < #[trigger] s[j],
        forall|x: usize| (#[trigger] f(x)) matches Some(y) ==> y == x,
    ensures
        forall|i: int| 0 <= i < gather(s, f).len() ==> #[trigger] gather(s, f)[i] < n,
        forall|i: int, j: int| 0 <= i < j < gather(s, f).len() ==> #[trigger] gather(s, f)[i] < #[trigger] gather(s, f)[j],
        s.len() > 0 ==> forall|i: int| 0 <= i < gather(s, f).len() ==> #[trigger] gather(s, f)[i] <= s.last(),
    decreases s.len(),
{
    if s.len() > 0 {
        let rest = s.drop_last();
        let r = gather(rest, f);
        assert forall|i: int, j: int| 0 <= i < j < rest.len() implies #[trigger] rest[i] < #[trigger] rest[j] by {
            assert(s[i] < s[j]);
        }
        lemma_ascending_gather(rest, f, n);
        let g = gather(s, f);
        if rest.len() > 0 {
            assert(s[rest.len() - 1] < s[s.len() - 1]);
            assert(rest.last() == s[rest.len() - 1]);
        }
        assert(f(s.last()) matches Some(y) ==> y == s.last());
        assert forall|i: int| 0 <= i < g.len() implies #[trigger] g[i] < n && g[i] <= s.last() by {
            if i < r.len() {
                assert(g[i] == r[i]);
            }
        }
        assert forall|i: int, j: int| 0 <= i < j < g.len() implies #[trigger] g[i] < #[trigger] g[j] by {
            assert(g[i] == r[i]);
            if j < r.len() {
                assert(g[j] == r[j]);
            }
        }
    }
}

/// The places of a symbol's members are distinct places of nodes.
pub proof fn lemma_members(nodes: Seq<NodeView>, key: (Seq<char>, Seq<char>))
    requires
        nodes.len() <= usize::MAX,
    ensures
        forall|i: int| 0 <= i < members(nodes, key).len() ==> #[trigger] members(nodes, key)[i] < nodes.len(),
        forall|i: int, j: int| 0 <= i < j < members(nodes, key).len() ==> #[trigger] members(nodes, key)[i]
            != #[trigger] members(nodes, key)[j],
        forall|i: int| 0 <= i < members(nodes, key).len() ==> is_definition(nodes[#[trigger] members(nodes, key)[i] as int]),
        definition_keys(nodes).contains(key) ==> members(nodes, key).len() > 0,
{
    lemma_definitions(nodes);
    lemma_definitions_len(nodes);
    let keys = definition_keys(nodes);
    lemma_places_of(keys, key);
    let q = places_of(keys, key);
    let m = members(nodes, key);
    assert forall|i: int| 0 <= i < m.len() implies #[trigger] m[i] < nodes.len() && is_definition(nodes[m[i] as int]) by {
        assert(q[i] < keys.len());
        assert(definitions(nodes)[q[i] as int] < nodes.len());
    }
    assert forall|i: int, j: int| 0 <= i < j < m.len() implies #[trigger] m[i] != #[trigger] m[j] by {
        assert(q[i] < q[j]);
        assert(q[j] < keys.len());
        assert(definitions(nodes)[q[i] as int] != definitions(nodes)[q[j] as int]);
    }
    if keys.contains(key) {
        let k = choose|k: int| 0 <= k < keys.len() && keys[k] == key;
        assert(q.contains(k as usize));
    }
}

pub(crate) proof fn lemma_definitions_len(nodes: Seq<NodeView>)
    ensures
        definitions(nodes).len() <= nodes.len(),
{
    lemma_gather_len(places(nodes.len()), definition_fn(nodes));
}

fn make_row(
    nodes: &[ResolverNode],
    edges: &[QueryEdge],
    links: &Vec<Link>,
    adj: &Vec<Vec<usize>>,
    at: &Vec<usize>,
    key: &(String, String),
    Ghost(all): Ghost<Seq<Tie>>,
) -> (r: SymbolFingerprint)
    requires
        hoods_fit(node_views(nodes@), all),
        2 * edges.len() <= usize::MAX,
        links.len() <= edges.len(),
        links_fit(links@, nodes@.len(), edges@.len()),
        all == link_ties(links@, query_views(edges@)),
        adj.len() == nodes.len(),
        forall|v: int| 0 <= v < adj.len() ==> (#[trigger] adj@[v])@ == touching_places(all, v as usize),
        at@ == members(node_views(nodes@), (key.0@, key.1@)),
        at.len() > 0,
    ensures
        is_fingerprint(r.deep_view(), node_views(nodes@), all),
        r.qualified_name@ == key.0@,
        r.file_path@ == key.1@,
{
    let ghost nv = node_views(nodes@);
    let ghost kinds = kinds_of(nv);
    let ghost av = at@;
    let n_nodes: usize = nodes.len();
    proof {
        assert(nv.len() == n_nodes);
        lemma_members(nv, (key.0@, key.1@));
        lemma_total_ties(all, av);
        lemma_total_names(all, av);
    }
    let ghost want_kinds = Seq::new(av.len(), |i: int| nv[av[i] as int].node_type);
    let mut hashes: Vec<u64> = Vec::new();
    let mut own_kinds: Vec<String> = Vec::new();
    let mut edge_count: usize = 0;
    let mut name_edge_count: usize = 0;
    assert(av.take(0) =~= Seq::empty());
    let mut i: usize = 0;
    while i < at.len()
        invariant
            i <= at.len(),
            hoods_fit(nv, all),
            2 * edges.len() <= usize::MAX,
            nv == node_views(nodes@),
            kinds == kinds_of(nv),
            av == at@,
            all.len() <= edges.len(),
            links_fit(links@, nodes@.len(), edges@.len()),
            all == link_ties(links@, query_views(edges@)),
            adj.len() == nodes.len(),
            forall|v: int| 0 <= v < adj.len() ==> (#[trigger] adj@[v])@ == touching_places(all, v as usize),
            forall|k: int| 0 <= k < av.len() ==> #[trigger] av[k] < nodes.len() && is_definition(nv[av[k] as int]),
            nv.len() == nodes.len(),
            total_ties(all, av) <= 2 * all.len(),
            total_names(all, av) <= total_ties(all, av),
            want_kinds == Seq::new(av.len(), |i: int| nv[av[i] as int].node_type),
            hashes.len() == i,
            forall|k: int| 0 <= k < i ==> is_hood_hash(kinds, all, av[k], #[trigger] hashes@[k]),
            own_kinds.deep_view() == want_kinds.take(i as int),
            edge_count == total_ties(all, av.take(i as int)),
            name_edge_count == total_names(all, av.take(i as int)),
        decreases at.len() - i,
    {
        let c: usize = at[i];
        assert(av[i as int] < nodes.len());
        assert(hood_fits(all, c));
        assert(adj@[c as int]@ == touching_places(all, c));
        let m = make_member(nodes, edges, links, &adj[c], c, Ghost(all));
        proof {
            lemma_take_next(av, i as int);
            lemma_take_next(want_kinds, i as int);
            lemma_total_monotone(all, av, i + 1);
        }
        hashes.push(m.hash);
        assert(nv[c as int].node_type == nodes[c as int].node_type@);
        put(&mut own_kinds, nodes[c].node_type.as_str().to_owned());
        edge_count += m.ties;
        name_edge_count += m.names;
        i += 1;
    }
    assert(av.take(i as int) =~= av);
    assert(want_kinds.take(i as int) =~= want_kinds);
    assert(are_hood_hashes(kinds, all, av, hashes@));
    let hash = combine(hashes);
    let list = sort_distinct(own_kinds);
    let node_type = join_texts(&list, "+");
    assert(is_distinct_sorted::<String>(want_kinds, list.deep_view()));
    SymbolFingerprint {
        qualified_name: key.0.as_str().to_owned(),
        file_path: key.1.as_str().to_owned(),
        node_type,
        hash,
        edge_count,
        name_edge_count,
    }
}

fn find_definitions(nodes: &[ResolverNode]) -> (r: (Vec<usize>, Vec<(String, String)>))
    ensures
        r.0@ == definitions(node_views(nodes@)),
        r.1.deep_view() == definition_keys(node_views(nodes@)),
{
    let ghost nv = node_views(nodes@);
    let ghost ps = places(nv.len());
    let ghost f = definition_fn(nv);
    let mut at: Vec<usize> = Vec::new();
    let mut keys: Vec<(String, String)> = Vec::new();
    assert(ps.take(0) =~= Seq::empty());
    let mut i: usize = 0;
    while i < nodes.len()
        invariant
            i <= nodes.len(),
            nv == node_views(nodes@),
            ps == places(nv.len()),
            f == definition_fn(nv),
            at@ == gather(ps.take(i as int), f),
            keys.deep_view() == Seq::new(at@.len(), |k: int| symbol_key(nv[at@[k] as int])),
        decreases nodes.len() - i,
    {
        proof {
            lemma_take_next(ps, i as int);
        }
        let n = &nodes[i];
        assert(nv[i as int] == n.deep_view());
        if !same_text(n.node_type.as_str(), "import") && !same_text(n.node_type.as_str(), "macro_call") {
            at.push(i);
            let key: (String, String) = (n.qualified_name.as_str().to_owned(), n.file_path.as_str().to_owned());
            assert(key.deep_view() == symbol_key(nv[i as int]));
            put(&mut keys, key);
            assert(keys.deep_view() =~= Seq::new(at@.len(), |k: int| symbol_key(nv[at@[k] as int])));
        }
        i += 1;
    }
    assert(ps.take(i as int) =~= ps);
    (at, keys)
}

/// The fingerprints of all symbols, in the order of their keys.
pub fn compute_fingerprints(nodes: &[ResolverNode], edges: &[QueryEdge]) -> (r: Vec<SymbolFingerprint>)
    requires
        is_numberable(node_views(nodes@), query_views(edges@)),
        2 * edges.len() <= usize::MAX,
    ensures
        lists_fingerprints(r.deep_view(), node_views(nodes@), query_views(edges@)),
{
    let ghost nv = node_views(nodes@);
    let ghost all = ties(nv, query_views(edges@));
    let n_nodes: usize = nodes.len();
    proof {
        assert(nv.len() == n_nodes);
        lemma_hoods_fit(nv, query_views(edges@));
    }
    let links = find_links(nodes, edges);
    assert(all.len() == links.len());
    assert forall|i: int| 0 <= i < links.len() implies (#[trigger] all[i]).0 == links@[i].from && all[i].1 == links@[i].to by {
        assert(all[i] == link_ties(links@, query_views(edges@))[i]);
    }
    let adj = adjacency(&links, n_nodes, Ghost(all));
    let (defs, keys) = find_definitions(nodes);
    let ghost kv = keys.deep_view();
    let mut copies: Vec<(String, String)> = Vec::new();
    let mut c: usize = 0;
    while c < keys.len()
        invariant
            c <= keys.len(),
            kv == keys.deep_view(),
            copies.deep_view() == kv.take(c as int),
        decreases keys.len() - c,
    {
        proof {
            lemma_take_next(kv, c as int);
        }
        let key: (String, String) = (keys[c].0.as_str().to_owned(), keys[c].1.as_str().to_owned());
        assert(key.deep_view() == keys@[c as int].deep_view());
        put(&mut copies, key);
        c += 1;
    }
    assert(kv.take(c as int) =~= kv);
    let distinct = sort_distinct(copies);
    let ghost dv = distinct.deep_view();
    let index = SortedIndex::build(keys);
    let mut rows: Vec<SymbolFingerprint> = Vec::new();
    let mut i: usize = 0;
    while i < distinct.len()
        invariant
            i <= distinct.len(),
            hoods_fit(nv, all),
            2 * edges.len() <= usize::MAX,
            nv == node_views(nodes@),
            nv.len() <= usize::MAX,
            kv == definition_keys(nv),
            dv == distinct.deep_view(),
            is_distinct_sorted::<(String, String)>(kv, dv),
            index.wf(),
            index.keys() == kv,
            defs@ == definitions(nv),
            links.len() <= edges.len(),
            links_fit(links@, nodes@.len(), edges@.len()),
            all == link_ties(links@, query_views(edges@)),
            adj.len() == nodes.len(),
            forall|v: int| 0 <= v < adj.len() ==> (#[trigger] adj@[v])@ == touching_places(all, v as usize),
            rows.len() == i,
            forall|k: int| 0 <= k < i ==> is_fingerprint((#[trigger] rows@[k]).deep_view(), nv, all),
            forall|k: int| 0 <= k < i ==> ((#[trigger] rows@[k]).qualified_name@, rows@[k].file_path@) == dv[k],
        decreases distinct.len() - i,
    {
        let key = &distinct[i];
        assert(dv[i as int] == (key.0@, key.1@));
        assert(key.deep_view() == (key.0@, key.1@));
        let q = index.places(key);
        proof {
            lemma_definitions_len(nv);
            lemma_places_of(kv, (key.0@, key.1@));
            lemma_members(nv, (key.0@, key.1@));
            assert(dv.contains(dv[i as int]));
            assert(kv.contains((key.0@, key.1@)));
        }
        let mut at: Vec<usize> = Vec::new();
        let mut j: usize = 0;
        while j < q.len()
            invariant
                j <= q.len(),
                defs@ == definitions(nv),
                q@ == places_of(kv, (key.0@, key.1@)),
                kv.len() == defs.len(),
                forall|x: int| 0 <= x < q.len() ==> #[trigger] q@[x] < kv.len(),
                at.len() == j,
                forall|x: int| 0 <= x < j ==> #[trigger] at@[x] == defs@[q@[x] as int],
            decreases q.len() - j,
        {
            assert(q@[j as int] < kv.len());
            at.push(defs[q[j]]);
            j += 1;
        }
        assert(at@ =~= members(nv, (key.0@, key.1@)));
        let row = make_row(nodes, edges, &links, &adj, &at, key, Ghost(all));
        rows.push(row);
        i += 1;
    }
    proof {
        let rv = rows.deep_view();
        assert(row_keys(rv) =~= dv) by {
            assert forall|k: int| 0 <= k < rv.len() implies row_keys(rv)[k] == dv[k] by {
                assert(rv[k] == rows@[k].deep_view());
            }
        }
        assert forall|k: int| 0 <= k < rv.len() implies is_fingerprint(#[trigger] rv[k], nv, all) by {
            assert(rv[k] == rows@[k].deep_view());
        }
    }
    rows
}

} // verus!
