//! Chains and what the queries report: a finding has its chain, and a chain its
//! finding.

use vstd::prelude::*;

use crate::gather::{gather, lemma_flatten_has, lemma_flatten_member, lemma_gather_member};
use crate::graph::dependencies::{
    dependency_group, dependency_walk, is_definition_of, is_stale, live_of, may_mean, nodes_at, stale_fn,
};
use crate::graph::explain::chains::{
    candidate_claims, dependent_chain, dependent_chain_fn, edge_claim, hop_claims, key_of, live_places, place_fn, refusal_chain, refusal_chain_fn,
    refusal_claims, refused_key_fn, refused_keys, stale_chain, stale_chain_fn, stale_claims, stale_key_fn, stale_keys,
    symbol_chains,
};
use crate::graph::explain::depth::lemma_defines;
use crate::graph::explain::laws::fits;
use crate::graph::explain::rows::{definition_fn, key_tuple, GraphRows};
use crate::graph::explain::{ChainView, FactView, FindingKind, KeyView, MembershipView, EXPLAIN_DEPTH};
use crate::graph::paths::{
    group_items_are_distances, hops_to, is_route, leads_over, lemma_parent, lemma_place_within, paths_are_routes,
    paths_from, reverse_paths, PathView,
};
use crate::graph::walk::lemma_walk;
use crate::graph::web::{
    ambiguous_fn, ambiguous_hits, claims, in_hit_fn, lemma_links_within, links, places, root_fn, roots_of, slot_fn,
    slot_ids, slots, Hit, QueryEdgeView, Way,
};
use crate::index::resolve::indices::{ids, place_of_id};
use crate::index::resolve::names::{bare, normalized};
use crate::index::resolve::NodeView;
use crate::lookup::{lemma_places_of, places_of};
use crate::order::lemma_sorted;

verus! {

/// Nodes with one id are one node, told twice.
pub open spec fn ids_tell_nodes(g: GraphRows) -> bool {
    forall|i: int, j: int|
        0 <= i < g.nodes.len() && 0 <= j < g.nodes.len() && (#[trigger] g.nodes[i]).node_id == (
        #[trigger] g.nodes[j]).node_id ==> g.nodes[i] == g.nodes[j]
}

/// The subject is a bare name, without qualifiers.
pub open spec fn is_bare(subject: Seq<char>) -> bool {
    bare(normalized(subject)) == subject
}

/// The fact is about the reference with that key.
pub open spec fn is_about(fact: FactView, key: KeyView) -> bool {
    match fact {
        FactView::EdgeExists { key: k, .. } => k == key,
        _ => false,
    }
}

/// A step of the chain is about the reference with that key.
pub open spec fn shows(c: ChainView, key: KeyView) -> bool {
    exists|s: int| 0 <= s < c.steps.len() && is_about((#[trigger] c.steps[s]).fact, key)
}

/// Among the chains is one of that kind about the reference.
pub open spec fn is_explained(chains: Seq<ChainView>, finding: FindingKind, key: KeyView) -> bool {
    exists|c: int| 0 <= c < chains.len() && (#[trigger] chains[c]).finding == finding && shows(chains[c], key)
}

/// Two lists of definitions with the same members decide alike.
proof fn lemma_same_stale(
    raw: Seq<char>,
    to_type: Seq<char>,
    language: Seq<char>,
    name: Seq<char>,
    a: Seq<NodeView>,
    b: Seq<NodeView>,
)
    requires
        forall|n: NodeView| #[trigger] a.contains(n) ==> b.contains(n),
        b.len() > 0 ==> a.len() > 0,
        is_stale(raw, to_type, language, name, a),
    ensures
        is_stale(raw, to_type, language, name, b),
{
    if b.len() > 0 {
        let i = choose|i: int| 0 <= i < a.len() && may_mean(#[trigger] a[i], normalized(raw), to_type, language);
        assert(a.contains(a[i]));
        let j = choose|j: int| 0 <= j < b.len() && b[j] == a[i];
        assert(may_mean(b[j], normalized(raw), to_type, language));
    }
}

/// The definitions that a chain names are those that the scan matches against.
proof fn lemma_same_live(g: GraphRows, subject: Seq<char>)
    requires
        fits(g),
        ids_tell_nodes(g),
        is_bare(subject),
    ensures
        ({
            let nv = g.resolver_nodes();
            let a = nodes_at(nv, live_places(g, subject));
            let b = live_of(nv, subject);
            &&& forall|n: NodeView| #[trigger] a.contains(n) <==> b.contains(n)
            &&& a.len() == 0 <==> b.len() == 0
        }),
{
    let nv = g.resolver_nodes();
    let at = live_places(g, subject);
    let roots = roots_of(nv, is_definition_of(subject));
    let a = nodes_at(nv, at);
    let b = live_of(nv, subject);
    let df = definition_fn(subject);
    let pf = place_fn(g);
    let found = gather(g.nodes, df);
    let live = g.live_definitions(subject);
    let all = places(nv.len());
    let rf = root_fn(nv, is_definition_of(subject));
    lemma_sorted::<String>(found);
    assert forall|n: NodeView| #[trigger] a.contains(n) implies b.contains(n) by {
        let k = choose|k: int| 0 <= k < a.len() && a[k] == n;
        let p = at[k];
        assert(at.contains(p));
        lemma_gather_member(live, pf, p);
        let x = choose|x: int| 0 <= x < live.len() && pf(#[trigger] live[x]) == Some(p);
        lemma_place_within(nv, live[x]);
        assert(live.contains(live[x]));
        lemma_same_members(found, live, live[x]);
        lemma_gather_member(g.nodes, df, live[x]);
        let j = choose|j: int| 0 <= j < g.nodes.len() && df(#[trigger] g.nodes[j]) == Some(live[x]);
        assert(g.nodes[p as int].node_id == live[x]);
        assert(g.nodes[p as int] == g.nodes[j]);
        assert(all[p as int] == p);
        assert(rf(all[p as int]) == Some(p));
        lemma_gather_member(all, rf, p);
        assert(roots.contains(p));
        let y = choose|y: int| 0 <= y < roots.len() && roots[y] == p;
        assert(b[y] == n);
    }
    assert forall|n: NodeView| #[trigger] b.contains(n) implies a.contains(n) by {
        let y = choose|y: int| 0 <= y < b.len() && b[y] == n;
        let r = roots[y];
        assert(roots.contains(r));
        lemma_gather_member(all, rf, r);
        let z = choose|z: int| 0 <= z < all.len() && rf(#[trigger] all[z]) == Some(r);
        assert(all[z] == r);
        let id = g.nodes[r as int].node_id;
        assert(df(g.nodes[r as int]) == Some(id));
        lemma_gather_member(g.nodes, df, id);
        lemma_same_members(found, live, id);
        assert(live.contains(id));
        let x = choose|x: int| 0 <= x < live.len() && live[x] == id;
        lemma_places_of(ids(nv), id);
        assert(ids(nv)[r as int] == id);
        assert(places_of(ids(nv), id).contains(r));
        lemma_place_within(nv, id);
        let p = place_of_id(nv, id)->0 as usize;
        assert(pf(live[x]) == Some(p));
        lemma_gather_member(live, pf, p);
        assert(at.contains(p));
        let k = choose|k: int| 0 <= k < at.len() && at[k] == p;
        assert(g.nodes[p as int].node_id == g.nodes[r as int].node_id);
        assert(a[k] == n);
    }
    if a.len() > 0 {
        assert(a.contains(a[0]));
    }
    if b.len() > 0 {
        assert(b.contains(b[0]));
    }
}

/// What is sorted holds what was given.
proof fn lemma_same_members<A>(s: Seq<A>, t: Seq<A>, x: A)
    requires
        s.to_multiset() == t.to_multiset(),
    ensures
        s.contains(x) <==> t.contains(x),
{
    broadcast use vstd::seq_lib::group_to_multiset_ensures;

    assert(s.contains(x) <==> s.to_multiset().count(x) > 0);
    assert(t.contains(x) <==> t.to_multiset().count(x) > 0);
}

/// The only reference with the key of a reference is that one.
proof fn lemma_only(g: GraphRows, i: int)
    requires
        fits(g),
        0 <= i < g.edges.len(),
        g.edge(g.edges[i].key) is Some,
    ensures
        g.edge(g.edges[i].key) == Some(g.edges[i]),
        forall|j: int| 0 <= j < g.edges.len() && (#[trigger] g.edges[j]).key == g.edges[i].key ==> j == i,
{
    let t = key_tuple(g.edges[i].key);
    let q = places_of(g.keys(), t);
    lemma_places_of(g.keys(), t);
    assert(g.keys()[i] == t);
    assert(q.contains(i as usize));
    assert forall|j: int| 0 <= j < g.edges.len() && (#[trigger] g.edges[j]).key == g.edges[i].key implies j == i by {
        assert(g.keys()[j] == t);
        assert(q.contains(j as usize));
    }
}

/// The reference that is found by a key has it.
proof fn lemma_found(g: GraphRows, key: KeyView)
    requires
        fits(g),
    ensures
        g.edge(key) matches Some(e) ==> e.key == key,
{
    let q = places_of(g.keys(), key_tuple(key));
    lemma_places_of(g.keys(), key_tuple(key));
    if q.len() == 1 {
        assert(g.keys()[q[0] as int] == key_tuple(key));
    }
}

/// A chain comes from a key or a path, as its kind tells.
proof fn lemma_comes_from(
    g: GraphRows,
    project_id: Seq<char>,
    subject: Seq<char>,
    membership: MembershipView,
    x: int,
)
    requires
        0 <= x < symbol_chains(g, project_id, subject, membership).len(),
    ensures
        ({
            let c = symbol_chains(g, project_id, subject, membership)[x];
            let sk = stale_keys(g, subject);
            let rk = refused_keys(g, subject);
            let ps = reverse_paths(g.resolver_nodes(), g.query_edges(), subject, EXPLAIN_DEPTH);
            match c.finding {
                FindingKind::StaleReference => exists|k: int|
                    0 <= k < sk.len() && stale_chain_fn(g, project_id, subject, membership)(#[trigger] sk[k]) == Some(c),
                FindingKind::AmbiguousRefusal => exists|k: int|
                    0 <= k < rk.len() && refusal_chain_fn(g, project_id, subject)(#[trigger] rk[k]) == Some(c),
                FindingKind::Dependent => exists|k: int|
                    0 <= k < ps.len() && dependent_chain_fn(g, project_id, subject)(#[trigger] ps[k]) == Some(c),
            }
        }),
{
    let sk = stale_keys(g, subject);
    let sf = stale_chain_fn(g, project_id, subject, membership);
    let rk = refused_keys(g, subject);
    let rf = refusal_chain_fn(g, project_id, subject);
    let ps = reverse_paths(g.resolver_nodes(), g.query_edges(), subject, EXPLAIN_DEPTH);
    let pf = dependent_chain_fn(g, project_id, subject);
    let a = gather(sk, sf);
    let b = gather(rk, rf);
    let d = gather(ps, pf);
    let c = symbol_chains(g, project_id, subject, membership)[x];
    if x < a.len() {
        assert(a[x] == c);
        assert(a.contains(c));
        lemma_gather_member(sk, sf, c);
        let k = choose|k: int| 0 <= k < sk.len() && sf(#[trigger] sk[k]) == Some(c);
        assert(c.finding == FindingKind::StaleReference);
    } else if x < a.len() + b.len() {
        assert(b[x - a.len()] == c);
        assert(b.contains(c));
        lemma_gather_member(rk, rf, c);
        let k = choose|k: int| 0 <= k < rk.len() && rf(#[trigger] rk[k]) == Some(c);
        assert(c.finding == FindingKind::AmbiguousRefusal);
    } else {
        assert(d[x - a.len() - b.len()] == c);
        assert(d.contains(c));
        lemma_gather_member(ps, pf, c);
        let k = choose|k: int| 0 <= k < ps.len() && pf(#[trigger] ps[k]) == Some(c);
        assert(c.finding == FindingKind::Dependent);
    }
}

/// The scan reports a reference exactly where it is among those that are
/// explained as stale.
proof fn lemma_same_report(g: GraphRows, subject: Seq<char>, i: int)
    requires
        fits(g),
        ids_tell_nodes(g),
        is_bare(subject),
        0 <= i < g.edges.len(),
    ensures
        stale_fn(g.resolver_nodes(), bare(normalized(subject)), live_of(g.resolver_nodes(), subject))(g.query_edges()[i]) is Some
            <==> stale_key_fn(g, subject)(g.edges[i]) is Some,
{
    let e = g.edges[i];
    let nv = g.resolver_nodes();
    let a = nodes_at(nv, live_places(g, subject));
    let b = live_of(nv, subject);
    lemma_same_live(g, subject);
    lemma_place_within(nv, e.key.from_id);
    if let Some(p) = place_of_id(nv, e.key.from_id) {
        let language = nv[p].language;
        if is_stale(e.key.to_name, e.key.to_type, language, subject, a) {
            lemma_same_stale(e.key.to_name, e.key.to_type, language, subject, a, b);
        }
        if is_stale(e.key.to_name, e.key.to_type, language, subject, b) {
            lemma_same_stale(e.key.to_name, e.key.to_type, language, subject, b, a);
        }
    }
}

/// The chain of a stale reference is about the reference with its key, and about
/// no other.
proof fn lemma_stale_shows(
    g: GraphRows,
    project_id: Seq<char>,
    subject: Seq<char>,
    membership: MembershipView,
    of: KeyView,
    key: KeyView,
)
    requires
        fits(g),
        stale_chain(g, project_id, subject, membership, of) is Some,
    ensures
        shows(stale_chain(g, project_id, subject, membership, of)->0, key) <==> of == key,
{
    let c = stale_chain(g, project_id, subject, membership, of)->0;
    lemma_found(g, of);
    let e = g.edge(of)->0;
    let said = stale_claims(g, subject, membership, e, g.node(e.key.from_id)->0);
    assert(said[3] == edge_claim(e));
    assert(c.steps.len() == said.len());
    assert(c.steps[3].fact == said[3]);
    if shows(c, key) {
        let s = choose|s: int| 0 <= s < c.steps.len() && is_about((#[trigger] c.steps[s]).fact, key);
        assert(c.steps[s].fact == said[s]);
        assert(s == 3);
    }
}

/// A reference that its key tells apart is explained as stale exactly where the
/// query on the subject, a bare name, reports it as stale.
pub proof fn a_stale_reference_is_explained_exactly_when_reported(
    g: GraphRows,
    project_id: Seq<char>,
    subject: Seq<char>,
    membership: MembershipView,
    i: int,
)
    requires
        fits(g),
        ids_tell_nodes(g),
        is_bare(subject),
        0 <= i < g.edges.len(),
        g.edge(g.edges[i].key) is Some,
    ensures
        is_explained(
            symbol_chains(g, project_id, subject, membership),
            FindingKind::StaleReference,
            g.edges[i].key,
        ) <==> stale_fn(g.resolver_nodes(), bare(normalized(subject)), live_of(g.resolver_nodes(), subject))(
            g.query_edges()[i],
        ) is Some,
{
    let key = g.edges[i].key;
    let t = key_tuple(key);
    let f = stale_key_fn(g, subject);
    let sk = stale_keys(g, subject);
    let sf = stale_chain_fn(g, project_id, subject, membership);
    let a = gather(sk, sf);
    let all = symbol_chains(g, project_id, subject, membership);
    lemma_same_report(g, subject, i);
    lemma_only(g, i);
    lemma_sorted::<(String, (String, (String, String)))>(gather(g.edges, f));
    lemma_gather_member(g.edges, f, t);
    lemma_same_members(gather(g.edges, f), sk, t);
    if f(g.edges[i]) is Some {
        assert(f(g.edges[i]) == Some(t));
        assert(sk.contains(t));
        let k = choose|k: int| 0 <= k < sk.len() && sk[k] == t;
        assert(key_of(t) == key);
        let c = stale_chain(g, project_id, subject, membership, key)->0;
        assert(sf(sk[k]) == Some(c));
        lemma_gather_member(sk, sf, c);
        assert(a.contains(c));
        let x = choose|x: int| 0 <= x < a.len() && a[x] == c;
        assert(all[x] == c);
        lemma_stale_shows(g, project_id, subject, membership, key, key);
        assert(shows(c, key));
    }
    if is_explained(all, FindingKind::StaleReference, key) {
        let x = choose|x: int|
            0 <= x < all.len() && (#[trigger] all[x]).finding == FindingKind::StaleReference && shows(all[x], key);
        let c = all[x];
        lemma_comes_from(g, project_id, subject, membership, x);
        let k = choose|k: int| 0 <= k < sk.len() && sf(#[trigger] sk[k]) == Some(c);
        lemma_stale_shows(g, project_id, subject, membership, key_of(sk[k]), key);
        assert(sk[k] == t);
        assert(sk.contains(t));
        let j = choose|j: int| 0 <= j < g.edges.len() && f(#[trigger] g.edges[j]) == Some(t);
        assert(g.edges[j].key == key);
        assert(j == i);
    }
}

// ---- refusals ---------------------------------------------------------------------------------

/// The walk backward from a definition of the subject comes by the reference,
/// as one that may mean the definition itself.
pub open spec fn is_refused(g: GraphRows, subject: Seq<char>, i: int) -> bool {
    exists|root: usize, from: usize|
        g.defines(root, subject) && #[trigger] comes_by(g, root, Hit { edge: i as usize, from, depth: 1 })
}

/// The hit is among those that the walk backward from a node reports.
pub open spec fn comes_by(g: GraphRows, root: usize, h: Hit) -> bool {
    let nv = g.resolver_nodes();
    let ev = g.query_edges();
    let order = dependency_walk(nv, ev, root, Way::Backward, EXPLAIN_DEPTH);
    ambiguous_hits(nv, ev, order, Way::Backward, EXPLAIN_DEPTH).contains(h)
}

/// The references that claim a node are the ambiguous ones with the node among
/// their candidates.
proof fn lemma_claims(edges: Seq<QueryEdgeView>, id: Seq<char>, i: int)
    requires
        edges.len() <= usize::MAX,
        slots(edges).len() <= usize::MAX,
        0 <= i < edges.len(),
    ensures
        claims(edges, id).contains(i as usize) <==> edges[i].confidence == "AMBIGUOUS"@ && edges[i].candidates.contains(id),
{
    let all = places(edges.len());
    let f = slot_fn(edges);
    let sl = slots(edges);
    let q = places_of(slot_ids(edges), id);
    let cl = claims(edges, id);
    lemma_places_of(slot_ids(edges), id);
    if cl.contains(i as usize) {
        let x = choose|x: int| 0 <= x < cl.len() && cl[x] == i as usize;
        let k = q[x] as int;
        assert(slot_ids(edges)[k] == id);
        lemma_flatten_member(all, f, k);
        let j = choose|j: int| 0 <= j < all.len() && f(#[trigger] all[j]).contains(sl[k]);
        let list = f(all[j]);
        let y = choose|y: int| 0 <= y < list.len() && list[y] == sl[k];
        assert(all[j] == i as usize);
        assert(edges[i].candidates[y] == id);
    }
    if edges[i].confidence == "AMBIGUOUS"@ && edges[i].candidates.contains(id) {
        let y = choose|y: int| 0 <= y < edges[i].candidates.len() && edges[i].candidates[y] == id;
        assert(all[i] == i as usize);
        assert(f(all[i])[y] == (id, i as usize));
        assert(f(all[i]).contains((id, i as usize)));
        lemma_flatten_has(all, f, i, (id, i as usize));
        let k = choose|k: int| 0 <= k < sl.len() && sl[k] == (id, i as usize);
        assert(slot_ids(edges)[k] == id);
        assert(q.contains(k as usize));
        let x = choose|x: int| 0 <= x < q.len() && q[x] == k as usize;
        assert(cl[x] == i as usize);
    }
}

/// A walk comes by a reference at depth 1 exactly where the reference claims
/// the root and stands in a known node.
proof fn lemma_comes_by(g: GraphRows, root: usize, i: int, from: usize)
    requires
        fits(g),
        slots(g.query_edges()).len() <= usize::MAX,
        root < g.nodes.len(),
        0 <= i < g.edges.len(),
    ensures
        comes_by(g, root, Hit { edge: i as usize, from, depth: 1 }) <==> {
            &&& g.edges[i].confidence == "AMBIGUOUS"@
            &&& g.edges[i].candidates.contains(g.nodes[root as int].node_id)
            &&& place_of_id(g.resolver_nodes(), g.edges[i].key.from_id) == Some(from as int)
        },
{
    let nv = g.resolver_nodes();
    let ev = g.query_edges();
    let id = nv[root as int].id;
    let order = dependency_walk(nv, ev, root, Way::Backward, EXPLAIN_DEPTH);
    let f = ambiguous_fn(nv, ev, Way::Backward, EXPLAIN_DEPTH);
    let hits = ambiguous_hits(nv, ev, order, Way::Backward, EXPLAIN_DEPTH);
    let h = Hit { edge: i as usize, from, depth: 1 };
    lemma_links_within(nv, ev, Way::Backward);
    lemma_walk(root, links(nv, ev, Way::Backward), EXPLAIN_DEPTH, nv.len());
    lemma_claims(ev, id, i);
    lemma_place_within(nv, g.edges[i].key.from_id);
    let at = claims(ev, id);
    let hf = in_hit_fn(nv, ev, order[0]);
    lemma_gather_member(at, hf, h);
    if hits.contains(h) {
        let k = choose|k: int| 0 <= k < hits.len() && hits[k] == h;
        lemma_flatten_member(order, f, k);
        let x = choose|x: int| 0 <= x < order.len() && f(#[trigger] order[x]).contains(h);
        let v = order[x];
        let vf = in_hit_fn(nv, ev, v);
        lemma_gather_member(claims(ev, nv[v.node as int].id), vf, h);
        let y = choose|y: int|
            0 <= y < claims(ev, nv[v.node as int].id).len() && vf(#[trigger] claims(ev, nv[v.node as int].id)[y]) == Some(h);
        assert(v.depth + 1 <= usize::MAX);
        assert(v.depth == 0);
        lemma_root_alone(g, root, x);
        assert(at[y] == i as usize);
        assert(at.contains(i as usize));
    }
    if g.edges[i].confidence == "AMBIGUOUS"@ && g.edges[i].candidates.contains(id) && place_of_id(
        nv,
        g.edges[i].key.from_id,
    ) == Some(from as int) {
        assert(at.contains(i as usize));
        let y = choose|y: int| 0 <= y < at.len() && at[y] == i as usize;
        assert(hf(at[y]) == Some(h));
        assert(f(order[0]).contains(h));
        lemma_flatten_has(order, f, 0, h);
    }
}

/// Only the root of a walk is at depth 0.
proof fn lemma_root_alone(g: GraphRows, root: usize, x: int)
    requires
        fits(g),
        root < g.nodes.len(),
        0 <= x < dependency_walk(g.resolver_nodes(), g.query_edges(), root, Way::Backward, EXPLAIN_DEPTH).len(),
        dependency_walk(g.resolver_nodes(), g.query_edges(), root, Way::Backward, EXPLAIN_DEPTH)[x].depth == 0,
    ensures
        x == 0,
{
    let nv = g.resolver_nodes();
    let ev = g.query_edges();
    let order = dependency_walk(nv, ev, root, Way::Backward, EXPLAIN_DEPTH);
    if x > 0 {
        lemma_parent(order, x, nv, ev, root, Way::Backward, EXPLAIN_DEPTH);
    }
}

/// A reference is listed as refused exactly where a walk comes by it as one
/// that may mean the definition it starts from.
proof fn lemma_same_refusal(g: GraphRows, subject: Seq<char>, i: int)
    requires
        fits(g),
        slots(g.query_edges()).len() <= usize::MAX,
        0 <= i < g.edges.len(),
        g.node(g.edges[i].key.from_id) is Some,
    ensures
        refused_key_fn(g.live_definitions(subject))(g.edges[i]) is Some <==> is_refused(g, subject, i),
{
    let e = g.edges[i];
    let nv = g.resolver_nodes();
    let df = definition_fn(subject);
    let found = gather(g.nodes, df);
    let live = g.live_definitions(subject);
    lemma_sorted::<String>(found);
    lemma_place_within(nv, e.key.from_id);
    let from = place_of_id(nv, e.key.from_id)->0 as usize;
    if refused_key_fn(live)(e) is Some {
        let k = choose|k: int| 0 <= k < e.candidates.len() && live.contains(#[trigger] e.candidates[k]);
        let id = e.candidates[k];
        lemma_same_members(found, live, id);
        lemma_gather_member(g.nodes, df, id);
        let r = choose|r: int| 0 <= r < g.nodes.len() && df(#[trigger] g.nodes[r]) == Some(id);
        let root = r as usize;
        assert(e.candidates.contains(id));
        lemma_comes_by(g, root, i, from);
        assert(g.defines(root, subject));
        assert(comes_by(g, root, Hit { edge: i as usize, from, depth: 1 }));
    }
    if is_refused(g, subject, i) {
        let (root, at) = choose|root: usize, at: usize|
            g.defines(root, subject) && #[trigger] comes_by(g, root, Hit { edge: i as usize, from: at, depth: 1 });
        lemma_comes_by(g, root, i, at);
        let id = g.nodes[root as int].node_id;
        assert(df(g.nodes[root as int]) == Some(id));
        lemma_gather_member(g.nodes, df, id);
        lemma_same_members(found, live, id);
        let k = choose|k: int| 0 <= k < e.candidates.len() && e.candidates[k] == id;
        assert(live.contains(e.candidates[k]));
    }
}

/// Where every candidate is a node, each has its claim.
proof fn lemma_candidates_claimed(g: GraphRows, candidates: Seq<Seq<char>>)
    requires
        forall|k: int| 0 <= k < candidates.len() ==> g.node(#[trigger] candidates[k]) is Some,
    ensures
        candidate_claims(g, candidates) is Some,
        forall|k: int|
            0 <= k < (candidate_claims(g, candidates)->0).len() ==> (#[trigger] (candidate_claims(g, candidates)->0)[k]) is NodeExists,
    decreases candidates.len(),
{
    if candidates.len() > 0 {
        let rest = candidates.drop_last();
        assert forall|k: int| 0 <= k < rest.len() implies g.node(#[trigger] rest[k]) is Some by {
            assert(rest[k] == candidates[k]);
        }
        assert(g.node(candidates[candidates.len() - 1]) is Some);
        lemma_candidates_claimed(g, rest);
    }
}

/// The claims of candidates are about nodes.
proof fn lemma_candidate_kinds(g: GraphRows, candidates: Seq<Seq<char>>)
    ensures
        candidate_claims(g, candidates) matches Some(claims) ==> forall|k: int|
            0 <= k < claims.len() ==> (#[trigger] claims[k]) is NodeExists,
    decreases candidates.len(),
{
    if candidates.len() > 0 {
        lemma_candidate_kinds(g, candidates.drop_last());
    }
}

/// The chain of a refusal is about the reference with its key, and about no
/// other.
proof fn lemma_refusal_shows(g: GraphRows, project_id: Seq<char>, subject: Seq<char>, of: KeyView, key: KeyView)
    requires
        fits(g),
        refusal_chain(g, project_id, subject, of) is Some,
    ensures
        shows(refusal_chain(g, project_id, subject, of)->0, key) <==> of == key,
{
    let c = refusal_chain(g, project_id, subject, of)->0;
    lemma_found(g, of);
    let e = g.edge(of)->0;
    let cands = candidate_claims(g, e.candidates)->0;
    let said = refusal_claims(g, subject, e, g.node(e.key.from_id)->0, cands);
    lemma_candidate_kinds(g, e.candidates);
    assert(said[2] == edge_claim(e));
    assert(c.steps.len() == said.len());
    assert(c.steps[2].fact == said[2]);
    if shows(c, key) {
        let s = choose|s: int| 0 <= s < c.steps.len() && is_about((#[trigger] c.steps[s]).fact, key);
        assert(c.steps[s].fact == said[s]);
        if 4 <= s < 4 + cands.len() {
            assert(said[s] == cands[s - 4]);
        }
        assert(s == 2);
    }
}

/// A refusal to choose, of a reference that its key tells apart and whose
/// candidates are known, is explained exactly where the walk from a definition
/// of the subject reports it as one that touches the definition itself.
pub proof fn a_refusal_is_explained_exactly_when_it_touches_the_symbol(
    g: GraphRows,
    project_id: Seq<char>,
    subject: Seq<char>,
    membership: MembershipView,
    i: int,
)
    requires
        fits(g),
        slots(g.query_edges()).len() <= usize::MAX,
        0 <= i < g.edges.len(),
        g.edge(g.edges[i].key) is Some,
        forall|k: int| 0 <= k < g.edges[i].candidates.len() ==> g.node(#[trigger] g.edges[i].candidates[k]) is Some,
    ensures
        is_explained(
            symbol_chains(g, project_id, subject, membership),
            FindingKind::AmbiguousRefusal,
            g.edges[i].key,
        ) <==> is_refused(g, subject, i),
{
    let e = g.edges[i];
    let key = e.key;
    let t = key_tuple(key);
    let live = g.live_definitions(subject);
    let f = refused_key_fn(live);
    let sk = stale_keys(g, subject);
    let sf = stale_chain_fn(g, project_id, subject, membership);
    let rk = refused_keys(g, subject);
    let rf = refusal_chain_fn(g, project_id, subject);
    let a = gather(sk, sf);
    let b = gather(rk, rf);
    let all = symbol_chains(g, project_id, subject, membership);
    lemma_only(g, i);
    lemma_sorted::<(String, (String, (String, String)))>(gather(g.edges, f));
    lemma_gather_member(g.edges, f, t);
    lemma_same_members(gather(g.edges, f), rk, t);
    lemma_candidates_claimed(g, e.candidates);
    if is_refused(g, subject, i) {
        let (root, at) = choose|root: usize, at: usize|
            g.defines(root, subject) && #[trigger] comes_by(g, root, Hit { edge: i as usize, from: at, depth: 1 });
        lemma_comes_by(g, root, i, at);
        lemma_place_within(g.resolver_nodes(), key.from_id);
        lemma_same_refusal(g, subject, i);
        assert(f(g.edges[i]) == Some(t));
        assert(rk.contains(t));
        let k = choose|k: int| 0 <= k < rk.len() && rk[k] == t;
        assert(key_of(t) == key);
        let c = refusal_chain(g, project_id, subject, key)->0;
        assert(rf(rk[k]) == Some(c));
        lemma_gather_member(rk, rf, c);
        assert(b.contains(c));
        let x = choose|x: int| 0 <= x < b.len() && b[x] == c;
        assert(all[a.len() + x] == c);
        lemma_refusal_shows(g, project_id, subject, key, key);
        assert(is_explained(all, FindingKind::AmbiguousRefusal, key));
    }
    if is_explained(all, FindingKind::AmbiguousRefusal, key) {
        let x = choose|x: int|
            0 <= x < all.len() && (#[trigger] all[x]).finding == FindingKind::AmbiguousRefusal && shows(all[x], key);
        let c = all[x];
        lemma_comes_from(g, project_id, subject, membership, x);
        let k = choose|k: int| 0 <= k < rk.len() && rf(#[trigger] rk[k]) == Some(c);
        lemma_refusal_shows(g, project_id, subject, key_of(rk[k]), key);
        assert(rk[k] == t);
        assert(rk.contains(t));
        let j = choose|j: int| 0 <= j < g.edges.len() && f(#[trigger] g.edges[j]) == Some(t);
        assert(g.edges[j].key == key);
        assert(j == i);
        lemma_same_refusal(g, subject, i);
    }
}

// ---- dependents -------------------------------------------------------------------------------

/// No two references have one key.
pub open spec fn keys_tell_references(g: GraphRows) -> bool {
    forall|i: int| 0 <= i < g.edges.len() ==> g.edge((#[trigger] g.edges[i]).key) is Some
}

/// The fact is about the node with that id.
pub open spec fn is_node(fact: FactView, id: Seq<char>) -> bool {
    match fact {
        FactView::NodeExists(n) => n.node_id == id,
        _ => false,
    }
}

/// The chain leads from one node to another: its second step is about the one,
/// its last about the other.
pub open spec fn leads_to(c: ChainView, root_id: Seq<char>, id: Seq<char>) -> bool {
    &&& c.finding == FindingKind::Dependent
    &&& c.steps.len() > 2
    &&& is_node(c.steps[1].fact, root_id)
    &&& is_node(c.steps.last().fact, id)
}

/// The node is reported as a dependent of a definition of the subject.
pub open spec fn is_dependent(g: GraphRows, subject: Seq<char>, root_id: Seq<char>, id: Seq<char>) -> bool {
    exists|root: usize, k: int|
        g.defines(root, subject) && g.nodes[root as int].node_id == root_id && #[trigger] is_item(g, root, k, id)
}

/// The item at place `k` of a definition's group is the node with that id.
pub open spec fn is_item(g: GraphRows, root: usize, k: int, id: Seq<char>) -> bool {
    let items = dependency_group(g.resolver_nodes(), g.query_edges(), root, Way::Backward, EXPLAIN_DEPTH, true).items;
    0 <= k < items.len() && items[k].node_id == id
}

/// The claims of a route end with the node that it leads to.
proof fn lemma_hops_end(g: GraphRows, root: usize, hops: Seq<usize>, end: usize)
    requires
        fits(g),
        is_route(g.resolver_nodes(), g.query_edges(), root, hops, end),
        hops.len() > 0,
    ensures
        hop_claims(g, hops) matches Some(said) ==> said.len() > 0 && is_node(said.last(), g.nodes[end as int].node_id),
{
    let nv = g.resolver_nodes();
    let ev = g.query_edges();
    let u = choose|u: usize|
        is_route(nv, ev, root, hops.drop_last(), u) && #[trigger] leads_over(nv, ev, hops.last(), u, end, Way::Backward);
    lemma_place_within(nv, ev[hops.last() as int].from_id);
    if hop_claims(g, hops) is Some {
        let key = g.edges[hops.last() as int].key;
        lemma_found(g, key);
        lemma_place_within(nv, key.from_id);
    }
}

/// Where keys tell references, every hop of a route has its claims.
proof fn lemma_hops_claimed(g: GraphRows, root: usize, hops: Seq<usize>, end: usize)
    requires
        fits(g),
        keys_tell_references(g),
        is_route(g.resolver_nodes(), g.query_edges(), root, hops, end),
    ensures
        hop_claims(g, hops) is Some,
    decreases hops.len(),
{
    if hops.len() > 0 {
        let nv = g.resolver_nodes();
        let ev = g.query_edges();
        let u = choose|u: usize|
            is_route(nv, ev, root, hops.drop_last(), u) && #[trigger] leads_over(
                nv,
                ev,
                hops.last(),
                u,
                end,
                Way::Backward,
            );
        lemma_hops_claimed(g, root, hops.drop_last(), u);
        let at = hops.last() as int;
        assert(g.edge(g.edges[at].key) is Some);
        lemma_only(g, at);
        assert(place_of_id(nv, ev[at].from_id) == Some(end as int));
    }
}

/// The chain of a path leads from its root to its end.
proof fn lemma_path_chain(g: GraphRows, project_id: Seq<char>, subject: Seq<char>, root: usize, hops: Seq<usize>, end: usize)
    requires
        fits(g),
        root < g.nodes.len(),
        hops.len() > 0,
        is_route(g.resolver_nodes(), g.query_edges(), root, hops, end),
    ensures
        ({
            let path = PathView { root_node_id: g.nodes[root as int].node_id, hops };
            &&& keys_tell_references(g) ==> dependent_chain(g, project_id, subject, path) is Some
            &&& dependent_chain(g, project_id, subject, path) matches Some(c) ==> leads_to(
                c,
                g.nodes[root as int].node_id,
                g.nodes[end as int].node_id,
            )
        }),
{
    let nv = g.resolver_nodes();
    let id = g.nodes[root as int].node_id;
    let path = PathView { root_node_id: id, hops };
    lemma_places_of(ids(nv), id);
    assert(ids(nv)[root as int] == id);
    assert(places_of(ids(nv), id).contains(root));
    lemma_place_within(nv, id);
    lemma_hops_end(g, root, hops, end);
    if keys_tell_references(g) {
        lemma_hops_claimed(g, root, hops, end);
    }
    if dependent_chain(g, project_id, subject, path) is Some {
        let c = dependent_chain(g, project_id, subject, path)->0;
        let n = g.node(id)->0;
        let tail = hop_claims(g, hops)->0;
        let said = seq![FactView::ExplicitSymbolQuery { name: subject }, FactView::NodeExists(n)] + tail;
        assert(c.steps.len() == said.len());
        assert(c.steps[1].fact == said[1]);
        assert(c.steps[said.len() - 1].fact == said[said.len() - 1]);
        assert(said[said.len() - 1] == tail.last());
    }
}

/// The item of a group is the node that the walk visits.
proof fn lemma_item(g: GraphRows, root: usize, k: int)
    requires
        fits(g),
        root < g.nodes.len(),
        0 <= k < dependency_walk(g.resolver_nodes(), g.query_edges(), root, Way::Backward, EXPLAIN_DEPTH).len() - 1,
    ensures
        ({
            let order = dependency_walk(g.resolver_nodes(), g.query_edges(), root, Way::Backward, EXPLAIN_DEPTH);
            is_item(g, root, k, g.nodes[order[k + 1].node as int].node_id)
        }),
{
    let nv = g.resolver_nodes();
    let ev = g.query_edges();
    let order = dependency_walk(nv, ev, root, Way::Backward, EXPLAIN_DEPTH);
    lemma_links_within(nv, ev, Way::Backward);
    lemma_walk(root, links(nv, ev, Way::Backward), EXPLAIN_DEPTH, nv.len());
    assert(order[k + 1].node < nv.len());
}

/// A dependent is explained exactly where it is reported, given that keys tell
/// references apart: a chain leads from a definition of the subject to a node
/// exactly where the node is among the definition's dependents.
pub proof fn a_dependent_is_explained_exactly_when_reported(
    g: GraphRows,
    project_id: Seq<char>,
    subject: Seq<char>,
    membership: MembershipView,
    root_id: Seq<char>,
    id: Seq<char>,
)
    requires
        fits(g),
        keys_tell_references(g),
    ensures
        (exists|c: int|
            0 <= c < symbol_chains(g, project_id, subject, membership).len() && leads_to(
                #[trigger] symbol_chains(g, project_id, subject, membership)[c],
                root_id,
                id,
            )) <==> is_dependent(g, subject, root_id, id),
{
    let nv = g.resolver_nodes();
    let ev = g.query_edges();
    let all = symbol_chains(g, project_id, subject, membership);
    let ps = reverse_paths(nv, ev, subject, EXPLAIN_DEPTH);
    let pf = dependent_chain_fn(g, project_id, subject);
    let d = gather(ps, pf);
    let roots = roots_of(nv, is_definition_of(subject));
    let f = paths_from(nv, ev, EXPLAIN_DEPTH);
    if is_dependent(g, subject, root_id, id) {
        let (root, k) = choose|root: usize, k: int|
            g.defines(root, subject) && g.nodes[root as int].node_id == root_id && #[trigger] is_item(g, root, k, id);
        let order = dependency_walk(nv, ev, root, Way::Backward, EXPLAIN_DEPTH);
        group_items_are_distances(nv, ev, root, Way::Backward, EXPLAIN_DEPTH, true);
        lemma_item(g, root, k);
        paths_are_routes(nv, ev, root, EXPLAIN_DEPTH, k + 1);
        let hops = hops_to(order, k + 1);
        let path = PathView { root_node_id: root_id, hops };
        lemma_path_chain(g, project_id, subject, root, hops, order[k + 1].node);
        lemma_defines(g, subject, root);
        assert(roots.contains(root));
        let r = choose|r: int| 0 <= r < roots.len() && roots[r] == root;
        assert(f(root)[k] == path);
        assert(f(roots[r]).contains(path));
        lemma_flatten_has(roots, f, r, path);
        let x = choose|x: int| 0 <= x < ps.len() && ps[x] == path;
        let c = dependent_chain(g, project_id, subject, path)->0;
        assert(pf(ps[x]) == Some(c));
        lemma_gather_member(ps, pf, c);
        let y = choose|y: int| 0 <= y < d.len() && d[y] == c;
        assert(all[all.len() - d.len() + y] == c);
        assert(leads_to(all[all.len() - d.len() + y], root_id, id));
    }
    if exists|c: int| 0 <= c < all.len() && leads_to(#[trigger] all[c], root_id, id) {
        let x = choose|x: int| 0 <= x < all.len() && leads_to(#[trigger] all[x], root_id, id);
        let c = all[x];
        lemma_comes_from(g, project_id, subject, membership, x);
        let p = choose|p: int| 0 <= p < ps.len() && pf(#[trigger] ps[p]) == Some(c);
        lemma_flatten_member(roots, f, p);
        let r = choose|r: int| 0 <= r < roots.len() && f(#[trigger] roots[r]).contains(ps[p]);
        let root = roots[r];
        assert(roots.contains(root));
        lemma_defines(g, subject, root);
        let list = f(root);
        let k = choose|k: int| 0 <= k < list.len() && list[k] == ps[p];
        let order = dependency_walk(nv, ev, root, Way::Backward, EXPLAIN_DEPTH);
        group_items_are_distances(nv, ev, root, Way::Backward, EXPLAIN_DEPTH, true);
        lemma_item(g, root, k);
        paths_are_routes(nv, ev, root, EXPLAIN_DEPTH, k + 1);
        let hops = hops_to(order, k + 1);
        assert(ps[p] == PathView { root_node_id: g.nodes[root as int].node_id, hops });
        lemma_path_chain(g, project_id, subject, root, hops, order[k + 1].node);
        assert(is_item(g, root, k, id));
    }
}

} // verus!
