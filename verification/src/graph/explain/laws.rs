//! Laws of chains.

use vstd::prelude::*;

use crate::gather::{flatten, gather, lemma_flatten_member, lemma_gather_member};
use crate::graph::dependencies::{dependency_walk, is_definition_of};
use crate::graph::explain::chains::{
    candidate_claims, cascade_claim, chain_of, dependent_chain, dependent_chain_fn, edge_claim, hop_claim, hop_claims,
    live_claim, membership_claim, pool_claim, refusal_chain, refusal_chain_fn, refusal_claims, refused_keys, rule_claims,
    stale_chain, stale_chain_fn, stale_claims, stale_keys, symbol_chains, key_of,
};
use crate::graph::explain::check::{attempt_of, check, root_of, start_of, step_verdicts, verdict};
use crate::graph::explain::depth::{is_hop_at, is_hop_from, is_root, lemma_defines};
use crate::graph::explain::rows::{key_tuple, query_view, GraphRows};
use crate::graph::explain::{
    ChainView, EdgeRow, FactView, FindingKind, KeyView, MembershipView, NodeRow, StepView, EXPLAIN_DEPTH,
    EXPLAIN_VERSION,
};
use crate::graph::paths::{
    distinct_ids, hops_to, leads_over, lemma_parent, links_are_bound_references, parent_place, paths_are_routes, paths_from,
    reverse_paths, PathView,
};
use crate::graph::walk::{is_distance, leads, lemma_walk, walk_depth_is_distance};
use crate::graph::web::{lemma_links_within, links, roots_of, Way};
use crate::index::resolve::indices::ids;
use crate::index::resolve::laws::a_trace_names_each_rule_once;
use crate::index::resolve::AttemptView;
use crate::lookup::{lemma_places_of, places_of};
use crate::order::sorted;

verus! {

/// The rule is among those tried, with that outcome, and admits those nodes.
pub open spec fn tries(
    attempts: Seq<AttemptView>,
    rule: Seq<char>,
    hit_ids: Seq<Seq<char>>,
    outcome: Seq<char>,
    g: GraphRows,
) -> bool {
    exists|i: int|
        0 <= i < attempts.len() && (#[trigger] attempts[i]).rule == rule && attempts[i].outcome.tag() == outcome
            && g.ids_of(attempts[i].hits) == hit_ids
}

/// Does the graph bear out a fact of a chain with that subject and root?
#[verifier::opaque]
pub open spec fn holds(fact: FactView, subject: Seq<char>, root: Option<Seq<char>>, g: GraphRows) -> bool {
    match fact {
        FactView::ExplicitSymbolQuery { name } => name == subject,
        FactView::DeletionRecord(d) => g.deleted.contains(d) && d.name == subject,
        FactView::LiveDefinitions { name, node_ids } => node_ids == g.live_definitions(name),
        FactView::NodeExists(n) => g.node(n.node_id) == Some(n),
        FactView::EdgeExists { key, confidence, resolved_by, to_id, candidates } => {
            &&& g.edge(key) matches Some(e)
            &&& e.confidence == confidence
            &&& e.resolved_by == resolved_by
            &&& e.to_id == to_id
            &&& sorted::<String>(e.candidates) == candidates
        },
        FactView::CandidatePool { bare, to_type, language_family, node_ids } => node_ids == g.pool_ids(
            bare,
            to_type,
            language_family,
        ),
        FactView::RuleApplication { key, rule, hit_ids, outcome } => tries(
            g.rerun(key).1.attempts,
            rule,
            hit_ids,
            outcome,
            g,
        ),
        FactView::CascadeOutcome { key, outcome, attempted_rules } => {
            &&& g.rerun(key).1.outcome.tag() == outcome
            &&& g.rerun(key).1.rules() == attempted_rules
        },
        FactView::ResolvedHop { key, to_id, resolved_by, depth } => {
            &&& g.edge(key) matches Some(e)
            &&& e.confidence == "RESOLVED"@
            &&& e.to_id == to_id
            &&& e.resolved_by == resolved_by
            &&& g.node(to_id) is Some
            &&& is_hop_at(g, subject, root, key.from_id, to_id, depth)
        },
    }
}

/// The attempt of a rule that stands in a trace which names each rule once.
proof fn lemma_attempt_of(attempts: Seq<AttemptView>, i: int)
    requires
        0 <= i < attempts.len(),
        forall|a: int, b: int| 0 <= a < b < attempts.len() ==> (#[trigger] attempts[a]).rule != (#[trigger] attempts[b]).rule,
    ensures
        attempt_of(attempts, attempts[i].rule) == Some(attempts[i]),
    decreases attempts.len(),
{
    let rest = attempts.drop_last();
    assert forall|a: int, b: int| 0 <= a < b < rest.len() implies (#[trigger] rest[a]).rule != (#[trigger] rest[b]).rule by {
        assert(attempts[a].rule != attempts[b].rule);
    }
    if i < rest.len() {
        lemma_attempt_of(rest, i);
    } else {
        if attempt_of(rest, attempts[i].rule) is Some {
            lemma_attempt_found(rest, attempts[i].rule);
            let k = choose|k: int| 0 <= k < rest.len() && (#[trigger] rest[k]).rule == attempts[i].rule;
            assert(attempts[k].rule != attempts[i].rule);
        }
    }
}

proof fn lemma_attempt_found(attempts: Seq<AttemptView>, rule: Seq<char>)
    requires
        attempt_of(attempts, rule) is Some,
    ensures
        exists|i: int|
            0 <= i < attempts.len() && (#[trigger] attempts[i]).rule == rule && attempt_of(attempts, rule) == Some(
                attempts[i],
            ),
    decreases attempts.len(),
{
    let rest = attempts.drop_last();
    if attempt_of(rest, rule) is Some {
        lemma_attempt_found(rest, rule);
        let i = choose|i: int|
            0 <= i < rest.len() && (#[trigger] rest[i]).rule == rule && attempt_of(rest, rule) == Some(rest[i]);
        assert(attempts[i] == rest[i]);
    } else {
        assert(attempts[attempts.len() - 1].rule == rule);
    }
}

/// A fact passes its check exactly where the graph bears it out.
pub proof fn a_fact_passes_exactly_when_it_holds(
    fact: FactView,
    subject: Seq<char>,
    root: Option<Seq<char>>,
    g: GraphRows,
)
    ensures
        (check(fact, subject, root, g) is None) == holds(fact, subject, root, g),
{
    reveal(holds);
    match fact {
        FactView::RuleApplication { key, rule, hit_ids, outcome } => {
            let attempts = g.rerun(key).1.attempts;
            a_trace_names_each_rule_once(crate::graph::explain::rows::capture(key), g.resolver_nodes());
            if attempt_of(attempts, rule) is Some {
                lemma_attempt_found(attempts, rule);
            }
            if holds(fact, subject, root, g) {
                let i = choose|i: int|
                    0 <= i < attempts.len() && (#[trigger] attempts[i]).rule == rule && attempts[i].outcome.tag()
                        == outcome && g.ids_of(attempts[i].hits) == hit_ids;
                lemma_attempt_of(attempts, i);
            }
        },
        _ => {},
    }
}

/// A chain is found good exactly where its version is the current one and the
/// graph bears out every one of its facts.
pub proof fn a_chain_is_good_exactly_when_its_facts_hold(chain: ChainView, g: GraphRows)
    ensures
        verdict(chain, g).ok <==> chain.explain_version == EXPLAIN_VERSION && forall|i: int|
            0 <= i < chain.steps.len() ==> holds((#[trigger] chain.steps[i]).fact, chain.subject, chain.root(), g),
{
    let steps = step_verdicts(chain, g);
    assert forall|i: int| 0 <= i < chain.steps.len() implies (#[trigger] steps[i]).ok == holds(
        chain.steps[i].fact,
        chain.subject,
        chain.root(),
        g,
    ) by {
        a_fact_passes_exactly_when_it_holds(chain.steps[i].fact, chain.subject, chain.root(), g);
    }
    if verdict(chain, g).ok {
        assert forall|i: int| 0 <= i < chain.steps.len() implies holds((#[trigger] chain.steps[i]).fact, chain.subject, chain.root(), g) by {
            assert(steps[i].ok);
        }
    }
    if chain.explain_version == EXPLAIN_VERSION && forall|i: int|
        0 <= i < chain.steps.len() ==> holds((#[trigger] chain.steps[i]).fact, chain.subject, chain.root(), g) {
        assert forall|i: int| 0 <= i < steps.len() implies (#[trigger] steps[i]).ok by {
            assert(holds(chain.steps[i].fact, chain.subject, chain.root(), g));
        }
    }
}

// ---- what is built is found good ----------------------------------------------------------

/// The graph's lists are no longer than memory allows.
pub open spec fn fits(g: GraphRows) -> bool {
    g.nodes.len() <= usize::MAX && g.edges.len() <= usize::MAX
}

proof fn lemma_node(g: GraphRows, id: Seq<char>)
    requires
        fits(g),
    ensures
        g.node(id) matches Some(n) ==> n.node_id == id,
{
    let nv = g.resolver_nodes();
    lemma_places_of(ids(nv), id);
    let q = places_of(ids(nv), id);
    if q.len() > 0 {
        assert(ids(nv)[q[q.len() - 1] as int] == id);
        assert(q[q.len() - 1] < nv.len());
    }
}

proof fn lemma_edge(g: GraphRows, key: KeyView)
    requires
        fits(g),
    ensures
        g.edge(key) matches Some(e) ==> e.key == key,
{
    lemma_places_of(g.keys(), key_tuple(key));
    let q = places_of(g.keys(), key_tuple(key));
    if q.len() == 1 {
        assert(q[0] < g.edges.len());
        assert(g.keys()[q[0] as int] == key_tuple(key));
        let e = g.edges[q[0] as int];
        assert(e.key =~= key);
    }
}

/// The only reference with the key of one is that one.
proof fn lemma_own_edge(g: GraphRows, i: int)
    requires
        fits(g),
        0 <= i < g.edges.len(),
    ensures
        g.edge(g.edges[i].key) matches Some(e) ==> e == g.edges[i],
{
    let t = key_tuple(g.edges[i].key);
    lemma_places_of(g.keys(), t);
    let q = places_of(g.keys(), t);
    if q.len() == 1 {
        assert(g.keys()[i] == t);
        assert(q.contains(i as usize));
    }
}

pub open spec fn all_hold(facts: Seq<FactView>, subject: Seq<char>, root: Option<Seq<char>>, g: GraphRows) -> bool {
    forall|i: int| 0 <= i < facts.len() ==> holds(#[trigger] facts[i], subject, root, g)
}

proof fn lemma_all_hold_add(a: Seq<FactView>, b: Seq<FactView>, subject: Seq<char>, root: Option<Seq<char>>, g: GraphRows)
    requires
        all_hold(a, subject, root, g),
        all_hold(b, subject, root, g),
    ensures
        all_hold(a + b, subject, root, g),
{
    assert forall|i: int| 0 <= i < (a + b).len() implies holds(#[trigger] (a + b)[i], subject, root, g) by {
        if i < a.len() {
            assert((a + b)[i] == a[i]);
        } else {
            assert((a + b)[i] == b[i - a.len()]);
        }
    }
}

proof fn lemma_chain_good(
    finding: FindingKind,
    subject: Seq<char>,
    facts: Seq<FactView>,
    project_id: Seq<char>,
    g: GraphRows,
)
    requires
        all_hold(facts, subject, root_of(facts), g),
    ensures
        verdict(chain_of(finding, subject, facts, project_id), g).ok,
{
    let c = chain_of(finding, subject, facts, project_id);
    a_chain_is_good_exactly_when_its_facts_hold(c, g);
    assert(c.facts() =~= facts);
    assert forall|i: int| 0 <= i < c.steps.len() implies holds((#[trigger] c.steps[i]).fact, c.subject, c.root(), g) by {
        assert(c.steps[i].fact == facts[i]);
    }
}

proof fn lemma_cascade_claims_hold(g: GraphRows, key: KeyView, subject: Seq<char>, root: Option<Seq<char>>)
    ensures
        all_hold(rule_claims(g, key), subject, root, g),
        all_hold(seq![cascade_claim(g, key)], subject, root, g),
{
    reveal(holds);
    let claims = rule_claims(g, key);
    let attempts = g.rerun(key).1.attempts;
    assert forall|i: int| 0 <= i < claims.len() implies holds(#[trigger] claims[i], subject, root, g) by {
        assert(attempts[i].rule == attempts[i].rule);
    }
}

/// The graph has the record, of the subject itself, by which a deleted subject
/// entered.
pub open spec fn is_recorded(membership: MembershipView, subject: Seq<char>, g: GraphRows) -> bool {
    match membership {
        MembershipView::ExplicitSymbol => true,
        MembershipView::Deleted(d) => g.deleted.contains(d) && d.name == subject,
    }
}

proof fn lemma_membership_holds(g: GraphRows, subject: Seq<char>, membership: MembershipView, root: Option<Seq<char>>)
    requires
        is_recorded(membership, subject, g),
    ensures
        holds(membership_claim(subject, membership), subject, root, g),
{
    reveal(holds);
}

proof fn lemma_entry_holds(g: GraphRows, subject: Seq<char>, root: Option<Seq<char>>)
    ensures
        holds(FactView::ExplicitSymbolQuery { name: subject }, subject, root, g),
{
    reveal(holds);
}

proof fn lemma_live_holds(g: GraphRows, subject: Seq<char>, root: Option<Seq<char>>)
    ensures
        holds(live_claim(g, subject), subject, root, g),
{
    reveal(holds);
}

proof fn lemma_node_holds(g: GraphRows, n: NodeRow, subject: Seq<char>, root: Option<Seq<char>>)
    requires
        g.node(n.node_id) == Some(n),
    ensures
        holds(FactView::NodeExists(n), subject, root, g),
{
    reveal(holds);
}

proof fn lemma_edge_holds(g: GraphRows, e: EdgeRow, subject: Seq<char>, root: Option<Seq<char>>)
    requires
        g.edge(e.key) == Some(e),
    ensures
        holds(edge_claim(e), subject, root, g),
{
    reveal(holds);
}

proof fn lemma_pool_holds(g: GraphRows, e: EdgeRow, from: NodeRow, subject: Seq<char>, root: Option<Seq<char>>)
    ensures
        holds(pool_claim(g, e, from), subject, root, g),
{
    reveal(holds);
}

proof fn lemma_hop_holds(g: GraphRows, e: EdgeRow, depth: usize, subject: Seq<char>, root: Option<Seq<char>>)
    requires
        g.edge(e.key) == Some(e),
        e.confidence == "RESOLVED"@,
        g.node(e.to_id) is Some,
        is_hop_at(g, subject, root, e.key.from_id, e.to_id, depth),
    ensures
        holds(hop_claim(e, depth), subject, root, g),
{
    reveal(holds);
}

proof fn lemma_stale_head(g: GraphRows, subject: Seq<char>, membership: MembershipView, e: EdgeRow, from: NodeRow, root: Option<Seq<char>>)
    requires
        is_recorded(membership, subject, g),
        g.edge(e.key) == Some(e),
        g.node(from.node_id) == Some(from),
    ensures
        all_hold(
            seq![
                membership_claim(subject, membership),
                live_claim(g, subject),
                FactView::NodeExists(from),
                edge_claim(e),
                pool_claim(g, e, from),
            ],
            subject,
            root,
            g,
        ),
{
    lemma_membership_holds(g, subject, membership, root);
    lemma_live_holds(g, subject, root);
    lemma_node_holds(g, from, subject, root);
    lemma_edge_holds(g, e, subject, root);
    lemma_pool_holds(g, e, from, subject, root);
}

/// The chain of a stale reference is found good on the graph it was built from,
/// given that the graph has the record by which a deleted subject entered.
pub proof fn a_stale_chain_is_good(
    g: GraphRows,
    project_id: Seq<char>,
    subject: Seq<char>,
    membership: MembershipView,
    key: KeyView,
)
    requires
        fits(g),
        is_recorded(membership, subject, g),
    ensures
        stale_chain(g, project_id, subject, membership, key) matches Some(c) ==> verdict(c, g).ok,
{
    if stale_chain(g, project_id, subject, membership, key) is Some {
        let e = g.edge(key)->0;
        lemma_edge(g, key);
        let from = g.node(e.key.from_id)->0;
        lemma_node(g, e.key.from_id);
        let head = seq![
            membership_claim(subject, membership),
            live_claim(g, subject),
            FactView::NodeExists(from),
            edge_claim(e),
            pool_claim(g, e, from),
        ];
        let root = root_of(stale_claims(g, subject, membership, e, from));
        lemma_stale_head(g, subject, membership, e, from, root);
        lemma_cascade_claims_hold(g, e.key, subject, root);
        lemma_all_hold_add(head, rule_claims(g, e.key), subject, root, g);
        lemma_all_hold_add(head + rule_claims(g, e.key), seq![cascade_claim(g, e.key)], subject, root, g);
        lemma_chain_good(
            FindingKind::StaleReference,
            subject,
            stale_claims(g, subject, membership, e, from),
            project_id,
            g,
        );
    }
}

proof fn lemma_candidate_claims_hold(g: GraphRows, candidates: Seq<Seq<char>>, subject: Seq<char>, root: Option<Seq<char>>)
    requires
        fits(g),
        candidate_claims(g, candidates) is Some,
    ensures
        all_hold(candidate_claims(g, candidates)->0, subject, root, g),
    decreases candidates.len(),
{
    if candidates.len() > 0 {
        lemma_candidate_claims_hold(g, candidates.drop_last(), subject, root);
        lemma_node(g, candidates.last());
        let rest = candidate_claims(g, candidates.drop_last())->0;
        let n = g.node(candidates.last())->0;
        let tail = seq![FactView::NodeExists(n)];
        lemma_node_holds(g, n, subject, root);
        lemma_all_hold_add(rest, tail, subject, root, g);
        assert(rest + tail =~= rest.push(FactView::NodeExists(n)));
    }
}

/// The chain of a refusal to choose is found good on the graph it was built from.
pub proof fn a_refusal_chain_is_good(g: GraphRows, project_id: Seq<char>, subject: Seq<char>, key: KeyView)
    requires
        fits(g),
    ensures
        refusal_chain(g, project_id, subject, key) matches Some(c) ==> verdict(c, g).ok,
{
    if refusal_chain(g, project_id, subject, key) is Some {
        let e = g.edge(key)->0;
        lemma_edge(g, key);
        let from = g.node(e.key.from_id)->0;
        lemma_node(g, e.key.from_id);
        let head = seq![
            FactView::ExplicitSymbolQuery { name: subject },
            FactView::NodeExists(from),
            edge_claim(e),
            pool_claim(g, e, from),
        ];
        let cs = candidate_claims(g, e.candidates)->0;
        let root = root_of(refusal_claims(g, subject, e, from, cs));
        lemma_entry_holds(g, subject, root);
        lemma_node_holds(g, from, subject, root);
        lemma_edge_holds(g, e, subject, root);
        lemma_pool_holds(g, e, from, subject, root);
        assert(all_hold(head, subject, root, g));
        lemma_candidate_claims_hold(g, e.candidates, subject, root);
        lemma_cascade_claims_hold(g, e.key, subject, root);
        lemma_all_hold_add(head, cs, subject, root, g);
        lemma_all_hold_add(head + cs, rule_claims(g, e.key), subject, root, g);
        lemma_all_hold_add(head + cs + rule_claims(g, e.key), seq![cascade_claim(g, e.key)], subject, root, g);
        lemma_chain_good(
            FindingKind::AmbiguousRefusal,
            subject,
            refusal_claims(g, subject, e, from, cs),
            project_id,
            g,
        );
    }
}

proof fn lemma_known_target(g: GraphRows, hop: usize, u: usize, v: usize)
    requires
        fits(g),
        u < g.nodes.len(),
        leads_over(g.resolver_nodes(), g.query_edges(), hop, u, v, Way::Backward),
    ensures
        hop < g.edges.len(),
        g.edges[hop as int].confidence == "RESOLVED"@,
        g.node(g.edges[hop as int].to_id) is Some,
{
    let nv = g.resolver_nodes();
    let id = g.edges[hop as int].to_id;
    assert(g.query_edges()[hop as int] == query_view(g.edges[hop as int]));
    assert(id == nv[u as int].id);
    lemma_places_of(ids(nv), id);
    assert(ids(nv)[u as int] == id);
    assert(places_of(ids(nv), id).contains(u));
}

/// The claims of the hops that a walk took hold.
proof fn lemma_walk_claims_hold(g: GraphRows, root: usize, max_depth: usize, i: int, subject: Seq<char>)
    requires
        fits(g),
        g.defines(root, subject),
        0 <= i < dependency_walk(g.resolver_nodes(), g.query_edges(), root, Way::Backward, max_depth).len(),
        hop_claims(
            g,
            hops_to(dependency_walk(g.resolver_nodes(), g.query_edges(), root, Way::Backward, max_depth), i),
        ) is Some,
    ensures
        all_hold(
            hop_claims(
                g,
                hops_to(dependency_walk(g.resolver_nodes(), g.query_edges(), root, Way::Backward, max_depth), i),
            )->0,
            subject,
            Some(g.resolver_nodes()[root as int].id),
            g,
        ),
    decreases i,
{
    let nv = g.resolver_nodes();
    let ev = g.query_edges();
    let ls = g.back_links();
    let order = dependency_walk(nv, ev, root, Way::Backward, max_depth);
    let hops = hops_to(order, i);
    paths_are_routes(nv, ev, root, max_depth, i);
    if i > 0 {
        lemma_parent(order, i, nv, ev, root, Way::Backward, max_depth);
        lemma_links_within(nv, ev, Way::Backward);
        lemma_walk(root, ls, max_depth, nv.len());
        walk_depth_is_distance(root, ls, max_depth, nv.len());
        let j = parent_place(order, i);
        let rest = hops_to(order, j);
        let via = hops.last();
        let u = order[j].node;
        let v = order[i].node;
        assert(hops.drop_last() =~= rest);
        links_are_bound_references(nv, ev, u, order[i].via, v, Way::Backward);
        lemma_walk_claims_hold(g, root, max_depth, j, subject);
        lemma_known_target(g, via, u, v);
        lemma_own_edge(g, via as int);
        let e = g.edges[via as int];
        assert(ev[via as int] == query_view(e));
        lemma_places_of(ids(nv), e.key.from_id);
        let q = places_of(ids(nv), e.key.from_id);
        assert(ids(nv)[q[q.len() - 1] as int] == e.key.from_id);
        assert(nv[v as int].id == e.key.from_id);
        assert(is_distance(root, v, order[i].depth as nat, ls));
        assert(is_distance(root, u, order[j].depth as nat, ls));
        let root_id = Some(nv[root as int].id);
        assert(is_root(g, root, subject, root_id));
        assert(is_hop_from(g, root, e.key.from_id, e.to_id, order[i].depth));
        lemma_node(g, e.key.from_id);
        let n = g.node(e.key.from_id)->0;
        let before = hop_claims(g, rest)->0;
        let tail = seq![hop_claim(e, hops.len() as usize), FactView::NodeExists(n)];
        lemma_hop_holds(g, e, hops.len() as usize, subject, root_id);
        lemma_node_holds(g, n, subject, root_id);
        assert(all_hold(tail, subject, root_id, g));
        lemma_all_hold_add(before, tail, subject, root_id, g);
        assert(before + tail =~= before.push(tail[0]).push(tail[1]));
    } else {
        assert(hops.len() == 0);
    }
}

/// The hop of a fact that is one: its source, its target and its depth.
pub open spec fn hop_of(fact: FactView) -> Option<(Seq<char>, Seq<char>, usize)> {
    match fact {
        FactView::ResolvedHop { key, to_id, depth, .. } => Some((key.from_id, to_id, depth)),
        _ => None,
    }
}

/// A hop with another depth.
pub open spec fn with_depth(fact: FactView, depth: usize) -> FactView {
    match fact {
        FactView::ResolvedHop { key, to_id, resolved_by, .. } => FactView::ResolvedHop {
            key,
            to_id,
            resolved_by,
            depth,
        },
        _ => fact,
    }
}

/// Where the ids of the nodes are distinct, no two places hold the root.
proof fn lemma_one_root(g: GraphRows, a: usize, b: usize, subject: Seq<char>, id: Option<Seq<char>>)
    requires
        distinct_ids(g.resolver_nodes()),
        is_root(g, a, subject, id),
        is_root(g, b, subject, id),
    ensures
        a == b,
{
    let nv = g.resolver_nodes();
    if a < b {
        assert(nv[a as int].id != nv[b as int].id);
    } else if b < a {
        assert(nv[b as int].id != nv[a as int].id);
    }
}

/// Every hop of a good chain is at its depth from a definition of the subject
/// with the id of the one node that the chain itself names as its root; and
/// where the ids of the nodes are distinct, that is one definition for all hops.
pub proof fn the_hops_of_a_good_chain_have_one_root(chain: ChainView, g: GraphRows)
    requires
        verdict(chain, g).ok,
    ensures
        forall|i: int|
            0 <= i < chain.steps.len() ==> (hop_of((#[trigger] chain.steps[i]).fact) matches Some(h) ==> is_hop_at(
                g,
                chain.subject,
                chain.root(),
                h.0,
                h.1,
                h.2,
            )),
        forall|root: usize, i: int|
            distinct_ids(g.resolver_nodes()) && #[trigger] is_root(g, root, chain.subject, chain.root()) && 0 <= i
                < chain.steps.len() ==> (hop_of((#[trigger] chain.steps[i]).fact) matches Some(h) ==> is_hop_from(
                g,
                root,
                h.0,
                h.1,
                h.2,
            )),
{
    a_chain_is_good_exactly_when_its_facts_hold(chain, g);
    assert forall|i: int| 0 <= i < chain.steps.len() && hop_of((#[trigger] chain.steps[i]).fact) is Some implies ({
        let h = hop_of(chain.steps[i].fact)->0;
        is_hop_at(g, chain.subject, chain.root(), h.0, h.1, h.2)
    }) by {
        reveal(holds);
        assert(holds(chain.steps[i].fact, chain.subject, chain.root(), g));
    }
    assert forall|root: usize, i: int|
        distinct_ids(g.resolver_nodes()) && #[trigger] is_root(g, root, chain.subject, chain.root()) && 0 <= i
            < chain.steps.len() && hop_of((#[trigger] chain.steps[i]).fact) is Some implies ({
        let h = hop_of(chain.steps[i].fact)->0;
        is_hop_from(g, root, h.0, h.1, h.2)
    }) by {
        let h = hop_of(chain.steps[i].fact)->0;
        assert(is_hop_at(g, chain.subject, chain.root(), h.0, h.1, h.2));
        let other = choose|other: usize|
            is_root(g, other, chain.subject, chain.root()) && #[trigger] is_hop_from(g, other, h.0, h.1, h.2);
        lemma_one_root(g, root, other, chain.subject, chain.root());
    }
}

/// Where the ids of the nodes are distinct, a hop holds at one depth only.
pub proof fn a_hop_holds_at_one_depth(
    fact: FactView,
    depth: usize,
    subject: Seq<char>,
    root: Option<Seq<char>>,
    g: GraphRows,
)
    requires
        distinct_ids(g.resolver_nodes()),
        check(fact, subject, root, g) is None,
        hop_of(fact) matches Some(h) && h.2 != depth,
    ensures
        check(with_depth(fact, depth), subject, root, g) is Some,
{
    if check(with_depth(fact, depth), subject, root, g) is None {
        let (from_id, to_id, own) = hop_of(fact)->0;
        let ls = g.back_links();
        let nv = g.resolver_nodes();
        let a = choose|at: usize| is_root(g, at, subject, root) && #[trigger] is_hop_from(g, at, from_id, to_id, own);
        let b = choose|at: usize| is_root(g, at, subject, root) && #[trigger] is_hop_from(g, at, from_id, to_id, depth);
        lemma_one_root(g, a, b, subject, root);
        let v = choose|v: usize|
            v < g.nodes.len() && nv[v as int].id == from_id && #[trigger] is_distance(a, v, own as nat, ls);
        let w = choose|v: usize|
            v < g.nodes.len() && nv[v as int].id == from_id && #[trigger] is_distance(a, v, depth as nat, ls);
        if v < w {
            assert(nv[v as int].id != nv[w as int].id);
        } else if w < v {
            assert(nv[w as int].id != nv[v as int].id);
        }
        assert(leads(a, v, own as nat, ls) && leads(a, v, depth as nat, ls));
    }
}

/// The chain with another depth at one hop.
pub open spec fn chain_with_depth(chain: ChainView, i: int, depth: usize) -> ChainView {
    let step = StepView { index: chain.steps[i].index, fact: with_depth(chain.steps[i].fact, depth) };
    ChainView {
        explain_version: chain.explain_version,
        finding: chain.finding,
        subject: chain.subject,
        steps: chain.steps.update(i, step),
        replay: chain.replay,
    }
}

/// The root of facts does not turn on the depth of a hop.
proof fn lemma_root_of_depth(facts: Seq<FactView>, i: int, depth: usize)
    requires
        0 <= i < facts.len(),
    ensures
        root_of(facts.update(i, with_depth(facts[i], depth))) == root_of(facts),
    decreases facts.len(),
{
    let other = facts.update(i, with_depth(facts[i], depth));
    if start_of(facts[0]) is None {
        if i > 0 {
            lemma_root_of_depth(facts.skip(1), i - 1, depth);
            assert(other.skip(1) =~= facts.skip(1).update(i - 1, with_depth(facts.skip(1)[i - 1], depth)));
        } else {
            assert(other =~= facts);
        }
    }
}

/// Where the ids of the nodes are distinct, a good chain whose depth is changed
/// at one hop is a good chain no more, however many definitions the subject has.
pub proof fn a_changed_depth_is_found_out(chain: ChainView, i: int, depth: usize, g: GraphRows)
    requires
        distinct_ids(g.resolver_nodes()),
        verdict(chain, g).ok,
        0 <= i < chain.steps.len(),
        hop_of(chain.steps[i].fact) matches Some(h) && h.2 != depth,
    ensures
        !verdict(chain_with_depth(chain, i, depth), g).ok,
{
    let other = chain_with_depth(chain, i, depth);
    let fact = chain.steps[i].fact;
    a_chain_is_good_exactly_when_its_facts_hold(chain, g);
    a_chain_is_good_exactly_when_its_facts_hold(other, g);
    lemma_root_of_depth(chain.facts(), i, depth);
    assert(other.facts() =~= chain.facts().update(i, with_depth(chain.facts()[i], depth)));
    assert(holds(fact, chain.subject, chain.root(), g));
    a_fact_passes_exactly_when_it_holds(fact, chain.subject, chain.root(), g);
    a_hop_holds_at_one_depth(fact, depth, chain.subject, chain.root(), g);
    a_fact_passes_exactly_when_it_holds(with_depth(fact, depth), chain.subject, chain.root(), g);
    assert(other.steps[i].fact == with_depth(fact, depth));
}

/// A path that a walk from some definition of the subject took.
pub open spec fn is_path_of(g: GraphRows, subject: Seq<char>, max_depth: usize, path: PathView) -> bool {
    exists|root: usize, i: int| #![trigger hops_to(
        dependency_walk(g.resolver_nodes(), g.query_edges(), root, Way::Backward, max_depth), i)]
        {
            let order = dependency_walk(g.resolver_nodes(), g.query_edges(), root, Way::Backward, max_depth);
            &&& g.defines(root, subject)
            &&& 0 <= i < order.len()
            &&& path.root_node_id == g.resolver_nodes()[root as int].id
            &&& path.hops == hops_to(order, i)
        }
}

/// The chain of a dependent is found good on the graph it was built from, if its
/// path is one that the walk from a definition took.
pub proof fn a_dependent_chain_is_good(
    g: GraphRows,
    project_id: Seq<char>,
    subject: Seq<char>,
    max_depth: usize,
    path: PathView,
)
    requires
        fits(g),
        is_path_of(g, subject, max_depth, path),
    ensures
        dependent_chain(g, project_id, subject, path) matches Some(c) ==> verdict(c, g).ok,
{
    if dependent_chain(g, project_id, subject, path) is Some {
        let (root, i) = choose|root: usize, i: int| #![trigger hops_to(
            dependency_walk(g.resolver_nodes(), g.query_edges(), root, Way::Backward, max_depth), i)]
            {
                let order = dependency_walk(g.resolver_nodes(), g.query_edges(), root, Way::Backward, max_depth);
                &&& g.defines(root, subject)
                &&& 0 <= i < order.len()
                &&& path.root_node_id == g.resolver_nodes()[root as int].id
                &&& path.hops == hops_to(order, i)
            };
        lemma_walk_claims_hold(g, root, max_depth, i, subject);
        lemma_node(g, path.root_node_id);
        let n = g.node(path.root_node_id)->0;
        let head = seq![FactView::ExplicitSymbolQuery { name: subject }, FactView::NodeExists(n)];
        let said = head + hop_claims(g, path.hops)->0;
        let root_id = Some(path.root_node_id);
        assert(root_of(said) == root_id) by {
            reveal_with_fuel(root_of, 2);
            assert(said[0] == head[0]);
            assert(said.skip(1)[0] == head[1]);
        }
        lemma_entry_holds(g, subject, root_id);
        lemma_node_holds(g, n, subject, root_id);
        assert(all_hold(head, subject, root_id, g));
        lemma_all_hold_add(head, hop_claims(g, path.hops)->0, subject, root_id, g);
        lemma_chain_good(FindingKind::Dependent, subject, head + hop_claims(g, path.hops)->0, project_id, g);
    }
}

proof fn lemma_reverse_path_is_path(g: GraphRows, subject: Seq<char>, k: int)
    requires
        fits(g),
        0 <= k < reverse_paths(g.resolver_nodes(), g.query_edges(), subject, EXPLAIN_DEPTH).len(),
    ensures
        is_path_of(g, subject, EXPLAIN_DEPTH, reverse_paths(g.resolver_nodes(), g.query_edges(), subject, EXPLAIN_DEPTH)[k]),
{
    let nv = g.resolver_nodes();
    let ev = g.query_edges();
    let p = is_definition_of(subject);
    let roots = roots_of(nv, p);
    let f = paths_from(nv, ev, EXPLAIN_DEPTH);
    let path = flatten(roots, f)[k];
    lemma_flatten_member(roots, f, k);
    let r = choose|r: int| 0 <= r < roots.len() && f(#[trigger] roots[r]).contains(path);
    let root = roots[r];
    assert(roots.contains(root));
    lemma_defines(g, subject, root);
    let i = choose|i: int| 0 <= i < f(root).len() && #[trigger] f(root)[i] == path;
    let order = dependency_walk(nv, ev, root, Way::Backward, EXPLAIN_DEPTH);
    lemma_links_within(nv, ev, Way::Backward);
    lemma_walk(root, links(nv, ev, Way::Backward), EXPLAIN_DEPTH, nv.len());
    assert(path.hops == hops_to(order, i + 1));
    assert(path.root_node_id == nv[root as int].id);
}

/// Every chain that is built for a symbol is found good on the same graph, given
/// that the graph has the record by which a deleted symbol entered.
pub proof fn every_chain_of_a_symbol_is_good(
    g: GraphRows,
    project_id: Seq<char>,
    subject: Seq<char>,
    membership: MembershipView,
    i: int,
)
    requires
        fits(g),
        is_recorded(membership, subject, g),
        0 <= i < symbol_chains(g, project_id, subject, membership).len(),
    ensures
        verdict(symbol_chains(g, project_id, subject, membership)[i], g).ok,
{
    let sk = stale_keys(g, subject);
    let sf = stale_chain_fn(g, project_id, subject, membership);
    let rk = refused_keys(g, subject);
    let rf = refusal_chain_fn(g, project_id, subject);
    let ps = reverse_paths(g.resolver_nodes(), g.query_edges(), subject, EXPLAIN_DEPTH);
    let pf = dependent_chain_fn(g, project_id, subject);
    let a = gather(sk, sf);
    let b = gather(rk, rf);
    let d = gather(ps, pf);
    let c = symbol_chains(g, project_id, subject, membership)[i];
    if i < a.len() {
        assert(c == a[i]);
        assert(a.contains(c));
        lemma_gather_member(sk, sf, c);
        let k = choose|k: int| 0 <= k < sk.len() && sf(#[trigger] sk[k]) == Some(c);
        a_stale_chain_is_good(g, project_id, subject, membership, key_of(sk[k]));
    } else if i < a.len() + b.len() {
        assert(c == b[i - a.len()]);
        assert(b.contains(c));
        lemma_gather_member(rk, rf, c);
        let k = choose|k: int| 0 <= k < rk.len() && rf(#[trigger] rk[k]) == Some(c);
        a_refusal_chain_is_good(g, project_id, subject, key_of(rk[k]));
    } else {
        assert(c == d[i - a.len() - b.len()]);
        assert(d.contains(c));
        lemma_gather_member(ps, pf, c);
        let k = choose|k: int| 0 <= k < ps.len() && pf(#[trigger] ps[k]) == Some(c);
        lemma_reverse_path_is_path(g, subject, k);
        a_dependent_chain_is_good(g, project_id, subject, EXPLAIN_DEPTH, ps[k]);
    }
}

} // verus!
