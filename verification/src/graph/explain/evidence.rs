//! What chains of evidence tell.

use vstd::prelude::*;

use crate::gather::{gather, lemma_gather_member};
use crate::graph::explain::chains::{
    candidate_claims, chain_of, dependent_chain, hop_claims, refusal_chain, refusal_claims, rule_claims, stale_chain,
    stale_claims,
};
use crate::graph::explain::rows::{definition_fn, key_tuple, GraphRows};
use crate::graph::explain::{ChainView, EdgeRow, FactView, FindingKind, KeyView, MembershipView, NodeRow, EXPLAIN_VERSION};
use crate::graph::paths::PathView;
use crate::graph::reach::{is_named, lemma_named};
use crate::index::resolve::names::{bare, family, normalized};
use crate::lookup::{lemma_places_of, places_of};
use crate::order::{lemma_sorted, sorted};

verus! {

// ---- rows -----------------------------------------------------------------------------------

/// The node of an id is the last that has it.
pub proof fn a_node_is_found_by_its_id(g: GraphRows, id: Seq<char>, i: int)
    requires
        g.nodes.len() <= usize::MAX,
    ensures
        0 <= i < g.nodes.len() && g.nodes[i].node_id == id && (forall|j: int|
            i < j < g.nodes.len() ==> (#[trigger] g.nodes[j]).node_id != id) ==> g.node(id) == Some(g.nodes[i]),
        (forall|j: int| 0 <= j < g.nodes.len() ==> (#[trigger] g.nodes[j]).node_id != id) ==> g.node(id) is None,
{
    let nodes = g.resolver_nodes();
    if 0 <= i < g.nodes.len() && g.nodes[i].node_id == id && (forall|j: int|
        i < j < g.nodes.len() ==> (#[trigger] g.nodes[j]).node_id != id) {
        assert forall|w: int| i < w < nodes.len() implies (#[trigger] nodes[w]).id != id by {
            assert(g.nodes[w].node_id != id);
        }
        assert(is_named(nodes, id, i));
        lemma_named(nodes, id, i);
    }
    if forall|j: int| 0 <= j < g.nodes.len() ==> (#[trigger] g.nodes[j]).node_id != id {
        if let Some(k) = crate::index::resolve::indices::place_of_id(nodes, id) {
            lemma_named(nodes, id, k);
            assert(g.nodes[k].node_id != id);
        }
    }
}

/// The reference of a key is the only one that has it; none where there are
/// several.
pub proof fn a_reference_is_found_by_a_key_of_its_own(g: GraphRows, key: KeyView, i: int, j: int)
    requires
        g.edges.len() <= usize::MAX,
    ensures
        0 <= i < g.edges.len() && g.edges[i].key == key && (forall|k: int|
            0 <= k < g.edges.len() && (#[trigger] g.edges[k]).key == key ==> k == i) ==> g.edge(key) == Some(g.edges[i]),
        0 <= i < j < g.edges.len() && g.edges[i].key == key && g.edges[j].key == key ==> g.edge(key) is None,
        (forall|k: int| 0 <= k < g.edges.len() ==> (#[trigger] g.edges[k]).key != key) ==> g.edge(key) is None,
{
    let keys = g.keys();
    let t = key_tuple(key);
    let q = places_of(keys, t);
    lemma_places_of(keys, t);
    assert forall|k: int| 0 <= k < g.edges.len() implies (keys[k] == t <==> (#[trigger] g.edges[k]).key == key) by {
        if keys[k] == t {
            assert(g.edges[k].key =~= key);
        }
    }
    if q.len() > 0 {
        assert(keys[q[0] as int] == t);
        assert(g.edges[q[0] as int].key == key);
    }
    if q.len() > 1 {
        assert(q[0] < q[1]);
        assert(keys[q[1] as int] == t);
        assert(g.edges[q[1] as int].key == key);
    }
    if 0 <= i < g.edges.len() && g.edges[i].key == key {
        assert(keys[i] == t);
        assert(q.contains(i as usize));
    }
    if 0 <= j < g.edges.len() && g.edges[j].key == key {
        assert(keys[j] == t);
        assert(q.contains(j as usize));
    }
}

/// A definition of the name with the id.
pub open spec fn defines(g: GraphRows, name: Seq<char>, id: Seq<char>, i: int) -> bool {
    0 <= i < g.nodes.len() && g.nodes[i].name == name && g.nodes[i].node_type != "import"@ && g.nodes[i].node_id == id
}

/// The live definitions of a name are the nodes of that name that are no imports.
pub proof fn live_definitions_are_those_of_the_name(g: GraphRows, name: Seq<char>, id: Seq<char>)
    ensures
        g.live_definitions(name).contains(id) <==> exists|i: int| #[trigger] defines(g, name, id, i),
{
    let all = gather(g.nodes, definition_fn(name));
    lemma_sorted::<String>(all);
    broadcast use vstd::seq_lib::group_to_multiset_ensures;

    assert(sorted::<String>(all).to_multiset().contains(id) <==> all.to_multiset().contains(id));
    lemma_gather_member(g.nodes, definition_fn(name), id);
    if all.contains(id) {
        let i = choose|i: int| 0 <= i < g.nodes.len() && definition_fn(name)(#[trigger] g.nodes[i]) == Some(id);
        assert(defines(g, name, id, i));
    }
    if exists|i: int| #[trigger] defines(g, name, id, i) {
        let i = choose|i: int| #[trigger] defines(g, name, id, i);
        assert(definition_fn(name)(g.nodes[i]) == Some(id));
    }
}

// ---- chains ---------------------------------------------------------------------------------

/// The chain has a step for the fact.
pub open spec fn tells(c: ChainView, fact: FactView) -> bool {
    exists|i: int| 0 <= i < c.steps.len() && (#[trigger] c.steps[i]).fact == fact
}

/// The steps of a chain are numbered from one.
pub open spec fn is_numbered(c: ChainView) -> bool {
    forall|i: int| 0 <= i < c.steps.len() ==> (#[trigger] c.steps[i]).index == (i + 1) as usize
}

proof fn lemma_tells(finding: FindingKind, subject: Seq<char>, facts: Seq<FactView>, project_id: Seq<char>)
    ensures
        ({
            let c = chain_of(finding, subject, facts, project_id);
            &&& c.explain_version == EXPLAIN_VERSION
            &&& c.finding == finding
            &&& c.subject == subject
            &&& c.steps.len() == facts.len()
            &&& is_numbered(c)
            &&& forall|f: FactView| #[trigger] facts.contains(f) ==> tells(c, f)
        }),
{
    let c = chain_of(finding, subject, facts, project_id);
    assert forall|f: FactView| #[trigger] facts.contains(f) implies tells(c, f) by {
        let i = choose|i: int| 0 <= i < facts.len() && facts[i] == f;
        assert(c.steps[i].fact == f);
    }
}

/// What a chain tells of a reference: the node that it stands in, the reference
/// itself, the pool that it could mean, every rule that was tried on it with what
/// the rule admits, and the outcome.
pub open spec fn tells_reference(c: ChainView, g: GraphRows, e: EdgeRow, from: NodeRow) -> bool {
    let name = bare(normalized(e.key.to_name));
    let trace = g.rerun(e.key).1;
    &&& tells(c, FactView::NodeExists(from))
    &&& tells(
        c,
        FactView::EdgeExists {
            key: e.key,
            confidence: e.confidence,
            resolved_by: e.resolved_by,
            to_id: e.to_id,
            candidates: sorted::<String>(e.candidates),
        },
    )
    &&& tells(
        c,
        FactView::CandidatePool {
            bare: name,
            to_type: e.key.to_type,
            language_family: family(from.language),
            node_ids: g.pool_ids(name, e.key.to_type, family(from.language)),
        },
    )
    &&& forall|i: int|
        0 <= i < trace.attempts.len() ==> tells(
            c,
            FactView::RuleApplication {
                key: e.key,
                rule: (#[trigger] trace.attempts[i]).rule,
                hit_ids: g.ids_of(trace.attempts[i].hits),
                outcome: trace.attempts[i].outcome.tag(),
            },
        )
    &&& tells(
        c,
        FactView::CascadeOutcome { key: e.key, outcome: trace.outcome.tag(), attempted_rules: trace.rules() },
    )
}

proof fn lemma_in_sum<A>(a: Seq<A>, b: Seq<A>, c: Seq<A>)
    ensures
        forall|x: A| #[trigger] a.contains(x) ==> (a + b + c).contains(x),
        forall|x: A| #[trigger] b.contains(x) ==> (a + b + c).contains(x),
        forall|x: A| #[trigger] c.contains(x) ==> (a + b + c).contains(x),
{
    let s = a + b + c;
    assert forall|x: A| #[trigger] a.contains(x) implies s.contains(x) by {
        let i = choose|i: int| 0 <= i < a.len() && a[i] == x;
        assert(s[i] == x);
    }
    assert forall|x: A| #[trigger] b.contains(x) implies s.contains(x) by {
        let i = choose|i: int| 0 <= i < b.len() && b[i] == x;
        assert(s[a.len() + i] == x);
    }
    assert forall|x: A| #[trigger] c.contains(x) implies s.contains(x) by {
        let i = choose|i: int| 0 <= i < c.len() && c[i] == x;
        assert(s[a.len() + b.len() + i] == x);
    }
}

/// The chain of a stale reference that can be located tells how the subject
/// entered, its live definitions, and all of the reference.
pub proof fn a_stale_chain_tells_its_evidence(
    g: GraphRows,
    project_id: Seq<char>,
    subject: Seq<char>,
    membership: MembershipView,
    e: EdgeRow,
    from: NodeRow,
)
    requires
        g.edge(e.key) == Some(e),
        g.node(e.key.from_id) == Some(from),
    ensures
        stale_chain(g, project_id, subject, membership, e.key) matches Some(c) && {
            &&& c.finding == FindingKind::StaleReference
            &&& c.subject == subject
            &&& is_numbered(c)
            &&& match membership {
                MembershipView::ExplicitSymbol => tells(c, FactView::ExplicitSymbolQuery { name: subject }),
                MembershipView::Deleted(d) => tells(c, FactView::DeletionRecord(d)),
            }
            &&& tells(c, FactView::LiveDefinitions { name: subject, node_ids: g.live_definitions(subject) })
            &&& tells_reference(c, g, e, from)
        },
{
    let facts = stale_claims(g, subject, membership, e, from);
    let c = stale_chain(g, project_id, subject, membership, e.key)->0;
    lemma_tells(FindingKind::StaleReference, subject, facts, project_id);
    let head = facts.take(5);
    let rules = rule_claims(g, e.key);
    let tail = facts.skip((5 + rules.len()) as int);
    assert(facts =~= head + rules + tail);
    lemma_in_sum(head, rules, tail);
    assert(head.contains(head[0]) && head.contains(head[1]) && head.contains(head[2]) && head.contains(head[3])
        && head.contains(head[4]));
    assert(tail.contains(tail[0]));
    let trace = g.rerun(e.key).1;
    assert forall|i: int| 0 <= i < trace.attempts.len() implies tells(
        c,
        FactView::RuleApplication {
            key: e.key,
            rule: (#[trigger] trace.attempts[i]).rule,
            hit_ids: g.ids_of(trace.attempts[i].hits),
            outcome: trace.attempts[i].outcome.tag(),
        },
    ) by {
        assert(rules.contains(rules[i]));
    }
}

proof fn lemma_candidates(g: GraphRows, candidates: Seq<Seq<char>>)
    requires
        forall|k: int| 0 <= k < candidates.len() ==> g.node(#[trigger] candidates[k]) is Some,
    ensures
        candidate_claims(g, candidates) == Some(
            Seq::new(candidates.len(), |k: int| FactView::NodeExists(g.node(candidates[k])->0)),
        ),
    decreases candidates.len(),
{
    if candidates.len() > 0 {
        let rest = candidates.drop_last();
        assert forall|k: int| 0 <= k < rest.len() implies g.node(#[trigger] rest[k]) is Some by {
            assert(rest[k] == candidates[k]);
        }
        lemma_candidates(g, rest);
        assert(g.node(candidates[candidates.len() - 1]) is Some);
        assert(candidate_claims(g, candidates)->0 =~= Seq::new(
            candidates.len(),
            |k: int| FactView::NodeExists(g.node(candidates[k])->0),
        ));
    } else {
        assert(candidate_claims(g, candidates)->0 =~= Seq::new(
            candidates.len(),
            |k: int| FactView::NodeExists(g.node(candidates[k])->0),
        ));
    }
}

/// The chain of a refusal, of a reference that can be located and whose
/// candidates are known, tells of every candidate that it is a node, and all of
/// the reference.
pub proof fn a_refusal_chain_tells_its_evidence(
    g: GraphRows,
    project_id: Seq<char>,
    subject: Seq<char>,
    e: EdgeRow,
    from: NodeRow,
)
    requires
        g.edge(e.key) == Some(e),
        g.node(e.key.from_id) == Some(from),
        forall|k: int| 0 <= k < e.candidates.len() ==> g.node(#[trigger] e.candidates[k]) is Some,
    ensures
        refusal_chain(g, project_id, subject, e.key) matches Some(c) && {
            &&& c.finding == FindingKind::AmbiguousRefusal
            &&& c.subject == subject
            &&& is_numbered(c)
            &&& tells(c, FactView::ExplicitSymbolQuery { name: subject })
            &&& forall|k: int|
                0 <= k < e.candidates.len() ==> tells(c, FactView::NodeExists(g.node(#[trigger] e.candidates[k])->0))
            &&& tells_reference(c, g, e, from)
        },
{
    lemma_candidates(g, e.candidates);
    let candidates = candidate_claims(g, e.candidates)->0;
    let facts = refusal_claims(g, subject, e, from, candidates);
    let c = refusal_chain(g, project_id, subject, e.key)->0;
    lemma_tells(FindingKind::AmbiguousRefusal, subject, facts, project_id);
    let rules = rule_claims(g, e.key);
    let head = facts.take(4) + candidates;
    let tail = facts.skip((4 + candidates.len() + rules.len()) as int);
    assert(facts =~= head + rules + tail);
    lemma_in_sum(head, rules, tail);
    assert(head[0] == facts[0] && head[1] == facts[1] && head[2] == facts[2] && head[3] == facts[3]);
    assert(head.contains(head[0]) && head.contains(head[1]) && head.contains(head[2]) && head.contains(head[3]));
    assert(tail.contains(tail[0]));
    assert forall|k: int| 0 <= k < e.candidates.len() implies tells(
        c,
        FactView::NodeExists(g.node(#[trigger] e.candidates[k])->0),
    ) by {
        assert(head[4 + k] == candidates[k]);
        assert(head.contains(head[4 + k]));
    }
    let trace = g.rerun(e.key).1;
    assert forall|i: int| 0 <= i < trace.attempts.len() implies tells(
        c,
        FactView::RuleApplication {
            key: e.key,
            rule: (#[trigger] trace.attempts[i]).rule,
            hit_ids: g.ids_of(trace.attempts[i].hits),
            outcome: trace.attempts[i].outcome.tag(),
        },
    ) by {
        assert(rules.contains(rules[i]));
    }
}

/// Hop `j` of a path: the reference and the node that it comes from.
pub open spec fn is_hop(g: GraphRows, hops: Seq<usize>, j: int, e: EdgeRow, n: NodeRow) -> bool {
    &&& 0 <= j < hops.len()
    &&& hops[j] < g.edges.len()
    &&& g.edge(g.edges[hops[j] as int].key) == Some(e)
    &&& g.node(e.key.from_id) == Some(n)
}

proof fn lemma_hops(g: GraphRows, hops: Seq<usize>, j: int, e: EdgeRow, n: NodeRow)
    requires
        hop_claims(g, hops) is Some,
        is_hop(g, hops, j, e, n),
    ensures
        (hop_claims(g, hops)->0).contains(
            FactView::ResolvedHop { key: e.key, to_id: e.to_id, resolved_by: e.resolved_by, depth: (j + 1) as usize },
        ),
        (hop_claims(g, hops)->0).contains(FactView::NodeExists(n)),
    decreases hops.len(),
{
    let all = hop_claims(g, hops)->0;
    let front = hops.drop_last();
    let rest = hop_claims(g, front)->0;
    let hop = FactView::ResolvedHop { key: e.key, to_id: e.to_id, resolved_by: e.resolved_by, depth: (j + 1) as usize };
    if j < front.len() {
        assert(front[j] == hops[j]);
        lemma_hops(g, front, j, e, n);
        let a = choose|a: int| 0 <= a < rest.len() && rest[a] == hop;
        let b = choose|b: int| 0 <= b < rest.len() && rest[b] == FactView::NodeExists(n);
        assert(all[a] == hop);
        assert(all[b] == FactView::NodeExists(n));
    } else {
        assert(all[rest.len() as int] == hop);
        assert(all[(rest.len() + 1) as int] == FactView::NodeExists(n));
    }
}

/// The chain of a dependent tells the definition that it starts from and, for
/// every hop, the reference with its depth and the node that it comes from.
pub proof fn a_dependent_chain_tells_its_hops(
    g: GraphRows,
    project_id: Seq<char>,
    subject: Seq<char>,
    path: PathView,
    root: NodeRow,
    j: int,
    e: EdgeRow,
    n: NodeRow,
)
    requires
        g.node(path.root_node_id) == Some(root),
        dependent_chain(g, project_id, subject, path) is Some,
    ensures
        dependent_chain(g, project_id, subject, path) matches Some(c) && {
            &&& c.finding == FindingKind::Dependent
            &&& c.subject == subject
            &&& is_numbered(c)
            &&& tells(c, FactView::ExplicitSymbolQuery { name: subject })
            &&& tells(c, FactView::NodeExists(root))
            &&& is_hop(g, path.hops, j, e, n) ==> tells(c, FactView::NodeExists(n)) && tells(
                c,
                FactView::ResolvedHop {
                    key: e.key,
                    to_id: e.to_id,
                    resolved_by: e.resolved_by,
                    depth: (j + 1) as usize,
                },
            )
        },
{
    let hops = hop_claims(g, path.hops)->0;
    let head = seq![FactView::ExplicitSymbolQuery { name: subject }, FactView::NodeExists(root)];
    let facts = head + hops;
    lemma_tells(FindingKind::Dependent, subject, facts, project_id);
    let none = Seq::<FactView>::empty();
    assert(facts =~= head + hops + none);
    lemma_in_sum(head, hops, none);
    assert(head.contains(head[0]) && head.contains(head[1]));
    if is_hop(g, path.hops, j, e, n) {
        lemma_hops(g, path.hops, j, e, n);
    }
}

} // verus!
