//! Building chains.

use vstd::prelude::*;

use crate::gather::gather;
use crate::graph::dependencies::{is_stale, is_stale_candidate, nodes_at};
use crate::graph::explain::rows::{key_tuple, ExplainGraph, GraphRows};
use crate::graph::explain::{
    Chain, ChainView, DeletedSymbol, EdgeKey, EdgeRow, ExplainEdge, ExplainNode, Fact, FactView, FindingKind, KeyView,
    Membership, MembershipView, NodeRow, Step, StepView, EXPLAIN_DEPTH, EXPLAIN_VERSION,
};
use crate::graph::paths::{reverse_dependency_paths, reverse_paths, PathView, ReversePath};
use crate::index::resolve::indices::place_of_id;
use crate::index::resolve::laws::admits_below;
use crate::index::resolve::names::{bare, bare_name, family, language_family, normalize_separators, normalized};
use crate::lookup::{lemma_take_next, put};
use crate::order::{sort_keys, sorted};
use crate::text::{copy_texts, has_text, same_text};

verus! {

pub open spec fn edge_claim(e: EdgeRow) -> FactView {
    FactView::EdgeExists {
        key: e.key,
        confidence: e.confidence,
        resolved_by: e.resolved_by,
        to_id: e.to_id,
        candidates: sorted::<String>(e.candidates),
    }
}

/// How the subject entered.
pub open spec fn membership_claim(subject: Seq<char>, membership: MembershipView) -> FactView {
    match membership {
        MembershipView::ExplicitSymbol => FactView::ExplicitSymbolQuery { name: subject },
        MembershipView::Deleted(d) => FactView::DeletionRecord(d),
    }
}

pub open spec fn live_claim(g: GraphRows, name: Seq<char>) -> FactView {
    FactView::LiveDefinitions { name, node_ids: g.live_definitions(name) }
}

/// The pool that the cascade draws from for a reference out of `from`.
pub open spec fn pool_claim(g: GraphRows, e: EdgeRow, from: NodeRow) -> FactView {
    FactView::CandidatePool {
        bare: bare(normalized(e.key.to_name)),
        to_type: e.key.to_type,
        language_family: family(from.language),
        node_ids: g.pool_ids(bare(normalized(e.key.to_name)), e.key.to_type, family(from.language)),
    }
}

/// One claim for every rule that the cascade reached.
pub open spec fn rule_claims(g: GraphRows, key: KeyView) -> Seq<FactView> {
    let attempts = g.rerun(key).1.attempts;
    Seq::new(
        attempts.len(),
        |i: int|
            FactView::RuleApplication {
                key,
                rule: attempts[i].rule,
                hit_ids: g.ids_of(attempts[i].hits),
                outcome: attempts[i].outcome.tag(),
            },
    )
}

pub open spec fn cascade_claim(g: GraphRows, key: KeyView) -> FactView {
    FactView::CascadeOutcome {
        key,
        outcome: g.rerun(key).1.outcome.tag(),
        attempted_rules: g.rerun(key).1.rules(),
    }
}

pub open spec fn replay_commands(project_id: Seq<char>, symbol: Seq<char>) -> Seq<Seq<char>> {
    seq![
        "codegraph query --kind rdeps --name "@ + symbol + " --project-id "@ + project_id + " --explain --json"@,
        "codegraph query --kind rdeps --name "@ + symbol + " --project-id "@ + project_id + " --json"@,
    ]
}

/// The chain of some claims, numbered from 1.
pub open spec fn chain_of(
    finding: FindingKind,
    subject: Seq<char>,
    facts: Seq<FactView>,
    project_id: Seq<char>,
) -> ChainView {
    ChainView {
        explain_version: EXPLAIN_VERSION,
        finding,
        subject,
        steps: Seq::new(facts.len(), |i: int| StepView { index: (i + 1) as usize, fact: facts[i] }),
        replay: replay_commands(project_id, subject),
    }
}

pub open spec fn stale_claims(
    g: GraphRows,
    subject: Seq<char>,
    membership: MembershipView,
    e: EdgeRow,
    from: NodeRow,
) -> Seq<FactView> {
    seq![
        membership_claim(subject, membership),
        live_claim(g, subject),
        FactView::NodeExists(from),
        edge_claim(e),
        pool_claim(g, e, from),
    ] + rule_claims(g, e.key) + seq![cascade_claim(g, e.key)]
}

/// The chain of a stale reference: how the name entered, the live definitions
/// of the name, the reference and the node that it stands in, the pool, and
/// every rule that was tried. There is none where the reference cannot be
/// located.
pub open spec fn stale_chain(
    g: GraphRows,
    project_id: Seq<char>,
    subject: Seq<char>,
    membership: MembershipView,
    key: KeyView,
) -> Option<ChainView> {
    match g.edge(key) {
        None => None,
        Some(e) => match g.node(e.key.from_id) {
            None => None,
            Some(from) => Some(
                chain_of(
                    FindingKind::StaleReference,
                    subject,
                    stale_claims(g, subject, membership, e, from),
                    project_id,
                ),
            ),
        },
    }
}

/// The candidates as nodes; none where one of them is no node.
pub open spec fn candidate_claims(g: GraphRows, candidates: Seq<Seq<char>>) -> Option<Seq<FactView>>
    decreases candidates.len(),
{
    if candidates.len() == 0 {
        Some(Seq::empty())
    } else {
        match candidate_claims(g, candidates.drop_last()) {
            None => None,
            Some(rest) => match g.node(candidates.last()) {
                None => None,
                Some(n) => Some(rest.push(FactView::NodeExists(n))),
            },
        }
    }
}

pub open spec fn refusal_claims(
    g: GraphRows,
    subject: Seq<char>,
    e: EdgeRow,
    from: NodeRow,
    candidates: Seq<FactView>,
) -> Seq<FactView> {
    seq![
        FactView::ExplicitSymbolQuery { name: subject },
        FactView::NodeExists(from),
        edge_claim(e),
        pool_claim(g, e, from),
    ] + candidates + rule_claims(g, e.key) + seq![cascade_claim(g, e.key)]
}

/// The chain of a refusal to choose: the reference, the pool, every candidate as
/// a node, and every rule that was tried.
pub open spec fn refusal_chain(g: GraphRows, project_id: Seq<char>, subject: Seq<char>, key: KeyView) -> Option<ChainView> {
    match g.edge(key) {
        None => None,
        Some(e) => match g.node(e.key.from_id) {
            None => None,
            Some(from) => match candidate_claims(g, e.candidates) {
                None => None,
                Some(candidates) => Some(
                    chain_of(
                        FindingKind::AmbiguousRefusal,
                        subject,
                        refusal_claims(g, subject, e, from, candidates),
                        project_id,
                    ),
                ),
            },
        },
    }
}

pub open spec fn hop_claim(e: EdgeRow, depth: usize) -> FactView {
    FactView::ResolvedHop { key: e.key, to_id: e.to_id, resolved_by: e.resolved_by, depth }
}

/// Two claims for every hop: the reference, and the node that it reveals.
pub open spec fn hop_claims(g: GraphRows, hops: Seq<usize>) -> Option<Seq<FactView>>
    decreases hops.len(),
{
    if hops.len() == 0 {
        Some(Seq::empty())
    } else {
        match hop_claims(g, hops.drop_last()) {
            None => None,
            Some(rest) => if hops.last() >= g.edges.len() {
                None
            } else {
                match g.edge(g.edges[hops.last() as int].key) {
                    None => None,
                    Some(e) => match g.node(e.key.from_id) {
                        None => None,
                        Some(n) => Some(rest.push(hop_claim(e, hops.len() as usize)).push(FactView::NodeExists(n))),
                    },
                }
            },
        }
    }
}

/// The chain of a dependent: the root, then hop by hop.
pub open spec fn dependent_chain(g: GraphRows, project_id: Seq<char>, subject: Seq<char>, path: PathView) -> Option<ChainView> {
    match g.node(path.root_node_id) {
        None => None,
        Some(root) => match hop_claims(g, path.hops) {
            None => None,
            Some(hops) => Some(
                chain_of(
                    FindingKind::Dependent,
                    subject,
                    seq![FactView::ExplicitSymbolQuery { name: subject }, FactView::NodeExists(root)] + hops,
                    project_id,
                ),
            ),
        },
    }
}

// ---- the same, executed ------------------------------------------------------------------

fn copy_deletion(d: &DeletedSymbol) -> (r: DeletedSymbol)
    ensures
        r.deep_view() == d.deep_view(),
{
    DeletedSymbol {
        name: d.name.as_str().to_owned(),
        qualified_name: d.qualified_name.as_str().to_owned(),
        node_type: d.node_type.as_str().to_owned(),
        file_path: d.file_path.as_str().to_owned(),
    }
}

fn node_fact(n: &ExplainNode) -> (r: Fact)
    ensures
        r.deep_view() == FactView::NodeExists(n.deep_view()),
{
    Fact::NodeExists {
        node_id: n.node_id.as_str().to_owned(),
        name: n.name.as_str().to_owned(),
        node_type: n.node_type.as_str().to_owned(),
        language: n.language.as_str().to_owned(),
        file_path: n.file_path.as_str().to_owned(),
        qualified_name: n.qualified_name.as_str().to_owned(),
        start_line: n.start_line,
    }
}

fn edge_fact(e: &ExplainEdge) -> (r: Fact)
    ensures
        r.deep_view() == edge_claim(e.deep_view()),
{
    Fact::EdgeExists {
        key: e.key(),
        confidence: e.confidence.as_str().to_owned(),
        resolved_by: e.resolved_by.as_str().to_owned(),
        to_id: e.to_id.as_str().to_owned(),
        candidates: sort_keys(copy_texts(&e.candidates)),
    }
}

fn membership_fact(subject: &str, membership: &Membership) -> (r: Fact)
    ensures
        r.deep_view() == membership_claim(subject@, membership.deep_view()),
{
    match membership {
        Membership::ExplicitSymbol => Fact::ExplicitSymbolQuery { name: subject.to_owned() },
        Membership::Deleted(d) => Fact::DeletionRecord(copy_deletion(d)),
    }
}

fn pool_fact(graph: &ExplainGraph, e: &ExplainEdge, from: &ExplainNode) -> (r: Fact)
    requires
        graph.wf(),
    ensures
        r.deep_view() == pool_claim(graph.rows(), e.deep_view(), from.deep_view()),
{
    let name = normalize_separators(e.to_name.as_str());
    let tail = bare_name(name.as_str());
    let fam = language_family(from.language.as_str());
    Fact::CandidatePool {
        bare: tail.to_owned(),
        to_type: e.to_type.as_str().to_owned(),
        language_family: fam.to_owned(),
        node_ids: graph.pool_ids(tail, e.to_type.as_str(), fam),
    }
}

/// Appends a claim for every rule that the cascade reaches, and one for its end.
fn add_cascade_facts(facts: &mut Vec<Fact>, graph: &ExplainGraph, key: &EdgeKey)
    requires
        graph.wf(),
    ensures
        final(facts).deep_view() == old(facts).deep_view() + rule_claims(graph.rows(), key.deep_view()) + seq![
            cascade_claim(graph.rows(), key.deep_view()),
        ],
{
    let ghost before = facts.deep_view();
    let ghost g = graph.rows();
    let ghost kv = key.deep_view();
    let (_, trace) = graph.rerun(key);
    let ghost want = rule_claims(g, kv);
    assert(before + want.take(0) =~= before);
    let mut i: usize = 0;
    while i < trace.attempts.len()
        invariant
            i <= trace.attempts.len(),
            graph.wf(),
            g == graph.rows(),
            kv == key.deep_view(),
            trace.deep_view() == g.rerun(kv).1,
            want == rule_claims(g, kv),
            forall|a: int| 0 <= a < trace.attempts.len() ==> admits_below(
                (#[trigger] trace.attempts@[a]).deep_view(),
                g.nodes.len(),
            ),
            facts.deep_view() == before + want.take(i as int),
        decreases trace.attempts.len() - i,
    {
        let a = &trace.attempts[i];
        assert(admits_below(trace.attempts@[i as int].deep_view(), g.nodes.len()));
        assert(trace.deep_view().attempts[i as int] == a.deep_view());
        assert forall|k: int| 0 <= k < a.hits.len() implies #[trigger] a.hits@[k] < g.nodes.len() by {
            assert(a.deep_view().hits[k] < g.nodes.len());
        }
        proof {
            lemma_take_next(want, i as int);
            assert(before + want.take(i + 1) =~= (before + want.take(i as int)).push(want[i as int]));
        }
        put(
            facts,
            Fact::RuleApplication {
                key: key.copy(),
                rule: a.rule.to_owned(),
                hit_ids: graph.ids_of(&a.hits),
                outcome: a.outcome.as_tag().to_owned(),
            },
        );
        i += 1;
    }
    assert(want.take(i as int) =~= want);
    put(
        facts,
        Fact::CascadeOutcome {
            key: key.copy(),
            outcome: trace.outcome.as_tag().to_owned(),
            attempted_rules: trace.attempted_rules(),
        },
    );
    assert(facts.deep_view() =~= before + want + seq![cascade_claim(g, kv)]);
}

fn replay_for(project_id: &str, symbol: &str) -> (r: Vec<String>)
    ensures
        r.deep_view() == replay_commands(project_id@, symbol@),
{
    let mut a: String = "codegraph query --kind rdeps --name ".to_owned();
    a.append(symbol);
    a.append(" --project-id ");
    a.append(project_id);
    a.append(" --explain --json");
    let mut b: String = "codegraph query --kind rdeps --name ".to_owned();
    b.append(symbol);
    b.append(" --project-id ");
    b.append(project_id);
    b.append(" --json");
    let mut out: Vec<String> = Vec::new();
    put(&mut out, a);
    put(&mut out, b);
    assert(out.deep_view() =~= replay_commands(project_id@, symbol@));
    out
}

impl Chain {
    fn new(finding: FindingKind, subject: &str, facts: Vec<Fact>, project_id: &str) -> (r: Chain)
        ensures
            r.deep_view() == chain_of(finding, subject@, facts.deep_view(), project_id@),
    {
        let ghost fv = facts.deep_view();
        let ghost want = chain_of(finding, subject@, fv, project_id@).steps;
        let mut facts = facts;
        let n: usize = facts.len();
        let mut steps: Vec<Step> = Vec::new();
        let mut rest: Vec<Fact> = Vec::new();
        // Turned round, so that the facts come off in their order.
        while facts.len() > 0
            invariant
                facts.len() <= n,
                n == fv.len(),
                facts.deep_view() == fv.take(facts.len() as int),
                rest.len() == n - facts.len(),
                forall|k: int| 0 <= k < rest.len() ==> (#[trigger] rest@[k]).deep_view() == fv[n - 1 - k],
            decreases facts.len(),
        {
            let ghost m = facts.len();
            let ghost was = facts@;
            match facts.pop() {
                Some(f) => {
                    assert(f.deep_view() == fv[m - 1]) by {
                        assert(was[m - 1] == f);
                        assert(fv.take(m as int)[m - 1] == was[m - 1].deep_view());
                    }
                    rest.push(f);
                    assert(facts.deep_view() =~= fv.take(m - 1)) by {
                        assert forall|k: int| 0 <= k < m - 1 implies facts.deep_view()[k] == fv.take(m - 1)[k] by {
                            assert(facts@[k] == was[k]);
                            assert(fv.take(m as int)[k] == was[k].deep_view());
                        }
                    }
                },
                None => {},
            }
        }
        while rest.len() > 0
            invariant
                rest.len() <= n,
                n == fv.len(),
                want == chain_of(finding, subject@, fv, project_id@).steps,
                forall|k: int| 0 <= k < rest.len() ==> (#[trigger] rest@[k]).deep_view() == fv[n - 1 - k],
                steps.len() == n - rest.len(),
                steps.deep_view() == want.take(n - rest.len()),
            decreases rest.len(),
        {
            let ghost m = rest.len();
            let ghost was = rest@;
            let index: usize = n - rest.len() + 1;
            match rest.pop() {
                Some(f) => {
                    assert(was[m - 1] == f);
                    assert(f.deep_view() == fv[n - m]);
                    proof {
                        lemma_take_next(want, n - m);
                    }
                    put(&mut steps, Step { index, fact: f });
                    assert forall|k: int| 0 <= k < rest.len() implies (#[trigger] rest@[k]).deep_view() == fv[n - 1 - k] by {
                        assert(rest@[k] == was[k]);
                    }
                },
                None => {},
            }
        }
        assert(want.take(n as int) =~= want);
        Chain {
            explain_version: EXPLAIN_VERSION,
            finding,
            subject: subject.to_owned(),
            steps,
            replay: replay_for(project_id, subject),
        }
    }
}

pub open spec fn opt_chain(c: Option<Chain>) -> Option<ChainView> {
    match c {
        Some(chain) => Some(chain.deep_view()),
        None => None,
    }
}

/// The chain of a stale reference.
pub fn explain_stale_reference(
    graph: &ExplainGraph,
    project_id: &str,
    subject: &str,
    membership: &Membership,
    key: &EdgeKey,
) -> (r: Option<Chain>)
    requires
        graph.wf(),
    ensures
        opt_chain(r) == stale_chain(graph.rows(), project_id@, subject@, membership.deep_view(), key.deep_view()),
{
    let edge = match graph.edge(key) {
        Some(e) => e,
        None => {
            return None;
        },
    };
    let from = match graph.node(&edge.from_id) {
        Some(n) => n,
        None => {
            return None;
        },
    };
    let ghost g = graph.rows();
    let mut facts: Vec<Fact> = Vec::new();
    put(&mut facts, membership_fact(subject, membership));
    put(
        &mut facts,
        Fact::LiveDefinitions { name: subject.to_owned(), node_ids: graph.live_definitions(subject) },
    );
    put(&mut facts, node_fact(from));
    put(&mut facts, edge_fact(edge));
    put(&mut facts, pool_fact(graph, edge, from));
    let ghost head = seq![
        membership_claim(subject@, membership.deep_view()),
        live_claim(g, subject@),
        FactView::NodeExists(from.deep_view()),
        edge_claim(edge.deep_view()),
        pool_claim(g, edge.deep_view(), from.deep_view()),
    ];
    assert(facts.deep_view() =~= head);
    add_cascade_facts(&mut facts, graph, &edge.key());
    Some(Chain::new(FindingKind::StaleReference, subject, facts, project_id))
}

/// The chain of a refusal to choose.
pub fn explain_ambiguous_refusal(graph: &ExplainGraph, project_id: &str, subject: &str, key: &EdgeKey) -> (r: Option<
    Chain,
>)
    requires
        graph.wf(),
    ensures
        opt_chain(r) == refusal_chain(graph.rows(), project_id@, subject@, key.deep_view()),
{
    let edge = match graph.edge(key) {
        Some(e) => e,
        None => {
            return None;
        },
    };
    let from = match graph.node(&edge.from_id) {
        Some(n) => n,
        None => {
            return None;
        },
    };
    let ghost g = graph.rows();
    let mut facts: Vec<Fact> = Vec::new();
    put(&mut facts, Fact::ExplicitSymbolQuery { name: subject.to_owned() });
    put(&mut facts, node_fact(from));
    put(&mut facts, edge_fact(edge));
    put(&mut facts, pool_fact(graph, edge, from));
    let ghost head = seq![
        FactView::ExplicitSymbolQuery { name: subject@ },
        FactView::NodeExists(from.deep_view()),
        edge_claim(edge.deep_view()),
        pool_claim(g, edge.deep_view(), from.deep_view()),
    ];
    assert(facts.deep_view() =~= head);
    let ghost cands = edge.candidates.deep_view();
    assert(cands.take(0) =~= Seq::empty());
    assert(head + Seq::<FactView>::empty() =~= head);
    let mut i: usize = 0;
    while i < edge.candidates.len()
        invariant
            i <= edge.candidates.len(),
            graph.wf(),
            g == graph.rows(),
            cands == edge.candidates.deep_view(),
            g.edge(key.deep_view()) == Some(edge.deep_view()),
            g.node(edge.deep_view().key.from_id) == Some(from.deep_view()),
            candidate_claims(g, cands.take(i as int)) is Some,
            facts.deep_view() == head + candidate_claims(g, cands.take(i as int))->0,
        decreases edge.candidates.len() - i,
    {
        proof {
            lemma_take_next(cands, i as int);
        }
        match graph.node(&edge.candidates[i]) {
            Some(n) => {
                let ghost rest = candidate_claims(g, cands.take(i as int))->0;
                put(&mut facts, node_fact(n));
                assert((head + rest).push(FactView::NodeExists(n.deep_view())) =~= head + rest.push(
                    FactView::NodeExists(n.deep_view()),
                ));
            },
            None => {
                proof {
                    lemma_missing_candidate(g, cands, i + 1);
                }
                return None;
            },
        }
        i += 1;
    }
    assert(cands.take(i as int) =~= cands);
    add_cascade_facts(&mut facts, graph, &edge.key());
    Some(Chain::new(FindingKind::AmbiguousRefusal, subject, facts, project_id))
}

proof fn lemma_missing_candidate(g: GraphRows, candidates: Seq<Seq<char>>, i: int)
    requires
        0 <= i <= candidates.len(),
        candidate_claims(g, candidates.take(i)) is None,
    ensures
        candidate_claims(g, candidates) is None,
    decreases candidates.len() - i,
{
    if i < candidates.len() {
        lemma_take_next(candidates, i);
        lemma_missing_candidate(g, candidates, i + 1);
    } else {
        assert(candidates.take(i) =~= candidates);
    }
}

proof fn lemma_missing_hop(g: GraphRows, hops: Seq<usize>, i: int)
    requires
        0 <= i <= hops.len(),
        hop_claims(g, hops.take(i)) is None,
    ensures
        hop_claims(g, hops) is None,
    decreases hops.len() - i,
{
    if i < hops.len() {
        lemma_take_next(hops, i);
        lemma_missing_hop(g, hops, i + 1);
    } else {
        assert(hops.take(i) =~= hops);
    }
}

/// The chain of a dependent.
pub fn explain_dependent(graph: &ExplainGraph, project_id: &str, subject: &str, path: &ReversePath) -> (r: Option<Chain>)
    requires
        graph.wf(),
    ensures
        opt_chain(r) == dependent_chain(graph.rows(), project_id@, subject@, path.deep_view()),
{
    let root = match graph.node(&path.root_node_id) {
        Some(n) => n,
        None => {
            return None;
        },
    };
    let ghost g = graph.rows();
    let ghost hv = path.hops@;
    let mut facts: Vec<Fact> = Vec::new();
    put(&mut facts, Fact::ExplicitSymbolQuery { name: subject.to_owned() });
    put(&mut facts, node_fact(root));
    let ghost head = seq![FactView::ExplicitSymbolQuery { name: subject@ }, FactView::NodeExists(root.deep_view())];
    assert(facts.deep_view() =~= head);
    assert(hv.take(0) =~= Seq::empty());
    assert(head + Seq::<FactView>::empty() =~= head);
    let edges = graph.edges();
    let mut i: usize = 0;
    while i < path.hops.len()
        invariant
            i <= path.hops.len(),
            graph.wf(),
            g == graph.rows(),
            edges.deep_view() == g.edges,
            hv == path.hops@,
            g.node(path.root_node_id@) == Some(root.deep_view()),
            hop_claims(g, hv.take(i as int)) is Some,
            facts.deep_view() == head + hop_claims(g, hv.take(i as int))->0,
        decreases path.hops.len() - i,
    {
        proof {
            lemma_take_next(hv, i as int);
            assert(hv.take(i + 1).len() == i + 1);
            if hop_claims(g, hv.take(i + 1)) is None {
                lemma_missing_hop(g, hv, i + 1);
            }
        }
        let ghost rest = hop_claims(g, hv.take(i as int))->0;
        let ei: usize = path.hops[i];
        if ei >= edges.len() {
            return None;
        }
        assert(g.edges[ei as int] == edges[ei as int].deep_view());
        let edge = match graph.edge(&edges[ei].key()) {
            Some(e) => e,
            None => {
                return None;
            },
        };
        let n = match graph.node(&edge.from_id) {
            Some(n) => n,
            None => {
                return None;
            },
        };
        let hop = Fact::ResolvedHop {
            key: edge.key(),
            to_id: edge.to_id.as_str().to_owned(),
            resolved_by: edge.resolved_by.as_str().to_owned(),
            depth: i + 1,
        };
        let ghost a = hop_claim(edge.deep_view(), (i + 1) as usize);
        let ghost b = FactView::NodeExists(n.deep_view());
        put(&mut facts, hop);
        put(&mut facts, node_fact(n));
        assert((head + rest).push(a).push(b) =~= head + rest.push(a).push(b));
        i += 1;
    }
    assert(hv.take(i as int) =~= hv);
    Some(Chain::new(FindingKind::Dependent, subject, facts, project_id))
}

// ---- all chains of a symbol ---------------------------------------------------------------

pub open spec fn place_fn(g: GraphRows) -> spec_fn(Seq<char>) -> Option<usize> {
    |id: Seq<char>|
        match place_of_id(g.resolver_nodes(), id) {
            Some(i) => Some(i as usize),
            None => None,
        }
}

/// The places of the live definitions of the subject.
pub open spec fn live_places(g: GraphRows, subject: Seq<char>) -> Seq<usize> {
    gather(g.live_definitions(subject), place_fn(g))
}

pub open spec fn stale_key_fn(g: GraphRows, subject: Seq<char>) -> spec_fn(EdgeRow) -> Option<
    (Seq<char>, (Seq<char>, (Seq<char>, Seq<char>))),
> {
    |e: EdgeRow|
        match g.node(e.key.from_id) {
            None => None,
            Some(from) => if e.confidence == "UNRESOLVED"@ && is_stale(
                e.key.to_name,
                e.key.to_type,
                from.language,
                bare(normalized(subject)),
                nodes_at(g.resolver_nodes(), live_places(g, subject)),
            ) {
                Some(key_tuple(e.key))
            } else {
                None
            },
        }
}

/// The keys of the unresolved references that plausibly mean the subject, sorted.
pub open spec fn stale_keys(g: GraphRows, subject: Seq<char>) -> Seq<(Seq<char>, (Seq<char>, (Seq<char>, Seq<char>)))> {
    sorted::<(String, (String, (String, String)))>(gather(g.edges, stale_key_fn(g, subject)))
}

/// Some id stands in both lists.
pub open spec fn have_common(a: Seq<Seq<char>>, b: Seq<Seq<char>>) -> bool {
    exists|i: int| 0 <= i < a.len() && b.contains(#[trigger] a[i])
}

pub open spec fn refused_key_fn(live: Seq<Seq<char>>) -> spec_fn(EdgeRow) -> Option<
    (Seq<char>, (Seq<char>, (Seq<char>, Seq<char>))),
> {
    |e: EdgeRow|
        if e.confidence == "AMBIGUOUS"@ && have_common(e.candidates, live) {
            Some(key_tuple(e.key))
        } else {
            None
        }
}

/// The keys of the ambiguous references that have a live definition of the
/// subject among their candidates, sorted.
pub open spec fn refused_keys(g: GraphRows, subject: Seq<char>) -> Seq<
    (Seq<char>, (Seq<char>, (Seq<char>, Seq<char>))),
> {
    sorted::<(String, (String, (String, String)))>(gather(g.edges, refused_key_fn(g.live_definitions(subject))))
}

pub open spec fn key_of(t: (Seq<char>, (Seq<char>, (Seq<char>, Seq<char>)))) -> KeyView {
    KeyView { from_id: t.0, to_name: t.1.0, to_type: t.1.1.0, edge_type: t.1.1.1 }
}

pub open spec fn stale_chain_fn(
    g: GraphRows,
    project_id: Seq<char>,
    subject: Seq<char>,
    membership: MembershipView,
) -> spec_fn((Seq<char>, (Seq<char>, (Seq<char>, Seq<char>)))) -> Option<ChainView> {
    |t: (Seq<char>, (Seq<char>, (Seq<char>, Seq<char>)))| stale_chain(g, project_id, subject, membership, key_of(t))
}

pub open spec fn refusal_chain_fn(g: GraphRows, project_id: Seq<char>, subject: Seq<char>) -> spec_fn(
    (Seq<char>, (Seq<char>, (Seq<char>, Seq<char>))),
) -> Option<ChainView> {
    |t: (Seq<char>, (Seq<char>, (Seq<char>, Seq<char>)))| refusal_chain(g, project_id, subject, key_of(t))
}

pub open spec fn dependent_chain_fn(g: GraphRows, project_id: Seq<char>, subject: Seq<char>) -> spec_fn(PathView) -> Option<
    ChainView,
> {
    |p: PathView| dependent_chain(g, project_id, subject, p)
}

/// Every chain of a symbol: of its stale references, then of the refusals that
/// touch it, then of its dependents.
pub open spec fn symbol_chains(
    g: GraphRows,
    project_id: Seq<char>,
    subject: Seq<char>,
    membership: MembershipView,
) -> Seq<ChainView> {
    gather(stale_keys(g, subject), stale_chain_fn(g, project_id, subject, membership)) + gather(
        refused_keys(g, subject),
        refusal_chain_fn(g, project_id, subject),
    ) + gather(
        reverse_paths(g.resolver_nodes(), g.query_edges(), subject, EXPLAIN_DEPTH),
        dependent_chain_fn(g, project_id, subject),
    )
}

fn find_live_places(graph: &ExplainGraph, live: &Vec<String>) -> (r: Vec<usize>)
    requires
        graph.wf(),
    ensures
        r@ == gather(live.deep_view(), place_fn(graph.rows())),
        forall|i: int| 0 <= i < r.len() ==> #[trigger] r@[i] < graph.rows().nodes.len(),
{
    let ghost g = graph.rows();
    let ghost lv = live.deep_view();
    let mut out: Vec<usize> = Vec::new();
    let mut i: usize = 0;
    while i < live.len()
        invariant
            i <= live.len(),
            graph.wf(),
            g == graph.rows(),
            lv == live.deep_view(),
            out@ == gather(lv.take(i as int), place_fn(g)),
            forall|i: int| 0 <= i < out.len() ==> #[trigger] out@[i] < g.nodes.len(),
        decreases live.len() - i,
    {
        proof {
            lemma_take_next(lv, i as int);
        }
        match graph.find_place(&live[i]) {
            Some(k) => {
                out.push(k);
            },
            None => {},
        }
        i += 1;
    }
    assert(lv.take(i as int) =~= lv);
    out
}

fn tuple_of(key: EdgeKey) -> (r: (String, (String, (String, String))))
    ensures
        r.deep_view() == key_tuple(key.deep_view()),
{
    (key.from_id, (key.to_name, (key.to_type, key.edge_type)))
}

fn find_stale_keys(graph: &ExplainGraph, subject: &str, live: &Vec<String>) -> (r: Vec<
    (String, (String, (String, String))),
>)
    requires
        graph.wf(),
        live.deep_view() == graph.rows().live_definitions(subject@),
    ensures
        r.deep_view() == stale_keys(graph.rows(), subject@),
{
    let ghost g = graph.rows();
    let ghost f = stale_key_fn(g, subject@);
    let places = find_live_places(graph, live);
    let name = normalize_separators(subject);
    let queried_bare = bare_name(name.as_str());
    let nodes = graph.resolver_nodes();
    let edges = graph.edges();
    let mut out: Vec<(String, (String, (String, String)))> = Vec::new();
    let mut i: usize = 0;
    while i < edges.len()
        invariant
            i <= edges.len(),
            graph.wf(),
            g == graph.rows(),
            f == stale_key_fn(g, subject@),
            edges.deep_view() == g.edges,
            crate::index::resolve::node_views(nodes@) == g.resolver_nodes(),
            places@ == live_places(g, subject@),
            forall|i: int| 0 <= i < places.len() ==> #[trigger] places@[i] < nodes.len(),
            queried_bare@ == bare(normalized(subject@)),
            out.deep_view() == gather(g.edges.take(i as int), f),
        decreases edges.len() - i,
    {
        let e = &edges[i];
        proof {
            lemma_take_next(g.edges, i as int);
        }
        assert(g.edges[i as int] == e.deep_view());
        if same_text(e.confidence.as_str(), "UNRESOLVED") {
            match graph.node(&e.from_id) {
                Some(from) => {
                    if is_stale_candidate(
                        e.to_name.as_str(),
                        e.to_type.as_str(),
                        from.language.as_str(),
                        queried_bare,
                        nodes,
                        &places,
                    ) {
                        put(&mut out, tuple_of(e.key()));
                    }
                },
                None => {},
            }
        }
        i += 1;
    }
    assert(g.edges.take(i as int) =~= g.edges);
    sort_keys(out)
}

fn any_live(candidates: &Vec<String>, live: &Vec<String>) -> (r: bool)
    ensures
        r == have_common(candidates.deep_view(), live.deep_view()),
{
    let ghost cv = candidates.deep_view();
    let ghost lv = live.deep_view();
    let mut i: usize = 0;
    while i < candidates.len()
        invariant
            i <= candidates.len(),
            cv == candidates.deep_view(),
            lv == live.deep_view(),
            forall|k: int| 0 <= k < i ==> !lv.contains(#[trigger] cv[k]),
        decreases candidates.len() - i,
    {
        assert(cv[i as int] == candidates[i as int]@);
        if has_text(live, candidates[i].as_str()) {
            return true;
        }
        i += 1;
    }
    false
}

fn find_refused_keys(graph: &ExplainGraph, live: &Vec<String>) -> (r: Vec<(String, (String, (String, String)))>)
    requires
        graph.wf(),
    ensures
        r.deep_view() == sorted::<(String, (String, (String, String)))>(
            gather(graph.rows().edges, refused_key_fn(live.deep_view())),
        ),
{
    let ghost g = graph.rows();
    let ghost f = refused_key_fn(live.deep_view());
    let edges = graph.edges();
    let mut out: Vec<(String, (String, (String, String)))> = Vec::new();
    let mut i: usize = 0;
    while i < edges.len()
        invariant
            i <= edges.len(),
            g == graph.rows(),
            f == refused_key_fn(live.deep_view()),
            edges.deep_view() == g.edges,
            out.deep_view() == gather(g.edges.take(i as int), f),
        decreases edges.len() - i,
    {
        let e = &edges[i];
        proof {
            lemma_take_next(g.edges, i as int);
        }
        assert(g.edges[i as int] == e.deep_view());
        if same_text(e.confidence.as_str(), "AMBIGUOUS") && any_live(&e.candidates, live) {
            put(&mut out, tuple_of(e.key()));
        }
        i += 1;
    }
    assert(g.edges.take(i as int) =~= g.edges);
    sort_keys(out)
}

fn key_from(t: &(String, (String, (String, String)))) -> (r: EdgeKey)
    ensures
        r.deep_view() == key_of(t.deep_view()),
{
    EdgeKey {
        from_id: t.0.as_str().to_owned(),
        to_name: t.1.0.as_str().to_owned(),
        to_type: t.1.1.0.as_str().to_owned(),
        edge_type: t.1.1.1.as_str().to_owned(),
    }
}

/// Every chain of a symbol.
pub fn explain_symbol(graph: &ExplainGraph, project_id: &str, subject: &str, membership: &Membership) -> (r: Vec<Chain>)
    requires
        graph.wf(),
    ensures
        r.deep_view() == symbol_chains(graph.rows(), project_id@, subject@, membership.deep_view()),
{
    let ghost g = graph.rows();
    let ghost mv = membership.deep_view();
    let live = graph.live_definitions(subject);
    let stale = find_stale_keys(graph, subject, &live);
    let ghost sv = stale.deep_view();
    let ghost sf = stale_chain_fn(g, project_id@, subject@, mv);
    let mut chains: Vec<Chain> = Vec::new();
    let mut i: usize = 0;
    while i < stale.len()
        invariant
            i <= stale.len(),
            graph.wf(),
            g == graph.rows(),
            mv == membership.deep_view(),
            sv == stale.deep_view(),
            sf == stale_chain_fn(g, project_id@, subject@, mv),
            chains.deep_view() == gather(sv.take(i as int), sf),
        decreases stale.len() - i,
    {
        proof {
            lemma_take_next(sv, i as int);
        }
        assert(sv[i as int] == stale[i as int].deep_view());
        match explain_stale_reference(graph, project_id, subject, membership, &key_from(&stale[i])) {
            Some(c) => {
                put(&mut chains, c);
            },
            None => {},
        }
        i += 1;
    }
    assert(sv.take(i as int) =~= sv);
    let ghost first = chains.deep_view();
    let refused = find_refused_keys(graph, &live);
    let ghost rv = refused.deep_view();
    let ghost rf = refusal_chain_fn(g, project_id@, subject@);
    assert(first + gather(rv.take(0), rf) =~= first);
    let mut j: usize = 0;
    while j < refused.len()
        invariant
            j <= refused.len(),
            graph.wf(),
            g == graph.rows(),
            rv == refused.deep_view(),
            rf == refusal_chain_fn(g, project_id@, subject@),
            chains.deep_view() == first + gather(rv.take(j as int), rf),
        decreases refused.len() - j,
    {
        proof {
            lemma_take_next(rv, j as int);
        }
        assert(rv[j as int] == refused[j as int].deep_view());
        let ghost so_far = gather(rv.take(j as int), rf);
        match explain_ambiguous_refusal(graph, project_id, subject, &key_from(&refused[j])) {
            Some(c) => {
                let ghost cv = c.deep_view();
                put(&mut chains, c);
                assert((first + so_far).push(cv) =~= first + so_far.push(cv));
            },
            None => {},
        }
        j += 1;
    }
    assert(rv.take(j as int) =~= rv);
    let ghost second = chains.deep_view();
    let edges = graph.query_edges();
    let paths = reverse_dependency_paths(graph.resolver_nodes(), edges.as_slice(), subject, EXPLAIN_DEPTH);
    let ghost pv = paths.deep_view();
    let ghost pf = dependent_chain_fn(g, project_id@, subject@);
    assert(second + gather(pv.take(0), pf) =~= second);
    let mut k: usize = 0;
    while k < paths.len()
        invariant
            k <= paths.len(),
            graph.wf(),
            g == graph.rows(),
            pv == paths.deep_view(),
            pf == dependent_chain_fn(g, project_id@, subject@),
            chains.deep_view() == second + gather(pv.take(k as int), pf),
        decreases paths.len() - k,
    {
        proof {
            lemma_take_next(pv, k as int);
        }
        assert(pv[k as int] == paths[k as int].deep_view());
        let ghost so_far = gather(pv.take(k as int), pf);
        match explain_dependent(graph, project_id, subject, &paths[k]) {
            Some(c) => {
                let ghost cv = c.deep_view();
                put(&mut chains, c);
                assert((second + so_far).push(cv) =~= second + so_far.push(cv));
            },
            None => {},
        }
        k += 1;
    }
    assert(pv.take(k as int) =~= pv);
    chains
}

} // verus!
