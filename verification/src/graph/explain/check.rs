//! Checking chains against a graph.

use vstd::prelude::*;

use crate::graph::explain::depth::{has_hop_at, is_hop_at};
use crate::graph::explain::rows::{ExplainGraph, GraphRows};
use crate::graph::explain::words::{quote_list, quoted_list};
use crate::graph::explain::{
    opt_text, Chain, ChainVerdict, ChainVerdictView, ChainView, DeletedSymbol, DeletedView, EdgeKey, ExplainNode, Fact,
    FactView, KeyView, NodeRow, StepVerdict, StepVerdictView, EXPLAIN_VERSION,
};
use crate::index::resolve::{AttemptView, ResolutionTrace};
use crate::lookup::{lemma_take_next, put};
use crate::order::{sort_keys, sorted};
use crate::text::{copy_texts, decimal, decimal_text, join_texts, joined, quote, quoted, same_text, same_texts};

verus! {

/// What is said against a claim of how the subject entered.
pub open spec fn check_entry(name: Seq<char>, subject: Seq<char>) -> Option<Seq<char>> {
    if name == subject {
        None
    } else {
        Some("entry names "@ + quoted(name) + " but the chain's subject is "@ + quoted(subject))
    }
}

/// What the graph says against a claim that the subject entered by a deletion:
/// the record is one of the graph's, and the subject's.
pub open spec fn check_deletion(d: DeletedView, subject: Seq<char>, g: GraphRows) -> Option<Seq<char>> {
    if g.deleted.contains(d) {
        check_entry(d.name, subject)
    } else {
        Some("no deleted_symbol row matches "@ + quoted(d.qualified_name) + " in "@ + d.file_path)
    }
}

/// What the graph says against a claim about live definitions.
pub open spec fn check_live(name: Seq<char>, node_ids: Seq<Seq<char>>, g: GraphRows) -> Option<Seq<char>> {
    if g.live_definitions(name) == node_ids {
        None
    } else {
        Some(
            "live definitions of "@ + quoted(name) + " are "@ + quoted_list(g.live_definitions(name))
                + ", chain claims "@ + quoted_list(node_ids),
        )
    }
}

/// What the graph says against a claim about a node.
pub open spec fn check_node(n: NodeRow, g: GraphRows) -> Option<Seq<char>> {
    match g.node(n.node_id) {
        None => Some("no node with id "@ + quoted(n.node_id)),
        Some(m) => if m == n {
            None
        } else {
            Some("node "@ + n.node_id + " is "@ + m.words() + ", chain claims "@ + n.words())
        },
    }
}

/// What the graph says against a claim about a reference.
pub open spec fn check_edge(
    key: KeyView,
    confidence: Seq<char>,
    resolved_by: Seq<char>,
    to_id: Seq<char>,
    candidates: Seq<Seq<char>>,
    g: GraphRows,
) -> Option<Seq<char>> {
    match g.edge(key) {
        None => Some("no unique edge for "@ + key.words()),
        Some(e) => if e.confidence != confidence {
            Some("edge confidence is "@ + quoted(e.confidence) + ", chain claims "@ + quoted(confidence))
        } else if e.resolved_by != resolved_by {
            Some("edge resolved_by is "@ + quoted(e.resolved_by) + ", chain claims "@ + quoted(resolved_by))
        } else if e.to_id != to_id {
            Some("edge to_id is "@ + quoted(e.to_id) + ", chain claims "@ + quoted(to_id))
        } else if sorted::<String>(e.candidates) != candidates {
            Some(
                "edge candidates are "@ + quoted_list(sorted::<String>(e.candidates)) + ", chain claims "@ + quoted_list(
                    candidates,
                ),
            )
        } else {
            None
        },
    }
}

/// What the graph says against a claim about a candidate pool.
pub open spec fn check_pool(
    bare: Seq<char>,
    to_type: Seq<char>,
    language_family: Seq<char>,
    node_ids: Seq<Seq<char>>,
    g: GraphRows,
) -> Option<Seq<char>> {
    let actual = g.pool_ids(bare, to_type, language_family);
    if actual == node_ids {
        None
    } else {
        Some(
            "pool for ("@ + quoted(bare) + ", "@ + to_type + ", "@ + language_family + ") is "@ + quoted_list(actual)
                + ", chain claims "@ + quoted_list(node_ids),
        )
    }
}

/// The first attempt of a rule.
pub open spec fn attempt_of(attempts: Seq<AttemptView>, rule: Seq<char>) -> Option<AttemptView>
    decreases attempts.len(),
{
    if attempts.len() == 0 {
        None
    } else {
        match attempt_of(attempts.drop_last(), rule) {
            Some(a) => Some(a),
            None => if attempts.last().rule == rule {
                Some(attempts.last())
            } else {
                None
            },
        }
    }
}

/// What the graph says against a claim about a rule.
pub open spec fn check_rule(
    key: KeyView,
    rule: Seq<char>,
    hit_ids: Seq<Seq<char>>,
    outcome: Seq<char>,
    g: GraphRows,
) -> Option<Seq<char>> {
    let trace = g.rerun(key).1;
    match attempt_of(trace.attempts, rule) {
        None => Some(
            "the cascade never reached "@ + rule + " for "@ + key.words() + "; it tried "@ + joined(trace.rules(), ", "@),
        ),
        Some(a) => if a.outcome.tag() != outcome {
            Some(rule + " outcome is "@ + quoted(a.outcome.tag()) + ", chain claims "@ + quoted(outcome))
        } else if g.ids_of(a.hits) != hit_ids {
            Some(rule + " admits "@ + quoted_list(g.ids_of(a.hits)) + ", chain claims "@ + quoted_list(hit_ids))
        } else {
            None
        },
    }
}

/// What the graph says against a claim about the cascade.
pub open spec fn check_cascade(
    key: KeyView,
    outcome: Seq<char>,
    attempted_rules: Seq<Seq<char>>,
    g: GraphRows,
) -> Option<Seq<char>> {
    let trace = g.rerun(key).1;
    if trace.outcome.tag() != outcome {
        Some("cascade outcome is "@ + quoted(trace.outcome.tag()) + ", chain claims "@ + quoted(outcome))
    } else if trace.rules() != attempted_rules {
        Some("cascade tried "@ + quoted_list(trace.rules()) + ", chain claims "@ + quoted_list(attempted_rules))
    } else {
        None
    }
}

/// The node at which a fact of a path starts: the one that it is about, or the
/// one that its hop lands on.
pub open spec fn start_of(fact: FactView) -> Option<Seq<char>> {
    match fact {
        FactView::NodeExists(n) => Some(n.node_id),
        FactView::ResolvedHop { to_id, .. } => Some(to_id),
        _ => None,
    }
}

/// The id of the node at which the first of some facts that has one starts.
pub open spec fn root_of(facts: Seq<FactView>) -> Option<Seq<char>>
    decreases facts.len(),
{
    if facts.len() == 0 {
        None
    } else if start_of(facts[0]) is Some {
        start_of(facts[0])
    } else {
        root_of(facts.skip(1))
    }
}

impl ChainView {
    pub open spec fn facts(self) -> Seq<FactView> {
        Seq::new(self.steps.len(), |i: int| self.steps[i].fact)
    }

    /// The id of the node from which the chain's hops are counted.
    pub open spec fn root(self) -> Option<Seq<char>> {
        root_of(self.facts())
    }
}

/// What the graph says against a claim about a hop.
pub open spec fn check_hop(
    key: KeyView,
    to_id: Seq<char>,
    resolved_by: Seq<char>,
    depth: usize,
    subject: Seq<char>,
    root: Option<Seq<char>>,
    g: GraphRows,
) -> Option<Seq<char>> {
    match g.edge(key) {
        None => Some("no unique edge for hop "@ + key.words()),
        Some(e) => if e.confidence != "RESOLVED"@ {
            Some("hop edge is "@ + quoted(e.confidence) + ", not RESOLVED, so it cannot carry a walk"@)
        } else if e.to_id != to_id {
            Some("hop lands on "@ + quoted(e.to_id) + ", chain claims "@ + quoted(to_id))
        } else if e.resolved_by != resolved_by {
            Some("hop was bound by "@ + quoted(e.resolved_by) + ", chain claims "@ + quoted(resolved_by))
        } else if g.node(to_id) is None {
            Some("hop target "@ + quoted(to_id) + " is not a node"@)
        } else if !is_hop_at(g, subject, root, key.from_id, to_id, depth) {
            Some(
                "hop is not at depth "@ + decimal(depth as nat) + " from the chain's root, a definition of "@ + quoted(
                    subject,
                ),
            )
        } else {
            None
        },
    }
}

/// What the graph says against a fact of a chain with that subject and root;
/// nothing, where the fact holds.
pub open spec fn check(fact: FactView, subject: Seq<char>, root: Option<Seq<char>>, g: GraphRows) -> Option<Seq<char>> {
    match fact {
        FactView::ExplicitSymbolQuery { name } => check_entry(name, subject),
        FactView::DeletionRecord(d) => check_deletion(d, subject, g),
        FactView::LiveDefinitions { name, node_ids } => check_live(name, node_ids, g),
        FactView::NodeExists(n) => check_node(n, g),
        FactView::EdgeExists { key, confidence, resolved_by, to_id, candidates } => check_edge(
            key,
            confidence,
            resolved_by,
            to_id,
            candidates,
            g,
        ),
        FactView::CandidatePool { bare, to_type, language_family, node_ids } => check_pool(
            bare,
            to_type,
            language_family,
            node_ids,
            g,
        ),
        FactView::RuleApplication { key, rule, hit_ids, outcome } => check_rule(key, rule, hit_ids, outcome, g),
        FactView::CascadeOutcome { key, outcome, attempted_rules } => check_cascade(key, outcome, attempted_rules, g),
        FactView::ResolvedHop { key, to_id, resolved_by, depth } => check_hop(
            key,
            to_id,
            resolved_by,
            depth,
            subject,
            root,
            g,
        ),
    }
}

/// What is, and what the chain claims instead, both quoted.
fn against(head: &str, a: &str, claimed: &str) -> (r: String)
    ensures
        r@ == head@ + quoted(a@) + ", chain claims "@ + quoted(claimed@),
{
    let mut s: String = head.to_owned();
    s.append(quote(a).as_str());
    s.append(", chain claims ");
    s.append(quote(claimed).as_str());
    s
}

fn against_list(head: &str, a: &Vec<String>, claimed: &Vec<String>) -> (r: String)
    ensures
        r@ == head@ + quoted_list(a.deep_view()) + ", chain claims "@ + quoted_list(claimed.deep_view()),
{
    let mut s: String = head.to_owned();
    s.append(quote_list(a).as_str());
    s.append(", chain claims ");
    s.append(quote_list(claimed).as_str());
    s
}

fn same_node(a: &ExplainNode, b: &ExplainNode) -> (r: bool)
    ensures
        r == (a.deep_view() == b.deep_view()),
{
    let lines = match (a.start_line, b.start_line) {
        (Some(x), Some(y)) => x == y,
        (None, None) => true,
        _ => false,
    };
    lines && same_text(a.node_id.as_str(), b.node_id.as_str()) && same_text(a.name.as_str(), b.name.as_str())
        && same_text(a.node_type.as_str(), b.node_type.as_str()) && same_text(a.language.as_str(), b.language.as_str())
        && same_text(a.file_path.as_str(), b.file_path.as_str()) && same_text(
        a.qualified_name.as_str(),
        b.qualified_name.as_str(),
    )
}

fn same_deletion(a: &DeletedSymbol, b: &DeletedSymbol) -> (r: bool)
    ensures
        r == (a.deep_view() == b.deep_view()),
{
    same_text(a.name.as_str(), b.name.as_str()) && same_text(a.qualified_name.as_str(), b.qualified_name.as_str())
        && same_text(a.node_type.as_str(), b.node_type.as_str()) && same_text(a.file_path.as_str(), b.file_path.as_str())
}

fn has_deletion(graph: &ExplainGraph, d: &DeletedSymbol) -> (r: bool)
    ensures
        r == graph.rows().deleted.contains(d.deep_view()),
{
    let rows = graph.deleted();
    let ghost dv = graph.rows().deleted;
    let mut i: usize = 0;
    while i < rows.len()
        invariant
            i <= rows.len(),
            rows.deep_view() == dv,
            dv == graph.rows().deleted,
            forall|k: int| 0 <= k < i ==> #[trigger] dv[k] != d.deep_view(),
        decreases rows.len() - i,
    {
        assert(dv[i as int] == rows[i as int].deep_view());
        if same_deletion(&rows[i], d) {
            return true;
        }
        i += 1;
    }
    false
}

fn check_edge_fact(
    key: &EdgeKey,
    confidence: &String,
    resolved_by: &String,
    to_id: &String,
    candidates: &Vec<String>,
    graph: &ExplainGraph,
) -> (r: Option<String>)
    requires
        graph.wf(),
    ensures
        opt_text(r) == check_edge(
            key.deep_view(),
            confidence@,
            resolved_by@,
            to_id@,
            candidates.deep_view(),
            graph.rows(),
        ),
{
    match graph.edge(key) {
        None => {
            let mut s: String = "no unique edge for ".to_owned();
            s.append(key.describe().as_str());
            Some(s)
        },
        Some(e) => {
            let actual = sort_keys(copy_texts(&e.candidates));
            if !same_text(e.confidence.as_str(), confidence.as_str()) {
                Some(against("edge confidence is ", e.confidence.as_str(), confidence.as_str()))
            } else if !same_text(e.resolved_by.as_str(), resolved_by.as_str()) {
                Some(against("edge resolved_by is ", e.resolved_by.as_str(), resolved_by.as_str()))
            } else if !same_text(e.to_id.as_str(), to_id.as_str()) {
                Some(against("edge to_id is ", e.to_id.as_str(), to_id.as_str()))
            } else if !same_texts(&actual, candidates) {
                Some(against_list("edge candidates are ", &actual, candidates))
            } else {
                None
            }
        },
    }
}

fn find_attempt(trace: &ResolutionTrace, rule: &str) -> (r: Option<usize>)
    ensures
        match r {
            Some(i) => i < trace.attempts.len() && attempt_of(trace.deep_view().attempts, rule@) == Some(
                trace.attempts@[i as int].deep_view(),
            ),
            None => attempt_of(trace.deep_view().attempts, rule@) is None,
        },
{
    let ghost av = trace.deep_view().attempts;
    let mut found: Option<usize> = None;
    let mut i: usize = 0;
    while i < trace.attempts.len()
        invariant
            i <= trace.attempts.len(),
            av == trace.deep_view().attempts,
            match found {
                Some(k) => k < trace.attempts.len() && attempt_of(av.take(i as int), rule@) == Some(
                    trace.attempts@[k as int].deep_view(),
                ),
                None => attempt_of(av.take(i as int), rule@) is None,
            },
        decreases trace.attempts.len() - i,
    {
        proof {
            lemma_take_next(av, i as int);
        }
        assert(av[i as int] == trace.attempts@[i as int].deep_view());
        if found.is_none() && same_text(trace.attempts[i].rule, rule) {
            found = Some(i);
        }
        i += 1;
    }
    assert(av.take(i as int) =~= av);
    found
}

fn check_rule_fact(key: &EdgeKey, rule: &String, hit_ids: &Vec<String>, outcome: &String, graph: &ExplainGraph) -> (r:
    Option<String>)
    requires
        graph.wf(),
    ensures
        opt_text(r) == check_rule(key.deep_view(), rule@, hit_ids.deep_view(), outcome@, graph.rows()),
{
    let (_, trace) = graph.rerun(key);
    match find_attempt(&trace, rule.as_str()) {
        None => {
            let mut s: String = "the cascade never reached ".to_owned();
            s.append(rule.as_str());
            s.append(" for ");
            s.append(key.describe().as_str());
            s.append("; it tried ");
            s.append(join_texts(&trace.attempted_rules(), ", ").as_str());
            Some(s)
        },
        Some(i) => {
            let attempt = &trace.attempts[i];
            assert(crate::index::resolve::laws::admits_below(
                trace.attempts@[i as int].deep_view(),
                graph.rows().nodes.len(),
            ));
            assert forall|k: int| 0 <= k < attempt.hits.len() implies #[trigger] attempt.hits@[k]
                < graph.rows().nodes.len() by {
                assert(attempt.deep_view().hits[k] < graph.rows().nodes.len());
            }
            let actual_hits = graph.ids_of(&attempt.hits);
            if !same_text(attempt.outcome.as_tag(), outcome.as_str()) {
                let mut head: String = rule.as_str().to_owned();
                head.append(" outcome is ");
                Some(against(head.as_str(), attempt.outcome.as_tag(), outcome.as_str()))
            } else if !same_texts(&actual_hits, hit_ids) {
                let mut head: String = rule.as_str().to_owned();
                head.append(" admits ");
                Some(against_list(head.as_str(), &actual_hits, hit_ids))
            } else {
                None
            }
        },
    }
}

fn check_cascade_fact(key: &EdgeKey, outcome: &String, attempted_rules: &Vec<String>, graph: &ExplainGraph) -> (r: Option<
    String,
>)
    requires
        graph.wf(),
    ensures
        opt_text(r) == check_cascade(key.deep_view(), outcome@, attempted_rules.deep_view(), graph.rows()),
{
    let (_, trace) = graph.rerun(key);
    let actual = trace.attempted_rules();
    if !same_text(trace.outcome.as_tag(), outcome.as_str()) {
        Some(against("cascade outcome is ", trace.outcome.as_tag(), outcome.as_str()))
    } else if !same_texts(&actual, attempted_rules) {
        Some(against_list("cascade tried ", &actual, attempted_rules))
    } else {
        None
    }
}

fn check_hop_fact(
    key: &EdgeKey,
    to_id: &String,
    resolved_by: &String,
    depth: usize,
    subject: &str,
    root: &Option<String>,
    graph: &ExplainGraph,
) -> (r: Option<String>)
    requires
        graph.wf(),
    ensures
        opt_text(r) == check_hop(
            key.deep_view(),
            to_id@,
            resolved_by@,
            depth,
            subject@,
            opt_text(*root),
            graph.rows(),
        ),
{
    match graph.edge(key) {
        None => {
            let mut s: String = "no unique edge for hop ".to_owned();
            s.append(key.describe().as_str());
            Some(s)
        },
        Some(e) => {
            if !same_text(e.confidence.as_str(), "RESOLVED") {
                let mut s: String = "hop edge is ".to_owned();
                s.append(quote(e.confidence.as_str()).as_str());
                s.append(", not RESOLVED, so it cannot carry a walk");
                Some(s)
            } else if !same_text(e.to_id.as_str(), to_id.as_str()) {
                Some(against("hop lands on ", e.to_id.as_str(), to_id.as_str()))
            } else if !same_text(e.resolved_by.as_str(), resolved_by.as_str()) {
                Some(against("hop was bound by ", e.resolved_by.as_str(), resolved_by.as_str()))
            } else {
                match graph.node(to_id) {
                    None => {
                        let mut s: String = "hop target ".to_owned();
                        s.append(quote(to_id.as_str()).as_str());
                        s.append(" is not a node");
                        Some(s)
                    },
                    Some(_) => {
                        if has_hop_at(graph, subject, root, key.from_id.as_str(), to_id.as_str(), depth) {
                            None
                        } else {
                            let mut s: String = "hop is not at depth ".to_owned();
                            s.append(decimal_text(depth as u64).as_str());
                            s.append(" from the chain's root, a definition of ");
                            s.append(quote(subject).as_str());
                            Some(s)
                        }
                    },
                }
            }
        },
    }
}

fn check_node_fact(claimed: &ExplainNode, graph: &ExplainGraph) -> (r: Option<String>)
    requires
        graph.wf(),
    ensures
        opt_text(r) == check_node(claimed.deep_view(), graph.rows()),
{
    match graph.node(&claimed.node_id) {
        None => {
            let mut s: String = "no node with id ".to_owned();
            s.append(quote(claimed.node_id.as_str()).as_str());
            Some(s)
        },
        Some(n) => {
            if same_node(n, claimed) {
                None
            } else {
                let mut s: String = "node ".to_owned();
                s.append(claimed.node_id.as_str());
                s.append(" is ");
                s.append(n.describe().as_str());
                s.append(", chain claims ");
                s.append(claimed.describe().as_str());
                Some(s)
            }
        },
    }
}

fn check_entry_fact(name: &String, subject: &str) -> (r: Option<String>)
    ensures
        opt_text(r) == check_entry(name@, subject@),
{
    if same_text(name.as_str(), subject) {
        None
    } else {
        let mut s: String = "entry names ".to_owned();
        s.append(quote(name.as_str()).as_str());
        s.append(" but the chain's subject is ");
        s.append(quote(subject).as_str());
        Some(s)
    }
}

fn check_deletion_fact(d: &DeletedSymbol, subject: &str, graph: &ExplainGraph) -> (r: Option<String>)
    ensures
        opt_text(r) == check_deletion(d.deep_view(), subject@, graph.rows()),
{
    if has_deletion(graph, d) {
        check_entry_fact(&d.name, subject)
    } else {
        let mut s: String = "no deleted_symbol row matches ".to_owned();
        s.append(quote(d.qualified_name.as_str()).as_str());
        s.append(" in ");
        s.append(d.file_path.as_str());
        Some(s)
    }
}

fn check_live_fact(name: &String, node_ids: &Vec<String>, graph: &ExplainGraph) -> (r: Option<String>)
    ensures
        opt_text(r) == check_live(name@, node_ids.deep_view(), graph.rows()),
{
    let actual = graph.live_definitions(name.as_str());
    if same_texts(&actual, node_ids) {
        None
    } else {
        let mut head: String = "live definitions of ".to_owned();
        head.append(quote(name.as_str()).as_str());
        head.append(" are ");
        Some(against_list(head.as_str(), &actual, node_ids))
    }
}

fn check_pool_fact(
    bare: &String,
    to_type: &String,
    language_family: &String,
    node_ids: &Vec<String>,
    graph: &ExplainGraph,
) -> (r: Option<String>)
    requires
        graph.wf(),
    ensures
        opt_text(r) == check_pool(bare@, to_type@, language_family@, node_ids.deep_view(), graph.rows()),
{
    let actual = graph.pool_ids(bare.as_str(), to_type.as_str(), language_family.as_str());
    if same_texts(&actual, node_ids) {
        None
    } else {
        let mut head: String = "pool for (".to_owned();
        head.append(quote(bare.as_str()).as_str());
        head.append(", ");
        head.append(to_type.as_str());
        head.append(", ");
        head.append(language_family.as_str());
        head.append(") is ");
        Some(against_list(head.as_str(), &actual, node_ids))
    }
}

impl Chain {
    /// The id of the node from which the chain's hops are counted.
    pub fn root(&self) -> (r: Option<String>)
        ensures
            opt_text(r) == self.deep_view().root(),
    {
        let ghost all = self.deep_view().facts();
        assert(all.skip(0) =~= all);
        let mut i: usize = 0;
        while i < self.steps.len()
            invariant
                i <= self.steps@.len(),
                all == self.deep_view().facts(),
                root_of(all) == root_of(all.skip(i as int)),
            decreases self.steps.len() - i,
        {
            proof {
                assert(self.deep_view().steps[i as int] == self.steps@[i as int].deep_view());
                assert(all.skip(i as int)[0] == self.steps@[i as int].fact.deep_view());
                assert(all.skip(i as int).skip(1) =~= all.skip(i + 1));
            }
            match &self.steps[i].fact {
                Fact::NodeExists { node_id, .. } => {
                    return Some(node_id.as_str().to_owned());
                },
                Fact::ResolvedHop { to_id, .. } => {
                    return Some(to_id.as_str().to_owned());
                },
                _ => {},
            }
            i = i + 1;
        }
        None
    }
}

/// What the graph says against a fact of a chain; nothing, where the fact holds.
pub fn check_fact(fact: &Fact, chain: &Chain, graph: &ExplainGraph) -> (r: Option<String>)
    requires
        graph.wf(),
    ensures
        opt_text(r) == check(fact.deep_view(), chain.subject@, chain.deep_view().root(), graph.rows()),
{
    let subject = chain.subject.as_str();
    match fact {
        Fact::ExplicitSymbolQuery { name } => check_entry_fact(name, subject),
        Fact::DeletionRecord(d) => check_deletion_fact(d, subject, graph),
        Fact::LiveDefinitions { name, node_ids } => check_live_fact(name, node_ids, graph),
        Fact::NodeExists { node_id, name, node_type, language, file_path, qualified_name, start_line } => {
            let claimed = ExplainNode {
                node_id: node_id.as_str().to_owned(),
                name: name.as_str().to_owned(),
                node_type: node_type.as_str().to_owned(),
                language: language.as_str().to_owned(),
                file_path: file_path.as_str().to_owned(),
                qualified_name: qualified_name.as_str().to_owned(),
                start_line: *start_line,
            };
            check_node_fact(&claimed, graph)
        },
        Fact::EdgeExists { key, confidence, resolved_by, to_id, candidates } => {
            check_edge_fact(key, confidence, resolved_by, to_id, candidates, graph)
        },
        Fact::CandidatePool { bare, to_type, language_family, node_ids } => {
            check_pool_fact(bare, to_type, language_family, node_ids, graph)
        },
        Fact::RuleApplication { key, rule, hit_ids, outcome } => check_rule_fact(key, rule, hit_ids, outcome, graph),
        Fact::CascadeOutcome { key, outcome, attempted_rules } => check_cascade_fact(key, outcome, attempted_rules, graph),
        Fact::ResolvedHop { key, to_id, resolved_by, depth } => {
            check_hop_fact(key, to_id, resolved_by, *depth, subject, &chain.root(), graph)
        },
    }
}

// ---- chains -----------------------------------------------------------------------------

pub open spec fn step_verdict(
    index: usize,
    fact: FactView,
    subject: Seq<char>,
    root: Option<Seq<char>>,
    g: GraphRows,
) -> StepVerdictView {
    StepVerdictView {
        index,
        fact: fact.kind(),
        ok: check(fact, subject, root, g) is None,
        reason: check(fact, subject, root, g),
    }
}

/// The verdict on every step of a chain.
pub open spec fn step_verdicts(chain: ChainView, g: GraphRows) -> Seq<StepVerdictView> {
    Seq::new(
        chain.steps.len(),
        |i: int| step_verdict(chain.steps[i].index, chain.steps[i].fact, chain.subject, chain.root(), g),
    )
}

pub open spec fn unsupported(version: u32) -> ChainVerdictView {
    ChainVerdictView { ok: false, unsupported_version: Some(version), steps: Seq::empty() }
}

pub open spec fn all_ok(steps: Seq<StepVerdictView>) -> bool {
    forall|i: int| 0 <= i < steps.len() ==> (#[trigger] steps[i]).ok
}

/// The verdict on a chain. A chain of another version is not checked at all; of
/// any other, every step is checked, whether or not one before it failed.
pub open spec fn verdict(chain: ChainView, g: GraphRows) -> ChainVerdictView {
    if chain.explain_version != EXPLAIN_VERSION {
        unsupported(chain.explain_version)
    } else {
        ChainVerdictView {
            ok: all_ok(step_verdicts(chain, g)),
            unsupported_version: None,
            steps: step_verdicts(chain, g),
        }
    }
}

fn unsupported_version_verdict(found: u32) -> (r: ChainVerdict)
    ensures
        r.deep_view() == unsupported(found),
{
    let steps: Vec<StepVerdict> = Vec::new();
    assert(steps.deep_view() =~= Seq::empty());
    ChainVerdict { ok: false, unsupported_version: Some(found), steps }
}

/// Checks every step of a chain.
pub fn verify_chain(chain: &Chain, graph: &ExplainGraph) -> (r: ChainVerdict)
    requires
        graph.wf(),
    ensures
        r.deep_view() == verdict(chain.deep_view(), graph.rows()),
{
    if chain.explain_version != EXPLAIN_VERSION {
        return unsupported_version_verdict(chain.explain_version);
    }
    let ghost cv = chain.deep_view();
    let ghost g = graph.rows();
    let ghost want = step_verdicts(cv, g);
    let mut steps: Vec<StepVerdict> = Vec::new();
    let mut ok: bool = true;
    let mut i: usize = 0;
    while i < chain.steps.len()
        invariant
            i <= chain.steps.len(),
            graph.wf(),
            cv == chain.deep_view(),
            g == graph.rows(),
            want == step_verdicts(cv, g),
            steps.deep_view() == want.take(i as int),
            ok == all_ok(want.take(i as int)),
        decreases chain.steps.len() - i,
    {
        proof {
            lemma_take_next(want, i as int);
        }
        assert(cv.steps[i as int] == chain.steps[i as int].deep_view());
        let reason = check_fact(&chain.steps[i].fact, chain, graph);
        let passed = reason.is_none();
        let ghost before = want.take(i as int);
        let step = StepVerdict {
            index: chain.steps[i].index,
            fact: chain.steps[i].fact.tag().to_owned(),
            ok: passed,
            reason,
        };
        assert(step.deep_view() == want[i as int]);
        put(&mut steps, step);
        proof {
            let after = want.take(i + 1);
            if ok && passed {
                assert forall|k: int| 0 <= k < after.len() implies (#[trigger] after[k]).ok by {
                    if k < i {
                        assert(after[k] == before[k]);
                    }
                }
            }
            if all_ok(after) {
                assert forall|k: int| 0 <= k < before.len() implies (#[trigger] before[k]).ok by {
                    assert(after[k] == before[k]);
                }
                assert(after[i as int].ok);
            }
        }
        ok = ok && passed;
        i += 1;
    }
    assert(want.take(i as int) =~= want);
    ChainVerdict { ok, unsupported_version: None, steps }
}

/// The verdict on a document that could not be read as a chain.
pub open spec fn unreadable(error: Seq<char>) -> ChainVerdictView {
    ChainVerdictView {
        ok: false,
        unsupported_version: None,
        steps: seq![
            StepVerdictView {
                index: 0,
                fact: "chain_document"@,
                ok: false,
                reason: Some("chain could not be read: "@ + error),
            },
        ],
    }
}

/// The verdict on a document, of which `version` is the version that could be
/// read from it and `document` the chain, or why there is none. The version
/// comes first: a chain of another version is not called unreadable.
pub fn verify_chain_json(version: Option<u32>, document: Result<Chain, String>, graph: &ExplainGraph) -> (r: ChainVerdict)
    requires
        graph.wf(),
    ensures
        r.deep_view() == (if version is Some && version->0 != EXPLAIN_VERSION {
            unsupported(version->0)
        } else {
            match document {
                Ok(chain) => verdict(chain.deep_view(), graph.rows()),
                Err(e) => unreadable(e@),
            }
        }),
{
    if let Some(v) = version {
        if v != EXPLAIN_VERSION {
            return unsupported_version_verdict(v);
        }
    }
    match document {
        Ok(chain) => verify_chain(&chain, graph),
        Err(e) => {
            let mut reason: String = "chain could not be read: ".to_owned();
            reason.append(e.as_str());
            let mut steps: Vec<StepVerdict> = Vec::new();
            steps.push(StepVerdict { index: 0, fact: "chain_document".to_owned(), ok: false, reason: Some(reason) });
            let r = ChainVerdict { ok: false, unsupported_version: None, steps };
            assert(r.deep_view().steps =~= unreadable(e@).steps);
            r
        },
    }
}

/// The place of every failed step.
pub open spec fn failed(steps: Seq<StepVerdictView>) -> spec_fn(usize) -> Option<usize> {
    |i: usize|
        if !steps[i as int].ok {
            Some(i)
        } else {
            None
        }
}

impl ChainVerdict {
    /// The steps that failed.
    pub fn failures(&self) -> (r: Vec<&StepVerdict>)
        ensures
            ({
                let at = crate::gather::gather(
                    crate::graph::web::places(self.steps@.len()),
                    failed(self.deep_view().steps),
                );
                &&& r.len() == at.len()
                &&& forall|i: int| 0 <= i < r.len() ==> *(#[trigger] r@[i]) == self.steps@[at[i] as int]
            }),
    {
        let ghost sv = self.deep_view().steps;
        let ghost all = crate::graph::web::places(self.steps@.len());
        let mut out: Vec<&StepVerdict> = Vec::new();
        let mut i: usize = 0;
        while i < self.steps.len()
            invariant
                i <= self.steps.len(),
                sv == self.deep_view().steps,
                all == crate::graph::web::places(self.steps@.len()),
                ({
                    let at = crate::gather::gather(all.take(i as int), failed(sv));
                    &&& out.len() == at.len()
                    &&& forall|k: int| 0 <= k < out.len() ==> *(#[trigger] out@[k]) == self.steps@[at[k] as int]
                }),
            decreases self.steps.len() - i,
        {
            proof {
                lemma_take_next(all, i as int);
            }
            assert(sv[i as int] == self.steps@[i as int].deep_view());
            if !self.steps[i].ok {
                out.push(&self.steps[i]);
            }
            i += 1;
        }
        assert(all.take(i as int) =~= all);
        out
    }
}

} // verus!
