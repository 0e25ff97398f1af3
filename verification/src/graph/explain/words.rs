//! Facts and chains in words.

use vstd::prelude::*;

use crate::graph::explain::{Chain, ChainView, EdgeKey, ExplainNode, Fact, FactView, FindingKind, KeyView, NodeRow, StepView};
use crate::lookup::{lemma_take_next, put};
use crate::text::{
    decimal, decimal_text, join_texts, joined, quote, quoted, same_text, signed_decimal, signed_text,
};

verus! {

/// A list of texts as the `Debug` format writes it.
pub open spec fn quoted_list(v: Seq<Seq<char>>) -> Seq<char> {
    "["@ + joined(Seq::new(v.len(), |i: int| quoted(v[i])), ", "@) + "]"@
}

pub(crate) fn quote_list(v: &Vec<String>) -> (r: String)
    ensures
        r@ == quoted_list(v.deep_view()),
{
    let ghost vv = v.deep_view();
    let ghost want = Seq::new(vv.len(), |i: int| quoted(vv[i]));
    let mut parts: Vec<String> = Vec::new();
    let mut i: usize = 0;
    while i < v.len()
        invariant
            i <= v.len(),
            vv == v.deep_view(),
            want == Seq::new(vv.len(), |i: int| quoted(vv[i])),
            parts.deep_view() == want.take(i as int),
        decreases v.len() - i,
    {
        put(&mut parts, quote(v[i].as_str()));
        proof {
            lemma_take_next(want, i as int);
        }
        i += 1;
    }
    assert(want.take(i as int) =~= want);
    let mut s: String = "[".to_owned();
    s.append(join_texts(&parts, ", ").as_str());
    s.append("]");
    s
}

pub(crate) fn count_text(n: usize) -> (r: String)
    ensures
        r@ == decimal(n as nat),
{
    decimal_text(n as u64)
}

impl FindingKind {
    pub open spec fn tag(self) -> Seq<char> {
        match self {
            FindingKind::StaleReference => "stale_reference"@,
            FindingKind::AmbiguousRefusal => "ambiguous_refusal"@,
            FindingKind::Dependent => "dependent"@,
        }
    }

    pub fn as_tag(self) -> (r: &'static str)
        ensures
            r@ == self.tag(),
    {
        match self {
            FindingKind::StaleReference => "stale_reference",
            FindingKind::AmbiguousRefusal => "ambiguous_refusal",
            FindingKind::Dependent => "dependent",
        }
    }
}

impl NodeRow {
    /// A node on one line.
    pub open spec fn words(self) -> Seq<char> {
        match self.start_line {
            Some(line) => self.qualified_name + " ("@ + self.node_type + ") at "@ + self.file_path + ":"@
                + signed_decimal(line as int),
            None => self.qualified_name + " ("@ + self.node_type + ") in "@ + self.file_path,
        }
    }
}

impl ExplainNode {
    /// The node on one line.
    pub fn describe(&self) -> (r: String)
        ensures
            r@ == self.deep_view().words(),
    {
        let mut s: String = self.qualified_name.as_str().to_owned();
        s.append(" (");
        s.append(self.node_type.as_str());
        match self.start_line {
            Some(line) => {
                s.append(") at ");
                s.append(self.file_path.as_str());
                s.append(":");
                s.append(signed_text(line).as_str());
            },
            None => {
                s.append(") in ");
                s.append(self.file_path.as_str());
            },
        }
        s
    }
}

impl KeyView {
    /// A reference on one line.
    pub open spec fn words(self) -> Seq<char> {
        self.from_id + " -> \""@ + self.to_name + "\" ("@ + self.to_type + ", "@ + self.edge_type + ")"@
    }
}

impl EdgeKey {
    /// The reference on one line.
    pub fn describe(&self) -> (r: String)
        ensures
            r@ == self.deep_view().words(),
    {
        let mut s: String = self.from_id.as_str().to_owned();
        s.append(" -> \"");
        s.append(self.to_name.as_str());
        s.append("\" (");
        s.append(self.to_type.as_str());
        s.append(", ");
        s.append(self.edge_type.as_str());
        s.append(")");
        s
    }
}

impl FactView {
    pub open spec fn kind(self) -> Seq<char> {
        match self {
            FactView::ExplicitSymbolQuery { .. } => "explicit_symbol_query"@,
            FactView::DeletionRecord(_) => "deletion_record"@,
            FactView::LiveDefinitions { .. } => "live_definitions"@,
            FactView::NodeExists(_) => "node_exists"@,
            FactView::EdgeExists { .. } => "edge_exists"@,
            FactView::CandidatePool { .. } => "candidate_pool"@,
            FactView::RuleApplication { .. } => "rule_application"@,
            FactView::CascadeOutcome { .. } => "cascade_outcome"@,
            FactView::ResolvedHop { .. } => "resolved_hop"@,
        }
    }

    /// The fact as a sentence.
    pub open spec fn words(self) -> Seq<char> {
        match self {
            FactView::ExplicitSymbolQuery { name } => "the symbol "@ + quoted(name) + " was queried by name, literally"@,
            FactView::DeletionRecord(d) => "an index run recorded "@ + quoted(d.qualified_name) + " ("@ + d.node_type
                + ") disappearing from "@ + d.file_path,
            FactView::LiveDefinitions { name, node_ids } => if node_ids.len() == 0 {
                "no live definition of "@ + quoted(name) + " exists in this project"@
            } else {
                decimal(node_ids.len()) + " live definition(s) of "@ + quoted(name) + ": "@ + joined(node_ids, ", "@)
            },
            FactView::NodeExists(n) => match n.start_line {
                Some(line) => n.qualified_name + " ("@ + n.node_type + ") is defined at "@ + n.file_path + ":"@
                    + signed_decimal(line as int),
                None => n.qualified_name + " ("@ + n.node_type + ") is defined in "@ + n.file_path,
            },
            FactView::EdgeExists { key, confidence, .. } => key.from_id + " references "@ + quoted(key.to_name) + " ("@
                + key.to_type + "), and the resolver left it "@ + confidence,
            FactView::CandidatePool { bare, to_type, language_family, node_ids } => "the candidate pool for ("@ + quoted(
                bare,
            ) + ", "@ + to_type + ", "@ + language_family + ") holds "@ + decimal(node_ids.len()) + " node(s)"@,
            FactView::RuleApplication { rule, hit_ids, outcome, .. } => if outcome == "skipped"@ {
                rule + " did not run: its precondition did not hold"@
            } else if outcome == "no_match"@ {
                rule + " ran and admitted nothing"@
            } else if outcome == "not_unique"@ {
                rule + " ran and admitted "@ + decimal(hit_ids.len()) + " nodes, so it could not bind"@
            } else {
                rule + " admitted exactly one node, "@ + joined(hit_ids, ""@)
            },
            FactView::CascadeOutcome { outcome, attempted_rules, .. } => "the cascade tried "@ + joined(
                attempted_rules,
                ", "@,
            ) + " and ended: "@ + outcome,
            FactView::ResolvedHop { key, to_id, resolved_by, depth } => "at depth "@ + decimal(depth as nat) + ", "@
                + key.from_id + " reaches "@ + to_id + " through "@ + quoted(key.to_name) + ", bound by "@ + resolved_by,
        }
    }
}

impl Fact {
    /// The name of the kind of fact.
    pub fn tag(&self) -> (r: &'static str)
        ensures
            r@ == self.deep_view().kind(),
    {
        match self {
            Fact::ExplicitSymbolQuery { .. } => "explicit_symbol_query",
            Fact::DeletionRecord(_) => "deletion_record",
            Fact::LiveDefinitions { .. } => "live_definitions",
            Fact::NodeExists { .. } => "node_exists",
            Fact::EdgeExists { .. } => "edge_exists",
            Fact::CandidatePool { .. } => "candidate_pool",
            Fact::RuleApplication { .. } => "rule_application",
            Fact::CascadeOutcome { .. } => "cascade_outcome",
            Fact::ResolvedHop { .. } => "resolved_hop",
        }
    }

    /// The fact as a sentence.
    pub fn describe(&self) -> (r: String)
        ensures
            r@ == self.deep_view().words(),
    {
        match self {
            Fact::ExplicitSymbolQuery { name } => {
                let mut s: String = "the symbol ".to_owned();
                s.append(quote(name.as_str()).as_str());
                s.append(" was queried by name, literally");
                s
            },
            Fact::DeletionRecord(d) => {
                let mut s: String = "an index run recorded ".to_owned();
                s.append(quote(d.qualified_name.as_str()).as_str());
                s.append(" (");
                s.append(d.node_type.as_str());
                s.append(") disappearing from ");
                s.append(d.file_path.as_str());
                s
            },
            Fact::LiveDefinitions { name, node_ids } => {
                if node_ids.len() == 0 {
                    let mut s: String = "no live definition of ".to_owned();
                    s.append(quote(name.as_str()).as_str());
                    s.append(" exists in this project");
                    s
                } else {
                    let mut s: String = count_text(node_ids.len());
                    s.append(" live definition(s) of ");
                    s.append(quote(name.as_str()).as_str());
                    s.append(": ");
                    s.append(join_texts(node_ids, ", ").as_str());
                    s
                }
            },
            Fact::NodeExists { qualified_name, node_type, file_path, start_line, .. } => {
                let mut s: String = qualified_name.as_str().to_owned();
                s.append(" (");
                s.append(node_type.as_str());
                match start_line {
                    Some(line) => {
                        s.append(") is defined at ");
                        s.append(file_path.as_str());
                        s.append(":");
                        s.append(signed_text(*line).as_str());
                    },
                    None => {
                        s.append(") is defined in ");
                        s.append(file_path.as_str());
                    },
                }
                s
            },
            Fact::EdgeExists { key, confidence, .. } => {
                let mut s: String = key.from_id.as_str().to_owned();
                s.append(" references ");
                s.append(quote(key.to_name.as_str()).as_str());
                s.append(" (");
                s.append(key.to_type.as_str());
                s.append("), and the resolver left it ");
                s.append(confidence.as_str());
                s
            },
            Fact::CandidatePool { bare, to_type, language_family, node_ids } => {
                let mut s: String = "the candidate pool for (".to_owned();
                s.append(quote(bare.as_str()).as_str());
                s.append(", ");
                s.append(to_type.as_str());
                s.append(", ");
                s.append(language_family.as_str());
                s.append(") holds ");
                s.append(count_text(node_ids.len()).as_str());
                s.append(" node(s)");
                s
            },
            Fact::RuleApplication { rule, hit_ids, outcome, .. } => {
                let mut s: String = rule.as_str().to_owned();
                if same_text(outcome.as_str(), "skipped") {
                    s.append(" did not run: its precondition did not hold");
                } else if same_text(outcome.as_str(), "no_match") {
                    s.append(" ran and admitted nothing");
                } else if same_text(outcome.as_str(), "not_unique") {
                    s.append(" ran and admitted ");
                    s.append(count_text(hit_ids.len()).as_str());
                    s.append(" nodes, so it could not bind");
                } else {
                    s.append(" admitted exactly one node, ");
                    s.append(join_texts(hit_ids, "").as_str());
                }
                s
            },
            Fact::CascadeOutcome { outcome, attempted_rules, .. } => {
                let mut s: String = "the cascade tried ".to_owned();
                s.append(join_texts(attempted_rules, ", ").as_str());
                s.append(" and ended: ");
                s.append(outcome.as_str());
                s
            },
            Fact::ResolvedHop { key, to_id, resolved_by, depth } => {
                let mut s: String = "at depth ".to_owned();
                s.append(count_text(*depth).as_str());
                s.append(", ");
                s.append(key.from_id.as_str());
                s.append(" reaches ");
                s.append(to_id.as_str());
                s.append(" through ");
                s.append(quote(key.to_name.as_str()).as_str());
                s.append(", bound by ");
                s.append(resolved_by.as_str());
                s
            },
        }
    }
}

/// The lines of some steps.
pub open spec fn step_lines(steps: Seq<StepView>) -> Seq<char>
    decreases steps.len(),
{
    if steps.len() == 0 {
        Seq::empty()
    } else {
        step_lines(steps.drop_last()) + ("  "@ + decimal(steps.last().index as nat) + ". "@ + steps.last().fact.words()
            + "\n"@)
    }
}

/// The lines of some commands.
pub open spec fn command_lines(commands: Seq<Seq<char>>) -> Seq<char>
    decreases commands.len(),
{
    if commands.len() == 0 {
        Seq::empty()
    } else {
        command_lines(commands.drop_last()) + ("    $ "@ + commands.last() + "\n"@)
    }
}

impl ChainView {
    pub open spec fn words(self) -> Seq<char> {
        let head = self.finding.tag() + ": "@ + self.subject + "\n"@ + step_lines(self.steps);
        if self.replay.len() == 0 {
            head
        } else {
            head + "  replay:\n"@ + command_lines(self.replay)
        }
    }
}

impl Chain {
    /// The chain in words, derived from the facts alone.
    pub fn render(&self) -> (r: String)
        ensures
            r@ == self.deep_view().words(),
    {
        let ghost cv = self.deep_view();
        let mut lines: String = String::new();
        let mut i: usize = 0;
        while i < self.steps.len()
            invariant
                i <= self.steps.len(),
                cv == self.deep_view(),
                lines@ == step_lines(cv.steps.take(i as int)),
            decreases self.steps.len() - i,
        {
            proof {
                lemma_take_next(cv.steps, i as int);
            }
            assert(cv.steps[i as int] == self.steps[i as int].deep_view());
            let mut line: String = "  ".to_owned();
            line.append(count_text(self.steps[i].index).as_str());
            line.append(". ");
            line.append(self.steps[i].fact.describe().as_str());
            line.append("\n");
            lines.append(line.as_str());
            i += 1;
        }
        assert(cv.steps.take(i as int) =~= cv.steps);
        let mut out: String = self.finding.as_tag().to_owned();
        out.append(": ");
        out.append(self.subject.as_str());
        out.append("\n");
        out.append(lines.as_str());
        if self.replay.len() > 0 {
            let mut commands: String = String::new();
            let mut k: usize = 0;
            while k < self.replay.len()
                invariant
                    k <= self.replay.len(),
                    cv == self.deep_view(),
                    commands@ == command_lines(cv.replay.take(k as int)),
                decreases self.replay.len() - k,
            {
                proof {
                    lemma_take_next(cv.replay, k as int);
                }
                let mut line: String = "    $ ".to_owned();
                line.append(self.replay[k].as_str());
                line.append("\n");
                commands.append(line.as_str());
                k += 1;
            }
            assert(cv.replay.take(k as int) =~= cv.replay);
            out.append("  replay:\n");
            out.append(commands.as_str());
        }
        out
    }
}

} // verus!
