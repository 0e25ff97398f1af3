//! Evidence for findings, in steps that can be checked again.
//!
//! A chain is the derivation behind a finding: that a reference is stale, that
//! the resolver refused to choose, that a symbol has a dependent. Every step of
//! a chain is a fact, and every fact can be checked against a graph. Checking
//! derives the answer anew: it runs the resolver's cascade, and recomputes
//! candidate pools, live definitions and depths. A stored row is compared with
//! only where the fact is about that row.

pub mod cache;
pub mod chains;
pub mod check;
pub mod depth;
pub mod evidence;
pub mod findings;
pub mod laws;
pub mod rows;
pub mod said;
pub mod words;

pub use crate::graph::explain::cache::{should_cache, ExplainGraphCache};
pub use crate::graph::explain::chains::{
    explain_ambiguous_refusal, explain_dependent, explain_stale_reference, explain_symbol,
};
pub use crate::graph::explain::check::{verify_chain, verify_chain_json};
pub use crate::graph::explain::rows::ExplainGraph;

use vstd::prelude::*;

verus! {

/// The version of the chain format.
pub const EXPLAIN_VERSION: u32 = 2;

/// How deep dependents are explained.
pub const EXPLAIN_DEPTH: usize = 3;

/// A definition, with the line it starts at.
#[derive(Debug, Clone, PartialEq, Eq)]
pub struct ExplainNode {
    pub node_id: String,
    pub name: String,
    pub node_type: String,
    pub language: String,
    pub file_path: String,
    pub qualified_name: String,
    pub start_line: Option<i64>,
}

/// A reference, with all that resolution wrote on it.
#[derive(Debug, Clone, PartialEq, Eq)]
pub struct ExplainEdge {
    pub from_id: String,
    pub to_id: String,
    pub to_name: String,
    pub to_type: String,
    pub edge_type: String,
    pub confidence: String,
    pub resolved_by: String,
    pub candidates: Vec<String>,
    pub attempted_rules: Vec<String>,
    pub resolution_outcome: String,
}

/// The record of a definition that disappeared.
#[derive(Debug, Clone, PartialEq, Eq, Hash)]
pub struct DeletedSymbol {
    pub name: String,
    pub qualified_name: String,
    pub node_type: String,
    pub file_path: String,
}

/// What identifies a reference.
#[derive(Debug, Clone, PartialEq, Eq, Hash)]
pub struct EdgeKey {
    pub from_id: String,
    pub to_name: String,
    pub to_type: String,
    pub edge_type: String,
}

/// Which finding a chain explains.
#[derive(Debug, Clone, Copy, PartialEq, Eq, Structural)]
pub enum FindingKind {
    /// A surviving reference to a symbol, which the resolver could not bind.
    StaleReference,
    /// The resolver saw several candidates and refused to choose.
    AmbiguousRefusal,
    /// A dependent, hop by hop.
    Dependent,
}

/// How a symbol entered a query: exactly, in either case.
#[derive(Debug, Clone, PartialEq, Eq)]
pub enum Membership {
    /// The caller named it.
    ExplicitSymbol,
    /// An earlier run saw the definition disappear.
    Deleted(DeletedSymbol),
}

/// One claim that can be checked again.
#[derive(Debug, Clone, PartialEq, Eq)]
pub enum Fact {
    /// The subject was given by name.
    ExplicitSymbolQuery { name: String },
    /// The subject entered by this record.
    DeletionRecord(DeletedSymbol),
    /// All live definitions of a name.
    LiveDefinitions { name: String, node_ids: Vec<String> },
    /// A node exists with exactly these attributes.
    NodeExists {
        node_id: String,
        name: String,
        node_type: String,
        language: String,
        file_path: String,
        qualified_name: String,
        start_line: Option<i64>,
    },
    /// A reference exists with this verdict.
    EdgeExists {
        key: EdgeKey,
        confidence: String,
        resolved_by: String,
        to_id: String,
        candidates: Vec<String>,
    },
    /// The candidate pool of a capture.
    CandidatePool { bare: String, to_type: String, language_family: String, node_ids: Vec<String> },
    /// One rule of the cascade, with what it admitted.
    RuleApplication { key: EdgeKey, rule: String, hit_ids: Vec<String>, outcome: String },
    /// How the cascade ended, and the rules it reached.
    CascadeOutcome { key: EdgeKey, outcome: String, attempted_rules: Vec<String> },
    /// One hop of a path of dependents.
    ResolvedHop { key: EdgeKey, to_id: String, resolved_by: String, depth: usize },
}

/// One link of a chain.
#[derive(Debug, Clone, PartialEq, Eq)]
pub struct Step {
    /// The position in the chain, from 1.
    pub index: usize,
    pub fact: Fact,
}

/// The derivation behind one finding.
#[derive(Debug, Clone, PartialEq, Eq)]
pub struct Chain {
    pub explain_version: u32,
    pub finding: FindingKind,
    /// The symbol that the chain is about.
    pub subject: String,
    pub steps: Vec<Step>,
    /// Commands that derive the chain again.
    pub replay: Vec<String>,
}

/// The result of checking one step.
#[derive(Debug, Clone, PartialEq, Eq)]
pub struct StepVerdict {
    pub index: usize,
    pub fact: String,
    pub ok: bool,
    /// What the graph says instead, where the step fails.
    pub reason: Option<String>,
}

/// The result of checking a chain.
#[derive(Debug, Clone, PartialEq, Eq)]
pub struct ChainVerdict {
    pub ok: bool,
    /// The chain's version, where it is not one that can be checked.
    pub unsupported_version: Option<u32>,
    pub steps: Vec<StepVerdict>,
}

// ---- the same, as mathematical values ------------------------------------------------------

#[verifier::ext_equal]
pub struct NodeRow {
    pub node_id: Seq<char>,
    pub name: Seq<char>,
    pub node_type: Seq<char>,
    pub language: Seq<char>,
    pub file_path: Seq<char>,
    pub qualified_name: Seq<char>,
    pub start_line: Option<i64>,
}

#[verifier::ext_equal]
pub struct EdgeRow {
    pub key: KeyView,
    pub to_id: Seq<char>,
    pub confidence: Seq<char>,
    pub resolved_by: Seq<char>,
    pub candidates: Seq<Seq<char>>,
    pub attempted_rules: Seq<Seq<char>>,
    pub resolution_outcome: Seq<char>,
}

#[verifier::ext_equal]
pub struct DeletedView {
    pub name: Seq<char>,
    pub qualified_name: Seq<char>,
    pub node_type: Seq<char>,
    pub file_path: Seq<char>,
}

#[verifier::ext_equal]
pub struct KeyView {
    pub from_id: Seq<char>,
    pub to_name: Seq<char>,
    pub to_type: Seq<char>,
    pub edge_type: Seq<char>,
}

#[verifier::ext_equal]
pub enum MembershipView {
    ExplicitSymbol,
    Deleted(DeletedView),
}

#[verifier::ext_equal]
pub enum FactView {
    ExplicitSymbolQuery { name: Seq<char> },
    DeletionRecord(DeletedView),
    LiveDefinitions { name: Seq<char>, node_ids: Seq<Seq<char>> },
    NodeExists(NodeRow),
    EdgeExists {
        key: KeyView,
        confidence: Seq<char>,
        resolved_by: Seq<char>,
        to_id: Seq<char>,
        candidates: Seq<Seq<char>>,
    },
    CandidatePool {
        bare: Seq<char>,
        to_type: Seq<char>,
        language_family: Seq<char>,
        node_ids: Seq<Seq<char>>,
    },
    RuleApplication { key: KeyView, rule: Seq<char>, hit_ids: Seq<Seq<char>>, outcome: Seq<char> },
    CascadeOutcome { key: KeyView, outcome: Seq<char>, attempted_rules: Seq<Seq<char>> },
    ResolvedHop { key: KeyView, to_id: Seq<char>, resolved_by: Seq<char>, depth: usize },
}

#[verifier::ext_equal]
pub struct StepView {
    pub index: usize,
    pub fact: FactView,
}

#[verifier::ext_equal]
pub struct ChainView {
    pub explain_version: u32,
    pub finding: FindingKind,
    pub subject: Seq<char>,
    pub steps: Seq<StepView>,
    pub replay: Seq<Seq<char>>,
}

#[verifier::ext_equal]
pub struct StepVerdictView {
    pub index: usize,
    pub fact: Seq<char>,
    pub ok: bool,
    pub reason: Option<Seq<char>>,
}

#[verifier::ext_equal]
pub struct ChainVerdictView {
    pub ok: bool,
    pub unsupported_version: Option<u32>,
    pub steps: Seq<StepVerdictView>,
}

pub open spec fn opt_text(s: Option<String>) -> Option<Seq<char>> {
    match s {
        Some(t) => Some(t@),
        None => None,
    }
}

impl DeepView for ExplainNode {
    type V = NodeRow;

    open spec fn deep_view(&self) -> NodeRow {
        NodeRow {
            node_id: self.node_id@,
            name: self.name@,
            node_type: self.node_type@,
            language: self.language@,
            file_path: self.file_path@,
            qualified_name: self.qualified_name@,
            start_line: self.start_line,
        }
    }
}

impl DeepView for ExplainEdge {
    type V = EdgeRow;

    open spec fn deep_view(&self) -> EdgeRow {
        EdgeRow {
            key: KeyView {
                from_id: self.from_id@,
                to_name: self.to_name@,
                to_type: self.to_type@,
                edge_type: self.edge_type@,
            },
            to_id: self.to_id@,
            confidence: self.confidence@,
            resolved_by: self.resolved_by@,
            candidates: self.candidates.deep_view(),
            attempted_rules: self.attempted_rules.deep_view(),
            resolution_outcome: self.resolution_outcome@,
        }
    }
}

impl DeepView for DeletedSymbol {
    type V = DeletedView;

    open spec fn deep_view(&self) -> DeletedView {
        DeletedView {
            name: self.name@,
            qualified_name: self.qualified_name@,
            node_type: self.node_type@,
            file_path: self.file_path@,
        }
    }
}

impl DeepView for EdgeKey {
    type V = KeyView;

    open spec fn deep_view(&self) -> KeyView {
        KeyView {
            from_id: self.from_id@,
            to_name: self.to_name@,
            to_type: self.to_type@,
            edge_type: self.edge_type@,
        }
    }
}

impl DeepView for Membership {
    type V = MembershipView;

    open spec fn deep_view(&self) -> MembershipView {
        match self {
            Membership::ExplicitSymbol => MembershipView::ExplicitSymbol,
            Membership::Deleted(d) => MembershipView::Deleted(d.deep_view()),
        }
    }
}

impl DeepView for Fact {
    type V = FactView;

    open spec fn deep_view(&self) -> FactView {
        match self {
            Fact::ExplicitSymbolQuery { name } => FactView::ExplicitSymbolQuery { name: name@ },
            Fact::DeletionRecord(d) => FactView::DeletionRecord(d.deep_view()),
            Fact::LiveDefinitions { name, node_ids } => FactView::LiveDefinitions {
                name: name@,
                node_ids: node_ids.deep_view(),
            },
            Fact::NodeExists { node_id, name, node_type, language, file_path, qualified_name, start_line } => {
                FactView::NodeExists(
                    NodeRow {
                        node_id: node_id@,
                        name: name@,
                        node_type: node_type@,
                        language: language@,
                        file_path: file_path@,
                        qualified_name: qualified_name@,
                        start_line: *start_line,
                    },
                )
            },
            Fact::EdgeExists { key, confidence, resolved_by, to_id, candidates } => FactView::EdgeExists {
                key: key.deep_view(),
                confidence: confidence@,
                resolved_by: resolved_by@,
                to_id: to_id@,
                candidates: candidates.deep_view(),
            },
            Fact::CandidatePool { bare, to_type, language_family, node_ids } => FactView::CandidatePool {
                bare: bare@,
                to_type: to_type@,
                language_family: language_family@,
                node_ids: node_ids.deep_view(),
            },
            Fact::RuleApplication { key, rule, hit_ids, outcome } => FactView::RuleApplication {
                key: key.deep_view(),
                rule: rule@,
                hit_ids: hit_ids.deep_view(),
                outcome: outcome@,
            },
            Fact::CascadeOutcome { key, outcome, attempted_rules } => FactView::CascadeOutcome {
                key: key.deep_view(),
                outcome: outcome@,
                attempted_rules: attempted_rules.deep_view(),
            },
            Fact::ResolvedHop { key, to_id, resolved_by, depth } => FactView::ResolvedHop {
                key: key.deep_view(),
                to_id: to_id@,
                resolved_by: resolved_by@,
                depth: *depth,
            },
        }
    }
}

impl DeepView for Step {
    type V = StepView;

    open spec fn deep_view(&self) -> StepView {
        StepView { index: self.index, fact: self.fact.deep_view() }
    }
}

impl DeepView for Chain {
    type V = ChainView;

    open spec fn deep_view(&self) -> ChainView {
        ChainView {
            explain_version: self.explain_version,
            finding: self.finding,
            subject: self.subject@,
            steps: self.steps.deep_view(),
            replay: self.replay.deep_view(),
        }
    }
}

impl DeepView for StepVerdict {
    type V = StepVerdictView;

    open spec fn deep_view(&self) -> StepVerdictView {
        StepVerdictView { index: self.index, fact: self.fact@, ok: self.ok, reason: opt_text(self.reason) }
    }
}

impl DeepView for ChainVerdict {
    type V = ChainVerdictView;

    open spec fn deep_view(&self) -> ChainVerdictView {
        ChainVerdictView {
            ok: self.ok,
            unsupported_version: self.unsupported_version,
            steps: self.steps.deep_view(),
        }
    }
}

} // verus!
