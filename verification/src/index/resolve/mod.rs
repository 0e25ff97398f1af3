//! Binding references to definitions by name.
//!
//! A reference carries the text that names its target. A cascade of rules
//! narrows the definitions that could be meant; the first rule that leaves
//! exactly one binds. A qualified name is matched whole or as a suffix and
//! never by its bare tail; a bare name is matched in its own file, then by the
//! file's imports, then across the project. Where several definitions are left
//! the reference is ambiguous, and none is chosen.

pub mod cascade;
pub mod frame;
pub mod imports;
pub mod indices;
pub mod laws;
pub mod meaning;
pub mod names;
pub mod pass;
pub mod passes;
pub mod uses;

pub use crate::index::resolve::cascade::{resolve_all, resolve_one, resolve_one_traced};
pub use crate::index::resolve::indices::{build_indices, Indices};
pub use crate::index::resolve::names::{bare_name, language_family, normalize_separators};
pub use crate::index::resolve::pass::{resolve_incremental, resolve_project, ResolveStats};
pub use crate::index::resolve::uses::{parse_rust_use, ImportFact};

use vstd::prelude::*;

verus! {

/// A definition, as far as the cascade reads it.
#[derive(Debug, Clone)]
pub struct ResolverNode {
    pub id: String,
    pub name: String,
    pub node_type: String,
    pub language: String,
    pub file_path: String,
    pub qualified_name: String,
}

/// A reference that is to be bound. `to_name` is the text of the source.
#[derive(Debug, Clone)]
pub struct UnresolvedEdge {
    pub from_id: String,
    pub to_name: String,
    pub to_type: String,
    pub edge_type: String,
}

/// What the cascade says of one reference.
#[derive(Debug, Clone, PartialEq, Eq)]
pub struct Binding {
    pub to_id: Option<String>,
    pub confidence: &'static str,
    pub resolved_by: &'static str,
    /// The ids of the definitions that were left, sorted, where there were several.
    pub candidates: Option<Vec<String>>,
}

#[verifier::ext_equal]
pub struct NodeView {
    pub id: Seq<char>,
    pub name: Seq<char>,
    pub node_type: Seq<char>,
    pub language: Seq<char>,
    pub file_path: Seq<char>,
    pub qualified_name: Seq<char>,
}

#[verifier::ext_equal]
pub struct EdgeView {
    pub from_id: Seq<char>,
    pub to_name: Seq<char>,
    pub to_type: Seq<char>,
    pub edge_type: Seq<char>,
}

#[verifier::ext_equal]
pub struct BindingView {
    pub to_id: Option<Seq<char>>,
    pub confidence: Seq<char>,
    pub resolved_by: Seq<char>,
    pub candidates: Option<Seq<Seq<char>>>,
}

impl DeepView for ResolverNode {
    type V = NodeView;

    open spec fn deep_view(&self) -> NodeView {
        NodeView {
            id: self.id@,
            name: self.name@,
            node_type: self.node_type@,
            language: self.language@,
            file_path: self.file_path@,
            qualified_name: self.qualified_name@,
        }
    }
}

impl DeepView for UnresolvedEdge {
    type V = EdgeView;

    open spec fn deep_view(&self) -> EdgeView {
        EdgeView {
            from_id: self.from_id@,
            to_name: self.to_name@,
            to_type: self.to_type@,
            edge_type: self.edge_type@,
        }
    }
}

impl DeepView for Binding {
    type V = BindingView;

    open spec fn deep_view(&self) -> BindingView {
        BindingView {
            to_id: match self.to_id {
                Some(s) => Some(s@),
                None => None,
            },
            confidence: self.confidence@,
            resolved_by: self.resolved_by@,
            candidates: match self.candidates {
                Some(v) => Some(v.deep_view()),
                None => None,
            },
        }
    }
}

/// The nodes of a slice, as mathematical values.
pub open spec fn node_views(nodes: Seq<ResolverNode>) -> Seq<NodeView> {
    Seq::new(nodes.len(), |i: int| nodes[i].deep_view())
}

/// The references of a slice, as mathematical values.
pub open spec fn edge_views(edges: Seq<UnresolvedEdge>) -> Seq<EdgeView> {
    Seq::new(edges.len(), |i: int| edges[i].deep_view())
}

/// What one rule made of the candidates.
#[derive(Debug, Clone, Copy, PartialEq, Eq, Structural)]
pub enum RuleOutcome {
    /// The rule's precondition did not hold.
    Skipped,
    /// The rule admitted nothing.
    NoMatch,
    /// The rule admitted several definitions.
    NotUnique,
    /// The rule admitted one definition, and bound it.
    Bound,
}

impl RuleOutcome {
    pub open spec fn tag(self) -> Seq<char> {
        match self {
            RuleOutcome::Skipped => "skipped"@,
            RuleOutcome::NoMatch => "no_match"@,
            RuleOutcome::NotUnique => "not_unique"@,
            RuleOutcome::Bound => "bound"@,
        }
    }

    pub fn as_tag(self) -> (r: &'static str)
        ensures
            r@ == self.tag(),
    {
        match self {
            RuleOutcome::Skipped => "skipped",
            RuleOutcome::NoMatch => "no_match",
            RuleOutcome::NotUnique => "not_unique",
            RuleOutcome::Bound => "bound",
        }
    }
}

/// Why the cascade ended.
#[derive(Debug, Clone, Copy, PartialEq, Eq, Structural)]
pub enum CascadeEnd {
    /// The reference's own node is not known.
    OrphanedSource,
    /// A rule bound the reference.
    Bound,
    /// Several definitions were left.
    Ambiguous,
    /// No definition was left.
    NoCandidate,
}

impl CascadeEnd {
    pub open spec fn tag(self) -> Seq<char> {
        match self {
            CascadeEnd::OrphanedSource => "orphaned_source"@,
            CascadeEnd::Bound => "bound"@,
            CascadeEnd::Ambiguous => "ambiguous"@,
            CascadeEnd::NoCandidate => "no_candidate"@,
        }
    }

    pub fn as_tag(self) -> (r: &'static str)
        ensures
            r@ == self.tag(),
    {
        match self {
            CascadeEnd::OrphanedSource => "orphaned_source",
            CascadeEnd::Bound => "bound",
            CascadeEnd::Ambiguous => "ambiguous",
            CascadeEnd::NoCandidate => "no_candidate",
        }
    }
}

/// One rule that the cascade reached: the places of the nodes it admitted, and
/// what it made of them.
#[derive(Debug, Clone)]
pub struct RuleAttempt {
    pub rule: &'static str,
    pub hits: Vec<usize>,
    pub outcome: RuleOutcome,
}

/// Every rule that the cascade reached for one reference, and why it ended.
#[derive(Debug, Clone)]
pub struct ResolutionTrace {
    pub attempts: Vec<RuleAttempt>,
    pub outcome: CascadeEnd,
}

#[verifier::ext_equal]
pub struct AttemptView {
    pub rule: Seq<char>,
    pub hits: Seq<usize>,
    pub outcome: RuleOutcome,
}

#[verifier::ext_equal]
pub struct TraceView {
    pub attempts: Seq<AttemptView>,
    pub outcome: CascadeEnd,
}

impl DeepView for RuleAttempt {
    type V = AttemptView;

    open spec fn deep_view(&self) -> AttemptView {
        AttemptView { rule: self.rule@, hits: self.hits@, outcome: self.outcome }
    }
}

impl DeepView for ResolutionTrace {
    type V = TraceView;

    open spec fn deep_view(&self) -> TraceView {
        TraceView { attempts: self.attempts.deep_view(), outcome: self.outcome }
    }
}

impl TraceView {
    /// The names of the rules that the cascade reached.
    pub open spec fn rules(self) -> Seq<Seq<char>> {
        Seq::new(self.attempts.len(), |i: int| self.attempts[i].rule)
    }
}

impl ResolutionTrace {
    /// The names of the rules that the cascade reached.
    pub fn attempted_rules(&self) -> (r: Vec<String>)
        ensures
            r.deep_view() == self.deep_view().rules(),
    {
        let mut r: Vec<String> = Vec::new();
        let mut i: usize = 0;
        while i < self.attempts.len()
            invariant
                i <= self.attempts.len(),
                r.len() == i,
                forall|k: int| 0 <= k < i ==> (#[trigger] r[k])@ == self.attempts[k].rule@,
            decreases self.attempts.len() - i,
        {
            r.push(self.attempts[i].rule.to_owned());
            i = i + 1;
        }
        assert(r.deep_view() =~= self.deep_view().rules());
        r
    }
}

} // verus!
