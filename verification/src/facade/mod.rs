//! What a caller asks of a project's graph: the impact of touching a symbol
//! or some files, with evidence where it is wanted, and how much of the
//! structure a change preserved.

use vstd::prelude::*;
use crate::gather::flatten;
use crate::graph::dependencies::{
    compute_reverse_dependencies, dependency_groups, stale_refs, AmbiguousRefView, DependencyGroup,
    DependencyGroupView, DependencyNodeView, DependencyResult, UnresolvedRefView,
};
use crate::graph::explain::{Chain, ChainView};
use crate::graph::web::{query_views, QueryEdge, QueryEdgeView, Way};
use crate::index::resolve::{node_views, NodeView, ResolverNode};
use crate::lookup::{lemma_take_next, put};
use crate::text::copy_texts;

pub mod delta;
pub mod paths;
pub mod renames;
pub mod verdicts;

pub use crate::facade::delta::{classify_delta, structural_delta_for_paths, DeltaSymbol, StructuralDelta};
pub use crate::facade::paths::{
    deleted_symbol_names, deleted_symbol_rows, explain_verdict, explain_verdict_for_paths,
    impact_verdict_for_paths,
    touched_symbol_names,
};

verus! {

/// How far every query follows references.
pub const DEFAULT_DEPTH: usize = 3;

/// What was asked about.
#[derive(Clone, Debug)]
pub enum VerdictTarget {
    Symbol(String),
    Paths(Vec<String>),
}

pub enum TargetView {
    Symbol(Seq<char>),
    Paths(Seq<Seq<char>>),
}

impl DeepView for VerdictTarget {
    type V = TargetView;

    open spec fn deep_view(&self) -> TargetView {
        match self {
            VerdictTarget::Symbol(s) => TargetView::Symbol(s@),
            VerdictTarget::Paths(v) => TargetView::Paths(v.deep_view()),
        }
    }
}

impl Default for VerdictTarget {
    /// No files.
    fn default() -> (r: Self)
        ensures
            r.deep_view() == TargetView::Paths(Seq::empty()),
    {
        let v: Vec<String> = Vec::new();
        assert(v.deep_view() =~= Seq::<Seq<char>>::empty());
        VerdictTarget::Paths(v)
    }
}

/// A definition that a verdict is about.
#[derive(Clone, Debug)]
pub struct MatchedSymbol {
    pub node_id: String,
    pub qualified_name: String,
    pub name: String,
    pub file_path: String,
}

/// Something that depends on a matched definition.
#[derive(Clone, Debug)]
pub struct Dependent {
    pub node_id: String,
    pub name: String,
    pub qualified_name: String,
    pub node_type: String,
    pub file_path: String,
    pub depth: usize,
    /// The qualified name of the definition that it depends on.
    pub of_symbol: String,
}

/// A reference that could mean a matched definition or another one.
#[derive(Clone, Debug)]
pub struct AmbiguousRefusal {
    pub from_name: String,
    pub from_file: String,
    pub to_name: String,
    pub to_type: String,
    pub candidates: Vec<String>,
    pub of_symbol: String,
}

/// A reference that plausibly means a name and is bound to nothing.
#[derive(Clone, Debug)]
pub struct StaleReference {
    pub from_name: String,
    pub from_file: String,
    pub to_name: String,
    pub to_type: String,
}

#[verifier::ext_equal]
pub struct MatchedView {
    pub node_id: Seq<char>,
    pub qualified_name: Seq<char>,
    pub name: Seq<char>,
    pub file_path: Seq<char>,
}

#[verifier::ext_equal]
pub struct DependentView {
    pub item: DependencyNodeView,
    pub of_symbol: Seq<char>,
}

#[verifier::ext_equal]
pub struct RefusalView {
    pub from_name: Seq<char>,
    pub from_file: Seq<char>,
    pub to_name: Seq<char>,
    pub to_type: Seq<char>,
    pub candidates: Seq<Seq<char>>,
    pub of_symbol: Seq<char>,
}

#[verifier::ext_equal]
pub struct StaleView {
    pub from_name: Seq<char>,
    pub from_file: Seq<char>,
    pub to_name: Seq<char>,
    pub to_type: Seq<char>,
}

impl DeepView for MatchedSymbol {
    type V = MatchedView;

    open spec fn deep_view(&self) -> MatchedView {
        MatchedView {
            node_id: self.node_id@,
            qualified_name: self.qualified_name@,
            name: self.name@,
            file_path: self.file_path@,
        }
    }
}

impl DeepView for Dependent {
    type V = DependentView;

    open spec fn deep_view(&self) -> DependentView {
        DependentView {
            item: DependencyNodeView {
                node_id: self.node_id@,
                name: self.name@,
                qualified_name: self.qualified_name@,
                node_type: self.node_type@,
                file_path: self.file_path@,
                depth: self.depth,
            },
            of_symbol: self.of_symbol@,
        }
    }
}

impl DeepView for AmbiguousRefusal {
    type V = RefusalView;

    open spec fn deep_view(&self) -> RefusalView {
        RefusalView {
            from_name: self.from_name@,
            from_file: self.from_file@,
            to_name: self.to_name@,
            to_type: self.to_type@,
            candidates: self.candidates.deep_view(),
            of_symbol: self.of_symbol@,
        }
    }
}

impl DeepView for StaleReference {
    type V = StaleView;

    open spec fn deep_view(&self) -> StaleView {
        StaleView {
            from_name: self.from_name@,
            from_file: self.from_file@,
            to_name: self.to_name@,
            to_type: self.to_type@,
        }
    }
}

/// The impact of touching a symbol or some files.
#[derive(Clone, Debug)]
pub struct StructuralVerdict {
    pub target: VerdictTarget,
    /// What depends on the matched definitions: context, no objection.
    pub resolved_dependents: Vec<Dependent>,
    /// References that could mean several definitions: an objection.
    pub ambiguous_refusals: Vec<AmbiguousRefusal>,
    /// References to a name that are bound to nothing: an objection.
    pub stale_references: Vec<StaleReference>,
    /// Did a name match more than one definition?
    pub name_ambiguous: bool,
    pub matched_symbols: Vec<MatchedSymbol>,
    /// Has the project no node at all? Matching nothing is another matter.
    pub graph_empty: bool,
    /// The evidence behind the findings, where it was asked for.
    pub explanations: Option<Vec<Chain>>,
}

#[verifier::ext_equal]
pub struct VerdictView {
    pub target: TargetView,
    pub resolved_dependents: Seq<DependentView>,
    pub ambiguous_refusals: Seq<RefusalView>,
    pub stale_references: Seq<StaleView>,
    pub name_ambiguous: bool,
    pub matched_symbols: Seq<MatchedView>,
    pub graph_empty: bool,
    pub explanations: Option<Seq<ChainView>>,
}

impl DeepView for StructuralVerdict {
    type V = VerdictView;

    open spec fn deep_view(&self) -> VerdictView {
        VerdictView {
            target: self.target.deep_view(),
            resolved_dependents: self.resolved_dependents.deep_view(),
            ambiguous_refusals: self.ambiguous_refusals.deep_view(),
            stale_references: self.stale_references.deep_view(),
            name_ambiguous: self.name_ambiguous,
            matched_symbols: self.matched_symbols.deep_view(),
            graph_empty: self.graph_empty,
            explanations: self.explanations.deep_view(),
        }
    }
}

impl StructuralVerdict {
    /// Is there no objection?
    pub fn is_clean(&self) -> (r: bool)
        ensures
            r == (self.deep_view().ambiguous_refusals.len() == 0 && self.deep_view().stale_references.len() == 0),
    {
        self.ambiguous_refusals.len() == 0 && self.stale_references.len() == 0
    }

    pub fn resolved_dependent_count(&self) -> (r: usize)
        ensures
            r == self.deep_view().resolved_dependents.len(),
    {
        self.resolved_dependents.len()
    }

    pub fn ambiguous_count(&self) -> (r: usize)
        ensures
            r == self.deep_view().ambiguous_refusals.len(),
    {
        self.ambiguous_refusals.len()
    }

    pub fn stale_count(&self) -> (r: usize)
        ensures
            r == self.deep_view().stale_references.len(),
    {
        self.stale_references.len()
    }
}

/// Why a query of a store failed.
#[derive(Clone, Debug)]
pub enum FacadeError {
    /// The store cannot be reached.
    Connection(String),
    /// A query ran and failed.
    Query(String),
}

impl FacadeError {
    /// The error in words.
    pub fn message(&self) -> (r: String)
        ensures
            r@ == match self {
                FacadeError::Connection(m) => "codegraph store unavailable: "@ + m@,
                FacadeError::Query(m) => "codegraph query failed: "@ + m@,
            },
    {
        match self {
            FacadeError::Connection(m) => {
                let mut r = "codegraph store unavailable: ".to_owned();
                r.append(m.as_str());
                r
            },
            FacadeError::Query(m) => {
                let mut r = "codegraph query failed: ".to_owned();
                r.append(m.as_str());
                r
            },
        }
    }
}

// ---- one name -------------------------------------------------------------------------------

pub open spec fn matched_of(name: Seq<char>) -> spec_fn(DependencyGroupView) -> MatchedView {
    |g: DependencyGroupView|
        MatchedView {
            node_id: g.root_node_id,
            qualified_name: g.root_qualified_name,
            name,
            file_path: g.root_file,
        }
}

pub open spec fn dependents_of() -> spec_fn(DependencyGroupView) -> Seq<DependentView> {
    |g: DependencyGroupView|
        g.items.map_values(
            |item: DependencyNodeView| DependentView { item, of_symbol: g.root_qualified_name },
        )
}

pub open spec fn refusals_of() -> spec_fn(DependencyGroupView) -> Seq<RefusalView> {
    |g: DependencyGroupView|
        g.ambiguous.map_values(
            |a: AmbiguousRefView|
                RefusalView {
                    from_name: a.from_name,
                    from_file: a.from_file,
                    to_name: a.to_name,
                    to_type: a.to_type,
                    candidates: a.candidates,
                    of_symbol: g.root_qualified_name,
                },
        )
}

pub open spec fn stale_of() -> spec_fn(UnresolvedRefView) -> StaleView {
    |u: UnresolvedRefView|
        StaleView { from_name: u.from_name, from_file: u.from_file, to_name: u.to_name, to_type: u.to_type }
}

/// The verdict that groups of dependents and stale references make.
pub open spec fn projected(
    target: TargetView,
    name: Seq<char>,
    groups: Seq<DependencyGroupView>,
    name_ambiguous: bool,
    stale: Seq<UnresolvedRefView>,
    graph_empty: bool,
) -> VerdictView {
    VerdictView {
        target,
        resolved_dependents: flatten(groups, dependents_of()),
        ambiguous_refusals: flatten(groups, refusals_of()),
        stale_references: stale.map_values(stale_of()),
        name_ambiguous,
        matched_symbols: groups.map_values(matched_of(name)),
        graph_empty,
        explanations: None,
    }
}

fn add_dependents(out: &mut Vec<Dependent>, g: &DependencyGroup)
    ensures
        final(out).deep_view() == old(out).deep_view() + dependents_of()(g.deep_view()),
{
    let ghost had = out.deep_view();
    let ghost want = dependents_of()(g.deep_view());
    let mut i: usize = 0;
    assert(had + want.take(0) =~= had);
    while i < g.items.len()
        invariant
            i <= g.items@.len(),
            want == dependents_of()(g.deep_view()),
            out.deep_view() == had + want.take(i as int),
        decreases g.items.len() - i,
    {
        let item = &g.items[i];
        proof {
            assert(want.len() == g.items@.len());
            lemma_take_next(want, i as int);
            assert(g.items.deep_view()[i as int] == item.deep_view());
            assert(had + want.take(i + 1) =~= (had + want.take(i as int)).push(want[i as int]));
        }
        put(
            out,
            Dependent {
                node_id: item.node_id.as_str().to_owned(),
                name: item.name.as_str().to_owned(),
                qualified_name: item.qualified_name.as_str().to_owned(),
                node_type: item.node_type.as_str().to_owned(),
                file_path: item.file_path.as_str().to_owned(),
                depth: item.depth,
                of_symbol: g.root_qualified_name.as_str().to_owned(),
            },
        );
        i = i + 1;
    }
    assert(want.take(i as int) =~= want);
}

fn add_refusals(out: &mut Vec<AmbiguousRefusal>, g: &DependencyGroup)
    ensures
        final(out).deep_view() == old(out).deep_view() + refusals_of()(g.deep_view()),
{
    let ghost had = out.deep_view();
    let ghost want = refusals_of()(g.deep_view());
    let mut i: usize = 0;
    assert(had + want.take(0) =~= had);
    while i < g.ambiguous.len()
        invariant
            i <= g.ambiguous@.len(),
            want == refusals_of()(g.deep_view()),
            out.deep_view() == had + want.take(i as int),
        decreases g.ambiguous.len() - i,
    {
        let a = &g.ambiguous[i];
        proof {
            assert(want.len() == g.ambiguous@.len());
            lemma_take_next(want, i as int);
            assert(g.ambiguous.deep_view()[i as int] == a.deep_view());
            assert(had + want.take(i + 1) =~= (had + want.take(i as int)).push(want[i as int]));
        }
        put(
            out,
            AmbiguousRefusal {
                from_name: a.from_name.as_str().to_owned(),
                from_file: a.from_file.as_str().to_owned(),
                to_name: a.to_name.as_str().to_owned(),
                to_type: a.to_type.as_str().to_owned(),
                candidates: copy_texts(&a.candidates),
                of_symbol: g.root_qualified_name.as_str().to_owned(),
            },
        );
        i = i + 1;
    }
    assert(want.take(i as int) =~= want);
}

/// The verdict that a query's result makes. The queried name is the bare
/// name that every group's definition has.
pub fn project_dependency_result(
    target: VerdictTarget,
    queried_name: &str,
    dep_result: &DependencyResult,
    graph_empty: bool,
) -> (r: StructuralVerdict)
    ensures
        r.deep_view() == projected(
            target.deep_view(),
            queried_name@,
            dep_result.groups.deep_view(),
            dep_result.name_ambiguous,
            dep_result.stale_references.deep_view(),
            graph_empty,
        ),
{
    let ghost groups = dep_result.groups.deep_view();
    let mut matched_symbols: Vec<MatchedSymbol> = Vec::new();
    let mut resolved_dependents: Vec<Dependent> = Vec::new();
    let mut ambiguous_refusals: Vec<AmbiguousRefusal> = Vec::new();
    let ghost want = groups.map_values(matched_of(queried_name@));
    let mut i: usize = 0;
    assert(matched_symbols.deep_view() =~= want.take(0));
    assert(resolved_dependents.deep_view() =~= flatten(groups.take(0), dependents_of()));
    assert(ambiguous_refusals.deep_view() =~= flatten(groups.take(0), refusals_of()));
    while i < dep_result.groups.len()
        invariant
            i <= dep_result.groups@.len(),
            groups == dep_result.groups.deep_view(),
            want == groups.map_values(matched_of(queried_name@)),
            matched_symbols.deep_view() == want.take(i as int),
            resolved_dependents.deep_view() == flatten(groups.take(i as int), dependents_of()),
            ambiguous_refusals.deep_view() == flatten(groups.take(i as int), refusals_of()),
        decreases dep_result.groups.len() - i,
    {
        let g = &dep_result.groups[i];
        proof {
            assert(groups.len() == dep_result.groups@.len());
            lemma_take_next(groups, i as int);
            lemma_take_next(want, i as int);
            assert(groups[i as int] == g.deep_view());
        }
        put(
            &mut matched_symbols,
            MatchedSymbol {
                node_id: g.root_node_id.as_str().to_owned(),
                qualified_name: g.root_qualified_name.as_str().to_owned(),
                name: queried_name.to_owned(),
                file_path: g.root_file.as_str().to_owned(),
            },
        );
        add_dependents(&mut resolved_dependents, g);
        add_refusals(&mut ambiguous_refusals, g);
        i = i + 1;
    }
    assert(groups.take(i as int) =~= groups);
    assert(want.take(i as int) =~= want);
    let stale_references = project_stale(dep_result);
    StructuralVerdict {
        target,
        resolved_dependents,
        ambiguous_refusals,
        stale_references,
        name_ambiguous: dep_result.name_ambiguous,
        matched_symbols,
        graph_empty,
        explanations: None,
    }
}

fn project_stale(dep_result: &DependencyResult) -> (r: Vec<StaleReference>)
    ensures
        r.deep_view() == dep_result.stale_references.deep_view().map_values(stale_of()),
{
    let ghost want = dep_result.stale_references.deep_view().map_values(stale_of());
    let mut out: Vec<StaleReference> = Vec::new();
    let mut i: usize = 0;
    assert(out.deep_view() =~= want.take(0));
    while i < dep_result.stale_references.len()
        invariant
            i <= dep_result.stale_references@.len(),
            want == dep_result.stale_references.deep_view().map_values(stale_of()),
            out.deep_view() == want.take(i as int),
        decreases dep_result.stale_references.len() - i,
    {
        let u = &dep_result.stale_references[i];
        proof {
            assert(want.len() == dep_result.stale_references@.len());
            lemma_take_next(want, i as int);
            assert(dep_result.stale_references.deep_view()[i as int] == u.deep_view());
        }
        put(
            &mut out,
            StaleReference {
                from_name: u.from_name.as_str().to_owned(),
                from_file: u.from_file.as_str().to_owned(),
                to_name: u.to_name.as_str().to_owned(),
                to_type: u.to_type.as_str().to_owned(),
            },
        );
        i = i + 1;
    }
    assert(want.take(i as int) =~= want);
    out
}

/// The verdict on a name: what depends on its definitions, which references
/// could mean them, and which stale ones plausibly do.
pub open spec fn verdict_on(
    target: TargetView,
    nodes: Seq<NodeView>,
    edges: Seq<QueryEdgeView>,
    name: Seq<char>,
) -> VerdictView {
    let groups = dependency_groups(nodes, edges, name, Way::Backward, DEFAULT_DEPTH, true);
    projected(target, name, groups, groups.len() > 1, stale_refs(nodes, edges, name), nodes.len() == 0)
}

/// The impact of touching a symbol, by its bare name.
pub fn impact_verdict(nodes: &[ResolverNode], edges: &[QueryEdge], symbol: &str) -> (r: StructuralVerdict)
    ensures
        r.deep_view() == verdict_on(
            TargetView::Symbol(symbol@),
            node_views(nodes@),
            query_views(edges@),
            symbol@,
        ),
{
    let result = compute_reverse_dependencies(nodes, edges, symbol, DEFAULT_DEPTH, true);
    proof {
        assert(node_views(nodes@).len() == nodes@.len());
        assert(result.groups.deep_view().len() == result.groups@.len());
    }
    project_dependency_result(
        VerdictTarget::Symbol(symbol.to_owned()),
        symbol,
        &result,
        nodes.len() == 0,
    )
}

} // verus!
