//! The cascade of rules that binds one reference.

use vstd::prelude::*;

use crate::gather::{gather, lemma_gather_push};
use crate::index::resolve::indices::{
    build_indices, has_imports, imports_admit, place_of_id, pool, Indices,
};
use crate::index::resolve::names::{
    bare, bare_name, family, is_qualified_name, language_family, module_relative, normalize_separators,
    normalized, sep, strip_rust_module_prefix,
};
use crate::index::resolve::{
    node_views, AttemptView, Binding, BindingView, CascadeEnd, EdgeView, NodeView, ResolutionTrace,
    ResolverNode, RuleAttempt, RuleOutcome, TraceView, UnresolvedEdge,
};
use crate::lookup::{lemma_take_next, put};
use crate::order::{sort_keys, sorted};
use crate::text::{ends_with_text, finishes_with, has_part, same_text};

verus! {

// ---- what the rules say ---------------------------------------------------------------

/// What a rule asks of a candidate.
pub enum Test {
    /// Its qualified name is this one.
    Exact(Seq<char>),
    /// Its qualified name ends in `::` and this name.
    Suffix(Seq<char>),
    /// Its qualified name is this one, or ends in `::` and this one.
    Relative(Seq<char>),
    /// It is defined in this file.
    SameFile(Seq<char>),
    /// A `use` declaration of this file brings it into scope.
    Imported(Seq<char>),
}

pub open spec fn passes(nodes: Seq<NodeView>, t: Test, n: NodeView) -> bool {
    match t {
        Test::Exact(name) => n.qualified_name == name,
        Test::Suffix(name) => finishes_with(n.qualified_name, sep() + name),
        Test::Relative(name) => n.qualified_name == name || finishes_with(n.qualified_name, sep() + name),
        Test::SameFile(file) => n.file_path == file,
        Test::Imported(file) => imports_admit(nodes, file, n.qualified_name),
    }
}

pub open spec fn select(nodes: Seq<NodeView>, t: Test) -> spec_fn(usize) -> Option<usize> {
    |i: usize|
        if passes(nodes, t, nodes[i as int]) {
            Some(i)
        } else {
            None
        }
}

/// The candidates that pass the test.
pub open spec fn hits(nodes: Seq<NodeView>, candidates: Seq<usize>, t: Test) -> Seq<usize> {
    gather(candidates, select(nodes, t))
}

pub open spec fn unresolved() -> BindingView {
    BindingView {
        to_id: None,
        confidence: "UNRESOLVED"@,
        resolved_by: "r6"@,
        candidates: None,
    }
}

pub open spec fn bound(n: NodeView, rule: Seq<char>) -> BindingView {
    BindingView {
        to_id: Some(n.id),
        confidence: "RESOLVED"@,
        resolved_by: rule,
        candidates: None,
    }
}

/// The ids of the nodes at these places.
pub open spec fn ids_at(nodes: Seq<NodeView>, places: Seq<usize>) -> Seq<Seq<char>> {
    Seq::new(places.len(), |i: int| nodes[places[i] as int].id)
}

pub open spec fn ambiguous(nodes: Seq<NodeView>, left: Seq<usize>) -> BindingView {
    BindingView {
        to_id: None,
        confidence: "AMBIGUOUS"@,
        resolved_by: "r6"@,
        candidates: Some(sorted::<String>(ids_at(nodes, left))),
    }
}

/// The last rule: one definition that is left is bound, several are ambiguous,
/// none is unresolved.
pub open spec fn terminal(nodes: Seq<NodeView>, left: Seq<usize>) -> BindingView {
    if left.len() == 1 {
        bound(nodes[left[0] as int], "r5"@)
    } else if left.len() == 0 {
        unresolved()
    } else {
        ambiguous(nodes, left)
    }
}

pub open spec fn end_with(left: Seq<usize>) -> CascadeEnd {
    if left.len() == 1 {
        CascadeEnd::Bound
    } else if left.len() == 0 {
        CascadeEnd::NoCandidate
    } else {
        CascadeEnd::Ambiguous
    }
}

pub open spec fn outcome_of(h: Seq<usize>) -> RuleOutcome {
    if h.len() == 0 {
        RuleOutcome::NoMatch
    } else if h.len() == 1 {
        RuleOutcome::Bound
    } else {
        RuleOutcome::NotUnique
    }
}

pub open spec fn attempt(rule: Seq<char>, h: Seq<usize>) -> AttemptView {
    AttemptView { rule, hits: h, outcome: outcome_of(h) }
}

pub open spec fn skipped(rule: Seq<char>) -> AttemptView {
    AttemptView { rule, hits: Seq::empty(), outcome: RuleOutcome::Skipped }
}

/// A qualified name: matched whole, then as a suffix, then, in Rust, relative
/// to the module that a leading `crate::`, `self::` or `super::` names.
pub open spec fn qualified_cascade(
    nodes: Seq<NodeView>,
    source: NodeView,
    name: Seq<char>,
    candidates: Seq<usize>,
) -> (BindingView, TraceView) {
    let h1 = hits(nodes, candidates, Test::Exact(name));
    let h2 = hits(nodes, candidates, Test::Suffix(name));
    let rel = module_relative(name);
    let h3 = hits(nodes, candidates, Test::Relative(rel));
    let a1 = attempt("r1"@, h1);
    let a2 = attempt("r2"@, h2);
    let retry = source.language == "rust"@ && rel != name;
    let a3 = if retry {
        attempt("r2m"@, h3)
    } else {
        skipped("r2m"@)
    };
    if h1.len() == 1 {
        (bound(nodes[h1[0] as int], "r1"@), TraceView { attempts: seq![a1], outcome: CascadeEnd::Bound })
    } else if h2.len() == 1 {
        (
            bound(nodes[h2[0] as int], "r2"@),
            TraceView { attempts: seq![a1, a2], outcome: CascadeEnd::Bound },
        )
    } else if retry && h3.len() == 1 {
        (
            bound(nodes[h3[0] as int], "r2m"@),
            TraceView { attempts: seq![a1, a2, a3], outcome: CascadeEnd::Bound },
        )
    } else {
        (
            terminal(nodes, h1 + h2),
            TraceView { attempts: seq![a1, a2, a3], outcome: end_with(h1 + h2) },
        )
    }
}

/// A bare name: matched in the file of the reference, then by the file's
/// imports, then across the project.
pub open spec fn bare_cascade(
    nodes: Seq<NodeView>,
    source: NodeView,
    candidates: Seq<usize>,
) -> (BindingView, TraceView) {
    let h3 = hits(nodes, candidates, Test::SameFile(source.file_path));
    let h4 = hits(nodes, candidates, Test::Imported(source.file_path));
    let informed = has_imports(nodes, source.file_path);
    let a3 = attempt("r3"@, h3);
    let a4 = if informed {
        attempt("r4"@, h4)
    } else {
        skipped("r4"@)
    };
    let a5 = attempt("r5"@, candidates);
    if h3.len() == 1 {
        (bound(nodes[h3[0] as int], "r3"@), TraceView { attempts: seq![a3], outcome: CascadeEnd::Bound })
    } else if informed && h4.len() == 1 {
        (
            bound(nodes[h4[0] as int], "r4"@),
            TraceView { attempts: seq![a3, a4], outcome: CascadeEnd::Bound },
        )
    } else {
        (
            terminal(nodes, candidates),
            TraceView { attempts: seq![a3, a4, a5], outcome: end_with(candidates) },
        )
    }
}

/// The cascade for one reference.
pub open spec fn cascade(edge: EdgeView, nodes: Seq<NodeView>) -> (BindingView, TraceView) {
    match place_of_id(nodes, edge.from_id) {
        None => (
            unresolved(),
            TraceView { attempts: Seq::empty(), outcome: CascadeEnd::OrphanedSource },
        ),
        Some(at) => {
            let source = nodes[at];
            let name = normalized(edge.to_name);
            let candidates = pool(nodes, bare(name), edge.to_type, family(source.language));
            if has_part(name, sep()) {
                qualified_cascade(nodes, source, name, candidates)
            } else {
                bare_cascade(nodes, source, candidates)
            }
        },
    }
}

/// What the cascade says of one reference.
pub open spec fn binding_of(edge: EdgeView, nodes: Seq<NodeView>) -> BindingView {
    cascade(edge, nodes).0
}

// ---- the rules, executed ----------------------------------------------------------------

/// A rule's test, with what it needs to be carried out.
enum Filter {
    Exact(String),
    /// The name with `::` before it.
    Suffix(String, Ghost<Seq<char>>),
    Relative(String, String),
    SameFile(String),
    Imported(String, Vec<usize>),
}

impl Filter {
    spec fn test(self) -> Test {
        match self {
            Filter::Exact(name) => Test::Exact(name@),
            Filter::Suffix(_, name) => Test::Suffix(name@),
            Filter::Relative(name, _) => Test::Relative(name@),
            Filter::SameFile(file) => Test::SameFile(file@),
            Filter::Imported(file, _) => Test::Imported(file@),
        }
    }

    spec fn wf(self, indices: Indices, nodes: Seq<NodeView>) -> bool {
        match self {
            Filter::Suffix(tail, name) => tail@ == sep() + name@,
            Filter::Relative(name, tail) => tail@ == sep() + name@,
            Filter::Imported(file, places) => indices.serves(places@, nodes, file@),
            _ => true,
        }
    }

    fn admits(&self, n: &ResolverNode, indices: &Indices, Ghost(nodes): Ghost<Seq<NodeView>>) -> (r: bool)
        requires
            indices.describes(nodes),
            self.wf(*indices, nodes),
        ensures
            r == passes(nodes, self.test(), n.deep_view()),
    {
        match self {
            Filter::Exact(name) => same_text(n.qualified_name.as_str(), name.as_str()),
            Filter::Suffix(tail, _) => ends_with_text(n.qualified_name.as_str(), tail.as_str()),
            Filter::Relative(name, tail) => same_text(n.qualified_name.as_str(), name.as_str())
                || ends_with_text(n.qualified_name.as_str(), tail.as_str()),
            Filter::SameFile(file) => same_text(n.file_path.as_str(), file.as_str()),
            Filter::Imported(file, places) => indices.imports_match(
                places,
                n.qualified_name.as_str(),
                Ghost(nodes),
                Ghost(file@),
            ),
        }
    }
}

/// The candidates that pass the test.
fn filter_pool(nodes: &[ResolverNode], candidates: &Vec<usize>, filter: &Filter, indices: &Indices) -> (r: Vec<usize>)
    requires
        indices.describes(node_views(nodes@)),
        filter.wf(*indices, node_views(nodes@)),
        forall|i: int| 0 <= i < candidates.len() ==> (#[trigger] candidates[i]) < nodes.len(),
    ensures
        r@ == hits(node_views(nodes@), candidates@, filter.test()),
        forall|i: int| 0 <= i < r.len() ==> (#[trigger] r[i]) < nodes.len(),
{
    let ghost views = node_views(nodes@);
    let ghost f = select(views, filter.test());
    let mut r: Vec<usize> = Vec::new();
    let mut i: usize = 0;
    while i < candidates.len()
        invariant
            i <= candidates.len(),
            views == node_views(nodes@),
            f == select(views, filter.test()),
            indices.describes(views),
            filter.wf(*indices, views),
            forall|k: int| 0 <= k < candidates.len() ==> (#[trigger] candidates[k]) < nodes.len(),
            forall|k: int| 0 <= k < r.len() ==> (#[trigger] r[k]) < nodes.len(),
            r@ == gather(candidates@.take(i as int), f),
        decreases candidates.len() - i,
    {
        let at: usize = candidates[i];
        assert(candidates[i as int] < nodes.len());
        proof {
            lemma_take_next(candidates@, i as int);
            lemma_gather_push(candidates@.take(i as int), at, f);
        }
        assert(views[at as int] == nodes[at as int].deep_view());
        if filter.admits(&nodes[at], indices, Ghost(views)) {
            r.push(at);
        }
        i = i + 1;
    }
    assert(candidates@.take(candidates.len() as int) =~= candidates@);
    r
}

fn bind(node: &ResolverNode, rule: &'static str) -> (r: Binding)
    ensures
        r.deep_view() == bound(node.deep_view(), rule@),
{
    Binding { to_id: Some(node.id.clone()), confidence: "RESOLVED", resolved_by: rule, candidates: None }
}

fn no_binding() -> (r: Binding)
    ensures
        r.deep_view() == unresolved(),
{
    Binding { to_id: None, confidence: "UNRESOLVED", resolved_by: "r6", candidates: None }
}

/// The last rule.
fn end_cascade(nodes: &[ResolverNode], left: &Vec<usize>) -> (r: (Binding, CascadeEnd))
    requires
        forall|i: int| 0 <= i < left.len() ==> (#[trigger] left[i]) < nodes.len(),
    ensures
        r.0.deep_view() == terminal(node_views(nodes@), left@),
        r.1 == end_with(left@),
{
    let ghost views = node_views(nodes@);
    if left.len() == 1 {
        assert(left[0] < nodes.len());
        assert(views[left@[0] as int] == nodes[left@[0] as int].deep_view());
        return (bind(&nodes[left[0]], "r5"), CascadeEnd::Bound);
    }
    if left.len() == 0 {
        return (no_binding(), CascadeEnd::NoCandidate);
    }
    let mut ids: Vec<String> = Vec::new();
    let mut i: usize = 0;
    while i < left.len()
        invariant
            i <= left.len(),
            views == node_views(nodes@),
            forall|k: int| 0 <= k < left.len() ==> (#[trigger] left[k]) < nodes.len(),
            ids.deep_view() == ids_at(views, left@).take(i as int),
        decreases left.len() - i,
    {
        assert(left[i as int] < nodes.len());
        proof {
            lemma_take_next(ids_at(views, left@), i as int);
        }
        assert(views[left@[i as int] as int] == nodes[left@[i as int] as int].deep_view());
        put(&mut ids, nodes[left[i]].id.clone());
        i = i + 1;
    }
    assert(ids_at(views, left@).take(left.len() as int) =~= ids_at(views, left@));
    let ids = sort_keys(ids);
    let r = Binding { to_id: None, confidence: "AMBIGUOUS", resolved_by: "r6", candidates: Some(ids) };
    (r, CascadeEnd::Ambiguous)
}

fn tried(rule: &'static str, h: Vec<usize>) -> (r: RuleAttempt)
    ensures
        r.deep_view() == attempt(rule@, h@),
{
    let outcome = if h.len() == 0 {
        RuleOutcome::NoMatch
    } else if h.len() == 1 {
        RuleOutcome::Bound
    } else {
        RuleOutcome::NotUnique
    };
    RuleAttempt { rule, hits: h, outcome }
}

fn not_tried(rule: &'static str) -> (r: RuleAttempt)
    ensures
        r.deep_view() == skipped(rule@),
{
    let r = RuleAttempt { rule, hits: Vec::new(), outcome: RuleOutcome::Skipped };
    assert(r.deep_view() =~= skipped(rule@));
    r
}

fn with_sep(name: &str) -> (r: String)
    ensures
        r@ == sep() + name@,
{
    let mut r = String::new();
    r.push(':');
    r.push(':');
    assert(r@ =~= sep());
    r.append(name);
    r
}

fn copy_places(v: &Vec<usize>) -> (r: Vec<usize>)
    ensures
        r@ == v@,
{
    let mut r: Vec<usize> = Vec::new();
    let mut i: usize = 0;
    while i < v.len()
        invariant
            i <= v.len(),
            r@ == v@.take(i as int),
        decreases v.len() - i,
    {
        r.push(v[i]);
        i = i + 1;
        assert(r@ =~= v@.take(i as int));
    }
    assert(r@ =~= v@);
    r
}

fn resolve_qualified(nodes: &[ResolverNode], source: usize, name: String, candidates: &Vec<usize>, indices: &Indices) -> (r: (Binding, ResolutionTrace))
    requires
        source < nodes.len(),
        indices.describes(node_views(nodes@)),
        forall|i: int| 0 <= i < candidates.len() ==> (#[trigger] candidates[i]) < nodes.len(),
    ensures
        (r.0.deep_view(), r.1.deep_view()) == qualified_cascade(
            node_views(nodes@),
            node_views(nodes@)[source as int],
            name@,
            candidates@,
        ),
{
    let ghost views = node_views(nodes@);
    let ghost goal = qualified_cascade(views, views[source as int], name@, candidates@);
    assert(views[source as int] == nodes[source as int].deep_view());
    let mut attempts: Vec<RuleAttempt> = Vec::new();
    let exact = Filter::Exact(name.clone());
    let h1 = filter_pool(nodes, candidates, &exact, indices);
    let one: usize = h1.len();
    put(&mut attempts, tried("r1", copy_places(&h1)));
    let ghost a1 = attempt("r1"@, h1@);
    assert(attempts.deep_view() =~= seq![a1]);
    if one == 1 {
        assert(h1[0] < nodes.len());
        assert(views[h1@[0] as int] == nodes[h1@[0] as int].deep_view());
        return (bind(&nodes[h1[0]], "r1"), ResolutionTrace { attempts, outcome: CascadeEnd::Bound });
    }
    let suffix = Filter::Suffix(with_sep(name.as_str()), Ghost(name@));
    let h2 = filter_pool(nodes, candidates, &suffix, indices);
    put(&mut attempts, tried("r2", copy_places(&h2)));
    let ghost a2 = attempt("r2"@, h2@);
    assert(attempts.deep_view() =~= seq![a1, a2]);
    if h2.len() == 1 {
        assert(h2[0] < nodes.len());
        assert(views[h2@[0] as int] == nodes[h2@[0] as int].deep_view());
        return (bind(&nodes[h2[0]], "r2"), ResolutionTrace { attempts, outcome: CascadeEnd::Bound });
    }
    let rel = strip_rust_module_prefix(name.as_str()).to_owned();
    let retry: bool = same_text(nodes[source].language.as_str(), "rust") && !same_text(
        rel.as_str(),
        name.as_str(),
    );
    if retry {
        let relative = Filter::Relative(rel.clone(), with_sep(rel.as_str()));
        let h3 = filter_pool(nodes, candidates, &relative, indices);
        put(&mut attempts, tried("r2m", copy_places(&h3)));
        assert(attempts.deep_view() =~= seq![a1, a2, attempt("r2m"@, h3@)]);
        if h3.len() == 1 {
            assert(h3[0] < nodes.len());
            assert(views[h3@[0] as int] == nodes[h3@[0] as int].deep_view());
            return (bind(&nodes[h3[0]], "r2m"), ResolutionTrace { attempts, outcome: CascadeEnd::Bound });
        }
    } else {
        put(&mut attempts, not_tried("r2m"));
        assert(attempts.deep_view() =~= seq![a1, a2, skipped("r2m"@)]);
    }
    let ghost both = h1@ + h2@;
    let mut left = h1;
    let mut more = h2;
    left.append(&mut more);
    assert forall|i: int| 0 <= i < left.len() implies (#[trigger] left[i]) < nodes.len() by {
        if i < h1.len() {
            assert(left[i] == h1[i]);
        } else {
            assert(left[i] == h2[i - h1.len()]);
        }
    }
    let (binding, outcome) = end_cascade(nodes, &left);
    (binding, ResolutionTrace { attempts, outcome })
}

fn resolve_bare(nodes: &[ResolverNode], source: usize, candidates: &Vec<usize>, indices: &Indices) -> (r: (Binding, ResolutionTrace))
    requires
        source < nodes.len(),
        indices.describes(node_views(nodes@)),
        forall|i: int| 0 <= i < candidates.len() ==> (#[trigger] candidates[i]) < nodes.len(),
    ensures
        (r.0.deep_view(), r.1.deep_view()) == bare_cascade(
            node_views(nodes@),
            node_views(nodes@)[source as int],
            candidates@,
        ),
{
    let ghost views = node_views(nodes@);
    assert(views[source as int] == nodes[source as int].deep_view());
    let mut attempts: Vec<RuleAttempt> = Vec::new();
    let near = Filter::SameFile(nodes[source].file_path.clone());
    let h3 = filter_pool(nodes, candidates, &near, indices);
    put(&mut attempts, tried("r3", copy_places(&h3)));
    let ghost a3 = attempt("r3"@, h3@);
    assert(attempts.deep_view() =~= seq![a3]);
    if h3.len() == 1 {
        assert(h3[0] < nodes.len());
        assert(views[h3@[0] as int] == nodes[h3@[0] as int].deep_view());
        return (bind(&nodes[h3[0]], "r3"), ResolutionTrace { attempts, outcome: CascadeEnd::Bound });
    }
    let places = indices.find_imports(&nodes[source].file_path, Ghost(views));
    if places.len() > 0 {
        let imported = Filter::Imported(nodes[source].file_path.clone(), places);
        let h4 = filter_pool(nodes, candidates, &imported, indices);
        put(&mut attempts, tried("r4", copy_places(&h4)));
        assert(attempts.deep_view() =~= seq![a3, attempt("r4"@, h4@)]);
        if h4.len() == 1 {
            assert(h4[0] < nodes.len());
            assert(views[h4@[0] as int] == nodes[h4@[0] as int].deep_view());
            return (bind(&nodes[h4[0]], "r4"), ResolutionTrace { attempts, outcome: CascadeEnd::Bound });
        }
    } else {
        put(&mut attempts, not_tried("r4"));
        assert(attempts.deep_view() =~= seq![a3, skipped("r4"@)]);
    }
    let ghost two = attempts.deep_view();
    put(&mut attempts, tried("r5", copy_places(candidates)));
    assert(attempts.deep_view() =~= seq![two[0], two[1], attempt("r5"@, candidates@)]);
    let (binding, outcome) = end_cascade(nodes, candidates);
    (binding, ResolutionTrace { attempts, outcome })
}

/// What the cascade says of one reference, with every rule that it reached.
pub fn resolve_one_traced(edge: &UnresolvedEdge, nodes: &[ResolverNode], indices: &Indices) -> (r: (Binding, ResolutionTrace))
    requires
        indices.describes(node_views(nodes@)),
    ensures
        (r.0.deep_view(), r.1.deep_view()) == cascade(edge.deep_view(), node_views(nodes@)),
{
    let ghost views = node_views(nodes@);
    match indices.find_id(&edge.from_id, Ghost(views)) {
        None => {
            let trace = ResolutionTrace { attempts: Vec::new(), outcome: CascadeEnd::OrphanedSource };
            assert(trace.deep_view().attempts =~= Seq::empty());
            (no_binding(), trace)
        },
        Some(source) => {
            assert(views[source as int] == nodes[source as int].deep_view());
            let name = normalize_separators(edge.to_name.as_str());
            let candidates = indices.find_pool(
                bare_name(name.as_str()),
                edge.to_type.as_str(),
                language_family(nodes[source].language.as_str()),
                Ghost(views),
            );
            if is_qualified_name(name.as_str()) {
                resolve_qualified(nodes, source, name, &candidates, indices)
            } else {
                resolve_bare(nodes, source, &candidates, indices)
            }
        },
    }
}

/// What the cascade says of one reference.
pub fn resolve_one(edge: &UnresolvedEdge, nodes: &[ResolverNode], indices: &Indices) -> (r: Binding)
    requires
        indices.describes(node_views(nodes@)),
    ensures
        r.deep_view() == binding_of(edge.deep_view(), node_views(nodes@)),
{
    let (binding, _trace) = resolve_one_traced(edge, nodes, indices);
    binding
}

/// What the cascade says of each reference, in the order of the references.
pub fn resolve_all(nodes: &[ResolverNode], edges: &[UnresolvedEdge]) -> (r: Vec<Binding>)
    ensures
        r.deep_view() == Seq::new(
            edges@.len(),
            |i: int| binding_of(edges@[i].deep_view(), node_views(nodes@)),
        ),
{
    let indices = build_indices(nodes);
    let ghost views = node_views(nodes@);
    let ghost goal = Seq::new(edges@.len(), |i: int| binding_of(edges@[i].deep_view(), views));
    let mut r: Vec<Binding> = Vec::new();
    let mut i: usize = 0;
    while i < edges.len()
        invariant
            i <= edges.len(),
            views == node_views(nodes@),
            indices.describes(views),
            goal == Seq::new(edges@.len(), |i: int| binding_of(edges@[i].deep_view(), views)),
            r.deep_view() == goal.take(i as int),
        decreases edges.len() - i,
    {
        proof {
            lemma_take_next(goal, i as int);
        }
        put(&mut r, resolve_one(&edges[i], nodes, &indices));
        i = i + 1;
    }
    assert(goal.take(edges.len() as int) =~= goal);
    r
}

} // verus!
