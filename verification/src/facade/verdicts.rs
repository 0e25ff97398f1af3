//! What a verdict says of the definitions and references of a project.

use vstd::prelude::*;

use crate::facade::paths::{
    defined_in, gone_from, more_dependents, more_refusals, more_stale, refusal_key, stale_key,
    touched, verdict_on_all,
};
use crate::facade::{
    dependents_of, refusals_of, verdict_on, DependentView, MatchedView, RefusalView, StaleView,
    TargetView, VerdictView, DEFAULT_DEPTH,
};
use crate::gather::{gather, lemma_flatten_has, lemma_flatten_member, lemma_gather_member};
use crate::graph::dependencies::{
    dependency_group, dependency_groups, is_definition_of, is_stale, live_of, may_mean, stale_fn,
    stale_refs, AmbiguousRefView, UnresolvedRefView,
};
use crate::graph::reach::{is_distance, is_named, lemma_named, lemma_roots, reaches};
use crate::graph::told::{
    ambiguous_references_are_those_within_reach, comes_by, every_definition_of_the_name_has_a_group, is_item,
    items_are_the_nodes_within_reach, tells_ambiguous,
};
use crate::graph::web::{roots_of, slots, QueryEdgeView, Way};
use crate::index::resolve::indices::place_of_id;
use crate::index::resolve::meaning::{are_kin, is_one_word, lemma_kin, separators_read_alike, the_bare_name_is_the_last_segment};
use crate::index::resolve::names::{bare, normalized, sep};
use crate::graph::explain::DeletedView;
use crate::index::resolve::NodeView;
use crate::order::{is_distinct_sorted, lemma_distinct_sorted};
use crate::text::{finishes_with, firsts, has_part};

verus! {

// ---- stale references -----------------------------------------------------------------------

/// A definition of the name; an import is none.
pub open spec fn is_definition(nodes: Seq<NodeView>, name: Seq<char>, v: int) -> bool {
    0 <= v < nodes.len() && nodes[v].name == name && nodes[v].node_type != "import"@
}

/// A reference, read with `::` between its segments, could mean a definition: the
/// type is the same and the languages are kin, and where it has several segments
/// they are the qualified name, or the end of it.
pub open spec fn could_mean(nodes: Seq<NodeView>, e: QueryEdgeView, i: int, v: int) -> bool {
    let read = normalized(e.to_name);
    &&& nodes[v].node_type == e.to_type
    &&& are_kin(nodes[v].language, nodes[i].language)
    &&& has_part(read, seq![':', ':']) ==> nodes[v].qualified_name == read || finishes_with(
        nodes[v].qualified_name,
        seq![':', ':'] + read,
    )
}

/// Reference `e` of node `i` is bound to nothing and has the name as its last
/// segment; definitions of the name, if there are any left, could be meant.
pub open spec fn is_left_over(nodes: Seq<NodeView>, edges: Seq<QueryEdgeView>, name: Seq<char>, e: int, i: int) -> bool {
    &&& 0 <= e < edges.len()
    &&& is_named(nodes, edges[e].from_id, i)
    &&& edges[e].confidence == "UNRESOLVED"@
    &&& bare(normalized(edges[e].to_name)) == name
    &&& (forall|v: int| !#[trigger] is_definition(nodes, name, v)) || exists|v: int| #[trigger]
        is_definition(nodes, name, v) && could_mean(nodes, edges[e], i, v)
}

/// The reference as it is reported.
pub open spec fn tells_stale(r: StaleView, n: NodeView, e: QueryEdgeView) -> bool {
    r.from_name == n.name && r.from_file == n.file_path && r.to_name == e.to_name && r.to_type == e.to_type
}

proof fn lemma_live(nodes: Seq<NodeView>, name: Seq<char>, e: QueryEdgeView, i: int)
    requires
        nodes.len() <= usize::MAX,
        is_one_word(name),
        name.len() > 0 ==> name[0] != ':',
    ensures
        bare(normalized(name)) == name,
        is_stale(e.to_name, e.to_type, nodes[i].language, name, live_of(nodes, name)) <==> {
            &&& bare(normalized(e.to_name)) == name
            &&& (forall|v: int| !#[trigger] is_definition(nodes, name, v)) || exists|v: int| #[trigger]
                is_definition(nodes, name, v) && could_mean(nodes, e, i, v)
        },
{
    separators_read_alike(name, ' ', Seq::empty());
    the_bare_name_is_the_last_segment(Seq::empty(), name);
    let roots = roots_of(nodes, is_definition_of(name));
    lemma_roots(nodes, is_definition_of(name));
    let live = live_of(nodes, name);
    assert(sep() =~= seq![':', ':']);
    assert forall|v: int| #[trigger] is_definition(nodes, name, v) implies roots.contains(v as usize) by {
        assert(is_definition_of(name)(nodes[v]));
    }
    assert forall|k: int| 0 <= k < live.len() implies is_definition(nodes, name, roots[k] as int) && #[trigger] live[k]
        == nodes[roots[k] as int] by {
        assert(is_definition_of(name)(nodes[roots[k] as int]));
    }
    let read = normalized(e.to_name);
    assert forall|v: int| is_definition(nodes, name, v) implies (may_mean(nodes[v], read, e.to_type, nodes[i].language)
        <==> #[trigger] could_mean(nodes, e, i, v)) by {
        lemma_kin(nodes[v].language, nodes[i].language);
    }
    if exists|v: int| #[trigger] is_definition(nodes, name, v) && could_mean(nodes, e, i, v) {
        let v = choose|v: int| #[trigger] is_definition(nodes, name, v) && could_mean(nodes, e, i, v);
        let k = choose|k: int| 0 <= k < roots.len() && roots[k] == v as usize;
        assert(live[k] == nodes[v]);
        assert(may_mean(live[k], read, e.to_type, nodes[i].language));
    }
    if exists|k: int| 0 <= k < live.len() && may_mean(#[trigger] live[k], read, e.to_type, nodes[i].language) {
        let k = choose|k: int| 0 <= k < live.len() && may_mean(#[trigger] live[k], read, e.to_type, nodes[i].language);
        assert(is_definition(nodes, name, roots[k] as int));
        assert(could_mean(nodes, e, i, roots[k] as int));
    }
    if forall|v: int| !#[trigger] is_definition(nodes, name, v) {
        if live.len() > 0 {
            assert(is_definition(nodes, name, roots[0] as int) && live[0] == nodes[roots[0] as int]);
        }
    }
    if live.len() == 0 {
        assert forall|v: int| !#[trigger] is_definition(nodes, name, v) by {
            if is_definition(nodes, name, v) {
                assert(roots.contains(v as usize));
            }
        }
    }
}

/// The stale references of a verdict on a name, exactly: those bound to nothing
/// that plausibly mean it.
pub proof fn stale_references_are_those_left_over(
    target: TargetView,
    nodes: Seq<NodeView>,
    edges: Seq<QueryEdgeView>,
    name: Seq<char>,
    r: StaleView,
)
    requires
        nodes.len() <= usize::MAX,
        is_one_word(name),
        name.len() > 0 ==> name[0] != ':',
    ensures
        verdict_on(target, nodes, edges, name).stale_references.contains(r) <==> exists|e: int, i: int| #[trigger]
            is_left_over(nodes, edges, name, e, i) && tells_stale(r, nodes[i], edges[e]),
{
    let found = stale_refs(nodes, edges, name);
    let told = verdict_on(target, nodes, edges, name).stale_references;
    let f = stale_fn(nodes, name, live_of(nodes, name));
    if edges.len() > 0 {
        lemma_live(nodes, name, edges[0], 0);
    }
    if told.contains(r) {
        let k = choose|k: int| 0 <= k < told.len() && told[k] == r;
        let u = found[k];
        assert(found.contains(u));
        if edges.len() == 0 {
            assert(found.len() == 0);
        }
        lemma_gather_member(edges, f, u);
        let e = choose|e: int| 0 <= e < edges.len() && f(#[trigger] edges[e]) == Some(u);
        let i = place_of_id(nodes, edges[e].from_id)->0;
        lemma_named(nodes, edges[e].from_id, i);
        lemma_live(nodes, name, edges[e], i);
        assert(is_left_over(nodes, edges, name, e, i));
    }
    if exists|e: int, i: int| #[trigger] is_left_over(nodes, edges, name, e, i) && tells_stale(r, nodes[i], edges[e]) {
        let (e, i) = choose|e: int, i: int| #[trigger]
            is_left_over(nodes, edges, name, e, i) && tells_stale(r, nodes[i], edges[e]);
        lemma_named(nodes, edges[e].from_id, i);
        lemma_live(nodes, name, edges[e], i);
        let u = UnresolvedRefView {
            from_name: nodes[i].name,
            from_file: nodes[i].file_path,
            to_name: edges[e].to_name,
            to_type: edges[e].to_type,
            depth: 0,
        };
        assert(f(edges[e]) == Some(u));
        lemma_gather_member(edges, f, u);
        let k = choose|k: int| 0 <= k < found.len() && found[k] == u;
        assert(told[k] =~= r);
    }
}

// ---- one name -------------------------------------------------------------------------------

/// The dependent as it is reported: node `v`, that many references away from the
/// definition `d`.
pub open spec fn tells_dependent(r: DependentView, nodes: Seq<NodeView>, edges: Seq<QueryEdgeView>, d: int, v: int) -> bool {
    &&& 0 <= v < nodes.len()
    &&& v != d
    &&& is_item(r.item, nodes[v])
    &&& is_distance(nodes, edges, false, d, v, r.item.depth as nat)
    &&& 1 <= r.item.depth <= 3
    &&& r.of_symbol == nodes[d].qualified_name
}

/// The dependents of a verdict on a name, exactly: for each definition of the
/// name, the other nodes from which at most three resolved references lead to
/// it.
pub proof fn dependents_are_those_within_reach(
    target: TargetView,
    nodes: Seq<NodeView>,
    edges: Seq<QueryEdgeView>,
    name: Seq<char>,
    r: DependentView,
)
    requires
        nodes.len() <= usize::MAX,
        edges.len() <= usize::MAX,
    ensures
        verdict_on(target, nodes, edges, name).resolved_dependents.contains(r) <==> exists|d: int, v: int| #[trigger]
            tells_dependent(r, nodes, edges, d, v) && is_definition(nodes, name, d),
{
    let groups = dependency_groups(nodes, edges, name, Way::Backward, DEFAULT_DEPTH, true);
    let which = every_definition_of_the_name_has_a_group(nodes, edges, name, Way::Backward, DEFAULT_DEPTH, true);
    let told = verdict_on(target, nodes, edges, name).resolved_dependents;
    if told.contains(r) {
        let k = choose|k: int| 0 <= k < told.len() && told[k] == r;
        lemma_flatten_member(groups, dependents_of(), k);
        let g = choose|g: int| 0 <= g < groups.len() && dependents_of()(#[trigger] groups[g]).contains(told[k]);
        let d = which[g];
        let items = items_are_the_nodes_within_reach(nodes, edges, d, Way::Backward, DEFAULT_DEPTH, true);
        let list = dependents_of()(groups[g]);
        let j = choose|j: int| 0 <= j < list.len() && list[j] == r;
        assert(list[j].item == groups[g].items[j]);
        assert(0 <= items[j] < nodes.len());
        assert(tells_dependent(r, nodes, edges, d as int, items[j]));
        assert(is_definition(nodes, name, d as int));
    }
    if exists|d: int, v: int| #[trigger] tells_dependent(r, nodes, edges, d, v) && is_definition(nodes, name, d) {
        let (d, v) = choose|d: int, v: int| #[trigger]
            tells_dependent(r, nodes, edges, d, v) && is_definition(nodes, name, d);
        assert(which.contains(d as usize));
        let g = choose|g: int| 0 <= g < which.len() && which[g] == d as usize;
        let items = items_are_the_nodes_within_reach(nodes, edges, which[g], Way::Backward, DEFAULT_DEPTH, true);
        assert(reaches(nodes, edges, false, d, v, r.item.depth as nat));
        assert(items.contains(v));
        let j = choose|j: int| 0 <= j < items.len() && items[j] == v;
        let found = groups[g].items[j];
        assert(is_distance(nodes, edges, false, d, items[j], found.depth as nat));
        if found.depth < r.item.depth {
            assert(!reaches(nodes, edges, false, d, v, found.depth as nat));
        } else if r.item.depth < found.depth {
            assert(!reaches(nodes, edges, false, d, v, r.item.depth as nat));
        }
        let list = dependents_of()(groups[g]);
        assert(list[j].item =~= r.item);
        assert(list[j] =~= r);
        assert(list.contains(r));
        lemma_flatten_has(groups, dependents_of(), g, r);
    }
}

/// The refusal as it is reported.
pub open spec fn tells_refusal(
    r: RefusalView,
    nodes: Seq<NodeView>,
    edges: Seq<QueryEdgeView>,
    d: int,
    e: int,
    f: int,
    k: nat,
) -> bool {
    &&& 0 <= k < 3
    &&& comes_by(nodes, edges, Way::Backward, d, e, f, k)
    &&& tells_ambiguous(
        AmbiguousRefView {
            from_name: r.from_name,
            from_file: r.from_file,
            to_name: r.to_name,
            to_type: r.to_type,
            candidates: r.candidates,
            depth: (k + 1) as usize,
        },
        nodes[f],
        nodes,
        edges[e],
    )
    &&& r.of_symbol == nodes[d].qualified_name
}

/// The refusals of a verdict on a name, exactly: the ambiguous references that
/// could mean one of its definitions, or what depends on it through fewer than
/// three references.
pub proof fn refusals_are_those_within_reach(
    target: TargetView,
    nodes: Seq<NodeView>,
    edges: Seq<QueryEdgeView>,
    name: Seq<char>,
    r: RefusalView,
)
    requires
        nodes.len() <= usize::MAX,
        edges.len() <= usize::MAX,
        slots(edges).len() <= usize::MAX,
    ensures
        verdict_on(target, nodes, edges, name).ambiguous_refusals.contains(r) <==> exists|d: int, e: int, f: int, k: nat|
         #[trigger] tells_refusal(r, nodes, edges, d, e, f, k) && is_definition(nodes, name, d),
{
    let groups = dependency_groups(nodes, edges, name, Way::Backward, DEFAULT_DEPTH, true);
    let which = every_definition_of_the_name_has_a_group(nodes, edges, name, Way::Backward, DEFAULT_DEPTH, true);
    let told = verdict_on(target, nodes, edges, name).ambiguous_refusals;
    if told.contains(r) {
        let t = choose|t: int| 0 <= t < told.len() && told[t] == r;
        lemma_flatten_member(groups, refusals_of(), t);
        let g = choose|g: int| 0 <= g < groups.len() && refusals_of()(#[trigger] groups[g]).contains(told[t]);
        let d = which[g];
        let list = refusals_of()(groups[g]);
        let j = choose|j: int| 0 <= j < list.len() && list[j] == r;
        let a = groups[g].ambiguous[j];
        assert(groups[g].ambiguous.contains(a));
        ambiguous_references_are_those_within_reach(nodes, edges, d, Way::Backward, DEFAULT_DEPTH, true, a);
        let k = (a.depth - 1) as nat;
        let (e, f) = choose|e: int, f: int| #[trigger]
            comes_by(nodes, edges, Way::Backward, d as int, e, f, k) && tells_ambiguous(a, nodes[f], nodes, edges[e]);
        assert(tells_refusal(r, nodes, edges, d as int, e, f, k));
        assert(is_definition(nodes, name, d as int));
    }
    if exists|d: int, e: int, f: int, k: nat| #[trigger]
        tells_refusal(r, nodes, edges, d, e, f, k) && is_definition(nodes, name, d) {
        let (d, e, f, k) = choose|d: int, e: int, f: int, k: nat| #[trigger]
            tells_refusal(r, nodes, edges, d, e, f, k) && is_definition(nodes, name, d);
        assert(which.contains(d as usize));
        let g = choose|g: int| 0 <= g < which.len() && which[g] == d as usize;
        let a = AmbiguousRefView {
            from_name: r.from_name,
            from_file: r.from_file,
            to_name: r.to_name,
            to_type: r.to_type,
            candidates: r.candidates,
            depth: (k + 1) as usize,
        };
        ambiguous_references_are_those_within_reach(nodes, edges, which[g], Way::Backward, DEFAULT_DEPTH, true, a);
        assert(comes_by(nodes, edges, Way::Backward, d, e, f, (a.depth - 1) as nat));
        let j = choose|j: int| 0 <= j < groups[g].ambiguous.len() && groups[g].ambiguous[j] == a;
        let list = refusals_of()(groups[g]);
        assert(list[j] =~= r);
        assert(list.contains(r));
        lemma_flatten_has(groups, refusals_of(), g, r);
    }
}

/// A verdict on a name is about each of its definitions, in the order of the
/// nodes; the name is ambiguous if there are several. Only a project without
/// nodes is empty.
pub proof fn a_verdict_is_about_every_definition(
    target: TargetView,
    nodes: Seq<NodeView>,
    edges: Seq<QueryEdgeView>,
    name: Seq<char>,
) -> (which: Seq<usize>)
    requires
        nodes.len() <= usize::MAX,
        edges.len() <= usize::MAX,
    ensures
        ({
            let r = verdict_on(target, nodes, edges, name);
            &&& r.target == target
            &&& r.graph_empty <==> nodes.len() == 0
            &&& which.len() == r.matched_symbols.len()
            &&& r.name_ambiguous <==> which.len() > 1
            &&& forall|i: int, j: int| 0 <= i < j < which.len() ==> #[trigger] which[i] < #[trigger] which[j]
            &&& forall|i: int| 0 <= i < which.len() ==> {
                &&& is_definition(nodes, name, #[trigger] which[i] as int)
                &&& r.matched_symbols[i].name == name
                &&& r.matched_symbols[i].node_id == nodes[which[i] as int].id
                &&& r.matched_symbols[i].qualified_name == nodes[which[i] as int].qualified_name
                &&& r.matched_symbols[i].file_path == nodes[which[i] as int].file_path
            }
            &&& forall|v: int| #[trigger] is_definition(nodes, name, v) ==> which.contains(v as usize)
        }),
{
    let which = every_definition_of_the_name_has_a_group(nodes, edges, name, Way::Backward, DEFAULT_DEPTH, true);
    let groups = dependency_groups(nodes, edges, name, Way::Backward, DEFAULT_DEPTH, true);
    let r = verdict_on(target, nodes, edges, name);
    assert forall|i: int| 0 <= i < which.len() implies {
        &&& is_definition(nodes, name, #[trigger] which[i] as int)
        &&& r.matched_symbols[i].name == name
        &&& r.matched_symbols[i].node_id == nodes[which[i] as int].id
        &&& r.matched_symbols[i].qualified_name == nodes[which[i] as int].qualified_name
        &&& r.matched_symbols[i].file_path == nodes[which[i] as int].file_path
    } by {
        assert(groups[i] == dependency_group(nodes, edges, which[i], Way::Backward, DEFAULT_DEPTH, true));
        let items = items_are_the_nodes_within_reach(nodes, edges, which[i], Way::Backward, DEFAULT_DEPTH, true);
    }
    which
}

// ---- files ----------------------------------------------------------------------------------

proof fn lemma_firsts(s: Seq<Seq<char>>, t: Seq<char>)
    ensures
        firsts(s).contains(t) <==> s.contains(t),
        firsts(s).no_duplicates(),
    decreases s.len(),
{
    if s.len() > 0 {
        let rest = s.drop_last();
        let had = firsts(rest);
        lemma_firsts(rest, t);
        lemma_firsts(rest, s.last());
        assert(s =~= rest.push(s.last()));
        if s.contains(t) {
            let k = choose|k: int| 0 <= k < s.len() && s[k] == t;
            if k < rest.len() {
                assert(rest[k] == t);
                let j = choose|j: int| 0 <= j < had.len() && had[j] == t;
                assert(firsts(s)[j] == t);
            } else if !had.contains(s.last()) {
                assert(firsts(s)[had.len() as int] == t);
            }
        }
        if firsts(s).contains(t) {
            let k = choose|k: int| 0 <= k < firsts(s).len() && firsts(s)[k] == t;
            if k < had.len() {
                assert(had[k] == t);
                let j = choose|j: int| 0 <= j < rest.len() && rest[j] == t;
                assert(s[j] == t);
            } else {
                assert(s[s.len() - 1] == t);
            }
        }
    }
}

/// A node of the files that is no import, by its name.
pub open spec fn stands_in(nodes: Seq<NodeView>, paths: Seq<Seq<char>>, name: Seq<char>, i: int) -> bool {
    &&& 0 <= i < nodes.len()
    &&& nodes[i].name == name
    &&& nodes[i].node_type != "import"@
    &&& paths.contains(nodes[i].file_path)
}

/// The names that files touch, exactly: those of the nodes in them that are no
/// imports and have a name. None is listed twice.
pub proof fn files_touch_what_they_define(nodes: Seq<NodeView>, paths: Seq<Seq<char>>, name: Seq<char>)
    ensures
        touched(nodes, paths).contains(name) <==> name.len() > 0 && exists|i: int| #[trigger]
            stands_in(nodes, paths, name, i),
        touched(nodes, paths).no_duplicates(),
{
    let all = gather(nodes, defined_in(paths));
    lemma_firsts(all, name);
    lemma_gather_member(nodes, defined_in(paths), name);
    if all.contains(name) {
        let i = choose|i: int| 0 <= i < nodes.len() && defined_in(paths)(#[trigger] nodes[i]) == Some(name);
        assert(stands_in(nodes, paths, name, i));
    }
    if name.len() > 0 && exists|i: int| #[trigger] stands_in(nodes, paths, name, i) {
        let i = choose|i: int| #[trigger] stands_in(nodes, paths, name, i);
        assert(defined_in(paths)(nodes[i]) == Some(name));
    }
}

/// A record of what disappeared from the files, by its name.
pub open spec fn left(deleted: Seq<DeletedView>, paths: Seq<Seq<char>>, name: Seq<char>, i: int) -> bool {
    0 <= i < deleted.len() && deleted[i].name == name && paths.contains(deleted[i].file_path)
}

/// The names that files lost, exactly: those of what disappeared from them, other
/// than names that they still define.
pub proof fn files_lost_what_they_no_longer_define(
    nodes: Seq<NodeView>,
    deleted: Seq<DeletedView>,
    paths: Seq<Seq<char>>,
    lost: Seq<Seq<char>>,
    name: Seq<char>,
)
    requires
        is_distinct_sorted::<String>(gather(deleted, gone_from(paths, touched(nodes, paths))), lost),
    ensures
        lost.contains(name) <==> {
            &&& name.len() > 0
            &&& exists|i: int| #[trigger] left(deleted, paths, name, i)
            &&& forall|i: int| !#[trigger] stands_in(nodes, paths, name, i)
        },
        lost.no_duplicates(),
{
    let f = gone_from(paths, touched(nodes, paths));
    lemma_distinct_sorted::<String>(gather(deleted, f), lost);
    lemma_gather_member(deleted, f, name);
    files_touch_what_they_define(nodes, paths, name);
    if lost.contains(name) {
        assert(gather(deleted, f).contains(name));
        let i = choose|i: int| 0 <= i < deleted.len() && f(#[trigger] deleted[i]) == Some(name);
        assert(left(deleted, paths, name, i));
    }
    if name.len() > 0 && (exists|i: int| #[trigger] left(deleted, paths, name, i)) && (forall|i: int| !#[trigger] stands_in(
        nodes,
        paths,
        name,
        i,
    )) {
        let i = choose|i: int| #[trigger] left(deleted, paths, name, i);
        assert(f(deleted[i]) == Some(name));
        assert(gather(deleted, f).contains(name));
    }
}

// ---- several names --------------------------------------------------------------------------

proof fn lemma_more_dependents(s: Seq<DependentView>, t: Seq<DependentView>)
    ensures
        ({
            let all = more_dependents(s, t);
            &&& s.len() <= all.len()
            &&& forall|k: int| 0 <= k < s.len() ==> #[trigger] all[k] == s[k]
            &&& forall|k: int| 0 <= k < all.len() ==> s.contains(#[trigger] all[k]) || t.contains(all[k])
            &&& forall|k: int| 0 <= k < t.len() ==> exists|j: int|
                0 <= j < all.len() && (#[trigger] all[j]).item.node_id == (#[trigger] t[k]).item.node_id
            &&& distinct_dependents(s) ==> distinct_dependents(all)
        }),
    decreases t.len(),
{
    let all = more_dependents(s, t);
    if t.len() == 0 {
        assert forall|k: int| 0 <= k < all.len() implies s.contains(#[trigger] all[k]) by {
            assert(s[k] == all[k]);
        }
    } else {
        let rest = t.drop_last();
        let had = more_dependents(s, rest);
        lemma_more_dependents(s, rest);
        assert forall|k: int| 0 <= k < s.len() implies #[trigger] all[k] == s[k] by {
            assert(had[k] == s[k]);
        }
        assert forall|k: int| 0 <= k < all.len() implies s.contains(#[trigger] all[k]) || t.contains(all[k]) by {
            if k < had.len() {
                assert(all[k] == had[k]);
                if rest.contains(had[k]) {
                    let j = choose|j: int| 0 <= j < rest.len() && rest[j] == had[k];
                    assert(t[j] == had[k]);
                }
            } else {
                assert(all[k] == t[t.len() - 1]);
            }
        }
        assert forall|k: int| 0 <= k < t.len() implies exists|j: int|
            0 <= j < all.len() && (#[trigger] all[j]).item.node_id == (#[trigger] t[k]).item.node_id by {
            if k < rest.len() {
                assert(rest[k] == t[k]);
                let j = choose|j: int| 0 <= j < had.len() && (#[trigger] had[j]).item.node_id == rest[k].item.node_id;
                assert(all[j] == had[j]);
            } else if exists|j: int| 0 <= j < had.len() && (#[trigger] had[j]).item.node_id == t.last().item.node_id {
                let j = choose|j: int| 0 <= j < had.len() && (#[trigger] had[j]).item.node_id == t.last().item.node_id;
                assert(all[j] == had[j]);
            } else {
                assert(all[had.len() as int] == t[k]);
            }
        }
    }
}

/// No node is listed twice.
pub open spec fn distinct_dependents(s: Seq<DependentView>) -> bool {
    forall|i: int, j: int| 0 <= i < j < s.len() ==> (#[trigger] s[i]).item.node_id != (#[trigger] s[j]).item.node_id
}

proof fn lemma_more_refusals(s: Seq<RefusalView>, t: Seq<RefusalView>)
    ensures
        ({
            let all = more_refusals(s, t);
            &&& s.len() <= all.len()
            &&& forall|k: int| 0 <= k < s.len() ==> #[trigger] all[k] == s[k]
            &&& forall|k: int| 0 <= k < all.len() ==> s.contains(#[trigger] all[k]) || t.contains(all[k])
            &&& forall|k: int| 0 <= k < t.len() ==> exists|j: int|
                0 <= j < all.len() && refusal_key(#[trigger] all[j]) == refusal_key(#[trigger] t[k])
        }),
    decreases t.len(),
{
    let all = more_refusals(s, t);
    if t.len() == 0 {
        assert forall|k: int| 0 <= k < all.len() implies s.contains(#[trigger] all[k]) by {
            assert(s[k] == all[k]);
        }
    } else {
        let rest = t.drop_last();
        let had = more_refusals(s, rest);
        lemma_more_refusals(s, rest);
        assert forall|k: int| 0 <= k < s.len() implies #[trigger] all[k] == s[k] by {
            assert(had[k] == s[k]);
        }
        assert forall|k: int| 0 <= k < all.len() implies s.contains(#[trigger] all[k]) || t.contains(all[k]) by {
            if k < had.len() {
                assert(all[k] == had[k]);
                if rest.contains(had[k]) {
                    let j = choose|j: int| 0 <= j < rest.len() && rest[j] == had[k];
                    assert(t[j] == had[k]);
                }
            } else {
                assert(all[k] == t[t.len() - 1]);
            }
        }
        assert forall|k: int| 0 <= k < t.len() implies exists|j: int|
            0 <= j < all.len() && refusal_key(#[trigger] all[j]) == refusal_key(#[trigger] t[k]) by {
            if k < rest.len() {
                assert(rest[k] == t[k]);
                let j = choose|j: int| 0 <= j < had.len() && refusal_key(#[trigger] had[j]) == refusal_key(rest[k]);
                assert(all[j] == had[j]);
            } else if exists|j: int| 0 <= j < had.len() && refusal_key(#[trigger] had[j]) == refusal_key(t.last()) {
                let j = choose|j: int| 0 <= j < had.len() && refusal_key(#[trigger] had[j]) == refusal_key(t.last());
                assert(all[j] == had[j]);
            } else {
                assert(all[had.len() as int] == t[k]);
            }
        }
    }
}

proof fn lemma_more_stale(s: Seq<StaleView>, t: Seq<StaleView>)
    ensures
        ({
            let all = more_stale(s, t);
            &&& s.len() <= all.len()
            &&& forall|k: int| 0 <= k < s.len() ==> #[trigger] all[k] == s[k]
            &&& forall|k: int| 0 <= k < all.len() ==> s.contains(#[trigger] all[k]) || t.contains(all[k])
            &&& forall|k: int| 0 <= k < t.len() ==> exists|j: int|
                0 <= j < all.len() && stale_key(#[trigger] all[j]) == stale_key(#[trigger] t[k])
        }),
    decreases t.len(),
{
    let all = more_stale(s, t);
    if t.len() == 0 {
        assert forall|k: int| 0 <= k < all.len() implies s.contains(#[trigger] all[k]) by {
            assert(s[k] == all[k]);
        }
    } else {
        let rest = t.drop_last();
        let had = more_stale(s, rest);
        lemma_more_stale(s, rest);
        assert forall|k: int| 0 <= k < s.len() implies #[trigger] all[k] == s[k] by {
            assert(had[k] == s[k]);
        }
        assert forall|k: int| 0 <= k < all.len() implies s.contains(#[trigger] all[k]) || t.contains(all[k]) by {
            if k < had.len() {
                assert(all[k] == had[k]);
                if rest.contains(had[k]) {
                    let j = choose|j: int| 0 <= j < rest.len() && rest[j] == had[k];
                    assert(t[j] == had[k]);
                }
            } else {
                assert(all[k] == t[t.len() - 1]);
            }
        }
        assert forall|k: int| 0 <= k < t.len() implies exists|j: int|
            0 <= j < all.len() && stale_key(#[trigger] all[j]) == stale_key(#[trigger] t[k]) by {
            if k < rest.len() {
                assert(rest[k] == t[k]);
                let j = choose|j: int| 0 <= j < had.len() && stale_key(#[trigger] had[j]) == stale_key(rest[k]);
                assert(all[j] == had[j]);
            } else if exists|j: int| 0 <= j < had.len() && stale_key(#[trigger] had[j]) == stale_key(t.last()) {
                let j = choose|j: int| 0 <= j < had.len() && stale_key(#[trigger] had[j]) == stale_key(t.last());
                assert(all[j] == had[j]);
            } else {
                assert(all[had.len() as int] == t[k]);
            }
        }
    }
}

/// What one of the verdicts on the names says.
pub open spec fn is_part(target: TargetView, nodes: Seq<NodeView>, edges: Seq<QueryEdgeView>, names: Seq<Seq<char>>, i: int, v: VerdictView) -> bool {
    0 <= i < names.len() && v == verdict_on(target, nodes, edges, names[i])
}

/// A verdict on several names says what the verdicts on each of them say, and
/// nothing else. A dependent is told once, by its node; a refusal and a stale
/// reference by where it comes from and what it names.
pub proof fn a_verdict_on_names_joins_theirs(
    target: TargetView,
    nodes: Seq<NodeView>,
    edges: Seq<QueryEdgeView>,
    names: Seq<Seq<char>>,
)
    ensures
        ({
            let all = verdict_on_all(target, nodes, edges, names);
            &&& all.target == target
            &&& all.graph_empty <==> nodes.len() == 0
            &&& all.explanations is None
            &&& distinct_dependents(all.resolved_dependents)
            &&& forall|i: int, v: VerdictView| #[trigger] is_part(target, nodes, edges, names, i, v) ==> is_joined(v, all)
            &&& forall|d: DependentView| #[trigger] all.resolved_dependents.contains(d) ==> exists|i: int, v: VerdictView|
             #[trigger] is_part(target, nodes, edges, names, i, v) && v.resolved_dependents.contains(d)
            &&& forall|d: RefusalView| #[trigger] all.ambiguous_refusals.contains(d) ==> exists|i: int, v: VerdictView|
             #[trigger] is_part(target, nodes, edges, names, i, v) && v.ambiguous_refusals.contains(d)
            &&& forall|d: StaleView| #[trigger] all.stale_references.contains(d) ==> exists|i: int, v: VerdictView|
             #[trigger] is_part(target, nodes, edges, names, i, v) && v.stale_references.contains(d)
            &&& all.name_ambiguous <==> exists|i: int, v: VerdictView|
             #[trigger] is_part(target, nodes, edges, names, i, v) && v.name_ambiguous
        }),
    decreases names.len(),
{
    let all = verdict_on_all(target, nodes, edges, names);
    if names.len() > 0 {
        let rest = names.drop_last();
        let a = verdict_on_all(target, nodes, edges, rest);
        let b = verdict_on(target, nodes, edges, names.last());
        let last = names.len() - 1;
        a_verdict_on_names_joins_theirs(target, nodes, edges, rest);
        lemma_more_dependents(a.resolved_dependents, b.resolved_dependents);
        lemma_more_refusals(a.ambiguous_refusals, b.ambiguous_refusals);
        lemma_more_stale(a.stale_references, b.stale_references);
        assert(is_part(target, nodes, edges, names, last, b));
        assert forall|i: int, v: VerdictView| is_part(target, nodes, edges, rest, i, v) implies #[trigger] is_part(
            target,
            nodes,
            edges,
            names,
            i,
            v,
        ) by {
            assert(rest[i] == names[i]);
        }
        lemma_joined(a, b, all);
        assert forall|i: int, v: VerdictView| #[trigger] is_part(target, nodes, edges, names, i, v) implies is_joined(v, all) by {
            if i < rest.len() {
                assert(rest[i] == names[i]);
                assert(is_part(target, nodes, edges, rest, i, v));
                lemma_joined_on(v, a, all);
            }
        }
        assert forall|d: DependentView| #[trigger] all.resolved_dependents.contains(d) implies exists|i: int, v: VerdictView|
         #[trigger] is_part(target, nodes, edges, names, i, v) && v.resolved_dependents.contains(d) by {
            let k = choose|k: int| 0 <= k < all.resolved_dependents.len() && all.resolved_dependents[k] == d;
            if a.resolved_dependents.contains(d) {
                let (i, v) = choose|i: int, v: VerdictView| #[trigger]
                    is_part(target, nodes, edges, rest, i, v) && v.resolved_dependents.contains(d);
                assert(is_part(target, nodes, edges, names, i, v));
            }
        }
        assert forall|d: RefusalView| #[trigger] all.ambiguous_refusals.contains(d) implies exists|i: int, v: VerdictView|
         #[trigger] is_part(target, nodes, edges, names, i, v) && v.ambiguous_refusals.contains(d) by {
            let k = choose|k: int| 0 <= k < all.ambiguous_refusals.len() && all.ambiguous_refusals[k] == d;
            if a.ambiguous_refusals.contains(d) {
                let (i, v) = choose|i: int, v: VerdictView| #[trigger]
                    is_part(target, nodes, edges, rest, i, v) && v.ambiguous_refusals.contains(d);
                assert(is_part(target, nodes, edges, names, i, v));
            }
        }
        assert forall|d: StaleView| #[trigger] all.stale_references.contains(d) implies exists|i: int, v: VerdictView|
         #[trigger] is_part(target, nodes, edges, names, i, v) && v.stale_references.contains(d) by {
            let k = choose|k: int| 0 <= k < all.stale_references.len() && all.stale_references[k] == d;
            if a.stale_references.contains(d) {
                let (i, v) = choose|i: int, v: VerdictView| #[trigger]
                    is_part(target, nodes, edges, rest, i, v) && v.stale_references.contains(d);
                assert(is_part(target, nodes, edges, names, i, v));
            }
        }
        if a.name_ambiguous {
            let (i, v) = choose|i: int, v: VerdictView| #[trigger]
                is_part(target, nodes, edges, rest, i, v) && v.name_ambiguous;
            assert(is_part(target, nodes, edges, names, i, v));
        }
        if exists|i: int, v: VerdictView| #[trigger] is_part(target, nodes, edges, names, i, v) && v.name_ambiguous {
            let (i, v) = choose|i: int, v: VerdictView| #[trigger]
                is_part(target, nodes, edges, names, i, v) && v.name_ambiguous;
            if i < rest.len() {
                assert(rest[i] == names[i]);
                assert(is_part(target, nodes, edges, rest, i, v));
            }
        }
    }
}

/// A dependent with the id is listed.
pub open spec fn has_dependent(s: Seq<DependentView>, id: Seq<char>) -> bool {
    exists|j: int| 0 <= j < s.len() && (#[trigger] s[j]).item.node_id == id
}

/// A refusal of the same reference is listed.
pub open spec fn has_refusal(s: Seq<RefusalView>, r: RefusalView) -> bool {
    exists|j: int| 0 <= j < s.len() && same_refusal(#[trigger] s[j], r)
}

/// The same stale reference is listed.
pub open spec fn has_stale(s: Seq<StaleView>, r: StaleView) -> bool {
    exists|j: int| 0 <= j < s.len() && same_stale(#[trigger] s[j], r)
}

/// All that one verdict says, the other says too.
pub open spec fn is_joined(v: VerdictView, all: VerdictView) -> bool {
    &&& forall|k: int| 0 <= k < v.resolved_dependents.len() ==> has_dependent(
        all.resolved_dependents,
        (#[trigger] v.resolved_dependents[k]).item.node_id,
    )
    &&& forall|k: int| 0 <= k < v.ambiguous_refusals.len() ==> has_refusal(
        all.ambiguous_refusals,
        #[trigger] v.ambiguous_refusals[k],
    )
    &&& forall|k: int| 0 <= k < v.stale_references.len() ==> has_stale(
        all.stale_references,
        #[trigger] v.stale_references[k],
    )
    &&& forall|m: MatchedView| #[trigger] v.matched_symbols.contains(m) ==> all.matched_symbols.contains(m)
}

pub open spec fn same_refusal(a: RefusalView, b: RefusalView) -> bool {
    a.from_file == b.from_file && a.from_name == b.from_name && a.to_name == b.to_name
}

pub open spec fn same_stale(a: StaleView, b: StaleView) -> bool {
    a.from_file == b.from_file && a.from_name == b.from_name && a.to_name == b.to_name
}

proof fn lemma_joined(a: VerdictView, b: VerdictView, all: VerdictView)
    requires
        all == crate::facade::paths::together(a, b),
    ensures
        is_joined(a, all),
        is_joined(b, all),
{
    lemma_more_dependents(a.resolved_dependents, b.resolved_dependents);
    lemma_more_refusals(a.ambiguous_refusals, b.ambiguous_refusals);
    lemma_more_stale(a.stale_references, b.stale_references);
    assert forall|k: int| 0 <= k < a.resolved_dependents.len() implies has_dependent(all.resolved_dependents, (#[trigger] a.resolved_dependents[k]).item.node_id) by {
        assert(all.resolved_dependents[k] == a.resolved_dependents[k]);
    }
    assert forall|k: int| 0 <= k < a.ambiguous_refusals.len() implies has_refusal(all.ambiguous_refusals, #[trigger] a.ambiguous_refusals[k]) by {
        assert(all.ambiguous_refusals[k] == a.ambiguous_refusals[k]);
    }
    assert forall|k: int| 0 <= k < a.stale_references.len() implies has_stale(all.stale_references, #[trigger] a.stale_references[k]) by {
        assert(all.stale_references[k] == a.stale_references[k]);
    }
    assert forall|k: int| 0 <= k < b.ambiguous_refusals.len() implies has_refusal(all.ambiguous_refusals, #[trigger] b.ambiguous_refusals[k]) by {
        let j = choose|j: int|
            0 <= j < all.ambiguous_refusals.len() && refusal_key(#[trigger] all.ambiguous_refusals[j]) == refusal_key(
                b.ambiguous_refusals[k],
            );
        assert(same_refusal(all.ambiguous_refusals[j], b.ambiguous_refusals[k]));
    }
    assert forall|k: int| 0 <= k < b.stale_references.len() implies has_stale(all.stale_references, #[trigger] b.stale_references[k]) by {
        let j = choose|j: int|
            0 <= j < all.stale_references.len() && stale_key(#[trigger] all.stale_references[j]) == stale_key(
                b.stale_references[k],
            );
        assert(same_stale(all.stale_references[j], b.stale_references[k]));
    }
    assert forall|m: MatchedView| #[trigger] a.matched_symbols.contains(m) implies all.matched_symbols.contains(m) by {
        let k = choose|k: int| 0 <= k < a.matched_symbols.len() && a.matched_symbols[k] == m;
        assert(all.matched_symbols[k] == m);
    }
    assert forall|m: MatchedView| #[trigger] b.matched_symbols.contains(m) implies all.matched_symbols.contains(m) by {
        let k = choose|k: int| 0 <= k < b.matched_symbols.len() && b.matched_symbols[k] == m;
        assert(all.matched_symbols[a.matched_symbols.len() + k] == m);
    }
}

proof fn lemma_joined_on(v: VerdictView, a: VerdictView, all: VerdictView)
    requires
        is_joined(v, a),
        is_joined(a, all),
    ensures
        is_joined(v, all),
{
    assert forall|k: int| 0 <= k < v.resolved_dependents.len() implies has_dependent(all.resolved_dependents, (#[trigger] v.resolved_dependents[k]).item.node_id) by {
        assert(has_dependent(a.resolved_dependents, v.resolved_dependents[k].item.node_id));
        let i = choose|i: int|
            0 <= i < a.resolved_dependents.len() && (#[trigger] a.resolved_dependents[i]).item.node_id
                == v.resolved_dependents[k].item.node_id;
        let j = choose|j: int|
            0 <= j < all.resolved_dependents.len() && (#[trigger] all.resolved_dependents[j]).item.node_id
                == a.resolved_dependents[i].item.node_id;
        assert(all.resolved_dependents[j].item.node_id == v.resolved_dependents[k].item.node_id);
    }
    assert forall|k: int| 0 <= k < v.ambiguous_refusals.len() implies has_refusal(all.ambiguous_refusals, #[trigger] v.ambiguous_refusals[k]) by {
        assert(has_refusal(a.ambiguous_refusals, v.ambiguous_refusals[k]));
        let i = choose|i: int|
            0 <= i < a.ambiguous_refusals.len() && same_refusal(
                #[trigger] a.ambiguous_refusals[i],
                v.ambiguous_refusals[k],
            );
        let j = choose|j: int|
            0 <= j < all.ambiguous_refusals.len() && same_refusal(
                #[trigger] all.ambiguous_refusals[j],
                a.ambiguous_refusals[i],
            );
        assert(same_refusal(all.ambiguous_refusals[j], v.ambiguous_refusals[k]));
    }
    assert forall|k: int| 0 <= k < v.stale_references.len() implies has_stale(all.stale_references, #[trigger] v.stale_references[k]) by {
        assert(has_stale(a.stale_references, v.stale_references[k]));
        let i = choose|i: int|
            0 <= i < a.stale_references.len() && same_stale(#[trigger] a.stale_references[i], v.stale_references[k]);
        let j = choose|j: int|
            0 <= j < all.stale_references.len() && same_stale(
                #[trigger] all.stale_references[j],
                a.stale_references[i],
            );
        assert(same_stale(all.stale_references[j], v.stale_references[k]));
    }
    assert forall|m: MatchedView| #[trigger] v.matched_symbols.contains(m) implies all.matched_symbols.contains(m) by {
        assert(a.matched_symbols.contains(m));
    }
}

} // verus!
