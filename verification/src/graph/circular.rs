//! Pairs of files that depend on each other.

use vstd::prelude::*;

use crate::gather::gather;
use crate::graph::web::{is_bound, query_views, QueryEdge, QueryEdgeView};
use crate::index::resolve::indices::place_of_id;
use crate::index::resolve::{node_views, NodeView, ResolverNode};
use crate::graph::web::Web;
use crate::lookup::{lemma_places_of, lemma_take_next, places_of, put, SortedIndex};
use crate::order::{
    index_before, is_distinct_sorted, is_stable_order, lemma_stable_order_exists, sort_distinct, sort_items, stable_indices,
    Sortable,
};
use crate::text::same_text;

verus! {

/// Two files that depend on each other.
#[derive(Debug, Clone)]
pub struct CircularDep {
    pub file_a: String,
    pub file_b: String,
    pub a_to_b_edges: i64,
    pub b_to_a_edges: i64,
    /// The kinds of references, sorted; only `file_ref` where none is known.
    pub via: Vec<String>,
}

#[verifier::ext_equal]
pub struct CircularDepView {
    pub file_a: Seq<char>,
    pub file_b: Seq<char>,
    pub a_to_b_edges: i64,
    pub b_to_a_edges: i64,
    pub via: Seq<Seq<char>>,
}

impl DeepView for CircularDep {
    type V = CircularDepView;

    open spec fn deep_view(&self) -> CircularDepView {
        CircularDepView {
            file_a: self.file_a@,
            file_b: self.file_b@,
            a_to_b_edges: self.a_to_b_edges,
            b_to_a_edges: self.b_to_a_edges,
            via: self.via.deep_view(),
        }
    }
}

// ---- references between files ---------------------------------------------------------------

/// A reference between files: from, to, and the kind of reference.
pub type FileEdge = (Seq<char>, Seq<char>, Seq<char>);

pub open spec fn file_edges(edges: Seq<(String, String, String)>) -> Seq<FileEdge> {
    Seq::new(edges.len(), |i: int| (edges[i].0@, edges[i].1@, edges[i].2@))
}

pub open spec fn file_pairs_of(pairs: Seq<(String, String)>) -> Seq<(Seq<char>, Seq<char>)> {
    Seq::new(pairs.len(), |i: int| (pairs[i].0@, pairs[i].1@))
}

pub open spec fn cross_fn(nodes: Seq<NodeView>) -> spec_fn(QueryEdgeView) -> Option<FileEdge> {
    |e: QueryEdgeView|
        match (place_of_id(nodes, e.from_id), place_of_id(nodes, e.to_id)) {
            (Some(a), Some(b)) => if is_bound(e) && nodes[a].file_path != nodes[b].file_path {
                Some((nodes[a].file_path, nodes[b].file_path, e.edge_type))
            } else {
                None
            },
            _ => None,
        }
}

/// The bound references whose ends are known nodes of different files.
pub open spec fn cross_edges(nodes: Seq<NodeView>, edges: Seq<QueryEdgeView>) -> Seq<FileEdge> {
    gather(edges, cross_fn(nodes))
}

/// The bound references between different files.
pub fn cross_file_edges(nodes: &[ResolverNode], edges: &[QueryEdge]) -> (r: Vec<(String, String, String)>)
    ensures
        file_edges(r@) == cross_edges(node_views(nodes@), query_views(edges@)),
        r.len() <= edges.len(),
{
    let ghost nv = node_views(nodes@);
    let ghost ev = query_views(edges@);
    let web = Web::build(nodes, edges);
    let mut out: Vec<(String, String, String)> = Vec::new();
    assert(file_edges(out@) =~= gather(ev.take(0), cross_fn(nv)));
    let mut i: usize = 0;
    while i < edges.len()
        invariant
            i <= edges.len(),
            nv == node_views(nodes@),
            ev == query_views(edges@),
            web.describes(nv, ev),
            file_edges(out@) == gather(ev.take(i as int), cross_fn(nv)),
            out.len() <= i,
        decreases edges.len() - i,
    {
        let e = &edges[i];
        proof {
            lemma_take_next(ev, i as int);
        }
        assert(ev[i as int] == e.deep_view());
        if same_text(e.confidence.as_str(), "RESOLVED") && !e.to_id.as_str().is_empty() {
            match (web.find(&e.from_id, Ghost(nv), Ghost(ev)), web.find(&e.to_id, Ghost(nv), Ghost(ev))) {
                (Some(a), Some(b)) => {
                    let ff = &nodes[a].file_path;
                    let tf = &nodes[b].file_path;
                    if !same_text(ff.as_str(), tf.as_str()) {
                        let ghost before = file_edges(out@);
                        let t: (String, String, String) = (
                            ff.as_str().to_owned(),
                            tf.as_str().to_owned(),
                            e.edge_type.as_str().to_owned(),
                        );
                        let ghost tv: FileEdge = (t.0@, t.1@, t.2@);
                        out.push(t);
                        assert(file_edges(out@) =~= before.push(tv));
                    }
                },
                _ => {},
            }
        }
        i += 1;
    }
    assert(ev.take(i as int) =~= ev);
    out
}

// ---- cycles ----------------------------------------------------------------------------------

/// The files of every reference.
pub open spec fn ends(edges: Seq<FileEdge>) -> Seq<(Seq<char>, Seq<char>)> {
    Seq::new(edges.len(), |i: int| (edges[i].0, edges[i].1))
}

/// Does `a` depend on `b`?
pub open spec fn depends(edges: Seq<FileEdge>, refs: Seq<(Seq<char>, Seq<char>)>, a: Seq<char>, b: Seq<char>) -> bool {
    ends(edges).contains((a, b)) || refs.contains((a, b))
}

/// Do the two files, given in their order, depend on each other?
pub open spec fn is_cycle(edges: Seq<FileEdge>, refs: Seq<(Seq<char>, Seq<char>)>, a: Seq<char>, b: Seq<char>) -> bool {
    &&& !<String as Sortable>::before(b, a)
    &&& depends(edges, refs, a, b)
    &&& depends(edges, refs, b, a)
}

/// The places of the references from `a` to `b`.
pub open spec fn between(edges: Seq<FileEdge>, a: Seq<char>, b: Seq<char>) -> Seq<usize> {
    places_of(ends(edges), (a, b))
}

/// The kinds of the references from `a` to `b`.
pub open spec fn kinds(edges: Seq<FileEdge>, a: Seq<char>, b: Seq<char>) -> Seq<Seq<char>> {
    Seq::new(between(edges, a, b).len(), |i: int| edges[between(edges, a, b)[i] as int].2)
}

/// The list of kinds of references between two files.
pub open spec fn is_via(via: Seq<Seq<char>>, edges: Seq<FileEdge>, a: Seq<char>, b: Seq<char>) -> bool {
    let all = kinds(edges, a, b) + kinds(edges, b, a);
    if all.len() == 0 {
        via == seq!["file_ref"@]
    } else {
        is_distinct_sorted::<String>(all, via)
    }
}

/// What is reported of a pair of files that depend on each other.
pub open spec fn reports(c: CircularDepView, edges: Seq<FileEdge>, refs: Seq<(Seq<char>, Seq<char>)>) -> bool {
    &&& is_cycle(edges, refs, c.file_a, c.file_b)
    &&& c.a_to_b_edges == between(edges, c.file_a, c.file_b).len()
    &&& c.b_to_a_edges == between(edges, c.file_b, c.file_a).len()
    &&& is_via(c.via, edges, c.file_a, c.file_b)
}

/// Pairs with more references come first; among equals the order of the files
/// decides.
pub open spec fn ranks_before(x: CircularDepView, y: CircularDepView) -> bool {
    let tx = x.a_to_b_edges + x.b_to_a_edges;
    let ty = y.a_to_b_edges + y.b_to_a_edges;
    tx > ty || (tx == ty && <(String, String) as Sortable>::before((x.file_a, x.file_b), (y.file_a, y.file_b)))
}

/// The report lists every pair of files that depend on each other, each once, in
/// order.
pub open spec fn lists_cycles(
    report: Seq<CircularDepView>,
    edges: Seq<FileEdge>,
    refs: Seq<(Seq<char>, Seq<char>)>,
) -> bool {
    &&& forall|i: int| 0 <= i < report.len() ==> reports(#[trigger] report[i], edges, refs)
    &&& forall|a: Seq<char>, b: Seq<char>| #[trigger] is_cycle(edges, refs, a, b) ==> is_reported(report, a, b)
    &&& forall|i: int, j: int| 0 <= i < j < report.len() ==> ranks_before(#[trigger] report[i], #[trigger] report[j])
}

pub open spec fn is_reported(report: Seq<CircularDepView>, a: Seq<char>, b: Seq<char>) -> bool {
    exists|i: int| 0 <= i < report.len() && (#[trigger] report[i]).file_a == a && report[i].file_b == b
}

/// Finds the references between two files.
struct FileIndex {
    edges: SortedIndex<(String, String)>,
    refs: SortedIndex<(String, String)>,
}

impl FileIndex {
    spec fn describes(&self, edges: Seq<FileEdge>, refs: Seq<(Seq<char>, Seq<char>)>) -> bool {
        &&& self.edges.wf()
        &&& self.edges.keys() == ends(edges)
        &&& self.refs.wf()
        &&& self.refs.keys() == refs
    }

    fn has(&self, pair: &(String, String), Ghost(edges): Ghost<Seq<FileEdge>>, Ghost(refs): Ghost<
        Seq<(Seq<char>, Seq<char>)>,
    >) -> (r: bool)
        requires
            self.describes(edges, refs),
        ensures
            r == depends(edges, refs, pair.0@, pair.1@),
    {
        let ghost p = (pair.0@, pair.1@);
        assert(pair.deep_view() == p);
        let q = self.edges.places(pair);
        let s = self.refs.places(pair);
        proof {
            lemma_occurs(ends(edges), p);
            lemma_occurs(refs, p);
        }
        q.len() > 0 || s.len() > 0
    }
}

proof fn lemma_occurs<A>(s: Seq<A>, x: A)
    requires
        s.len() <= usize::MAX,
    ensures
        s.contains(x) == (places_of(s, x).len() > 0),
{
    lemma_places_of(s, x);
    if s.contains(x) {
        let k = choose|k: int| 0 <= k < s.len() && s[k] == x;
        assert(places_of(s, x).contains(k as usize));
    }
    if places_of(s, x).len() > 0 {
        assert(s[places_of(s, x)[0] as int] == x);
    }
}

fn pair_of(a: &String, b: &String) -> (r: (String, String))
    ensures
        r.0@ == a@,
        r.1@ == b@,
{
    (a.as_str().to_owned(), b.as_str().to_owned())
}

fn build_index(name_edges: &[(String, String, String)], file_ref_pairs: &[(String, String)]) -> (r: FileIndex)
    ensures
        r.describes(file_edges(name_edges@), file_pairs_of(file_ref_pairs@)),
{
    let ghost ev = file_edges(name_edges@);
    let ghost rv = file_pairs_of(file_ref_pairs@);
    let mut keys: Vec<(String, String)> = Vec::new();
    let mut i: usize = 0;
    while i < name_edges.len()
        invariant
            i <= name_edges.len(),
            ev == file_edges(name_edges@),
            keys.deep_view() == ends(ev).take(i as int),
        decreases name_edges.len() - i,
    {
        proof {
            lemma_take_next(ends(ev), i as int);
        }
        put(&mut keys, pair_of(&name_edges[i].0, &name_edges[i].1));
        i += 1;
    }
    assert(ends(ev).take(i as int) =~= ends(ev));
    let mut refs: Vec<(String, String)> = Vec::new();
    let mut j: usize = 0;
    while j < file_ref_pairs.len()
        invariant
            j <= file_ref_pairs.len(),
            rv == file_pairs_of(file_ref_pairs@),
            refs.deep_view() == rv.take(j as int),
        decreases file_ref_pairs.len() - j,
    {
        proof {
            lemma_take_next(rv, j as int);
        }
        put(&mut refs, pair_of(&file_ref_pairs[j].0, &file_ref_pairs[j].1));
        j += 1;
    }
    assert(rv.take(j as int) =~= rv);
    FileIndex { edges: SortedIndex::build(keys), refs: SortedIndex::build(refs) }
}

/// Adds the pair, in its order, if the files depend on each other; it is known
/// that the first depends on the second.
fn add_pair(
    pairs: &mut Vec<(String, String)>,
    index: &FileIndex,
    from: &String,
    to: &String,
    Ghost(edges): Ghost<Seq<FileEdge>>,
    Ghost(refs): Ghost<Seq<(Seq<char>, Seq<char>)>>,
)
    requires
        index.describes(edges, refs),
        depends(edges, refs, from@, to@),
        all_cycles(old(pairs).deep_view(), edges, refs),
    ensures
        all_cycles(final(pairs).deep_view(), edges, refs),
        forall|p: (Seq<char>, Seq<char>)| old(pairs).deep_view().contains(p)
            ==> #[trigger] final(pairs).deep_view().contains(p),
        is_cycle(edges, refs, from@, to@) ==> final(pairs).deep_view().contains((from@, to@)),
        is_cycle(edges, refs, to@, from@) ==> final(pairs).deep_view().contains((to@, from@)),
{
    let ghost before = pairs.deep_view();
    let back = pair_of(to, from);
    if index.has(&back, Ghost(edges), Ghost(refs)) {
        let first = from.is_before(to);
        let ghost f = from@;
        let ghost t = to@;
        proof {
            <String as Sortable>::before_total(f, t);
            <String as Sortable>::before_irreflexive(f);
            if <String as Sortable>::before(f, t) && <String as Sortable>::before(t, f) {
                <String as Sortable>::before_transitive(f, t, f);
            }
        }
        let pair = if first {
            pair_of(from, to)
        } else {
            back
        };
        let ghost pv = (pair.0@, pair.1@);
        assert(is_cycle(edges, refs, pv.0, pv.1));
        put(pairs, pair);
        proof {
            let after = pairs.deep_view();
            assert(after[before.len() as int] == pv);
            assert forall|p: (Seq<char>, Seq<char>)| before.contains(p) implies #[trigger] after.contains(p) by {
                let k = choose|k: int| 0 <= k < before.len() && before[k] == p;
                assert(after[k] == p);
            }
            assert forall|k: int| 0 <= k < after.len() implies is_cycle(edges, refs, (#[trigger] after[k]).0, after[k].1) by {
                if k < before.len() {
                    assert(after[k] == before[k]);
                }
            }
        }
    }
}

spec fn all_cycles(
    pairs: Seq<(Seq<char>, Seq<char>)>,
    edges: Seq<FileEdge>,
    refs: Seq<(Seq<char>, Seq<char>)>,
) -> bool {
    forall|k: int| 0 <= k < pairs.len() ==> is_cycle(edges, refs, (#[trigger] pairs[k]).0, pairs[k].1)
}

/// Every pair of files that depend on each other, in either order of asking.
fn cycle_pairs(name_edges: &[(String, String, String)], file_ref_pairs: &[(String, String)], index: &FileIndex) -> (r: Vec<
    (String, String),
>)
    requires
        index.describes(file_edges(name_edges@), file_pairs_of(file_ref_pairs@)),
    ensures
        ({
            let edges = file_edges(name_edges@);
            let refs = file_pairs_of(file_ref_pairs@);
            &&& all_cycles(r.deep_view(), edges, refs)
            &&& forall|a: Seq<char>, b: Seq<char>| #[trigger] is_cycle(edges, refs, a, b) ==> r.deep_view().contains((a, b))
        }),
{
    let ghost ev = file_edges(name_edges@);
    let ghost rv = file_pairs_of(file_ref_pairs@);
    let mut pairs: Vec<(String, String)> = Vec::new();
    let mut i: usize = 0;
    while i < name_edges.len()
        invariant
            i <= name_edges.len(),
            ev == file_edges(name_edges@),
            index.describes(ev, rv),
            all_cycles(pairs.deep_view(), ev, rv),
            forall|k: int| 0 <= k < i ==> covers(pairs.deep_view(), ev, rv, #[trigger] ends(ev)[k]),
        decreases name_edges.len() - i,
    {
        let e = &name_edges[i];
        assert(ends(ev)[i as int] == (e.0@, e.1@));
        assert(ends(ev).contains((e.0@, e.1@)));
        let ghost before = pairs.deep_view();
        add_pair(&mut pairs, index, &e.0, &e.1, Ghost(ev), Ghost(rv));
        assert forall|k: int| 0 <= k < i + 1 implies covers(pairs.deep_view(), ev, rv, #[trigger] ends(ev)[k]) by {
            if k < i {
                assert(covers(before, ev, rv, ends(ev)[k]));
            }
        }
        i += 1;
    }
    let mut j: usize = 0;
    while j < file_ref_pairs.len()
        invariant
            j <= file_ref_pairs.len(),
            rv == file_pairs_of(file_ref_pairs@),
            index.describes(ev, rv),
            all_cycles(pairs.deep_view(), ev, rv),
            forall|k: int| 0 <= k < ends(ev).len() ==> covers(pairs.deep_view(), ev, rv, #[trigger] ends(ev)[k]),
            forall|k: int| 0 <= k < j ==> covers(pairs.deep_view(), ev, rv, #[trigger] rv[k]),
        decreases file_ref_pairs.len() - j,
    {
        let e = &file_ref_pairs[j];
        assert(rv[j as int] == (e.0@, e.1@));
        assert(rv.contains((e.0@, e.1@)));
        let ghost before = pairs.deep_view();
        add_pair(&mut pairs, index, &e.0, &e.1, Ghost(ev), Ghost(rv));
        assert forall|k: int| 0 <= k < ends(ev).len() implies covers(pairs.deep_view(), ev, rv, #[trigger] ends(ev)[k]) by {
            assert(covers(before, ev, rv, ends(ev)[k]));
        }
        assert forall|k: int| 0 <= k < j + 1 implies covers(pairs.deep_view(), ev, rv, #[trigger] rv[k]) by {
            if k < j {
                assert(covers(before, ev, rv, rv[k]));
            }
        }
        j += 1;
    }
    proof {
        let out = pairs.deep_view();
        assert forall|a: Seq<char>, b: Seq<char>| #[trigger] is_cycle(ev, rv, a, b) implies out.contains((a, b)) by {
            if ends(ev).contains((a, b)) {
                let k = choose|k: int| 0 <= k < ends(ev).len() && ends(ev)[k] == (a, b);
                assert(covers(out, ev, rv, ends(ev)[k]));
            } else {
                let k = choose|k: int| 0 <= k < rv.len() && rv[k] == (a, b);
                assert(covers(out, ev, rv, rv[k]));
            }
        }
    }
    pairs
}

/// The pair is listed, in its order, if the files depend on each other.
spec fn covers(
    pairs: Seq<(Seq<char>, Seq<char>)>,
    edges: Seq<FileEdge>,
    refs: Seq<(Seq<char>, Seq<char>)>,
    p: (Seq<char>, Seq<char>),
) -> bool {
    is_cycle(edges, refs, p.0, p.1) ==> pairs.contains(p)
}

fn add_kinds(name_edges: &[(String, String, String)], at: &Vec<usize>, out: &mut Vec<String>)
    requires
        forall|i: int| 0 <= i < at.len() ==> #[trigger] at@[i] < name_edges.len(),
    ensures
        final(out).deep_view() == old(out).deep_view() + Seq::new(
            at@.len(),
            |i: int| file_edges(name_edges@)[at@[i] as int].2,
        ),
{
    let ghost before = out.deep_view();
    let ghost want = Seq::new(at@.len(), |i: int| file_edges(name_edges@)[at@[i] as int].2);
    assert(before + want.take(0) =~= before);
    let mut i: usize = 0;
    while i < at.len()
        invariant
            i <= at.len(),
            forall|i: int| 0 <= i < at.len() ==> #[trigger] at@[i] < name_edges.len(),
            want == Seq::new(at@.len(), |i: int| file_edges(name_edges@)[at@[i] as int].2),
            out.deep_view() == before + want.take(i as int),
        decreases at.len() - i,
    {
        assert(at@[i as int] < name_edges.len());
        proof {
            lemma_take_next(want, i as int);
            assert(before + want.take(i + 1) =~= (before + want.take(i as int)).push(want[i as int]));
        }
        put(out, name_edges[at[i]].2.as_str().to_owned());
        i += 1;
    }
    assert(want.take(i as int) =~= want);
}

fn report_pair(name_edges: &[(String, String, String)], index: &FileIndex, pair: &(String, String), Ghost(refs): Ghost<
    Seq<(Seq<char>, Seq<char>)>,
>) -> (r: CircularDep)
    requires
        name_edges.len() <= i64::MAX,
        index.describes(file_edges(name_edges@), refs),
        is_cycle(file_edges(name_edges@), refs, pair.0@, pair.1@),
    ensures
        reports(r.deep_view(), file_edges(name_edges@), refs),
        r.file_a@ == pair.0@,
        r.file_b@ == pair.1@,
        0 <= r.a_to_b_edges <= name_edges.len(),
        0 <= r.b_to_a_edges <= name_edges.len(),
{
    let ghost ev = file_edges(name_edges@);
    let back = pair_of(&pair.1, &pair.0);
    assert(pair.deep_view() == (pair.0@, pair.1@));
    assert(back.deep_view() == (pair.1@, pair.0@));
    let ab = index.edges.places(pair);
    let ba = index.edges.places(&back);
    proof {
        lemma_places_of(ends(ev), (pair.0@, pair.1@));
        lemma_places_of(ends(ev), (pair.1@, pair.0@));
        lemma_increasing_len(ab@, name_edges.len() as int);
        lemma_increasing_len(ba@, name_edges.len() as int);
    }
    let mut all: Vec<String> = Vec::new();
    add_kinds(name_edges, &ab, &mut all);
    add_kinds(name_edges, &ba, &mut all);
    assert(all.deep_view() =~= kinds(ev, pair.0@, pair.1@) + kinds(ev, pair.1@, pair.0@));
    let via: Vec<String> = if all.len() == 0 {
        let mut v: Vec<String> = Vec::new();
        put(&mut v, "file_ref".to_owned());
        assert(v.deep_view() =~= seq!["file_ref"@]);
        v
    } else {
        sort_distinct(all)
    };
    CircularDep {
        file_a: pair.0.as_str().to_owned(),
        file_b: pair.1.as_str().to_owned(),
        a_to_b_edges: ab.len() as i64,
        b_to_a_edges: ba.len() as i64,
        via,
    }
}

proof fn lemma_increasing_len(q: Seq<usize>, n: int)
    requires
        crate::lookup::is_increasing(q),
        forall|i: int| 0 <= i < q.len() ==> #[trigger] q[i] < n,
        0 <= n,
    ensures
        q.len() <= n,
{
    if q.len() > 0 {
        lemma_increasing_at(q, q.len() - 1);
        assert(q[q.len() - 1] < n);
    }
}

proof fn lemma_increasing_at(q: Seq<usize>, i: int)
    requires
        crate::lookup::is_increasing(q),
        0 <= i < q.len(),
    ensures
        q[i] >= i,
    decreases i,
{
    if i > 0 {
        lemma_increasing_at(q, i - 1);
        assert(q[i - 1] < q[i]);
    }
}

/// Every pair of files that depend on each other, those with the most references
/// first.
pub fn find_cycles(name_edges: &[(String, String, String)], file_ref_pairs: &[(String, String)]) -> (r: Vec<CircularDep>)
    requires
        name_edges.len() <= i64::MAX,
    ensures
        lists_cycles(r.deep_view(), file_edges(name_edges@), file_pairs_of(file_ref_pairs@)),
{
    let ghost ev = file_edges(name_edges@);
    let ghost rv = file_pairs_of(file_ref_pairs@);
    let index = build_index(name_edges, file_ref_pairs);
    let found = cycle_pairs(name_edges, file_ref_pairs, &index);
    let ghost fv = found.deep_view();
    let pairs = sort_distinct(found);
    let ghost pv = pairs.deep_view();
    let mut deps: Vec<CircularDep> = Vec::new();
    let mut keys: Vec<u64> = Vec::new();
    let mut i: usize = 0;
    while i < pairs.len()
        invariant
            i <= pairs.len(),
            name_edges.len() <= i64::MAX,
            ev == file_edges(name_edges@),
            index.describes(ev, rv),
            pv == pairs.deep_view(),
            all_cycles(fv, ev, rv),
            is_distinct_sorted::<(String, String)>(fv, pv),
            deps.len() == i,
            keys.len() == i,
            forall|k: int| 0 <= k < i ==> reports((#[trigger] deps@[k]).deep_view(), ev, rv),
            forall|k: int| 0 <= k < i ==> ((#[trigger] deps@[k]).file_a@, deps@[k].file_b@) == pv[k],
            forall|k: int| 0 <= k < i ==> #[trigger] keys@[k] == u64::MAX - (deps@[k].a_to_b_edges
                + deps@[k].b_to_a_edges),
        decreases pairs.len() - i,
    {
        assert(pv[i as int] == (pairs@[i as int].0@, pairs@[i as int].1@));
        assert(pv.contains(pv[i as int]));
        assert(fv.contains(pv[i as int]));
        let dep = report_pair(name_edges, &index, &pairs[i], Ghost(rv));
        let total: u64 = dep.a_to_b_edges as u64 + dep.b_to_a_edges as u64;
        keys.push(u64::MAX - total);
        deps.push(dep);
        i += 1;
    }
    let ghost dv = deps@;
    let ghost kv = keys.deep_view();
    assert(kv =~= keys@);
    let out = sort_items(&keys, deps);
    proof {
        let p = stable_indices::<u64>(kv);
        lemma_stable_order_exists::<u64>(kv);
        assert(is_stable_order::<u64>(kv, p));
        let report = out.deep_view();
        assert forall|a: int| 0 <= a < report.len() implies reports(#[trigger] report[a], ev, rv) by {
            assert(out@[a] == dv[p[a] as int]);
        }
        assert forall|a: Seq<char>, b: Seq<char>| #[trigger] is_cycle(ev, rv, a, b) implies is_reported(report, a, b) by {
            assert(fv.contains((a, b)));
            assert(pv.contains((a, b)));
            let k = choose|k: int| 0 <= k < pv.len() && pv[k] == (a, b);
            assert(p.contains(k as usize));
            let x = choose|x: int| 0 <= x < p.len() && p[x] == k as usize;
            assert(out@[x] == dv[k]);
            assert(report[x].file_a == a && report[x].file_b == b);
        }
        assert forall|a: int, b: int| 0 <= a < b < report.len() implies ranks_before(
            #[trigger] report[a],
            #[trigger] report[b],
        ) by {
            assert(index_before::<u64>(kv, p[a] as int, p[b] as int));
            assert(out@[a] == dv[p[a] as int]);
            assert(out@[b] == dv[p[b] as int]);
            if kv[p[a] as int] == kv[p[b] as int] {
                assert(<(String, String) as Sortable>::before(pv[p[a] as int], pv[p[b] as int]));
            }
        }
    }
    out
}

} // verus!
