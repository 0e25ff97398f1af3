//! How strongly files depend on each other.
//!
//! The afferent coupling of a file is how many other files depend on it, the
//! efferent coupling how many other files it depends on.

use vstd::prelude::*;

use crate::gather::gather;
use crate::graph::hub_nodes::{falling, falling_key, first_of};
use crate::lookup::{lemma_places_of, lemma_take_next, places_of, put, SortedIndex};
use crate::order::{is_distinct_sorted, lemma_distinct_sorted, sort_distinct, sort_items, stable_sort};
use crate::text::same_text;

verus! {

/// The coupling of one file.
#[derive(Debug, Clone)]
pub struct FileCoupling {
    pub file_path: String,
    pub afferent: i64,
    pub efferent: i64,
    pub node_count: i64,
}

/// A node, as far as its fields are known.
#[derive(Debug, Clone)]
pub struct CouplingNode {
    pub node_id: Option<String>,
    pub name: Option<String>,
    pub node_type: Option<String>,
    pub file_path: Option<String>,
}

/// A reference, as far as its fields are known.
#[derive(Debug, Clone)]
pub struct CouplingEdge {
    pub from_id: Option<String>,
    pub to_name: Option<String>,
    pub to_type: Option<String>,
}

#[verifier::ext_equal]
pub struct CouplingView {
    pub file_path: Seq<char>,
    pub afferent: i64,
    pub efferent: i64,
    pub node_count: i64,
}

impl DeepView for FileCoupling {
    type V = CouplingView;

    open spec fn deep_view(&self) -> CouplingView {
        CouplingView {
            file_path: self.file_path@,
            afferent: self.afferent,
            efferent: self.efferent,
            node_count: self.node_count,
        }
    }
}

/// A node's id and file, where both are known.
pub open spec fn located() -> spec_fn(CouplingNode) -> Option<(Seq<char>, Seq<char>)> {
    |n: CouplingNode|
        match (n.node_id, n.file_path) {
            (Some(id), Some(file)) => Some((id@, file@)),
            _ => None,
        }
}

/// A node's name and type, and its file, where all are known.
pub open spec fn named() -> spec_fn(CouplingNode) -> Option<((Seq<char>, Seq<char>), Seq<char>)> {
    |n: CouplingNode|
        match (n.name, n.node_type, n.file_path) {
            (Some(name), Some(ty), Some(file)) => Some(((name@, ty@), file@)),
            _ => None,
        }
}

pub open spec fn firsts<A, B>(s: Seq<(A, B)>) -> Seq<A> {
    Seq::new(s.len(), |i: int| s[i].0)
}

pub open spec fn seconds<A, B>(s: Seq<(A, B)>) -> Seq<B> {
    Seq::new(s.len(), |i: int| s[i].1)
}

/// The file of a node; of several nodes with the id, that of the last.
pub open spec fn file_of_node(nodes: Seq<CouplingNode>, id: Seq<char>) -> Option<Seq<char>> {
    let rows = gather(nodes, located());
    let q = places_of(firsts(rows), id);
    if q.len() == 0 {
        None
    } else {
        Some(rows[q.last() as int].1)
    }
}

/// The file of a name and type; of several nodes, that of the first.
pub open spec fn file_of_name(nodes: Seq<CouplingNode>, key: (Seq<char>, Seq<char>)) -> Option<Seq<char>> {
    let rows = gather(nodes, named());
    let q = places_of(firsts(rows), key);
    if q.len() == 0 {
        None
    } else {
        Some(rows[q[0] as int].1)
    }
}

/// The files that a reference leads from and to, where both are known and they
/// differ.
pub open spec fn crossing(nodes: Seq<CouplingNode>) -> spec_fn(CouplingEdge) -> Option<(Seq<char>, Seq<char>)> {
    |e: CouplingEdge|
        match (e.from_id, e.to_name, e.to_type) {
            (Some(id), Some(name), Some(ty)) => match (file_of_node(nodes, id@), file_of_name(nodes, (name@, ty@))) {
                (Some(a), Some(b)) => if a != b {
                    Some((a, b))
                } else {
                    None
                },
                _ => None,
            },
            _ => None,
        }
}

/// The files that depend on a file: those with a crossing into it.
pub open spec fn sources(crossings: Seq<(Seq<char>, Seq<char>)>, file: Seq<char>) -> Set<Seq<char>> {
    Set::new(|other: Seq<char>| crossings.contains((other, file)))
}

/// The files that a file depends on: those with a crossing from it.
pub open spec fn targets(crossings: Seq<(Seq<char>, Seq<char>)>, file: Seq<char>) -> Set<Seq<char>> {
    Set::new(|other: Seq<char>| crossings.contains((file, other)))
}

/// The coupling of a file.
pub open spec fn coupling_of(nodes: Seq<CouplingNode>, edges: Seq<CouplingEdge>, file: Seq<char>) -> CouplingView {
    let crossings = gather(edges, crossing(nodes));
    CouplingView {
        file_path: file,
        afferent: sources(crossings, file).len() as i64,
        efferent: targets(crossings, file).len() as i64,
        node_count: places_of(seconds(gather(nodes, located())), file).len() as i64,
    }
}

pub open spec fn coupling_keys(rows: Seq<CouplingView>) -> Seq<u64> {
    Seq::new(rows.len(), |i: int| falling((rows[i].afferent + rows[i].efferent) as i64))
}

/// The couplings of some files.
pub open spec fn couplings(nodes: Seq<CouplingNode>, edges: Seq<CouplingEdge>, files: Seq<Seq<char>>) -> Seq<CouplingView> {
    Seq::new(files.len(), |i: int| coupling_of(nodes, edges, files[i]))
}

/// The files that have located nodes, each once, in ascending order.
pub open spec fn lists_files(nodes: Seq<CouplingNode>, files: Seq<Seq<char>>) -> bool {
    is_distinct_sorted::<String>(seconds(gather(nodes, located())), files)
}

/// What is reported: the files by falling sum of their couplings, files of equal
/// sum in ascending order, as many as are wanted.
pub open spec fn is_report(
    r: Seq<CouplingView>,
    nodes: Seq<CouplingNode>,
    edges: Seq<CouplingEdge>,
    limit: usize,
) -> bool {
    exists|files: Seq<Seq<char>>| #[trigger]
        lists_files(nodes, files) && r == first_of(
            stable_sort::<u64, CouplingView>(coupling_keys(couplings(nodes, edges, files)), couplings(nodes, edges, files)),
            limit,
        )
}

/// Rows of a key and a file.
struct Rows<K> {
    index: SortedIndex<K>,
    files: Vec<String>,
}

fn locate(nodes: &Vec<CouplingNode>) -> (r: (Vec<String>, Vec<String>))
    ensures
        r.0.deep_view() == firsts(gather(nodes@, located())),
        r.1.deep_view() == seconds(gather(nodes@, located())),
        r.0.len() <= nodes.len(),
{
    let mut ids: Vec<String> = Vec::new();
    let mut files: Vec<String> = Vec::new();
    assert(nodes@.take(0) =~= Seq::empty());
    assert(ids.deep_view() =~= firsts(gather(nodes@.take(0), located())));
    assert(files.deep_view() =~= seconds(gather(nodes@.take(0), located())));
    let mut i: usize = 0;
    while i < nodes.len()
        invariant
            i <= nodes.len(),
            ids.deep_view() == firsts(gather(nodes@.take(i as int), located())),
            files.deep_view() == seconds(gather(nodes@.take(i as int), located())),
            ids.len() <= i,
        decreases nodes.len() - i,
    {
        proof {
            lemma_take_next(nodes@, i as int);
        }
        let ghost before = gather(nodes@.take(i as int), located());
        match (&nodes[i].node_id, &nodes[i].file_path) {
            (Some(id), Some(file)) => {
                put(&mut ids, id.as_str().to_owned());
                put(&mut files, file.as_str().to_owned());
                proof {
                    let after = before.push((id@, file@));
                    assert(gather(nodes@.take(i + 1), located()) == after);
                    assert(ids.deep_view() =~= firsts(after));
                    assert(files.deep_view() =~= seconds(after));
                }
            },
            _ => {},
        }
        i += 1;
    }
    assert(nodes@.take(i as int) =~= nodes@);
    (ids, files)
}

fn name_files(nodes: &Vec<CouplingNode>) -> (r: (Vec<(String, String)>, Vec<String>))
    ensures
        r.0.deep_view() == firsts(gather(nodes@, named())),
        r.1.deep_view() == seconds(gather(nodes@, named())),
{
    let mut keys: Vec<(String, String)> = Vec::new();
    let mut files: Vec<String> = Vec::new();
    assert(nodes@.take(0) =~= Seq::empty());
    assert(keys.deep_view() =~= firsts(gather(nodes@.take(0), named())));
    assert(files.deep_view() =~= seconds(gather(nodes@.take(0), named())));
    let mut i: usize = 0;
    while i < nodes.len()
        invariant
            i <= nodes.len(),
            keys.deep_view() == firsts(gather(nodes@.take(i as int), named())),
            files.deep_view() == seconds(gather(nodes@.take(i as int), named())),
        decreases nodes.len() - i,
    {
        proof {
            lemma_take_next(nodes@, i as int);
        }
        let ghost before = gather(nodes@.take(i as int), named());
        match (&nodes[i].name, &nodes[i].node_type, &nodes[i].file_path) {
            (Some(name), Some(ty), Some(file)) => {
                let key: (String, String) = (name.as_str().to_owned(), ty.as_str().to_owned());
                assert(key.deep_view() == (name@, ty@));
                put(&mut keys, key);
                put(&mut files, file.as_str().to_owned());
                proof {
                    let after = before.push(((name@, ty@), file@));
                    assert(gather(nodes@.take(i + 1), named()) == after);
                    assert(keys.deep_view() =~= firsts(after));
                    assert(files.deep_view() =~= seconds(after));
                }
            },
            _ => {},
        }
        i += 1;
    }
    assert(nodes@.take(i as int) =~= nodes@);
    (keys, files)
}

fn crossings(nodes: &Vec<CouplingNode>, edges: &Vec<CouplingEdge>, by_id: &Rows<String>, by_name: &Rows<
    (String, String),
>) -> (r: (Vec<String>, Vec<String>))
    requires
        by_id.index.wf(),
        by_id.index.keys() == firsts(gather(nodes@, located())),
        by_id.files.deep_view() == seconds(gather(nodes@, located())),
        by_name.index.wf(),
        by_name.index.keys() == firsts(gather(nodes@, named())),
        by_name.files.deep_view() == seconds(gather(nodes@, named())),
    ensures
        r.0.deep_view() == firsts(gather(edges@, crossing(nodes@))),
        r.1.deep_view() == seconds(gather(edges@, crossing(nodes@))),
        r.0.len() <= edges.len(),
{
    let ghost f = crossing(nodes@);
    let ghost lr = gather(nodes@, located());
    let ghost nr = gather(nodes@, named());
    let mut from: Vec<String> = Vec::new();
    let mut to: Vec<String> = Vec::new();
    assert(edges@.take(0) =~= Seq::empty());
    assert(from.deep_view() =~= firsts(gather(edges@.take(0), f)));
    assert(to.deep_view() =~= seconds(gather(edges@.take(0), f)));
    let mut i: usize = 0;
    while i < edges.len()
        invariant
            i <= edges.len(),
            f == crossing(nodes@),
            lr == gather(nodes@, located()),
            nr == gather(nodes@, named()),
            by_id.index.wf(),
            by_id.index.keys() == firsts(lr),
            by_id.files.deep_view() == seconds(lr),
            by_name.index.wf(),
            by_name.index.keys() == firsts(nr),
            by_name.files.deep_view() == seconds(nr),
            from.deep_view() == firsts(gather(edges@.take(i as int), f)),
            to.deep_view() == seconds(gather(edges@.take(i as int), f)),
            from.len() <= i,
        decreases edges.len() - i,
    {
        proof {
            lemma_take_next(edges@, i as int);
        }
        let ghost before = gather(edges@.take(i as int), f);
        match (&edges[i].from_id, &edges[i].to_name, &edges[i].to_type) {
            (Some(id), Some(name), Some(ty)) => {
                let key: (String, String) = (name.as_str().to_owned(), ty.as_str().to_owned());
                assert(key.deep_view() == (name@, ty@));
                let q = by_id.index.places(id);
                let s = by_name.index.places(&key);
                proof {
                    lemma_places_of(firsts(lr), id@);
                    lemma_places_of(firsts(nr), (name@, ty@));
                }
                if q.len() > 0 && s.len() > 0 {
                    assert(q@[q.len() - 1] < lr.len());
                    assert(s@[0] < nr.len());
                    assert(by_id.files.deep_view().len() == by_id.files.len());
                    assert(by_name.files.deep_view().len() == by_name.files.len());
                    let a = &by_id.files[q[q.len() - 1]];
                    let b = &by_name.files[s[0]];
                    assert(a@ == by_id.files.deep_view()[q@[q.len() - 1] as int]);
                    assert(b@ == by_name.files.deep_view()[s@[0] as int]);
                    assert(file_of_node(nodes@, id@) == Some(a@));
                    assert(file_of_name(nodes@, (name@, ty@)) == Some(b@));
                    if !same_text(a.as_str(), b.as_str()) {
                        put(&mut from, a.as_str().to_owned());
                        put(&mut to, b.as_str().to_owned());
                        proof {
                            let after = before.push((a@, b@));
                            assert(gather(edges@.take(i + 1), f) == after);
                            assert(from.deep_view() =~= firsts(after));
                            assert(to.deep_view() =~= seconds(after));
                        }
                    }
                }
            },
            _ => {},
        }
        i += 1;
    }
    assert(edges@.take(i as int) =~= edges@);
    (from, to)
}

/// The values at some places.
pub open spec fn values_at<A>(values: Seq<A>, at: Seq<usize>) -> Seq<A> {
    Seq::new(at.len(), |i: int| values[at[i] as int])
}

/// How many different values stand at some places.
fn count_distinct(values: &Vec<String>, at: &Vec<usize>) -> (r: usize)
    requires
        forall|i: int| 0 <= i < at.len() ==> #[trigger] at@[i] < values.len(),
    ensures
        r <= at.len(),
        r == values_at(values.deep_view(), at@).to_set().len(),
{
    let ghost all = values.deep_view();
    let ghost want = values_at(all, at@);
    let mut picked: Vec<String> = Vec::new();
    let mut i: usize = 0;
    assert(picked.deep_view() =~= want.take(0));
    while i < at.len()
        invariant
            i <= at.len(),
            all == values.deep_view(),
            want == values_at(all, at@),
            forall|i: int| 0 <= i < at.len() ==> #[trigger] at@[i] < values.len(),
            picked.len() == i,
            picked.deep_view() == want.take(i as int),
        decreases at.len() - i,
    {
        proof {
            lemma_take_next(want, i as int);
            assert(at@[i as int] < values.len());
            assert(all[at@[i as int] as int] == values@[at@[i as int] as int].deep_view());
        }
        put(&mut picked, values[at[i]].as_str().to_owned());
        i += 1;
    }
    assert(want.take(i as int) =~= want);
    let different = sort_distinct(picked);
    proof {
        let d = different.deep_view();
        lemma_distinct_sorted::<String>(want, d);
        d.unique_seq_to_set();
        assert forall|x: Seq<char>| d.to_set().contains(x) <==> want.to_set().contains(x) by {
            assert(d.contains(x) <==> want.contains(x));
        }
        assert(d.to_set() =~= want.to_set());
    }
    different.len()
}

/// The first halves of the pairs with a second half, and the other way round.
proof fn lemma_halves(cs: Seq<(Seq<char>, Seq<char>)>, file: Seq<char>)
    requires
        cs.len() <= usize::MAX,
    ensures
        values_at(firsts(cs), places_of(seconds(cs), file)).to_set() == sources(cs, file),
        values_at(seconds(cs), places_of(firsts(cs), file)).to_set() == targets(cs, file),
{
    let into = places_of(seconds(cs), file);
    let out = places_of(firsts(cs), file);
    lemma_places_of(seconds(cs), file);
    lemma_places_of(firsts(cs), file);
    let a = values_at(firsts(cs), into);
    let b = values_at(seconds(cs), out);
    assert forall|x: Seq<char>| a.to_set().contains(x) <==> sources(cs, file).contains(x) by {
        if a.contains(x) {
            let i = choose|i: int| 0 <= i < a.len() && a[i] == x;
            assert(cs[into[i] as int] == (x, file));
        }
        if cs.contains((x, file)) {
            let k = choose|k: int| 0 <= k < cs.len() && cs[k] == (x, file);
            assert(seconds(cs)[k] == file);
            let i = choose|i: int| 0 <= i < into.len() && into[i] == k as usize;
            assert(a[i] == x);
        }
    }
    assert(a.to_set() =~= sources(cs, file));
    assert forall|x: Seq<char>| b.to_set().contains(x) <==> targets(cs, file).contains(x) by {
        if b.contains(x) {
            let i = choose|i: int| 0 <= i < b.len() && b[i] == x;
            assert(cs[out[i] as int] == (file, x));
        }
        if cs.contains((file, x)) {
            let k = choose|k: int| 0 <= k < cs.len() && cs[k] == (file, x);
            assert(firsts(cs)[k] == file);
            let i = choose|i: int| 0 <= i < out.len() && out[i] == k as usize;
            assert(b[i] == x);
        }
    }
    assert(b.to_set() =~= targets(cs, file));
}

/// The coupling of every file, the most strongly coupled first.
pub fn calculate_file_coupling(nodes: &Vec<CouplingNode>, edges: &Vec<CouplingEdge>, limit: usize) -> (r: Vec<FileCoupling>)
    requires
        nodes.len() <= i64::MAX,
        2 * edges.len() <= i64::MAX,
    ensures
        is_report(r.deep_view(), nodes@, edges@, limit),
{
    let (ids, files) = locate(nodes);
    let (names, name_file) = name_files(nodes);
    let by_id = Rows { index: SortedIndex::build(ids), files: crate::text::copy_texts(&files) };
    let by_name = Rows { index: SortedIndex::build(names), files: name_file };
    let (from, to) = crossings(nodes, edges, &by_id, &by_name);
    let ghost cs = gather(edges@, crossing(nodes@));
    let ghost lr = gather(nodes@, located());
    let count_of = SortedIndex::build(crate::text::copy_texts(&files));
    let all = sort_distinct(files);
    let ghost av = all.deep_view();
    assert(lists_files(nodes@, av));
    assert(from.deep_view().len() == from.len() && from.deep_view().len() == cs.len());
    let into = SortedIndex::build(crate::text::copy_texts(&to));
    let out_of = SortedIndex::build(crate::text::copy_texts(&from));
    let ghost want = couplings(nodes@, edges@, av);
    let mut rows: Vec<FileCoupling> = Vec::new();
    let mut keys: Vec<u64> = Vec::new();
    let mut i: usize = 0;
    while i < all.len()
        invariant
            i <= all.len(),
            nodes.len() <= i64::MAX,
            2 * edges.len() <= i64::MAX,
            av == all.deep_view(),
            cs == gather(edges@, crossing(nodes@)),
            lr == gather(nodes@, located()),
            cs.len() <= edges.len(),
            lr.len() <= nodes.len(),
            count_of.wf(),
            count_of.keys() == seconds(lr),
            into.wf(),
            into.keys() == seconds(cs),
            out_of.wf(),
            out_of.keys() == firsts(cs),
            from.deep_view() == firsts(cs),
            to.deep_view() == seconds(cs),
            want == couplings(nodes@, edges@, av),
            rows.deep_view() == want.take(i as int),
            keys@ == coupling_keys(want).take(i as int),
        decreases all.len() - i,
    {
        let file = &all[i];
        assert(av[i as int] == file@);
        let a = into.places(file);
        let b = out_of.places(file);
        let c = count_of.places(file);
        proof {
            lemma_take_next(want, i as int);
            lemma_take_next(coupling_keys(want), i as int);
            lemma_places_count(seconds(cs), file@);
            lemma_places_count(firsts(cs), file@);
            lemma_places_count(seconds(lr), file@);
            lemma_places_of(seconds(cs), file@);
            lemma_places_of(firsts(cs), file@);
            lemma_halves(cs, file@);
            assert(from.deep_view().len() == from@.len() && to.deep_view().len() == to@.len());
        }
        let afferent: i64 = count_distinct(&from, &a) as i64;
        let efferent: i64 = count_distinct(&to, &b) as i64;
        keys.push(falling_key(afferent + efferent));
        put(
            &mut rows,
            FileCoupling { file_path: file.as_str().to_owned(), afferent, efferent, node_count: c.len() as i64 },
        );
        i += 1;
    }
    assert(want.take(i as int) =~= want);
    assert(coupling_keys(want).take(i as int) =~= coupling_keys(want));
    assert(keys.deep_view() =~= keys@);
    let ghost rv = rows@;
    let mut out = sort_items(&keys, rows);
    proof {
        crate::order::lemma_stable_order_exists::<u64>(keys.deep_view());
    }
    assert(out.deep_view() =~= stable_sort::<u64, CouplingView>(coupling_keys(want), want)) by {
        let p = crate::order::stable_indices::<u64>(coupling_keys(want));
        assert forall|x: int| 0 <= x < p.len() implies (#[trigger] out@[x]).deep_view() == want[p[x] as int] by {
            assert(out@[x] == rv[p[x] as int]);
            assert(want[p[x] as int] == rv[p[x] as int].deep_view());
        }
    }
    if out.len() > limit {
        let ghost whole = out@;
        out.truncate(limit);
        assert(out@ =~= whole.take(limit as int));
        assert(out.deep_view() =~= first_of(stable_sort::<u64, CouplingView>(coupling_keys(want), want), limit));
    }
    assert(lists_files(nodes@, av));
    out
}

/// A value stands at no more places than there are.
proof fn lemma_places_count<A>(s: Seq<A>, x: A)
    ensures
        places_of(s, x).len() <= s.len(),
    decreases s.len(),
{
    if s.len() > 0 {
        lemma_places_count(s.drop_last(), x);
    }
}

} // verus!
