//! What the figures of a project count: hubs, couplings, cycles and clones, told
//! by the rows that they are made of.

use vstd::prelude::*;

use crate::gather::{gather, lemma_gather_len, lemma_gather_member};
use crate::graph::circular::{
    between, cross_edges, cross_fn, depends, ends, is_cycle, is_reported, kinds, lists_cycles,
    reports, CircularDepView, FileEdge,
};
use crate::graph::clones::{
    is_good_group, is_listed, lists_groups, member_of, members_of, sharing, shown, with_hash,
    DisplayView, FingerprintView, GroupView, MemberView,
};
use crate::graph::coupling::{
    coupling_keys, coupling_of, couplings, crossing, file_of_name, file_of_node, firsts, is_report, lists_files, located,
    named, seconds, sources, targets, CouplingEdge, CouplingNode, CouplingView,
};
use crate::graph::hub_nodes::{
    falling, falling_keys, first_of, hub_of, hubs_of, in_keys, out_keys, sums_fit, top_hubs,
    HubCandidate, HubView, InDegree, OutDegree,
};
use crate::graph::paths::lemma_place_within;
use crate::graph::reach::{is_named, lemma_named};
use crate::graph::web::QueryEdgeView;
use crate::index::resolve::NodeView;
use crate::lookup::{is_increasing, lemma_places_of, places_of};
use crate::order::{
    index_before, is_permutation, lemma_distinct_sorted, lemma_permutation_covers,
    lemma_stable_order_exists, lemma_stable_order_is_permutation, permuted, stable_indices,
    stable_sort, Sortable,
};

verus! {

/// What is sorted holds every item once, in the order of the keys, items with
/// equal keys as they came.
proof fn lemma_sorted_by<K: Sortable, A>(keys: Seq<<K as DeepView>::V>, items: Seq<A>) -> (p: Seq<usize>)
    requires
        keys.len() == items.len(),
        keys.len() <= usize::MAX,
    ensures
        is_permutation(p, items.len()),
        stable_sort::<K, A>(keys, items) == permuted(items, p),
        forall|i: int, j: int| 0 <= i < j < p.len() ==> index_before::<K>(keys, #[trigger] p[i] as int, #[trigger] p[j] as int),
{
    lemma_stable_order_exists::<K>(keys);
    let p = stable_indices::<K>(keys);
    lemma_stable_order_is_permutation::<K>(keys, p);
    p
}

// ---- hubs -----------------------------------------------------------------------------------

/// The last of the rows that count references to a name and type is `r`.
pub open spec fn counts_in(rows: Seq<InDegree>, name: Seq<char>, node_type: Seq<char>, r: int) -> bool {
    &&& 0 <= r < rows.len()
    &&& rows[r].to_name@ == name && rows[r].to_type@ == node_type
    &&& forall|j: int| r < j < rows.len() ==> (#[trigger] rows[j]).to_name@ != name || rows[j].to_type@ != node_type
}

/// The last of the rows that count references from a node is `r`.
pub open spec fn counts_out(rows: Seq<OutDegree>, id: Seq<char>, r: int) -> bool {
    &&& 0 <= r < rows.len()
    &&& rows[r].from_id@ == id
    &&& forall|j: int| r < j < rows.len() ==> (#[trigger] rows[j]).from_id@ != id
}

/// A hub's degrees are those that are counted for it, and zero where none is.
pub proof fn a_hub_has_the_degrees_that_are_counted(n: HubCandidate, ins: Seq<InDegree>, outs: Seq<OutDegree>)
    requires
        ins.len() <= usize::MAX,
        outs.len() <= usize::MAX,
        sums_fit(ins, outs),
    ensures
        ({
            let h = hub_of(n, ins, outs);
            &&& h.node_id == n.node_id@ && h.name == n.name@ && h.node_type == n.node_type@ && h.file_path == n.file_path@
            &&& h.total_degree == h.in_degree + h.out_degree
            &&& forall|r: int| n.name@.len() > 0 && #[trigger] counts_in(ins, n.name@, n.node_type@, r) ==> h.in_degree
                == ins[r].count
            &&& forall|r: int| n.node_id@.len() > 0 && #[trigger] counts_out(outs, n.node_id@, r) ==> h.out_degree
                == outs[r].count
            &&& (forall|r: int| !#[trigger] counts_in(ins, n.name@, n.node_type@, r)) ==> h.in_degree == 0
            &&& (forall|r: int| !#[trigger] counts_out(outs, n.node_id@, r)) ==> h.out_degree == 0
        }),
{
    let h = hub_of(n, ins, outs);
    let key = (n.name@, n.node_type@);
    let q = places_of(in_keys(ins), key);
    let s = places_of(out_keys(outs), n.node_id@);
    lemma_places_of(in_keys(ins), key);
    lemma_places_of(out_keys(outs), n.node_id@);
    if q.len() > 0 {
        let r = q.last() as int;
        assert(in_keys(ins)[r] == key);
        assert(counts_in(ins, n.name@, n.node_type@, r)) by {
            assert forall|j: int| r < j < ins.len() implies (#[trigger] ins[j]).to_name@ != n.name@ || ins[j].to_type@
                != n.node_type@ by {
                if ins[j].to_name@ == n.name@ && ins[j].to_type@ == n.node_type@ {
                    assert(in_keys(ins)[j] == key);
                    assert(q.contains(j as usize));
                    let k = choose|k: int| 0 <= k < q.len() && q[k] == j as usize;
                    if k < q.len() - 1 {
                        assert(q[k] < q[q.len() - 1]);
                    }
                }
            }
        }
    }
    if s.len() > 0 {
        let r = s.last() as int;
        assert(out_keys(outs)[r] == n.node_id@);
        assert(counts_out(outs, n.node_id@, r)) by {
            assert forall|j: int| r < j < outs.len() implies (#[trigger] outs[j]).from_id@ != n.node_id@ by {
                if outs[j].from_id@ == n.node_id@ {
                    assert(out_keys(outs)[j] == n.node_id@);
                    assert(s.contains(j as usize));
                    let k = choose|k: int| 0 <= k < s.len() && s[k] == j as usize;
                    if k < s.len() - 1 {
                        assert(s[k] < s[s.len() - 1]);
                    }
                }
            }
        }
    }
    assert forall|r: int| n.name@.len() > 0 && #[trigger] counts_in(ins, n.name@, n.node_type@, r) implies h.in_degree
        == ins[r].count by {
        assert(in_keys(ins)[r] == key);
        assert(q.contains(r as usize));
        let l = q.last() as int;
        assert(in_keys(ins)[l] == key);
        if l > r {
            assert(ins[l].to_name@ == n.name@);
        }
        let k = choose|k: int| 0 <= k < q.len() && q[k] == r as usize;
        if k < q.len() - 1 {
            assert(q[k] < q[q.len() - 1]);
        }
    }
    assert forall|r: int| n.node_id@.len() > 0 && #[trigger] counts_out(outs, n.node_id@, r) implies h.out_degree
        == outs[r].count by {
        assert(out_keys(outs)[r] == n.node_id@);
        assert(s.contains(r as usize));
        let l = s.last() as int;
        assert(out_keys(outs)[l] == n.node_id@);
        if l > r {
            assert(outs[l].from_id@ == n.node_id@);
        }
        let k = choose|k: int| 0 <= k < s.len() && s[k] == r as usize;
        if k < s.len() - 1 {
            assert(s[k] < s[s.len() - 1]);
        }
    }
    if q.len() > 0 && n.name@.len() > 0 && s.len() > 0 && n.node_id@.len() > 0 {
        let x = q.last() as int;
        let y = s.last() as int;
        assert(q[q.len() - 1] < in_keys(ins).len());
        assert(s[s.len() - 1] < out_keys(outs).len());
        assert(i64::MIN <= ins[x].count + outs[y].count <= i64::MAX);
    }
}

/// The hubs that are listed are the nodes with the highest degrees, as many as
/// are wanted and there are: each once, the higher before the lower, those of
/// equal degree as they came, and none that is left out is higher than one that
/// is listed.
pub proof fn the_highest_are_listed(nodes: Seq<HubCandidate>, ins: Seq<InDegree>, outs: Seq<OutDegree>, limit: usize) -> (which: Seq<
    usize,
>)
    requires
        nodes.len() <= usize::MAX,
    ensures
        ({
            let all = hubs_of(nodes, ins, outs);
            let r = top_hubs(all, limit);
            &&& is_permutation(which, nodes.len())
            &&& r.len() == (if nodes.len() <= limit {
                nodes.len()
            } else {
                limit as nat
            })
            &&& forall|i: int| 0 <= i < r.len() ==> (#[trigger] r[i]) == hub_of(nodes[which[i] as int], ins, outs)
            &&& forall|i: int, j: int| 0 <= i < j < which.len() ==> {
                let a = hub_of(nodes[#[trigger] which[i] as int], ins, outs).total_degree;
                let b = hub_of(nodes[#[trigger] which[j] as int], ins, outs).total_degree;
                a > b || (a == b && which[i] < which[j])
            }
        }),
{
    let all = hubs_of(nodes, ins, outs);
    let keys = falling_keys(all);
    let p = lemma_sorted_by::<u64, HubView>(keys, all);
    assert forall|i: int, j: int| 0 <= i < j < p.len() implies {
        let a = hub_of(nodes[#[trigger] p[i] as int], ins, outs).total_degree;
        let b = hub_of(nodes[#[trigger] p[j] as int], ins, outs).total_degree;
        a > b || (a == b && p[i] < p[j])
    } by {
        assert(p[i] < nodes.len() && p[j] < nodes.len());
        assert(index_before::<u64>(keys, p[i] as int, p[j] as int));
        assert(keys[p[i] as int] == falling(all[p[i] as int].total_degree));
        assert(keys[p[j] as int] == falling(all[p[j] as int].total_degree));
    }
    assert forall|i: int| 0 <= i < top_hubs(all, limit).len() implies (#[trigger] top_hubs(all, limit)[i]) == hub_of(
        nodes[p[i] as int],
        ins,
        outs,
    ) by {
        assert(p[i] < nodes.len());
    }
    p
}

// ---- coupling -------------------------------------------------------------------------------

/// The file of a node: that of the last node with the id whose file is known.
pub open spec fn lies_in(nodes: Seq<CouplingNode>, id: Seq<char>, file: Seq<char>) -> bool {
    exists|i: int| #![trigger nodes[i]]
        0 <= i < nodes.len() && places(nodes[i], id, file) && forall|j: int, f: Seq<char>|
            i < j < nodes.len() ==> !#[trigger] places(nodes[j], id, f)
}

/// The node has the id and lies in the file.
pub open spec fn places(n: CouplingNode, id: Seq<char>, file: Seq<char>) -> bool {
    n.node_id is Some && n.file_path is Some && n.node_id->0@ == id && n.file_path->0@ == file
}

/// The node has the name and type and lies in the file.
pub open spec fn declares(n: CouplingNode, name: Seq<char>, node_type: Seq<char>, file: Seq<char>) -> bool {
    &&& n.name is Some && n.node_type is Some && n.file_path is Some
    &&& n.name->0@ == name && n.node_type->0@ == node_type && n.file_path->0@ == file
}

/// The file of a name and type: that of the first node that has them.
pub open spec fn is_declared_in(nodes: Seq<CouplingNode>, name: Seq<char>, node_type: Seq<char>, file: Seq<char>) -> bool {
    exists|i: int| #![trigger nodes[i]]
        0 <= i < nodes.len() && declares(nodes[i], name, node_type, file) && forall|j: int, f: Seq<char>|
            0 <= j < i ==> !#[trigger] declares(nodes[j], name, node_type, f)
}

/// A reference leads from the one file into the other.
pub open spec fn crosses(nodes: Seq<CouplingNode>, e: CouplingEdge, a: Seq<char>, b: Seq<char>) -> bool {
    &&& a != b
    &&& e.from_id is Some && e.to_name is Some && e.to_type is Some
    &&& lies_in(nodes, e.from_id->0@, a)
    &&& is_declared_in(nodes, e.to_name->0@, e.to_type->0@, b)
}

/// Some reference leads from the one file into the other.
pub open spec fn is_coupled(nodes: Seq<CouplingNode>, edges: Seq<CouplingEdge>, a: Seq<char>, b: Seq<char>) -> bool {
    exists|i: int| 0 <= i < edges.len() && crosses(nodes, #[trigger] edges[i], a, b)
}

/// The last of the rows with an id, found from the end.
proof fn lemma_last_located(nodes: Seq<CouplingNode>, id: Seq<char>, file: Seq<char>)
    requires
        nodes.len() <= usize::MAX,
    ensures
        file_of_node(nodes, id) == Some(file) <==> lies_in(nodes, id, file),
    decreases nodes.len(),
{
    let rows = gather(nodes, located());
    let q = places_of(firsts(rows), id);
    if nodes.len() > 0 {
        let rest = nodes.drop_last();
        let n = nodes.last();
        let before = gather(rest, located());
        lemma_last_located(rest, id, file);
        lemma_gather_len(nodes, located());
        lemma_gather_len(rest, located());
        lemma_places_of(firsts(before), id);
        if located()(n) is Some {
            assert(rows == before.push(located()(n)->0));
            assert(firsts(rows).drop_last() =~= firsts(before));
            assert(firsts(rows).last() == n.node_id->0@);
        }
        let qb = places_of(firsts(before), id);
        if qb.len() > 0 {
            assert(qb[qb.len() - 1] < firsts(before).len());
        }
        if n.node_id is Some && n.file_path is Some && n.node_id->0@ == id {
            let own = n.file_path->0@;
            assert(places(nodes[nodes.len() - 1], id, own));
            assert(file_of_node(nodes, id) == Some(own));
            if lies_in(nodes, id, file) {
                let i = choose|i: int| #![trigger nodes[i]]
                    0 <= i < nodes.len() && places(nodes[i], id, file) && forall|j: int, f: Seq<char>|
                        i < j < nodes.len() ==> !#[trigger] places(nodes[j], id, f);
                if i < nodes.len() - 1 {
                    assert(!places(nodes[nodes.len() - 1], id, own));
                }
            }
            if own == file {
                assert(lies_in(nodes, id, file));
            }
        } else {
            assert(file_of_node(nodes, id) == file_of_node(rest, id));
            if lies_in(rest, id, file) {
                let i = choose|i: int| #![trigger rest[i]]
                    0 <= i < rest.len() && places(rest[i], id, file) && forall|j: int, f: Seq<char>|
                        i < j < rest.len() ==> !#[trigger] places(rest[j], id, f);
                assert(nodes[i] == rest[i]);
                assert forall|j: int, f: Seq<char>| i < j < nodes.len() implies !#[trigger] places(nodes[j], id, f) by {
                    if j < rest.len() {
                        assert(!places(rest[j], id, f));
                    }
                }
            }
            if lies_in(nodes, id, file) {
                let i = choose|i: int| #![trigger nodes[i]]
                    0 <= i < nodes.len() && places(nodes[i], id, file) && forall|j: int, f: Seq<char>|
                        i < j < nodes.len() ==> !#[trigger] places(nodes[j], id, f);
                assert(i < rest.len());
                assert(rest[i] == nodes[i]);
                assert forall|j: int, f: Seq<char>| i < j < rest.len() implies !#[trigger] places(rest[j], id, f) by {
                    assert(!places(nodes[j], id, f));
                }
            }
        }
    } else {
        assert(firsts(rows) =~= Seq::empty());
    }
}

/// The first of the rows with a name and type.
proof fn lemma_first_named(nodes: Seq<CouplingNode>, name: Seq<char>, node_type: Seq<char>, file: Seq<char>)
    requires
        nodes.len() <= usize::MAX,
    ensures
        file_of_name(nodes, (name, node_type)) == Some(file) <==> is_declared_in(nodes, name, node_type, file),
        file_of_name(nodes, (name, node_type)) is None <==> forall|j: int, f: Seq<char>|
            0 <= j < nodes.len() ==> !#[trigger] declares(nodes[j], name, node_type, f),
    decreases nodes.len(),
{
    let key = (name, node_type);
    let rows = gather(nodes, named());
    let q = places_of(firsts(rows), key);
    if nodes.len() > 0 {
        let rest = nodes.drop_last();
        let n = nodes.last();
        let before = gather(rest, named());
        let qb = places_of(firsts(before), key);
        lemma_first_named(rest, name, node_type, file);
        lemma_gather_len(nodes, named());
        lemma_gather_len(rest, named());
        lemma_places_of(firsts(before), key);
        let last = nodes.len() - 1;
        if named()(n) is Some {
            assert(rows == before.push(named()(n)->0));
            assert(firsts(rows).drop_last() =~= firsts(before));
            assert(firsts(rows).last() == (named()(n)->0).0);
        }
        if qb.len() > 0 {
            assert(qb[0] < firsts(before).len());
            assert(q[0] == qb[0]);
            assert(file_of_name(nodes, key) == file_of_name(rest, key));
            assert(file_of_name(rest, key) is Some);
            let (j0, f0) = choose|j: int, f: Seq<char>| 0 <= j < rest.len() && #[trigger] declares(rest[j], name, node_type, f);
            assert(declares(nodes[j0], name, node_type, f0));
            if is_declared_in(rest, name, node_type, file) {
                let i = choose|i: int| #![trigger rest[i]]
                    0 <= i < rest.len() && declares(rest[i], name, node_type, file) && forall|j: int, f: Seq<char>|
                        0 <= j < i ==> !#[trigger] declares(rest[j], name, node_type, f);
                assert(nodes[i] == rest[i]);
                assert forall|j: int, f: Seq<char>| 0 <= j < i implies !#[trigger] declares(nodes[j], name, node_type, f) by {
                    assert(!declares(rest[j], name, node_type, f));
                }
            }
            if is_declared_in(nodes, name, node_type, file) {
                let i = choose|i: int| #![trigger nodes[i]]
                    0 <= i < nodes.len() && declares(nodes[i], name, node_type, file) && forall|j: int, f: Seq<char>|
                        0 <= j < i ==> !#[trigger] declares(nodes[j], name, node_type, f);
                assert(i <= j0);
                assert(rest[i] == nodes[i]);
                assert forall|j: int, f: Seq<char>| 0 <= j < i implies !#[trigger] declares(rest[j], name, node_type, f) by {
                    assert(!declares(nodes[j], name, node_type, f));
                }
            }
        } else {
            assert forall|j: int, f: Seq<char>| 0 <= j < last implies !#[trigger] declares(nodes[j], name, node_type, f) by {
                assert(!declares(rest[j], name, node_type, f));
            }
            if named()(n) is Some && (named()(n)->0).0 == key {
                assert(q.len() == 1 && q[0] == rows.len() - 1);
                assert(declares(nodes[last], name, node_type, n.file_path->0@));
            } else {
                assert(file_of_name(nodes, key) is None);
                assert forall|j: int, f: Seq<char>| 0 <= j < nodes.len() implies !#[trigger] declares(
                    nodes[j],
                    name,
                    node_type,
                    f,
                ) by {
                    if j == last {
                        assert(nodes[j] == n);
                    }
                }
            }
        }
    } else {
        assert(firsts(rows) =~= Seq::empty());
    }
}

/// The crossings are those of the references.
proof fn lemma_crossings(nodes: Seq<CouplingNode>, edges: Seq<CouplingEdge>, a: Seq<char>, b: Seq<char>)
    requires
        nodes.len() <= usize::MAX,
    ensures
        gather(edges, crossing(nodes)).contains((a, b)) <==> is_coupled(nodes, edges, a, b),
{
    let f = crossing(nodes);
    lemma_gather_member(edges, f, (a, b));
    if gather(edges, f).contains((a, b)) {
        let i = choose|i: int| 0 <= i < edges.len() && f(#[trigger] edges[i]) == Some((a, b));
        let e = edges[i];
        lemma_last_located(nodes, e.from_id->0@, a);
        lemma_first_named(nodes, e.to_name->0@, e.to_type->0@, b);
        assert(crosses(nodes, edges[i], a, b));
    }
    if is_coupled(nodes, edges, a, b) {
        let i = choose|i: int| 0 <= i < edges.len() && crosses(nodes, #[trigger] edges[i], a, b);
        let e = edges[i];
        lemma_last_located(nodes, e.from_id->0@, a);
        lemma_first_named(nodes, e.to_name->0@, e.to_type->0@, b);
        assert(f(edges[i]) == Some((a, b)));
    }
}

/// A file's coupling counts files: those that lead into it, those that it leads
/// into, and the nodes that lie in it.
pub proof fn coupling_counts_files(nodes: Seq<CouplingNode>, edges: Seq<CouplingEdge>, file: Seq<char>)
    requires
        nodes.len() <= usize::MAX,
    ensures
        ({
            let c = coupling_of(nodes, edges, file);
            &&& c.file_path == file
            &&& c.afferent == Set::<Seq<char>>::new(|other: Seq<char>| is_coupled(nodes, edges, other, file)).len() as i64
            &&& c.efferent == Set::<Seq<char>>::new(|other: Seq<char>| is_coupled(nodes, edges, file, other)).len() as i64
        }),
{
    let crossings = gather(edges, crossing(nodes));
    let ins = Set::<Seq<char>>::new(|other: Seq<char>| is_coupled(nodes, edges, other, file));
    let outs = Set::<Seq<char>>::new(|other: Seq<char>| is_coupled(nodes, edges, file, other));
    assert forall|o: Seq<char>| sources(crossings, file).contains(o) <==> ins.contains(o) by {
        lemma_crossings(nodes, edges, o, file);
    }
    assert forall|o: Seq<char>| targets(crossings, file).contains(o) <==> outs.contains(o) by {
        lemma_crossings(nodes, edges, file, o);
    }
    assert(sources(crossings, file) =~= ins);
    assert(targets(crossings, file) =~= outs);
}

/// A report lists the files that nodes lie in, as many as are wanted and there
/// are, each once with its coupling, the more coupled first and then in the
/// order of their names.
pub proof fn the_most_coupled_are_reported(
    r: Seq<CouplingView>,
    nodes: Seq<CouplingNode>,
    edges: Seq<CouplingEdge>,
    limit: usize,
) -> (files: Seq<Seq<char>>)
    requires
        nodes.len() <= usize::MAX,
        is_report(r, nodes, edges, limit),
    ensures
        files.no_duplicates(),
        forall|f: Seq<char>| #[trigger] files.contains(f) <==> exists|i: int, id: Seq<char>| #![trigger places(nodes[i], id, f)]
            0 <= i < nodes.len() && places(nodes[i], id, f),
        r.len() == (if files.len() <= limit {
            files.len()
        } else {
            limit as nat
        }),
        forall|i: int| 0 <= i < r.len() ==> (#[trigger] r[i]) == coupling_of(nodes, edges, files[i]),
        forall|i: int, j: int| 0 <= i < j < files.len() ==> {
            let a = coupling_of(nodes, edges, #[trigger] files[i]);
            let b = coupling_of(nodes, edges, #[trigger] files[j]);
            let x = (a.afferent + a.efferent) as i64;
            let y = (b.afferent + b.efferent) as i64;
            x > y || (x == y && <String as Sortable>::before(files[i], files[j]))
        },
{
    let list = choose|files: Seq<Seq<char>>| #[trigger]
        lists_files(nodes, files) && r == first_of(
            stable_sort::<u64, CouplingView>(coupling_keys(couplings(nodes, edges, files)), couplings(nodes, edges, files)),
            limit,
        );
    let rows = gather(nodes, located());
    let where_ = seconds(rows);
    let items = couplings(nodes, edges, list);
    let keys = coupling_keys(items);
    lemma_distinct_sorted::<String>(where_, list);
    lemma_gather_len(nodes, located());
    lemma_list_len(where_, list);
    let p = lemma_sorted_by::<u64, CouplingView>(keys, items);
    let files = permuted(list, p);
    assert(files.no_duplicates()) by {
        assert forall|i: int, j: int| 0 <= i < files.len() && 0 <= j < files.len() && i != j implies files[i] != files[j] by {
            let x = p[i] as int;
            let y = p[j] as int;
            assert(p[i] < list.len() && p[j] < list.len());
            if i < j {
                assert(p[i] != p[j]);
            } else {
                assert(p[j] != p[i]);
            }
            if x < y {
                assert(list[x] != list[y]);
            } else {
                assert(list[y] != list[x]);
            }
        }
    }
    assert forall|f: Seq<char>| #[trigger] files.contains(f) <==> exists|i: int, id: Seq<char>| #![trigger places(nodes[i], id, f)]
        0 <= i < nodes.len() && places(nodes[i], id, f) by {
        if files.contains(f) {
            let k = choose|k: int| 0 <= k < files.len() && files[k] == f;
            assert(p[k] < list.len());
            assert(list.contains(list[p[k] as int]));
            assert(where_.contains(f));
            let m = choose|m: int| 0 <= m < where_.len() && where_[m] == f;
            assert(rows.contains(rows[m]));
            lemma_gather_member(nodes, located(), rows[m]);
            let i = choose|i: int| 0 <= i < nodes.len() && located()(#[trigger] nodes[i]) == Some(rows[m]);
            assert(places(nodes[i], rows[m].0, f));
        }
        if exists|i: int, id: Seq<char>| #![trigger places(nodes[i], id, f)] 0 <= i < nodes.len() && places(nodes[i], id, f) {
            let (i, id) = choose|i: int, id: Seq<char>| #![trigger places(nodes[i], id, f)]
                0 <= i < nodes.len() && places(nodes[i], id, f);
            lemma_gather_member(nodes, located(), (id, f));
            assert(located()(nodes[i]) == Some((id, f)));
            let m = choose|m: int| 0 <= m < rows.len() && rows[m] == (id, f);
            assert(where_[m] == f);
            assert(where_.contains(f));
            assert(list.contains(f));
            let x = choose|x: int| 0 <= x < list.len() && list[x] == f;
            lemma_permutation_covers(p, list.len(), x as usize);
            let k = choose|k: int| 0 <= k < p.len() && p[k] == x as usize;
            assert(files[k] == f);
        }
    }
    assert forall|i: int| 0 <= i < r.len() implies (#[trigger] r[i]) == coupling_of(nodes, edges, files[i]) by {
        assert(p[i] < list.len());
    }
    assert forall|i: int, j: int| 0 <= i < j < files.len() implies {
        let a = coupling_of(nodes, edges, #[trigger] files[i]);
        let b = coupling_of(nodes, edges, #[trigger] files[j]);
        let x = (a.afferent + a.efferent) as i64;
        let y = (b.afferent + b.efferent) as i64;
        x > y || (x == y && <String as Sortable>::before(files[i], files[j]))
    } by {
        assert(p[i] < list.len() && p[j] < list.len());
        assert(index_before::<u64>(keys, p[i] as int, p[j] as int));
        if p[i] < p[j] {
            assert(<String as Sortable>::before(list[p[i] as int], list[p[j] as int]));
        }
    }
    files
}

/// What is sorted and distinct is no longer than what was given.
proof fn lemma_list_len(s: Seq<Seq<char>>, r: Seq<Seq<char>>)
    requires
        forall|i: int, j: int| 0 <= i < j < r.len() ==> #[trigger] r[i] != #[trigger] r[j],
        forall|x: Seq<char>| #[trigger] r.contains(x) ==> s.contains(x),
    ensures
        r.len() <= s.len(),
{
    assert(r.no_duplicates()) by {
        assert forall|i: int, j: int| 0 <= i < r.len() && 0 <= j < r.len() && i != j implies r[i] != r[j] by {
            if i < j {
                assert(r[i] != r[j]);
            } else {
                assert(r[j] != r[i]);
            }
        }
    }
    r.unique_seq_to_set();
    assert(r.to_set().subset_of(s.to_set()));
    s.lemma_cardinality_of_set();
    vstd::set_lib::lemma_len_subset(r.to_set(), s.to_set());
}

// ---- cycles ---------------------------------------------------------------------------------

/// The references between files are the resolved ones whose ends lie in
/// different files.
pub proof fn references_between_files_are_resolved(nodes: Seq<NodeView>, edges: Seq<QueryEdgeView>, x: FileEdge)
    requires
        nodes.len() <= usize::MAX,
    ensures
        cross_edges(nodes, edges).contains(x) <==> exists|i: int, a: int, b: int| #![trigger edges[i], nodes[a], nodes[b]]
            {
                &&& 0 <= i < edges.len()
                &&& edges[i].confidence == "RESOLVED"@
                &&& edges[i].to_id.len() > 0
                &&& is_named(nodes, edges[i].from_id, a)
                &&& is_named(nodes, edges[i].to_id, b)
                &&& nodes[a].file_path != nodes[b].file_path
                &&& x == (nodes[a].file_path, nodes[b].file_path, edges[i].edge_type)
            },
{
    let f = cross_fn(nodes);
    lemma_gather_member(edges, f, x);
    if cross_edges(nodes, edges).contains(x) {
        let i = choose|i: int| 0 <= i < edges.len() && f(#[trigger] edges[i]) == Some(x);
        let e = edges[i];
        lemma_place_within(nodes, e.from_id);
        lemma_place_within(nodes, e.to_id);
        let a = crate::index::resolve::indices::place_of_id(nodes, e.from_id)->0;
        let b = crate::index::resolve::indices::place_of_id(nodes, e.to_id)->0;
        lemma_named(nodes, e.from_id, a);
        lemma_named(nodes, e.to_id, b);
        assert(nodes[a].file_path != nodes[b].file_path);
    }
    if exists|i: int, a: int, b: int| #![trigger edges[i], nodes[a], nodes[b]]
        {
            &&& 0 <= i < edges.len()
            &&& edges[i].confidence == "RESOLVED"@
            &&& edges[i].to_id.len() > 0
            &&& is_named(nodes, edges[i].from_id, a)
            &&& is_named(nodes, edges[i].to_id, b)
            &&& nodes[a].file_path != nodes[b].file_path
            &&& x == (nodes[a].file_path, nodes[b].file_path, edges[i].edge_type)
        } {
        let (i, a, b) = choose|i: int, a: int, b: int| #![trigger edges[i], nodes[a], nodes[b]]
            {
                &&& 0 <= i < edges.len()
                &&& edges[i].confidence == "RESOLVED"@
                &&& edges[i].to_id.len() > 0
                &&& is_named(nodes, edges[i].from_id, a)
                &&& is_named(nodes, edges[i].to_id, b)
                &&& nodes[a].file_path != nodes[b].file_path
                &&& x == (nodes[a].file_path, nodes[b].file_path, edges[i].edge_type)
            };
        lemma_named(nodes, edges[i].from_id, a);
        lemma_named(nodes, edges[i].to_id, b);
        assert(f(edges[i]) == Some(x));
    }
}

/// The one file refers to the other: by a reference, or by a recorded pair.
pub open spec fn uses(edges: Seq<FileEdge>, refs: Seq<(Seq<char>, Seq<char>)>, a: Seq<char>, b: Seq<char>) -> bool {
    ||| exists|i: int| 0 <= i < edges.len() && (#[trigger] edges[i]).0 == a && edges[i].1 == b
    ||| exists|i: int| 0 <= i < refs.len() && #[trigger] refs[i] == (a, b)
}

proof fn lemma_uses(edges: Seq<FileEdge>, refs: Seq<(Seq<char>, Seq<char>)>, a: Seq<char>, b: Seq<char>)
    ensures
        depends(edges, refs, a, b) <==> uses(edges, refs, a, b),
{
    if ends(edges).contains((a, b)) {
        let i = choose|i: int| 0 <= i < ends(edges).len() && ends(edges)[i] == (a, b);
        assert(edges[i].0 == a && edges[i].1 == b);
    }
    if exists|i: int| 0 <= i < edges.len() && (#[trigger] edges[i]).0 == a && edges[i].1 == b {
        let i = choose|i: int| 0 <= i < edges.len() && (#[trigger] edges[i]).0 == a && edges[i].1 == b;
        assert(ends(edges)[i] == (a, b));
    }
}

/// Two files that use each other are reported, in the order of their names and
/// once only; what is reported uses each other.
pub proof fn files_that_use_each_other_are_reported(
    report: Seq<CircularDepView>,
    edges: Seq<FileEdge>,
    refs: Seq<(Seq<char>, Seq<char>)>,
    a: Seq<char>,
    b: Seq<char>,
)
    requires
        lists_cycles(report, edges, refs),
    ensures
        <String as Sortable>::before(a, b) && uses(edges, refs, a, b) && uses(edges, refs, b, a) ==> exists|i: int| 0 <= i
            < report.len() && (#[trigger] report[i]).file_a == a && report[i].file_b == b,
        forall|i: int| #![trigger report[i]]
            0 <= i < report.len() ==> uses(edges, refs, report[i].file_a, report[i].file_b) && uses(
                edges,
                refs,
                report[i].file_b,
                report[i].file_a,
            ) && !<String as Sortable>::before(report[i].file_b, report[i].file_a),
        forall|i: int, j: int| #![trigger report[i], report[j]]
            0 <= i < j < report.len() ==> report[i].file_a != report[j].file_a || report[i].file_b != report[j].file_b,
{
    lemma_uses(edges, refs, a, b);
    lemma_uses(edges, refs, b, a);
    if <String as Sortable>::before(a, b) && uses(edges, refs, a, b) && uses(edges, refs, b, a) {
        if <String as Sortable>::before(b, a) {
            <String as Sortable>::before_transitive(a, b, a);
            <String as Sortable>::before_irreflexive(a);
        }
        assert(is_cycle(edges, refs, a, b));
        assert(is_reported(report, a, b));
    }
    assert forall|i: int| #![trigger report[i]] 0 <= i < report.len() implies uses(
        edges,
        refs,
        report[i].file_a,
        report[i].file_b,
    ) && uses(edges, refs, report[i].file_b, report[i].file_a) && !<String as Sortable>::before(
        report[i].file_b,
        report[i].file_a,
    ) by {
        assert(reports(report[i], edges, refs));
        lemma_uses(edges, refs, report[i].file_a, report[i].file_b);
        lemma_uses(edges, refs, report[i].file_b, report[i].file_a);
    }
    assert forall|i: int, j: int| #![trigger report[i], report[j]] 0 <= i < j < report.len() implies report[i].file_a
        != report[j].file_a || report[i].file_b != report[j].file_b by {
        assert(crate::graph::circular::ranks_before(report[i], report[j]));
        assert(reports(report[i], edges, refs) && reports(report[j], edges, refs));
        <(String, String) as Sortable>::before_irreflexive((report[i].file_a, report[i].file_b));
    }
}

/// The places are those of the references from the one file to the other.
pub open spec fn are_all_between(at: Seq<usize>, edges: Seq<FileEdge>, a: Seq<char>, b: Seq<char>) -> bool {
    &&& is_increasing(at)
    &&& forall|k: int| 0 <= k < at.len() ==> (#[trigger] at[k]) < edges.len() && edges[at[k] as int].0 == a && edges[at[k] as int].1
        == b
    &&& forall|i: int| 0 <= i < edges.len() && (#[trigger] edges[i]).0 == a && edges[i].1 == b ==> at.contains(i as usize)
}

/// A reported cycle counts the references each way, names their kinds, and says
/// so where no reference but a recorded pair makes it.
pub proof fn a_cycle_counts_its_references(c: CircularDepView, edges: Seq<FileEdge>, refs: Seq<(Seq<char>, Seq<char>)>)
    requires
        reports(c, edges, refs),
        edges.len() <= i64::MAX,
        edges.len() <= usize::MAX,
    ensures
        exists|at: Seq<usize>| #[trigger] are_all_between(at, edges, c.file_a, c.file_b) && at.len() == c.a_to_b_edges,
        exists|at: Seq<usize>| #[trigger] are_all_between(at, edges, c.file_b, c.file_a) && at.len() == c.b_to_a_edges,
        forall|i: int| #![trigger edges[i]]
            0 <= i < edges.len() && ((edges[i].0 == c.file_a && edges[i].1 == c.file_b) || (edges[i].0 == c.file_b && edges[i].1
                == c.file_a)) ==> c.via.contains(edges[i].2),
        c.a_to_b_edges + c.b_to_a_edges == 0 ==> c.via == seq!["file_ref"@],
        c.a_to_b_edges + c.b_to_a_edges > 0 ==> forall|k: Seq<char>| #[trigger]
            c.via.contains(k) ==> exists|i: int| #![trigger edges[i]]
                0 <= i < edges.len() && edges[i].2 == k && ((edges[i].0 == c.file_a && edges[i].1 == c.file_b) || (edges[i].0
                    == c.file_b && edges[i].1 == c.file_a)),
{
    let p = between(edges, c.file_a, c.file_b);
    let q = between(edges, c.file_b, c.file_a);
    lemma_between(edges, c.file_a, c.file_b);
    lemma_between(edges, c.file_b, c.file_a);
    let ka = kinds(edges, c.file_a, c.file_b);
    let kb = kinds(edges, c.file_b, c.file_a);
    let all = ka + kb;
    if all.len() > 0 {
        lemma_distinct_sorted::<String>(all, c.via);
        assert forall|k: Seq<char>| #[trigger] c.via.contains(k) implies exists|i: int| #![trigger edges[i]]
            0 <= i < edges.len() && edges[i].2 == k && ((edges[i].0 == c.file_a && edges[i].1 == c.file_b) || (edges[i].0
                == c.file_b && edges[i].1 == c.file_a)) by {
            assert(all.contains(k));
            let m = choose|m: int| 0 <= m < all.len() && all[m] == k;
            if m < ka.len() {
                assert(p[m] < edges.len());
                assert(edges[p[m] as int].2 == k);
            } else {
                assert(q[m - ka.len()] < edges.len());
                assert(edges[q[m - ka.len()] as int].2 == k);
            }
        }
    }
    assert forall|i: int| #![trigger edges[i]] 0 <= i < edges.len() && ((edges[i].0 == c.file_a && edges[i].1 == c.file_b) || (
    edges[i].0 == c.file_b && edges[i].1 == c.file_a)) implies c.via.contains(edges[i].2) by {
        if edges[i].0 == c.file_a && edges[i].1 == c.file_b {
            assert(p.contains(i as usize));
            let m = choose|m: int| 0 <= m < p.len() && p[m] == i as usize;
            assert(ka[m] == edges[i].2);
            assert(all[m] == edges[i].2);
        } else {
            assert(q.contains(i as usize));
            let m = choose|m: int| 0 <= m < q.len() && q[m] == i as usize;
            assert(kb[m] == edges[i].2);
            assert(all[ka.len() + m] == edges[i].2);
        }
        assert(all.contains(edges[i].2));
    }
}

proof fn lemma_between(edges: Seq<FileEdge>, a: Seq<char>, b: Seq<char>)
    requires
        edges.len() <= usize::MAX,
    ensures
        are_all_between(between(edges, a, b), edges, a, b),
{
    let p = between(edges, a, b);
    lemma_places_of(ends(edges), (a, b));
    assert forall|k: int| 0 <= k < p.len() implies (#[trigger] p[k]) < edges.len() && edges[p[k] as int].0 == a && edges[p[k] as int].1
        == b by {
        assert(ends(edges)[p[k] as int] == (a, b));
    }
    assert forall|i: int| 0 <= i < edges.len() && (#[trigger] edges[i]).0 == a && edges[i].1 == b implies p.contains(i as usize) by {
        assert(ends(edges)[i] == (a, b));
    }
}

// ---- clones ---------------------------------------------------------------------------------

/// The fingerprint counts towards a group of clones: the symbol is there, its
/// neighbourhood is large enough, and it is not containment alone.
pub open spec fn counts(f: FingerprintView, hash: Seq<char>, min_edges: int) -> bool {
    &&& f.hash == hash
    &&& f.hash.len() > 0
    &&& f.edge_count >= min_edges
    &&& f.name_edge_count != 0
}

/// The member shows the symbol of the fingerprint.
pub open spec fn shows(m: MemberView, f: FingerprintView) -> bool {
    m.qualified_name == f.qualified_name && m.file_path == f.file_path && m.node_type == f.node_type
}

/// The group has a member that shows the symbol.
pub open spec fn is_member(g: GroupView, f: FingerprintView) -> bool {
    exists|m: MemberView| #[trigger] g.members.contains(m) && shows(m, f)
}

proof fn lemma_sharing(prints: Seq<FingerprintView>, hash: Seq<char>, min_edges: int)
    ensures
        forall|f: FingerprintView| #[trigger]
            sharing(prints, hash, min_edges).contains(f) <==> counts(f, hash, min_edges) && prints.contains(f),
        sharing(prints, hash, min_edges).len() <= prints.len(),
{
    lemma_gather_len(prints, with_hash(hash, min_edges));
    assert forall|f: FingerprintView| #[trigger] sharing(prints, hash, min_edges).contains(f) <==> counts(f, hash, min_edges)
        && prints.contains(f) by {
        lemma_gather_member(prints, with_hash(hash, min_edges), f);
        if counts(f, hash, min_edges) && prints.contains(f) {
            let i = choose|i: int| 0 <= i < prints.len() && prints[i] == f;
            assert(with_hash(hash, min_edges)(prints[i]) == Some(f));
        }
    }
}

/// Two symbols that count and share a fingerprint are members of one group.
pub proof fn symbols_that_share_a_fingerprint_are_grouped(
    groups: Seq<GroupView>,
    rows: Seq<DisplayView>,
    prints: Seq<FingerprintView>,
    min_edges: int,
    i: int,
    j: int,
)
    requires
        prints.len() <= usize::MAX,
        lists_groups(groups, rows, prints, min_edges),
        0 <= i < j < prints.len(),
        prints[i].hash == prints[j].hash,
        counts(prints[i], prints[i].hash, min_edges),
        counts(prints[j], prints[i].hash, min_edges),
    ensures
        exists|g: int| 0 <= g < groups.len() && (#[trigger] groups[g]).fingerprint == prints[i].hash && is_member(
            groups[g],
            prints[i],
        ) && is_member(groups[g], prints[j]),
{
    let hash = prints[i].hash;
    let same = sharing(prints, hash, min_edges);
    lemma_two(prints, hash, min_edges, i, j);
    assert(sharing(prints, hash, min_edges).len() >= 2);
    assert(is_listed(groups, hash));
    let g = choose|g: int| 0 <= g < groups.len() && (#[trigger] groups[g]).fingerprint == hash;
    assert(is_good_group(groups[g], rows, prints, min_edges));
    lemma_sharing(prints, hash, min_edges);
    assert(prints.contains(prints[i]) && prints.contains(prints[j]));
    lemma_shown(rows, same, prints[i]);
    lemma_shown(rows, same, prints[j]);
    assert(groups[g].members == members_of(rows, same));
    let a = choose|m: MemberView| #[trigger] members_of(rows, same).contains(m) && shows(m, prints[i]);
    let b = choose|m: MemberView| #[trigger] members_of(rows, same).contains(m) && shows(m, prints[j]);
    assert(groups[g].members.contains(a) && groups[g].members.contains(b));
}

proof fn lemma_shown(rows: Seq<DisplayView>, same: Seq<FingerprintView>, f: FingerprintView)
    requires
        same.len() <= usize::MAX,
        same.contains(f),
    ensures
        exists|m: MemberView| #[trigger] members_of(rows, same).contains(m) && shows(m, f),
{
    let all = Seq::new(same.len(), |i: int| member_of(rows, same[i]));
    let keys = Seq::new(same.len(), |i: int| crate::graph::clones::member_key(all[i]));
    let p = lemma_sorted_by::<(String, ((u64, i64), String)), MemberView>(keys, all);
    let k = choose|k: int| 0 <= k < same.len() && same[k] == f;
    lemma_permutation_covers(p, all.len(), k as usize);
    let x = choose|x: int| 0 <= x < p.len() && p[x] == k as usize;
    let m = members_of(rows, same)[x];
    assert(m == all[k]);
    assert(members_of(rows, same).contains(m));
    assert(shows(m, f));
}

proof fn lemma_two(prints: Seq<FingerprintView>, hash: Seq<char>, min_edges: int, i: int, j: int)
    requires
        0 <= i < j < prints.len(),
        counts(prints[i], hash, min_edges),
        counts(prints[j], hash, min_edges),
    ensures
        sharing(prints, hash, min_edges).len() >= 2,
    decreases prints.len(),
{
    let rest = prints.drop_last();
    if j < rest.len() {
        assert(rest[i] == prints[i] && rest[j] == prints[j]);
        lemma_two(rest, hash, min_edges, i, j);
    } else {
        let s = sharing(rest, hash, min_edges);
        lemma_sharing(rest, hash, min_edges);
        assert(rest[i] == prints[i]);
        assert(s.contains(prints[i]));
        assert(sharing(prints, hash, min_edges) == s.push(prints[j]));
    }
}

/// Every member of a group is a symbol that counts and has the group's
/// fingerprint; a group has two members at least, one for each such symbol; and
/// no fingerprint has two groups.
pub proof fn a_group_holds_symbols_of_one_fingerprint(
    groups: Seq<GroupView>,
    rows: Seq<DisplayView>,
    prints: Seq<FingerprintView>,
    min_edges: int,
    g: int,
)
    requires
        prints.len() <= usize::MAX,
        lists_groups(groups, rows, prints, min_edges),
        0 <= g < groups.len(),
    ensures
        groups[g].members.len() >= 2,
        forall|m: MemberView| #[trigger]
            groups[g].members.contains(m) ==> exists|f: FingerprintView| #[trigger]
                prints.contains(f) && counts(f, groups[g].fingerprint, min_edges) && shows(m, f),
        exists|f: FingerprintView| #[trigger]
            prints.contains(f) && counts(f, groups[g].fingerprint, min_edges) && groups[g].edge_count == f.edge_count,
        forall|h: int| #![trigger groups[h]]
            0 <= h < groups.len() && h != g ==> groups[h].fingerprint != groups[g].fingerprint,
{
    let group = groups[g];
    let hash = group.fingerprint;
    let same = sharing(prints, hash, min_edges);
    assert(is_good_group(groups[g], rows, prints, min_edges));
    lemma_sharing(prints, hash, min_edges);
    let all = Seq::new(same.len(), |i: int| member_of(rows, same[i]));
    let keys = Seq::new(same.len(), |i: int| crate::graph::clones::member_key(all[i]));
    let p = lemma_sorted_by::<(String, ((u64, i64), String)), MemberView>(keys, all);
    assert(same.contains(same[0]));
    assert forall|m: MemberView| #[trigger] group.members.contains(m) implies exists|f: FingerprintView| #[trigger]
        prints.contains(f) && counts(f, hash, min_edges) && shows(m, f) by {
        let x = choose|x: int| 0 <= x < group.members.len() && group.members[x] == m;
        assert(p[x] < all.len());
        let f = same[p[x] as int];
        assert(same.contains(f));
        assert(shows(m, f));
    }
    assert forall|h: int| #![trigger groups[h]] 0 <= h < groups.len() && h != g implies groups[h].fingerprint
        != groups[g].fingerprint by {
        assert(is_good_group(groups[h], rows, prints, min_edges));
        <String as Sortable>::before_irreflexive(hash);
        if h < g {
            assert(crate::graph::clones::group_before(groups[h], groups[g]));
        } else {
            assert(crate::graph::clones::group_before(groups[g], groups[h]));
        }
    }
}

/// A member is shown by the node of its symbol that stands first in its file: no
/// other node of the symbol has a lesser line, an unknown line being the last.
pub proof fn a_member_is_shown_where_it_stands_first(rows: Seq<DisplayView>, f: FingerprintView, i: int)
    requires
        0 <= i < rows.len(),
        rows[i].qualified_name == f.qualified_name,
        rows[i].file_path == f.file_path,
    ensures
        exists|k: int| #![trigger rows[k]]
            {
                &&& 0 <= k < rows.len()
                &&& rows[k].qualified_name == f.qualified_name
                &&& rows[k].file_path == f.file_path
                &&& member_of(rows, f).name == rows[k].name
                &&& member_of(rows, f).start_line == rows[k].start_line
                &&& rows[k].start_line matches Some(l) ==> (rows[i].start_line matches Some(o) ==> l <= o)
                &&& rows[k].start_line is None ==> (rows[i].start_line matches Some(o) ==> o == i64::MAX)
            },
    decreases rows.len(),
{
    let rest = rows.drop_last();
    let last = rows.len() - 1;
    if i < last {
        assert(rest[i] == rows[i]);
        a_member_is_shown_where_it_stands_first(rest, f, i);
        let k = choose|k: int| #![trigger rest[k]]
            {
                &&& 0 <= k < rest.len()
                &&& rest[k].qualified_name == f.qualified_name
                &&& rest[k].file_path == f.file_path
                &&& member_of(rest, f).name == rest[k].name
                &&& member_of(rest, f).start_line == rest[k].start_line
                &&& rest[k].start_line matches Some(l) ==> (rest[i].start_line matches Some(o) ==> l <= o)
                &&& rest[k].start_line is None ==> (rest[i].start_line matches Some(o) ==> o == i64::MAX)
            };
        assert(rows[k] == rest[k]);
        lemma_is_shown(rest, f, i);
        assert(rows[last] == rows.last());
    } else if exists|j: int| #![trigger rest[j]]
        0 <= j < rest.len() && rest[j].qualified_name == f.qualified_name && rest[j].file_path == f.file_path {
        let j = choose|j: int| #![trigger rest[j]]
            0 <= j < rest.len() && rest[j].qualified_name == f.qualified_name && rest[j].file_path == f.file_path;
        a_member_is_shown_where_it_stands_first(rest, f, j);
        lemma_is_shown(rest, f, j);
        let k = choose|k: int| #![trigger rest[k]]
            {
                &&& 0 <= k < rest.len()
                &&& rest[k].qualified_name == f.qualified_name
                &&& rest[k].file_path == f.file_path
                &&& member_of(rest, f).name == rest[k].name
                &&& member_of(rest, f).start_line == rest[k].start_line
                &&& rest[k].start_line matches Some(l) ==> (rest[j].start_line matches Some(o) ==> l <= o)
                &&& rest[k].start_line is None ==> (rest[j].start_line matches Some(o) ==> o == i64::MAX)
            };
        assert(rows[k] == rest[k]);
        assert(rows[last] == rows.last());
    } else {
        lemma_not_shown(rest, f);
        assert(rows[last] == rows.last());
    }
}

proof fn lemma_is_shown(rows: Seq<DisplayView>, f: FingerprintView, i: int)
    requires
        0 <= i < rows.len(),
        rows[i].qualified_name == f.qualified_name,
        rows[i].file_path == f.file_path,
    ensures
        shown(rows, f.qualified_name, f.file_path) is Some,
    decreases rows.len(),
{
    let rest = rows.drop_last();
    if i < rest.len() {
        assert(rest[i] == rows[i]);
        lemma_is_shown(rest, f, i);
    }
}

proof fn lemma_not_shown(rows: Seq<DisplayView>, f: FingerprintView)
    requires
        forall|j: int| #![trigger rows[j]]
            0 <= j < rows.len() ==> rows[j].qualified_name != f.qualified_name || rows[j].file_path != f.file_path,
    ensures
        shown(rows, f.qualified_name, f.file_path) is None,
    decreases rows.len(),
{
    if rows.len() > 0 {
        let rest = rows.drop_last();
        assert forall|j: int| #![trigger rest[j]] 0 <= j < rest.len() implies rest[j].qualified_name != f.qualified_name
            || rest[j].file_path != f.file_path by {
            assert(rows[j] == rest[j]);
        }
        lemma_not_shown(rest, f);
        assert(rows[rows.len() - 1] == rows.last());
    }
}

/// A node counts for the file that it lies in, and for no other.
pub proof fn nodes_are_counted_where_they_lie(
    nodes: Seq<CouplingNode>,
    n: CouplingNode,
    edges: Seq<CouplingEdge>,
    file: Seq<char>,
)
    requires
        nodes.len() < i64::MAX,
    ensures
        coupling_of(Seq::empty(), edges, file).node_count == 0,
        coupling_of(nodes.push(n), edges, file).node_count == coupling_of(nodes, edges, file).node_count + (if exists|
            id: Seq<char>,
        |
            places(n, id, file) {
            1int
        } else {
            0int
        }),
{
    let rows = gather(nodes, located());
    let files = seconds(rows);
    crate::gather::lemma_gather_push(nodes, n, located());
    lemma_gather_len(nodes, located());
    lemma_places_len(files, file);
    let more = seconds(gather(nodes.push(n), located()));
    if let Some(row) = located()(n) {
        assert(more =~= files.push(row.1));
        assert(more.drop_last() =~= files);
        if row.1 == file {
            assert(places(n, row.0, file));
        } else if exists|id: Seq<char>| places(n, id, file) {
            let id = choose|id: Seq<char>| places(n, id, file);
            assert(row.1 == file);
        }
    } else {
        assert(more =~= files);
        if exists|id: Seq<char>| places(n, id, file) {
            let id = choose|id: Seq<char>| places(n, id, file);
            assert(located()(n) is Some);
        }
    }
    assert(seconds(gather(Seq::<CouplingNode>::empty(), located())) =~= Seq::empty());
}

proof fn lemma_places_len(s: Seq<Seq<char>>, x: Seq<char>)
    ensures
        places_of(s, x).len() <= s.len(),
    decreases s.len(),
{
    if s.len() > 0 {
        lemma_places_len(s.drop_last(), x);
    }
}

} // verus!
