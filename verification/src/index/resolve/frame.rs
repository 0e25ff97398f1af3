//! What a binding depends on, and why an incremental pass may leave the
//! references alone that it does not examine.

use vstd::prelude::*;

use crate::gather::{gather, lemma_gather_member, lemma_gather_same};
use crate::index::resolve::cascade::{binding_of, hits, Test};
use crate::index::resolve::indices::{
    answers, by_id_order, has_imports, ids, imports_admit, is_import_of, place_of_id, pool, use_admits,
};
use crate::index::resolve::laws::{
    at, distinct_ids, lemma_by_id_order, lemma_hits_at, lemma_pool_at, lemma_terminal_same, pool_fn, test_fn,
};
use crate::index::resolve::names::{bare, family, module_relative, normalized, sep};
use crate::index::resolve::pass::{is_affected, row_of, rows_of, RowView};
use crate::index::resolve::{EdgeView, NodeView};
use crate::lookup::{lemma_places_of, places_of};
use crate::order::{index_before, Sortable};
use crate::text::has_part;

verus! {

/// Do two projects hold the same nodes of some kind?
pub open spec fn same_where(a: Seq<NodeView>, b: Seq<NodeView>, kind: spec_fn(NodeView) -> bool) -> bool {
    forall|n: NodeView|
        #![trigger a.contains(n)]
        #![trigger b.contains(n)]
        kind(n) ==> (a.contains(n) <==> b.contains(n))
}

/// The node that an id names.
pub open spec fn named_by(id: Seq<char>) -> spec_fn(NodeView) -> bool {
    |n: NodeView| n.id == id
}

/// The definitions that a reference of that node may mean.
pub open spec fn meant_by(edge: EdgeView, source: NodeView) -> spec_fn(NodeView) -> bool {
    |n: NodeView| answers(n, bare(normalized(edge.to_name)), edge.to_type, family(source.language))
}

/// The `use` declarations of a file.
pub open spec fn uses_of(file: Seq<char>) -> spec_fn(NodeView) -> bool {
    |n: NodeView| is_import_of(n, file)
}

/// The nodes of files that did not change.
pub open spec fn outside(changed_files: Seq<Seq<char>>) -> spec_fn(NodeView) -> bool {
    |n: NodeView| !changed_files.contains(n.file_path)
}

/// The nodes with names that neither came nor went.
pub open spec fn steady(delta_names: Seq<Seq<char>>) -> spec_fn(NodeView) -> bool {
    |n: NodeView| !delta_names.contains(n.name)
}

// ---- sequences in the order of ids ---------------------------------------------------------

spec fn is_rising(s: Seq<NodeView>) -> bool {
    forall|i: int, j: int| 0 <= i < j < s.len() ==> String::before((#[trigger] s[i]).id, (#[trigger] s[j]).id)
}

/// Two rising sequences with the same members are equal.
proof fn lemma_rising_unique(s: Seq<NodeView>, t: Seq<NodeView>)
    requires
        is_rising(s),
        is_rising(t),
        forall|n: NodeView| #[trigger] s.contains(n) <==> t.contains(n),
    ensures
        s == t,
    decreases s.len(),
{
    if s.len() == 0 {
        if t.len() > 0 {
            assert(t.contains(t[0]));
            assert(s.contains(t[0]));
        }
        assert(s =~= t);
    } else {
        let x = s.last();
        assert(s.contains(x));
        assert(t.contains(x));
        let k = choose|k: int| 0 <= k < t.len() && t[k] == x;
        let y = t.last();
        assert(t.contains(y));
        assert(s.contains(y));
        let m = choose|m: int| 0 <= m < s.len() && s[m] == y;
        if k < t.len() - 1 {
            assert(String::before(t[k].id, t[t.len() - 1].id));
            if m < s.len() - 1 {
                assert(String::before(s[m].id, s[s.len() - 1].id));
                String::before_transitive(x.id, y.id, x.id);
            }
            String::before_irreflexive(x.id);
        }
        assert(x == y);
        let s1 = s.drop_last();
        let t1 = t.drop_last();
        assert forall|n: NodeView| #[trigger] s1.contains(n) <==> t1.contains(n) by {
            if s1.contains(n) {
                let i = choose|i: int| 0 <= i < s1.len() && s1[i] == n;
                assert(s[i] == n);
                assert(String::before(s[i].id, s[s.len() - 1].id));
                assert(s.contains(n));
                let j = choose|j: int| 0 <= j < t.len() && t[j] == n;
                String::before_irreflexive(x.id);
                assert(t1[j] == n);
            }
            if t1.contains(n) {
                let i = choose|i: int| 0 <= i < t1.len() && t1[i] == n;
                assert(t[i] == n);
                assert(String::before(t[i].id, t[t.len() - 1].id));
                assert(t.contains(n));
                assert(s.contains(n));
                let j = choose|j: int| 0 <= j < s.len() && s[j] == n;
                String::before_irreflexive(x.id);
                assert(s1[j] == n);
            }
        }
        lemma_rising_unique(s1, t1);
        assert(s =~= s1.push(x));
        assert(t =~= t1.push(y));
    }
}

/// The nodes in the order of their ids rise, and are all the nodes.
proof fn lemma_line(nodes: Seq<NodeView>)
    requires
        nodes.len() <= usize::MAX,
        distinct_ids(nodes),
    ensures
        is_rising(at(nodes, by_id_order(nodes))),
        forall|n: NodeView| #[trigger] at(nodes, by_id_order(nodes)).contains(n) <==> nodes.contains(n),
{
    lemma_by_id_order(nodes);
    let order = by_id_order(nodes);
    let all = at(nodes, order);
    let keys = ids(nodes);
    assert forall|i: int, j: int| 0 <= i < j < all.len() implies String::before(
        (#[trigger] all[i]).id,
        (#[trigger] all[j]).id,
    ) by {
        assert(index_before::<String>(keys, order[i] as int, order[j] as int));
        let x = order[i] as int;
        let y = order[j] as int;
        assert(keys[x] == nodes[x].id && keys[y] == nodes[y].id);
        if keys[x] == keys[y] {
            assert(nodes[x].id != nodes[y].id || x == y);
        }
    }
    assert forall|n: NodeView| #[trigger] all.contains(n) <==> nodes.contains(n) by {
        if all.contains(n) {
            let i = choose|i: int| 0 <= i < all.len() && all[i] == n;
            assert(order[i] < nodes.len());
            assert(nodes[order[i] as int] == n);
        }
        if nodes.contains(n) {
            let i = choose|i: int| 0 <= i < nodes.len() && nodes[i] == n;
            assert(order.contains(i as usize));
            let k = choose|k: int| 0 <= k < order.len() && order[k] == i as usize;
            assert(all[k] == n);
        }
    }
}

/// What is gathered of a rising sequence rises.
proof fn lemma_gathered_rises(s: Seq<NodeView>, name: Seq<char>, node_type: Seq<char>, lang: Seq<char>)
    requires
        is_rising(s),
    ensures
        is_rising(gather(s, pool_fn(name, node_type, lang))),
    decreases s.len(),
{
    let f = pool_fn(name, node_type, lang);
    if s.len() > 0 {
        let s1 = s.drop_last();
        lemma_gathered_rises(s1, name, node_type, lang);
        let front = gather(s1, f);
        let all = gather(s, f);
        assert forall|i: int, j: int| 0 <= i < j < all.len() implies String::before(
            (#[trigger] all[i]).id,
            (#[trigger] all[j]).id,
        ) by {
            if j < front.len() {
                assert(front[i] == all[i] && front[j] == all[j]);
            } else {
                assert(front[i] == all[i]);
                lemma_gather_member(s1, f, front[i]);
                assert(front.contains(front[i]));
                let k = choose|k: int| 0 <= k < s1.len() && f(#[trigger] s1[k]) == Some(front[i]);
                assert(s[k] == front[i]);
                assert(String::before(s[k].id, s[s.len() - 1].id));
            }
        }
    }
}

/// The candidates of a reference are the definitions that it may mean.
proof fn lemma_candidates(nodes: Seq<NodeView>, name: Seq<char>, node_type: Seq<char>, lang: Seq<char>)
    requires
        nodes.len() <= usize::MAX,
        distinct_ids(nodes),
    ensures
        is_rising(at(nodes, pool(nodes, name, node_type, lang))),
        forall|n: NodeView| #[trigger]
            at(nodes, pool(nodes, name, node_type, lang)).contains(n) <==> nodes.contains(n) && answers(
                n,
                name,
                node_type,
                lang,
            ),
{
    let all = at(nodes, by_id_order(nodes));
    let f = pool_fn(name, node_type, lang);
    lemma_line(nodes);
    lemma_pool_at(nodes, by_id_order(nodes), name, node_type, lang);
    lemma_gathered_rises(all, name, node_type, lang);
    assert forall|n: NodeView| #[trigger] gather(all, f).contains(n) <==> nodes.contains(n) && answers(
        n,
        name,
        node_type,
        lang,
    ) by {
        lemma_gather_member(all, f, n);
        if gather(all, f).contains(n) {
            let k = choose|k: int| 0 <= k < all.len() && f(#[trigger] all[k]) == Some(n);
            assert(all.contains(n));
        }
        if nodes.contains(n) && answers(n, name, node_type, lang) {
            assert(all.contains(n));
            let k = choose|k: int| 0 <= k < all.len() && all[k] == n;
            assert(f(all[k]) == Some(n));
        }
    }
}

// ---- the frame -----------------------------------------------------------------------------------

proof fn lemma_imports_agree(a: Seq<NodeView>, b: Seq<NodeView>, file: Seq<char>, name: Seq<char>)
    requires
        same_where(a, b, uses_of(file)),
    ensures
        imports_admit(a, file, name) == imports_admit(b, file, name),
        has_imports(a, file) == has_imports(b, file),
{
    if imports_admit(a, file, name) {
        let i = choose|i: int|
            0 <= i < a.len() && is_import_of(#[trigger] a[i], file) && use_admits(a[i].name, name);
        assert(a.contains(a[i]));
        let k = choose|k: int| 0 <= k < b.len() && b[k] == a[i];
        assert(is_import_of(b[k], file));
    }
    if imports_admit(b, file, name) {
        let i = choose|i: int|
            0 <= i < b.len() && is_import_of(#[trigger] b[i], file) && use_admits(b[i].name, name);
        assert(b.contains(b[i]));
        let k = choose|k: int| 0 <= k < a.len() && a[k] == b[i];
        assert(is_import_of(a[k], file));
    }
    if has_imports(a, file) {
        let i = choose|i: int| 0 <= i < a.len() && is_import_of(#[trigger] a[i], file);
        assert(a.contains(a[i]));
        let k = choose|k: int| 0 <= k < b.len() && b[k] == a[i];
        assert(is_import_of(b[k], file));
    }
    if has_imports(b, file) {
        let i = choose|i: int| 0 <= i < b.len() && is_import_of(#[trigger] b[i], file);
        assert(b.contains(b[i]));
        let k = choose|k: int| 0 <= k < a.len() && a[k] == b[i];
        assert(is_import_of(a[k], file));
    }
}

proof fn lemma_hits_agree(a: Seq<NodeView>, b: Seq<NodeView>, ca: Seq<usize>, cb: Seq<usize>, t: Test)
    requires
        at(a, ca) == at(b, cb),
        t matches Test::Imported(file) ==> same_where(a, b, uses_of(file)),
    ensures
        at(a, hits(a, ca, t)) == at(b, hits(b, cb, t)),
{
    lemma_hits_at(a, ca, t);
    lemma_hits_at(b, cb, t);
    let s = at(a, ca);
    let f = test_fn(a, t);
    let g = test_fn(b, t);
    assert forall|i: int| 0 <= i < s.len() implies f(#[trigger] s[i]) == g(s[i]) by {
        match t {
            Test::Imported(file) => {
                lemma_imports_agree(a, b, file, s[i].qualified_name);
            },
            _ => {},
        }
    }
    lemma_gather_same(s, s, f, g);
}

proof fn lemma_source(a: Seq<NodeView>, b: Seq<NodeView>, id: Seq<char>)
    requires
        a.len() <= usize::MAX,
        b.len() <= usize::MAX,
        distinct_ids(b),
        same_where(a, b, named_by(id)),
    ensures
        place_of_id(a, id) is Some ==> {
            &&& 0 <= place_of_id(a, id)->0 < a.len()
            &&& place_of_id(b, id) is Some
            &&& a[place_of_id(a, id)->0] == b[place_of_id(b, id)->0]
            &&& a[place_of_id(a, id)->0].id == id
        },
{
    let qa = places_of(ids(a), id);
    let qb = places_of(ids(b), id);
    lemma_places_of(ids(a), id);
    lemma_places_of(ids(b), id);
    if qa.len() > 0 {
        let i = qa[qa.len() - 1] as int;
        assert(ids(a)[i] == id);
        assert(a.contains(a[i]));
        assert(named_by(id)(a[i]));
        assert(b.contains(a[i]));
        let k = choose|k: int| 0 <= k < b.len() && b[k] == a[i];
        assert(ids(b)[k] == id);
        assert(qb.contains(k as usize));
        let m = qb[qb.len() - 1] as int;
        assert(ids(b)[m] == id);
        if m < k {
            assert(b[m].id != b[k].id);
        } else if k < m {
            assert(b[k].id != b[m].id);
        }
    }
}

/// A binding depends on nothing but the reference's own node, the definitions
/// that it may mean, and the `use` declarations of its file: two projects that
/// agree on these bind the reference alike.
pub proof fn a_binding_depends_on_what_it_may_mean(edge: EdgeView, a: Seq<NodeView>, b: Seq<NodeView>)
    requires
        a.len() <= usize::MAX,
        b.len() <= usize::MAX,
        distinct_ids(a),
        distinct_ids(b),
        same_where(a, b, named_by(edge.from_id)),
        forall|source: NodeView| #[trigger] a.contains(source) && source.id == edge.from_id ==> {
            &&& same_where(a, b, meant_by(edge, source))
            &&& same_where(a, b, uses_of(source.file_path))
        },
    ensures
        binding_of(edge, a) == binding_of(edge, b),
{
    lemma_source(a, b, edge.from_id);
    assert(same_where(b, a, named_by(edge.from_id)));
    lemma_source(b, a, edge.from_id);
    match place_of_id(a, edge.from_id) {
        None => {},
        Some(i) => {
            let source = a[i];
            assert(a.contains(source));
            let name = normalized(edge.to_name);
            let lang = family(source.language);
            let file = source.file_path;
            let ca = pool(a, bare(name), edge.to_type, lang);
            let cb = pool(b, bare(name), edge.to_type, lang);
            lemma_candidates(a, bare(name), edge.to_type, lang);
            lemma_candidates(b, bare(name), edge.to_type, lang);
            assert forall|n: NodeView| #[trigger] at(a, ca).contains(n) <==> at(b, cb).contains(n) by {
                assert(meant_by(edge, source)(n) == answers(n, bare(name), edge.to_type, lang));
                assert(a.contains(n) == a.contains(n));
            }
            lemma_rising_unique(at(a, ca), at(b, cb));
            if has_part(name, sep()) {
                lemma_hits_agree(a, b, ca, cb, Test::Exact(name));
                lemma_hits_agree(a, b, ca, cb, Test::Suffix(name));
                lemma_hits_agree(a, b, ca, cb, Test::Relative(module_relative(name)));
                let a1 = hits(a, ca, Test::Exact(name));
                let b1 = hits(b, cb, Test::Exact(name));
                let a2 = hits(a, ca, Test::Suffix(name));
                let b2 = hits(b, cb, Test::Suffix(name));
                lemma_terminal_same(a, b, a1, b1);
                lemma_terminal_same(a, b, a2, b2);
                lemma_terminal_same(
                    a,
                    b,
                    hits(a, ca, Test::Relative(module_relative(name))),
                    hits(b, cb, Test::Relative(module_relative(name))),
                );
                assert(at(a, a1 + a2) =~= at(a, a1) + at(a, a2));
                assert(at(b, b1 + b2) =~= at(b, b1) + at(b, b2));
                lemma_terminal_same(a, b, a1 + a2, b1 + b2);
            } else {
                lemma_hits_agree(a, b, ca, cb, Test::SameFile(file));
                lemma_hits_agree(a, b, ca, cb, Test::Imported(file));
                lemma_terminal_same(a, b, hits(a, ca, Test::SameFile(file)), hits(b, cb, Test::SameFile(file)));
                lemma_terminal_same(a, b, hits(a, ca, Test::Imported(file)), hits(b, cb, Test::Imported(file)));
                lemma_terminal_same(a, b, ca, cb);
                lemma_imports_agree(a, b, file, file);
            }
        },
    }
}

// ---- the incremental pass ------------------------------------------------------------------------

/// Was the reference's own node, if there was one, in a file that did not
/// change?
pub open spec fn stood_outside(e: EdgeView, before: Seq<NodeView>, changed_files: Seq<Seq<char>>) -> bool {
    forall|n: NodeView| #[trigger] before.contains(n) && n.id == e.from_id ==> !changed_files.contains(n.file_path)
}

/// A reference that an incremental pass does not examine keeps its binding:
/// where no file but the changed ones is another, and no definition of a name
/// that neither came nor went is another, a full pass would bind the
/// reference as it was bound before.
pub proof fn an_unexamined_reference_keeps_its_binding(
    edge: EdgeView,
    before: Seq<NodeView>,
    after: Seq<NodeView>,
    changed_files: Seq<Seq<char>>,
    delta_names: Seq<Seq<char>>,
)
    requires
        before.len() <= usize::MAX,
        after.len() <= usize::MAX,
        distinct_ids(before),
        distinct_ids(after),
        same_where(before, after, outside(changed_files)),
        same_where(before, after, steady(delta_names)),
        stood_outside(edge, before, changed_files),
        !is_affected(edge, after, changed_files, delta_names),
    ensures
        binding_of(edge, after) == binding_of(edge, before),
{
    assert forall|n: NodeView| named_by(edge.from_id)(n) implies before.contains(n) == after.contains(n) by {
        if after.contains(n) {
            let i = choose|i: int| 0 <= i < after.len() && after[i] == n;
            assert(after[i].id == edge.from_id);
            assert(outside(changed_files)(n));
        }
        if before.contains(n) {
            assert(outside(changed_files)(n));
        }
    }
    assert(same_where(before, after, named_by(edge.from_id)));
    assert forall|source: NodeView| #[trigger] before.contains(source) && source.id == edge.from_id implies {
        &&& same_where(before, after, meant_by(edge, source))
        &&& same_where(before, after, uses_of(source.file_path))
    } by {
        assert(!changed_files.contains(source.file_path));
        assert forall|n: NodeView| meant_by(edge, source)(n) implies before.contains(n) == after.contains(n) by {
            assert(steady(delta_names)(n));
        }
        assert forall|n: NodeView| uses_of(source.file_path)(n) implies before.contains(n) == after.contains(n) by {
            assert(outside(changed_files)(n));
        }
    }
    a_binding_depends_on_what_it_may_mean(edge, before, after);
}

/// The rows after an incremental pass: new ones for the references that it
/// examined, the old ones for the others.
pub open spec fn merged_rows(
    edges: Seq<EdgeView>,
    before: Seq<NodeView>,
    after: Seq<NodeView>,
    changed_files: Seq<Seq<char>>,
    delta_names: Seq<Seq<char>>,
) -> Seq<RowView> {
    Seq::new(
        edges.len(),
        |i: int|
            if is_affected(edges[i], after, changed_files, delta_names) {
                row_of(edges[i], binding_of(edges[i], after))
            } else {
                row_of(edges[i], binding_of(edges[i], before))
            },
    )
}

/// An incremental pass leaves what a full pass would: the rows that it writes
/// and those that it leaves alone are, together, the rows of a full pass.
pub proof fn an_incremental_pass_leaves_what_a_full_one_would(
    edges: Seq<EdgeView>,
    before: Seq<NodeView>,
    after: Seq<NodeView>,
    changed_files: Seq<Seq<char>>,
    delta_names: Seq<Seq<char>>,
)
    requires
        before.len() <= usize::MAX,
        after.len() <= usize::MAX,
        distinct_ids(before),
        distinct_ids(after),
        same_where(before, after, outside(changed_files)),
        same_where(before, after, steady(delta_names)),
        forall|i: int|
            0 <= i < edges.len() && !is_affected(edges[i], after, changed_files, delta_names) ==> stood_outside(
                #[trigger] edges[i],
                before,
                changed_files,
            ),
    ensures
        merged_rows(edges, before, after, changed_files, delta_names) == rows_of(edges, after),
{
    let merged = merged_rows(edges, before, after, changed_files, delta_names);
    assert forall|i: int| 0 <= i < edges.len() implies merged[i] == rows_of(edges, after)[i] by {
        if !is_affected(edges[i], after, changed_files, delta_names) {
            an_unexamined_reference_keeps_its_binding(edges[i], before, after, changed_files, delta_names);
        }
    }
    assert(merged =~= rows_of(edges, after));
}

} // verus!
