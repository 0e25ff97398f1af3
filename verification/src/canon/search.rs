//! Refinement and the search for the least leaf.

use vstd::prelude::*;

use crate::canon::iso::{lemma_swap_leaves, relabel_all, swapped};
use crate::canon::model::{
    child, colors_along, edges_within, entry, entry_of, has_leaf, in_target, individualized,
    is_dense, is_discrete, is_least_leaf, leaf_edges, lemma_child, lemma_leaf_discrete,
    lemma_leaf_exists, lemma_leaf_step, lemma_round, places, refined, renamed, round, shared,
    vertex_key, vertex_keys,
};
use crate::gather::gather;
use crate::order::{
    index_before, is_stable_order, lemma_sorted_same_items, same_key, sort_keys, stable_order,
    Sortable,
};
use crate::ranks::{distinct, rank_all};

verus! {

/// The indices of the edges that meet `v`, ascending.
pub open spec fn incident(edges: Seq<(u64, Seq<usize>)>, v: usize) -> Seq<usize>
    decreases edges.len(),
{
    if edges.len() == 0 {
        Seq::empty()
    } else {
        let rest = incident(edges.drop_last(), v);
        if edges.last().1.contains(v) {
            rest.push((edges.len() - 1) as usize)
        } else {
            rest
        }
    }
}

/// For each of `n` vertices, the indices of the edges that meet it.
pub open spec fn is_incidence(inc: Seq<Seq<usize>>, edges: Seq<(u64, Seq<usize>)>, n: nat) -> bool {
    &&& inc.len() == n
    &&& forall|v: int| 0 <= v < n ==> #[trigger] inc[v] == incident(edges, v as usize)
}

proof fn lemma_incident(edges: Seq<(u64, Seq<usize>)>, v: usize, colors: Seq<u64>)
    requires
        edges.len() <= usize::MAX,
    ensures
        forall|i: int| 0 <= i < incident(edges, v).len() ==> (#[trigger] incident(edges, v)[i]) < edges.len(),
        gather(edges, entry_of(colors, v)) == Seq::new(
            incident(edges, v).len(),
            |i: int| entry(edges[incident(edges, v)[i] as int], colors, v),
        ),
    decreases edges.len(),
{
    let m = incident(edges, v);
    if edges.len() > 0 {
        lemma_incident(edges.drop_last(), v, colors);
        let rest = incident(edges.drop_last(), v);
        assert forall|i: int| 0 <= i < m.len() implies (#[trigger] m[i]) < edges.len() by {
            if i < rest.len() {
                assert(m[i] == rest[i]);
            }
        }
        let g = gather(edges, entry_of(colors, v));
        assert(g =~= Seq::new(m.len(), |i: int| entry(edges[m[i] as int], colors, v))) by {
            assert forall|i: int| 0 <= i < rest.len() implies edges.drop_last()[rest[i] as int]
                == edges[rest[i] as int] by {
                assert(rest[i] < edges.len() - 1);
            }
        }
    } else {
        assert(gather(edges, entry_of(colors, v)) =~= Seq::new(
            m.len(),
            |i: int| entry(edges[m[i] as int], colors, v),
        ));
    }
}

/// For each vertex, the edges that meet it, each once.
pub fn incidence(n: usize, edges: &Vec<(u64, Vec<usize>)>) -> (inc: Vec<Vec<usize>>)
    requires
        edges_within(edges.deep_view(), n as nat),
    ensures
        is_incidence(inc.deep_view(), edges.deep_view(), n as nat),
{
    let ghost ev = edges.deep_view();
    let mut inc: Vec<Vec<usize>> = Vec::new();
    let mut k: usize = 0;
    while k < n
        invariant
            k <= n,
            inc.len() == k,
            forall|v: int| 0 <= v < k ==> (#[trigger] inc[v])@ == Seq::<usize>::empty(),
        decreases n - k,
    {
        inc.push(Vec::new());
        k = k + 1;
    }
    let mut ei: usize = 0;
    while ei < edges.len()
        invariant
            ei <= edges.len(),
            ev == edges.deep_view(),
            edges_within(ev, n as nat),
            inc.len() == n,
            forall|v: int| 0 <= v < n ==> (#[trigger] inc[v])@ == incident(ev.take(ei as int), v as usize),
        decreases edges.len() - ei,
    {
        let m: usize = edges[ei].1.len();
        let ghost verts = ev[ei as int].1;
        let mut j: usize = 0;
        assert forall|v: int| 0 <= v < n implies (#[trigger] inc[v])@ == with_last(
            incident(ev.take(ei as int), v as usize),
            verts.take(0).contains(v as usize),
            ei,
        ) by {}
        while j < m
            invariant
                j <= m,
                ei < edges.len(),
                ev == edges.deep_view(),
                edges_within(ev, n as nat),
                verts == ev[ei as int].1,
                m == verts.len(),
                m == edges[ei as int].1.len(),
                inc.len() == n,
                forall|v: int| 0 <= v < n ==> (#[trigger] inc[v])@ == with_last(
                    incident(ev.take(ei as int), v as usize),
                    verts.take(j as int).contains(v as usize),
                    ei,
                ),
            decreases m - j,
        {
            let u: usize = edges[ei].1[j];
            assert(u == verts[j as int]);
            assert(verts[j as int] < n) by {
                assert(ev[ei as int].1[j as int] < n);
            }
            let len: usize = inc[u].len();
            proof {
                lemma_incident(ev.take(ei as int), u, Seq::empty());
            }
            let seen: bool = len > 0 && inc[u][len - 1] == ei;
            let ghost old_inc = inc@;
            if !seen {
                inc[u].push(ei);
            }
            assert forall|v: int| 0 <= v < n implies (#[trigger] inc[v])@ == with_last(
                incident(ev.take(ei as int), v as usize),
                verts.take(j + 1).contains(v as usize),
                ei,
            ) by {
                let base = incident(ev.take(ei as int), v as usize);
                assert(old_inc[v]@ == with_last(base, verts.take(j as int).contains(v as usize), ei));
                let done = verts.take(j + 1);
                let prior = verts.take(j as int);
                assert(done.drop_last() =~= prior);
                assert(done =~= prior.push(u));
                if prior.contains(v as usize) {
                    let x = choose|x: int| 0 <= x < prior.len() && prior[x] == v as usize;
                    assert(done[x] == v as usize);
                }
                if v == u {
                    assert(done[j as int] == u);
                    if seen && !verts.take(j as int).contains(v as usize) {
                        assert(base[len - 1] < ei);
                    }
                } else if done.contains(v as usize) {
                    let x = choose|x: int| 0 <= x < done.len() && done[x] == v as usize;
                    assert(prior[x] == v as usize);
                }
            }
            j = j + 1;
        }
        assert forall|v: int| 0 <= v < n implies (#[trigger] inc[v])@ == incident(
            ev.take(ei + 1),
            v as usize,
        ) by {
            assert(ev.take(ei + 1).drop_last() =~= ev.take(ei as int));
            assert(verts.take(m as int) =~= verts);
        }
        ei = ei + 1;
    }
    assert(ev.take(edges.len() as int) =~= ev);
    assert forall|v: int| 0 <= v < n implies #[trigger] inc.deep_view()[v] == incident(ev, v as usize) by {
        assert(inc[v].deep_view() =~= inc[v]@);
    }
    inc
}

spec fn with_last(s: Seq<usize>, b: bool, x: usize) -> Seq<usize> {
    if b {
        s.push(x)
    } else {
        s
    }
}

/// What one edge tells of vertex `v`.
fn edge_entry(e: &(u64, Vec<usize>), colors: &Vec<u64>, v: usize) -> (out: Vec<u64>)
    requires
        forall|i: int| 0 <= i < e.1.len() ==> (#[trigger] e.1@[i]) < colors.len(),
    ensures
        out@ == entry(e.deep_view(), colors@, v),
{
    let ghost ev = e.deep_view();
    assert(ev.1 =~= e.1@);
    let n: usize = e.1.len();
    let mut out: Vec<u64> = Vec::new();
    out.push(e.0);
    out.push(n as u64);
    let ghost head = seq![ev.0, ev.1.len() as u64];
    assert(out@ =~= head);
    let mut i: usize = 0;
    while i < n
        invariant
            i <= n,
            n == e.1.len(),
            ev.1 == e.1@,
            forall|k: int| 0 <= k < e.1.len() ==> (#[trigger] e.1@[k]) < colors.len(),
            out@ == head + colors_along(ev.1, colors@).take(i as int),
        decreases n - i,
    {
        let u: usize = e.1[i];
        assert(e.1@[i as int] < colors.len());
        out.push(colors[u]);
        assert(out@ =~= head + colors_along(ev.1, colors@).take(i + 1));
        i = i + 1;
    }
    let ghost front = head + colors_along(ev.1, colors@);
    assert(colors_along(ev.1, colors@).take(n as int) =~= colors_along(ev.1, colors@));
    let mut i: usize = 0;
    assert(out@ =~= front + places(ev.1.take(0), v));
    while i < n
        invariant
            i <= n,
            n == e.1.len(),
            ev.1 == e.1@,
            out@ == front + places(ev.1.take(i as int), v),
        decreases n - i,
    {
        assert(ev.1.take(i + 1).drop_last() =~= ev.1.take(i as int));
        if e.1[i] == v {
            out.push(i as u64);
        }
        assert(out@ =~= front + places(ev.1.take(i + 1), v));
        i = i + 1;
    }
    assert(ev.1.take(n as int) =~= ev.1);
    assert(out@ =~= entry(ev, colors@, v));
    out
}

/// A vertex's colour and sorted signature.
fn key_of(
    v: usize,
    colors: &Vec<u64>,
    edges: &Vec<(u64, Vec<usize>)>,
    inc_v: &Vec<usize>,
) -> (key: Vec<Vec<u64>>)
    requires
        v < colors.len(),
        edges_within(edges.deep_view(), colors@.len()),
        inc_v@ == incident(edges.deep_view(), v),
    ensures
        key.deep_view() == vertex_key(colors@, edges.deep_view(), v),
{
    let ghost ev = edges.deep_view();
    assert(ev.len() == edges.len());
    proof {
        lemma_incident(ev, v, colors@);
    }
    let mut sig: Vec<Vec<u64>> = Vec::new();
    let mut i: usize = 0;
    while i < inc_v.len()
        invariant
            i <= inc_v.len(),
            ev == edges.deep_view(),
            edges_within(ev, colors@.len()),
            inc_v@ == incident(ev, v),
            forall|k: int| 0 <= k < inc_v.len() ==> (#[trigger] inc_v@[k]) < edges.len(),
            sig.len() == i,
            forall|k: int| 0 <= k < i ==> (#[trigger] sig[k])@ == entry(ev[inc_v@[k] as int], colors@, v),
        decreases inc_v.len() - i,
    {
        let ei: usize = inc_v[i];
        assert(inc_v@[i as int] < edges.len());
        assert forall|k: int| 0 <= k < edges[ei as int].1.len() implies (#[trigger] edges[ei as int].1@[k]) < colors.len() by {
            assert(ev[ei as int].1[k] < colors@.len());
        }
        sig.push(edge_entry(&edges[ei], colors, v));
        i = i + 1;
    }
    assert(sig.deep_view() =~= gather(ev, entry_of(colors@, v))) by {
        assert forall|k: int| 0 <= k < sig.len() implies sig.deep_view()[k] == gather(ev, entry_of(colors@, v))[k] by {
            assert(sig[k].deep_view() =~= sig[k]@);
        }
    }
    let sig = sort_keys(sig);
    let mut key: Vec<Vec<u64>> = Vec::new();
    let mut first: Vec<u64> = Vec::new();
    first.push(colors[v]);
    assert(first.deep_view() =~= seq![colors@[v as int]]);
    key.push(first);
    let mut rest = sig;
    key.append(&mut rest);
    assert(key.deep_view() =~= vertex_key(colors@, ev, v)) by {
        let k = vertex_key(colors@, ev, v);
        assert(key.deep_view()[0] == k[0]);
        assert forall|j: int| 0 < j < key.len() implies key.deep_view()[j] == k[j] by {
            assert(key[j] == sig[j - 1]);
            assert(sig.deep_view()[j - 1] == sig[j - 1].deep_view());
        }
    }
    key
}

/// Refines a colouring to a stable one, in dense ranks.
pub fn refine(init: Vec<u64>, edges: &Vec<(u64, Vec<usize>)>, inc: &Vec<Vec<usize>>) -> (out: Vec<u64>)
    requires
        edges_within(edges.deep_view(), init@.len()),
        is_incidence(inc.deep_view(), edges.deep_view(), init@.len()),
    ensures
        out@ == refined(init@, edges.deep_view()),
{
    let ghost ev = edges.deep_view();
    let n: usize = init.len();
    let (unused, count) = rank_all(&init);
    assert(init.deep_view() =~= init@);
    let mut classes: u64 = count;
    let mut colors = init;
    loop
        invariant
            n == init.len(),
            ev == edges.deep_view(),
            edges_within(ev, n as nat),
            is_incidence(inc.deep_view(), ev, n as nat),
            colors.len() == n,
            classes == distinct(colors@),
            refined(colors@, ev) == refined(init@, ev),
        decreases n - distinct(colors@),
    {
        let mut keys: Vec<Vec<Vec<u64>>> = Vec::new();
        let mut v: usize = 0;
        while v < n
            invariant
                v <= n,
                ev == edges.deep_view(),
                edges_within(ev, n as nat),
                is_incidence(inc.deep_view(), ev, n as nat),
                colors.len() == n,
                keys.len() == v,
                forall|u: int| 0 <= u < v ==> (#[trigger] keys[u]).deep_view() == vertex_key(colors@, ev, u as usize),
            decreases n - v,
        {
            assert(inc.deep_view()[v as int] == incident(ev, v));
            assert(inc[v as int].deep_view() =~= inc[v as int]@);
            keys.push(key_of(v, &colors, edges, &inc[v]));
            v = v + 1;
        }
        assert(keys.deep_view() =~= vertex_keys(colors@, ev));
        let (next, next_classes) = rank_all(&keys);
        proof {
            lemma_round(colors@, ev);
        }
        assert(next@ == round(colors@, ev));
        if next_classes <= classes {
            return next;
        }
        colors = next;
        classes = next_classes;
    }
}

/// The sorted edge list of a discrete colouring.
fn certificate_edges(colors: &Vec<u64>, edges: &Vec<(u64, Vec<usize>)>) -> (out: Vec<(u64, Vec<u32>)>)
    requires
        edges_within(edges.deep_view(), colors@.len()),
    ensures
        out.deep_view() == leaf_edges(colors@, edges.deep_view()),
{
    let ghost ev = edges.deep_view();
    let ghost target = renamed(ev, colors@);
    let mut out: Vec<(u64, Vec<u32>)> = Vec::new();
    let mut i: usize = 0;
    while i < edges.len()
        invariant
            i <= edges.len(),
            ev == edges.deep_view(),
            target == renamed(ev, colors@),
            edges_within(ev, colors@.len()),
            out.len() == i,
            forall|k: int| 0 <= k < i ==> (#[trigger] out[k]).deep_view() == target[k],
        decreases edges.len() - i,
    {
        let mut verts: Vec<u32> = Vec::new();
        let mut j: usize = 0;
        while j < edges[i].1.len()
            invariant
                i < edges.len(),
                j <= edges[i as int].1.len(),
                ev == edges.deep_view(),
                target == renamed(ev, colors@),
                edges_within(ev, colors@.len()),
                verts@ == target[i as int].1.take(j as int),
            decreases edges[i as int].1.len() - j,
        {
            let u: usize = edges[i].1[j];
            assert(ev[i as int].1[j as int] == u);
            verts.push(colors[u] as u32);
            assert(verts@ =~= target[i as int].1.take(j + 1));
            j = j + 1;
        }
        assert(verts.deep_view() =~= target[i as int].1);
        out.push((edges[i].0, verts));
        assert(out[i as int].deep_view() == target[i as int]);
        i = i + 1;
    }
    assert(out.deep_view() =~= target);
    sort_keys(out)
}

/// The edges with `a` and `b` exchanged.
fn exchange(a: usize, b: usize, edges: &Vec<(u64, Vec<usize>)>, Ghost(n): Ghost<nat>) -> (out: Vec<(u64, Vec<usize>)>)
    requires
        edges_within(edges.deep_view(), n),
        n <= usize::MAX,
    ensures
        out.deep_view() == relabel_all(edges.deep_view(), swapped(n, a, b)),
{
    let ghost ev = edges.deep_view();
    let ghost target = relabel_all(ev, swapped(n, a, b));
    let mut out: Vec<(u64, Vec<usize>)> = Vec::new();
    let mut i: usize = 0;
    while i < edges.len()
        invariant
            i <= edges.len(),
            ev == edges.deep_view(),
            target == relabel_all(ev, swapped(n, a, b)),
            edges_within(ev, n),
            n <= usize::MAX,
            out.len() == i,
            forall|k: int| 0 <= k < i ==> (#[trigger] out[k]).deep_view() == target[k],
        decreases edges.len() - i,
    {
        let mut verts: Vec<usize> = Vec::new();
        let mut j: usize = 0;
        while j < edges[i].1.len()
            invariant
                i < edges.len(),
                j <= edges[i as int].1.len(),
                ev == edges.deep_view(),
                target == relabel_all(ev, swapped(n, a, b)),
                edges_within(ev, n),
                n <= usize::MAX,
                verts@ == target[i as int].1.take(j as int),
            decreases edges[i as int].1.len() - j,
        {
            let u: usize = edges[i].1[j];
            assert(ev[i as int].1[j as int] == u);
            let w: usize = if u == a {
                b
            } else if u == b {
                a
            } else {
                u
            };
            verts.push(w);
            assert(verts@ =~= target[i as int].1.take(j + 1));
            j = j + 1;
        }
        assert(verts.deep_view() =~= target[i as int].1);
        out.push((edges[i].0, verts));
        assert(out[i as int].deep_view() == target[i as int]);
        i = i + 1;
    }
    assert(out.deep_view() =~= target);
    out
}

/// Does exchanging `a` and `b` map the labelled edges onto themselves?
fn transposition_is_auto(a: usize, b: usize, edges: &Vec<(u64, Vec<usize>)>, Ghost(n): Ghost<nat>) -> (r: bool)
    requires
        edges_within(edges.deep_view(), n),
        n <= usize::MAX,
    ensures
        r == (relabel_all(edges.deep_view(), swapped(n, a, b)).to_multiset()
            == edges.deep_view().to_multiset()),
{
    let other = exchange(a, b, edges, Ghost(n));
    let same = exchange(a, a, edges, Ghost(n));
    proof {
        let ev = edges.deep_view();
        assert(same.deep_view() =~= ev) by {
            assert forall|i: int| 0 <= i < ev.len() implies same.deep_view()[i] == ev[i] by {
                assert forall|j: int| 0 <= j < ev[i].1.len() implies same.deep_view()[i].1[j] == ev[i].1[j] by {
                    assert(ev[i].1[j] < n);
                }
                assert(same.deep_view()[i].1 =~= ev[i].1);
            }
        }
        lemma_sorted_same_items::<(u64, Vec<usize>)>(other.deep_view(), ev);
    }
    let x = sort_keys(other);
    let y = sort_keys(same);
    same_key(&x, &y)
}


/// The members of the first class of several vertices, or nothing where the
/// colouring is discrete.
fn target_class(colors: &Vec<u64>) -> (r: Option<Vec<usize>>)
    ensures
        match r {
            None => is_discrete(colors@),
            Some(class) => {
                &&& !is_discrete(colors@)
                &&& class.len() <= colors.len()
                &&& forall|i: int| 0 <= i < class.len() ==> in_target(colors@, #[trigger] class[i])
                &&& forall|v: usize| #[trigger] in_target(colors@, v) ==> class@.contains(v)
            },
        },
{
    let n: usize = colors.len();
    let p = stable_order(colors);
    let ghost c = colors@;
    assert(colors.deep_view() =~= c);
    proof {
        crate::order::lemma_stable_order_is_permutation::<u64>(c, p@);
    }
    let mut i: usize = 0;
    while i + 1 < n && colors[p[i]] != colors[p[i + 1]]
        invariant
            n == colors.len(),
            c == colors@,
            p.len() == n,
            i <= n,
            n > 0 ==> i < n,
            is_stable_order::<u64>(c, p@),
            forall|k: int| 0 <= k < i ==> c[#[trigger] p[k] as int] != c[p[k + 1] as int],
        decreases n - i,
    {
        i = i + 1;
    }
    if i + 1 >= n {
        proof {
            assert forall|u: int, w: int| 0 <= u < w < c.len() implies #[trigger] c[u] != #[trigger] c[w] by {
                if c[u] == c[w] {
                    let (a, b) = lemma_places_of(c, p@, u, w);
                    lemma_run_equal(c, p@, a, b);
                }
            }
        }
        return None;
    }
    let mut class: Vec<usize> = Vec::new();
    let mut j: usize = i;
    while j < n && colors[p[j]] == colors[p[i]]
        invariant
            n == colors.len(),
            c == colors@,
            p.len() == n,
            is_stable_order::<u64>(c, p@),
            i + 1 < n,
            i <= j <= n,
            class@ == p@.subrange(i as int, j as int),
            forall|k: int| i <= k < j ==> c[#[trigger] p[k] as int] == c[p[i as int] as int],
        decreases n - j,
    {
        class.push(p[j]);
        j = j + 1;
        assert(class@ =~= p@.subrange(i as int, j as int));
    }
    proof {
        let t = c[p[i as int] as int];
        assert(shared(c, t)) by {
            let a = p[i as int] as int;
            let b = p[i + 1] as int;
            assert(p[i as int] != p[i + 1]);
            assert(c[a] == t && c[b] == t);
            if a < b {
            } else {
            }
        }
        assert forall|d: u64| #[trigger] shared(c, d) implies t <= d by {
            let (u, w) = choose|u: int, w: int|
                0 <= u < w < c.len() && #[trigger] c[u] == d && #[trigger] c[w] == d;
            let (a, b) = lemma_places_of(c, p@, u, w);
            lemma_run_equal(c, p@, a, b);
            if a < i {
                assert(c[p[a] as int] != c[p[a + 1] as int]);
            }
            if i < a {
                assert(index_before::<u64>(c, p[i as int] as int, p[a] as int));
            }
        }
        assert forall|k: int| 0 <= k < class.len() implies in_target(c, #[trigger] class[k]) by {
            assert(class[k] == p[i + k]);
            assert(c[p[i + k] as int] == t);
        }
        assert forall|v: usize| #[trigger] in_target(c, v) implies class@.contains(v) by {
            assert(shared(c, t));
            assert(c[v as int] <= t);
            assert(c[v as int] == t);
            assert(p@.contains(v));
            let q = choose|q: int| 0 <= q < p.len() && p[q] == v;
            if q < i {
                lemma_run_equal(c, p@, q, i as int);
                assert(c[p[q] as int] != c[p[q + 1] as int]);
            }
            if q >= j {
                if j < n {
                    if q > j {
                        assert(index_before::<u64>(c, p[j as int] as int, p[q] as int));
                    }
                    assert(index_before::<u64>(c, p[i as int] as int, p[j as int] as int));
                }
            }
            assert(class@[q - i] == v);
        }
        assert(!is_discrete(c));
    }
    Some(class)
}

/// The places in a stable order of two vertices of one colour.
proof fn lemma_places_of(c: Seq<u64>, p: Seq<usize>, u: int, w: int) -> (r: (int, int))
    requires
        is_stable_order::<u64>(c, p),
        c.len() <= usize::MAX,
        0 <= u < c.len(),
        0 <= w < c.len(),
        u != w,
        c[u] == c[w],
    ensures
        0 <= r.0 < r.1 < p.len(),
        c[p[r.0] as int] == c[u],
        c[p[r.1] as int] == c[u],
{
    assert(p.contains(u as usize));
    assert(p.contains(w as usize));
    let a = choose|a: int| 0 <= a < p.len() && p[a] == u as usize;
    let b = choose|b: int| 0 <= b < p.len() && p[b] == w as usize;
    if a < b {
        (a, b)
    } else {
        (b, a)
    }
}

/// Between two places of one colour, the next place has that colour too.
proof fn lemma_run_equal(c: Seq<u64>, p: Seq<usize>, a: int, b: int)
    requires
        is_stable_order::<u64>(c, p),
        0 <= a < b < p.len(),
        c[p[a] as int] == c[p[b] as int],
    ensures
        c[p[a] as int] == c[p[a + 1] as int],
{
    assert(index_before::<u64>(c, p[a] as int, p[a + 1] as int));
    if a + 1 < b {
        assert(index_before::<u64>(c, p[a + 1] as int, p[b] as int));
    }
}

/// Does exchanging `r` and `v` map the edges onto themselves?
spec fn exchangeable(edges: Seq<(u64, Seq<usize>)>, n: nat, r: usize, v: usize) -> bool {
    relabel_all(edges, swapped(n, r, v)).to_multiset() == edges.to_multiset()
}

/// `v` or a vertex that can be exchanged with it is among `reps`.
spec fn represented(edges: Seq<(u64, Seq<usize>)>, n: nat, reps: Seq<usize>, v: usize) -> bool {
    exists|k: int|
        0 <= k < reps.len() && (#[trigger] reps[k] == v || exchangeable(edges, n, reps[k], v))
}

/// One vertex per orbit, as far as exchanges of two vertices show orbits.
fn representatives(class: &Vec<usize>, edges: &Vec<(u64, Vec<usize>)>, Ghost(n): Ghost<nat>) -> (reps: Vec<usize>)
    requires
        edges_within(edges.deep_view(), n),
        n <= usize::MAX,
    ensures
        reps.len() <= class.len(),
        forall|k: int| 0 <= k < reps.len() ==> class@.contains(#[trigger] reps[k]),
        forall|i: int| 0 <= i < class.len() ==> represented(edges.deep_view(), n, reps@, #[trigger] class[i]),
{
    let mut reps: Vec<usize> = Vec::new();
    let mut i: usize = 0;
    while i < class.len()
        invariant
            i <= class.len(),
            edges_within(edges.deep_view(), n),
            n <= usize::MAX,
            reps.len() <= i,
            forall|k: int| 0 <= k < reps.len() ==> class@.contains(#[trigger] reps[k]),
            forall|j: int| 0 <= j < i ==> represented(edges.deep_view(), n, reps@, #[trigger] class[j]),
        decreases class.len() - i,
    {
        let v: usize = class[i];
        let mut found: bool = false;
        let mut k: usize = 0;
        while k < reps.len() && !found
            invariant
                k <= reps.len(),
                edges_within(edges.deep_view(), n),
                n <= usize::MAX,
                found ==> represented(edges.deep_view(), n, reps@, v),
            decreases reps.len() - k + (if found { 0int } else { 1int }),
        {
            if transposition_is_auto(reps[k], v, edges, Ghost(n)) {
                assert(exchangeable(edges.deep_view(), n, reps@[k as int], v));
                found = true;
            } else {
                k = k + 1;
            }
        }
        let ghost old_reps = reps@;
        if !found {
            reps.push(v);
            assert(reps@[old_reps.len() as int] == v);
            assert forall|j: int| 0 <= j < i implies represented(edges.deep_view(), n, reps@, #[trigger] class[j]) by {
                assert(represented(edges.deep_view(), n, old_reps, class[j]));
                let k = choose|k: int|
                    0 <= k < old_reps.len() && (#[trigger] old_reps[k] == class[j] || exchangeable(
                        edges.deep_view(),
                        n,
                        old_reps[k],
                        class[j],
                    ));
                assert(reps@[k] == old_reps[k]);
            }
        }
        i = i + 1;
    }
    reps
}

/// A bound on the number of colourings that the search visits below one with
/// `k` classes to go.
spec fn weight(n: nat, k: nat) -> nat
    decreases k,
{
    if k == 0 {
        1
    } else {
        1 + n * weight(n, (k - 1) as nat)
    }
}

spec fn weight_of(colors: Seq<u64>) -> nat {
    weight(colors.len(), (colors.len() - distinct(colors)) as nat)
}

spec fn total_weight(pending: Seq<Vec<u64>>) -> nat
    decreases pending.len(),
{
    if pending.len() == 0 {
        0
    } else {
        total_weight(pending.drop_last()) + weight_of(pending.last()@)
    }
}

proof fn lemma_weight_monotone(n: nat, j: nat, k: nat)
    requires
        j <= k,
        n >= 1,
    ensures
        weight(n, j) <= weight(n, k),
    decreases k,
{
    if j < k {
        lemma_weight_monotone(n, j, (k - 1) as nat);
        let w = weight(n, (k - 1) as nat);
        assert(w <= n * w) by (nonlinear_arith)
            requires
                n >= 1,
        ;
    }
}

/// The pending colourings of a search: dense, of `n` vertices.
spec fn is_pending(colors: Seq<u64>, n: nat) -> bool {
    colors.len() == n && is_dense(colors)
}

/// The least edge list over all leaves below a colouring.
pub fn canon_search(root: Vec<u64>, edges: &Vec<(u64, Vec<usize>)>, inc: &Vec<Vec<usize>>) -> (best: Vec<(u64, Vec<u32>)>)
    requires
        is_dense(root@),
        root.len() <= 0x1_0000_0000,
        edges_within(edges.deep_view(), root@.len()),
        is_incidence(inc.deep_view(), edges.deep_view(), root@.len()),
    ensures
        is_least_leaf(root@, edges.deep_view(), best.deep_view()),
{
    let ghost ev = edges.deep_view();
    let ghost start = root@;
    let n: usize = root.len();
    let mut best: Option<Vec<(u64, Vec<u32>)>> = None;
    let mut pending: Vec<Vec<u64>> = Vec::new();
    pending.push(root);
    assert(pending@[0]@ == start);
    while pending.len() > 0
        invariant
            ev == edges.deep_view(),
            n == start.len(),
            n <= 0x1_0000_0000,
            edges_within(ev, n as nat),
            is_incidence(inc.deep_view(), ev, n as nat),
            is_dense(start),
            forall|i: int| 0 <= i < pending.len() ==> is_pending((#[trigger] pending[i])@, n as nat),
            forall|i: int, out: Seq<(u64, Seq<u32>)>|
                0 <= i < pending.len() && #[trigger] has_leaf(pending[i]@, ev, out) ==> has_leaf(start, ev, out),
            best is Some ==> has_leaf(start, ev, best->0.deep_view()),
            forall|out: Seq<(u64, Seq<u32>)>| #[trigger]
                has_leaf(start, ev, out) ==> settled(best, out) || waiting(pending@, ev, out),
        decreases total_weight(pending@),
    {
        let ghost before_pop = pending@;
        let node = pending.pop().unwrap();
        let ghost rest = pending@;
        assert(rest =~= before_pop.drop_last());
        assert(node == before_pop.last());
        assert(is_pending(before_pop[before_pop.len() - 1]@, n as nat));
        proof {
            assert forall|out: Seq<(u64, Seq<u32>)>| #[trigger] waiting(before_pop, ev, out) implies waiting(rest, ev, out)
                || has_leaf(node@, ev, out) by {
                let i = choose|i: int| 0 <= i < before_pop.len() && #[trigger] has_leaf(before_pop[i]@, ev, out);
                if i < rest.len() {
                    assert(has_leaf(rest[i]@, ev, out));
                }
            }
            assert forall|out: Seq<(u64, Seq<u32>)>| #[trigger] has_leaf(node@, ev, out) implies has_leaf(start, ev, out) by {
                assert(has_leaf(before_pop[before_pop.len() - 1]@, ev, out));
            }
            assert forall|i: int, out: Seq<(u64, Seq<u32>)>|
                0 <= i < rest.len() && #[trigger] has_leaf(rest[i]@, ev, out) implies has_leaf(start, ev, out) by {
                assert(has_leaf(before_pop[i]@, ev, out));
            }
            assert forall|i: int| 0 <= i < rest.len() implies is_pending((#[trigger] rest[i])@, n as nat) by {
                assert(is_pending(before_pop[i]@, n as nat));
            }
        }
        match target_class(&node) {
            None => {
                let candidate = certificate_edges(&node, edges);
                proof {
                    lemma_leaf_discrete(node@, ev, candidate.deep_view());
                    lemma_weight_positive(node@);
                }
                let ghost old_best = best;
                let better: bool = match &best {
                    None => true,
                    Some(b) => candidate.is_before(b),
                };
                if better {
                    best = Some(candidate);
                }
                proof {
                    assert forall|out: Seq<(u64, Seq<u32>)>| #[trigger] has_leaf(start, ev, out) implies settled(best, out)
                        || waiting(pending@, ev, out) by {
                        lemma_settled(old_best, candidate, best, out);
                        lemma_leaf_discrete(node@, ev, out);
                    }
                }
            },
            Some(class) => {
                let reps = representatives(&class, edges, Ghost(n as nat));
                let mut k: usize = 0;
                proof {
                    node@.lemma_cardinality_of_set();
                }
                let ghost togo = (n - distinct(node@)) as nat;
                while k < reps.len()
                    invariant
                        k <= reps.len(),
                        ev == edges.deep_view(),
                        n == start.len(),
                        n == node.len(),
                        n <= 0x1_0000_0000,
                        edges_within(ev, n as nat),
                        is_incidence(inc.deep_view(), ev, n as nat),
                        is_dense(node@),
                        togo == n - distinct(node@),
                        forall|i: int| 0 <= i < reps.len() ==> in_target(node@, #[trigger] reps[i]),
                        k > 0 ==> togo >= 1,
                        pending.len() == rest.len() + k,
                        rest == pending@.take(rest.len() as int),
                        forall|i: int| 0 <= i < k ==> (#[trigger] pending[rest.len() + i])@ == child(node@, ev, reps[i]),
                        forall|i: int| 0 <= i < pending.len() ==> is_pending((#[trigger] pending[i])@, n as nat),
                        total_weight(pending@) <= total_weight(rest) + k * weight(n as nat, (togo - 1) as nat),
                    decreases reps.len() - k,
                {
                    let v: usize = reps[k];
                    assert(in_target(node@, reps[k as int]));
                    let mut apart: Vec<u64> = Vec::new();
                    let mut u: usize = 0;
                    while u < n
                        invariant
                            u <= n,
                            n == node.len(),
                            n <= 0x1_0000_0000,
                            is_dense(node@),
                            apart@ == individualized(node@, v).take(u as int),
                        decreases n - u,
                    {
                        assert(node@[u as int] < n);
                        if u == v {
                            apart.push(2 * node[u] + 1);
                        } else {
                            apart.push(2 * node[u]);
                        }
                        assert(apart@ =~= individualized(node@, v).take(u + 1));
                        u = u + 1;
                    }
                    assert(apart@ =~= individualized(node@, v));
                    let next = refine(apart, edges, inc);
                    let ghost before_push = pending@;
                    pending.push(next);
                    proof {
                        lemma_child(node@, ev, v);
                        assert(pending@.drop_last() =~= before_push);
                        let w = weight(n as nat, (togo - 1) as nat);
                        assert(weight_of(next@) <= w) by {
                            lemma_weight_monotone(
                                n as nat,
                                (n - distinct(next@)) as nat,
                                (togo - 1) as nat,
                            );
                        }
                        assert((k + 1) * w == k * w + w) by (nonlinear_arith);
                        assert(pending@.take(rest.len() as int) =~= rest);
                        assert forall|i: int| 0 <= i < k + 1 implies (#[trigger] pending[rest.len() + i])@ == child(
                            node@,
                            ev,
                            reps[i],
                        ) by {
                            if i < k {
                                assert(pending[rest.len() + i] == before_push[rest.len() + i]);
                            }
                        }
                        assert forall|i: int| 0 <= i < pending.len() implies is_pending((#[trigger] pending[i])@, n as nat) by {
                            if i < before_push.len() {
                                assert(is_pending(before_push[i]@, n as nat));
                            }
                        }
                    }
                    k = k + 1;
                }
                proof {
                    assert forall|i: int, out: Seq<(u64, Seq<u32>)>|
                        0 <= i < pending.len() && #[trigger] has_leaf(pending[i]@, ev, out) implies has_leaf(
                        start,
                        ev,
                        out,
                    ) by {
                        if i < rest.len() {
                            assert(pending@.take(rest.len() as int)[i] == rest[i]);
                            assert(has_leaf(rest[i]@, ev, out));
                        } else {
                            let r = reps[i - rest.len()];
                            assert(pending[rest.len() + (i - rest.len())]@ == child(node@, ev, r));
                            assert(has_leaf(child(node@, ev, r), ev, out));
                            lemma_leaf_step(node@, ev, out);
                        }
                    }
                    assert forall|out: Seq<(u64, Seq<u32>)>| #[trigger] has_leaf(start, ev, out) implies settled(best, out)
                        || waiting(pending@, ev, out) by {
                        if !settled(best, out) {
                            assert(waiting(before_pop, ev, out));
                            if waiting(rest, ev, out) {
                                let i = choose|i: int| 0 <= i < rest.len() && #[trigger] has_leaf(rest[i]@, ev, out);
                                assert(pending@.take(rest.len() as int)[i] == rest[i]);
                                assert(has_leaf(pending@[i]@, ev, out));
                            } else {
                                lemma_leaf_step(node@, ev, out);
                                let v = choose|v: usize|
                                    in_target(node@, v) && #[trigger] has_leaf(child(node@, ev, v), ev, out);
                                assert(class@.contains(v));
                                let ci = choose|ci: int| 0 <= ci < class.len() && class@[ci] == v;
                                assert(represented(ev, n as nat, reps@, class[ci]));
                                let q = choose|q: int|
                                    0 <= q < reps.len() && (#[trigger] reps@[q] == v || exchangeable(
                                        ev,
                                        n as nat,
                                        reps@[q],
                                        v,
                                    ));
                                let r = reps@[q];
                                assert(in_target(node@, reps[q]));
                                if r != v {
                                    assert(node@[r as int] == node@[v as int]);
                                    lemma_swap_leaves(node@, ev, r, v);
                                }
                                assert(has_leaf(child(node@, ev, r), ev, out));
                                assert(pending[rest.len() + q]@ == child(node@, ev, reps[q]));
                                assert(has_leaf(pending@[rest.len() + q]@, ev, out));
                            }
                        }
                    }
                    let w = weight(n as nat, (togo - 1) as nat);
                    assert(reps.len() * w <= n * w) by (nonlinear_arith)
                        requires
                            reps.len() <= n,
                    ;
                    if reps.len() > 0 {
                        assert(weight_of(node@) == 1 + n * w);
                    } else {
                        lemma_weight_positive(node@);
                        assert(reps.len() * w == 0) by (nonlinear_arith)
                            requires
                                reps.len() == 0,
                        ;
                    }
                }
            },
        }
    }
    proof {
        lemma_leaf_exists(start, ev);
        let out = choose|out: Seq<(u64, Seq<u32>)>| has_leaf(start, ev, out);
        assert(settled(best, out));
        assert forall|other: Seq<(u64, Seq<u32>)>| #[trigger] has_leaf(start, ev, other) implies !<Vec<
            (u64, Vec<u32>),
        > as Sortable>::before(other, best->0.deep_view()) by {
            assert(settled(best, other));
        }
    }
    best.unwrap()
}

/// A best leaf is known, and `out` does not come before it.
spec fn settled(best: Option<Vec<(u64, Vec<u32>)>>, out: Seq<(u64, Seq<u32>)>) -> bool {
    best is Some && !<Vec<(u64, Vec<u32>)> as Sortable>::before(out, best->0.deep_view())
}

/// `out` is a leaf below a pending colouring.
spec fn waiting(
    pending: Seq<Vec<u64>>,
    edges: Seq<(u64, Seq<usize>)>,
    out: Seq<(u64, Seq<u32>)>,
) -> bool {
    exists|i: int| 0 <= i < pending.len() && #[trigger] has_leaf(pending[i]@, edges, out)
}

proof fn lemma_weight_positive(colors: Seq<u64>)
    ensures
        weight_of(colors) >= 1,
{
}

/// Taking the smaller of two leaves settles what either settles.
proof fn lemma_settled(
    old_best: Option<Vec<(u64, Vec<u32>)>>,
    candidate: Vec<(u64, Vec<u32>)>,
    best: Option<Vec<(u64, Vec<u32>)>>,
    out: Seq<(u64, Seq<u32>)>,
)
    requires
        match old_best {
            None => best == Some(candidate),
            Some(b) => if <Vec<(u64, Vec<u32>)> as Sortable>::before(candidate.deep_view(), b.deep_view()) {
                best == Some(candidate)
            } else {
                best == old_best
            },
        },
    ensures
        settled(old_best, out) ==> settled(best, out),
        out == candidate.deep_view() ==> settled(best, out),
{
    let c = candidate.deep_view();
    <Vec<(u64, Vec<u32>)> as Sortable>::before_irreflexive(c);
    if settled(old_best, out) && best == Some(candidate) {
        let b = old_best->0.deep_view();
        if <Vec<(u64, Vec<u32>)> as Sortable>::before(out, c) {
            <Vec<(u64, Vec<u32>)> as Sortable>::before_transitive(out, c, b);
        }
    }
}

} // verus!
