//! What refinement ends in: a stable colouring.

use vstd::prelude::*;

use crate::canon::model::{
    edges_within, entry, entry_of, lemma_refined, lemma_round, places, refined, round, signature,
    splits, vertex_key, vertex_keys,
};
use crate::gather::{gather, lemma_gather_multiset};
use crate::order::{lemma_sorted_same_items, Sortable};
use crate::ranks::{distinct, lemma_rank_distinct, lemma_rank_order};

verus! {

/// The colours are exactly `0..k`, where `k` is the number of classes.
pub open spec fn is_exact(colors: Seq<u64>) -> bool {
    forall|c: u64| #[trigger] colors.contains(c) <==> c < distinct(colors)
}

/// Vertices of one colour have one signature.
pub open spec fn is_equitable(colors: Seq<u64>, edges: Seq<(u64, Seq<usize>)>) -> bool {
    forall|u: usize, v: usize|
        u < colors.len() && v < colors.len() && colors[u as int] == colors[v as int] ==> #[trigger] signature(
            u,
            colors,
            edges,
        ) == #[trigger] signature(v, colors, edges)
}

/// Every edge is short enough for memory.
pub open spec fn edges_fit(edges: Seq<(u64, Seq<usize>)>) -> bool {
    forall|i: int| 0 <= i < edges.len() ==> (#[trigger] edges[i]).1.len() <= usize::MAX
}

/// Refinement splits the classes of the given colouring and keeps their order;
/// it ends in dense ranks, in an equitable partition, and in one that refining
/// again leaves as it is.
pub proof fn refinement_ends_stable(colors: Seq<u64>, edges: Seq<(u64, Seq<usize>)>)
    requires
        colors.len() <= usize::MAX,
        edges_within(edges, colors.len()),
        edges_fit(edges),
    ensures
        splits(colors, refined(colors, edges)),
        is_exact(refined(colors, edges)),
        is_equitable(refined(colors, edges), edges),
        refined(refined(colors, edges), edges) == refined(colors, edges),
{
    lemma_refined(colors, edges);
    let last = lemma_last_round(colors, edges);
    let end = refined(colors, edges);
    lemma_round(last, edges);
    lemma_round_exact(last, edges);
    lemma_same_classes(last, edges);
    lemma_equitable(last, edges);
    lemma_fixed(end, edges);
}

/// The colouring before the last round, which added no class.
proof fn lemma_last_round(colors: Seq<u64>, edges: Seq<(u64, Seq<usize>)>) -> (last: Seq<u64>)
    requires
        colors.len() <= usize::MAX,
    ensures
        last.len() == colors.len(),
        refined(colors, edges) == round(last, edges),
        distinct(round(last, edges)) == distinct(last),
    decreases colors.len() - distinct(colors),
{
    let next = round(colors, edges);
    lemma_round(colors, edges);
    if distinct(next) <= distinct(colors) {
        colors
    } else {
        lemma_last_round(next, edges)
    }
}

/// A round gives dense ranks.
proof fn lemma_round_exact(colors: Seq<u64>, edges: Seq<(u64, Seq<usize>)>)
    requires
        colors.len() <= usize::MAX,
    ensures
        is_exact(round(colors, edges)),
{
    let keys = vertex_keys(colors, edges);
    let next = round(colors, edges);
    let k = distinct(next);
    lemma_rank_distinct::<Vec<Vec<u64>>>(keys);
    vstd::seq_lib::seq_to_set_is_finite(next);
    let f = |c: u64| c as int;
    let a = next.to_set();
    let b = a.map(f);
    vstd::set_lib::lemma_map_size(a, b, f);
    let range = vstd::set_lib::set_int_range(0, k as int);
    vstd::set_lib::lemma_int_range(0, k as int);
    assert forall|x: int| b.contains(x) implies range.contains(x) by {
        let c = choose|c: u64| a.contains(c) && f(c) == x;
        let v = choose|v: int| 0 <= v < next.len() && next[v] == c;
        lemma_rank_order::<Vec<Vec<u64>>>(keys, v, v);
    }
    vstd::set_lib::lemma_subset_equality(b, range);
    assert forall|c: u64| #[trigger] next.contains(c) <==> c < k by {
        if next.contains(c) {
            assert(a.contains(c));
            assert(b.contains(f(c)));
        }
        if c < k {
            assert(range.contains(c as int));
            assert(b.contains(c as int));
            let d = choose|d: u64| a.contains(d) && f(d) == c as int;
            assert(d == c);
        }
    }
}

/// A round that adds no class keeps the classes as they are.
proof fn lemma_same_classes(colors: Seq<u64>, edges: Seq<(u64, Seq<usize>)>)
    requires
        colors.len() <= usize::MAX,
        distinct(round(colors, edges)) == distinct(colors),
    ensures
        forall|u: int, v: int|
            0 <= u < colors.len() && 0 <= v < colors.len() ==> (#[trigger] colors[u] == #[trigger] colors[v] <==> round(
                colors,
                edges,
            )[u] == round(colors, edges)[v]),
{
    let next = round(colors, edges);
    lemma_round(colors, edges);
    assert forall|u: int, v: int| 0 <= u < colors.len() && 0 <= v < colors.len() implies (#[trigger] colors[u]
        == #[trigger] colors[v] <==> next[u] == next[v]) by {
        if colors[u] < colors[v] {
            assert(next[u] < next[v]);
        } else if colors[v] < colors[u] {
            assert(next[v] < next[u]);
        } else if next[u] != next[v] {
            lemma_fewer(colors, next, u, v);
        }
    }
}

/// Where one class of a coarser colouring holds two of a finer one, the
/// coarser has fewer classes.
proof fn lemma_fewer(coarse: Seq<u64>, fine: Seq<u64>, u: int, v: int)
    requires
        splits(coarse, fine),
        0 <= u < coarse.len(),
        0 <= v < coarse.len(),
        coarse[u] == coarse[v],
        fine[u] != fine[v],
    ensures
        distinct(coarse) < distinct(fine),
{
    let g = |c: u64| coarse[choose|w: int| 0 <= w < fine.len() && fine[w] == c];
    let a = fine.to_set();
    let rest = a.remove(fine[v]);
    vstd::seq_lib::seq_to_set_is_finite(fine);
    assert(a.contains(fine[v]));
    assert forall|w: int| 0 <= w < fine.len() implies #[trigger] g(fine[w]) == coarse[w] by {
        let x = choose|x: int| 0 <= x < fine.len() && fine[x] == fine[w];
        if coarse[x] < coarse[w] {
            assert(fine[x] < fine[w]);
        } else if coarse[w] < coarse[x] {
            assert(fine[w] < fine[x]);
        }
    }
    assert(rest.map(g) =~= coarse.to_set()) by {
        assert forall|c: u64| rest.map(g).contains(c) implies coarse.to_set().contains(c) by {
            let d = choose|d: u64| rest.contains(d) && g(d) == c;
            let w = choose|w: int| 0 <= w < fine.len() && fine[w] == d;
            assert(g(fine[w]) == coarse[w]);
        }
        assert forall|c: u64| coarse.to_set().contains(c) implies rest.map(g).contains(c) by {
            let w = choose|w: int| 0 <= w < coarse.len() && coarse[w] == c;
            let x = if fine[w] == fine[v] {
                u
            } else {
                w
            };
            assert(g(fine[w]) == coarse[w]);
            assert(g(fine[v]) == coarse[v]);
            assert(g(fine[x]) == c);
            assert(a.contains(fine[x]));
            assert(rest.contains(fine[x]));
        }
    }
    vstd::set_lib::lemma_map_size_bound(rest, coarse.to_set(), g);
}

/// A colour of the coarser colouring in the finer one.
spec fn recolored(old: Seq<u64>, new: Seq<u64>, c: u64) -> u64 {
    new[choose|w: int| 0 <= w < old.len() && old[w] == c]
}

/// An entry with its colours replaced: they stand behind the label and the
/// arity.
spec fn reentered(old: Seq<u64>, new: Seq<u64>) -> spec_fn(Seq<u64>) -> Option<Seq<u64>> {
    |x: Seq<u64>|
        Some(
            Seq::new(
                x.len(),
                |i: int|
                    if 2 <= i < 2 + x[1] {
                        recolored(old, new, x[i])
                    } else {
                        x[i]
                    },
            ),
        )
}

/// The signature over a renaming of the colours is the renamed signature.
proof fn lemma_reentered(old: Seq<u64>, new: Seq<u64>, edges: Seq<(u64, Seq<usize>)>, v: usize)
    requires
        new.len() == old.len(),
        edges_within(edges, old.len()),
        edges_fit(edges),
        forall|u: int, v: int|
            0 <= u < old.len() && 0 <= v < old.len() && #[trigger] old[u] == #[trigger] old[v] ==> new[u] == new[v],
    ensures
        gather(gather(edges, entry_of(old, v)), reentered(old, new)) == gather(edges, entry_of(new, v)),
    decreases edges.len(),
{
    if edges.len() > 0 {
        let rest = edges.drop_last();
        let e = edges.last();
        assert(edges_within(rest, old.len())) by {
            assert forall|i: int, j: int| 0 <= i < rest.len() && 0 <= j < rest[i].1.len() implies (#[trigger] rest[i].1[j])
                < old.len() by {
                assert(edges[i].1[j] < old.len());
            }
        }
        assert(edges_fit(rest)) by {
            assert forall|i: int| 0 <= i < rest.len() implies (#[trigger] rest[i]).1.len() <= usize::MAX by {
                assert(edges[i].1.len() <= usize::MAX);
            }
        }
        lemma_reentered(old, new, rest, v);
        if e.1.contains(v) {
            let x = entry(e, old, v);
            let y = entry(e, new, v);
            let z = reentered(old, new)(x)->0;
            let n = e.1.len();
            assert(edges[edges.len() - 1].1.len() <= usize::MAX);
            assert(x[1] == n);
            assert(x.len() == y.len());
            assert forall|i: int| 0 <= i < x.len() implies z[i] == y[i] by {
                if 2 <= i < 2 + n {
                    let w = edges[edges.len() - 1].1[i - 2] as int;
                    assert(w < old.len());
                    assert(x[i] == old[w]);
                    assert(y[i] == new[w]);
                    let t = choose|t: int| 0 <= t < old.len() && old[t] == x[i];
                    assert(old[t] == old[w]);
                } else if i >= 2 + n {
                    assert(x[i] == places(e.1, v)[i - 2 - n]);
                    assert(y[i] == places(e.1, v)[i - 2 - n]);
                }
            }
            assert(z =~= y);
            let before = gather(rest, entry_of(old, v));
            assert(gather(edges, entry_of(old, v)) == before.push(x));
            assert(before.push(x).drop_last() =~= before);
        }
    } else {
        assert(gather(edges, entry_of(old, v)).len() == 0);
    }
}

/// A round that adds no class ends in an equitable partition.
proof fn lemma_equitable(colors: Seq<u64>, edges: Seq<(u64, Seq<usize>)>)
    requires
        colors.len() <= usize::MAX,
        edges_within(edges, colors.len()),
        edges_fit(edges),
        distinct(round(colors, edges)) == distinct(colors),
    ensures
        is_equitable(round(colors, edges), edges),
{
    let next = round(colors, edges);
    let keys = vertex_keys(colors, edges);
    lemma_same_classes(colors, edges);
    assert forall|u: usize, v: usize|
        u < next.len() && v < next.len() && next[u as int] == next[v as int] implies #[trigger] signature(u, next, edges)
        == #[trigger] signature(v, next, edges) by {
        lemma_rank_order::<Vec<Vec<u64>>>(keys, u as int, v as int);
        let a = vertex_key(colors, edges, u);
        let b = vertex_key(colors, edges, v);
        assert(keys[u as int] == a && keys[v as int] == b);
        assert(a.skip(1) =~= signature(u, colors, edges));
        assert(b.skip(1) =~= signature(v, colors, edges));
        let eu = gather(edges, entry_of(colors, u));
        let ev = gather(edges, entry_of(colors, v));
        lemma_sorted_same_items::<Vec<u64>>(eu, ev);
        lemma_gather_multiset(eu, ev, reentered(colors, next));
        lemma_reentered(colors, next, edges, u);
        lemma_reentered(colors, next, edges, v);
        lemma_sorted_same_items::<Vec<u64>>(gather(edges, entry_of(next, u)), gather(edges, entry_of(next, v)));
    }
}

/// Two colourings by dense ranks that order the vertices alike are the same.
proof fn lemma_same_ranks(a: Seq<u64>, b: Seq<u64>, c: u64)
    requires
        a.len() == b.len(),
        is_exact(a),
        is_exact(b),
        forall|u: int, v: int|
            0 <= u < a.len() && 0 <= v < a.len() ==> (#[trigger] a[u] < #[trigger] a[v] <==> b[u] < b[v]),
    ensures
        forall|v: int| 0 <= v < a.len() && (#[trigger] a[v]) == c ==> b[v] == c,
    decreases c,
{
    assert forall|v: int| 0 <= v < a.len() && (#[trigger] a[v]) == c implies b[v] == c by {
        assert(a.contains(a[v]) && b.contains(b[v]));
        if b[v] < c {
            let d = b[v];
            assert(a.contains(d));
            let w = choose|w: int| 0 <= w < a.len() && a[w] == d;
            lemma_same_ranks(a, b, d);
            assert(a[w] < a[v]);
        } else if b[v] > c {
            assert(b.contains(c));
            let w = choose|w: int| 0 <= w < b.len() && b[w] == c;
            assert(b[w] < b[v]);
            assert(a[w] < a[v]);
            lemma_same_ranks(a, b, a[w]);
        }
    }
}

/// Refining an equitable colouring by dense ranks leaves it as it is.
proof fn lemma_fixed(colors: Seq<u64>, edges: Seq<(u64, Seq<usize>)>)
    requires
        colors.len() <= usize::MAX,
        is_exact(colors),
        is_equitable(colors, edges),
    ensures
        refined(colors, edges) == colors,
{
    let next = round(colors, edges);
    let keys = vertex_keys(colors, edges);
    lemma_round(colors, edges);
    lemma_round_exact(colors, edges);
    assert forall|u: int, v: int| 0 <= u < colors.len() && 0 <= v < colors.len() implies (#[trigger] colors[u]
        < #[trigger] colors[v] <==> next[u] < next[v]) by {
        if colors[u] < colors[v] {
            assert(next[u] < next[v]);
        } else if colors[v] < colors[u] {
            assert(next[v] < next[u]);
        } else {
            assert(signature(u as usize, colors, edges) == signature(v as usize, colors, edges));
            lemma_rank_order::<Vec<Vec<u64>>>(keys, u, v);
            assert(keys[u] =~= keys[v]);
        }
    }
    assert forall|v: int| 0 <= v < colors.len() implies colors[v] == next[v] by {
        lemma_same_ranks(colors, next, colors[v]);
    }
    assert(colors =~= next);
}

} // verus!
