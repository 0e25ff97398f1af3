//! Dense ranks: each key of a list is replaced by the number of distinct keys
//! that come before it.

use vstd::prelude::*;

use crate::order::{
    index_before, is_permutation, is_stable_order, lemma_stable_order_is_permutation, stable_order, Sortable,
};

verus! {

/// The distinct keys of the list that come before `x`.
pub open spec fn lower<K: Sortable>(
    keys: Seq<<K as DeepView>::V>,
    x: <K as DeepView>::V,
) -> Set<<K as DeepView>::V> {
    keys.to_set().filter(|y: <K as DeepView>::V| K::before(y, x))
}

/// The dense rank of each key of the list.
pub open spec fn ranks<K: Sortable>(keys: Seq<<K as DeepView>::V>) -> Seq<u64> {
    Seq::new(keys.len(), |v: int| lower::<K>(keys, keys[v]).len() as u64)
}

/// How many distinct values a list holds.
pub open spec fn distinct<A>(s: Seq<A>) -> nat {
    s.to_set().len()
}

pub proof fn lemma_lower<K: Sortable>(keys: Seq<<K as DeepView>::V>, x: <K as DeepView>::V)
    ensures
        lower::<K>(keys, x).finite(),
        lower::<K>(keys, x).len() <= distinct(keys),
        keys.contains(x) ==> lower::<K>(keys, x).len() < distinct(keys),
        distinct(keys) <= keys.len(),
{
    vstd::seq_lib::seq_to_set_is_finite(keys);
    keys.lemma_cardinality_of_set();
    let s = lower::<K>(keys, x);
    vstd::set_lib::lemma_len_subset(s, keys.to_set());
    if keys.contains(x) {
        K::before_irreflexive(x);
        assert(keys.to_set().contains(x));
        assert(s.subset_of(keys.to_set().remove(x)));
        vstd::set_lib::lemma_len_subset(s, keys.to_set().remove(x));
    }
}

/// Ranks compare as the keys do.
pub proof fn lemma_rank_order<K: Sortable>(keys: Seq<<K as DeepView>::V>, u: int, v: int)
    requires
        0 <= u < keys.len(),
        0 <= v < keys.len(),
        keys.len() <= u64::MAX,
    ensures
        ranks::<K>(keys)[u] == lower::<K>(keys, keys[u]).len(),
        ranks::<K>(keys)[u] < distinct(keys),
        (ranks::<K>(keys)[u] < ranks::<K>(keys)[v]) <==> K::before(keys[u], keys[v]),
        (ranks::<K>(keys)[u] == ranks::<K>(keys)[v]) <==> keys[u] == keys[v],
{
    lemma_lower::<K>(keys, keys[u]);
    lemma_lower::<K>(keys, keys[v]);
    assert(keys.contains(keys[u]));
    assert(keys.contains(keys[v]));
    lemma_lower_strict::<K>(keys, keys[u], keys[v]);
    lemma_lower_strict::<K>(keys, keys[v], keys[u]);
    K::before_total(keys[u], keys[v]);
    K::before_irreflexive(keys[u]);
}

proof fn lemma_lower_strict<K: Sortable>(
    keys: Seq<<K as DeepView>::V>,
    x: <K as DeepView>::V,
    y: <K as DeepView>::V,
)
    requires
        keys.contains(x),
    ensures
        K::before(x, y) ==> lower::<K>(keys, x).len() < lower::<K>(keys, y).len(),
{
    if K::before(x, y) {
        let a = lower::<K>(keys, x);
        let b = lower::<K>(keys, y);
        lemma_lower::<K>(keys, x);
        lemma_lower::<K>(keys, y);
        K::before_irreflexive(x);
        assert(b.contains(x));
        assert(a.subset_of(b.remove(x))) by {
            assert forall|z: <K as DeepView>::V| a.contains(z) implies b.remove(x).contains(z) by {
                K::before_transitive(z, x, y);
            }
        }
        vstd::set_lib::lemma_len_subset(a, b.remove(x));
    }
}

/// Ranking keeps the number of distinct values.
pub proof fn lemma_rank_distinct<K: Sortable>(keys: Seq<<K as DeepView>::V>)
    requires
        keys.len() <= u64::MAX,
    ensures
        distinct(ranks::<K>(keys)) == distinct(keys),
{
    let f = |x: <K as DeepView>::V| lower::<K>(keys, x).len() as u64;
    let a = keys.to_set();
    let r = ranks::<K>(keys);
    let b = r.to_set();
    vstd::seq_lib::seq_to_set_is_finite(keys);
    vstd::seq_lib::seq_to_set_is_finite(r);
    assert(vstd::relations::injective_on(f, a)) by {
        assert forall|x1: <K as DeepView>::V, x2: <K as DeepView>::V|
            a.contains(x1) && a.contains(x2) && #[trigger] f(x1) == #[trigger] f(x2) implies x1 == x2 by {
            let i = choose|i: int| 0 <= i < keys.len() && keys[i] == x1;
            let j = choose|j: int| 0 <= j < keys.len() && keys[j] == x2;
            lemma_rank_order::<K>(keys, i, j);
        }
    }
    assert(a.map(f) =~= b) by {
        assert forall|y: u64| a.map(f).contains(y) implies b.contains(y) by {
            let x = choose|x: <K as DeepView>::V| a.contains(x) && f(x) == y;
            let i = choose|i: int| 0 <= i < keys.len() && keys[i] == x;
            assert(r[i] == y);
        }
        assert forall|y: u64| b.contains(y) implies a.map(f).contains(y) by {
            let i = choose|i: int| 0 <= i < r.len() && r[i] == y;
            assert(a.contains(keys[i]));
            assert(f(keys[i]) == y);
        }
    }
    vstd::set_lib::lemma_map_size(a, b, f);
}

/// The dense ranks of `keys`, and the number of distinct keys.
pub fn rank_all<K: Sortable>(keys: &Vec<K>) -> (r: (Vec<u64>, u64))
    ensures
        r.0@ == ranks::<K>(keys.deep_view()),
        r.1 == distinct(keys.deep_view()),
{
    let ghost k = keys.deep_view();
    let n: usize = keys.len();
    let p = stable_order(keys);
    let mut out: Vec<u64> = Vec::new();
    let mut i: usize = 0;
    while i < n
        invariant
            i <= n,
            out.len() == i,
        decreases n - i,
    {
        out.push(0);
        i = i + 1;
    }
    if n == 0 {
        assert(out@ =~= ranks::<K>(k));
        assert(k.to_set() =~= Set::empty());
        return (out, 0);
    }
    let mut current: u64 = 0;
    proof {
        let x = k[p[0] as int];
        assert(lower::<K>(k, x) =~= Set::empty()) by {
            assert forall|y: <K as DeepView>::V| !lower::<K>(k, x).contains(y) by {
                if lower::<K>(k, x).contains(y) {
                    let j = choose|j: int| 0 <= j < k.len() && k[j] == y;
                    lemma_in_order::<K>(k, p@, j, 0);
                }
            }
        }
        lemma_stable_order_is_permutation::<K>(k, p@);
    }
    let first: usize = p[0];
    out.set(first, 0);
    let mut i: usize = 1;
    while i < n
        invariant
            1 <= i <= n,
            n == keys.len(),
            n == k.len(),
            k == keys.deep_view(),
            p.len() == n,
            out.len() == n,
            is_stable_order::<K>(k, p@),
            is_permutation(p@, n as nat),
            current == lower::<K>(k, k[p[i - 1] as int]).len(),
            current < i,
            forall|j: int| 0 <= j < i ==> out[#[trigger] p[j] as int] == lower::<K>(k, k[p[j] as int]).len(),
        decreases n - i,
    {
        let a: usize = p[i - 1];
        let b: usize = p[i];
        assert(index_before::<K>(k, a as int, b as int));
        if keys[a].is_before(&keys[b]) {
            proof {
                let la = lower::<K>(k, k[a as int]);
                let lb = lower::<K>(k, k[b as int]);
                lemma_lower::<K>(k, k[a as int]);
                K::before_irreflexive(k[a as int]);
                assert(lb =~= la.insert(k[a as int])) by {
                    assert forall|y: <K as DeepView>::V| lb.contains(y) implies la.insert(k[a as int]).contains(y) by {
                        let j = choose|j: int| 0 <= j < k.len() && k[j] == y;
                        lemma_between::<K>(k, p@, i as int, j);
                    }
                    assert forall|y: <K as DeepView>::V| la.insert(k[a as int]).contains(y) implies lb.contains(y) by {
                        if y != k[a as int] {
                            K::before_transitive(y, k[a as int], k[b as int]);
                        }
                    }
                }
            }
            current = current + 1;
        }
        let ghost before_out = out@;
        out.set(b, current);
        assert forall|j: int| 0 <= j < i + 1 implies out[#[trigger] p[j] as int] == lower::<K>(k, k[p[j] as int]).len() by {
            if j < i {
                assert(p[j] != p[i as int]);
            }
        }
        i = i + 1;
    }
    proof {
        let x = k[p[n - 1] as int];
        let lx = lower::<K>(k, x);
        lemma_lower::<K>(k, x);
        K::before_irreflexive(x);
        assert(k.to_set() =~= lx.insert(x)) by {
            assert forall|y: <K as DeepView>::V| k.to_set().contains(y) implies lx.insert(x).contains(y) by {
                let j = choose|j: int| 0 <= j < k.len() && k[j] == y;
                assert(p@.contains(j as usize));
                let q = choose|q: int| 0 <= q < p.len() && p[q] == j;
                if q < n - 1 {
                    assert(index_before::<K>(k, p[q] as int, p[n - 1] as int));
                }
            }
            assert(k.contains(x));
        }
        assert(out@ =~= ranks::<K>(k)) by {
            assert forall|v: int| 0 <= v < n implies out@[v] == ranks::<K>(k)[v] by {
                assert(p@.contains(v as usize));
                let q = choose|q: int| 0 <= q < p.len() && p[q] == v;
                assert(out[p[q] as int] == lower::<K>(k, k[p[q] as int]).len());
            }
        }
    }
    (out, current + 1)
}

/// No key comes before the key of the first index.
proof fn lemma_in_order<K: Sortable>(k: Seq<<K as DeepView>::V>, p: Seq<usize>, j: int, at: int)
    requires
        is_stable_order::<K>(k, p),
        0 <= j < k.len(),
        k.len() <= usize::MAX,
        at == 0,
    ensures
        !K::before(k[j], k[p[at] as int]),
{
    assert(p.contains(j as usize));
    let q = choose|q: int| 0 <= q < p.len() && p[q] == j;
    K::before_irreflexive(k[j]);
    if q > 0 {
        assert(index_before::<K>(k, p[0] as int, p[q] as int));
        if K::before(k[j], k[p[0] as int]) {
            if K::before(k[p[0] as int], k[j]) {
                K::before_transitive(k[j], k[p[0] as int], k[j]);
            }
        }
    }
}

/// A key before that of place `i` is at most that of place `i - 1`.
proof fn lemma_between<K: Sortable>(k: Seq<<K as DeepView>::V>, p: Seq<usize>, i: int, j: int)
    requires
        is_stable_order::<K>(k, p),
        1 <= i < k.len(),
        0 <= j < k.len(),
        k.len() <= usize::MAX,
        K::before(k[j], k[p[i] as int]),
    ensures
        k[j] == k[p[i - 1] as int] || K::before(k[j], k[p[i - 1] as int]),
{
    assert(p.contains(j as usize));
    let q = choose|q: int| 0 <= q < p.len() && p[q] == j;
    K::before_irreflexive(k[j]);
    if q < i - 1 {
        assert(index_before::<K>(k, p[q] as int, p[i - 1] as int));
    } else if q > i {
        assert(index_before::<K>(k, p[i] as int, p[q] as int));
        if K::before(k[p[i] as int], k[j]) {
            K::before_transitive(k[j], k[p[i] as int], k[j]);
        }
    }
}

} // verus!
