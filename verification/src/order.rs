//! Strict total orders on keys, and stable sorting by such keys.
//!
//! The order of integers and characters is the usual one; sequences and pairs
//! compare lexicographically. A string compares by its code points, which is
//! the order of its UTF-8 bytes.

use vstd::prelude::*;

verus! {

/// A type whose values are ordered by a strict total order on their deep view.
pub trait Sortable: DeepView + Sized {
    /// Does `a` come strictly before `b`?
    spec fn before(a: <Self as DeepView>::V, b: <Self as DeepView>::V) -> bool;

    proof fn before_irreflexive(a: <Self as DeepView>::V)
        ensures
            !Self::before(a, a),
    ;

    proof fn before_transitive(
        a: <Self as DeepView>::V,
        b: <Self as DeepView>::V,
        c: <Self as DeepView>::V,
    )
        requires
            Self::before(a, b),
            Self::before(b, c),
        ensures
            Self::before(a, c),
    ;

    proof fn before_total(a: <Self as DeepView>::V, b: <Self as DeepView>::V)
        ensures
            a == b || Self::before(a, b) || Self::before(b, a),
    ;

    fn is_before(&self, other: &Self) -> (r: bool)
        ensures
            r == Self::before(self.deep_view(), other.deep_view()),
    ;
}

impl Sortable for u64 {
    open spec fn before(a: u64, b: u64) -> bool {
        a < b
    }

    proof fn before_irreflexive(a: u64) {
    }

    proof fn before_transitive(a: u64, b: u64, c: u64) {
    }

    proof fn before_total(a: u64, b: u64) {
    }

    fn is_before(&self, other: &Self) -> (r: bool) {
        *self < *other
    }
}

impl Sortable for u32 {
    open spec fn before(a: u32, b: u32) -> bool {
        a < b
    }

    proof fn before_irreflexive(a: u32) {
    }

    proof fn before_transitive(a: u32, b: u32, c: u32) {
    }

    proof fn before_total(a: u32, b: u32) {
    }

    fn is_before(&self, other: &Self) -> (r: bool) {
        *self < *other
    }
}

impl Sortable for usize {
    open spec fn before(a: usize, b: usize) -> bool {
        a < b
    }

    proof fn before_irreflexive(a: usize) {
    }

    proof fn before_transitive(a: usize, b: usize, c: usize) {
    }

    proof fn before_total(a: usize, b: usize) {
    }

    fn is_before(&self, other: &Self) -> (r: bool) {
        *self < *other
    }
}

impl Sortable for i64 {
    open spec fn before(a: i64, b: i64) -> bool {
        a < b
    }

    proof fn before_irreflexive(a: i64) {
    }

    proof fn before_transitive(a: i64, b: i64, c: i64) {
    }

    proof fn before_total(a: i64, b: i64) {
    }

    fn is_before(&self, other: &Self) -> (r: bool) {
        *self < *other
    }
}

/// Lexicographic order: at the first place where the two differ, `a` has ended
/// or holds the smaller element.
pub open spec fn seq_before<T: Sortable>(
    a: Seq<<T as DeepView>::V>,
    b: Seq<<T as DeepView>::V>,
) -> bool {
    exists|k: int| #[trigger] seq_before_at::<T>(a, b, k)
}

/// `a` and `b` agree up to place `k`, and `k` shows that `a` comes first.
pub open spec fn seq_before_at<T: Sortable>(
    a: Seq<<T as DeepView>::V>,
    b: Seq<<T as DeepView>::V>,
    k: int,
) -> bool {
    &&& 0 <= k <= a.len()
    &&& k < b.len()
    &&& forall|j: int| 0 <= j < k ==> a[j] == b[j]
    &&& k == a.len() || T::before(a[k], b[k])
}

pub proof fn seq_before_irreflexive<T: Sortable>(a: Seq<<T as DeepView>::V>)
    ensures
        !seq_before::<T>(a, a),
{
    if seq_before::<T>(a, a) {
        let k = choose|k: int| #[trigger] seq_before_at::<T>(a, a, k);
        T::before_irreflexive(a[k]);
    }
}

pub proof fn seq_before_transitive<T: Sortable>(
    a: Seq<<T as DeepView>::V>,
    b: Seq<<T as DeepView>::V>,
    c: Seq<<T as DeepView>::V>,
)
    requires
        seq_before::<T>(a, b),
        seq_before::<T>(b, c),
    ensures
        seq_before::<T>(a, c),
{
    let k = choose|k: int| #[trigger] seq_before_at::<T>(a, b, k);
    let l = choose|l: int| #[trigger] seq_before_at::<T>(b, c, l);
    if k < l {
        assert(seq_before_at::<T>(a, c, k));
    } else if l < k {
        assert(seq_before_at::<T>(a, c, l));
    } else {
        if k != a.len() {
            T::before_transitive(a[k], b[k], c[k]);
        }
        assert(seq_before_at::<T>(a, c, k));
    }
}

pub proof fn seq_before_total<T: Sortable>(a: Seq<<T as DeepView>::V>, b: Seq<<T as DeepView>::V>)
    ensures
        a == b || seq_before::<T>(a, b) || seq_before::<T>(b, a),
    decreases a.len(),
{
    if a.len() == 0 {
        if b.len() == 0 {
            assert(a =~= b);
        } else {
            assert(seq_before_at::<T>(a, b, 0));
        }
    } else if b.len() == 0 {
        assert(seq_before_at::<T>(b, a, 0));
    } else if a.first() == b.first() {
        let a1 = a.drop_first();
        let b1 = b.drop_first();
        seq_before_total::<T>(a1, b1);
        if a1 == b1 {
            assert(a =~= seq![a.first()] + a1);
            assert(b =~= seq![b.first()] + b1);
        } else if seq_before::<T>(a1, b1) {
            let k = choose|k: int| #[trigger] seq_before_at::<T>(a1, b1, k);
            assert forall|j: int| 0 <= j < k + 1 implies a[j] == b[j] by {
                if j > 0 {
                    assert(a1[j - 1] == b1[j - 1]);
                }
            }
            assert(seq_before_at::<T>(a, b, k + 1));
        } else {
            let k = choose|k: int| #[trigger] seq_before_at::<T>(b1, a1, k);
            assert forall|j: int| 0 <= j < k + 1 implies a[j] == b[j] by {
                if j > 0 {
                    assert(a1[j - 1] == b1[j - 1]);
                }
            }
            assert(seq_before_at::<T>(b, a, k + 1));
        }
    } else {
        T::before_total(a.first(), b.first());
        if T::before(a.first(), b.first()) {
            assert(seq_before_at::<T>(a, b, 0));
        } else {
            assert(seq_before_at::<T>(b, a, 0));
        }
    }
}

impl<T: Sortable> Sortable for Vec<T> {
    open spec fn before(a: Seq<<T as DeepView>::V>, b: Seq<<T as DeepView>::V>) -> bool {
        seq_before::<T>(a, b)
    }

    proof fn before_irreflexive(a: Seq<<T as DeepView>::V>) {
        seq_before_irreflexive::<T>(a);
    }

    proof fn before_transitive(
        a: Seq<<T as DeepView>::V>,
        b: Seq<<T as DeepView>::V>,
        c: Seq<<T as DeepView>::V>,
    ) {
        seq_before_transitive::<T>(a, b, c);
    }

    proof fn before_total(a: Seq<<T as DeepView>::V>, b: Seq<<T as DeepView>::V>) {
        seq_before_total::<T>(a, b);
    }

    fn is_before(&self, other: &Self) -> (r: bool) {
        let ghost a = self.deep_view();
        let ghost b = other.deep_view();
        let mut i: usize = 0;
        while i < self.len() && i < other.len()
            invariant
                i <= self.len(),
                i <= other.len(),
                a == self.deep_view(),
                b == other.deep_view(),
                forall|j: int| 0 <= j < i ==> a[j] == b[j],
            decreases self.len() - i,
        {
            assert(a[i as int] == self[i as int].deep_view());
            assert(b[i as int] == other[i as int].deep_view());
            if self[i].is_before(&other[i]) {
                assert(seq_before_at::<T>(a, b, i as int));
                assert(<Vec<T> as Sortable>::before(a, b));
                return true;
            }
            if other[i].is_before(&self[i]) {
                proof {
                    lemma_after_at::<T>(a, b, i as int);
                }
                assert(!<Vec<T> as Sortable>::before(a, b));
                return false;
            }
            proof {
                T::before_total(a[i as int], b[i as int]);
            }
            i = i + 1;
        }
        if i < other.len() {
            assert(seq_before_at::<T>(a, b, i as int));
            assert(<Vec<T> as Sortable>::before(a, b));
            true
        } else {
            proof {
                if seq_before::<T>(a, b) {
                    let k = choose|k: int| #[trigger] seq_before_at::<T>(a, b, k);
                    T::before_irreflexive(a[k]);
                }
            }
            assert(!<Vec<T> as Sortable>::before(a, b));
            false
        }
    }
}

/// Where `b` holds the smaller element at the first difference, `a` does not
/// come before `b`.
proof fn lemma_after_at<T: Sortable>(
    a: Seq<<T as DeepView>::V>,
    b: Seq<<T as DeepView>::V>,
    i: int,
)
    requires
        0 <= i < a.len(),
        i < b.len(),
        forall|j: int| 0 <= j < i ==> a[j] == b[j],
        T::before(b[i], a[i]),
    ensures
        !seq_before::<T>(a, b),
{
    assert(seq_before_at::<T>(b, a, i));
    if seq_before::<T>(a, b) {
        seq_before_transitive::<T>(a, b, a);
        seq_before_irreflexive::<T>(a);
    }
}

impl Sortable for char {
    open spec fn before(a: char, b: char) -> bool {
        (a as u32) < (b as u32)
    }

    proof fn before_irreflexive(a: char) {
    }

    proof fn before_transitive(a: char, b: char, c: char) {
    }

    proof fn before_total(a: char, b: char) {
        vstd::utf8::char_u32_cast(a, a as u32);
        vstd::utf8::char_u32_cast(b, b as u32);
    }

    fn is_before(&self, other: &Self) -> (r: bool) {
        let a: char = *self;
        let b: char = *other;
        (a as u32) < (b as u32)
    }
}

impl<A: Sortable, B: Sortable> Sortable for (A, B) {
    open spec fn before(
        a: (<A as DeepView>::V, <B as DeepView>::V),
        b: (<A as DeepView>::V, <B as DeepView>::V),
    ) -> bool {
        A::before(a.0, b.0) || (a.0 == b.0 && B::before(a.1, b.1))
    }

    proof fn before_irreflexive(a: (<A as DeepView>::V, <B as DeepView>::V)) {
        A::before_irreflexive(a.0);
        B::before_irreflexive(a.1);
    }

    proof fn before_transitive(
        a: (<A as DeepView>::V, <B as DeepView>::V),
        b: (<A as DeepView>::V, <B as DeepView>::V),
        c: (<A as DeepView>::V, <B as DeepView>::V),
    ) {
        if A::before(a.0, b.0) {
            if A::before(b.0, c.0) {
                A::before_transitive(a.0, b.0, c.0);
            }
        } else if b.0 == c.0 {
            B::before_transitive(a.1, b.1, c.1);
        }
    }

    proof fn before_total(
        a: (<A as DeepView>::V, <B as DeepView>::V),
        b: (<A as DeepView>::V, <B as DeepView>::V),
    ) {
        A::before_total(a.0, b.0);
        B::before_total(a.1, b.1);
    }

    fn is_before(&self, other: &Self) -> (r: bool) {
        if self.0.is_before(&other.0) {
            return true;
        }
        if other.0.is_before(&self.0) {
            proof {
                if self.deep_view().0 == other.deep_view().0 {
                    A::before_irreflexive(self.deep_view().0);
                }
            }
            return false;
        }
        proof {
            A::before_total(self.deep_view().0, other.deep_view().0);
        }
        self.1.is_before(&other.1)
    }
}

/// Have two keys the same deep view?
pub fn same_key<T: Sortable>(a: &T, b: &T) -> (r: bool)
    ensures
        r == (a.deep_view() == b.deep_view()),
{
    proof {
        T::before_irreflexive(a.deep_view());
        T::before_total(a.deep_view(), b.deep_view());
    }
    !a.is_before(b) && !b.is_before(a)
}

// ---- stable order of indices -------------------------------------------------

/// Index `x` comes before index `y` in the stable order by `keys`.
pub open spec fn index_before<K: Sortable>(
    keys: Seq<<K as DeepView>::V>,
    x: int,
    y: int,
) -> bool {
    K::before(keys[x], keys[y]) || (keys[x] == keys[y] && x < y)
}

/// `p` lists every index of `keys` once, in the stable order by key.
pub open spec fn is_stable_order<K: Sortable>(
    keys: Seq<<K as DeepView>::V>,
    p: Seq<usize>,
) -> bool {
    &&& p.len() == keys.len()
    &&& is_stable_run::<K>(keys, p, 0, keys.len() as int)
}

/// `p` lists the indices `lo..hi`, each once, in the stable order by key.
pub open spec fn is_stable_run<K: Sortable>(
    keys: Seq<<K as DeepView>::V>,
    p: Seq<usize>,
    lo: int,
    hi: int,
) -> bool {
    &&& forall|i: int| 0 <= i < p.len() ==> lo <= #[trigger] p[i] < hi
    &&& forall|x: usize| lo <= x < hi ==> #[trigger] p.contains(x)
    &&& forall|i: int, j: int|
        0 <= i < j < p.len() ==> index_before::<K>(keys, #[trigger] p[i] as int, #[trigger] p[j] as int)
}

pub proof fn index_before_transitive<K: Sortable>(
    keys: Seq<<K as DeepView>::V>,
    x: int,
    y: int,
    z: int,
)
    requires
        index_before::<K>(keys, x, y),
        index_before::<K>(keys, y, z),
    ensures
        index_before::<K>(keys, x, z),
{
    if K::before(keys[x], keys[y]) && K::before(keys[y], keys[z]) {
        K::before_transitive(keys[x], keys[y], keys[z]);
    }
}

pub proof fn index_before_irreflexive<K: Sortable>(keys: Seq<<K as DeepView>::V>, x: int)
    ensures
        !index_before::<K>(keys, x, x),
{
    K::before_irreflexive(keys[x]);
}

/// The merge of two stable runs over adjacent ranges.
fn merge_runs<K: Sortable>(keys: &Vec<K>, a: &Vec<usize>, b: &Vec<usize>, Ghost(lo): Ghost<int>, Ghost(mid): Ghost<int>, Ghost(hi): Ghost<int>) -> (out: Vec<usize>)
    requires
        0 <= lo <= mid <= hi <= keys.len(),
        is_stable_run::<K>(keys.deep_view(), a@, lo, mid),
        is_stable_run::<K>(keys.deep_view(), b@, mid, hi),
        a.len() + b.len() <= usize::MAX,
    ensures
        is_stable_run::<K>(keys.deep_view(), out@, lo, hi),
        out.len() == a.len() + b.len(),
{
    let ghost k = keys.deep_view();
    let mut out: Vec<usize> = Vec::new();
    let mut i: usize = 0;
    let mut j: usize = 0;
    while i < a.len() || j < b.len()
        invariant
            0 <= lo <= mid <= hi <= keys.len(),
            k == keys.deep_view(),
            is_stable_run::<K>(k, a@, lo, mid),
            is_stable_run::<K>(k, b@, mid, hi),
            i <= a.len(),
            j <= b.len(),
            a.len() + b.len() <= usize::MAX,
            out.len() == i + j,
            forall|x: int| 0 <= x < out.len() ==> lo <= #[trigger] out[x] < hi,
            forall|x: int| 0 <= x < i ==> out@.contains(#[trigger] a[x]),
            forall|x: int| 0 <= x < j ==> out@.contains(#[trigger] b[x]),
            forall|x: int, y: int|
                0 <= x < y < out.len() ==> index_before::<K>(k, #[trigger] out[x] as int, #[trigger] out[y] as int),
            forall|x: int, y: int|
                0 <= x < out.len() && i <= y < a.len() ==> index_before::<K>(k, #[trigger] out[x] as int, #[trigger] a[y] as int),
            forall|x: int, y: int|
                0 <= x < out.len() && j <= y < b.len() ==> index_before::<K>(k, #[trigger] out[x] as int, #[trigger] b[y] as int),
        decreases a.len() - i + b.len() - j,
    {
        let take_left: bool = if i < a.len() && j < b.len() {
            !keys[b[j]].is_before(&keys[a[i]])
        } else {
            i < a.len()
        };
        let ghost old_out = out@;
        if take_left {
            let x: usize = a[i];
            proof {
                assert(lo <= a[i as int] < mid);
                if j < b.len() {
                    let y = b[j as int] as int;
                    assert(mid <= b[j as int] < hi);
                    K::before_total(k[x as int], k[y]);
                    assert(index_before::<K>(k, x as int, y));
                    assert forall|z: int| j <= z < b.len() implies index_before::<K>(k, x as int, #[trigger] b[z] as int) by {
                        if z > j {
                            index_before_transitive::<K>(k, x as int, y, b[z] as int);
                        }
                    }
                }
            }
            out.push(x);
            i = i + 1;
            assert(out@.last() == x);
        } else {
            let y: usize = b[j];
            proof {
                assert(mid <= b[j as int] < hi);
                if i < a.len() {
                    let x = a[i as int] as int;
                    assert(index_before::<K>(k, y as int, x));
                    assert forall|z: int| i <= z < a.len() implies index_before::<K>(k, y as int, #[trigger] a[z] as int) by {
                        if z > i {
                            index_before_transitive::<K>(k, y as int, x, a[z] as int);
                        }
                    }
                }
            }
            out.push(y);
            j = j + 1;
            assert(out@.last() == y);
        }
        assert(forall|z: usize| old_out.contains(z) ==> out@.contains(z)) by {
            assert forall|z: usize| old_out.contains(z) implies out@.contains(z) by {
                let w = choose|w: int| 0 <= w < old_out.len() && old_out[w] == z;
                assert(out@[w] == z);
            }
        }
    }
    assert forall|x: usize| lo <= x < hi implies #[trigger] out@.contains(x) by {
        if x < mid {
            assert(a@.contains(x));
        } else {
            assert(b@.contains(x));
        }
    }
    out
}

fn sort_run<K: Sortable>(keys: &Vec<K>, lo: usize, hi: usize) -> (p: Vec<usize>)
    requires
        lo <= hi <= keys.len(),
    ensures
        is_stable_run::<K>(keys.deep_view(), p@, lo as int, hi as int),
        p.len() == hi - lo,
    decreases hi - lo,
{
    if hi - lo == 0 {
        return Vec::new();
    }
    if hi - lo == 1 {
        let mut p: Vec<usize> = Vec::new();
        p.push(lo);
        assert(p@[0] == lo);
        return p;
    }
    let mid: usize = lo + (hi - lo) / 2;
    let a = sort_run(keys, lo, mid);
    let b = sort_run(keys, mid, hi);
    merge_runs(keys, &a, &b, Ghost(lo as int), Ghost(mid as int), Ghost(hi as int))
}

/// The indices of `keys` in the stable order by key.
pub fn stable_order<K: Sortable>(keys: &Vec<K>) -> (p: Vec<usize>)
    ensures
        is_stable_order::<K>(keys.deep_view(), p@),
{
    sort_run(keys, 0, keys.len())
}


// ---- permutations -------------------------------------------------------------

/// `p` lists each of `0..n` once.
pub open spec fn is_permutation(p: Seq<usize>, n: nat) -> bool {
    &&& p.len() == n
    &&& forall|i: int| 0 <= i < p.len() ==> 0 <= #[trigger] p[i] < n
    &&& forall|i: int, j: int| 0 <= i < j < p.len() ==> #[trigger] p[i] != #[trigger] p[j]
}

/// The items of `s` in the order that `p` lists them.
pub open spec fn permuted<A>(s: Seq<A>, p: Seq<usize>) -> Seq<A> {
    Seq::new(p.len(), |i: int| s[p[i] as int])
}

pub proof fn lemma_stable_order_is_permutation<K: Sortable>(
    keys: Seq<<K as DeepView>::V>,
    p: Seq<usize>,
)
    requires
        is_stable_order::<K>(keys, p),
    ensures
        is_permutation(p, keys.len()),
{
    assert forall|i: int, j: int| 0 <= i < j < p.len() implies #[trigger] p[i] != #[trigger] p[j] by {
        assert(index_before::<K>(keys, p[i] as int, p[j] as int));
        index_before_irreflexive::<K>(keys, p[i] as int);
    }
}

/// A permutation lists every index below its length.
pub proof fn lemma_permutation_covers(p: Seq<usize>, n: nat, x: usize)
    requires
        is_permutation(p, n),
        x < n,
    ensures
        p.contains(x),
    decreases n,
{
    let last = p.last();
    let q = p.drop_last();
    // Move the value n - 1 into the place that the last entry leaves.
    let m = (n - 1) as nat;
    let r = Seq::new(m, |i: int| if q[i] == m { last } else { q[i] });
    if p.last() != x {
        assert(is_permutation(r, m)) by {
            assert forall|i: int| 0 <= i < r.len() implies 0 <= #[trigger] r[i] < m by {
                assert(p[i] != p[n - 1]);
            }
            assert forall|i: int, j: int| 0 <= i < j < r.len() implies #[trigger] r[i] != #[trigger] r[j] by {
                assert(p[i] != p[j]);
                assert(p[i] != p[n - 1]);
                assert(p[j] != p[n - 1]);
            }
        }
        if x == m {
            // x is not last, so last < m and r holds it in the place where p holds m.
            lemma_permutation_covers(r, m, last);
            let i = choose|i: int| 0 <= i < r.len() && r[i] == last;
            assert(p[i] != p[n - 1]);
            assert(p[i] == x);
        } else {
            lemma_permutation_covers(r, m, x);
            let i = choose|i: int| 0 <= i < r.len() && r[i] == x;
            assert(p[i] == x);
        }
    } else {
        assert(p[n - 1] == x);
    }
}

/// Reordering keeps the multiset of items.
pub proof fn lemma_permuted_multiset<A>(s: Seq<A>, p: Seq<usize>)
    requires
        is_permutation(p, s.len()),
    ensures
        permuted(s, p).to_multiset() == s.to_multiset(),
    decreases s.len(),
{
    broadcast use vstd::seq_lib::group_to_multiset_ensures;

    if s.len() == 0 {
        assert(permuted(s, p) =~= s);
    } else {
        let n = s.len();
        let x = (n - 1) as usize;
        assert(x < n) by {
            assert(p[0] < n);
        }
        assert(x == n - 1) by {
            if exists|i: int| 0 <= i < p.len() && p[i] == n - 1 {
            } else {
                lemma_permutation_bound(p, n);
            }
        }
        lemma_permutation_covers(p, n, x);
        let i = choose|i: int| 0 <= i < p.len() && p[i] == x;
        let q = p.remove(i);
        assert(is_permutation(q, (n - 1) as nat)) by {
            assert forall|a: int| 0 <= a < q.len() implies 0 <= #[trigger] q[a] < n - 1 by {
                let b = if a < i { a } else { a + 1 };
                assert(q[a] == p[b]);
                assert(p[b] != p[i]);
            }
            assert forall|a: int, b: int| 0 <= a < b < q.len() implies #[trigger] q[a] != #[trigger] q[b] by {
                let a1 = if a < i { a } else { a + 1 };
                let b1 = if b < i { b } else { b + 1 };
                assert(p[a1] != p[b1]);
            }
        }
        lemma_permuted_multiset(s.drop_last(), q);
        let inner = permuted(s.drop_last(), q);
        assert(permuted(s, p) =~= inner.insert(i, s.last())) by {
            assert forall|a: int| 0 <= a < n implies permuted(s, p)[a] == inner.insert(i, s.last())[a] by {
                if a < i {
                    assert(q[a] == p[a]);
                } else if a > i {
                    assert(q[a - 1] == p[a]);
                }
            }
        }
        vstd::seq_lib::to_multiset_insert(inner, i, s.last());
        assert(s =~= s.drop_last().push(s.last()));
        vstd::seq_lib::to_multiset_build(s.drop_last(), s.last());
    }
}

/// A sequence of `n` distinct values below `n` of type `usize` shows that
/// `n - 1` is a `usize`.
proof fn lemma_permutation_bound(p: Seq<usize>, n: nat)
    requires
        is_permutation(p, n),
        n > 0,
    ensures
        n - 1 <= usize::MAX,
{
    let f = |i: int| p[i] as int;
    let dom = vstd::set_lib::set_int_range(0, n as int);
    let rng = vstd::set_lib::set_int_range(0, usize::MAX + 1);
    vstd::set_lib::lemma_int_range(0, n as int);
    vstd::set_lib::lemma_int_range(0, usize::MAX + 1);
    let img = dom.map(f);
    assert(vstd::relations::injective_on(f, dom)) by {
        assert forall|x1: int, x2: int| #![auto] dom.contains(x1) && dom.contains(x2) && f(x1) == f(x2) implies x1 == x2 by {
            if x1 < x2 {
                assert(p[x1] != p[x2]);
            } else if x2 < x1 {
                assert(p[x2] != p[x1]);
            }
        }
    }
    vstd::set_lib::lemma_map_size(dom, img, f);
    assert(img.subset_of(rng));
    vstd::set_lib::lemma_len_subset(img, rng);
}

// ---- sorted sequences ---------------------------------------------------------

/// The items of `s` in ascending order.
pub open spec fn sorted<T: Sortable>(s: Seq<<T as DeepView>::V>) -> Seq<<T as DeepView>::V> {
    s.sort_by(at_most::<T>())
}

/// "Not after", as a relation on keys.
pub open spec fn at_most<T: Sortable>() -> spec_fn(<T as DeepView>::V, <T as DeepView>::V) -> bool {
    |x: <T as DeepView>::V, y: <T as DeepView>::V| !T::before(y, x)
}

pub open spec fn is_ascending<T: Sortable>(s: Seq<<T as DeepView>::V>) -> bool {
    forall|i: int, j: int| 0 <= i < j < s.len() ==> !T::before(#[trigger] s[j], #[trigger] s[i])
}

proof fn lemma_at_most_is_total<T: Sortable>()
    ensures
        vstd::relations::total_ordering(at_most::<T>()),
{
    let r = at_most::<T>();
    assert forall|x: <T as DeepView>::V| #[trigger] r(x, x) by {
        T::before_irreflexive(x);
    }
    assert forall|x: <T as DeepView>::V, y: <T as DeepView>::V| #[trigger] r(x, y) && #[trigger] r(y, x) implies x == y by {
        T::before_total(x, y);
    }
    assert forall|x: <T as DeepView>::V, y: <T as DeepView>::V, z: <T as DeepView>::V|
        #[trigger] r(x, y) && #[trigger] r(y, z) implies r(x, z) by {
        if T::before(z, x) {
            T::before_total(x, y);
            if x != y {
                T::before_transitive(z, x, y);
            }
        }
    }
    assert forall|x: <T as DeepView>::V, y: <T as DeepView>::V| #[trigger] r(x, y) || #[trigger] r(y, x) by {
        if T::before(y, x) && T::before(x, y) {
            T::before_transitive(y, x, y);
            T::before_irreflexive(y);
        }
    }
}

/// `sorted(s)` is ascending and holds what `s` holds.
pub proof fn lemma_sorted<T: Sortable>(s: Seq<<T as DeepView>::V>)
    ensures
        is_ascending::<T>(sorted::<T>(s)),
        sorted::<T>(s).to_multiset() == s.to_multiset(),
        sorted::<T>(s).len() == s.len(),
{
    broadcast use vstd::seq_lib::group_to_multiset_ensures;

    lemma_at_most_is_total::<T>();
    s.lemma_sort_by_ensures(at_most::<T>());
    let r = sorted::<T>(s);
    assert(r.to_multiset().len() == s.to_multiset().len());
    assert forall|i: int, j: int| 0 <= i < j < r.len() implies !T::before(#[trigger] r[j], #[trigger] r[i]) by {
        assert(at_most::<T>()(r[i], r[j]));
    }
}

/// Two ascending sequences with the same items are equal.
pub proof fn lemma_ascending_unique<T: Sortable>(a: Seq<<T as DeepView>::V>, b: Seq<<T as DeepView>::V>)
    requires
        is_ascending::<T>(a),
        is_ascending::<T>(b),
        a.to_multiset() == b.to_multiset(),
    ensures
        a == b,
{
    lemma_at_most_is_total::<T>();
    let r = at_most::<T>();
    assert forall|i: int, j: int| 0 <= i < j < a.len() implies #[trigger] r(a[i], a[j]) by {
        assert(!T::before(a[j], a[i]));
    }
    assert forall|i: int, j: int| 0 <= i < j < b.len() implies #[trigger] r(b[i], b[j]) by {
        assert(!T::before(b[j], b[i]));
    }
    vstd::seq_lib::lemma_sorted_unique(a, b, r);
}

/// What sorts a sequence depends on its items alone.
pub proof fn lemma_sorted_same_items<T: Sortable>(a: Seq<<T as DeepView>::V>, b: Seq<<T as DeepView>::V>)
    ensures
        a.to_multiset() == b.to_multiset() <==> sorted::<T>(a) == sorted::<T>(b),
{
    lemma_sorted::<T>(a);
    lemma_sorted::<T>(b);
    if a.to_multiset() == b.to_multiset() {
        lemma_ascending_unique::<T>(sorted::<T>(a), sorted::<T>(b));
    }
}

/// Listing the keys in their stable order sorts them.
pub proof fn lemma_stable_order_sorts<K: Sortable>(keys: Seq<<K as DeepView>::V>, p: Seq<usize>)
    requires
        is_stable_order::<K>(keys, p),
    ensures
        permuted(keys, p) == sorted::<K>(keys),
{
    lemma_stable_order_is_permutation::<K>(keys, p);
    lemma_permuted_multiset(keys, p);
    lemma_sorted::<K>(keys);
    let r = permuted(keys, p);
    assert forall|i: int, j: int| 0 <= i < j < r.len() implies !K::before(#[trigger] r[j], #[trigger] r[i]) by {
        assert(index_before::<K>(keys, p[i] as int, p[j] as int));
        if K::before(r[j], r[i]) {
            if K::before(r[i], r[j]) {
                K::before_transitive(r[i], r[j], r[i]);
            }
            K::before_irreflexive(r[i]);
        }
    }
    lemma_ascending_unique::<K>(r, sorted::<K>(keys));
}

/// There is one stable order.
pub proof fn lemma_stable_order_unique<K: Sortable>(
    keys: Seq<<K as DeepView>::V>,
    p: Seq<usize>,
    q: Seq<usize>,
)
    requires
        is_stable_order::<K>(keys, p),
        is_stable_order::<K>(keys, q),
    ensures
        p == q,
{
    let n = keys.len() as int;
    assert forall|i: int| 0 <= i < n && (forall|j: int| 0 <= j < i ==> p[j] == q[j]) implies p[i] == q[i] by {
        assert(q.contains(p[i]));
        let a = choose|a: int| 0 <= a < q.len() && q[a] == p[i];
        assert(p.contains(q[i]));
        let b = choose|b: int| 0 <= b < p.len() && p[b] == q[i];
        lemma_stable_order_is_permutation::<K>(keys, p);
        lemma_stable_order_is_permutation::<K>(keys, q);
        if a < i {
            assert(p[a] == p[i]);
        }
        if b < i {
            assert(q[b] == q[i]);
        }
        if a > i && b > i {
            assert(index_before::<K>(keys, q[i] as int, q[a] as int));
            assert(index_before::<K>(keys, p[i] as int, p[b] as int));
            index_before_transitive::<K>(keys, p[i] as int, q[i] as int, p[i] as int);
            index_before_irreflexive::<K>(keys, p[i] as int);
        }
    }
    lemma_agree_step(p, q, n);
    assert(p =~= q);
}

proof fn lemma_agree_step(p: Seq<usize>, q: Seq<usize>, n: int)
    requires
        0 <= n,
        forall|i: int| #![trigger p[i]]
            0 <= i < n && (forall|j: int| 0 <= j < i ==> p[j] == q[j]) ==> p[i] == q[i],
    ensures
        forall|j: int| 0 <= j < n ==> p[j] == q[j],
    decreases n,
{
    if n > 0 {
        lemma_agree_step(p, q, n - 1);
        assert(p[n - 1] == q[n - 1]);
    }
}

/// Every list of keys has a stable order.
pub proof fn lemma_stable_order_exists<K: Sortable>(keys: Seq<<K as DeepView>::V>)
    requires
        keys.len() <= usize::MAX,
    ensures
        is_stable_order::<K>(keys, stable_indices::<K>(keys)),
    decreases keys.len(),
{
    let n = keys.len() as int;
    if n == 0 {
        assert(is_stable_order::<K>(keys, Seq::<usize>::empty()));
    } else {
        let rest = keys.drop_last();
        lemma_stable_order_exists::<K>(rest);
        let q = stable_indices::<K>(rest);
        let x = (n - 1) as usize;
        let at = lemma_insert_place::<K>(keys, q, q.len() as int);
        let p = q.insert(at, x);
        assert(is_stable_order::<K>(keys, p)) by {
            assert forall|i: int| 0 <= i < p.len() implies 0 <= #[trigger] p[i] < n by {
                if i < at {
                    assert(p[i] == q[i]);
                } else if i > at {
                    assert(p[i] == q[i - 1]);
                }
            }
            assert forall|y: usize| 0 <= y < n implies #[trigger] p.contains(y) by {
                if y == x {
                    assert(p[at] == x);
                } else {
                    assert(q.contains(y));
                    let k = choose|k: int| 0 <= k < q.len() && q[k] == y;
                    if k < at {
                        assert(p[k] == y);
                    } else {
                        assert(p[k + 1] == y);
                    }
                }
            }
            assert forall|i: int, j: int| 0 <= i < j < p.len() implies index_before::<K>(
                keys,
                #[trigger] p[i] as int,
                #[trigger] p[j] as int,
            ) by {
                let a = if i < at { i } else { i - 1 };
                let b = if j < at { j } else { j - 1 };
                if i != at && j != at {
                    assert(p[i] == q[a] && p[j] == q[b]);
                    assert(index_before::<K>(rest, q[a] as int, q[b] as int));
                    assert(keys[q[a] as int] == rest[q[a] as int]);
                    assert(keys[q[b] as int] == rest[q[b] as int]);
                } else if i == at {
                    assert(p[j] == q[b]);
                    assert(index_before::<K>(keys, x as int, q[b] as int));
                } else {
                    assert(p[i] == q[a]);
                    assert(index_before::<K>(keys, q[a] as int, x as int));
                }
            }
        }
    }
}

/// The place at which the last index belongs among the stable order of the others.
proof fn lemma_insert_place<K: Sortable>(keys: Seq<<K as DeepView>::V>, q: Seq<usize>, upto: int) -> (at: int)
    requires
        0 < keys.len() <= usize::MAX,
        is_stable_order::<K>(keys.drop_last(), q),
        0 <= upto <= q.len(),
        forall|i: int| upto <= i < q.len() ==> index_before::<K>(keys, keys.len() - 1, #[trigger] q[i] as int),
    ensures
        0 <= at <= q.len(),
        forall|i: int| 0 <= i < at ==> index_before::<K>(keys, #[trigger] q[i] as int, keys.len() - 1),
        forall|i: int| at <= i < q.len() ==> index_before::<K>(keys, keys.len() - 1, #[trigger] q[i] as int),
    decreases upto,
{
    let x = keys.len() - 1;
    if upto == 0 {
        0
    } else {
        let y = q[upto - 1] as int;
        assert(y < keys.len() - 1);
        K::before_total(keys[x], keys[y]);
        if K::before(keys[x], keys[y]) {
            lemma_insert_place::<K>(keys, q, upto - 1)
        } else {
            assert(index_before::<K>(keys, y, x));
            assert forall|i: int| 0 <= i < upto implies index_before::<K>(keys, #[trigger] q[i] as int, x) by {
                if i < upto - 1 {
                    assert(index_before::<K>(keys.drop_last(), q[i] as int, q[upto - 1] as int));
                    assert(q[i] < keys.len() - 1);
                    index_before_transitive::<K>(keys, q[i] as int, y, x);
                }
            }
            upto
        }
    }
}

/// The indices of `keys` in the stable order by key.
pub open spec fn stable_indices<K: Sortable>(keys: Seq<<K as DeepView>::V>) -> Seq<usize> {
    choose|p: Seq<usize>| is_stable_order::<K>(keys, p)
}

/// `items` sorted by `keys`, items with equal keys in their old order.
pub open spec fn stable_sort<K: Sortable, A>(keys: Seq<<K as DeepView>::V>, items: Seq<A>) -> Seq<A> {
    permuted(items, stable_indices::<K>(keys))
}

/// Sorts `keys` in ascending order.
pub fn sort_keys<K: Sortable>(keys: Vec<K>) -> (out: Vec<K>)
    ensures
        out.deep_view() == sorted::<K>(keys.deep_view()),
{
    let p = stable_order(&keys);
    let ghost k = keys.deep_view();
    let ghost items = keys@;
    proof {
        lemma_stable_order_sorts::<K>(k, p@);
        lemma_stable_order_is_permutation::<K>(k, p@);
    }
    let out = pick(keys, &p);
    assert(out.deep_view() =~= permuted(k, p@));
    out
}

/// `p` lists places below `n`, none twice.
pub open spec fn is_selection(p: Seq<usize>, n: nat) -> bool {
    &&& forall|i: int| 0 <= i < p.len() ==> 0 <= #[trigger] p[i] < n
    &&& forall|i: int, j: int| 0 <= i < j < p.len() ==> #[trigger] p[i] != #[trigger] p[j]
}

/// The items at the places that `p` lists, in that order.
fn pick<A>(items: Vec<A>, p: &Vec<usize>) -> (out: Vec<A>)
    requires
        is_selection(p@, items@.len()),
    ensures
        out@ == permuted(items@, p@),
{
    let ghost all = items@;
    let n: usize = items.len();
    let mut slots: Vec<Option<A>> = Vec::new();
    let mut rest = items;
    while rest.len() > 0
        invariant
            slots.len() + rest.len() == n,
            n == all.len(),
            rest@ == all.subrange(0, rest.len() as int),
            forall|i: int| 0 <= i < slots.len() ==> #[trigger] slots[i] == Some(all[n - 1 - i]),
        decreases rest.len(),
    {
        let item = rest.pop();
        slots.push(item);
    }
    let m: usize = p.len();
    let mut out: Vec<A> = Vec::new();
    let mut i: usize = 0;
    while i < m
        invariant
            i <= m,
            m == p.len(),
            n == all.len(),
            slots.len() == n,
            is_selection(p@, n as nat),
            out@ == permuted(all, p@).take(i as int),
            forall|x: int| 0 <= x < n && !p@.take(i as int).contains((n - 1 - x) as usize)
                ==> #[trigger] slots[x] == Some(all[n - 1 - x]),
        decreases m - i,
    {
        assert(p@[i as int] < n);
        let x: usize = n - 1 - p[i];
        assert(!p@.take(i as int).contains(p[i as int])) by {
            if p@.take(i as int).contains(p[i as int]) {
                let j = choose|j: int| 0 <= j < i && p@.take(i as int)[j] == p[i as int];
                assert(p[j] != p[i as int]);
            }
        }
        assert((n - 1 - x) as usize == p[i as int]);
        assert(slots[x as int] == Some(all[n - 1 - x]));
        let mut item: Option<A> = None;
        core::mem::swap(&mut item, &mut slots[x]);
        out.push(item.unwrap());
        assert forall|y: int| 0 <= y < n && !p@.take(i + 1).contains((n - 1 - y) as usize)
            implies #[trigger] slots[y] == Some(all[n - 1 - y]) by {
            if y == x {
                assert(p@.take(i + 1)[i as int] == p[i as int]);
            } else {
                if p@.take(i as int).contains((n - 1 - y) as usize) {
                    let j = choose|j: int| 0 <= j < i && p@.take(i as int)[j] == (n - 1 - y) as usize;
                    assert(p@.take(i + 1)[j] == (n - 1 - y) as usize);
                }
            }
        }
        i = i + 1;
        assert(out@ =~= permuted(all, p@).take(i as int));
    }
    assert(permuted(all, p@).take(m as int) =~= permuted(all, p@));
    out
}

/// `r` holds what `s` holds, each value once, in ascending order.
pub open spec fn is_distinct_sorted<K: Sortable>(
    s: Seq<<K as DeepView>::V>,
    r: Seq<<K as DeepView>::V>,
) -> bool {
    &&& forall|i: int, j: int| 0 <= i < j < r.len() ==> K::before(#[trigger] r[i], #[trigger] r[j])
    &&& forall|x: <K as DeepView>::V| #[trigger] r.contains(x) <==> s.contains(x)
}

/// What is sorted and distinct holds no value twice, and what was given.
pub proof fn lemma_distinct_sorted<K: Sortable>(s: Seq<<K as DeepView>::V>, r: Seq<<K as DeepView>::V>)
    requires
        is_distinct_sorted::<K>(s, r),
    ensures
        forall|i: int, j: int| 0 <= i < j < r.len() ==> #[trigger] r[i] != #[trigger] r[j],
        forall|x: <K as DeepView>::V| #[trigger] r.contains(x) <==> s.contains(x),
        Seq::<<K as DeepView>::V>::empty().len() == 0,
{
    assert forall|i: int, j: int| 0 <= i < j < r.len() implies #[trigger] r[i] != #[trigger] r[j] by {
        K::before_irreflexive(r[i]);
        assert(K::before(r[i], r[j]));
    }
}

/// The place `j` of a stable order comes next after the one before it.
spec fn steps_up<K: Sortable>(keys: Seq<<K as DeepView>::V>, p: Seq<usize>, j: int) -> bool {
    K::before(keys[p[j - 1] as int], keys[p[j] as int]) || keys[p[j - 1] as int] == keys[p[j] as int]
}

/// One of the places holds the key.
spec fn holds_key<V>(keys: Seq<V>, places: Seq<usize>, key: V) -> bool {
    exists|a: int| 0 <= a < places.len() && keys[#[trigger] places[a] as int] == key
}

/// The keys at these places ascend strictly.
spec fn ascends<K: Sortable>(keys: Seq<<K as DeepView>::V>, places: Seq<usize>) -> bool {
    forall|a: int, b: int| 0 <= a < b < places.len() ==> K::before(
        keys[#[trigger] places[a] as int],
        keys[#[trigger] places[b] as int],
    )
}

proof fn lemma_ascends_push<K: Sortable>(keys: Seq<<K as DeepView>::V>, places: Seq<usize>, at: usize)
    requires
        ascends::<K>(keys, places),
        places.len() > 0 ==> K::before(keys[places.last() as int], keys[at as int]),
    ensures
        ascends::<K>(keys, places.push(at)),
{
    let next = places.push(at);
    assert forall|a: int, b: int| 0 <= a < b < next.len() implies K::before(
        keys[#[trigger] next[a] as int],
        keys[#[trigger] next[b] as int],
    ) by {
        if b == places.len() {
            let l = places.len() - 1;
            if a < l {
                assert(K::before(keys[places[a] as int], keys[places[l] as int]));
                K::before_transitive(keys[places[a] as int], keys[places[l] as int], keys[at as int]);
            }
        } else {
            assert(next[a] == places[a] && next[b] == places[b]);
        }
    }
}

proof fn lemma_holds_key_push<V>(keys: Seq<V>, places: Seq<usize>, at: usize, key: V)
    requires
        holds_key(keys, places, key) || keys[at as int] == key,
    ensures
        holds_key(keys, places.push(at), key),
{
    let next = places.push(at);
    if holds_key(keys, places, key) {
        let a = choose|a: int| 0 <= a < places.len() && keys[#[trigger] places[a] as int] == key;
        assert(next[a] == places[a]);
    } else {
        assert(next[places.len() as int] == at);
    }
}

/// The places, in a stable order, at which a new key begins.
fn first_places<K: Sortable>(keys: &Vec<K>, p: &Vec<usize>) -> (firsts: Vec<usize>)
    requires
        is_stable_order::<K>(keys.deep_view(), p@),
        is_permutation(p@, keys@.len()),
    ensures
        ascends::<K>(keys.deep_view(), firsts@),
        firsts.len() <= keys.len(),
        forall|a: int| 0 <= a < firsts.len() ==> #[trigger] firsts@[a] < keys.len(),
        forall|j: int| 0 <= j < p.len() ==> holds_key(keys.deep_view(), firsts@, keys.deep_view()[#[trigger] p@[j] as int]),
{
    let ghost k = keys.deep_view();
    let n: usize = keys.len();
    proof {
        assert forall|j: int| 0 < j < n implies #[trigger] steps_up::<K>(k, p@, j) by {
            assert(index_before::<K>(k, p@[j - 1] as int, p@[j] as int));
        }
    }
    let mut firsts: Vec<usize> = Vec::new();
    let mut i: usize = 0;
    while i < n
        invariant
            i <= n,
            n == keys.len(),
            n == p.len(),
            k == keys.deep_view(),
            forall|j: int| 0 < j < n ==> #[trigger] steps_up::<K>(k, p@, j),
            forall|j: int| 0 <= j < n ==> #[trigger] p@[j] < n,
            firsts.len() <= i,
            i > 0 ==> firsts.len() > 0 && k[firsts@.last() as int] == k[p@[i - 1] as int],
            ascends::<K>(k, firsts@),
            forall|a: int| 0 <= a < firsts.len() ==> #[trigger] firsts@[a] < n,
            forall|j: int| 0 <= j < i ==> holds_key(k, firsts@, k[#[trigger] p@[j] as int]),
        decreases n - i,
    {
        let ghost before = firsts@;
        let at: usize = p[i];
        assert(p@[i as int] < n);
        let new: bool = if i == 0 {
            true
        } else {
            assert(p@[i - 1] < n);
            let prev: usize = p[i - 1];
            assert(steps_up::<K>(k, p@, i as int));
            keys[prev].is_before(&keys[at])
        };
        if new {
            proof {
                lemma_ascends_push::<K>(k, before, at);
            }
            firsts.push(at);
            assert forall|j: int| 0 <= j < i + 1 implies holds_key(k, firsts@, k[#[trigger] p@[j] as int]) by {
                lemma_holds_key_push(k, before, at, k[p@[j] as int]);
            }
        } else {
            assert(k[before.last() as int] == k[at as int]);
            assert forall|j: int| 0 <= j < i + 1 implies holds_key(k, firsts@, k[#[trigger] p@[j] as int]) by {
                if j == i {
                    assert(before[before.len() - 1] == before.last());
                }
            }
        }
        i = i + 1;
    }
    firsts
}

/// The distinct keys, in ascending order.
pub fn sort_distinct<K: Sortable>(keys: Vec<K>) -> (out: Vec<K>)
    ensures
        is_distinct_sorted::<K>(keys.deep_view(), out.deep_view()),
        out.len() <= keys.len(),
{
    let ghost k = keys.deep_view();
    let p = stable_order(&keys);
    proof {
        lemma_stable_order_is_permutation::<K>(k, p@);
    }
    let firsts = first_places(&keys, &p);
    proof {
        assert forall|a: int, b: int| 0 <= a < b < firsts@.len() implies #[trigger] firsts@[a] != #[trigger] firsts@[b] by {
            K::before_irreflexive(k[firsts@[a] as int]);
            assert(K::before(k[firsts@[a] as int], k[firsts@[b] as int]));
        }
    }
    let out = pick(keys, &firsts);
    proof {
        let r = out.deep_view();
        assert(r =~= permuted(k, firsts@));
        assert forall|x: <K as DeepView>::V| #[trigger] r.contains(x) <==> k.contains(x) by {
            if r.contains(x) {
                let a = choose|a: int| 0 <= a < r.len() && r[a] == x;
                assert(firsts@[a] < k.len());
                assert(k[firsts@[a] as int] == x);
            }
            if k.contains(x) {
                let v = choose|v: int| 0 <= v < k.len() && k[v] == x;
                assert(p@.contains(v as usize));
                let j = choose|j: int| 0 <= j < p.len() && p@[j] == v as usize;
                assert(holds_key(k, firsts@, k[p@[j] as int]));
                let a = choose|a: int| 0 <= a < firsts@.len() && k[#[trigger] firsts@[a] as int] == x;
                assert(r[a] == x);
            }
        }
        assert forall|a: int, b: int| 0 <= a < b < r.len() implies K::before(#[trigger] r[a], #[trigger] r[b]) by {
            assert(K::before(k[firsts@[a] as int], k[firsts@[b] as int]));
        }
    }
    out
}

/// Sorts `items` by `keys`, keeping the order of items with equal keys.
pub fn sort_items<K: Sortable, A>(keys: &Vec<K>, items: Vec<A>) -> (out: Vec<A>)
    requires
        keys.len() == items.len(),
    ensures
        out@ == stable_sort::<K, A>(keys.deep_view(), items@),
{
    let p = stable_order(keys);
    proof {
        lemma_stable_order_is_permutation::<K>(keys.deep_view(), p@);
        lemma_stable_order_unique::<K>(keys.deep_view(), p@, stable_indices::<K>(keys.deep_view()));
    }
    pick(items, &p)
}

/// Sorts `items` by `keys`, items with equal keys in their old order.
pub fn sort_by_keys<K: Sortable, T: DeepView>(keys: &Vec<K>, items: Vec<T>) -> (out: Vec<T>)
    requires
        keys.len() == items.len(),
    ensures
        out.deep_view() == stable_sort::<K, T::V>(keys.deep_view(), items.deep_view()),
{
    let ghost given = items@;
    let ghost seen = items.deep_view();
    let out = sort_items(keys, items);
    proof {
        let k = keys.deep_view();
        lemma_stable_order_exists::<K>(k);
        let p = stable_indices::<K>(k);
        lemma_stable_order_is_permutation::<K>(k, p);
        assert forall|x: int| 0 <= x < p.len() implies (#[trigger] out@[x]).deep_view() == seen[p[x] as int] by {
            assert(out@[x] == given[p[x] as int]);
        }
        assert(out.deep_view() =~= stable_sort::<K, T::V>(k, seen));
    }
    out
}

} // verus!
