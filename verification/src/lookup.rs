//! Finding the places of a key in a list.

use vstd::prelude::*;

use crate::gather::gather;
use crate::order::{index_before, is_stable_order, same_key, stable_order, Sortable};

verus! {

/// The places at which `x` stands in `s`, ascending.
pub open spec fn places_of<A>(s: Seq<A>, x: A) -> Seq<usize>
    decreases s.len(),
{
    if s.len() == 0 {
        Seq::empty()
    } else {
        let rest = places_of(s.drop_last(), x);
        if s.last() == x {
            rest.push((s.len() - 1) as usize)
        } else {
            rest
        }
    }
}

pub open spec fn is_increasing(q: Seq<usize>) -> bool {
    forall|i: int, j: int| 0 <= i < j < q.len() ==> #[trigger] q[i] < #[trigger] q[j]
}

/// The places of `x` are those that hold it, in ascending order.
pub proof fn lemma_places_of<A>(s: Seq<A>, x: A)
    requires
        s.len() <= usize::MAX,
    ensures
        is_increasing(places_of(s, x)),
        forall|i: int| 0 <= i < places_of(s, x).len() ==> (#[trigger] places_of(s, x)[i]) < s.len()
            && s[places_of(s, x)[i] as int] == x,
        forall|k: int| 0 <= k < s.len() && #[trigger] s[k] == x ==> places_of(s, x).contains(k as usize),
    decreases s.len(),
{
    let q = places_of(s, x);
    if s.len() > 0 {
        let s1 = s.drop_last();
        let q1 = places_of(s1, x);
        lemma_places_of(s1, x);
        assert forall|i: int| 0 <= i < q.len() implies (#[trigger] q[i]) < s.len() && s[q[i] as int] == x by {
            if i < q1.len() {
                assert(q[i] == q1[i]);
                assert(s1[q1[i] as int] == x);
            }
        }
        assert forall|k: int| 0 <= k < s.len() && #[trigger] s[k] == x implies q.contains(k as usize) by {
            if k < s1.len() {
                assert(s1[k] == x);
                assert(q1.contains(k as usize));
                let i = choose|i: int| 0 <= i < q1.len() && q1[i] == k as usize;
                assert(q[i] == k as usize);
            } else {
                assert(q[q.len() - 1] == k as usize);
            }
        }
        assert forall|i: int, j: int| 0 <= i < j < q.len() implies #[trigger] q[i] < #[trigger] q[j] by {
            assert(q[i] == q1[i]);
            if j < q1.len() {
                assert(q[j] == q1[j]);
            } else {
                assert(q1[i] < s1.len());
            }
        }
    }
}

/// Two ascending lists with the same members are equal.
pub proof fn lemma_increasing_unique(a: Seq<usize>, b: Seq<usize>)
    requires
        is_increasing(a),
        is_increasing(b),
        forall|x: usize| #[trigger] a.contains(x) <==> b.contains(x),
    ensures
        a == b,
    decreases a.len(),
{
    if a.len() == 0 {
        if b.len() > 0 {
            assert(b.contains(b[0]));
            assert(a.contains(b[0]));
        }
        assert(a =~= b);
    } else {
        assert(a.contains(a.last()));
        assert(b.contains(a.last()));
        assert(b.contains(b.last()));
        assert(a.contains(b.last()));
        let i = choose|i: int| 0 <= i < a.len() && a[i] == b.last();
        let j = choose|j: int| 0 <= j < b.len() && b[j] == a.last();
        assert(a.last() == b.last());
        let a1 = a.drop_last();
        let b1 = b.drop_last();
        assert forall|x: usize| #[trigger] a1.contains(x) <==> b1.contains(x) by {
            if a1.contains(x) {
                let k = choose|k: int| 0 <= k < a1.len() && a1[k] == x;
                assert(a[k] == x);
                assert(a.contains(x));
                assert(b.contains(x));
                let m = choose|m: int| 0 <= m < b.len() && b[m] == x;
                assert(a[k] < a[a.len() - 1]);
                assert(b1[m] == x);
            }
            if b1.contains(x) {
                let k = choose|k: int| 0 <= k < b1.len() && b1[k] == x;
                assert(b[k] == x);
                assert(b.contains(x));
                assert(a.contains(x));
                let m = choose|m: int| 0 <= m < a.len() && a[m] == x;
                assert(b[k] < b[b.len() - 1]);
                assert(a1[m] == x);
            }
        }
        assert forall|p: int, q: int| 0 <= p < q < a1.len() implies #[trigger] a1[p] < #[trigger] a1[q] by {
            assert(a[p] < a[q]);
        }
        assert forall|p: int, q: int| 0 <= p < q < b1.len() implies #[trigger] b1[p] < #[trigger] b1[q] by {
            assert(b[p] < b[q]);
        }
        lemma_increasing_unique(a1, b1);
        assert(a =~= a1.push(a.last()));
        assert(b =~= b1.push(b.last()));
    }
}

/// Selecting items by a property selects those at the places where it holds.
pub proof fn lemma_gather_places<A, B>(s: Seq<A>, tags: Seq<B>, x: B, f: spec_fn(A) -> Option<A>)
    requires
        s.len() <= usize::MAX,
        tags.len() == s.len(),
        forall|i: int| 0 <= i < s.len() ==> f(#[trigger] s[i]) == (if tags[i] == x {
            Some(s[i])
        } else {
            None
        }),
    ensures
        gather(s, f) == Seq::new(places_of(tags, x).len(), |j: int| s[places_of(tags, x)[j] as int]),
    decreases s.len(),
{
    let q = places_of(tags, x);
    let want = Seq::new(q.len(), |j: int| s[q[j] as int]);
    if s.len() > 0 {
        let s1 = s.drop_last();
        let t1 = tags.drop_last();
        assert forall|i: int| 0 <= i < s1.len() implies f(#[trigger] s1[i]) == (if t1[i] == x {
            Some(s1[i])
        } else {
            None
        }) by {
            assert(s1[i] == s[i]);
        }
        lemma_gather_places(s1, t1, x, f);
        lemma_places_of(t1, x);
        let q1 = places_of(t1, x);
        assert(f(s[s.len() - 1]) == (if tags[s.len() - 1] == x {
            Some(s[s.len() - 1])
        } else {
            None
        }));
        assert(gather(s, f) =~= want) by {
            assert forall|j: int| 0 <= j < q1.len() implies s1[q1[j] as int] == s[q[j] as int] by {
                assert(q1[j] < s1.len());
                assert(q[j] == q1[j]);
            }
        }
    } else {
        assert(gather(s, f) =~= want);
    }
}

/// A list of keys with the order that finds them.
pub struct SortedIndex<K> {
    keys: Vec<K>,
    order: Vec<usize>,
}

impl<K: Sortable> SortedIndex<K> {
    /// The keys, in the order they were given.
    pub closed spec fn keys(&self) -> Seq<<K as DeepView>::V> {
        self.keys.deep_view()
    }

    pub closed spec fn wf(&self) -> bool {
        is_stable_order::<K>(self.keys.deep_view(), self.order@)
    }

    pub fn build(keys: Vec<K>) -> (r: Self)
        ensures
            r.wf(),
            r.keys() == keys.deep_view(),
    {
        let order = stable_order(&keys);
        SortedIndex { keys, order }
    }

    /// The places of a key, ascending.
    pub fn places(&self, key: &K) -> (r: Vec<usize>)
        requires
            self.wf(),
        ensures
            r@ == places_of(self.keys(), key.deep_view()),
            self.keys().len() <= usize::MAX,
    {
        let ghost k = self.keys.deep_view();
        let ghost x = key.deep_view();
        let n: usize = self.order.len();
        // The first place in the order whose key does not come before the wanted one.
        let mut lo: usize = 0;
        let mut hi: usize = n;
        while lo < hi
            invariant
                lo <= hi <= n,
                n == self.order.len(),
                n == self.keys.len(),
                k == self.keys.deep_view(),
                x == key.deep_view(),
                is_stable_order::<K>(k, self.order@),
                forall|i: int| 0 <= i < lo ==> K::before(k[#[trigger] self.order@[i] as int], x),
                forall|i: int| hi <= i < n ==> !K::before(k[#[trigger] self.order@[i] as int], x),
            decreases hi - lo,
        {
            let mid: usize = lo + (hi - lo) / 2;
            let at: usize = self.order[mid];
            assert(self.order@[mid as int] < n);
            if self.keys[at].is_before(key) {
                assert forall|i: int| 0 <= i < mid + 1 implies K::before(k[#[trigger] self.order@[i] as int], x) by {
                    if lo <= i && i < mid {
                        assert(index_before::<K>(k, self.order@[i] as int, self.order@[mid as int] as int));
                        if K::before(k[self.order@[i] as int], k[at as int]) {
                            K::before_transitive(k[self.order@[i] as int], k[at as int], x);
                        }
                    }
                }
                lo = mid + 1;
            } else {
                assert forall|i: int| mid <= i < n implies !K::before(k[#[trigger] self.order@[i] as int], x) by {
                    if mid < i && i < hi {
                        assert(index_before::<K>(k, self.order@[mid as int] as int, self.order@[i] as int));
                        if K::before(k[self.order@[i] as int], x) {
                            if K::before(k[at as int], k[self.order@[i] as int]) {
                                K::before_transitive(k[at as int], k[self.order@[i] as int], x);
                            }
                        }
                    }
                }
                hi = mid;
            }
        }
        let mut out: Vec<usize> = Vec::new();
        let mut i: usize = lo;
        while i < n && same_key(&self.keys[self.order[i]], key)
            invariant
                lo <= i <= n,
                n == self.order.len(),
                n == self.keys.len(),
                k == self.keys.deep_view(),
                x == key.deep_view(),
                is_stable_order::<K>(k, self.order@),
                out@ == self.order@.subrange(lo as int, i as int),
                forall|j: int| lo <= j < i ==> k[#[trigger] self.order@[j] as int] == x,
            decreases n - i,
        {
            out.push(self.order[i]);
            i = i + 1;
            assert(out@ =~= self.order@.subrange(lo as int, i as int));
        }
        proof {
            let o = self.order@;
            lemma_places_of(k, x);
            assert forall|a: int, b: int| 0 <= a < b < out@.len() implies #[trigger] out@[a] < #[trigger] out@[b] by {
                assert(index_before::<K>(k, o[lo + a] as int, o[lo + b] as int));
                K::before_irreflexive(x);
                assert(k[o[lo + a] as int] == x);
                assert(k[o[lo + b] as int] == x);
            }
            assert forall|y: usize| #[trigger] out@.contains(y) <==> places_of(k, x).contains(y) by {
                if out@.contains(y) {
                    let a = choose|a: int| 0 <= a < out@.len() && out@[a] == y;
                    assert(k[o[lo + a] as int] == x);
                    assert(k[y as int] == x);
                }
                if places_of(k, x).contains(y) {
                    let a = choose|a: int| 0 <= a < places_of(k, x).len() && places_of(k, x)[a] == y;
                    assert(k[y as int] == x);
                    assert(o.contains(y));
                    let b = choose|b: int| 0 <= b < o.len() && o[b] == y;
                    K::before_irreflexive(x);
                    if b < lo {
                        assert(K::before(k[o[b] as int], x));
                    }
                    if b >= i {
                        let c = o[i as int] as int;
                        assert(!K::before(k[o[i as int] as int], x));
                        K::before_total(k[c], x);
                        if b > i {
                            assert(index_before::<K>(k, o[i as int] as int, o[b] as int));
                        }
                    }
                    assert(out@[b - lo] == y);
                }
            }
            lemma_increasing_unique(out@, places_of(k, x));
        }
        out
    }
}


/// Appends an item; the deep view grows by its deep view.
pub fn put<T: DeepView>(v: &mut Vec<T>, x: T)
    ensures
        final(v)@ == old(v)@.push(x),
        final(v).deep_view() == old(v).deep_view().push(x.deep_view()),
{
    let ghost before = v.deep_view();
    v.push(x);
    assert(v.deep_view() =~= before.push(x.deep_view()));
}

/// One more item of a prefix.
pub proof fn lemma_take_next<A>(s: Seq<A>, i: int)
    requires
        0 <= i < s.len(),
    ensures
        s.take(i + 1) == s.take(i).push(s[i]),
        s.take(i + 1).drop_last() == s.take(i),
        s.take(i + 1).last() == s[i],
{
    assert(s.take(i + 1) =~= s.take(i).push(s[i]));
    assert(s.take(i + 1).drop_last() =~= s.take(i));
}

} // verus!
