//! Selecting and mapping the items of a sequence in one pass.

use vstd::prelude::*;

verus! {

/// The images under `f` of the items that have one, in order.
pub open spec fn gather<A, B>(s: Seq<A>, f: spec_fn(A) -> Option<B>) -> Seq<B>
    decreases s.len(),
{
    if s.len() == 0 {
        Seq::empty()
    } else {
        let rest = gather(s.drop_last(), f);
        match f(s.last()) {
            Some(b) => rest.push(b),
            None => rest,
        }
    }
}

pub proof fn lemma_gather_push<A, B>(s: Seq<A>, a: A, f: spec_fn(A) -> Option<B>)
    ensures
        gather(s.push(a), f) == (match f(a) {
            Some(b) => gather(s, f).push(b),
            None => gather(s, f),
        }),
{
    assert(s.push(a).drop_last() =~= s);
}

/// No more is gathered than there is.
pub proof fn lemma_gather_len<A, B>(s: Seq<A>, f: spec_fn(A) -> Option<B>)
    ensures
        gather(s, f).len() <= s.len(),
    decreases s.len(),
{
    if s.len() > 0 {
        lemma_gather_len(s.drop_last(), f);
    }
}

pub proof fn lemma_gather_add<A, B>(s: Seq<A>, t: Seq<A>, f: spec_fn(A) -> Option<B>)
    ensures
        gather(s + t, f) == gather(s, f) + gather(t, f),
    decreases t.len(),
{
    if t.len() == 0 {
        assert(s + t =~= s);
        assert(gather(s, f) + gather(t, f) =~= gather(s, f));
    } else {
        lemma_gather_add(s, t.drop_last(), f);
        assert((s + t).drop_last() =~= s + t.drop_last());
        assert(gather(s + t, f) =~= gather(s, f) + gather(t, f));
    }
}

/// Two sequences whose items have the same images gather to the same sequence.
pub proof fn lemma_gather_same<A, C, B>(
    s: Seq<A>,
    t: Seq<C>,
    f: spec_fn(A) -> Option<B>,
    g: spec_fn(C) -> Option<B>,
)
    requires
        s.len() == t.len(),
        forall|i: int| 0 <= i < s.len() ==> f(#[trigger] s[i]) == g(t[i]),
    ensures
        gather(s, f) == gather(t, g),
    decreases s.len(),
{
    if s.len() > 0 {
        assert forall|i: int| 0 <= i < s.drop_last().len() implies f(#[trigger] s.drop_last()[i]) == g(t.drop_last()[i]) by {
            assert(s[i] == s.drop_last()[i]);
        }
        lemma_gather_same(s.drop_last(), t.drop_last(), f, g);
        assert(f(s[s.len() - 1]) == g(t[s.len() - 1]));
    }
}

/// Where every item has an image, gathering maps item by item.
pub proof fn lemma_gather_all<A, B>(s: Seq<A>, f: spec_fn(A) -> Option<B>)
    requires
        forall|i: int| 0 <= i < s.len() ==> f(#[trigger] s[i]) is Some,
    ensures
        gather(s, f) == Seq::new(s.len(), |i: int| f(s[i])->0),
    decreases s.len(),
{
    if s.len() > 0 {
        assert forall|i: int| 0 <= i < s.drop_last().len() implies f(#[trigger] s.drop_last()[i]) is Some by {
            assert(s[i] == s.drop_last()[i]);
        }
        lemma_gather_all(s.drop_last(), f);
        assert(f(s[s.len() - 1]) is Some);
    }
    assert(gather(s, f) =~= Seq::new(s.len(), |i: int| f(s[i])->0));
}

/// What is gathered depends, up to order, on the items alone.
pub proof fn lemma_gather_multiset<A, B>(s: Seq<A>, t: Seq<A>, f: spec_fn(A) -> Option<B>)
    requires
        s.to_multiset() == t.to_multiset(),
    ensures
        gather(s, f).to_multiset() == gather(t, f).to_multiset(),
    decreases s.len(),
{
    broadcast use vstd::seq_lib::group_to_multiset_ensures;

    vstd::seq_lib::to_multiset_len(s);
    vstd::seq_lib::to_multiset_len(t);
    if s.len() > 0 {
        let x = s.last();
        assert(s.contains(x));
        assert(t.to_multiset().contains(x));
        let i = choose|i: int| 0 <= i < t.len() && t[i] == x;
        let rest = t.remove(i);
        let a = t.subrange(0, i);
        let b = t.subrange(i + 1, t.len() as int);
        assert(rest =~= a + b);
        assert(t =~= a.push(x) + b);
        vstd::seq_lib::to_multiset_remove(t, i);
        assert(s =~= s.drop_last().push(x));
        vstd::seq_lib::to_multiset_build(s.drop_last(), x);
        assert(s.drop_last().to_multiset() =~= rest.to_multiset());
        lemma_gather_multiset(s.drop_last(), rest, f);
        lemma_gather_add(a, b, f);
        lemma_gather_add(a.push(x), b, f);
        lemma_gather_push(a, x, f);
        let ga = gather(a, f);
        let gb = gather(b, f);
        match f(x) {
            Some(y) => {
                vstd::seq_lib::to_multiset_build(gather(s.drop_last(), f), y);
                assert(gather(t, f) =~= ga.push(y) + gb);
                vstd::seq_lib::lemma_multiset_commutative(ga.push(y), gb);
                vstd::seq_lib::lemma_multiset_commutative(ga, gb);
                vstd::seq_lib::to_multiset_build(ga, y);
                assert(gather(t, f).to_multiset() =~= gather(rest, f).to_multiset().insert(y));
            },
            None => {
                assert(gather(t, f) =~= gather(rest, f));
            },
        }
    } else {
        assert(t.len() == 0);
        assert(s =~= t);
    }
}

/// The images of the items, one after the other.
pub open spec fn flatten<A, B>(s: Seq<A>, f: spec_fn(A) -> Seq<B>) -> Seq<B>
    decreases s.len(),
{
    if s.len() == 0 {
        Seq::empty()
    } else {
        flatten(s.drop_last(), f) + f(s.last())
    }
}

/// What is gathered are the images of the items.
pub proof fn lemma_gather_member<A, B>(s: Seq<A>, f: spec_fn(A) -> Option<B>, b: B)
    ensures
        gather(s, f).contains(b) <==> exists|i: int| 0 <= i < s.len() && f(#[trigger] s[i]) == Some(b),
    decreases s.len(),
{
    if s.len() > 0 {
        let s1 = s.drop_last();
        let rest = gather(s1, f);
        lemma_gather_member(s1, f, b);
        if gather(s, f).contains(b) {
            let k = choose|k: int| 0 <= k < gather(s, f).len() && gather(s, f)[k] == b;
            if k < rest.len() {
                assert(rest[k] == b);
                let i = choose|i: int| 0 <= i < s1.len() && f(#[trigger] s1[i]) == Some(b);
                assert(s[i] == s1[i]);
            } else {
                assert(f(s[s.len() - 1]) == Some(b));
            }
        }
        if exists|i: int| 0 <= i < s.len() && f(#[trigger] s[i]) == Some(b) {
            let i = choose|i: int| 0 <= i < s.len() && f(#[trigger] s[i]) == Some(b);
            if i < s1.len() {
                assert(s1[i] == s[i]);
                let k = choose|k: int| 0 <= k < rest.len() && rest[k] == b;
                assert(gather(s, f)[k] == b);
            } else {
                assert(gather(s, f)[rest.len() as int] == b);
            }
        }
    }
}

/// What is flattened comes from one of the lists.
pub proof fn lemma_flatten_member<A, B>(s: Seq<A>, f: spec_fn(A) -> Seq<B>, k: int)
    requires
        0 <= k < flatten(s, f).len(),
    ensures
        exists|i: int| 0 <= i < s.len() && f(#[trigger] s[i]).contains(flatten(s, f)[k]),
    decreases s.len(),
{
    let rest = s.drop_last();
    let before = flatten(rest, f);
    if k < before.len() {
        lemma_flatten_member(rest, f, k);
        let i = choose|i: int| 0 <= i < rest.len() && f(#[trigger] rest[i]).contains(before[k]);
        assert(s[i] == rest[i]);
    } else {
        assert(flatten(s, f)[k] == f(s.last())[k - before.len()]);
        assert(f(s[s.len() - 1]).contains(flatten(s, f)[k]));
    }
}

/// What one of the lists holds is flattened.
pub proof fn lemma_flatten_has<A, B>(s: Seq<A>, f: spec_fn(A) -> Seq<B>, i: int, b: B)
    requires
        0 <= i < s.len(),
        f(s[i]).contains(b),
    ensures
        flatten(s, f).contains(b),
    decreases s.len(),
{
    let rest = s.drop_last();
    let before = flatten(rest, f);
    if i < rest.len() {
        assert(rest[i] == s[i]);
        lemma_flatten_has(rest, f, i, b);
        let k = choose|k: int| 0 <= k < before.len() && before[k] == b;
        assert(flatten(s, f)[k] == b);
    } else {
        let list = f(s[i]);
        let k = choose|k: int| 0 <= k < list.len() && list[k] == b;
        assert(flatten(s, f)[before.len() + k] == b);
    }
}

} // verus!
