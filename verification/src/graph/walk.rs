//! Breadth-first walks over numbered nodes.

use vstd::prelude::*;

verus! {

/// One node that a walk reached: over which link, from which node, how deep.
#[derive(Debug, Clone, Copy, PartialEq, Eq, Structural)]
pub struct Visit {
    pub node: usize,
    pub depth: usize,
    pub parent: usize,
    pub via: usize,
}

/// The links of a node: pairs of a link and the node it leads to.
pub type Links = spec_fn(usize) -> Seq<(usize, usize)>;

/// Is the node among those reached?
pub open spec fn is_reached(order: Seq<Visit>, node: usize) -> bool {
    exists|i: int| 0 <= i < order.len() && (#[trigger] order[i]).node == node
}

/// The walk after following the given links of `at`, in their order; a node
/// that was reached before is not reached again.
pub open spec fn follow(order: Seq<Visit>, at: Visit, links: Seq<(usize, usize)>) -> Seq<Visit>
    decreases links.len(),
{
    if links.len() == 0 {
        order
    } else {
        let so_far = follow(order, at, links.drop_last());
        let (via, to) = links.last();
        if is_reached(so_far, to) {
            so_far
        } else {
            so_far.push(Visit { node: to, depth: (at.depth + 1) as usize, parent: at.node, via })
        }
    }
}

/// The walk after expanding the node at place `head`, unless it is at the depth
/// limit.
pub open spec fn expand(order: Seq<Visit>, head: int, links: Links, max_depth: usize) -> Seq<Visit> {
    if order[head].depth < max_depth {
        follow(order, order[head], links(order[head].node))
    } else {
        order
    }
}

/// The whole walk over at most `n` nodes, from a state in which the first
/// `head` nodes have been expanded.
pub open spec fn walk_from(
    order: Seq<Visit>,
    head: int,
    links: Links,
    max_depth: usize,
    n: nat,
) -> Seq<Visit>
    decreases n - head,
{
    if head < 0 || head >= order.len() || head >= n {
        order
    } else {
        walk_from(expand(order, head, links, max_depth), head + 1, links, max_depth, n)
    }
}

pub open spec fn start(root: usize) -> Seq<Visit> {
    seq![Visit { node: root, depth: 0, parent: root, via: 0 }]
}

/// The nodes that a breadth-first walk from `root` reaches, in the order it
/// reaches them; the root comes first.
pub open spec fn walk(root: usize, links: Links, max_depth: usize, n: nat) -> Seq<Visit> {
    walk_from(start(root), 0, links, max_depth, n)
}

/// Every link of a node below `n` leads to a node below `n`.
pub open spec fn links_within(links: Links, n: nat) -> bool {
    forall|v: usize, k: int| v < n && 0 <= k < links(v).len() ==> (#[trigger] links(v)[k]).1 < n
}

// ---- what holds of every walk ---------------------------------------------------------------

/// The state of a walk in which the first `head` nodes have been expanded.
pub open spec fn is_walk_state(
    order: Seq<Visit>,
    head: int,
    root: usize,
    links: Links,
    max_depth: usize,
    n: nat,
) -> bool {
    &&& 0 <= head <= order.len()
    &&& 0 < order.len() <= n
    &&& order[0] == (Visit { node: root, depth: 0, parent: root, via: 0 })
    &&& forall|i: int| 0 <= i < order.len() ==> (#[trigger] order[i]).node < n && order[i].depth <= max_depth
    &&& forall|i: int, j: int| 0 <= i < j < order.len() ==> (#[trigger] order[i]).node != (#[trigger] order[j]).node
    &&& forall|i: int, j: int| 0 <= i < j < order.len() ==> (#[trigger] order[i]).depth <= (#[trigger] order[j]).depth
    &&& head < order.len() ==> forall|j: int|
        0 <= j < order.len() ==> (#[trigger] order[j]).depth <= order[head].depth + 1
    &&& is_chained(order, links, max_depth)
    &&& is_closed(order, head, links, max_depth)
}

/// Every visit but the root's comes over a link from another.
#[verifier::opaque]
pub open spec fn is_chained(order: Seq<Visit>, links: Links, max_depth: usize) -> bool {
    forall|i: int| 0 < i < order.len() ==> comes_from(order, #[trigger] order[i], links, max_depth)
}

/// What the first `head` nodes link to was reached.
#[verifier::opaque]
pub open spec fn is_closed(order: Seq<Visit>, head: int, links: Links, max_depth: usize) -> bool {
    forall|i: int| 0 <= i < head && (#[trigger] order[i]).depth < max_depth ==> are_reached(
        order,
        links(order[i].node),
        links(order[i].node).len() as int,
        order[i].depth + 1,
    )
}

/// What the first `count` links lead to was reached at that depth or above.
#[verifier::opaque]
pub open spec fn are_reached(order: Seq<Visit>, links: Seq<(usize, usize)>, count: int, depth: int) -> bool {
    forall|k: int| 0 <= k < count ==> reached_by(order, (#[trigger] links[k]).1, depth)
}

/// The visit follows a link of a node that was reached before, one level up.
pub open spec fn comes_from(order: Seq<Visit>, v: Visit, links: Links, max_depth: usize) -> bool {
    exists|j: int|
        0 <= j < order.len() && (#[trigger] order[j]).node == v.parent && v.depth == order[j].depth + 1
            && order[j].depth < max_depth && links(v.parent).contains((v.via, v.node))
}

/// The node was reached at that depth or above.
pub open spec fn reached_by(order: Seq<Visit>, node: usize, depth: int) -> bool {
    exists|j: int| 0 <= j < order.len() && (#[trigger] order[j]).node == node && order[j].depth <= depth
}

proof fn lemma_distinct_bound(order: Seq<Visit>, n: nat)
    requires
        forall|i: int| 0 <= i < order.len() ==> (#[trigger] order[i]).node < n,
        forall|i: int, j: int| 0 <= i < j < order.len() ==> (#[trigger] order[i]).node != (#[trigger] order[j]).node,
    ensures
        order.len() <= n,
{
    let f = |i: int| order[i].node as int;
    let dom = vstd::set_lib::set_int_range(0, order.len() as int);
    let rng = vstd::set_lib::set_int_range(0, n as int);
    vstd::set_lib::lemma_int_range(0, order.len() as int);
    vstd::set_lib::lemma_int_range(0, n as int);
    assert(vstd::relations::injective_on(f, dom)) by {
        assert forall|x1: int, x2: int| dom.contains(x1) && dom.contains(x2) && #[trigger] f(x1) == #[trigger] f(x2) implies x1
            == x2 by {
            if x1 < x2 {
                assert(order[x1].node != order[x2].node);
            } else if x2 < x1 {
                assert(order[x2].node != order[x1].node);
            }
        }
    }
    vstd::set_lib::lemma_map_size(dom, dom.map(f), f);
    assert(dom.map(f).subset_of(rng)) by {
        assert forall|y: int| dom.map(f).contains(y) implies rng.contains(y) by {
            let i = choose|i: int| dom.contains(i) && f(i) == y;
            assert(order[i].node < n);
        }
    }
    vstd::set_lib::lemma_len_subset(dom.map(f), rng);
}

/// The state in the middle of expanding the node at place `head`.
pub open spec fn is_mid_state(
    order: Seq<Visit>,
    head: int,
    done: int,
    root: usize,
    links: Links,
    max_depth: usize,
    n: nat,
) -> bool {
    &&& is_walk_state(order, head, root, links, max_depth, n)
    &&& head < order.len()
    &&& order[head].depth < max_depth
    &&& are_reached(order, links(order[head].node), done, order[head].depth + 1)
}

/// Following one more link keeps the state.
pub proof fn lemma_follow_one(
    order: Seq<Visit>,
    head: int,
    done: int,
    root: usize,
    links: Links,
    max_depth: usize,
    n: nat,
)
    requires
        is_mid_state(order, head, done, root, links, max_depth, n),
        0 <= done < links(order[head].node).len(),
        links_within(links, n),
        n <= usize::MAX,
    ensures
        ({
            let (via, to) = links(order[head].node)[done];
            let v = Visit { node: to, depth: (order[head].depth + 1) as usize, parent: order[head].node, via };
            &&& is_reached(order, to) ==> is_mid_state(order, head, done + 1, root, links, max_depth, n)
            &&& !is_reached(order, to) ==> is_mid_state(order.push(v), head, done + 1, root, links, max_depth, n)
        }),
{
    let at = order[head];
    let (via, to) = links(at.node)[done];
    assert(links(at.node)[done].1 < n);
    if is_reached(order, to) {
        let j = choose|j: int| 0 <= j < order.len() && (#[trigger] order[j]).node == to;
        assert(order[j].depth <= order[head].depth + 1);
        assert(reached_by(order, to, at.depth + 1));
        assert(are_reached(order, links(at.node), done + 1, at.depth + 1)) by {
            reveal(are_reached);
        }
    } else {
        let v = Visit { node: to, depth: (at.depth + 1) as usize, parent: at.node, via };
        let next = order.push(v);
        assert(v.depth == at.depth + 1);
        assert forall|i: int| 0 <= i < next.len() implies (#[trigger] next[i]).node < n && next[i].depth <= max_depth by {
            if i < order.len() {
                assert(next[i] == order[i]);
            }
        }
        assert forall|i: int, j: int| 0 <= i < j < next.len() implies (#[trigger] next[i]).node != (#[trigger] next[j]).node by {
            assert(next[i] == order[i]);
            if j < order.len() {
                assert(next[j] == order[j]);
            }
        }
        lemma_distinct_bound(next, n);
        assert forall|i: int, j: int| 0 <= i < j < next.len() implies (#[trigger] next[i]).depth <= (#[trigger] next[j]).depth by {
            assert(next[i] == order[i]);
            if j < order.len() {
                assert(next[j] == order[j]);
            } else {
                assert(order[i].depth <= order[head].depth + 1);
            }
        }
        assert(next[head] == order[head]);
        assert forall|j: int| 0 <= j < next.len() implies (#[trigger] next[j]).depth <= next[head].depth + 1 by {
            if j < order.len() {
                assert(next[j] == order[j]);
            }
        }
        assert(links(at.node)[done] == (via, to));
        lemma_chained_push(order, v, head, links, max_depth);
        lemma_closed_push(order, v, head, links, max_depth);
        lemma_are_reached_push(order, v, links(at.node), done, at.depth + 1);
        assert(are_reached(next, links(at.node), done + 1, at.depth + 1)) by {
            reveal(are_reached);
            assert(next[next.len() - 1].node == to);
            assert(reached_by(next, to, at.depth + 1));
        }
    }
}

proof fn lemma_chained_push(order: Seq<Visit>, v: Visit, head: int, links: Links, max_depth: usize)
    requires
        is_chained(order, links, max_depth),
        0 <= head < order.len(),
        order[head].node == v.parent,
        v.depth == order[head].depth + 1,
        order[head].depth < max_depth,
        links(v.parent).contains((v.via, v.node)),
    ensures
        is_chained(order.push(v), links, max_depth),
{
    reveal(is_chained);
    let next = order.push(v);
    assert forall|i: int| 0 < i < next.len() implies comes_from(next, #[trigger] next[i], links, max_depth) by {
        if i < order.len() {
            assert(comes_from(order, order[i], links, max_depth));
            let j = choose|j: int|
                0 <= j < order.len() && (#[trigger] order[j]).node == order[i].parent && order[i].depth
                    == order[j].depth + 1 && order[j].depth < max_depth && links(order[i].parent).contains(
                    (order[i].via, order[i].node),
                );
            assert(next[j] == order[j]);
        } else {
            assert(next[head] == order[head]);
        }
    }
}

proof fn lemma_closed_push(order: Seq<Visit>, v: Visit, head: int, links: Links, max_depth: usize)
    requires
        is_closed(order, head, links, max_depth),
        0 <= head <= order.len(),
    ensures
        is_closed(order.push(v), head, links, max_depth),
{
    reveal(is_closed);
    let next = order.push(v);
    assert forall|i: int| 0 <= i < head && (#[trigger] next[i]).depth < max_depth implies are_reached(
        next,
        links(next[i].node),
        links(next[i].node).len() as int,
        next[i].depth + 1,
    ) by {
        assert(next[i] == order[i]);
        let ls = links(order[i].node);
        lemma_are_reached_push(order, v, ls, ls.len() as int, order[i].depth + 1);
    }
}

proof fn lemma_are_reached_push(order: Seq<Visit>, v: Visit, links: Seq<(usize, usize)>, count: int, depth: int)
    requires
        are_reached(order, links, count, depth),
    ensures
        are_reached(order.push(v), links, count, depth),
{
    reveal(are_reached);
    assert forall|k: int| 0 <= k < count implies reached_by(order.push(v), (#[trigger] links[k]).1, depth) by {
        lemma_reached_push(order, v, links[k].1, depth);
    }
}

proof fn lemma_reached_push(order: Seq<Visit>, v: Visit, node: usize, depth: int)
    requires
        reached_by(order, node, depth),
    ensures
        reached_by(order.push(v), node, depth),
{
    let j = choose|j: int| 0 <= j < order.len() && (#[trigger] order[j]).node == node && order[j].depth <= depth;
    assert(order.push(v)[j] == order[j]);
}

/// When all links of the node at `head` have been followed, it is expanded.
pub proof fn lemma_expanded(
    order: Seq<Visit>,
    head: int,
    root: usize,
    links: Links,
    max_depth: usize,
    n: nat,
)
    requires
        is_walk_state(order, head, root, links, max_depth, n),
        head < order.len(),
        order[head].depth >= max_depth || is_mid_state(
            order,
            head,
            links(order[head].node).len() as int,
            root,
            links,
            max_depth,
            n,
        ),
    ensures
        is_walk_state(order, head + 1, root, links, max_depth, n),
{
    assert(is_closed(order, head + 1, links, max_depth)) by {
        reveal(is_closed);
    }
    if head + 1 < order.len() {
        assert forall|j: int| 0 <= j < order.len() implies (#[trigger] order[j]).depth <= order[head + 1].depth + 1 by {
            assert(order[head].depth <= order[head + 1].depth);
        }
    }
}

/// Following links, in steps.
pub proof fn lemma_follow_step(order: Seq<Visit>, at: Visit, links: Seq<(usize, usize)>, k: int)
    requires
        0 <= k < links.len(),
    ensures
        follow(order, at, links.take(k + 1)) == ({
            let so_far = follow(order, at, links.take(k));
            let (via, to) = links[k];
            if is_reached(so_far, to) {
                so_far
            } else {
                so_far.push(Visit { node: to, depth: (at.depth + 1) as usize, parent: at.node, via })
            }
        }),
{
    assert(links.take(k + 1).drop_last() =~= links.take(k));
    assert(links.take(k + 1).last() == links[k]);
}

/// Following a prefix of the links keeps the state.
proof fn lemma_follow(
    order: Seq<Visit>,
    head: int,
    k: int,
    root: usize,
    links: Links,
    max_depth: usize,
    n: nat,
)
    requires
        is_walk_state(order, head, root, links, max_depth, n),
        head < order.len(),
        order[head].depth < max_depth,
        0 <= k <= links(order[head].node).len(),
        links_within(links, n),
        n <= usize::MAX,
    ensures
        ({
            let mid = follow(order, order[head], links(order[head].node).take(k));
            &&& is_mid_state(mid, head, k, root, links, max_depth, n)
            &&& mid[head] == order[head]
            &&& order.len() <= mid.len()
        }),
    decreases k,
{
    let ls = links(order[head].node);
    if k == 0 {
        assert(ls.take(0) =~= Seq::empty());
        reveal(are_reached);
    } else {
        lemma_follow(order, head, k - 1, root, links, max_depth, n);
        lemma_follow_step(order, order[head], ls, k - 1);
        lemma_follow_one(follow(order, order[head], ls.take(k - 1)), head, k - 1, root, links, max_depth, n);
    }
}

proof fn lemma_expand(
    order: Seq<Visit>,
    head: int,
    root: usize,
    links: Links,
    max_depth: usize,
    n: nat,
)
    requires
        is_walk_state(order, head, root, links, max_depth, n),
        head < order.len(),
        links_within(links, n),
        n <= usize::MAX,
    ensures
        is_walk_state(expand(order, head, links, max_depth), head + 1, root, links, max_depth, n),
{
    if order[head].depth < max_depth {
        let ls = links(order[head].node);
        lemma_follow(order, head, ls.len() as int, root, links, max_depth, n);
        assert(ls.take(ls.len() as int) =~= ls);
        lemma_expanded(expand(order, head, links, max_depth), head, root, links, max_depth, n);
    } else {
        lemma_expanded(order, head, root, links, max_depth, n);
    }
}

proof fn lemma_walk_from(
    order: Seq<Visit>,
    head: int,
    root: usize,
    links: Links,
    max_depth: usize,
    n: nat,
)
    requires
        is_walk_state(order, head, root, links, max_depth, n),
        links_within(links, n),
        n <= usize::MAX,
    ensures
        is_walk_state(
            walk_from(order, head, links, max_depth, n),
            walk_from(order, head, links, max_depth, n).len() as int,
            root,
            links,
            max_depth,
            n,
        ),
    decreases n - head,
{
    if head < order.len() {
        lemma_expand(order, head, root, links, max_depth, n);
        lemma_walk_from(expand(order, head, links, max_depth), head + 1, root, links, max_depth, n);
    }
}

pub proof fn lemma_start(root: usize, links: Links, max_depth: usize, n: nat)
    requires
        root < n,
    ensures
        is_walk_state(start(root), 0, root, links, max_depth, n),
{
    reveal(is_chained);
    reveal(is_closed);
}

/// The finished walk: every node once, all of them expanded.
pub proof fn lemma_walk(root: usize, links: Links, max_depth: usize, n: nat)
    requires
        root < n,
        links_within(links, n),
        n <= usize::MAX,
    ensures
        is_walk_state(
            walk(root, links, max_depth, n),
            walk(root, links, max_depth, n).len() as int,
            root,
            links,
            max_depth,
            n,
        ),
{
    lemma_start(root, links, max_depth, n);
    lemma_walk_from(start(root), 0, root, links, max_depth, n);
}

// ---- depths are distances ---------------------------------------------------------------------

/// `k` links lead from `root` to `v`.
pub open spec fn leads(root: usize, v: usize, k: nat, links: Links) -> bool
    decreases k,
{
    if k == 0 {
        v == root
    } else {
        exists|u: usize| leads(root, u, (k - 1) as nat, links) && #[trigger] has_link(links, u, v)
    }
}

/// A link leads from `u` to `v`.
pub open spec fn has_link(links: Links, u: usize, v: usize) -> bool {
    exists|k: int| 0 <= k < links(u).len() && (#[trigger] links(u)[k]).1 == v
}

/// The least number of links that lead from `root` to `v`.
pub open spec fn is_distance(root: usize, v: usize, k: nat, links: Links) -> bool {
    leads(root, v, k, links) && forall|j: nat| j < k ==> !#[trigger] leads(root, v, j, links)
}

/// A walk reaches exactly the nodes that at most `max_depth` links lead to, each
/// once, and the depth of each is the least number of links.
pub proof fn walk_depth_is_distance(root: usize, links: Links, max_depth: usize, n: nat)
    requires
        root < n,
        links_within(links, n),
        n <= usize::MAX,
    ensures
        ({
            let order = walk(root, links, max_depth, n);
            &&& forall|i: int| 0 <= i < order.len() ==> {
                &&& (#[trigger] order[i]).depth <= max_depth
                &&& leads(root, order[i].node, order[i].depth as nat, links)
                &&& forall|k: nat| k < order[i].depth ==> !#[trigger] leads(root, order[i].node, k, links)
            }
            &&& forall|v: usize, k: nat| k <= max_depth && #[trigger] leads(root, v, k, links) ==> is_reached(order, v)
            &&& forall|i: int, j: int| 0 <= i < j < order.len() ==> (#[trigger] order[i]).node != (#[trigger] order[j]).node
            &&& forall|i: int, j: int| 0 <= i < j < order.len() ==> (#[trigger] order[i]).depth <= (#[trigger] order[j]).depth
        }),
{
    let order = walk(root, links, max_depth, n);
    lemma_walk(root, links, max_depth, n);
    assert forall|i: int| 0 <= i < order.len() implies leads(root, (#[trigger] order[i]).node, order[i].depth as nat, links) by {
        lemma_depth_leads(order, i, root, links, max_depth, n);
    }
    assert forall|v: usize, k: nat| k <= max_depth && #[trigger] leads(root, v, k, links) implies reached_by(order, v, k as int) by {
        lemma_leads_reached(order, v, k, root, links, max_depth, n);
    }
    assert forall|v: usize, k: nat| k <= max_depth && #[trigger] leads(root, v, k, links) implies is_reached(order, v) by {
        assert(reached_by(order, v, k as int));
    }
    assert forall|i: int, k: nat| 0 <= i < order.len() && k < order[i].depth implies !#[trigger] leads(
        root,
        (#[trigger] order[i]).node,
        k,
        links,
    ) by {
        if leads(root, order[i].node, k, links) {
            assert(reached_by(order, order[i].node, k as int));
            let j = choose|j: int|
                0 <= j < order.len() && (#[trigger] order[j]).node == order[i].node && order[j].depth <= k;
            if i < j {
                assert(order[i].node != order[j].node);
            } else if j < i {
                assert(order[j].node != order[i].node);
            }
        }
    }
}

proof fn lemma_depth_leads(
    order: Seq<Visit>,
    i: int,
    root: usize,
    links: Links,
    max_depth: usize,
    n: nat,
)
    requires
        is_walk_state(order, order.len() as int, root, links, max_depth, n),
        0 <= i < order.len(),
    ensures
        leads(root, order[i].node, order[i].depth as nat, links),
    decreases order[i].depth,
{
    if i > 0 {
        let v = order[i];
        assert(comes_from(order, order[i], links, max_depth)) by {
            reveal(is_chained);
        }
        let j = choose|j: int|
            0 <= j < order.len() && (#[trigger] order[j]).node == v.parent && v.depth == order[j].depth + 1
                && order[j].depth < max_depth && links(v.parent).contains((v.via, v.node));
        lemma_depth_leads(order, j, root, links, max_depth, n);
        let k = choose|k: int| 0 <= k < links(v.parent).len() && #[trigger] links(v.parent)[k] == (v.via, v.node);
        assert(links(v.parent)[k].1 == v.node);
        lemma_leads_on(root, v.parent, v.node, order[j].depth as nat, links);
    }
}

pub proof fn lemma_leads_on(root: usize, u: usize, v: usize, k: nat, links: Links)
    requires
        leads(root, u, k, links),
        has_link(links, u, v),
    ensures
        leads(root, v, k + 1, links),
{
    assert((k + 1 - 1) as nat == k);
}

/// The node before the last on a way of links.
pub proof fn lemma_leads_back(root: usize, v: usize, k: nat, links: Links) -> (u: usize)
    requires
        leads(root, v, k + 1, links),
    ensures
        leads(root, u, k, links),
        has_link(links, u, v),
{
    assert((k + 1 - 1) as nat == k);
    choose|u: usize| leads(root, u, k, links) && #[trigger] has_link(links, u, v)
}

proof fn lemma_leads_reached(
    order: Seq<Visit>,
    v: usize,
    k: nat,
    root: usize,
    links: Links,
    max_depth: usize,
    n: nat,
)
    requires
        is_walk_state(order, order.len() as int, root, links, max_depth, n),
        k <= max_depth,
        leads(root, v, k, links),
    ensures
        reached_by(order, v, k as int),
    decreases k,
{
    if k == 0 {
        assert(order[0].node == v);
    } else {
        let u = lemma_leads_back(root, v, (k - 1) as nat, links);
        lemma_leads_reached(order, u, (k - 1) as nat, root, links, max_depth, n);
        let j = choose|j: int| 0 <= j < order.len() && (#[trigger] order[j]).node == u && order[j].depth <= k - 1;
        let l = choose|l: int| 0 <= l < links(u).len() && (#[trigger] links(u)[l]).1 == v;
        assert(reached_by(order, links(order[j].node)[l].1, order[j].depth + 1)) by {
            reveal(is_closed);
            reveal(are_reached);
            assert(are_reached(order, links(order[j].node), links(order[j].node).len() as int, order[j].depth + 1));
        }
        let w = choose|w: int|
            0 <= w < order.len() && (#[trigger] order[w]).node == v && order[w].depth <= order[j].depth + 1;
        assert(order[w].depth <= k);
    }
}

} // verus!
