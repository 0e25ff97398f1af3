//! The nodes of a neighbourhood and the numbers that name them.

use std::collections::BTreeMap;

use vstd::prelude::*;

use crate::canon::hash::fnv1a64;
use crate::index::fingerprint::hood::{kind_number, kinds_of, touches, Tie};
use crate::index::resolve::{node_views, ResolverNode};

verus! {

/// The list with the node at its end, unless it is there already.
pub open spec fn noted(list: Seq<usize>, v: usize) -> Seq<usize> {
    if list.contains(v) {
        list
    } else {
        list.push(v)
    }
}

/// The nodes of a neighbourhood: the centre, then the ends of its references in
/// the order in which they are first met.
pub open spec fn hood_nodes(own: Seq<Tie>, centre: usize) -> Seq<usize>
    decreases own.len(),
{
    if own.len() == 0 {
        noted(Seq::empty(), centre)
    } else {
        noted(noted(hood_nodes(own.drop_last(), centre), own.last().0), own.last().1)
    }
}

/// The number of a node: its place in the list.
pub open spec fn number(list: Seq<usize>, v: usize) -> u32 {
    list.index_of(v) as u32
}

/// A node is coloured by its kind, and the centre is set apart.
pub open spec fn hood_colors(kinds: Seq<Seq<char>>, list: Seq<usize>) -> Map<u32, (u64, u64)> {
    Map::new(
        |x: u32| x < list.len(),
        |x: u32| (if x == 0 { 0u64 } else { 1u64 }, kind_number(kinds[list[x as int] as int])),
    )
}

/// Is the node the centre, or at the end of one of these references?
pub open spec fn in_hood(own: Seq<Tie>, centre: usize, v: usize) -> bool {
    v == centre || exists|i: int| 0 <= i < own.len() && touches(#[trigger] own[i], v)
}

// ---- the list -----------------------------------------------------------------------------

proof fn lemma_noted(list: Seq<usize>, v: usize)
    requires
        list.no_duplicates(),
    ensures
        noted(list, v).no_duplicates(),
        list.len() <= noted(list, v).len() <= list.len() + 1,
        noted(list, v).contains(v),
        forall|k: int| 0 <= k < list.len() ==> noted(list, v)[k] == #[trigger] list[k],
        forall|x: usize| #[trigger] noted(list, v).contains(x) <==> list.contains(x) || x == v,
{
    let after = noted(list, v);
    if !list.contains(v) {
        assert(after[list.len() as int] == v);
        assert forall|x: usize| #[trigger] after.contains(x) <==> list.contains(x) || x == v by {
            if list.contains(x) {
                let k = choose|k: int| 0 <= k < list.len() && list[k] == x;
                assert(after[k] == x);
            }
            if after.contains(x) {
                let k = choose|k: int| 0 <= k < after.len() && after[k] == x;
                if k < list.len() {
                    assert(list[k] == x);
                }
            }
        }
    }
}

/// The list holds the nodes of the neighbourhood, each once, the centre first.
pub proof fn lemma_hood_nodes(own: Seq<Tie>, centre: usize)
    ensures
        hood_nodes(own, centre).no_duplicates(),
        hood_nodes(own, centre).len() > 0,
        hood_nodes(own, centre)[0] == centre,
        forall|v: usize| #[trigger] hood_nodes(own, centre).contains(v) <==> in_hood(own, centre, v),
    decreases own.len(),
{
    let list = hood_nodes(own, centre);
    if own.len() == 0 {
        lemma_noted(Seq::empty(), centre);
        assert(list =~= seq![centre]);
    } else {
        let rest = own.drop_last();
        let t = own.last();
        let before = hood_nodes(rest, centre);
        lemma_hood_nodes(rest, centre);
        lemma_noted(before, t.0);
        lemma_noted(noted(before, t.0), t.1);
        assert(before[0] == centre);
        assert(noted(before, t.0)[0] == centre);
        assert forall|v: usize| #[trigger] list.contains(v) <==> in_hood(own, centre, v) by {
            assert(before.contains(v) <==> in_hood(rest, centre, v));
            assert(noted(before, t.0).contains(v) <==> before.contains(v) || v == t.0);
            if in_hood(rest, centre, v) && v != centre {
                let i = choose|i: int| 0 <= i < rest.len() && touches(#[trigger] rest[i], v);
                assert(own[i] == rest[i]);
            }
            if in_hood(own, centre, v) && v != centre {
                let i = choose|i: int| 0 <= i < own.len() && touches(#[trigger] own[i], v);
                if i < rest.len() {
                    assert(rest[i] == own[i]);
                }
            }
            if touches(t, v) {
                assert(own[own.len() - 1] == t);
            }
        }
    }
}

/// More references add nodes at the end.
proof fn lemma_hood_nodes_grow(own: Seq<Tie>, centre: usize, i: int)
    requires
        0 <= i <= own.len(),
    ensures
        hood_nodes(own.take(i), centre).len() <= hood_nodes(own, centre).len(),
        forall|k: int| 0 <= k < hood_nodes(own.take(i), centre).len() ==> #[trigger] hood_nodes(own.take(i), centre)[k]
            == hood_nodes(own, centre)[k],
    decreases own.len(),
{
    if i == own.len() {
        assert(own.take(i) =~= own);
    } else {
        let rest = own.drop_last();
        let before = hood_nodes(rest, centre);
        assert(rest.take(i) =~= own.take(i));
        lemma_hood_nodes_grow(rest, centre, i);
        lemma_hood_nodes(rest, centre);
        lemma_noted(before, own.last().0);
        lemma_noted(noted(before, own.last().0), own.last().1);
        let part = hood_nodes(own.take(i), centre);
        assert forall|k: int| 0 <= k < part.len() implies #[trigger] part[k] == hood_nodes(own, centre)[k] by {
            assert(part[k] == before[k]);
            assert(noted(before, own.last().0)[k] == before[k]);
        }
    }
}

/// One reference more.
pub proof fn lemma_hood_nodes_step(own: Seq<Tie>, centre: usize, i: int)
    requires
        0 <= i < own.len(),
    ensures
        ({
            let before = hood_nodes(own.take(i), centre);
            let between = noted(before, own[i].0);
            let after = noted(between, own[i].1);
            let list = hood_nodes(own, centre);
            &&& after == hood_nodes(own.take(i + 1), centre)
            &&& before.len() <= between.len() <= after.len() <= list.len()
            &&& forall|k: int| 0 <= k < between.len() ==> #[trigger] between[k] == list[k]
            &&& forall|k: int| 0 <= k < after.len() ==> #[trigger] after[k] == list[k]
        }),
{
    let before = hood_nodes(own.take(i), centre);
    let between = noted(before, own[i].0);
    let after = noted(between, own[i].1);
    let list = hood_nodes(own, centre);
    assert(own.take(i + 1).drop_last() =~= own.take(i));
    assert(own.take(i + 1).last() == own[i]);
    lemma_hood_nodes(own.take(i), centre);
    lemma_noted(before, own[i].0);
    lemma_noted(between, own[i].1);
    lemma_hood_nodes_grow(own, centre, i + 1);
    assert forall|k: int| 0 <= k < between.len() implies #[trigger] between[k] == list[k] by {
        assert(after[k] == between[k]);
    }
}

/// A neighbourhood has at most one node more than references.
pub proof fn lemma_hood_nodes_few(own: Seq<Tie>, centre: usize)
    requires
        forall|i: int| 0 <= i < own.len() ==> touches(#[trigger] own[i], centre),
    ensures
        hood_nodes(own, centre).len() <= own.len() + 1,
    decreases own.len(),
{
    if own.len() > 0 {
        let rest = own.drop_last();
        let t = own.last();
        let before = hood_nodes(rest, centre);
        assert forall|i: int| 0 <= i < rest.len() implies touches(#[trigger] rest[i], centre) by {
            assert(touches(own[i], centre));
        }
        assert(touches(own[own.len() - 1], centre));
        lemma_hood_nodes_few(rest, centre);
        lemma_hood_nodes(rest, centre);
        lemma_noted(before, t.0);
        lemma_noted(noted(before, t.0), t.1);
        assert(before.contains(centre));
        assert(noted(before, t.0).contains(centre));
    }
}

/// A list of distinct places below `n` is no longer than `n`.
pub proof fn lemma_distinct_places(list: Seq<usize>, n: nat)
    requires
        list.no_duplicates(),
        forall|i: int| 0 <= i < list.len() ==> #[trigger] list[i] < n,
    ensures
        list.len() <= n,
{
    let wide = Seq::new(list.len(), |i: int| list[i] as int);
    assert(wide.no_duplicates());
    wide.unique_seq_to_set();
    vstd::set_lib::lemma_int_range(0, n as int);
    let range = vstd::set_lib::set_int_range(0, n as int);
    assert(wide.to_set().subset_of(range)) by {
        assert forall|x: int| wide.to_set().contains(x) implies range.contains(x) by {
            let i = choose|i: int| 0 <= i < wide.len() && wide[i] == x;
            assert(list[i] < n);
        }
    }
    vstd::set_lib::lemma_len_subset(wide.to_set(), range);
}

// ---- the numbers --------------------------------------------------------------------------

/// The number of a node leads back to it.
pub proof fn lemma_number(list: Seq<usize>, v: usize)
    requires
        list.len() <= u32::MAX,
        list.contains(v),
    ensures
        number(list, v) < list.len(),
        list[number(list, v) as int] == v,
{
    let k = choose|k: int| 0 <= k < list.len() && list[k] == v;
    assert(list[k] == v);
}

/// Every number below the length is the number of one node.
pub proof fn lemma_number_at(list: Seq<usize>, x: int)
    requires
        list.no_duplicates(),
        list.len() <= u32::MAX,
        0 <= x < list.len(),
    ensures
        number(list, list[x]) == x,
{
    assert(list.contains(list[x]));
    lemma_number(list, list[x]);
}

/// The numbers given so far.
pub(crate) struct Numbering {
    pub numbers: BTreeMap<usize, u32>,
    pub colors: BTreeMap<u32, (u64, u64)>,
    pub next: u32,
}

impl Numbering {
    /// The nodes of the list have their numbers and colours.
    pub(crate) open(crate) spec fn holds(self, kinds: Seq<Seq<char>>, list: Seq<usize>) -> bool {
        &&& self.next == list.len()
        &&& list.no_duplicates()
        &&& forall|v: usize| #[trigger] self.numbers@.contains_key(v) <==> list.contains(v)
        &&& forall|v: usize| #[trigger]
            self.numbers@.contains_key(v) ==> self.numbers@[v] < list.len() && list[self.numbers@[v] as int] == v
        &&& self.colors@ == hood_colors(kinds, list)
    }

    pub(crate) fn new(Ghost(kinds): Ghost<Seq<Seq<char>>>) -> (r: Self)
        ensures
            r.holds(kinds, Seq::empty()),
    {
        let r = Numbering { numbers: BTreeMap::new(), colors: BTreeMap::new(), next: 0 };
        assert(r.colors@ =~= hood_colors(kinds, Seq::empty()));
        r
    }

    /// The number of a node; a node that has none gets the next one.
    pub(crate) fn enter(&mut self, nodes: &[ResolverNode], v: usize, Ghost(list): Ghost<Seq<usize>>) -> (r: u32)
        requires
            v < nodes.len(),
            old(self).holds(kinds_of(node_views(nodes@)), list),
            noted(list, v).len() <= u32::MAX,
        ensures
            final(self).holds(kinds_of(node_views(nodes@)), noted(list, v)),
            r < noted(list, v).len(),
            noted(list, v)[r as int] == v,
    {
        let ghost kinds = kinds_of(node_views(nodes@));
        let ghost after = noted(list, v);
        proof {
            lemma_noted(list, v);
        }
        if let Some(x) = self.numbers.get(&v) {
            return *x;
        }
        let r: u32 = self.next;
        let class: u64 = if r == 0 {
            0
        } else {
            1
        };
        let ghost n0 = self.numbers@;
        let ghost c0 = self.colors@;
        assert(!list.contains(v));
        self.numbers.insert(v, r);
        assert(kinds[v as int] == nodes[v as int].node_type@);
        self.colors.insert(r, (class, fnv1a64(nodes[v].node_type.as_str().as_bytes())));
        self.next = r + 1;
        assert forall|x: usize| #[trigger] self.numbers@.contains_key(x) implies self.numbers@[x] < after.len()
            && after[self.numbers@[x] as int] == x by {
            if x != v {
                assert(n0.contains_key(x));
            }
        }
        assert forall|x: usize| #[trigger] self.numbers@.contains_key(x) <==> after.contains(x) by {
            assert(n0.contains_key(x) <==> list.contains(x));
        }
        assert(self.colors@ =~= hood_colors(kinds, after));
        r
    }
}

} // verus!
