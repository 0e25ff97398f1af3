//! The nodes with the most connections.

use vstd::prelude::*;

use crate::lookup::{lemma_places_of, lemma_take_next, places_of, put, SortedIndex};
use crate::order::{sort_items, stable_sort};

verus! {

#[derive(Debug, Clone)]
pub struct HubNode {
    pub node_id: String,
    pub name: String,
    pub node_type: String,
    pub file_path: String,
    pub in_degree: i64,
    pub out_degree: i64,
    pub total_degree: i64,
}

/// How many references name a symbol of that name and type.
#[derive(Debug, Clone)]
pub struct InDegree {
    pub to_name: String,
    pub to_type: String,
    pub count: i64,
}

/// How many references stand in a node.
#[derive(Debug, Clone)]
pub struct OutDegree {
    pub from_id: String,
    pub count: i64,
}

/// A node whose degree is wanted.
#[derive(Debug, Clone)]
pub struct HubCandidate {
    pub node_id: String,
    pub name: String,
    pub node_type: String,
    pub file_path: String,
}

#[verifier::ext_equal]
pub struct HubView {
    pub node_id: Seq<char>,
    pub name: Seq<char>,
    pub node_type: Seq<char>,
    pub file_path: Seq<char>,
    pub in_degree: i64,
    pub out_degree: i64,
    pub total_degree: i64,
}

impl DeepView for HubNode {
    type V = HubView;

    open spec fn deep_view(&self) -> HubView {
        HubView {
            node_id: self.node_id@,
            name: self.name@,
            node_type: self.node_type@,
            file_path: self.file_path@,
            in_degree: self.in_degree,
            out_degree: self.out_degree,
            total_degree: self.total_degree,
        }
    }
}

pub open spec fn in_keys(rows: Seq<InDegree>) -> Seq<(Seq<char>, Seq<char>)> {
    Seq::new(rows.len(), |i: int| (rows[i].to_name@, rows[i].to_type@))
}

pub open spec fn out_keys(rows: Seq<OutDegree>) -> Seq<Seq<char>> {
    Seq::new(rows.len(), |i: int| rows[i].from_id@)
}

/// The count of the last row for a name and type; nothing is counted for an
/// empty name.
pub open spec fn in_degree_of(rows: Seq<InDegree>, name: Seq<char>, node_type: Seq<char>) -> i64 {
    let q = places_of(in_keys(rows), (name, node_type));
    if q.len() == 0 || name.len() == 0 {
        0
    } else {
        rows[q.last() as int].count
    }
}

/// The count of the last row for a node; nothing is counted for an empty id.
pub open spec fn out_degree_of(rows: Seq<OutDegree>, id: Seq<char>) -> i64 {
    let q = places_of(out_keys(rows), id);
    if q.len() == 0 || id.len() == 0 {
        0
    } else {
        rows[q.last() as int].count
    }
}

pub open spec fn hub_of(n: HubCandidate, ins: Seq<InDegree>, outs: Seq<OutDegree>) -> HubView {
    let a = in_degree_of(ins, n.name@, n.node_type@);
    let b = out_degree_of(outs, n.node_id@);
    HubView {
        node_id: n.node_id@,
        name: n.name@,
        node_type: n.node_type@,
        file_path: n.file_path@,
        in_degree: a,
        out_degree: b,
        total_degree: (a + b) as i64,
    }
}

/// The nodes with their degrees, in their order.
pub open spec fn hubs_of(nodes: Seq<HubCandidate>, ins: Seq<InDegree>, outs: Seq<OutDegree>) -> Seq<HubView> {
    Seq::new(nodes.len(), |i: int| hub_of(nodes[i], ins, outs))
}

/// The key by which a greater number comes first.
pub open spec fn falling(n: i64) -> u64 {
    (i64::MAX - n) as u64
}

pub open spec fn falling_keys(hubs: Seq<HubView>) -> Seq<u64> {
    Seq::new(hubs.len(), |i: int| falling(hubs[i].total_degree))
}

/// The first items of a list, `limit` at most.
pub open spec fn first_of<A>(s: Seq<A>, limit: usize) -> Seq<A> {
    if s.len() <= limit {
        s
    } else {
        s.take(limit as int)
    }
}

/// The nodes by falling degree, nodes of equal degree in their old order, as
/// many as are wanted.
pub open spec fn top_hubs(hubs: Seq<HubView>, limit: usize) -> Seq<HubView> {
    first_of(stable_sort::<u64, HubView>(falling_keys(hubs), hubs), limit)
}

/// No sum of two degrees is out of range.
pub open spec fn sums_fit(ins: Seq<InDegree>, outs: Seq<OutDegree>) -> bool {
    forall|i: int, j: int| 0 <= i < ins.len() && 0 <= j < outs.len() ==> i64::MIN <= (#[trigger] ins[i]).count + (
    #[trigger] outs[j]).count <= i64::MAX
}

pub(crate) fn falling_key(n: i64) -> (r: u64)
    ensures
        r == falling(n),
{
    (i64::MAX as i128 - n as i128) as u64
}

/// The nodes with the most connections.
pub fn find_hub_nodes(ins: &Vec<InDegree>, outs: &Vec<OutDegree>, nodes: &Vec<HubCandidate>, limit: usize) -> (r: Vec<HubNode>)
    requires
        sums_fit(ins@, outs@),
    ensures
        r.deep_view() == top_hubs(hubs_of(nodes@, ins@, outs@), limit),
{
    let mut ikeys: Vec<(String, String)> = Vec::new();
    let mut i: usize = 0;
    while i < ins.len()
        invariant
            i <= ins.len(),
            ikeys.deep_view() == in_keys(ins@).take(i as int),
        decreases ins.len() - i,
    {
        proof {
            lemma_take_next(in_keys(ins@), i as int);
        }
        let key: (String, String) = (ins[i].to_name.as_str().to_owned(), ins[i].to_type.as_str().to_owned());
        assert(key.deep_view() == in_keys(ins@)[i as int]);
        put(&mut ikeys, key);
        i += 1;
    }
    assert(in_keys(ins@).take(i as int) =~= in_keys(ins@));
    let in_index = SortedIndex::build(ikeys);
    let mut okeys: Vec<String> = Vec::new();
    let mut j: usize = 0;
    while j < outs.len()
        invariant
            j <= outs.len(),
            okeys.deep_view() == out_keys(outs@).take(j as int),
        decreases outs.len() - j,
    {
        proof {
            lemma_take_next(out_keys(outs@), j as int);
        }
        put(&mut okeys, outs[j].from_id.as_str().to_owned());
        j += 1;
    }
    assert(out_keys(outs@).take(j as int) =~= out_keys(outs@));
    let out_index = SortedIndex::build(okeys);
    let ghost want = hubs_of(nodes@, ins@, outs@);
    let mut hubs: Vec<HubNode> = Vec::new();
    let mut keys: Vec<u64> = Vec::new();
    let mut k: usize = 0;
    while k < nodes.len()
        invariant
            k <= nodes.len(),
            sums_fit(ins@, outs@),
            in_index.wf(),
            in_index.keys() == in_keys(ins@),
            out_index.wf(),
            out_index.keys() == out_keys(outs@),
            want == hubs_of(nodes@, ins@, outs@),
            hubs.deep_view() == want.take(k as int),
            keys@ == falling_keys(want).take(k as int),
        decreases nodes.len() - k,
    {
        let n = &nodes[k];
        let key: (String, String) = (n.name.as_str().to_owned(), n.node_type.as_str().to_owned());
        assert(key.deep_view() == (n.name@, n.node_type@));
        let q = in_index.places(&key);
        let s = out_index.places(&n.node_id);
        proof {
            lemma_places_of(in_keys(ins@), (n.name@, n.node_type@));
            lemma_places_of(out_keys(outs@), n.node_id@);
            lemma_take_next(want, k as int);
            lemma_take_next(falling_keys(want), k as int);
        }
        let a: i64 = if q.len() == 0 || n.name.as_str().is_empty() {
            0
        } else {
            assert(q@[q.len() - 1] < ins.len());
            ins[q[q.len() - 1]].count
        };
        let b: i64 = if s.len() == 0 || n.node_id.as_str().is_empty() {
            0
        } else {
            assert(s@[s.len() - 1] < outs.len());
            outs[s[s.len() - 1]].count
        };
        assert(i64::MIN <= a + b <= i64::MAX) by {
            if q.len() > 0 && n.name@.len() > 0 && s.len() > 0 && n.node_id@.len() > 0 {
                let x = q@[q.len() - 1] as int;
                let y = s@[s.len() - 1] as int;
                assert(i64::MIN <= ins@[x].count + outs@[y].count <= i64::MAX);
            }
        }
        keys.push(falling_key(a + b));
        put(
            &mut hubs,
            HubNode {
                node_id: n.node_id.as_str().to_owned(),
                name: n.name.as_str().to_owned(),
                node_type: n.node_type.as_str().to_owned(),
                file_path: n.file_path.as_str().to_owned(),
                in_degree: a,
                out_degree: b,
                total_degree: a + b,
            },
        );
        k += 1;
    }
    assert(want.take(k as int) =~= want);
    assert(falling_keys(want).take(k as int) =~= falling_keys(want));
    assert(keys.deep_view() =~= keys@);
    let ghost hv = hubs@;
    let mut out = sort_items(&keys, hubs);
    proof {
        crate::order::lemma_stable_order_exists::<u64>(keys.deep_view());
    }
    assert(out.deep_view() =~= stable_sort::<u64, HubView>(falling_keys(want), want)) by {
        let p = crate::order::stable_indices::<u64>(falling_keys(want));
        assert forall|x: int| 0 <= x < p.len() implies (#[trigger] out@[x]).deep_view() == want[p[x] as int] by {
            assert(out@[x] == hv[p[x] as int]);
            assert(hubs_of(nodes@, ins@, outs@)[p[x] as int] == hv[p[x] as int].deep_view());
        }
    }
    if out.len() > limit {
        let ghost all = out@;
        out.truncate(limit);
        assert(out@ =~= all.take(limit as int));
        assert(out.deep_view() =~= first_of(stable_sort::<u64, HubView>(falling_keys(want), want), limit));
    }
    out
}

} // verus!
