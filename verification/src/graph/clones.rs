//! Symbols of the same structure.
//!
//! Symbols whose neighbourhoods have the same certificate are grouped. Symbols
//! that are gone, neighbourhoods with too few references, and neighbourhoods of
//! containment alone take no part, and a group has two members at least.

use vstd::prelude::*;

use crate::gather::{gather, lemma_gather_len};
use crate::lookup::{lemma_places_of, lemma_take_next, places_of, put, SortedIndex};
use crate::order::{
    index_before, is_distinct_sorted, is_stable_order, lemma_stable_order_exists, sort_distinct, sort_items, stable_indices,
    stable_sort, Sortable,
};
use crate::text::same_text;

verus! {

#[derive(Debug, Clone)]
pub struct CloneMember {
    /// The bare name, or the empty text where no node has the qualified name.
    pub name: String,
    pub qualified_name: String,
    pub node_type: String,
    pub file_path: String,
    pub start_line: Option<i64>,
}

#[derive(Debug, Clone)]
pub struct CloneGroup {
    /// The hash of the certificate that the members share.
    pub fingerprint: String,
    /// The size of the neighbourhood.
    pub edge_count: i64,
    pub members: Vec<CloneMember>,
}

/// A node, for the name and line of a member.
#[derive(Debug, Clone)]
pub struct DisplayRow {
    pub name: String,
    pub qualified_name: String,
    pub file_path: String,
    pub start_line: Option<i64>,
}

/// A stored fingerprint; its hash is empty where the symbol is gone.
#[derive(Debug, Clone)]
pub struct FingerprintRow {
    pub qualified_name: String,
    pub file_path: String,
    pub node_type: String,
    pub hash: String,
    pub edge_count: i64,
    pub name_edge_count: i64,
}

#[verifier::ext_equal]
pub struct MemberView {
    pub name: Seq<char>,
    pub qualified_name: Seq<char>,
    pub node_type: Seq<char>,
    pub file_path: Seq<char>,
    pub start_line: Option<i64>,
}

#[verifier::ext_equal]
pub struct GroupView {
    pub fingerprint: Seq<char>,
    pub edge_count: i64,
    pub members: Seq<MemberView>,
}

#[verifier::ext_equal]
pub struct DisplayView {
    pub name: Seq<char>,
    pub qualified_name: Seq<char>,
    pub file_path: Seq<char>,
    pub start_line: Option<i64>,
}

#[verifier::ext_equal]
pub struct FingerprintView {
    pub qualified_name: Seq<char>,
    pub file_path: Seq<char>,
    pub node_type: Seq<char>,
    pub hash: Seq<char>,
    pub edge_count: i64,
    pub name_edge_count: i64,
}

impl DeepView for CloneMember {
    type V = MemberView;

    open spec fn deep_view(&self) -> MemberView {
        MemberView {
            name: self.name@,
            qualified_name: self.qualified_name@,
            node_type: self.node_type@,
            file_path: self.file_path@,
            start_line: self.start_line,
        }
    }
}

impl DeepView for CloneGroup {
    type V = GroupView;

    open spec fn deep_view(&self) -> GroupView {
        GroupView {
            fingerprint: self.fingerprint@,
            edge_count: self.edge_count,
            members: self.members.deep_view(),
        }
    }
}

impl DeepView for DisplayRow {
    type V = DisplayView;

    open spec fn deep_view(&self) -> DisplayView {
        DisplayView {
            name: self.name@,
            qualified_name: self.qualified_name@,
            file_path: self.file_path@,
            start_line: self.start_line,
        }
    }
}

impl DeepView for FingerprintRow {
    type V = FingerprintView;

    open spec fn deep_view(&self) -> FingerprintView {
        FingerprintView {
            qualified_name: self.qualified_name@,
            file_path: self.file_path@,
            node_type: self.node_type@,
            hash: self.hash@,
            edge_count: self.edge_count,
            name_edge_count: self.name_edge_count,
        }
    }
}

// ---- what is shown of a member ----------------------------------------------------------

/// The rank of a line: an unknown line comes last.
pub open spec fn line_rank(line: Option<i64>) -> i64 {
    match line {
        Some(l) => l,
        None => i64::MAX,
    }
}

/// The row, among those of a symbol, that is shown: the first of the least line.
pub open spec fn shown(rows: Seq<DisplayView>, qualified_name: Seq<char>, file_path: Seq<char>) -> Option<DisplayView>
    decreases rows.len(),
{
    if rows.len() == 0 {
        None
    } else {
        let before = shown(rows.drop_last(), qualified_name, file_path);
        let row = rows.last();
        if row.qualified_name != qualified_name || row.file_path != file_path {
            before
        } else {
            match before {
                None => Some(row),
                Some(old) => if line_rank(row.start_line) < line_rank(old.start_line) {
                    Some(row)
                } else {
                    before
                },
            }
        }
    }
}

pub open spec fn member_of(rows: Seq<DisplayView>, f: FingerprintView) -> MemberView {
    let d = shown(rows, f.qualified_name, f.file_path);
    MemberView {
        name: match d {
            Some(row) => row.name,
            None => Seq::empty(),
        },
        qualified_name: f.qualified_name,
        node_type: f.node_type,
        file_path: f.file_path,
        start_line: match d {
            Some(row) => row.start_line,
            None => None,
        },
    }
}

// ---- groups ---------------------------------------------------------------------------------

/// Does the fingerprint take part?
pub open spec fn takes_part(f: FingerprintView, min_edges: int) -> bool {
    f.hash.len() > 0 && f.edge_count >= min_edges && f.name_edge_count != 0
}

pub open spec fn with_hash(hash: Seq<char>, min_edges: int) -> spec_fn(FingerprintView) -> Option<FingerprintView> {
    |f: FingerprintView|
        if takes_part(f, min_edges) && f.hash == hash {
            Some(f)
        } else {
            None
        }
}

/// The fingerprints of a hash that take part.
pub open spec fn sharing(prints: Seq<FingerprintView>, hash: Seq<char>, min_edges: int) -> Seq<FingerprintView> {
    gather(prints, with_hash(hash, min_edges))
}

/// The key by which members are ordered: file, line (an unknown one first),
/// qualified name.
pub open spec fn member_key(m: MemberView) -> (Seq<char>, ((u64, i64), Seq<char>)) {
    (
        m.file_path,
        (
            match m.start_line {
                Some(l) => (1u64, l),
                None => (0u64, 0i64),
            },
            m.qualified_name,
        ),
    )
}

/// The members of a group, in order.
pub open spec fn members_of(rows: Seq<DisplayView>, same: Seq<FingerprintView>) -> Seq<MemberView> {
    let all = Seq::new(same.len(), |i: int| member_of(rows, same[i]));
    let keys = Seq::new(same.len(), |i: int| member_key(all[i]));
    stable_sort::<(String, ((u64, i64), String)), MemberView>(keys, all)
}

/// The group of a hash.
pub open spec fn group_of(
    rows: Seq<DisplayView>,
    prints: Seq<FingerprintView>,
    hash: Seq<char>,
    min_edges: int,
) -> GroupView {
    let same = sharing(prints, hash, min_edges);
    GroupView { fingerprint: hash, edge_count: same[0].edge_count, members: members_of(rows, same) }
}

/// Larger groups come first; among equals the hash decides.
pub open spec fn group_before(a: GroupView, b: GroupView) -> bool {
    a.members.len() > b.members.len() || (a.members.len() == b.members.len() && <String as Sortable>::before(
        a.fingerprint,
        b.fingerprint,
    ))
}

/// The list holds the group of every hash that two fingerprints share, each
/// once, in order.
pub open spec fn lists_groups(
    groups: Seq<GroupView>,
    rows: Seq<DisplayView>,
    prints: Seq<FingerprintView>,
    min_edges: int,
) -> bool {
    &&& forall|i: int| 0 <= i < groups.len() ==> is_good_group(#[trigger] groups[i], rows, prints, min_edges)
    &&& forall|h: Seq<char>| (#[trigger] sharing(prints, h, min_edges)).len() >= 2 ==> is_listed(groups, h)
    &&& forall|i: int, j: int| 0 <= i < j < groups.len() ==> group_before(#[trigger] groups[i], #[trigger] groups[j])
}

pub open spec fn is_listed(groups: Seq<GroupView>, hash: Seq<char>) -> bool {
    exists|i: int| 0 <= i < groups.len() && (#[trigger] groups[i]).fingerprint == hash
}

fn find_shown(rows: &Vec<DisplayRow>, qualified_name: &str, file_path: &str) -> (r: Option<usize>)
    ensures
        match r {
            Some(i) => i < rows.len() && shown(rows.deep_view(), qualified_name@, file_path@) == Some(
                rows@[i as int].deep_view(),
            ),
            None => shown(rows.deep_view(), qualified_name@, file_path@) is None,
        },
{
    let ghost rv = rows.deep_view();
    let mut found: Option<usize> = None;
    let mut i: usize = 0;
    while i < rows.len()
        invariant
            i <= rows.len(),
            rv == rows.deep_view(),
            match found {
                Some(k) => k < rows.len() && shown(rv.take(i as int), qualified_name@, file_path@) == Some(
                    rows@[k as int].deep_view(),
                ),
                None => shown(rv.take(i as int), qualified_name@, file_path@) is None,
            },
        decreases rows.len() - i,
    {
        proof {
            lemma_take_next(rv, i as int);
        }
        let row = &rows[i];
        assert(rv[i as int] == row.deep_view());
        if same_text(row.qualified_name.as_str(), qualified_name) && same_text(row.file_path.as_str(), file_path) {
            match found {
                None => {
                    found = Some(i);
                },
                Some(k) => {
                    let new: i64 = match row.start_line {
                        Some(l) => l,
                        None => i64::MAX,
                    };
                    let old: i64 = match rows[k].start_line {
                        Some(l) => l,
                        None => i64::MAX,
                    };
                    if new < old {
                        found = Some(i);
                    }
                },
            }
        }
        i += 1;
    }
    assert(rv.take(i as int) =~= rv);
    found
}

fn make_member(rows: &Vec<DisplayRow>, f: &FingerprintRow) -> (r: CloneMember)
    ensures
        r.deep_view() == member_of(rows.deep_view(), f.deep_view()),
{
    let (name, start_line): (String, Option<i64>) = match find_shown(
        rows,
        f.qualified_name.as_str(),
        f.file_path.as_str(),
    ) {
        Some(i) => (rows[i].name.as_str().to_owned(), rows[i].start_line),
        None => (String::new(), None),
    };
    let r = CloneMember {
        name,
        qualified_name: f.qualified_name.as_str().to_owned(),
        node_type: f.node_type.as_str().to_owned(),
        file_path: f.file_path.as_str().to_owned(),
        start_line,
    };
    assert(r.deep_view() =~= member_of(rows.deep_view(), f.deep_view()));
    r
}

fn make_key(m: &CloneMember) -> (r: (String, ((u64, i64), String)))
    ensures
        r.deep_view() == member_key(m.deep_view()),
{
    let line: (u64, i64) = match m.start_line {
        Some(l) => (1u64, l),
        None => (0u64, 0i64),
    };
    (m.file_path.as_str().to_owned(), (line, m.qualified_name.as_str().to_owned()))
}

fn make_group(rows: &Vec<DisplayRow>, prints: &Vec<FingerprintRow>, at: &Vec<usize>, hash: &String, Ghost(
    min_edges,
): Ghost<int>) -> (r: CloneGroup)
    requires
        at.len() >= 2,
        forall|i: int| 0 <= i < at.len() ==> #[trigger] at@[i] < prints.len(),
        sharing(prints.deep_view(), hash@, min_edges) == Seq::new(at@.len(), |i: int| prints.deep_view()[at@[i] as int]),
    ensures
        r.deep_view() == group_of(rows.deep_view(), prints.deep_view(), hash@, min_edges),
        r.members.len() == at.len(),
{
    let ghost rv = rows.deep_view();
    let ghost same = sharing(prints.deep_view(), hash@, min_edges);
    let ghost all = Seq::new(same.len(), |i: int| member_of(rv, same[i]));
    let ghost kv = Seq::new(same.len(), |i: int| member_key(all[i]));
    let mut members: Vec<CloneMember> = Vec::new();
    let mut keys: Vec<(String, ((u64, i64), String))> = Vec::new();
    let mut i: usize = 0;
    while i < at.len()
        invariant
            i <= at.len(),
            rv == rows.deep_view(),
            forall|i: int| 0 <= i < at.len() ==> #[trigger] at@[i] < prints.len(),
            same == Seq::new(at@.len(), |i: int| prints.deep_view()[at@[i] as int]),
            all == Seq::new(same.len(), |i: int| member_of(rv, same[i])),
            kv == Seq::new(same.len(), |i: int| member_key(all[i])),
            members.deep_view() == all.take(i as int),
            keys.deep_view() == kv.take(i as int),
        decreases at.len() - i,
    {
        assert(at@[i as int] < prints.len());
        proof {
            lemma_take_next(all, i as int);
            lemma_take_next(kv, i as int);
        }
        assert(same[i as int] == prints@[at@[i as int] as int].deep_view());
        let m = make_member(rows, &prints[at[i]]);
        put(&mut keys, make_key(&m));
        put(&mut members, m);
        i += 1;
    }
    assert(all.take(i as int) =~= all);
    assert(kv.take(i as int) =~= kv);
    assert(members.deep_view().len() == members.len());
    assert(keys.deep_view().len() == keys.len());
    assert(at@[0] < prints.len());
    assert(same[0] == prints@[at@[0] as int].deep_view());
    let ghost mv = members@;
    let out = sort_items(&keys, members);
    proof {
        let p = stable_indices::<(String, ((u64, i64), String))>(kv);
        lemma_stable_order_exists::<(String, ((u64, i64), String))>(kv);
        assert(out.deep_view() =~= members_of(rv, same)) by {
            assert forall|x: int| 0 <= x < p.len() implies (#[trigger] out@[x]).deep_view() == all[p[x] as int] by {
                assert(out@[x] == mv[p[x] as int]);
                assert(all[p[x] as int] == mv[p[x] as int].deep_view());
            }
        }
    }
    CloneGroup { fingerprint: hash.as_str().to_owned(), edge_count: prints[at[0]].edge_count, members: out }
}

/// The fingerprints of a hash stand at the places of the hash among those that
/// take part.
proof fn lemma_sharing(prints: Seq<FingerprintView>, live: Seq<usize>, hashes: Seq<Seq<char>>, hash: Seq<char>, min_edges: int)
    requires
        prints.len() <= usize::MAX,
        live == gather(crate::graph::web::places(prints.len()), part_fn(prints, min_edges)),
        hashes == Seq::new(live.len(), |i: int| prints[live[i] as int].hash),
    ensures
        sharing(prints, hash, min_edges) == Seq::new(
            places_of(hashes, hash).len(),
            |i: int| prints[live[places_of(hashes, hash)[i] as int] as int],
        ),
    decreases prints.len(),
{
    let want = Seq::new(
        places_of(hashes, hash).len(),
        |i: int| prints[live[places_of(hashes, hash)[i] as int] as int],
    );
    if prints.len() == 0 {
        assert(crate::graph::web::places(0) =~= Seq::empty());
        assert(hashes =~= Seq::empty());
        assert(want =~= Seq::empty());
    } else {
        let p1 = prints.drop_last();
        let all = crate::graph::web::places(prints.len());
        assert(all.drop_last() =~= crate::graph::web::places(p1.len()));
        let live1 = gather(crate::graph::web::places(p1.len()), part_fn(p1, min_edges));
        assert(gather(all.drop_last(), part_fn(prints, min_edges)) == live1) by {
            assert forall|i: int| 0 <= i < all.drop_last().len() implies part_fn(prints, min_edges)(
                #[trigger] all.drop_last()[i],
            ) == part_fn(p1, min_edges)(crate::graph::web::places(p1.len())[i]) by {
                assert(prints[i] == p1[i]);
            }
            crate::gather::lemma_gather_same(
                all.drop_last(),
                crate::graph::web::places(p1.len()),
                part_fn(prints, min_edges),
                part_fn(p1, min_edges),
            );
        }
        lemma_part_members(p1, min_edges);
        let hashes1 = Seq::new(live1.len(), |i: int| p1[live1[i] as int].hash);
        lemma_sharing(p1, live1, hashes1, hash, min_edges);
        lemma_live_len(p1, min_edges);
        lemma_places_of(hashes1, hash);
        let n = (prints.len() - 1) as usize;
        assert(all.last() == n);
        let last = prints.last();
        assert forall|i: int| 0 <= i < live1.len() implies live1[i] < p1.len() && prints[live1[i] as int] == p1[live1[i] as int] by {
        }
        let q1 = places_of(hashes1, hash);
        if takes_part(last, min_edges) {
            assert(live == live1.push(n));
            assert(hashes =~= hashes1.push(last.hash));
            assert(hashes.drop_last() =~= hashes1);
            assert(sharing(prints, hash, min_edges) =~= want) by {
                assert forall|i: int| 0 <= i < q1.len() implies prints[live[places_of(hashes, hash)[i] as int] as int]
                    == p1[live1[q1[i] as int] as int] by {
                    assert(q1[i] < hashes1.len());
                    assert(places_of(hashes, hash)[i] == q1[i]);
                }
            }
        } else {
            assert(live == live1);
            assert(hashes =~= hashes1);
            assert(sharing(prints, hash, min_edges) =~= want) by {
                assert forall|i: int| 0 <= i < q1.len() implies prints[live[q1[i] as int] as int]
                    == p1[live1[q1[i] as int] as int] by {
                    assert(q1[i] < hashes1.len());
                }
            }
        }
    }
}

pub open spec fn part_fn(prints: Seq<FingerprintView>, min_edges: int) -> spec_fn(usize) -> Option<usize> {
    |i: usize|
        if takes_part(prints[i as int], min_edges) {
            Some(i)
        } else {
            None
        }
}

proof fn lemma_part_members(prints: Seq<FingerprintView>, min_edges: int)
    requires
        prints.len() <= usize::MAX,
    ensures
        ({
            let live = gather(crate::graph::web::places(prints.len()), part_fn(prints, min_edges));
            forall|i: int| 0 <= i < live.len() ==> #[trigger] live[i] < prints.len()
        }),
{
    let all = crate::graph::web::places(prints.len());
    let f = part_fn(prints, min_edges);
    let live = gather(all, f);
    assert forall|i: int| 0 <= i < live.len() implies #[trigger] live[i] < prints.len() by {
        assert(live.contains(live[i]));
        crate::gather::lemma_gather_member(all, f, live[i]);
        let k = choose|k: int| 0 <= k < all.len() && f(#[trigger] all[k]) == Some(live[i]);
        assert(all[k] == live[i]);
    }
}

proof fn lemma_live_len(prints: Seq<FingerprintView>, min_edges: int)
    ensures
        gather(crate::graph::web::places(prints.len()), part_fn(prints, min_edges)).len() <= prints.len(),
{
    lemma_gather_len(crate::graph::web::places(prints.len()), part_fn(prints, min_edges));
}

/// The groups of symbols of the same structure, the largest first.
pub fn find_clone_groups(rows: &Vec<DisplayRow>, prints: &Vec<FingerprintRow>, min_edges: usize) -> (r: Vec<CloneGroup>)
    ensures
        lists_groups(r.deep_view(), rows.deep_view(), prints.deep_view(), min_edges as int),
{
    let ghost least = min_edges as int;
    let ghost rv = rows.deep_view();
    let ghost pv = prints.deep_view();
    let ghost all = crate::graph::web::places(pv.len());
    let ghost f = part_fn(pv, least);
    let mut live: Vec<usize> = Vec::new();
    let mut hashes: Vec<String> = Vec::new();
    assert(all.take(0) =~= Seq::empty());
    let mut i: usize = 0;
    while i < prints.len()
        invariant
            i <= prints.len(),
            pv == prints.deep_view(),
            all == crate::graph::web::places(pv.len()),
            f == part_fn(pv, least),
            least == min_edges as int,
            live@ == gather(all.take(i as int), f),
            live.len() <= i,
            forall|k: int| 0 <= k < live.len() ==> #[trigger] live@[k] < prints.len(),
            hashes.deep_view() == Seq::new(live@.len(), |k: int| pv[live@[k] as int].hash),
        decreases prints.len() - i,
    {
        proof {
            lemma_take_next(all, i as int);
        }
        let p = &prints[i];
        assert(pv[i as int] == p.deep_view());
        if !p.hash.as_str().is_empty() && p.edge_count >= 0 && p.edge_count as u64 >= min_edges as u64 && p.name_edge_count != 0 {
            live.push(i);
            put(&mut hashes, p.hash.as_str().to_owned());
            assert(hashes.deep_view() =~= Seq::new(live@.len(), |k: int| pv[live@[k] as int].hash));
        }
        i += 1;
    }
    assert(all.take(i as int) =~= all);
    let ghost hv = hashes.deep_view();
    let distinct = sort_distinct(crate::text::copy_texts(&hashes));
    let ghost dv = distinct.deep_view();
    let index = SortedIndex::build(hashes);
    let mut groups: Vec<CloneGroup> = Vec::new();
    let mut keys: Vec<u64> = Vec::new();
    let mut j: usize = 0;
    while j < distinct.len()
        invariant
            j <= distinct.len(),
            rv == rows.deep_view(),
            pv == prints.deep_view(),
            dv == distinct.deep_view(),
            pv.len() <= usize::MAX,
            live@ == gather(crate::graph::web::places(pv.len()), part_fn(pv, least)),
            forall|k: int| 0 <= k < live.len() ==> #[trigger] live@[k] < prints.len(),
            hv == Seq::new(live@.len(), |k: int| pv[live@[k] as int].hash),
            hv.len() <= usize::MAX,
            index.wf(),
            index.keys() == hv,
            is_distinct_sorted::<String>(hv, dv),
            keys.len() == groups.len(),
            groups_so_far(groups.deep_view(), rv, pv, least),
            forall|k: int| 0 <= k < groups.len() ==> #[trigger] keys@[k] == u64::MAX - groups@[k].members.len(),
            forall|k: int| 0 <= k < j && sharing(pv, #[trigger] dv[k], least).len() >= 2 ==> is_listed(
                groups.deep_view(),
                dv[k],
            ),
            forall|a: int, b: int| 0 <= a < b < groups.len() ==> <String as Sortable>::before(
                (#[trigger] groups@[a]).fingerprint@,
                (#[trigger] groups@[b]).fingerprint@,
            ),
            forall|a: int| 0 <= a < groups.len() ==> exists|k: int| 0 <= k < j && dv[k] == (#[trigger] groups@[a]).fingerprint@,
        decreases distinct.len() - j,
    {
        let hash = &distinct[j];
        assert(dv[j as int] == hash@);
        let q = index.places(hash);
        proof {
            lemma_sharing(pv, live@, hv, hash@, least);
            lemma_places_of(hv, hash@);
        }
        let ghost before = groups.deep_view();
        let ghost was = groups@;
        if q.len() >= 2 {
            let mut at: Vec<usize> = Vec::new();
            let mut k: usize = 0;
            while k < q.len()
                invariant
                    k <= q.len(),
                    q@ == places_of(hv, hash@),
                    hv.len() == live.len(),
                    forall|x: int| 0 <= x < q.len() ==> #[trigger] q@[x] < live.len(),
                    forall|x: int| 0 <= x < live.len() ==> #[trigger] live@[x] < prints.len(),
                    at.len() == k,
                    forall|x: int| 0 <= x < k ==> #[trigger] at@[x] == live@[q@[x] as int],
                decreases q.len() - k,
            {
                assert(q@[k as int] < live.len());
                at.push(live[q[k]]);
                k += 1;
            }
            assert forall|x: int| 0 <= x < at.len() implies #[trigger] at@[x] < prints.len() by {
                assert(q@[x] < live.len());
                assert(live@[q@[x] as int] < prints.len());
            }
            assert(sharing(pv, hash@, least) =~= Seq::new(at@.len(), |x: int| pv[at@[x] as int]));
            let g = make_group(rows, prints, &at, hash, Ghost(least));
            keys.push(u64::MAX - g.members.len() as u64);
            let ghost gv = g.deep_view();
            put(&mut groups, g);
            proof {
                let after = groups.deep_view();
                assert(after == before.push(gv));
                assert(after[before.len() as int].fingerprint == dv[j as int]);
                assert forall|a: int| 0 <= a < after.len() implies is_good_group(#[trigger] after[a], rv, pv, least) by {
                    if a < before.len() {
                        assert(after[a] == before[a]);
                        assert(is_good_group(before[a], rv, pv, least));
                    }
                }
                assert forall|k: int| 0 <= k < j + 1 && sharing(pv, #[trigger] dv[k], least).len() >= 2 implies is_listed(
                    after,
                    dv[k],
                ) by {
                    if k < j {
                        let x = choose|x: int| 0 <= x < before.len() && (#[trigger] before[x]).fingerprint == dv[k];
                        assert(after[x] == before[x]);
                    }
                }
                assert forall|a: int, b: int| 0 <= a < b < groups.len() implies <String as Sortable>::before(
                    (#[trigger] groups@[a]).fingerprint@,
                    (#[trigger] groups@[b]).fingerprint@,
                ) by {
                    assert(groups@[a] == was[a]);
                    if b < was.len() {
                        assert(groups@[b] == was[b]);
                    } else {
                        let k = choose|k: int| 0 <= k < j && dv[k] == was[a].fingerprint@;
                        assert(<String as Sortable>::before(dv[k], dv[j as int]));
                    }
                }
                assert forall|a: int| 0 <= a < groups.len() implies exists|k: int|
                    0 <= k < j + 1 && dv[k] == (#[trigger] groups@[a]).fingerprint@ by {
                    if a < was.len() {
                        assert(groups@[a] == was[a]);
                        let k = choose|k: int| 0 <= k < j && dv[k] == was[a].fingerprint@;
                        assert(dv[k] == groups@[a].fingerprint@);
                    } else {
                        assert(dv[j as int] == groups@[a].fingerprint@);
                    }
                }
            }
        }
        j += 1;
    }
    let ghost gs = groups@;
    let ghost gv = groups.deep_view();
    assert(keys.deep_view() =~= keys@);
    let out = sort_items(&keys, groups);
    proof {
        let kv = keys@;
        let p = stable_indices::<u64>(kv);
        lemma_stable_order_exists::<u64>(kv);
        assert(is_stable_order::<u64>(kv, p));
        let ov = out.deep_view();
        assert forall|a: int| 0 <= a < ov.len() implies is_good_group(#[trigger] ov[a], rv, pv, least) by {
            assert(out@[a] == gs[p[a] as int]);
            assert(is_good_group(gv[p[a] as int], rv, pv, least));
        }
        assert forall|h: Seq<char>| (#[trigger] sharing(pv, h, least)).len() >= 2 implies is_listed(ov, h) by {
            lemma_sharing(pv, live@, hv, h, least);
            lemma_places_of(hv, h);
            assert(hv[places_of(hv, h)[0] as int] == h);
            assert(hv.contains(h));
            assert(dv.contains(h));
            let k = choose|k: int| 0 <= k < dv.len() && dv[k] == h;
            assert(is_listed(gv, dv[k]));
            let x = choose|x: int| 0 <= x < gv.len() && (#[trigger] gv[x]).fingerprint == h;
            assert(p.contains(x as usize));
            let y = choose|y: int| 0 <= y < p.len() && p[y] == x as usize;
            assert(out@[y] == gs[x]);
            assert(ov[y].fingerprint == h);
        }
        assert forall|a: int, b: int| 0 <= a < b < ov.len() implies group_before(#[trigger] ov[a], #[trigger] ov[b]) by {
            assert(index_before::<u64>(kv, p[a] as int, p[b] as int));
            assert(out@[a] == gs[p[a] as int]);
            assert(out@[b] == gs[p[b] as int]);
            assert(kv[p[a] as int] == u64::MAX - gs[p[a] as int].members.len());
            assert(kv[p[b] as int] == u64::MAX - gs[p[b] as int].members.len());
            if kv[p[a] as int] == kv[p[b] as int] {
                assert(<String as Sortable>::before(gs[p[a] as int].fingerprint@, gs[p[b] as int].fingerprint@));
            }
        }
    }
    out
}

/// The group is that of its hash, which two fingerprints share.
pub open spec fn is_good_group(g: GroupView, rows: Seq<DisplayView>, prints: Seq<FingerprintView>, min_edges: int) -> bool {
    g == group_of(rows, prints, g.fingerprint, min_edges) && sharing(prints, g.fingerprint, min_edges).len() >= 2
}

spec fn groups_so_far(
    groups: Seq<GroupView>,
    rows: Seq<DisplayView>,
    prints: Seq<FingerprintView>,
    min_edges: int,
) -> bool {
    forall|i: int| 0 <= i < groups.len() ==> is_good_group(#[trigger] groups[i], rows, prints, min_edges)
}

} // verus!
