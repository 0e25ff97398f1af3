//! What a delta says of the rows that it is made of.

use vstd::prelude::*;

use crate::facade::delta::{
    asked, by_place, classified, delta_keys, former_hashes, fresh, hashes, kept, moved, renamed, still_gone, still_new,
    tells_rename, vanished, DeltaRowView, DeltaSymbolView,
};
use crate::gather::{gather, lemma_gather_len, lemma_gather_member};
use crate::lookup::{lemma_places_of, places_of};
use crate::order::{
    is_ascending, lemma_permutation_covers, lemma_sorted, lemma_stable_order_exists,
    lemma_stable_order_is_permutation, lemma_stable_order_sorts, permuted, stable_indices,
};

verus! {

/// The row came in with the last run.
pub open spec fn came(row: DeltaRowView) -> bool {
    row.hash is Some && row.prev_hash is None
}

/// The row went with the last run.
pub open spec fn went(row: DeltaRowView) -> bool {
    row.hash is None && row.prev_hash is Some
}

/// Row `i` came and row `j` went with one and the same fingerprint, which no
/// other row came or went with.
pub open spec fn are_one(rows: Seq<DeltaRowView>, i: int, j: int) -> bool {
    &&& 0 <= i < rows.len() && 0 <= j < rows.len()
    &&& came(rows[i]) && went(rows[j])
    &&& rows[i].hash == rows[j].prev_hash
    &&& forall|k: int| 0 <= k < rows.len() && came(#[trigger] rows[k]) && rows[k].hash == rows[i].hash ==> k == i
    &&& forall|k: int| 0 <= k < rows.len() && went(#[trigger] rows[k]) && rows[k].prev_hash == rows[j].prev_hash ==> k == j
}

/// The symbol says what the row says, and nothing of a rename.
pub open spec fn says(d: DeltaSymbolView, row: DeltaRowView) -> bool {
    &&& d.qualified_name == row.qualified_name
    &&& d.file_path == row.file_path
    &&& d.node_type == row.node_type
    &&& d.fingerprint == row.hash
    &&& d.previous_fingerprint == row.prev_hash
    &&& d.renamed_from is None
}

/// The symbol is the row that came, renamed from the row that went.
pub open spec fn says_renamed(d: DeltaSymbolView, new: DeltaRowView, old: DeltaRowView) -> bool {
    &&& d.qualified_name == new.qualified_name
    &&& d.file_path == new.file_path
    &&& d.node_type == new.node_type
    &&& d.fingerprint == new.hash
    &&& d.previous_fingerprint == new.hash
    &&& d.renamed_from == Some(old.qualified_name)
}

// ---- places ---------------------------------------------------------------------------------

/// Sorting neither adds nor loses a symbol.
proof fn lemma_by_place(s: Seq<DeltaSymbolView>)
    requires
        s.len() <= usize::MAX,
    ensures
        by_place(s).len() == s.len(),
        forall|x: DeltaSymbolView| s.contains(x) <==> #[trigger] by_place(s).contains(x),
        is_ascending::<(String, String)>(delta_keys(by_place(s))),
        s.no_duplicates() ==> by_place(s).no_duplicates(),
{
    let keys = delta_keys(s);
    lemma_stable_order_exists::<(String, String)>(keys);
    let p = stable_indices::<(String, String)>(keys);
    lemma_stable_order_is_permutation::<(String, String)>(keys, p);
    lemma_stable_order_sorts::<(String, String)>(keys, p);
    lemma_sorted::<(String, String)>(keys);
    let r = by_place(s);
    assert(delta_keys(r) =~= permuted(keys, p));
    assert forall|x: DeltaSymbolView| s.contains(x) <==> #[trigger] r.contains(x) by {
        if s.contains(x) {
            let k = choose|k: int| 0 <= k < s.len() && s[k] == x;
            lemma_permutation_covers(p, s.len(), k as usize);
            let j = choose|j: int| 0 <= j < p.len() && p[j] == k as usize;
            assert(r[j] == s[p[j] as int]);
        }
        if r.contains(x) {
            let j = choose|j: int| 0 <= j < r.len() && r[j] == x;
            assert(p[j] < s.len());
            assert(s[p[j] as int] == x);
        }
    }
    if s.no_duplicates() {
        assert forall|a: int, b: int| 0 <= a < r.len() && 0 <= b < r.len() && a != b implies r[a] != r[b] by {
            assert(p[a] < s.len() && p[b] < s.len());
            if a < b {
                assert(p[a] != p[b]);
            } else {
                assert(p[b] != p[a]);
            }
        }
    }
}

/// Where the hash of exactly one of the rows that came is `h`, it is that row's.
proof fn lemma_came_once(rows: Seq<DeltaRowView>, h: Seq<char>)
    ensures
        places_of(hashes(gather(rows, fresh())), h).len() == came_count(rows, h),
    decreases rows.len(),
{
    let g = gather(rows, fresh());
    if rows.len() > 0 {
        let rest = gather(rows.drop_last(), fresh());
        lemma_came_once(rows.drop_last(), h);
        if came(rows.last()) {
            assert(g == rest.push(rows.last()));
            assert(hashes(g).drop_last() =~= hashes(rest));
            assert(hashes(g).last() == rows.last().hash->0);
        }
    } else {
        assert(hashes(g) =~= Seq::empty());
    }
}

proof fn lemma_went_once(rows: Seq<DeltaRowView>, h: Seq<char>)
    ensures
        places_of(former_hashes(gather(rows, vanished())), h).len() == went_count(rows, h),
    decreases rows.len(),
{
    let g = gather(rows, vanished());
    if rows.len() > 0 {
        let rest = gather(rows.drop_last(), vanished());
        lemma_went_once(rows.drop_last(), h);
        if went(rows.last()) {
            assert(g == rest.push(rows.last()));
            assert(former_hashes(g).drop_last() =~= former_hashes(rest));
            assert(former_hashes(g).last() == rows.last().prev_hash->0);
        }
    } else {
        assert(former_hashes(g) =~= Seq::empty());
    }
}

/// How many rows came with the fingerprint.
spec fn came_count(rows: Seq<DeltaRowView>, h: Seq<char>) -> nat
    decreases rows.len(),
{
    if rows.len() == 0 {
        0
    } else {
        came_count(rows.drop_last(), h) + (if came(rows.last()) && rows.last().hash == Some(h) {
            1nat
        } else {
            0nat
        })
    }
}

/// How many rows went with the fingerprint.
spec fn went_count(rows: Seq<DeltaRowView>, h: Seq<char>) -> nat
    decreases rows.len(),
{
    if rows.len() == 0 {
        0
    } else {
        went_count(rows.drop_last(), h) + (if went(rows.last()) && rows.last().prev_hash == Some(h) {
            1nat
        } else {
            0nat
        })
    }
}

spec fn came_with(rows: Seq<DeltaRowView>, k: int, h: Seq<char>) -> bool {
    0 <= k < rows.len() && came(rows[k]) && rows[k].hash == Some(h)
}

spec fn went_with(rows: Seq<DeltaRowView>, k: int, h: Seq<char>) -> bool {
    0 <= k < rows.len() && went(rows[k]) && rows[k].prev_hash == Some(h)
}

proof fn lemma_came_count(rows: Seq<DeltaRowView>, h: Seq<char>)
    ensures
        came_count(rows, h) == 0 <==> forall|k: int| !#[trigger] came_with(rows, k, h),
        came_count(rows, h) == 1 <==> exists|i: int| #[trigger] came_with(rows, i, h) && forall|k: int| #[trigger]
            came_with(rows, k, h) ==> k == i,
    decreases rows.len(),
{
    if rows.len() > 0 {
        let rest = rows.drop_last();
        let last = rows.len() - 1;
        lemma_came_count(rest, h);
        assert forall|k: int| #[trigger] came_with(rows, k, h) <==> came_with(rest, k, h) || (k == last && came_with(
            rows,
            last,
            h,
        )) by {}
        if came_with(rows, last, h) {
            if came_count(rest, h) == 0 {
                assert forall|k: int| #[trigger] came_with(rows, k, h) implies k == last by {
                    assert(!came_with(rest, k, h));
                }
            } else {
                let k0 = choose|k: int| #[trigger] came_with(rest, k, h);
                assert(came_with(rows, k0, h));
            }
            assert(came_count(rows, h) == came_count(rest, h) + 1);
        } else {
            assert forall|k: int| #[trigger] came_with(rows, k, h) <==> #[trigger] came_with(rest, k, h) by {}
            assert(came_count(rows, h) == came_count(rest, h));
            if came_count(rest, h) == 0 {
                assert forall|k: int| !#[trigger] came_with(rows, k, h) by {
                    assert(!came_with(rest, k, h));
                }
            } else {
                let k0 = choose|k: int| #[trigger] came_with(rest, k, h);
                assert(came_with(rows, k0, h));
            }
            if came_count(rows, h) == 1 {
                let i = choose|i: int| #[trigger] came_with(rest, i, h) && forall|k: int| #[trigger]
                    came_with(rest, k, h) ==> k == i;
                assert(came_with(rows, i, h));
            }
            if exists|i: int| #[trigger] came_with(rows, i, h) && forall|k: int| #[trigger] came_with(rows, k, h) ==> k == i {
                let i = choose|i: int| #[trigger] came_with(rows, i, h) && forall|k: int| #[trigger]
                    came_with(rows, k, h) ==> k == i;
                assert(came_with(rest, i, h));
                assert forall|k: int| #[trigger] came_with(rest, k, h) implies k == i by {
                    assert(came_with(rows, k, h));
                }
            }
        }
    }
}

proof fn lemma_went_count(rows: Seq<DeltaRowView>, h: Seq<char>)
    ensures
        went_count(rows, h) == 0 <==> forall|k: int| !#[trigger] went_with(rows, k, h),
        went_count(rows, h) == 1 <==> exists|i: int| #[trigger] went_with(rows, i, h) && forall|k: int| #[trigger]
            went_with(rows, k, h) ==> k == i,
    decreases rows.len(),
{
    if rows.len() > 0 {
        let rest = rows.drop_last();
        let last = rows.len() - 1;
        lemma_went_count(rest, h);
        assert forall|k: int| #[trigger] went_with(rows, k, h) <==> went_with(rest, k, h) || (k == last && went_with(
            rows,
            last,
            h,
        )) by {}
        if went_with(rows, last, h) {
            if went_count(rest, h) == 0 {
                assert forall|k: int| #[trigger] went_with(rows, k, h) implies k == last by {
                    assert(!went_with(rest, k, h));
                }
            } else {
                let k0 = choose|k: int| #[trigger] went_with(rest, k, h);
                assert(went_with(rows, k0, h));
            }
            assert(went_count(rows, h) == went_count(rest, h) + 1);
        } else {
            assert forall|k: int| #[trigger] went_with(rows, k, h) <==> #[trigger] went_with(rest, k, h) by {}
            assert(went_count(rows, h) == went_count(rest, h));
            if went_count(rest, h) == 0 {
                assert forall|k: int| !#[trigger] went_with(rows, k, h) by {
                    assert(!went_with(rest, k, h));
                }
            } else {
                let k0 = choose|k: int| #[trigger] went_with(rest, k, h);
                assert(went_with(rows, k0, h));
            }
            if went_count(rows, h) == 1 {
                let i = choose|i: int| #[trigger] went_with(rest, i, h) && forall|k: int| #[trigger]
                    went_with(rest, k, h) ==> k == i;
                assert(went_with(rows, i, h));
            }
            if exists|i: int| #[trigger] went_with(rows, i, h) && forall|k: int| #[trigger] went_with(rows, k, h) ==> k == i {
                let i = choose|i: int| #[trigger] went_with(rows, i, h) && forall|k: int| #[trigger]
                    went_with(rows, k, h) ==> k == i;
                assert(went_with(rest, i, h));
                assert forall|k: int| #[trigger] went_with(rest, k, h) implies k == i by {
                    assert(went_with(rows, k, h));
                }
            }
        }
    }
}

/// A hash tells a rename exactly where it pairs two rows.
proof fn lemma_tells(rows: Seq<DeltaRowView>, h: Seq<char>)
    ensures
        tells_rename(gather(rows, fresh()), gather(rows, vanished()), h) <==> exists|i: int, j: int| #[trigger]
            are_one(rows, i, j) && rows[i].hash == Some(h),
{
    lemma_came_once(rows, h);
    lemma_went_once(rows, h);
    lemma_came_count(rows, h);
    lemma_went_count(rows, h);
    if came_count(rows, h) == 1 && went_count(rows, h) == 1 {
        let i = choose|i: int| #[trigger] came_with(rows, i, h) && forall|k: int| #[trigger] came_with(rows, k, h) ==> k == i;
        let j = choose|j: int| #[trigger] went_with(rows, j, h) && forall|k: int| #[trigger] went_with(rows, k, h) ==> k == j;
        assert forall|k: int| 0 <= k < rows.len() && came(#[trigger] rows[k]) && rows[k].hash == rows[i].hash implies k == i by {
            assert(came_with(rows, k, h));
        }
        assert forall|k: int| 0 <= k < rows.len() && went(#[trigger] rows[k]) && rows[k].prev_hash == rows[j].prev_hash implies k
            == j by {
            assert(went_with(rows, k, h));
        }
        assert(are_one(rows, i, j));
    }
    if exists|i: int, j: int| #[trigger] are_one(rows, i, j) && rows[i].hash == Some(h) {
        let (i, j) = choose|i: int, j: int| #[trigger] are_one(rows, i, j) && rows[i].hash == Some(h);
        assert(came_with(rows, i, h));
        assert(went_with(rows, j, h));
        assert forall|k: int| #[trigger] came_with(rows, k, h) implies k == i by {
            assert(came(rows[k]));
        }
        assert forall|k: int| #[trigger] went_with(rows, k, h) implies k == j by {
            assert(went(rows[k]));
        }
    }
}

/// The row that a hash pairs is the one that went with it.
proof fn lemma_old(rows: Seq<DeltaRowView>, i: int, j: int)
    requires
        rows.len() <= usize::MAX,
        are_one(rows, i, j),
    ensures
        ({
            let removed = gather(rows, vanished());
            let q = places_of(former_hashes(removed), rows[i].hash->0);
            q.len() == 1 && q[0] < removed.len() && removed[q[0] as int] == rows[j]
        }),
{
    let h = rows[i].hash->0;
    let removed = gather(rows, vanished());
    let q = places_of(former_hashes(removed), h);
    lemma_tells(rows, h);
    lemma_gather_len(rows, vanished());
    lemma_places_of(former_hashes(removed), h);
    let old = removed[q[0] as int];
    assert(former_hashes(removed)[q[0] as int] == h);
    assert(removed.contains(old));
    lemma_gather_member(rows, vanished(), old);
    let k = choose|k: int| 0 <= k < rows.len() && vanished()(#[trigger] rows[k]) == Some(old);
    assert(went(rows[k]));
}

// ---- the four lists -------------------------------------------------------------------------

proof fn lemma_sizes(rows: Seq<DeltaRowView>)
    ensures
        gather(rows, fresh()).len() + gather(rows, vanished()).len() + gather(rows, kept()).len() + gather(rows, moved()).len()
            <= rows.len(),
    decreases rows.len(),
{
    if rows.len() > 0 {
        lemma_sizes(rows.drop_last());
    }
}

/// What has changed, exactly: the rows with two fingerprints that differ.
pub proof fn the_changed_have_two_fingerprints(rows: Seq<DeltaRowView>, d: DeltaSymbolView)
    requires
        rows.len() <= usize::MAX,
    ensures
        classified(rows).changed.contains(d) <==> exists|i: int| #![trigger rows[i]]
            0 <= i < rows.len() && rows[i].hash is Some && rows[i].prev_hash is Some && rows[i].hash != rows[i].prev_hash
                && says(d, rows[i]),
{
    lemma_sizes(rows);
    lemma_by_place(gather(rows, moved()));
    lemma_gather_member(rows, moved(), d);
    if classified(rows).changed.contains(d) {
        let i = choose|i: int| 0 <= i < rows.len() && moved()(#[trigger] rows[i]) == Some(d);
        assert(says(d, rows[i]));
    }
    if exists|i: int| #![trigger rows[i]]
        0 <= i < rows.len() && rows[i].hash is Some && rows[i].prev_hash is Some && rows[i].hash != rows[i].prev_hash && says(
            d,
            rows[i],
        ) {
        let i = choose|i: int| #![trigger rows[i]]
            0 <= i < rows.len() && rows[i].hash is Some && rows[i].prev_hash is Some && rows[i].hash != rows[i].prev_hash
                && says(d, rows[i]);
        assert(moved()(rows[i]) == Some(d));
    }
}

/// What is new, exactly: the rows that came and are one with no row that went.
pub proof fn the_added_came_unpaired(rows: Seq<DeltaRowView>, d: DeltaSymbolView)
    requires
        rows.len() <= usize::MAX,
    ensures
        classified(rows).added.contains(d) <==> exists|i: int| #![trigger rows[i]]
            0 <= i < rows.len() && came(rows[i]) && says(d, rows[i]) && forall|j: int| !#[trigger] are_one(rows, i, j),
{
    let added = gather(rows, fresh());
    let removed = gather(rows, vanished());
    let f = still_new(added, removed);
    lemma_sizes(rows);
    lemma_gather_len(added, f);
    lemma_by_place(gather(added, f));
    lemma_gather_member(added, f, d);
    if classified(rows).added.contains(d) {
        let k = choose|k: int| 0 <= k < added.len() && f(#[trigger] added[k]) == Some(d);
        assert(added.contains(added[k]));
        lemma_gather_member(rows, fresh(), added[k]);
        let i = choose|i: int| 0 <= i < rows.len() && fresh()(#[trigger] rows[i]) == Some(added[k]);
        lemma_tells(rows, rows[i].hash->0);
        assert forall|j: int| !#[trigger] are_one(rows, i, j) by {}
        assert(came(rows[i]) && says(d, rows[i]));
    }
    if exists|i: int| #![trigger rows[i]]
        0 <= i < rows.len() && came(rows[i]) && says(d, rows[i]) && forall|j: int| !#[trigger] are_one(rows, i, j) {
        let i = choose|i: int| #![trigger rows[i]]
            0 <= i < rows.len() && came(rows[i]) && says(d, rows[i]) && forall|j: int| !#[trigger] are_one(rows, i, j);
        lemma_tells(rows, rows[i].hash->0);
        assert forall|a: int, j: int| !(#[trigger] are_one(rows, a, j) && rows[a].hash == rows[i].hash) by {
            if are_one(rows, a, j) && rows[a].hash == rows[i].hash {
                assert(came(rows[i]));
                assert(a == i);
            }
        }
        lemma_gather_member(rows, fresh(), rows[i]);
        assert(fresh()(rows[i]) == Some(rows[i]));
        let k = choose|k: int| 0 <= k < added.len() && added[k] == rows[i];
        assert(f(added[k]) == Some(d));
    }
}

/// What is gone, exactly: the rows that went and are one with no row that came.
pub proof fn the_removed_went_unpaired(rows: Seq<DeltaRowView>, d: DeltaSymbolView)
    requires
        rows.len() <= usize::MAX,
    ensures
        classified(rows).removed.contains(d) <==> exists|j: int| #![trigger rows[j]]
            0 <= j < rows.len() && went(rows[j]) && says(d, rows[j]) && forall|i: int| !#[trigger] are_one(rows, i, j),
{
    let added = gather(rows, fresh());
    let removed = gather(rows, vanished());
    let f = still_gone(added, removed);
    lemma_sizes(rows);
    lemma_gather_len(removed, f);
    lemma_by_place(gather(removed, f));
    lemma_gather_member(removed, f, d);
    if classified(rows).removed.contains(d) {
        let k = choose|k: int| 0 <= k < removed.len() && f(#[trigger] removed[k]) == Some(d);
        assert(removed.contains(removed[k]));
        lemma_gather_member(rows, vanished(), removed[k]);
        let j = choose|j: int| 0 <= j < rows.len() && vanished()(#[trigger] rows[j]) == Some(removed[k]);
        lemma_tells(rows, rows[j].prev_hash->0);
        assert forall|i: int| !#[trigger] are_one(rows, i, j) by {}
        assert(went(rows[j]) && says(d, rows[j]));
    }
    if exists|j: int| #![trigger rows[j]]
        0 <= j < rows.len() && went(rows[j]) && says(d, rows[j]) && forall|i: int| !#[trigger] are_one(rows, i, j) {
        let j = choose|j: int| #![trigger rows[j]]
            0 <= j < rows.len() && went(rows[j]) && says(d, rows[j]) && forall|i: int| !#[trigger] are_one(rows, i, j);
        let h = rows[j].prev_hash->0;
        lemma_tells(rows, h);
        assert forall|i: int, b: int| !(#[trigger] are_one(rows, i, b) && rows[i].hash == Some(h)) by {
            if are_one(rows, i, b) && rows[i].hash == Some(h) {
                assert(went(rows[j]));
                assert(b == j);
            }
        }
        lemma_gather_member(rows, vanished(), rows[j]);
        assert(vanished()(rows[j]) == Some(rows[j]));
        let k = choose|k: int| 0 <= k < removed.len() && removed[k] == rows[j];
        assert(f(removed[k]) == Some(d));
    }
}

/// What is preserved, exactly: the rows with one fingerprint in both runs, and
/// the pairs of rows that are one, under the new name and with the old.
pub proof fn the_preserved_kept_or_renamed(rows: Seq<DeltaRowView>, d: DeltaSymbolView)
    requires
        rows.len() <= usize::MAX,
    ensures
        classified(rows).preserved.contains(d) <==> {
            ||| exists|i: int| #![trigger rows[i]]
                0 <= i < rows.len() && rows[i].hash is Some && rows[i].prev_hash == rows[i].hash && says(d, rows[i])
            ||| exists|i: int, j: int| #[trigger] are_one(rows, i, j) && says_renamed(d, rows[i], rows[j])
        },
{
    let added = gather(rows, fresh());
    let removed = gather(rows, vanished());
    let f = renamed(added, removed);
    let base = gather(rows, kept());
    let pairs = gather(added, f);
    lemma_sizes(rows);
    lemma_gather_len(added, f);
    lemma_by_place(base + pairs);
    lemma_gather_member(rows, kept(), d);
    lemma_gather_member(added, f, d);
    if classified(rows).preserved.contains(d) {
        let k = choose|k: int| 0 <= k < (base + pairs).len() && (base + pairs)[k] == d;
        if k < base.len() {
            assert(base[k] == d);
            assert(base.contains(d));
            let i = choose|i: int| 0 <= i < rows.len() && kept()(#[trigger] rows[i]) == Some(d);
            assert(says(d, rows[i]));
        } else {
            assert(pairs[k - base.len()] == d);
            assert(pairs.contains(d));
            let a = choose|a: int| 0 <= a < added.len() && f(#[trigger] added[a]) == Some(d);
            lemma_tells(rows, added[a].hash->0);
            let (i, j) = choose|i: int, j: int| #[trigger] are_one(rows, i, j) && rows[i].hash == Some(added[a].hash->0);
            lemma_old(rows, i, j);
            assert(added.contains(added[a]));
            lemma_gather_member(rows, fresh(), added[a]);
            let n = choose|n: int| 0 <= n < rows.len() && fresh()(#[trigger] rows[n]) == Some(added[a]);
            assert(came(rows[n]));
            assert(says_renamed(d, rows[i], rows[j]));
        }
    }
    if exists|i: int| #![trigger rows[i]]
        0 <= i < rows.len() && rows[i].hash is Some && rows[i].prev_hash == rows[i].hash && says(d, rows[i]) {
        let i = choose|i: int| #![trigger rows[i]]
            0 <= i < rows.len() && rows[i].hash is Some && rows[i].prev_hash == rows[i].hash && says(d, rows[i]);
        assert(kept()(rows[i]) == Some(d));
        let k = choose|k: int| 0 <= k < base.len() && base[k] == d;
        assert((base + pairs)[k] == d);
    }
    if exists|i: int, j: int| #[trigger] are_one(rows, i, j) && says_renamed(d, rows[i], rows[j]) {
        let (i, j) = choose|i: int, j: int| #[trigger] are_one(rows, i, j) && says_renamed(d, rows[i], rows[j]);
        lemma_tells(rows, rows[i].hash->0);
        lemma_old(rows, i, j);
        lemma_gather_member(rows, fresh(), rows[i]);
        assert(fresh()(rows[i]) == Some(rows[i]));
        let a = choose|a: int| 0 <= a < added.len() && added[a] == rows[i];
        assert(f(added[a]) == Some(d));
        let k = choose|k: int| 0 <= k < pairs.len() && pairs[k] == d;
        assert((base + pairs)[base.len() + k] == d);
    }
}

/// Two rows that are one are one symbol that was renamed: it is preserved, under
/// the name of the row that came and with the name of the row that went, and
/// neither row counts as new or gone.
pub proof fn a_lone_pair_is_a_rename(rows: Seq<DeltaRowView>, i: int, j: int)
    requires
        rows.len() <= usize::MAX,
        0 <= i < rows.len(),
        0 <= j < rows.len(),
        rows[i].hash is Some && rows[i].prev_hash is None,
        rows[j].hash is None && rows[j].prev_hash == rows[i].hash,
        forall|k: int| #![trigger rows[k]]
            0 <= k < rows.len() && k != i && rows[k].prev_hash is None ==> rows[k].hash != rows[i].hash,
        forall|k: int| #![trigger rows[k]]
            0 <= k < rows.len() && k != j && rows[k].hash is None ==> rows[k].prev_hash != rows[i].hash,
    ensures
        exists|d: DeltaSymbolView| #[trigger]
            classified(rows).preserved.contains(d) && d.qualified_name == rows[i].qualified_name && d.file_path
                == rows[i].file_path && d.node_type == rows[i].node_type && d.fingerprint == rows[i].hash
                && d.previous_fingerprint == rows[i].hash && d.renamed_from == Some(rows[j].qualified_name),
        forall|d: DeltaSymbolView| #[trigger] classified(rows).added.contains(d) ==> d.fingerprint != rows[i].hash,
        forall|d: DeltaSymbolView| #[trigger]
            classified(rows).removed.contains(d) ==> d.previous_fingerprint != rows[i].hash,
{
    assert(are_one(rows, i, j));
    let d = DeltaSymbolView {
        qualified_name: rows[i].qualified_name,
        file_path: rows[i].file_path,
        node_type: rows[i].node_type,
        fingerprint: rows[i].hash,
        previous_fingerprint: rows[i].hash,
        renamed_from: Some(rows[j].qualified_name),
    };
    assert(says_renamed(d, rows[i], rows[j]));
    the_preserved_kept_or_renamed(rows, d);
    assert forall|d: DeltaSymbolView| #[trigger] classified(rows).added.contains(d) implies d.fingerprint != rows[i].hash by {
        the_added_came_unpaired(rows, d);
        let k = choose|k: int| #![trigger rows[k]]
            0 <= k < rows.len() && came(rows[k]) && says(d, rows[k]) && forall|j: int| !#[trigger] are_one(rows, k, j);
        assert(k != i);
    }
    assert forall|d: DeltaSymbolView| #[trigger] classified(rows).removed.contains(d) implies d.previous_fingerprint
        != rows[i].hash by {
        the_removed_went_unpaired(rows, d);
        let k = choose|k: int| #![trigger rows[k]]
            0 <= k < rows.len() && went(rows[k]) && says(d, rows[k]) && forall|i: int| !#[trigger] are_one(rows, i, k);
        assert(k != j);
    }
}

/// A delta is neutral exactly where every row has the same fingerprint in both
/// runs, or none at all, or is one with another row.
pub proof fn a_delta_is_neutral_where_structure_stayed(rows: Seq<DeltaRowView>)
    requires
        rows.len() <= usize::MAX,
    ensures
        classified(rows).is_neutral() <==> forall|i: int| #![trigger rows[i]]
            0 <= i < rows.len() ==> rows[i].hash == rows[i].prev_hash || (came(rows[i]) && exists|j: int| #[trigger]
                are_one(rows, i, j)) || (went(rows[i]) && exists|j: int| #[trigger] are_one(rows, j, i)),
{
    let all = classified(rows);
    if all.is_neutral() {
        assert forall|i: int| #![trigger rows[i]] 0 <= i < rows.len() implies rows[i].hash == rows[i].prev_hash || (came(
            rows[i],
        ) && exists|j: int| #[trigger] are_one(rows, i, j)) || (went(rows[i]) && exists|j: int| #[trigger] are_one(rows, j, i)) by {
            let d = DeltaSymbolView {
                qualified_name: rows[i].qualified_name,
                file_path: rows[i].file_path,
                node_type: rows[i].node_type,
                fingerprint: rows[i].hash,
                previous_fingerprint: rows[i].prev_hash,
                renamed_from: None,
            };
            assert(says(d, rows[i]));
            the_changed_have_two_fingerprints(rows, d);
            the_added_came_unpaired(rows, d);
            the_removed_went_unpaired(rows, d);
            assert(!all.changed.contains(d) && !all.added.contains(d) && !all.removed.contains(d));
        }
    } else {
        if all.changed.len() > 0 {
            let d = all.changed[0];
            assert(all.changed.contains(d));
            the_changed_have_two_fingerprints(rows, d);
        } else if all.added.len() > 0 {
            let d = all.added[0];
            assert(all.added.contains(d));
            the_added_came_unpaired(rows, d);
        } else {
            let d = all.removed[0];
            assert(all.removed.contains(d));
            the_removed_went_unpaired(rows, d);
        }
    }
}

// ---- how many, and in what order ------------------------------------------------------------

/// The rows are of different symbols.
pub open spec fn are_distinct(rows: Seq<DeltaRowView>) -> bool {
    forall|i: int, j: int| #![trigger rows[i], rows[j]]
        0 <= i < j < rows.len() ==> rows[i].qualified_name != rows[j].qualified_name || rows[i].file_path != rows[j].file_path
}

/// What is gathered from distinct items, each image told by its item, is distinct.
proof fn lemma_gather_distinct<B>(
    rows: Seq<DeltaRowView>,
    f: spec_fn(DeltaRowView) -> Option<B>,
    key: spec_fn(B) -> (Seq<char>, Seq<char>),
)
    requires
        are_distinct(rows),
        forall|r: DeltaRowView, b: B| #[trigger] f(r) == Some(b) ==> #[trigger] key(b) == (r.qualified_name, r.file_path),
    ensures
        forall|i: int, j: int| #![trigger gather(rows, f)[i], gather(rows, f)[j]]
            0 <= i < j < gather(rows, f).len() ==> key(gather(rows, f)[i]) != key(gather(rows, f)[j]),
        gather(rows, f).no_duplicates(),
    decreases rows.len(),
{
    let g = gather(rows, f);
    if rows.len() > 0 {
        let rest = rows.drop_last();
        assert(are_distinct(rest)) by {
            assert forall|i: int, j: int| #![trigger rest[i], rest[j]] 0 <= i < j < rest.len() implies rest[i].qualified_name
                != rest[j].qualified_name || rest[i].file_path != rest[j].file_path by {
                assert(rows[i] == rest[i] && rows[j] == rest[j]);
            }
        }
        lemma_gather_distinct(rest, f, key);
        let gr = gather(rest, f);
        assert forall|i: int, j: int| #![trigger g[i], g[j]] 0 <= i < j < g.len() implies key(g[i]) != key(g[j]) by {
            assert(g[i] == gr[i]);
            if j < gr.len() {
                assert(g[j] == gr[j]);
            } else {
                assert(gr.contains(gr[i]));
                lemma_gather_member(rest, f, gr[i]);
                let k = choose|k: int| 0 <= k < rest.len() && f(#[trigger] rest[k]) == Some(gr[i]);
                assert(rows[k] == rest[k]);
                assert(rows[rows.len() - 1] == rows.last());
                assert(f(rows.last()) == Some(g[j]));
            }
        }
    }
    assert(g.no_duplicates()) by {
        assert forall|i: int, j: int| 0 <= i < g.len() && 0 <= j < g.len() && i != j implies g[i] != g[j] by {
            if i < j {
                assert(key(g[i]) != key(g[j]));
            } else {
                assert(key(g[j]) != key(g[i]));
            }
        }
    }
}

/// Every list is in the order of files and, in a file, of names; and no symbol
/// is listed twice where no two rows are of one symbol.
pub proof fn every_list_is_ordered_and_without_repeats(rows: Seq<DeltaRowView>)
    requires
        rows.len() <= usize::MAX,
    ensures
        is_ascending::<(String, String)>(delta_keys(classified(rows).preserved)),
        is_ascending::<(String, String)>(delta_keys(classified(rows).changed)),
        is_ascending::<(String, String)>(delta_keys(classified(rows).added)),
        is_ascending::<(String, String)>(delta_keys(classified(rows).removed)),
        are_distinct(rows) ==> classified(rows).preserved.no_duplicates() && classified(rows).changed.no_duplicates()
            && classified(rows).added.no_duplicates() && classified(rows).removed.no_duplicates(),
{
    let added = gather(rows, fresh());
    let removed = gather(rows, vanished());
    let base = gather(rows, kept());
    let pairs = gather(added, renamed(added, removed));
    lemma_sizes(rows);
    lemma_gather_len(added, renamed(added, removed));
    lemma_gather_len(added, still_new(added, removed));
    lemma_gather_len(removed, still_gone(added, removed));
    lemma_by_place(base + pairs);
    lemma_by_place(gather(rows, moved()));
    lemma_by_place(gather(added, still_new(added, removed)));
    lemma_by_place(gather(removed, still_gone(added, removed)));
    if are_distinct(rows) {
        let rk = |r: DeltaRowView| (r.qualified_name, r.file_path);
        let dk = |d: DeltaSymbolView| (d.qualified_name, d.file_path);
        lemma_gather_distinct(rows, fresh(), rk);
        lemma_gather_distinct(rows, vanished(), rk);
        assert(are_distinct(added)) by {
            assert forall|i: int, j: int| #![trigger added[i], added[j]] 0 <= i < j < added.len() implies added[i].qualified_name
                != added[j].qualified_name || added[i].file_path != added[j].file_path by {
                assert(rk(added[i]) != rk(added[j]));
            }
        }
        assert(are_distinct(removed)) by {
            assert forall|i: int, j: int| #![trigger removed[i], removed[j]] 0 <= i < j < removed.len() implies removed[i].qualified_name
                != removed[j].qualified_name || removed[i].file_path != removed[j].file_path by {
                assert(rk(removed[i]) != rk(removed[j]));
            }
        }
        lemma_gather_distinct(rows, kept(), dk);
        lemma_gather_distinct(rows, moved(), dk);
        lemma_gather_distinct(added, renamed(added, removed), dk);
        lemma_gather_distinct(added, still_new(added, removed), dk);
        lemma_gather_distinct(removed, still_gone(added, removed), dk);
        assert forall|a: int, b: int| 0 <= a < (base + pairs).len() && 0 <= b < (base + pairs).len() && a != b implies (base
            + pairs)[a] != (base + pairs)[b] by {
            lemma_apart(rows);
            if a < base.len() {
                assert(base.contains(base[a]));
            }
            if b < base.len() {
                assert(base.contains(base[b]));
            }
            if a >= base.len() {
                assert(pairs.contains(pairs[a - base.len()]));
            }
            if b >= base.len() {
                assert(pairs.contains(pairs[b - base.len()]));
            }
        }
    }
}

/// What kept its fingerprint was not renamed.
proof fn lemma_apart(rows: Seq<DeltaRowView>)
    ensures
        forall|d: DeltaSymbolView| #[trigger] gather(rows, kept()).contains(d) ==> d.renamed_from is None,
        forall|d: DeltaSymbolView| #[trigger]
            gather(gather(rows, fresh()), renamed(gather(rows, fresh()), gather(rows, vanished()))).contains(d)
                ==> d.renamed_from is Some,
{
    let added = gather(rows, fresh());
    let f = renamed(added, gather(rows, vanished()));
    assert forall|d: DeltaSymbolView| #[trigger] gather(rows, kept()).contains(d) implies d.renamed_from is None by {
        lemma_gather_member(rows, kept(), d);
    }
    assert forall|d: DeltaSymbolView| #[trigger] gather(added, f).contains(d) implies d.renamed_from is Some by {
        lemma_gather_member(added, f, d);
    }
}

/// A delta of some files is made of the rows of those files, an empty
/// fingerprint as none.
pub proof fn only_rows_of_the_files_count(rows: Seq<DeltaRowView>, paths: Seq<Seq<char>>, r: DeltaRowView)
    ensures
        gather(rows, asked(paths)).contains(r) <==> exists|i: int| #![trigger rows[i]]
            0 <= i < rows.len() && paths.contains(rows[i].file_path) && r.file_path == rows[i].file_path
                && r.qualified_name == rows[i].qualified_name && r.node_type == rows[i].node_type && r.hash == (
            if rows[i].hash == Some(Seq::<char>::empty()) {
                None
            } else {
                rows[i].hash
            }) && r.prev_hash == (if rows[i].prev_hash == Some(Seq::<char>::empty()) {
                None
            } else {
                rows[i].prev_hash
            }),
{
    let f = asked(paths);
    lemma_gather_member(rows, f, r);
    assert forall|t: Seq<char>| t.len() == 0 <==> t == Seq::<char>::empty() by {
        if t.len() == 0 {
            assert(t =~= Seq::<char>::empty());
        }
    }
    if gather(rows, f).contains(r) {
        let i = choose|i: int| 0 <= i < rows.len() && f(#[trigger] rows[i]) == Some(r);
        assert(paths.contains(rows[i].file_path));
    }
    if exists|i: int| #![trigger rows[i]]
        0 <= i < rows.len() && paths.contains(rows[i].file_path) && r.file_path == rows[i].file_path && r.qualified_name
            == rows[i].qualified_name && r.node_type == rows[i].node_type && r.hash == (if rows[i].hash == Some(
            Seq::<char>::empty(),
        ) {
            None
        } else {
            rows[i].hash
        }) && r.prev_hash == (if rows[i].prev_hash == Some(Seq::<char>::empty()) {
            None
        } else {
            rows[i].prev_hash
        }) {
        let i = choose|i: int| #![trigger rows[i]]
            0 <= i < rows.len() && paths.contains(rows[i].file_path) && r.file_path == rows[i].file_path && r.qualified_name
                == rows[i].qualified_name && r.node_type == rows[i].node_type && r.hash == (if rows[i].hash == Some(
                Seq::<char>::empty(),
            ) {
                None
            } else {
                rows[i].hash
            }) && r.prev_hash == (if rows[i].prev_hash == Some(Seq::<char>::empty()) {
                None
            } else {
                rows[i].prev_hash
            });
        assert(f(rows[i]) == Some(r));
    }
}

} // verus!
