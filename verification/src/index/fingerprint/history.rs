//! What is stored of fingerprints from run to run.

use vstd::prelude::*;

use crate::gather::lemma_gather_member;
use crate::index::fingerprint::hood::row_keys;
use crate::index::fingerprint::update::{
    before, count_rows, existing_keys, lemma_distinct_keys, gone_fn, gone_rows, greatest_generation,
    is_added, is_changed, is_history, live_rows, next_generation, stats_of, stored_rows,
    ExistingView, StoredView,
};
use crate::index::fingerprint::SymbolView;
use crate::lookup::{lemma_places_of, places_of};

verus! {

/// Row `k` is the last that was stored for a symbol.
pub open spec fn is_last_row(rows: Seq<ExistingView>, name: Seq<char>, file: Seq<char>, k: int) -> bool {
    &&& 0 <= k < rows.len()
    &&& rows[k].qualified_name == name
    &&& rows[k].file_path == file
    &&& forall|j: int| k < j < rows.len() && (#[trigger] rows[j]).qualified_name == name ==> rows[j].file_path != file
}

/// No row was stored for the symbol.
pub open spec fn is_new(rows: Seq<ExistingView>, name: Seq<char>, file: Seq<char>) -> bool {
    forall|j: int| 0 <= j < rows.len() && (#[trigger] rows[j]).qualified_name == name ==> rows[j].file_path != file
}

/// The history has the last row of a symbol, and no other.
proof fn lemma_last_row(history: Seq<ExistingView>, rows: Seq<ExistingView>, h: int)
    requires
        rows.len() <= usize::MAX,
        is_history(history, rows),
        0 <= h < history.len(),
    ensures
        exists|k: int| #[trigger] is_last_row(rows, history[h].qualified_name, history[h].file_path, k) && history[h] == rows[k],
{
    let key = existing_keys(history)[h];
    let keys = existing_keys(rows);
    let q = places_of(keys, key);
    lemma_places_of(keys, key);
    let k = q[q.len() - 1] as int;
    assert(keys[k] == key);
    assert forall|j: int| k < j < rows.len() && (#[trigger] rows[j]).qualified_name == history[h].qualified_name implies rows[j].file_path
        != history[h].file_path by {
        if rows[j].file_path == history[h].file_path {
            assert(keys[j] == key);
            assert(q.contains(j as usize));
            let m = choose|m: int| 0 <= m < q.len() && q[m] == j as usize;
            if m < q.len() - 1 {
                assert(q[m] < q[q.len() - 1]);
            }
        }
    }
    assert(is_last_row(rows, history[h].qualified_name, history[h].file_path, k));
}

proof fn lemma_found(history: Seq<ExistingView>, rows: Seq<ExistingView>, name: Seq<char>, file: Seq<char>, k: int)
    requires
        rows.len() <= usize::MAX,
        history.len() <= usize::MAX,
        is_history(history, rows),
    ensures
        is_last_row(rows, name, file, k) ==> before(history, (name, file)) == Some(rows[k]),
        is_last_row(rows, name, file, k) ==> history.contains(rows[k]),
        is_new(rows, name, file) ==> before(history, (name, file)) is None,
{
    let key = (name, file);
    let keys = existing_keys(history);
    let q = places_of(keys, key);
    lemma_places_of(keys, key);
    if q.len() > 0 {
        let h = q[q.len() - 1] as int;
        assert(keys[h] == key);
        lemma_last_row(history, rows, h);
        let m = choose|m: int| #[trigger] is_last_row(rows, name, file, m) && history[h] == rows[m];
        if is_last_row(rows, name, file, k) {
            if m < k {
                assert(rows[k].qualified_name == name);
            } else if k < m {
                assert(rows[m].qualified_name == name);
            }
            assert(history[h] == rows[k]);
        }
    } else if is_last_row(rows, name, file, k) {
        assert(existing_keys(rows)[k] == key);
        assert(existing_keys(rows).contains(key));
        lemma_distinct_keys(existing_keys(rows), keys);
        assert(keys.contains(key));
        let h = choose|h: int| 0 <= h < keys.len() && keys[h] == key;
        assert(q.contains(h as usize));
    }
}

// ---- generations ----------------------------------------------------------------------------

proof fn lemma_greatest(history: Seq<ExistingView>)
    requires
        history.len() > 0,
    ensures
        forall|i: int| 0 <= i < history.len() ==> (#[trigger] history[i]).generation <= greatest_generation(history),
        exists|i: int| 0 <= i < history.len() && (#[trigger] history[i]).generation == greatest_generation(history),
    decreases history.len(),
{
    if history.len() == 1 {
        assert(history[0].generation == greatest_generation(history));
    } else {
        let rest = history.drop_last();
        lemma_greatest(rest);
        let k = choose|k: int| 0 <= k < rest.len() && (#[trigger] rest[k]).generation == greatest_generation(rest);
        assert(history[k] == rest[k]);
        let last = history.len() - 1;
        assert(history[last].generation <= greatest_generation(history));
        assert forall|i: int| 0 <= i < history.len() implies (#[trigger] history[i]).generation <= greatest_generation(
            history,
        ) by {
            if i < rest.len() {
                assert(rest[i] == history[i]);
            }
        }
    }
}

/// A run comes right after the latest of the rows that count, and is the first
/// where there are none.
pub proof fn a_run_comes_after_all_before(history: Seq<ExistingView>, rows: Seq<ExistingView>)
    requires
        rows.len() <= usize::MAX,
        history.len() <= usize::MAX,
        is_history(history, rows),
    ensures
        rows.len() == 0 ==> next_generation(history) == 1,
        forall|name: Seq<char>, file: Seq<char>, k: int| #[trigger]
            is_last_row(rows, name, file, k) ==> rows[k].generation < next_generation(history),
        rows.len() > 0 ==> exists|name: Seq<char>, file: Seq<char>, k: int| #[trigger]
            is_last_row(rows, name, file, k) && rows[k].generation + 1 == next_generation(history),
{
    if rows.len() == 0 {
        if history.len() > 0 {
            assert(existing_keys(history)[0] == existing_keys(history)[0]);
            assert(existing_keys(history).contains(existing_keys(history)[0]));
            assert(existing_keys(rows).contains(existing_keys(history)[0]));
        }
    } else {
        assert(existing_keys(rows).contains(existing_keys(rows)[0]));
        lemma_distinct_keys(existing_keys(rows), existing_keys(history));
        assert(existing_keys(history).contains(existing_keys(rows)[0]));
        assert(history.len() > 0);
        lemma_greatest(history);
        let h = choose|h: int| 0 <= h < history.len() && (#[trigger] history[h]).generation == greatest_generation(history);
        lemma_last_row(history, rows, h);
    }
    assert forall|name: Seq<char>, file: Seq<char>, k: int| #[trigger] is_last_row(rows, name, file, k) implies rows[k].generation
        < next_generation(history) by {
        lemma_found(history, rows, name, file, k);
        let h = choose|h: int| 0 <= h < history.len() && history[h] == rows[k];
        lemma_greatest(history);
        assert(history[h].generation <= greatest_generation(history));
    }
}

// ---- rows -----------------------------------------------------------------------------------

/// Every symbol has one row, in the order of the fingerprints: with what it has
/// now, and with the hash and the generation that were stored for it last.
pub proof fn a_row_tells_what_was_before(fps: Seq<SymbolView>, history: Seq<ExistingView>, rows: Seq<ExistingView>, i: int, k: int)
    requires
        rows.len() <= usize::MAX,
        history.len() <= usize::MAX,
        is_history(history, rows),
        0 <= i < fps.len(),
    ensures
        ({
            let r = stored_rows(fps, history)[i];
            &&& stored_rows(fps, history).len() >= fps.len()
            &&& r.qualified_name == fps[i].qualified_name
            &&& r.file_path == fps[i].file_path
            &&& r.node_type == fps[i].node_type
            &&& r.hash is Some
            &&& r.edge_count == fps[i].edge_count as i64
            &&& r.name_edge_count == fps[i].name_edge_count as i64
            &&& r.generation == next_generation(history) as i64
            &&& is_last_row(rows, fps[i].qualified_name, fps[i].file_path, k) ==> r.prev_hash == rows[k].hash
                && r.prev_generation == Some(rows[k].generation)
            &&& is_new(rows, fps[i].qualified_name, fps[i].file_path) ==> r.prev_hash is None && r.prev_generation is None
        }),
{
    lemma_found(history, rows, fps[i].qualified_name, fps[i].file_path, k);
    assert(stored_rows(fps, history)[i] == live_rows(fps, history)[i]);
}

/// A symbol that had a fingerprint and has none now gets a row that says so: no
/// hash, and what was stored for it last. There are no other rows behind those of
/// the symbols.
pub proof fn what_is_gone_is_marked(fps: Seq<SymbolView>, history: Seq<ExistingView>, rows: Seq<ExistingView>, r: StoredView)
    requires
        rows.len() <= usize::MAX,
        history.len() <= usize::MAX,
        is_history(history, rows),
    ensures
        gone_rows(fps, history).contains(r) <==> {
            &&& exists|k: int| #[trigger]
                is_last_row(rows, r.qualified_name, r.file_path, k) && rows[k].hash is Some && r.node_type
                    == rows[k].node_type && r.prev_hash == rows[k].hash && r.prev_generation == Some(rows[k].generation)
            &&& forall|i: int| 0 <= i < fps.len() && (#[trigger] fps[i]).qualified_name == r.qualified_name ==> fps[i].file_path
                != r.file_path
            &&& r.hash is None
            &&& r.edge_count == 0
            &&& r.name_edge_count == 0
            &&& r.generation == next_generation(history) as i64
        },
{
    let f = gone_fn(fps, history);
    lemma_gather_member(history, f, r);
    let key = (r.qualified_name, r.file_path);
    let known = row_keys(fps);
    if gone_rows(fps, history).contains(r) {
        let h = choose|h: int| 0 <= h < history.len() && f(#[trigger] history[h]) == Some(r);
        lemma_last_row(history, rows, h);
        let k = choose|k: int| #[trigger]
            is_last_row(rows, history[h].qualified_name, history[h].file_path, k) && history[h] == rows[k];
        assert(is_last_row(rows, r.qualified_name, r.file_path, k));
        assert forall|i: int| 0 <= i < fps.len() && (#[trigger] fps[i]).qualified_name == r.qualified_name implies fps[i].file_path
            != r.file_path by {
            assert(known[i] == (fps[i].qualified_name, fps[i].file_path));
            if fps[i].file_path == r.file_path {
                assert(known.contains(key));
            }
        }
    }
    if (exists|k: int| #[trigger]
        is_last_row(rows, r.qualified_name, r.file_path, k) && rows[k].hash is Some && r.node_type == rows[k].node_type
            && r.prev_hash == rows[k].hash && r.prev_generation == Some(rows[k].generation)) && (forall|i: int|
        0 <= i < fps.len() && (#[trigger] fps[i]).qualified_name == r.qualified_name ==> fps[i].file_path != r.file_path)
        && r.hash is None && r.edge_count == 0 && r.name_edge_count == 0 && r.generation == next_generation(history) as i64 {
        let k = choose|k: int| #[trigger]
            is_last_row(rows, r.qualified_name, r.file_path, k) && rows[k].hash is Some && r.node_type == rows[k].node_type
                && r.prev_hash == rows[k].hash && r.prev_generation == Some(rows[k].generation);
        lemma_found(history, rows, r.qualified_name, r.file_path, k);
        let h = choose|h: int| 0 <= h < history.len() && history[h] == rows[k];
        if known.contains(key) {
            let i = choose|i: int| 0 <= i < known.len() && known[i] == key;
            assert(fps[i].qualified_name == r.qualified_name);
        }
        assert(f(history[h])->0 =~= r);
        assert(f(history[h]) == Some(r));
    }
}

// ---- numbers --------------------------------------------------------------------------------

proof fn lemma_count(rows: Seq<StoredView>, p: spec_fn(StoredView) -> bool)
    ensures
        count_rows(rows, p) == rows.filter(p).len(),
        count_rows(rows, p) <= rows.len(),
    decreases rows.len(),
{
    reveal(Seq::filter);
    if rows.len() > 0 {
        lemma_count(rows.drop_last(), p);
    }
}

/// The numbers of a run: a symbol counts as added where no hash was stored for
/// it, as changed where another was, and as removed where it is gone.
pub proof fn the_numbers_are_those_of_the_rows(fps: Seq<SymbolView>, history: Seq<ExistingView>)
    requires
        fps.len() <= usize::MAX,
        history.len() <= usize::MAX,
        i64::MIN <= next_generation(history) <= i64::MAX,
    ensures
        ({
            let live = stored_rows(fps, history).take(fps.len() as int);
            let stats = stats_of(fps, history);
            &&& stats.symbols == fps.len()
            &&& stats.added == live.filter(|r: StoredView| r.prev_hash is None).len()
            &&& stats.changed == live.filter(|r: StoredView| r.prev_hash is Some && r.prev_hash != r.hash).len()
            &&& stats.removed == stored_rows(fps, history).len() - fps.len()
            &&& stats.generation == next_generation(history)
        }),
{
    let live = live_rows(fps, history);
    assert(stored_rows(fps, history).take(fps.len() as int) =~= live);
    lemma_count(live, |r: StoredView| is_added(r));
    lemma_count(live, |r: StoredView| is_changed(r));
    crate::gather::lemma_gather_len(history, gone_fn(fps, history));
    let a = |r: StoredView| is_added(r);
    let b = |r: StoredView| r.prev_hash is None;
    let c = |r: StoredView| is_changed(r);
    let d = |r: StoredView| r.prev_hash is Some && r.prev_hash != r.hash;
    assert(a =~= b);
    assert(c =~= d);
}

} // verus!
