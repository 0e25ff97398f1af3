//! Keeping fingerprints from run to run.
//!
//! Every run computes all fingerprints anew and keeps, beside each, the one of
//! the run before. A symbol that is gone leaves a row without a hash for one
//! run.

use vstd::prelude::*;

use crate::gather::{gather, lemma_gather_member};
use crate::graph::web::{places, query_views, QueryEdge};
use crate::index::fingerprint::hood::{compute_fingerprints, is_numberable, lists_fingerprints, row_keys};
use crate::index::fingerprint::{hash_to_hex, hex_digits, SymbolFingerprint, SymbolView};
use crate::index::resolve::{node_views, ResolverNode};
use crate::lookup::{lemma_places_of, lemma_take_next, places_of, put, SortedIndex};
use crate::order::{is_distinct_sorted, sort_distinct, Sortable};
use crate::text::same_text;

verus! {

/// The outcome of a run.
#[derive(Debug, Default, Clone, Copy, PartialEq, Eq, Structural)]
pub struct FingerprintStats {
    pub symbols: usize,
    /// Symbols whose hash is not the one of the run before.
    pub changed: usize,
    /// Symbols that had no hash in the run before.
    pub added: usize,
    /// Symbols that are gone since the run before.
    pub removed: usize,
    pub generation: i64,
}

/// A row of the run before.
#[derive(Debug, Clone)]
pub struct ExistingRow {
    pub qualified_name: String,
    pub file_path: String,
    pub node_type: String,
    /// None where the symbol was gone.
    pub hash: Option<String>,
    pub generation: i64,
}

/// A row to be stored.
#[derive(Debug, Clone)]
pub struct FingerprintRow {
    pub qualified_name: String,
    pub file_path: String,
    pub node_type: String,
    pub hash: Option<String>,
    pub edge_count: i64,
    pub name_edge_count: i64,
    pub generation: i64,
    pub prev_hash: Option<String>,
    pub prev_generation: Option<i64>,
}

/// What a run stores, and its outcome.
#[derive(Debug, Clone)]
pub struct FingerprintUpdate {
    pub rows: Vec<FingerprintRow>,
    pub stats: FingerprintStats,
}

#[verifier::ext_equal]
pub struct ExistingView {
    pub qualified_name: Seq<char>,
    pub file_path: Seq<char>,
    pub node_type: Seq<char>,
    pub hash: Option<Seq<char>>,
    pub generation: i64,
}

#[verifier::ext_equal]
pub struct StoredView {
    pub qualified_name: Seq<char>,
    pub file_path: Seq<char>,
    pub node_type: Seq<char>,
    pub hash: Option<Seq<char>>,
    pub edge_count: i64,
    pub name_edge_count: i64,
    pub generation: i64,
    pub prev_hash: Option<Seq<char>>,
    pub prev_generation: Option<i64>,
}

pub open spec fn opt_view(s: Option<String>) -> Option<Seq<char>> {
    match s {
        Some(t) => Some(t@),
        None => None,
    }
}

impl DeepView for ExistingRow {
    type V = ExistingView;

    open spec fn deep_view(&self) -> ExistingView {
        ExistingView {
            qualified_name: self.qualified_name@,
            file_path: self.file_path@,
            node_type: self.node_type@,
            hash: opt_view(self.hash),
            generation: self.generation,
        }
    }
}

impl DeepView for FingerprintRow {
    type V = StoredView;

    open spec fn deep_view(&self) -> StoredView {
        StoredView {
            qualified_name: self.qualified_name@,
            file_path: self.file_path@,
            node_type: self.node_type@,
            hash: opt_view(self.hash),
            edge_count: self.edge_count,
            name_edge_count: self.name_edge_count,
            generation: self.generation,
            prev_hash: opt_view(self.prev_hash),
            prev_generation: self.prev_generation,
        }
    }
}

// ---- history ----------------------------------------------------------------------------------

pub open spec fn existing_keys(rows: Seq<ExistingView>) -> Seq<(Seq<char>, Seq<char>)> {
    Seq::new(rows.len(), |i: int| (rows[i].qualified_name, rows[i].file_path))
}

/// The history holds the last row of every key, in the order of the keys.
pub open spec fn is_history(history: Seq<ExistingView>, rows: Seq<ExistingView>) -> bool {
    &&& is_distinct_sorted::<(String, String)>(existing_keys(rows), existing_keys(history))
    &&& forall|i: int| 0 <= i < history.len() ==> {
        let q = places_of(existing_keys(rows), #[trigger] existing_keys(history)[i]);
        q.len() > 0 && history[i] == rows[q.last() as int]
    }
}

/// The row of a key.
pub open spec fn before(history: Seq<ExistingView>, key: (Seq<char>, Seq<char>)) -> Option<ExistingView> {
    let q = places_of(existing_keys(history), key);
    if q.len() == 0 {
        None
    } else {
        Some(history[q.last() as int])
    }
}

/// The greatest generation of some rows, of which there is one.
pub open spec fn greatest_generation(history: Seq<ExistingView>) -> i64
    decreases history.len(),
{
    if history.len() <= 1 {
        history[0].generation
    } else {
        let rest = greatest_generation(history.drop_last());
        if rest > history.last().generation {
            rest
        } else {
            history.last().generation
        }
    }
}

/// The generation of a run.
pub open spec fn next_generation(history: Seq<ExistingView>) -> int {
    if history.len() == 0 {
        1
    } else {
        1 + greatest_generation(history)
    }
}

// ---- rows -------------------------------------------------------------------------------------

pub open spec fn hash_text(fp: SymbolView) -> Seq<char> {
    hex_digits(fp.hash as nat, 16)
}

/// The row of a symbol that is there.
pub open spec fn live_row(fp: SymbolView, history: Seq<ExistingView>) -> StoredView {
    let old = before(history, (fp.qualified_name, fp.file_path));
    StoredView {
        qualified_name: fp.qualified_name,
        file_path: fp.file_path,
        node_type: fp.node_type,
        hash: Some(hash_text(fp)),
        edge_count: fp.edge_count as i64,
        name_edge_count: fp.name_edge_count as i64,
        generation: next_generation(history) as i64,
        prev_hash: match old {
            Some(r) => r.hash,
            None => None,
        },
        prev_generation: match old {
            Some(r) => Some(r.generation),
            None => None,
        },
    }
}

/// The row of a symbol that is gone since the run before.
pub open spec fn gone_fn(fps: Seq<SymbolView>, history: Seq<ExistingView>) -> spec_fn(ExistingView) -> Option<StoredView> {
    |r: ExistingView|
        if r.hash is Some && !row_keys(fps).contains((r.qualified_name, r.file_path)) {
            Some(
                StoredView {
                    qualified_name: r.qualified_name,
                    file_path: r.file_path,
                    node_type: r.node_type,
                    hash: None,
                    edge_count: 0,
                    name_edge_count: 0,
                    generation: next_generation(history) as i64,
                    prev_hash: r.hash,
                    prev_generation: Some(r.generation),
                },
            )
        } else {
            None
        }
}

pub open spec fn live_rows(fps: Seq<SymbolView>, history: Seq<ExistingView>) -> Seq<StoredView> {
    Seq::new(fps.len(), |i: int| live_row(fps[i], history))
}

pub open spec fn gone_rows(fps: Seq<SymbolView>, history: Seq<ExistingView>) -> Seq<StoredView> {
    gather(history, gone_fn(fps, history))
}

/// The rows of a run: those of the symbols, then those of the symbols that are
/// gone.
pub open spec fn stored_rows(fps: Seq<SymbolView>, history: Seq<ExistingView>) -> Seq<StoredView> {
    live_rows(fps, history) + gone_rows(fps, history)
}

pub open spec fn is_added(r: StoredView) -> bool {
    r.prev_hash is None
}

pub open spec fn is_changed(r: StoredView) -> bool {
    r.prev_hash is Some && r.prev_hash != r.hash
}

pub open spec fn count_rows(rows: Seq<StoredView>, p: spec_fn(StoredView) -> bool) -> nat
    decreases rows.len(),
{
    if rows.len() == 0 {
        0
    } else {
        count_rows(rows.drop_last(), p) + (if p(rows.last()) {
            1nat
        } else {
            0nat
        })
    }
}

pub open spec fn stats_of(fps: Seq<SymbolView>, history: Seq<ExistingView>) -> FingerprintStats {
    FingerprintStats {
        symbols: fps.len() as usize,
        changed: count_rows(live_rows(fps, history), |r: StoredView| is_changed(r)) as usize,
        added: count_rows(live_rows(fps, history), |r: StoredView| is_added(r)) as usize,
        removed: gone_rows(fps, history).len() as usize,
        generation: next_generation(history) as i64,
    }
}

/// The rows that count: none where history starts anew.
pub open spec fn carried(existing: Seq<ExistingView>, force: bool) -> Seq<ExistingView> {
    if force {
        Seq::empty()
    } else {
        existing
    }
}

/// What a run stores for these fingerprints over these rows.
pub open spec fn is_update(
    rows: Seq<StoredView>,
    stats: FingerprintStats,
    fps: Seq<SymbolView>,
    existing: Seq<ExistingView>,
) -> bool {
    exists|history: Seq<ExistingView>| #[trigger]
        is_history(history, existing) && rows == stored_rows(fps, history) && stats == stats_of(fps, history)
}

fn copy_hash(h: &Option<String>) -> (r: Option<String>)
    ensures
        opt_view(r) == opt_view(*h),
{
    match h {
        Some(s) => Some(s.as_str().to_owned()),
        None => None,
    }
}

fn copy_row(row: &ExistingRow) -> (r: ExistingRow)
    ensures
        r.deep_view() == row.deep_view(),
{
    ExistingRow {
        qualified_name: row.qualified_name.as_str().to_owned(),
        file_path: row.file_path.as_str().to_owned(),
        node_type: row.node_type.as_str().to_owned(),
        hash: copy_hash(&row.hash),
        generation: row.generation,
    }
}

fn keys_of(rows: &Vec<ExistingRow>) -> (r: Vec<(String, String)>)
    ensures
        r.deep_view() == existing_keys(rows.deep_view()),
{
    let ghost want = existing_keys(rows.deep_view());
    let mut out: Vec<(String, String)> = Vec::new();
    let mut i: usize = 0;
    while i < rows.len()
        invariant
            i <= rows.len(),
            want == existing_keys(rows.deep_view()),
            out.deep_view() == want.take(i as int),
        decreases rows.len() - i,
    {
        proof {
            lemma_take_next(want, i as int);
        }
        let key: (String, String) = (
            rows[i].qualified_name.as_str().to_owned(),
            rows[i].file_path.as_str().to_owned(),
        );
        assert(key.deep_view() == want[i as int]);
        put(&mut out, key);
        i += 1;
    }
    assert(want.take(i as int) =~= want);
    out
}

/// The last row of every key, in the order of the keys.
fn find_history(existing: &Vec<ExistingRow>) -> (r: Vec<ExistingRow>)
    ensures
        is_history(r.deep_view(), existing.deep_view()),
        r.len() <= existing.len(),
{
    let ghost ev = existing.deep_view();
    let ghost kv = existing_keys(ev);
    let keys = sort_distinct(keys_of(existing));
    let index = SortedIndex::build(keys_of(existing));
    let ghost dv = keys.deep_view();
    let mut out: Vec<ExistingRow> = Vec::new();
    let mut i: usize = 0;
    while i < keys.len()
        invariant
            i <= keys.len(),
            ev == existing.deep_view(),
            kv == existing_keys(ev),
            dv == keys.deep_view(),
            is_distinct_sorted::<(String, String)>(kv, dv),
            index.wf(),
            index.keys() == kv,
            out.len() == i,
            forall|k: int| 0 <= k < i ==> ({
                let q = places_of(kv, #[trigger] dv[k]);
                &&& q.len() > 0
                &&& out@[k].deep_view() == ev[q.last() as int]
                &&& (out@[k].qualified_name@, out@[k].file_path@) == dv[k]
            }),
        decreases keys.len() - i,
    {
        let key = &keys[i];
        assert(dv[i as int] == key.deep_view());
        let q = index.places(key);
        proof {
            lemma_places_of(kv, key.deep_view());
            assert(dv.contains(dv[i as int]));
            assert(kv.contains(dv[i as int]));
            let k = choose|k: int| 0 <= k < kv.len() && kv[k] == dv[i as int];
            assert(q@.contains(k as usize));
        }
        assert(q@[q.len() - 1] < existing.len());
        let last: usize = q[q.len() - 1];
        let row = copy_row(&existing[last]);
        assert(row.deep_view() == ev[last as int]);
        assert(kv[last as int] == dv[i as int]);
        let ghost was = out@;
        out.push(row);
        assert forall|k: int| 0 <= k < i + 1 implies ({
            let q = places_of(kv, #[trigger] dv[k]);
            &&& q.len() > 0
            &&& out@[k].deep_view() == ev[q.last() as int]
            &&& (out@[k].qualified_name@, out@[k].file_path@) == dv[k]
        }) by {
            if k < i {
                assert(out@[k] == was[k]);
            }
        }
        i += 1;
    }
    proof {
        let ov = out.deep_view();
        assert(existing_keys(ov) =~= dv) by {
            assert forall|k: int| 0 <= k < ov.len() implies existing_keys(ov)[k] == dv[k] by {
                assert(ov[k] == out@[k].deep_view());
                let q = places_of(kv, dv[k]);
                assert(q.len() > 0);
            }
        }
        assert forall|k: int| 0 <= k < ov.len() implies ({
            let q = places_of(kv, #[trigger] existing_keys(ov)[k]);
            q.len() > 0 && ov[k] == ev[q.last() as int]
        }) by {
            let q = places_of(kv, dv[k]);
            assert(q.len() > 0);
            assert(ov[k] == out@[k].deep_view());
        }
    }
    out
}

fn find_generation(history: &Vec<ExistingRow>) -> (r: i64)
    requires
        next_generation(history.deep_view()) <= i64::MAX,
    ensures
        r == next_generation(history.deep_view()),
{
    let ghost hv = history.deep_view();
    if history.len() == 0 {
        return 1;
    }
    let mut best: i64 = history[0].generation;
    assert(hv[0] == history@[0].deep_view());
    let mut i: usize = 1;
    while i < history.len()
        invariant
            1 <= i <= history.len(),
            hv == history.deep_view(),
            best == greatest_generation(hv.take(i as int)),
        decreases history.len() - i,
    {
        proof {
            lemma_take_next(hv, i as int);
        }
        assert(hv[i as int] == history@[i as int].deep_view());
        if history[i].generation >= best {
            best = history[i].generation;
        }
        i += 1;
    }
    assert(hv.take(i as int) =~= hv);
    1 + best
}

fn same_hash(a: &Option<String>, b: &String) -> (r: bool)
    ensures
        r == (opt_view(*a) == Some(b@)),
{
    match a {
        Some(s) => same_text(s.as_str(), b.as_str()),
        None => false,
    }
}

proof fn lemma_count_rows(rows: Seq<StoredView>, p: spec_fn(StoredView) -> bool)
    ensures
        count_rows(rows, p) <= rows.len(),
    decreases rows.len(),
{
    if rows.len() > 0 {
        lemma_count_rows(rows.drop_last(), p);
    }
}

#[verifier::spinoff_prover]
fn plan(fps: &Vec<SymbolFingerprint>, history: &Vec<ExistingRow>) -> (r: FingerprintUpdate)
    requires
        next_generation(history.deep_view()) <= i64::MAX,
    ensures
        r.rows.deep_view() == stored_rows(fps.deep_view(), history.deep_view()),
        r.stats == stats_of(fps.deep_view(), history.deep_view()),
{
    let ghost fv = fps.deep_view();
    let ghost hv = history.deep_view();
    let ghost live = live_rows(fv, hv);
    let ghost is_new = |r: StoredView| is_added(r);
    let ghost is_diff = |r: StoredView| is_changed(r);
    let generation = find_generation(history);
    let index = SortedIndex::build(keys_of(history));
    let mut rows: Vec<FingerprintRow> = Vec::new();
    let mut added: usize = 0;
    let mut changed: usize = 0;
    let mut i: usize = 0;
    while i < fps.len()
        invariant
            i <= fps.len(),
            fv == fps.deep_view(),
            hv == history.deep_view(),
            live == live_rows(fv, hv),
            generation == next_generation(hv),
            index.wf(),
            index.keys() == existing_keys(hv),
            is_new == (|r: StoredView| is_added(r)),
            is_diff == (|r: StoredView| is_changed(r)),
            rows.deep_view() == live.take(i as int),
            added == count_rows(live.take(i as int), is_new),
            changed == count_rows(live.take(i as int), is_diff),
            added <= i,
            changed <= i,
        decreases fps.len() - i,
    {
        let fp = &fps[i];
        assert(fv[i as int] == fp.deep_view());
        let key: (String, String) = (fp.qualified_name.as_str().to_owned(), fp.file_path.as_str().to_owned());
        assert(key.deep_view() == (fp.qualified_name@, fp.file_path@));
        let q = index.places(&key);
        proof {
            lemma_places_of(existing_keys(hv), key.deep_view());
            lemma_take_next(live, i as int);
        }
        let hex = hash_to_hex(fp.hash);
        let (prev_hash, prev_generation): (Option<String>, Option<i64>) = if q.len() == 0 {
            (None, None)
        } else {
            assert(q@[q.len() - 1] < history.len());
            let old = &history[q[q.len() - 1]];
            assert(hv[q@[q.len() - 1] as int] == old.deep_view());
            (copy_hash(&old.hash), Some(old.generation))
        };
        if prev_hash.is_none() {
            added += 1;
        } else if !same_hash(&prev_hash, &hex) {
            changed += 1;
        }
        let row = FingerprintRow {
            qualified_name: fp.qualified_name.as_str().to_owned(),
            file_path: fp.file_path.as_str().to_owned(),
            node_type: fp.node_type.as_str().to_owned(),
            hash: Some(hex),
            edge_count: fp.edge_count as i64,
            name_edge_count: fp.name_edge_count as i64,
            generation,
            prev_hash,
            prev_generation,
        };
        assert(row.deep_view() =~= live[i as int]);
        put(&mut rows, row);
        i += 1;
    }
    assert(live.take(i as int) =~= live);
    let mut fp_keys: Vec<(String, String)> = Vec::new();
    let mut j: usize = 0;
    while j < fps.len()
        invariant
            j <= fps.len(),
            fv == fps.deep_view(),
            fp_keys.deep_view() == row_keys(fv).take(j as int),
        decreases fps.len() - j,
    {
        proof {
            lemma_take_next(row_keys(fv), j as int);
        }
        let key: (String, String) = (fps[j].qualified_name.as_str().to_owned(), fps[j].file_path.as_str().to_owned());
        assert(fv[j as int] == fps@[j as int].deep_view());
        assert(key.deep_view() == row_keys(fv)[j as int]);
        put(&mut fp_keys, key);
        j += 1;
    }
    assert(row_keys(fv).take(j as int) =~= row_keys(fv));
    let fp_index = SortedIndex::build(fp_keys);
    let ghost gone = gone_fn(fv, hv);
    assert(live + gather(hv.take(0), gone) =~= live);
    let mut removed: usize = 0;
    let mut k: usize = 0;
    while k < history.len()
        invariant
            k <= history.len(),
            fv == fps.deep_view(),
            hv == history.deep_view(),
            live == live_rows(fv, hv),
            generation == next_generation(hv),
            fp_index.wf(),
            fp_index.keys() == row_keys(fv),
            gone == gone_fn(fv, hv),
            rows.deep_view() == live + gather(hv.take(k as int), gone),
            removed == gather(hv.take(k as int), gone).len(),
            removed <= k,
        decreases history.len() - k,
    {
        let old = &history[k];
        assert(hv[k as int] == old.deep_view());
        proof {
            lemma_take_next(hv, k as int);
        }
        let ghost so_far = gather(hv.take(k as int), gone);
        let key: (String, String) = (old.qualified_name.as_str().to_owned(), old.file_path.as_str().to_owned());
        let ghost kk = (old.qualified_name@, old.file_path@);
        assert(key.deep_view() == kk);
        let q = fp_index.places(&key);
        proof {
            lemma_places_of(row_keys(fv), kk);
            if row_keys(fv).contains(kk) {
                let x = choose|x: int| 0 <= x < row_keys(fv).len() && row_keys(fv)[x] == kk;
                assert(q@.contains(x as usize));
            }
            if q.len() > 0 {
                assert(row_keys(fv)[q@[0] as int] == kk);
            }
        }
        if q.len() == 0 && old.hash.is_some() {
            removed += 1;
            let row = FingerprintRow {
                qualified_name: old.qualified_name.as_str().to_owned(),
                file_path: old.file_path.as_str().to_owned(),
                node_type: old.node_type.as_str().to_owned(),
                hash: None,
                edge_count: 0,
                name_edge_count: 0,
                generation,
                prev_hash: copy_hash(&old.hash),
                prev_generation: Some(old.generation),
            };
            let ghost rv = row.deep_view();
            assert(gone(hv[k as int]) == Some(rv));
            put(&mut rows, row);
            assert((live + so_far).push(rv) =~= live + so_far.push(rv));
        }
        k += 1;
    }
    assert(hv.take(k as int) =~= hv);
    FingerprintUpdate {
        rows,
        stats: FingerprintStats { symbols: fps.len(), changed, added, removed, generation },
    }
}

/// The next generation fits.
pub open spec fn generations_fit(existing: Seq<ExistingView>) -> bool {
    forall|i: int| 0 <= i < existing.len() ==> (#[trigger] existing[i]).generation < i64::MAX
}

proof fn lemma_generation_fits(history: Seq<ExistingView>)
    requires
        generations_fit(history),
    ensures
        next_generation(history) <= i64::MAX,
    decreases history.len(),
{
    if history.len() > 1 {
        let rest = history.drop_last();
        assert forall|i: int| 0 <= i < rest.len() implies (#[trigger] rest[i]).generation < i64::MAX by {
            assert(rest[i] == history[i]);
        }
        lemma_generation_fits(rest);
        assert(history[history.len() - 1].generation < i64::MAX);
    } else if history.len() == 1 {
        assert(history[0].generation < i64::MAX);
    }
}

/// Computes all fingerprints and what is stored of them. With `force`, history
/// starts anew.
pub fn update_fingerprints(nodes: &[ResolverNode], edges: &[QueryEdge], existing: &Vec<ExistingRow>, force: bool) -> (r:
    FingerprintUpdate)
    requires
        is_numberable(node_views(nodes@), query_views(edges@)),
        2 * edges.len() <= usize::MAX,
        !force ==> generations_fit(existing.deep_view()),
    ensures
        exists|fps: Seq<SymbolView>| #[trigger]
            lists_fingerprints(fps, node_views(nodes@), query_views(edges@)) && is_update(
                r.rows.deep_view(),
                r.stats,
                fps,
                carried(existing.deep_view(), force),
            ),
{
    let fps = compute_fingerprints(nodes, edges);
    let none: Vec<ExistingRow> = Vec::new();
    assert(none.deep_view() =~= Seq::empty());
    let history = if force {
        find_history(&none)
    } else {
        find_history(existing)
    };
    proof {
        let ev = carried(existing.deep_view(), force);
        let hv = history.deep_view();
        assert(is_history(hv, ev));
        assert forall|i: int| 0 <= i < hv.len() implies (#[trigger] hv[i]).generation < i64::MAX by {
            let key = existing_keys(hv)[i];
            let q = places_of(existing_keys(ev), key);
            lemma_places_small(existing_keys(ev), key);
            assert(q.last() < ev.len());
            assert(hv[i] == ev[q.last() as int]);
        }
        lemma_generation_fits(hv);
    }
    let r = plan(&fps, &history);
    assert(is_update(r.rows.deep_view(), r.stats, fps.deep_view(), carried(existing.deep_view(), force)));
    r
}

proof fn lemma_places_small<A>(s: Seq<A>, x: A)
    ensures
        forall|i: int| 0 <= i < places_of(s, x).len() ==> #[trigger] places_of(s, x)[i] < s.len(),
        places_of(s, x).len() > 0 ==> places_of(s, x).last() < s.len(),
    decreases s.len(),
{
    if s.len() > 0 {
        lemma_places_small(s.drop_last(), x);
    }
}

// ---- laws -------------------------------------------------------------------------------------

/// A stored row, as the next run reads it.
pub open spec fn reread(r: StoredView) -> ExistingView {
    ExistingView {
        qualified_name: r.qualified_name,
        file_path: r.file_path,
        node_type: r.node_type,
        hash: r.hash,
        generation: r.generation,
    }
}

pub open spec fn reread_all(rows: Seq<StoredView>) -> Seq<ExistingView> {
    Seq::new(rows.len(), |i: int| reread(rows[i]))
}

/// What the next run finds of a symbol that was there.
proof fn lemma_found_again(
    fps: Seq<SymbolView>,
    history: Seq<ExistingView>,
    again: Seq<ExistingView>,
    i: int,
)
    requires
        fps.len() + history.len() <= usize::MAX,
        forall|a: int, b: int| 0 <= a < b < fps.len() ==> #[trigger] row_keys(fps)[a] != #[trigger] row_keys(fps)[b],
        is_history(again, reread_all(stored_rows(fps, history))),
        0 <= i < fps.len(),
    ensures
        before(again, row_keys(fps)[i]) matches Some(r) && r.hash == Some(hash_text(fps[i])),
{
    let key = row_keys(fps)[i];
    let rows = stored_rows(fps, history);
    let ev = reread_all(rows);
    let ek = existing_keys(ev);
    let ak = existing_keys(again);
    let live = live_rows(fps, history);
    let gone = gone_rows(fps, history);
    lemma_gone_len(fps, history);
    assert(rows[i] == live[i]);
    assert(ek[i] == key);
    assert(ek.contains(key));
    lemma_distinct_keys(ek, ak);
    assert(ak.contains(key));
    let k = choose|k: int| 0 <= k < ak.len() && ak[k] == key;
    lemma_history_len(again, ev);
    lemma_places_of(ak, key);
    assert(places_of(ak, key).contains(k as usize));
    let l = places_of(ak, key).last() as int;
    assert(places_of(ak, key)[places_of(ak, key).len() - 1] < ak.len());
    assert(ak[l] == key);
    lemma_places_of(ek, key);
    let q = places_of(ek, key);
    assert(again[l] == ev[q.last() as int]) by {
        assert(existing_keys(again)[l] == key);
    }
    let j = q.last() as int;
    assert(q[q.len() - 1] < ek.len());
    assert(ek[j] == key);
    if j < fps.len() {
        assert(rows[j] == live[j]);
        assert(row_keys(fps)[j] == key);
        if j < i {
            assert(row_keys(fps)[j] != row_keys(fps)[i]);
        } else if i < j {
            assert(row_keys(fps)[i] != row_keys(fps)[j]);
        }
    } else {
        let g = gone[j - fps.len()];
        assert(rows[j] == g);
        assert(gone.contains(g));
        lemma_gather_member(history, gone_fn(fps, history), g);
        let h = choose|h: int| 0 <= h < history.len() && gone_fn(fps, history)(#[trigger] history[h]) == Some(g);
        assert(!row_keys(fps).contains((g.qualified_name, g.file_path)));
        assert(row_keys(fps).contains(key));
    }
}

proof fn lemma_gone_len(fps: Seq<SymbolView>, history: Seq<ExistingView>)
    ensures
        gone_rows(fps, history).len() <= history.len(),
{
    lemma_gather_small(history, gone_fn(fps, history));
}

proof fn lemma_gather_small<A, B>(s: Seq<A>, f: spec_fn(A) -> Option<B>)
    ensures
        gather(s, f).len() <= s.len(),
    decreases s.len(),
{
    if s.len() > 0 {
        lemma_gather_small(s.drop_last(), f);
    }
}

/// Sorted distinct keys are distinct, and the same as the keys.
pub proof fn lemma_distinct_keys(keys: Seq<(Seq<char>, Seq<char>)>, list: Seq<(Seq<char>, Seq<char>)>)
    requires
        is_distinct_sorted::<(String, String)>(keys, list),
    ensures
        forall|i: int, j: int| 0 <= i < j < list.len() ==> #[trigger] list[i] != #[trigger] list[j],
        forall|x: (Seq<char>, Seq<char>)| #[trigger] list.contains(x) <==> keys.contains(x),
{
    crate::order::lemma_distinct_sorted::<(String, String)>(keys, list);
}

/// A history is no longer than the rows.
proof fn lemma_history_len(history: Seq<ExistingView>, rows: Seq<ExistingView>)
    requires
        is_history(history, rows),
        rows.len() <= usize::MAX,
    ensures
        history.len() <= rows.len(),
{
    let hk = existing_keys(history);
    let rk = existing_keys(rows);
    lemma_distinct_keys(rk, hk);
    assert(hk.no_duplicates()) by {
        assert forall|i: int, j: int| 0 <= i < hk.len() && 0 <= j < hk.len() && i != j implies hk[i] != hk[j] by {
            if i < j {
                assert(hk[i] != hk[j]);
            } else {
                assert(hk[j] != hk[i]);
            }
        }
    }
    hk.unique_seq_to_set();
    rk.lemma_cardinality_of_set();
    assert(hk.to_set().subset_of(rk.to_set())) by {
        assert forall|x: (Seq<char>, Seq<char>)| hk.to_set().contains(x) implies rk.to_set().contains(x) by {
            assert(hk.contains(x));
            assert(rk.contains(x));
        }
    }
    vstd::set_lib::lemma_len_subset(hk.to_set(), rk.to_set());
}

/// A run over an unchanged project settles: over the rows that a run has stored,
/// a run with the same fingerprints finds nothing added, changed or removed, and
/// stores no row of a symbol that is gone.
pub proof fn an_unchanged_project_settles(fps: Seq<SymbolView>, history: Seq<ExistingView>, again: Seq<ExistingView>)
    requires
        fps.len() + history.len() <= usize::MAX,
        forall|a: int, b: int| 0 <= a < b < fps.len() ==> #[trigger] row_keys(fps)[a] != #[trigger] row_keys(fps)[b],
        is_history(again, reread_all(stored_rows(fps, history))),
    ensures
        stats_of(fps, again).added == 0,
        stats_of(fps, again).changed == 0,
        stats_of(fps, again).removed == 0,
        gone_rows(fps, again).len() == 0,
{
    let live = live_rows(fps, again);
    assert forall|i: int| 0 <= i < live.len() implies !is_added(#[trigger] live[i]) && !is_changed(live[i]) by {
        lemma_found_again(fps, history, again, i);
        assert(row_keys(fps)[i] == (fps[i].qualified_name, fps[i].file_path));
    }
    lemma_none_counted(live, |r: StoredView| is_added(r));
    lemma_none_counted(live, |r: StoredView| is_changed(r));
    let rows = stored_rows(fps, history);
    let ev = reread_all(rows);
    let ek = existing_keys(ev);
    lemma_gone_len(fps, history);
    assert forall|k: int| 0 <= k < again.len() implies gone_fn(fps, again)(#[trigger] again[k]) is None by {
        let key = existing_keys(again)[k];
        lemma_places_of(ek, key);
        let q = places_of(ek, key);
        assert(q.len() > 0 && again[k] == ev[q.last() as int]);
        let j = q.last() as int;
        assert(q[q.len() - 1] < ek.len());
        if j < fps.len() {
            assert(rows[j] == live_rows(fps, history)[j]);
            assert(row_keys(fps)[j] == key);
            assert(row_keys(fps).contains(key));
        } else {
            let gone = gone_rows(fps, history);
            let g = gone[j - fps.len()];
            assert(rows[j] == g);
            assert(gone.contains(g));
            lemma_gather_member(history, gone_fn(fps, history), g);
            assert(g.hash is None);
        }
    }
    lemma_none_gathered(again, gone_fn(fps, again));
}

proof fn lemma_none_counted(rows: Seq<StoredView>, p: spec_fn(StoredView) -> bool)
    requires
        forall|i: int| 0 <= i < rows.len() ==> !p(#[trigger] rows[i]),
    ensures
        count_rows(rows, p) == 0,
    decreases rows.len(),
{
    if rows.len() > 0 {
        let rest = rows.drop_last();
        assert forall|i: int| 0 <= i < rest.len() implies !p(#[trigger] rest[i]) by {
            assert(rest[i] == rows[i]);
        }
        lemma_none_counted(rest, p);
        assert(!p(rows[rows.len() - 1]));
    }
}

proof fn lemma_none_gathered<A, B>(s: Seq<A>, f: spec_fn(A) -> Option<B>)
    requires
        forall|i: int| 0 <= i < s.len() ==> f(#[trigger] s[i]) is None,
    ensures
        gather(s, f).len() == 0,
    decreases s.len(),
{
    if s.len() > 0 {
        let rest = s.drop_last();
        assert forall|i: int| 0 <= i < rest.len() implies f(#[trigger] rest[i]) is None by {
            assert(rest[i] == s[i]);
        }
        lemma_none_gathered(rest, f);
        assert(f(s[s.len() - 1]) is None);
    }
}

} // verus!
