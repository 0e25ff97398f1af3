//! How much of the structure a change preserved: the fingerprints of the last
//! two runs, compared symbol by symbol.

use vstd::prelude::*;
use crate::gather::{gather, lemma_gather_len, lemma_gather_member};
use crate::lookup::{lemma_take_next, places_of, put, SortedIndex};
use crate::order::{
    lemma_permutation_covers, lemma_stable_order_exists, lemma_stable_order_is_permutation, sort_by_keys,
    stable_indices, stable_sort,
};
use crate::text::{copy_texts, has_text, same_text};

verus! {

/// A symbol's fingerprints, as they are stored.
#[derive(Clone, Debug)]
pub struct DeltaRow {
    pub qualified_name: String,
    pub file_path: String,
    pub node_type: String,
    /// That of the last run; none where the symbol is gone.
    pub hash: Option<String>,
    /// That of the run before; none where the symbol is new.
    pub prev_hash: Option<String>,
}

#[verifier::ext_equal]
pub struct DeltaRowView {
    pub qualified_name: Seq<char>,
    pub file_path: Seq<char>,
    pub node_type: Seq<char>,
    pub hash: Option<Seq<char>>,
    pub prev_hash: Option<Seq<char>>,
}

impl DeepView for DeltaRow {
    type V = DeltaRowView;

    open spec fn deep_view(&self) -> DeltaRowView {
        DeltaRowView {
            qualified_name: self.qualified_name@,
            file_path: self.file_path@,
            node_type: self.node_type@,
            hash: self.hash.deep_view(),
            prev_hash: self.prev_hash.deep_view(),
        }
    }
}

/// A symbol of a delta.
#[derive(Clone, Debug)]
pub struct DeltaSymbol {
    pub qualified_name: String,
    pub file_path: String,
    pub node_type: String,
    pub fingerprint: Option<String>,
    pub previous_fingerprint: Option<String>,
    /// The name that the very structure had before, where it was renamed.
    pub renamed_from: Option<String>,
}

#[verifier::ext_equal]
pub struct DeltaSymbolView {
    pub qualified_name: Seq<char>,
    pub file_path: Seq<char>,
    pub node_type: Seq<char>,
    pub fingerprint: Option<Seq<char>>,
    pub previous_fingerprint: Option<Seq<char>>,
    pub renamed_from: Option<Seq<char>>,
}

impl DeepView for DeltaSymbol {
    type V = DeltaSymbolView;

    open spec fn deep_view(&self) -> DeltaSymbolView {
        DeltaSymbolView {
            qualified_name: self.qualified_name@,
            file_path: self.file_path@,
            node_type: self.node_type@,
            fingerprint: self.fingerprint.deep_view(),
            previous_fingerprint: self.previous_fingerprint.deep_view(),
            renamed_from: self.renamed_from.deep_view(),
        }
    }
}

/// What became of the symbols of some files between the last two runs.
#[derive(Clone, Debug)]
pub struct StructuralDelta {
    pub paths: Vec<String>,
    /// The same structure in both, under the same name or another.
    pub preserved: Vec<DeltaSymbol>,
    /// Another structure than before.
    pub changed: Vec<DeltaSymbol>,
    /// New.
    pub added: Vec<DeltaSymbol>,
    /// Gone.
    pub removed: Vec<DeltaSymbol>,
    /// Has the project no node at all?
    pub graph_empty: bool,
}

#[verifier::ext_equal]
pub struct DeltaView {
    pub paths: Seq<Seq<char>>,
    pub preserved: Seq<DeltaSymbolView>,
    pub changed: Seq<DeltaSymbolView>,
    pub added: Seq<DeltaSymbolView>,
    pub removed: Seq<DeltaSymbolView>,
    pub graph_empty: bool,
}

impl DeepView for StructuralDelta {
    type V = DeltaView;

    open spec fn deep_view(&self) -> DeltaView {
        DeltaView {
            paths: self.paths.deep_view(),
            preserved: self.preserved.deep_view(),
            changed: self.changed.deep_view(),
            added: self.added.deep_view(),
            removed: self.removed.deep_view(),
            graph_empty: self.graph_empty,
        }
    }
}

impl DeltaView {
    /// Nothing changed, nothing is new, nothing is gone.
    pub open spec fn is_neutral(self) -> bool {
        self.changed.len() == 0 && self.added.len() == 0 && self.removed.len() == 0
    }
}

impl StructuralDelta {
    /// Did no structure change? A renamed symbol is preserved.
    pub fn is_structure_neutral(&self) -> (r: bool)
        ensures
            r == self.deep_view().is_neutral(),
    {
        self.changed.len() == 0 && self.added.len() == 0 && self.removed.len() == 0
    }

    pub fn preserved_count(&self) -> (r: usize)
        ensures
            r == self.deep_view().preserved.len(),
    {
        self.preserved.len()
    }

    pub fn changed_count(&self) -> (r: usize)
        ensures
            r == self.deep_view().changed.len(),
    {
        self.changed.len()
    }
}

// ---- classes of rows -------------------------------------------------------------------------

pub open spec fn symbol_of(row: DeltaRowView, renamed_from: Option<Seq<char>>) -> DeltaSymbolView {
    DeltaSymbolView {
        qualified_name: row.qualified_name,
        file_path: row.file_path,
        node_type: row.node_type,
        fingerprint: row.hash,
        previous_fingerprint: row.prev_hash,
        renamed_from,
    }
}

pub open spec fn kept() -> spec_fn(DeltaRowView) -> Option<DeltaSymbolView> {
    |row: DeltaRowView|
        if row.hash is Some && row.hash == row.prev_hash {
            Some(symbol_of(row, None))
        } else {
            None
        }
}

pub open spec fn moved() -> spec_fn(DeltaRowView) -> Option<DeltaSymbolView> {
    |row: DeltaRowView|
        if row.hash is Some && row.prev_hash is Some && row.hash != row.prev_hash {
            Some(symbol_of(row, None))
        } else {
            None
        }
}

pub open spec fn fresh() -> spec_fn(DeltaRowView) -> Option<DeltaRowView> {
    |row: DeltaRowView|
        if row.hash is Some && row.prev_hash is None {
            Some(row)
        } else {
            None
        }
}

pub open spec fn vanished() -> spec_fn(DeltaRowView) -> Option<DeltaRowView> {
    |row: DeltaRowView|
        if row.hash is None && row.prev_hash is Some {
            Some(row)
        } else {
            None
        }
}

/// The hashes of new rows.
pub open spec fn hashes(rows: Seq<DeltaRowView>) -> Seq<Seq<char>> {
    rows.map_values(|row: DeltaRowView| row.hash->0)
}

/// The former hashes of rows that are gone.
pub open spec fn former_hashes(rows: Seq<DeltaRowView>) -> Seq<Seq<char>> {
    rows.map_values(|row: DeltaRowView| row.prev_hash->0)
}

/// Does a hash tell a rename? It is that of exactly one new row and was that
/// of exactly one row that is gone.
pub open spec fn tells_rename(added: Seq<DeltaRowView>, removed: Seq<DeltaRowView>, hash: Seq<char>) -> bool {
    places_of(hashes(added), hash).len() == 1 && places_of(former_hashes(removed), hash).len() == 1
}

/// A new row as the renamed form of one that is gone.
pub open spec fn renamed(added: Seq<DeltaRowView>, removed: Seq<DeltaRowView>) -> spec_fn(DeltaRowView) -> Option<
    DeltaSymbolView,
> {
    |row: DeltaRowView|
        if tells_rename(added, removed, row.hash->0) {
            let old = removed[places_of(former_hashes(removed), row.hash->0)[0] as int];
            Some(
                DeltaSymbolView {
                    qualified_name: row.qualified_name,
                    file_path: row.file_path,
                    node_type: row.node_type,
                    fingerprint: row.hash,
                    previous_fingerprint: old.prev_hash,
                    renamed_from: Some(old.qualified_name),
                },
            )
        } else {
            None
        }
}

pub open spec fn still_new(added: Seq<DeltaRowView>, removed: Seq<DeltaRowView>) -> spec_fn(DeltaRowView) -> Option<
    DeltaSymbolView,
> {
    |row: DeltaRowView|
        if tells_rename(added, removed, row.hash->0) {
            None
        } else {
            Some(symbol_of(row, None))
        }
}

pub open spec fn still_gone(added: Seq<DeltaRowView>, removed: Seq<DeltaRowView>) -> spec_fn(DeltaRowView) -> Option<
    DeltaSymbolView,
> {
    |row: DeltaRowView|
        if tells_rename(added, removed, row.prev_hash->0) {
            None
        } else {
            Some(symbol_of(row, None))
        }
}

pub open spec fn delta_keys(s: Seq<DeltaSymbolView>) -> Seq<(Seq<char>, Seq<char>)> {
    s.map_values(|d: DeltaSymbolView| (d.file_path, d.qualified_name))
}

/// Symbols by file, then by name.
pub open spec fn by_place(s: Seq<DeltaSymbolView>) -> Seq<DeltaSymbolView> {
    stable_sort::<(String, String), DeltaSymbolView>(delta_keys(s), s)
}

/// What became of the symbols of some rows.
pub open spec fn classified(rows: Seq<DeltaRowView>) -> DeltaView {
    let added = gather(rows, fresh());
    let removed = gather(rows, vanished());
    DeltaView {
        paths: Seq::empty(),
        preserved: by_place(gather(rows, kept()) + gather(added, renamed(added, removed))),
        changed: by_place(gather(rows, moved())),
        added: by_place(gather(added, still_new(added, removed))),
        removed: by_place(gather(removed, still_gone(added, removed))),
        graph_empty: false,
    }
}

fn copy_text(t: &Option<String>) -> (r: Option<String>)
    ensures
        r.deep_view() == t.deep_view(),
{
    match t {
        Some(s) => Some(s.as_str().to_owned()),
        None => None,
    }
}

fn symbol(row: &DeltaRow) -> (r: DeltaSymbol)
    ensures
        r.deep_view() == symbol_of(row.deep_view(), None),
{
    DeltaSymbol {
        qualified_name: row.qualified_name.as_str().to_owned(),
        file_path: row.file_path.as_str().to_owned(),
        node_type: row.node_type.as_str().to_owned(),
        fingerprint: copy_text(&row.hash),
        previous_fingerprint: copy_text(&row.prev_hash),
        renamed_from: None,
    }
}

fn sort_symbols(items: Vec<DeltaSymbol>) -> (r: Vec<DeltaSymbol>)
    ensures
        r.deep_view() == by_place(items.deep_view()),
{
    let ghost want = delta_keys(items.deep_view());
    let mut keys: Vec<(String, String)> = Vec::new();
    let mut i: usize = 0;
    assert(keys.deep_view() =~= want.take(0));
    while i < items.len()
        invariant
            i <= items@.len(),
            want == delta_keys(items.deep_view()),
            keys.deep_view() == want.take(i as int),
        decreases items.len() - i,
    {
        proof {
            assert(want.len() == items@.len());
            lemma_take_next(want, i as int);
            assert(items.deep_view()[i as int] == items@[i as int].deep_view());
        }
        let key = (items[i].file_path.as_str().to_owned(), items[i].qualified_name.as_str().to_owned());
        assert(key.deep_view() == want[i as int]);
        put(&mut keys, key);
        i = i + 1;
    }
    assert(want.take(i as int) =~= want);
    assert(keys.deep_view().len() == keys@.len());
    sort_by_keys(&keys, items)
}

struct Classes {
    preserved: Vec<DeltaSymbol>,
    changed: Vec<DeltaSymbol>,
    added: Vec<DeltaRow>,
    removed: Vec<DeltaRow>,
}

impl Classes {
    spec fn hold(&self, rows: Seq<DeltaRowView>) -> bool {
        &&& self.preserved.deep_view() == gather(rows, kept())
        &&& self.changed.deep_view() == gather(rows, moved())
        &&& self.added.deep_view() == gather(rows, fresh())
        &&& self.removed.deep_view() == gather(rows, vanished())
    }
}

fn copy_row(row: &DeltaRow) -> (r: DeltaRow)
    ensures
        r.deep_view() == row.deep_view(),
{
    DeltaRow {
        qualified_name: row.qualified_name.as_str().to_owned(),
        file_path: row.file_path.as_str().to_owned(),
        node_type: row.node_type.as_str().to_owned(),
        hash: copy_text(&row.hash),
        prev_hash: copy_text(&row.prev_hash),
    }
}

fn part(rows: &Vec<DeltaRow>) -> (r: Classes)
    ensures
        r.hold(rows.deep_view()),
{
    let ghost all = rows.deep_view();
    let mut c = Classes { preserved: Vec::new(), changed: Vec::new(), added: Vec::new(), removed: Vec::new() };
    let mut i: usize = 0;
    proof {
        assert(c.preserved.deep_view() =~= gather(all.take(0), kept()));
        assert(c.changed.deep_view() =~= gather(all.take(0), moved()));
        assert(c.added.deep_view() =~= gather(all.take(0), fresh()));
        assert(c.removed.deep_view() =~= gather(all.take(0), vanished()));
    }
    while i < rows.len()
        invariant
            i <= rows@.len(),
            all == rows.deep_view(),
            c.hold(all.take(i as int)),
        decreases rows.len() - i,
    {
        let row = &rows[i];
        proof {
            assert(all.len() == rows@.len());
            lemma_take_next(all, i as int);
            assert(all[i as int] == row.deep_view());
        }
        match (&row.hash, &row.prev_hash) {
            (Some(h), Some(p)) => {
                if same_text(h.as_str(), p.as_str()) {
                    put(&mut c.preserved, symbol(row));
                } else {
                    put(&mut c.changed, symbol(row));
                }
            },
            (Some(_), None) => put(&mut c.added, copy_row(row)),
            (None, Some(_)) => put(&mut c.removed, copy_row(row)),
            (None, None) => {},
        }
        i = i + 1;
    }
    assert(all.take(i as int) =~= all);
    c
}

fn hash_keys(rows: &Vec<DeltaRow>) -> (r: Vec<String>)
    requires
        forall|i: int| 0 <= i < rows@.len() ==> (#[trigger] rows@[i]).hash is Some,
    ensures
        r.deep_view() == hashes(rows.deep_view()),
{
    let ghost want = hashes(rows.deep_view());
    let mut out: Vec<String> = Vec::new();
    let mut i: usize = 0;
    assert(out.deep_view() =~= want.take(0));
    while i < rows.len()
        invariant
            i <= rows@.len(),
            want == hashes(rows.deep_view()),
            forall|i: int| 0 <= i < rows@.len() ==> (#[trigger] rows@[i]).hash is Some,
            out.deep_view() == want.take(i as int),
        decreases rows.len() - i,
    {
        proof {
            assert(want.len() == rows@.len());
            lemma_take_next(want, i as int);
            assert(rows.deep_view()[i as int] == rows@[i as int].deep_view());
        }
        match &rows[i].hash {
            Some(h) => put(&mut out, h.as_str().to_owned()),
            None => {},
        }
        i = i + 1;
    }
    assert(want.take(i as int) =~= want);
    out
}

fn former_keys(rows: &Vec<DeltaRow>) -> (r: Vec<String>)
    requires
        forall|i: int| 0 <= i < rows@.len() ==> (#[trigger] rows@[i]).prev_hash is Some,
    ensures
        r.deep_view() == former_hashes(rows.deep_view()),
{
    let ghost want = former_hashes(rows.deep_view());
    let mut out: Vec<String> = Vec::new();
    let mut i: usize = 0;
    assert(out.deep_view() =~= want.take(0));
    while i < rows.len()
        invariant
            i <= rows@.len(),
            want == former_hashes(rows.deep_view()),
            forall|i: int| 0 <= i < rows@.len() ==> (#[trigger] rows@[i]).prev_hash is Some,
            out.deep_view() == want.take(i as int),
        decreases rows.len() - i,
    {
        proof {
            assert(want.len() == rows@.len());
            lemma_take_next(want, i as int);
            assert(rows.deep_view()[i as int] == rows@[i as int].deep_view());
        }
        match &rows[i].prev_hash {
            Some(h) => put(&mut out, h.as_str().to_owned()),
            None => {},
        }
        i = i + 1;
    }
    assert(want.take(i as int) =~= want);
    out
}

/// The places that a hash pairs: none where it tells no rename.
fn pairing(news: &SortedIndex<String>, olds: &SortedIndex<String>, hash: &String) -> (r: Option<usize>)
    requires
        news.wf(),
        olds.wf(),
    ensures
        match r {
            Some(k) => places_of(news.keys(), hash@).len() == 1 && places_of(olds.keys(), hash@) == seq![k] && k
                < olds.keys().len(),
            None => places_of(news.keys(), hash@).len() != 1 || places_of(olds.keys(), hash@).len() != 1,
        },
{
    let adds = news.places(hash);
    let rems = olds.places(hash);
    if adds.len() == 1 && rems.len() == 1 {
        proof {
            crate::lookup::lemma_places_of(olds.keys(), hash@);
            assert(rems@ =~= seq![rems@[0]]);
        }
        Some(rems[0])
    } else {
        None
    }
}

fn pair_added(
    added: &Vec<DeltaRow>,
    removed: &Vec<DeltaRow>,
    news: &SortedIndex<String>,
    olds: &SortedIndex<String>,
) -> (r: (Vec<DeltaSymbol>, Vec<DeltaSymbol>))
    requires
        news.wf(),
        olds.wf(),
        news.keys() == hashes(added.deep_view()),
        olds.keys() == former_hashes(removed.deep_view()),
        forall|i: int| 0 <= i < added@.len() ==> (#[trigger] added@[i]).hash is Some,
    ensures
        r.0.deep_view() == gather(added.deep_view(), renamed(added.deep_view(), removed.deep_view())),
        r.1.deep_view() == gather(added.deep_view(), still_new(added.deep_view(), removed.deep_view())),
{
    let ghost av = added.deep_view();
    let ghost rv = removed.deep_view();
    let mut pairs: Vec<DeltaSymbol> = Vec::new();
    let mut rest: Vec<DeltaSymbol> = Vec::new();
    let mut i: usize = 0;
    assert(pairs.deep_view() =~= gather(av.take(0), renamed(av, rv)));
    assert(rest.deep_view() =~= gather(av.take(0), still_new(av, rv)));
    while i < added.len()
        invariant
            i <= added@.len(),
            av == added.deep_view(),
            rv == removed.deep_view(),
            news.wf(),
            olds.wf(),
            news.keys() == hashes(av),
            olds.keys() == former_hashes(rv),
            forall|i: int| 0 <= i < added@.len() ==> (#[trigger] added@[i]).hash is Some,
            pairs.deep_view() == gather(av.take(i as int), renamed(av, rv)),
            rest.deep_view() == gather(av.take(i as int), still_new(av, rv)),
        decreases added.len() - i,
    {
        let row = &added[i];
        proof {
            assert(av.len() == added@.len());
            lemma_take_next(av, i as int);
            assert(av[i as int] == row.deep_view());
        }
        match &row.hash {
            Some(hash) => match pairing(news, olds, hash) {
                Some(k) => {
                    let old = &removed[k];
                    assert(rv[k as int] == old.deep_view());
                    assert(places_of(former_hashes(rv), hash@)[0] == k);
                    put(
                        &mut pairs,
                        DeltaSymbol {
                            qualified_name: row.qualified_name.as_str().to_owned(),
                            file_path: row.file_path.as_str().to_owned(),
                            node_type: row.node_type.as_str().to_owned(),
                            fingerprint: copy_text(&row.hash),
                            previous_fingerprint: copy_text(&old.prev_hash),
                            renamed_from: Some(old.qualified_name.as_str().to_owned()),
                        },
                    );
                },
                None => put(&mut rest, symbol(row)),
            },
            None => {},
        }
        i = i + 1;
    }
    assert(av.take(i as int) =~= av);
    (pairs, rest)
}

fn leave_removed(
    added: &Vec<DeltaRow>,
    removed: &Vec<DeltaRow>,
    news: &SortedIndex<String>,
    olds: &SortedIndex<String>,
) -> (r: Vec<DeltaSymbol>)
    requires
        news.wf(),
        olds.wf(),
        news.keys() == hashes(added.deep_view()),
        olds.keys() == former_hashes(removed.deep_view()),
        forall|i: int| 0 <= i < removed@.len() ==> (#[trigger] removed@[i]).prev_hash is Some,
    ensures
        r.deep_view() == gather(removed.deep_view(), still_gone(added.deep_view(), removed.deep_view())),
{
    let ghost av = added.deep_view();
    let ghost rv = removed.deep_view();
    let mut rest: Vec<DeltaSymbol> = Vec::new();
    let mut i: usize = 0;
    assert(rest.deep_view() =~= gather(rv.take(0), still_gone(av, rv)));
    while i < removed.len()
        invariant
            i <= removed@.len(),
            av == added.deep_view(),
            rv == removed.deep_view(),
            news.wf(),
            olds.wf(),
            news.keys() == hashes(av),
            olds.keys() == former_hashes(rv),
            forall|i: int| 0 <= i < removed@.len() ==> (#[trigger] removed@[i]).prev_hash is Some,
            rest.deep_view() == gather(rv.take(i as int), still_gone(av, rv)),
        decreases removed.len() - i,
    {
        let row = &removed[i];
        proof {
            assert(rv.len() == removed@.len());
            lemma_take_next(rv, i as int);
            assert(rv[i as int] == row.deep_view());
        }
        match &row.prev_hash {
            Some(hash) => match pairing(news, olds, hash) {
                Some(_) => {},
                None => put(&mut rest, symbol(row)),
            },
            None => {},
        }
        i = i + 1;
    }
    assert(rv.take(i as int) =~= rv);
    rest
}

/// Classifies symbols by their fingerprints, and pairs renames.
///
/// A rename leaves one row that is gone and one that is new with the same
/// fingerprint, since names are no part of it. Where a fingerprint is on
/// exactly one of each, they are one symbol that was preserved; where it is
/// on several, nothing is guessed.
pub fn classify_delta(rows: &Vec<DeltaRow>) -> (r: StructuralDelta)
    ensures
        r.deep_view() == classified(rows.deep_view()),
{
    let ghost all = rows.deep_view();
    let Classes { mut preserved, changed, added, removed } = part(rows);
    proof {
        assert forall|i: int| 0 <= i < added@.len() implies (#[trigger] added@[i]).hash is Some by {
            let av = added.deep_view();
            lemma_gather_member(all, fresh(), av[i]);
            assert(av.contains(av[i]));
        }
        assert forall|i: int| 0 <= i < removed@.len() implies (#[trigger] removed@[i]).prev_hash is Some by {
            let rv = removed.deep_view();
            lemma_gather_member(all, vanished(), rv[i]);
            assert(rv.contains(rv[i]));
        }
    }
    let news = SortedIndex::build(hash_keys(&added));
    let olds = SortedIndex::build(former_keys(&removed));
    let (mut pairs, still_added) = pair_added(&added, &removed, &news, &olds);
    let still_removed = leave_removed(&added, &removed, &news, &olds);
    let ghost first = preserved.deep_view();
    let ghost second = pairs.deep_view();
    preserved.append(&mut pairs);
    assert(preserved.deep_view() =~= first + second);
    let paths: Vec<String> = Vec::new();
    assert(paths.deep_view() =~= Seq::<Seq<char>>::empty());
    StructuralDelta {
        paths,
        preserved: sort_symbols(preserved),
        changed: sort_symbols(changed),
        added: sort_symbols(still_added),
        removed: sort_symbols(still_removed),
        graph_empty: false,
    }
}

/// A row of a file that was asked about, its empty fingerprints as none.
pub open spec fn asked(paths: Seq<Seq<char>>) -> spec_fn(DeltaRowView) -> Option<DeltaRowView> {
    |row: DeltaRowView|
        if paths.contains(row.file_path) {
            Some(
                DeltaRowView { hash: present(row.hash), prev_hash: present(row.prev_hash), ..row },
            )
        } else {
            None
        }
}

pub open spec fn present(t: Option<Seq<char>>) -> Option<Seq<char>> {
    match t {
        Some(s) => if s.len() == 0 {
            None
        } else {
            Some(s)
        },
        None => None,
    }
}

fn present_text(t: &Option<String>) -> (r: Option<String>)
    ensures
        r.deep_view() == present(t.deep_view()),
{
    match t {
        Some(s) => if s.as_str().is_empty() {
            None
        } else {
            Some(s.as_str().to_owned())
        },
        None => None,
    }
}

/// What became of the symbols of some files, from all that is stored.
pub fn structural_delta_for_paths(rows: &Vec<DeltaRow>, paths: &Vec<String>, graph_empty: bool) -> (r: StructuralDelta)
    ensures
        r.deep_view() == (DeltaView {
            paths: paths.deep_view(),
            graph_empty,
            ..classified(gather(rows.deep_view(), asked(paths.deep_view())))
        }),
{
    let ghost all = rows.deep_view();
    let ghost f = asked(paths.deep_view());
    let mut picked: Vec<DeltaRow> = Vec::new();
    let mut i: usize = 0;
    assert(picked.deep_view() =~= gather(all.take(0), f));
    while i < rows.len()
        invariant
            i <= rows@.len(),
            all == rows.deep_view(),
            f == asked(paths.deep_view()),
            picked.deep_view() == gather(all.take(i as int), f),
        decreases rows.len() - i,
    {
        let row = &rows[i];
        proof {
            assert(all.len() == rows@.len());
            lemma_take_next(all, i as int);
            assert(all[i as int] == row.deep_view());
        }
        if has_text(paths, row.file_path.as_str()) {
            put(
                &mut picked,
                DeltaRow {
                    qualified_name: row.qualified_name.as_str().to_owned(),
                    file_path: row.file_path.as_str().to_owned(),
                    node_type: row.node_type.as_str().to_owned(),
                    hash: present_text(&row.hash),
                    prev_hash: present_text(&row.prev_hash),
                },
            );
        }
        i = i + 1;
    }
    assert(all.take(i as int) =~= all);
    let delta = classify_delta(&picked);
    StructuralDelta {
        paths: copy_texts(paths),
        preserved: delta.preserved,
        changed: delta.changed,
        added: delta.added,
        removed: delta.removed,
        graph_empty,
    }
}

// ---- what a delta says -----------------------------------------------------------------------

/// Sorting neither adds nor loses a symbol.
proof fn lemma_by_place(s: Seq<DeltaSymbolView>)
    requires
        s.len() <= usize::MAX,
    ensures
        by_place(s).len() == s.len(),
        forall|x: DeltaSymbolView| s.contains(x) ==> #[trigger] by_place(s).contains(x),
{
    let keys = delta_keys(s);
    lemma_stable_order_exists::<(String, String)>(keys);
    let p = stable_indices::<(String, String)>(keys);
    lemma_stable_order_is_permutation::<(String, String)>(keys, p);
    assert forall|x: DeltaSymbolView| s.contains(x) implies #[trigger] by_place(s).contains(x) by {
        let k = choose|k: int| 0 <= k < s.len() && s[k] == x;
        lemma_permutation_covers(p, s.len(), k as usize);
        let j = choose|j: int| 0 <= j < p.len() && p[j] == k as usize;
        assert(by_place(s)[j] == s[p[j] as int]);
    }
}

proof fn lemma_gather_none<A, B>(s: Seq<A>, f: spec_fn(A) -> Option<B>)
    requires
        forall|i: int| 0 <= i < s.len() ==> f(#[trigger] s[i]) is None,
    ensures
        gather(s, f) == Seq::<B>::empty(),
    decreases s.len(),
{
    if s.len() > 0 {
        assert forall|i: int| 0 <= i < s.drop_last().len() implies f(#[trigger] s.drop_last()[i]) is None by {
            assert(f(s[i]) is None);
        }
        lemma_gather_none(s.drop_last(), f);
        assert(f(s[s.len() - 1]) is None);
    }
}

/// A change that only renames is neutral: where every symbol has kept its
/// fingerprint, or has one that tells a rename, nothing counts as changed,
/// new or gone.
pub proof fn a_pure_rename_is_neutral(rows: Seq<DeltaRowView>)
    requires
        rows.len() <= usize::MAX,
        forall|i: int|
            #![trigger rows[i]]
            0 <= i < rows.len() ==> {
                ||| rows[i].hash is Some && rows[i].hash == rows[i].prev_hash
                ||| rows[i].hash is Some && rows[i].prev_hash is None && tells_rename(
                    gather(rows, fresh()),
                    gather(rows, vanished()),
                    rows[i].hash->0,
                )
                ||| rows[i].hash is None && rows[i].prev_hash is Some && tells_rename(
                    gather(rows, fresh()),
                    gather(rows, vanished()),
                    rows[i].prev_hash->0,
                )
            },
    ensures
        classified(rows).is_neutral(),
{
    let added = gather(rows, fresh());
    let removed = gather(rows, vanished());
    lemma_gather_none(rows, moved());
    assert forall|i: int| 0 <= i < added.len() implies still_new(added, removed)(#[trigger] added[i]) is None by {
        lemma_gather_member(rows, fresh(), added[i]);
        assert(added.contains(added[i]));
        let k = choose|k: int| 0 <= k < rows.len() && fresh()(#[trigger] rows[k]) == Some(added[i]);
        assert(rows[k] == added[i]);
    }
    lemma_gather_none(added, still_new(added, removed));
    assert forall|i: int| 0 <= i < removed.len() implies still_gone(added, removed)(#[trigger] removed[i]) is None by {
        lemma_gather_member(rows, vanished(), removed[i]);
        assert(removed.contains(removed[i]));
        let k = choose|k: int| 0 <= k < rows.len() && vanished()(#[trigger] rows[k]) == Some(removed[i]);
        assert(rows[k] == removed[i]);
    }
    lemma_gather_none(removed, still_gone(added, removed));
    lemma_by_place(Seq::empty());
}

/// No symbol is lost: one that the last run saw is preserved, changed or
/// added under its own name, and one that is gone is removed or the former
/// name of one that is preserved.
pub proof fn every_symbol_is_accounted_for(rows: Seq<DeltaRowView>, i: int)
    requires
        rows.len() <= usize::MAX / 2,
        0 <= i < rows.len(),
    ensures
        rows[i].hash is Some && rows[i].prev_hash is Some ==> classified(rows).preserved.contains(
            symbol_of(rows[i], None),
        ) || classified(rows).changed.contains(symbol_of(rows[i], None)),
        rows[i].hash is Some && rows[i].prev_hash is None ==> classified(rows).added.contains(
            symbol_of(rows[i], None),
        ) || exists|d: DeltaSymbolView| #[trigger]
            classified(rows).preserved.contains(d) && d.qualified_name == rows[i].qualified_name && d.file_path
                == rows[i].file_path && d.fingerprint == rows[i].hash,
        rows[i].hash is None && rows[i].prev_hash is Some ==> classified(rows).removed.contains(
            symbol_of(rows[i], None),
        ) || exists|d: DeltaSymbolView| #[trigger]
            classified(rows).preserved.contains(d) && d.renamed_from == Some(rows[i].qualified_name)
                && d.previous_fingerprint == rows[i].prev_hash,
{
    let added = gather(rows, fresh());
    let removed = gather(rows, vanished());
    let base = gather(rows, kept());
    let pairs = gather(added, renamed(added, removed));
    lemma_gather_len(rows, fresh());
    lemma_gather_len(rows, vanished());
    lemma_gather_len(rows, kept());
    lemma_gather_len(rows, moved());
    lemma_gather_len(added, renamed(added, removed));
    lemma_gather_len(added, still_new(added, removed));
    lemma_gather_len(removed, still_gone(added, removed));
    lemma_by_place(base + pairs);
    lemma_by_place(gather(rows, moved()));
    lemma_by_place(gather(added, still_new(added, removed)));
    lemma_by_place(gather(removed, still_gone(added, removed)));
    let row = rows[i];
    let own = symbol_of(row, None);
    if row.hash is Some && row.prev_hash is Some {
        lemma_gather_member(rows, kept(), own);
        lemma_gather_member(rows, moved(), own);
        if row.hash == row.prev_hash {
            assert(kept()(rows[i]) == Some(own));
            let k = choose|k: int| 0 <= k < base.len() && base[k] == own;
            assert((base + pairs)[k] == own);
        } else {
            assert(moved()(rows[i]) == Some(own));
        }
    }
    if row.hash is Some && row.prev_hash is None {
        lemma_gather_member(rows, fresh(), row);
        assert(fresh()(rows[i]) == Some(row));
        let a = choose|a: int| 0 <= a < added.len() && added[a] == row;
        match renamed(added, removed)(row) {
            Some(d) => {
                lemma_gather_member(added, renamed(added, removed), d);
                assert(renamed(added, removed)(added[a]) == Some(d));
                let k = choose|k: int| 0 <= k < pairs.len() && pairs[k] == d;
                assert((base + pairs)[base.len() + k] == d);
                assert(classified(rows).preserved.contains(d));
            },
            None => {
                lemma_gather_member(added, still_new(added, removed), own);
                assert(still_new(added, removed)(added[a]) == Some(own));
            },
        }
    }
    if row.hash is None && row.prev_hash is Some {
        lemma_gather_member(rows, vanished(), row);
        assert(vanished()(rows[i]) == Some(row));
        let j = choose|j: int| 0 <= j < removed.len() && removed[j] == row;
        let hash = row.prev_hash->0;
        if tells_rename(added, removed, hash) {
            crate::lookup::lemma_places_of(hashes(added), hash);
            crate::lookup::lemma_places_of(former_hashes(removed), hash);
            let a = places_of(hashes(added), hash)[0] as int;
            let spots = places_of(former_hashes(removed), hash);
            assert(former_hashes(removed)[j] == hash);
            assert(spots.contains(j as usize));
            assert(spots[0] == j as usize);
            assert(hashes(added)[a] == hash);
            lemma_gather_member(rows, fresh(), added[a]);
            assert(added.contains(added[a]));
            assert(added[a].hash == Some(hash));
            let d = renamed(added, removed)(added[a])->0;
            lemma_gather_member(added, renamed(added, removed), d);
            assert(renamed(added, removed)(added[a]) == Some(d));
            let k = choose|k: int| 0 <= k < pairs.len() && pairs[k] == d;
            assert((base + pairs)[base.len() + k] == d);
            assert(classified(rows).preserved.contains(d));
        } else {
            lemma_gather_member(removed, still_gone(added, removed), own);
            assert(still_gone(added, removed)(removed[j]) == Some(own));
        }
    }
}

} // verus!
