//! One indexing run: what is to be indexed, what each file adds, what has
//! disappeared, and what is written back.

use vstd::prelude::*;
use crate::gather::gather;
use crate::index::discovery::{components, split_components, DiscoveryStrategy};
use crate::index::fingerprint::update::FingerprintStats;
use crate::index::incremental::{ChangeView, FileChange};
use crate::index::parser::{CodeEdge, CodeEdgeView, CodeNode, CodeView, Metadata, ParsedFile, ParsedView};
use crate::index::resolve::pass::ResolveStats;
use crate::index::tier::IndexingTier;
use crate::lookup::{lemma_take_next, put};
use crate::order::{is_distinct_sorted, sort_distinct};
use crate::text::{has_text, same_text};

verus! {

/// What an indexing run is asked to do.
#[derive(Clone, Debug)]
pub struct IndexConfig {
    pub project_id: String,
    pub root_path: String,
    pub tier: IndexingTier,
    pub languages: Option<Vec<String>>,
    pub force: bool,
}

/// The outcome of an indexing run.
#[derive(Debug)]
pub struct IndexResult {
    pub files_scanned: usize,
    pub files_indexed: usize,
    pub files_skipped: usize,
    pub files_unchanged: usize,
    pub nodes_created: usize,
    pub edges_created: usize,
    pub errors: Vec<String>,
    pub resolution: ResolveStats,
    pub fingerprints: FingerprintStats,
    pub discovery: DiscoveryStrategy,
    /// The time of the whole run, in milliseconds.
    pub elapsed_millis: u64,
}

/// What a run says to someone who points it at a file.
pub fn refuse_file(file: &str, directory: &str) -> (r: String)
    ensures
        r@ == file@
            + " is a file, and codegraph indexes directories. Point it at the directory that contains the file instead:\n  codegraph index "@
            + directory@,
{
    let mut r = file.to_owned();
    r.append(
        " is a file, and codegraph indexes directories. Point it at the directory that contains the file instead:\n  codegraph index ",
    );
    r.append(directory);
    r
}

/// What a run says of its tier at the start.
pub fn tier_notice(tier: IndexingTier) -> (r: String)
    ensures
        r@ == "tier "@ + tier.spelling()
            + ". Lighter tiers exist: --tier fast indexes definitions only, --tier balanced adds call edges"@,
{
    let mut r = "tier ".to_owned();
    r.append(tier.as_str());
    r.append(". Lighter tiers exist: --tier fast indexes definitions only, --tier balanced adds call edges");
    r
}

// ---- what is to be done -------------------------------------------------------------------

/// The files of a run by what is to be done with them.
#[derive(Clone, Debug)]
pub struct IndexPlan {
    pub to_index: Vec<String>,
    pub deleted: Vec<String>,
    pub unchanged: usize,
}

pub open spec fn indexed_path() -> spec_fn(ChangeView) -> Option<Seq<char>> {
    |c: ChangeView|
        match c {
            ChangeView::Added(p) => Some(p),
            ChangeView::Modified(p) => Some(p),
            _ => None,
        }
}

pub open spec fn deleted_path() -> spec_fn(ChangeView) -> Option<Seq<char>> {
    |c: ChangeView|
        match c {
            ChangeView::Deleted(p) => Some(p),
            _ => None,
        }
}

pub open spec fn unchanged_path() -> spec_fn(ChangeView) -> Option<Seq<char>> {
    |c: ChangeView|
        match c {
            ChangeView::Unchanged(p) => Some(p),
            _ => None,
        }
}

/// A forced run takes every file as new.
pub fn all_added(files: &Vec<String>) -> (r: Vec<FileChange>)
    ensures
        r.deep_view() == files.deep_view().map_values(|p: Seq<char>| ChangeView::Added(p)),
{
    let ghost want = files.deep_view().map_values(|p: Seq<char>| ChangeView::Added(p));
    let mut out: Vec<FileChange> = Vec::new();
    let mut i: usize = 0;
    assert(out.deep_view() =~= want.take(0));
    while i < files.len()
        invariant
            i <= files@.len(),
            want == files.deep_view().map_values(|p: Seq<char>| ChangeView::Added(p)),
            out.deep_view() == want.take(i as int),
        decreases files.len() - i,
    {
        proof {
            assert(want.len() == files@.len());
            lemma_take_next(want, i as int);
            assert(files.deep_view()[i as int] == files@[i as int]@);
        }
        put(&mut out, FileChange::Added(files[i].as_str().to_owned()));
        i = i + 1;
    }
    assert(want.take(i as int) =~= want);
    out
}

/// What is to be done with each file, by what happened to it.
pub fn plan_run(changes: &Vec<FileChange>) -> (r: IndexPlan)
    ensures
        r.to_index.deep_view() == gather(changes.deep_view(), indexed_path()),
        r.deleted.deep_view() == gather(changes.deep_view(), deleted_path()),
        r.unchanged == gather(changes.deep_view(), unchanged_path()).len(),
{
    let ghost all = changes.deep_view();
    let mut to_index: Vec<String> = Vec::new();
    let mut deleted: Vec<String> = Vec::new();
    let mut unchanged: usize = 0;
    let mut i: usize = 0;
    assert(to_index.deep_view() =~= gather(all.take(0), indexed_path()));
    assert(deleted.deep_view() =~= gather(all.take(0), deleted_path()));
    while i < changes.len()
        invariant
            i <= changes@.len(),
            all == changes.deep_view(),
            to_index.deep_view() == gather(all.take(i as int), indexed_path()),
            deleted.deep_view() == gather(all.take(i as int), deleted_path()),
            unchanged == gather(all.take(i as int), unchanged_path()).len(),
            unchanged <= i,
        decreases changes.len() - i,
    {
        proof {
            assert(all.len() == changes@.len());
            lemma_take_next(all, i as int);
            assert(all[i as int] == changes@[i as int].deep_view());
        }
        match &changes[i] {
            FileChange::Added(p) => put(&mut to_index, p.as_str().to_owned()),
            FileChange::Modified(p) => put(&mut to_index, p.as_str().to_owned()),
            FileChange::Unchanged(_) => {
                unchanged = unchanged + 1;
            },
            FileChange::Deleted(p) => put(&mut deleted, p.as_str().to_owned()),
        }
        i = i + 1;
    }
    assert(all.take(i as int) =~= all);
    IndexPlan { to_index, deleted, unchanged }
}

/// Every file of a run is indexed, deleted or unchanged, and only one of
/// these.
pub proof fn a_plan_covers_every_change(changes: Seq<ChangeView>)
    ensures
        gather(changes, indexed_path()).len() + gather(changes, deleted_path()).len() + gather(
            changes,
            unchanged_path(),
        ).len() == changes.len(),
    decreases changes.len(),
{
    if changes.len() > 0 {
        a_plan_covers_every_change(changes.drop_last());
    }
}

// ---- what a file held before -------------------------------------------------------------

/// A symbol that was stored for a file.
#[derive(Clone, Debug)]
pub struct FileSymbol {
    pub node_id: String,
    pub name: String,
    pub qualified_name: String,
    pub node_type: String,
}

pub struct StoredSymbol {
    pub node_id: Seq<char>,
    pub name: Seq<char>,
    pub qualified_name: Seq<char>,
    pub node_type: Seq<char>,
}

impl DeepView for FileSymbol {
    type V = StoredSymbol;

    open spec fn deep_view(&self) -> StoredSymbol {
        StoredSymbol {
            node_id: self.node_id@,
            name: self.name@,
            qualified_name: self.qualified_name@,
            node_type: self.node_type@,
        }
    }
}

/// A definition that a run saw disappear.
#[derive(Clone, Debug)]
pub struct DeletedSymbolRow {
    pub project_id: String,
    pub name: String,
    pub qualified_name: String,
    pub node_type: String,
    pub file_path: String,
}

pub struct DeletedRowView {
    pub project_id: Seq<char>,
    pub name: Seq<char>,
    pub qualified_name: Seq<char>,
    pub node_type: Seq<char>,
    pub file_path: Seq<char>,
}

impl DeepView for DeletedSymbolRow {
    type V = DeletedRowView;

    open spec fn deep_view(&self) -> DeletedRowView {
        DeletedRowView {
            project_id: self.project_id@,
            name: self.name@,
            qualified_name: self.qualified_name@,
            node_type: self.node_type@,
            file_path: self.file_path@,
        }
    }
}

/// A name, unless it is empty.
pub open spec fn named() -> spec_fn(StoredSymbol) -> Option<Seq<char>> {
    |s: StoredSymbol|
        if s.name.len() > 0 {
            Some(s.name)
        } else {
            None
        }
}

/// The definitions among a file's stored symbols whose qualified names are
/// not kept.
pub open spec fn gone(
    project: Seq<char>,
    file: Seq<char>,
    symbols: Seq<StoredSymbol>,
    kept: Seq<Seq<char>>,
) -> Seq<DeletedRowView> {
    gather(
        symbols,
        |s: StoredSymbol|
            if s.node_type != "import"@ && s.name.len() > 0 && !kept.contains(s.qualified_name) {
                Some(
                    DeletedRowView {
                        project_id: project,
                        name: s.name,
                        qualified_name: s.qualified_name,
                        node_type: s.node_type,
                        file_path: file,
                    },
                )
            } else {
                None
            },
    )
}

/// The keys of the definitions that a file holds now.
pub open spec fn live(file: Seq<char>, nodes: Seq<CodeView>) -> Seq<(Seq<char>, Seq<char>)> {
    gather(
        nodes,
        |n: CodeView|
            if n.node_type != "import"@ {
                Some((n.qualified_name, file))
            } else {
                None
            },
    )
}

/// The members of one list that are not in another.
pub open spec fn without(s: Seq<Seq<char>>, t: Seq<Seq<char>>) -> Seq<Seq<char>> {
    gather(
        s,
        |x: Seq<char>|
            if t.contains(x) {
                None
            } else {
                Some(x)
            },
    )
}

pub open spec fn names_of(nodes: Seq<CodeView>) -> Seq<Seq<char>> {
    nodes.map_values(|n: CodeView| n.name)
}

pub open spec fn qualified_names_of(nodes: Seq<CodeView>) -> Seq<Seq<char>> {
    nodes.map_values(|n: CodeView| n.qualified_name)
}

/// The ids of a file's stored symbols, all of them: the edges from each are
/// deleted with the file's nodes, so that none is left without its source.
pub fn node_ids(symbols: &Vec<FileSymbol>) -> (r: Vec<String>)
    ensures
        r.deep_view() == symbols.deep_view().map_values(|s: StoredSymbol| s.node_id),
{
    let ghost want = symbols.deep_view().map_values(|s: StoredSymbol| s.node_id);
    let mut out: Vec<String> = Vec::new();
    let mut i: usize = 0;
    assert(out.deep_view() =~= want.take(0));
    while i < symbols.len()
        invariant
            i <= symbols@.len(),
            want == symbols.deep_view().map_values(|s: StoredSymbol| s.node_id),
            out.deep_view() == want.take(i as int),
        decreases symbols.len() - i,
    {
        proof {
            assert(want.len() == symbols@.len());
            lemma_take_next(want, i as int);
            assert(symbols.deep_view()[i as int] == symbols@[i as int].deep_view());
        }
        put(&mut out, symbols[i].node_id.as_str().to_owned());
        i = i + 1;
    }
    assert(want.take(i as int) =~= want);
    out
}

fn stored_names(symbols: &Vec<FileSymbol>) -> (r: Vec<String>)
    ensures
        r.deep_view() == gather(symbols.deep_view(), named()),
{
    let ghost all = symbols.deep_view();
    let mut out: Vec<String> = Vec::new();
    let mut i: usize = 0;
    assert(out.deep_view() =~= gather(all.take(0), named()));
    while i < symbols.len()
        invariant
            i <= symbols@.len(),
            all == symbols.deep_view(),
            out.deep_view() == gather(all.take(i as int), named()),
        decreases symbols.len() - i,
    {
        proof {
            assert(all.len() == symbols@.len());
            lemma_take_next(all, i as int);
            assert(all[i as int] == symbols@[i as int].deep_view());
        }
        if !symbols[i].name.as_str().is_empty() {
            put(&mut out, symbols[i].name.as_str().to_owned());
        }
        i = i + 1;
    }
    assert(all.take(i as int) =~= all);
    out
}

fn gone_symbols(project_id: &str, file_path: &str, symbols: &Vec<FileSymbol>, kept: &Vec<String>) -> (r: Vec<
    DeletedSymbolRow,
>)
    ensures
        r.deep_view() == gone(project_id@, file_path@, symbols.deep_view(), kept.deep_view()),
{
    let ghost all = symbols.deep_view();
    let ghost f = |s: StoredSymbol|
        if s.node_type != "import"@ && s.name.len() > 0 && !kept.deep_view().contains(s.qualified_name) {
            Some(
                DeletedRowView {
                    project_id: project_id@,
                    name: s.name,
                    qualified_name: s.qualified_name,
                    node_type: s.node_type,
                    file_path: file_path@,
                },
            )
        } else {
            None
        };
    let mut out: Vec<DeletedSymbolRow> = Vec::new();
    let mut i: usize = 0;
    assert(out.deep_view() =~= gather(all.take(0), f));
    while i < symbols.len()
        invariant
            i <= symbols@.len(),
            all == symbols.deep_view(),
            f == (|s: StoredSymbol|
                if s.node_type != "import"@ && s.name.len() > 0 && !kept.deep_view().contains(s.qualified_name) {
                    Some(
                        DeletedRowView {
                            project_id: project_id@,
                            name: s.name,
                            qualified_name: s.qualified_name,
                            node_type: s.node_type,
                            file_path: file_path@,
                        },
                    )
                } else {
                    None
                }),
            out.deep_view() == gather(all.take(i as int), f),
        decreases symbols.len() - i,
    {
        let s = &symbols[i];
        proof {
            assert(all.len() == symbols@.len());
            lemma_take_next(all, i as int);
            assert(all[i as int] == s.deep_view());
        }
        if !same_text(s.node_type.as_str(), "import") && !s.name.as_str().is_empty() && !has_text(
            kept,
            s.qualified_name.as_str(),
        ) {
            let row = DeletedSymbolRow {
                project_id: project_id.to_owned(),
                name: s.name.as_str().to_owned(),
                qualified_name: s.qualified_name.as_str().to_owned(),
                node_type: s.node_type.as_str().to_owned(),
                file_path: file_path.to_owned(),
            };
            put(&mut out, row);
        }
        i = i + 1;
    }
    assert(all.take(i as int) =~= all);
    out
}

fn live_symbols(file_path: &str, nodes: &Vec<CodeNode>) -> (r: Vec<(String, String)>)
    ensures
        r.deep_view() == live(file_path@, nodes.deep_view()),
{
    let ghost all = nodes.deep_view();
    let ghost f = |n: CodeView|
        if n.node_type != "import"@ {
            Some((n.qualified_name, file_path@))
        } else {
            None
        };
    let mut out: Vec<(String, String)> = Vec::new();
    let mut i: usize = 0;
    assert(out.deep_view() =~= gather(all.take(0), f));
    while i < nodes.len()
        invariant
            i <= nodes@.len(),
            all == nodes.deep_view(),
            f == (|n: CodeView|
                if n.node_type != "import"@ {
                    Some((n.qualified_name, file_path@))
                } else {
                    None
                }),
            out.deep_view() == gather(all.take(i as int), f),
        decreases nodes.len() - i,
    {
        proof {
            assert(all.len() == nodes@.len());
            lemma_take_next(all, i as int);
            assert(all[i as int] == nodes@[i as int].deep_view());
        }
        if !same_text(nodes[i].node_type.as_str(), "import") {
            let key = (nodes[i].qualified_name.as_str().to_owned(), file_path.to_owned());
            assert(key.deep_view() == (all[i as int].qualified_name, file_path@));
            put(&mut out, key);
        }
        i = i + 1;
    }
    assert(all.take(i as int) =~= all);
    out
}

fn lost(s: &Vec<String>, t: &Vec<String>) -> (r: Vec<String>)
    ensures
        r.deep_view() == without(s.deep_view(), t.deep_view()),
{
    let ghost all = s.deep_view();
    let ghost f = |x: Seq<char>|
        if t.deep_view().contains(x) {
            None
        } else {
            Some(x)
        };
    let mut out: Vec<String> = Vec::new();
    let mut i: usize = 0;
    assert(out.deep_view() =~= gather(all.take(0), f));
    while i < s.len()
        invariant
            i <= s@.len(),
            all == s.deep_view(),
            f == (|x: Seq<char>|
                if t.deep_view().contains(x) {
                    None
                } else {
                    Some(x)
                }),
            out.deep_view() == gather(all.take(i as int), f),
        decreases s.len() - i,
    {
        proof {
            assert(all.len() == s@.len());
            lemma_take_next(all, i as int);
            assert(all[i as int] == s@[i as int]@);
        }
        if !has_text(t, s[i].as_str()) {
            put(&mut out, s[i].as_str().to_owned());
        }
        i = i + 1;
    }
    assert(all.take(i as int) =~= all);
    out
}

fn node_names(nodes: &Vec<CodeNode>) -> (r: Vec<String>)
    ensures
        r.deep_view() == names_of(nodes.deep_view()),
{
    let ghost want = names_of(nodes.deep_view());
    let mut out: Vec<String> = Vec::new();
    let mut i: usize = 0;
    assert(out.deep_view() =~= want.take(0));
    while i < nodes.len()
        invariant
            i <= nodes@.len(),
            want == names_of(nodes.deep_view()),
            out.deep_view() == want.take(i as int),
        decreases nodes.len() - i,
    {
        proof {
            assert(want.len() == nodes@.len());
            lemma_take_next(want, i as int);
            assert(nodes.deep_view()[i as int] == nodes@[i as int].deep_view());
        }
        put(&mut out, nodes[i].name.as_str().to_owned());
        i = i + 1;
    }
    assert(want.take(i as int) =~= want);
    out
}

fn node_qualified_names(nodes: &Vec<CodeNode>) -> (r: Vec<String>)
    ensures
        r.deep_view() == qualified_names_of(nodes.deep_view()),
{
    let ghost want = qualified_names_of(nodes.deep_view());
    let mut out: Vec<String> = Vec::new();
    let mut i: usize = 0;
    assert(out.deep_view() =~= want.take(0));
    while i < nodes.len()
        invariant
            i <= nodes@.len(),
            want == qualified_names_of(nodes.deep_view()),
            out.deep_view() == want.take(i as int),
        decreases nodes.len() - i,
    {
        proof {
            assert(want.len() == nodes@.len());
            lemma_take_next(want, i as int);
            assert(nodes.deep_view()[i as int] == nodes@[i as int].deep_view());
        }
        put(&mut out, nodes[i].qualified_name.as_str().to_owned());
        i = i + 1;
    }
    assert(want.take(i as int) =~= want);
    out
}

// ---- the run -------------------------------------------------------------------------------------

/// What a run has done so far.
#[derive(Debug)]
pub struct IndexRun {
    pub project_id: String,
    pub force: bool,
    pub files_indexed: usize,
    pub files_skipped: usize,
    pub nodes_created: usize,
    pub edges_created: usize,
    pub errors: Vec<String>,
    pub changed_files: Vec<String>,
    pub delta_names: Vec<String>,
    pub deletions: Vec<DeletedSymbolRow>,
    pub live_keys: Vec<(String, String)>,
}

#[verifier::ext_equal]
pub struct RunView {
    pub project: Seq<char>,
    pub force: bool,
    pub files_indexed: nat,
    pub files_skipped: nat,
    pub nodes_created: nat,
    pub edges_created: nat,
    pub errors: Seq<Seq<char>>,
    pub changed_files: Seq<Seq<char>>,
    pub delta_names: Seq<Seq<char>>,
    pub deletions: Seq<DeletedRowView>,
    pub live_keys: Seq<(Seq<char>, Seq<char>)>,
}

impl DeepView for IndexRun {
    type V = RunView;

    open spec fn deep_view(&self) -> RunView {
        RunView {
            project: self.project_id@,
            force: self.force,
            files_indexed: self.files_indexed as nat,
            files_skipped: self.files_skipped as nat,
            nodes_created: self.nodes_created as nat,
            edges_created: self.edges_created as nat,
            errors: self.errors.deep_view(),
            changed_files: self.changed_files.deep_view(),
            delta_names: self.delta_names.deep_view(),
            deletions: self.deletions.deep_view(),
            live_keys: self.live_keys.deep_view(),
        }
    }
}

impl RunView {
    /// After a file is found gone: its names change, and its definitions have
    /// disappeared.
    pub open spec fn after_deletion(self, file: Seq<char>, old_symbols: Seq<StoredSymbol>) -> RunView {
        RunView {
            changed_files: self.changed_files.push(file),
            delta_names: self.delta_names + gather(old_symbols, named()),
            deletions: self.deletions + gone(self.project, file, old_symbols, Seq::empty()),
            ..self
        }
    }

    /// After a file is stored: the names that it lost or gained change; its
    /// definitions whose qualified names are gone have disappeared, and those
    /// it holds are live. A forced run keeps no account of the last two.
    pub open spec fn after_store(
        self,
        file: Seq<char>,
        old_symbols: Seq<StoredSymbol>,
        parsed: ParsedView,
    ) -> RunView {
        let old_names = gather(old_symbols, named());
        let new_names = names_of(parsed.nodes);
        RunView {
            files_indexed: self.files_indexed + 1,
            nodes_created: self.nodes_created + parsed.nodes.len(),
            edges_created: self.edges_created + parsed.edges.len(),
            changed_files: self.changed_files.push(file),
            delta_names: self.delta_names + without(old_names, new_names) + without(new_names, old_names),
            deletions: if self.force {
                self.deletions
            } else {
                self.deletions + gone(self.project, file, old_symbols, qualified_names_of(parsed.nodes))
            },
            live_keys: if self.force {
                self.live_keys
            } else {
                self.live_keys + live(file, parsed.nodes)
            },
            ..self
        }
    }

    /// After a file fails: it is skipped, and the error is kept.
    pub open spec fn after_failure(self, error: Seq<char>) -> RunView {
        RunView { files_skipped: self.files_skipped + 1, errors: self.errors.push(error), ..self }
    }
}

/// What is written back of the definitions that disappeared.
#[derive(Debug)]
pub enum WriteBack {
    /// A forced run starts over: everything recorded before is wiped.
    Wipe,
    /// What is live again is taken out of the record, then what disappeared
    /// is put in.
    Update { heal: Vec<(String, String)>, record: Vec<DeletedSymbolRow> },
}

fn extend<T: DeepView>(v: &mut Vec<T>, more: Vec<T>)
    ensures
        final(v).deep_view() == old(v).deep_view() + more.deep_view(),
{
    let ghost before = v.deep_view();
    let mut more = more;
    let ghost added = more.deep_view();
    v.append(&mut more);
    assert(v.deep_view() =~= before + added);
}

impl IndexRun {
    /// A run before its first file.
    pub fn new(project_id: &str, force: bool) -> (r: Self)
        ensures
            r.deep_view() == (RunView {
                project: project_id@,
                force,
                files_indexed: 0,
                files_skipped: 0,
                nodes_created: 0,
                edges_created: 0,
                errors: Seq::empty(),
                changed_files: Seq::empty(),
                delta_names: Seq::empty(),
                deletions: Seq::empty(),
                live_keys: Seq::empty(),
            }),
    {
        let r = IndexRun {
            project_id: project_id.to_owned(),
            force,
            files_indexed: 0,
            files_skipped: 0,
            nodes_created: 0,
            edges_created: 0,
            errors: Vec::new(),
            changed_files: Vec::new(),
            delta_names: Vec::new(),
            deletions: Vec::new(),
            live_keys: Vec::new(),
        };
        proof {
            assert(r.errors.deep_view() =~= Seq::empty());
            assert(r.changed_files.deep_view() =~= Seq::empty());
            assert(r.delta_names.deep_view() =~= Seq::empty());
            assert(r.deletions.deep_view() =~= Seq::empty());
            assert(r.live_keys.deep_view() =~= Seq::empty());
        }
        r
    }

    /// Takes note of a file that is gone.
    pub fn file_deleted(&mut self, file: &str, old_symbols: &Vec<FileSymbol>)
        ensures
            final(self).deep_view() == old(self).deep_view().after_deletion(file@, old_symbols.deep_view()),
    {
        let kept: Vec<String> = Vec::new();
        assert(kept.deep_view() =~= Seq::<Seq<char>>::empty());
        put(&mut self.changed_files, file.to_owned());
        extend(&mut self.delta_names, stored_names(old_symbols));
        let rows = gone_symbols(self.project_id.as_str(), file, old_symbols, &kept);
        extend(&mut self.deletions, rows);
    }

    /// Takes note of a file that was parsed and stored.
    pub fn file_stored(&mut self, file: &str, old_symbols: &Vec<FileSymbol>, parsed: &ParsedFile)
        requires
            old(self).files_indexed < usize::MAX,
            old(self).nodes_created + parsed.nodes.len() <= usize::MAX,
            old(self).edges_created + parsed.edges.len() <= usize::MAX,
        ensures
            final(self).deep_view() == old(self).deep_view().after_store(
                file@,
                old_symbols.deep_view(),
                parsed.deep_view(),
            ),
    {
        self.files_indexed = self.files_indexed + 1;
        self.nodes_created = self.nodes_created + parsed.nodes.len();
        self.edges_created = self.edges_created + parsed.edges.len();
        put(&mut self.changed_files, file.to_owned());
        let old_names = stored_names(old_symbols);
        let new_names = node_names(&parsed.nodes);
        extend(&mut self.delta_names, lost(&old_names, &new_names));
        extend(&mut self.delta_names, lost(&new_names, &old_names));
        if !self.force {
            let kept = node_qualified_names(&parsed.nodes);
            let rows = gone_symbols(self.project_id.as_str(), file, old_symbols, &kept);
            extend(&mut self.deletions, rows);
            extend(&mut self.live_keys, live_symbols(file, &parsed.nodes));
        }
        proof {
            assert(parsed.deep_view().nodes.len() == parsed.nodes@.len());
            assert(parsed.deep_view().edges.len() == parsed.edges@.len());
        }
    }

    /// Takes note of a file that could not be stored.
    pub fn store_failed(&mut self, file: &str, error: &str)
        requires
            old(self).files_skipped < usize::MAX,
        ensures
            final(self).deep_view() == old(self).deep_view().after_failure(
                file@ + ": store failed: "@ + error@,
            ),
    {
        let mut message = file.to_owned();
        message.append(": store failed: ");
        message.append(error);
        put(&mut self.errors, message);
        self.files_skipped = self.files_skipped + 1;
    }

    /// Takes note of a file that could not be parsed.
    pub fn parse_failed(&mut self, file: &str, error: &str)
        requires
            old(self).files_skipped < usize::MAX,
        ensures
            final(self).deep_view() == old(self).deep_view().after_failure(
                file@ + ": parse failed: "@ + error@,
            ),
    {
        let mut message = file.to_owned();
        message.append(": parse failed: ");
        message.append(error);
        put(&mut self.errors, message);
        self.files_skipped = self.files_skipped + 1;
    }

    /// The files that changed, each once.
    pub fn changed(&self) -> (r: Vec<String>)
        ensures
            is_distinct_sorted::<String>(self.deep_view().changed_files, r.deep_view()),
    {
        sort_distinct(crate::text::copy_texts(&self.changed_files))
    }

    /// The names that some file lost or gained, each once.
    pub fn delta(&self) -> (r: Vec<String>)
        ensures
            is_distinct_sorted::<String>(self.deep_view().delta_names, r.deep_view()),
    {
        sort_distinct(crate::text::copy_texts(&self.delta_names))
    }

    /// What is written back of the definitions that disappeared.
    pub fn write_back(self) -> (r: WriteBack)
        ensures
            match r {
                WriteBack::Wipe => self.force,
                WriteBack::Update { heal, record } => !self.force && heal.deep_view() == self.deep_view().live_keys
                    && record.deep_view() == self.deep_view().deletions,
            },
    {
        if self.force {
            WriteBack::Wipe
        } else {
            WriteBack::Update { heal: self.live_keys, record: self.deletions }
        }
    }
}

/// What a file records as gone is not among what it heals: the two cannot
/// undo each other.
pub proof fn nothing_recorded_is_healed(
    project: Seq<char>,
    file: Seq<char>,
    symbols: Seq<StoredSymbol>,
    nodes: Seq<CodeView>,
    i: int,
)
    requires
        0 <= i < gone(project, file, symbols, qualified_names_of(nodes)).len(),
    ensures
        !live(file, nodes).contains(
            (
                gone(project, file, symbols, qualified_names_of(nodes))[i].qualified_name,
                gone(project, file, symbols, qualified_names_of(nodes))[i].file_path,
            ),
        ),
{
    let kept = qualified_names_of(nodes);
    let rows = gone(project, file, symbols, kept);
    let f = |s: StoredSymbol|
        if s.node_type != "import"@ && s.name.len() > 0 && !kept.contains(s.qualified_name) {
            Some(
                DeletedRowView {
                    project_id: project,
                    name: s.name,
                    qualified_name: s.qualified_name,
                    node_type: s.node_type,
                    file_path: file,
                },
            )
        } else {
            None
        };
    let g = |n: CodeView|
        if n.node_type != "import"@ {
            Some((n.qualified_name, file))
        } else {
            None
        };
    crate::gather::lemma_gather_member(symbols, f, rows[i]);
    assert(rows.contains(rows[i]));
    let key = (rows[i].qualified_name, rows[i].file_path);
    crate::gather::lemma_gather_member(nodes, g, key);
    if live(file, nodes).contains(key) {
        let k = choose|k: int| 0 <= k < nodes.len() && g(#[trigger] nodes[k]) == Some(key);
        assert(kept[k] == nodes[k].qualified_name);
        assert(kept.contains(rows[i].qualified_name));
    }
}

// ---- rows to be stored ---------------------------------------------------------------------------

/// A node as it is stored.
#[derive(Clone, Debug)]
pub struct NodeRow {
    pub node_id: String,
    pub project_id: String,
    pub name: String,
    pub node_type: String,
    pub language: String,
    pub file_path: String,
    pub start_line: Option<i64>,
    pub end_line: Option<i64>,
    pub content: Option<String>,
    pub metadata: Metadata,
    pub qualified_name: String,
}

pub struct NodeRowView {
    pub project_id: Seq<char>,
    pub file_path: Seq<char>,
    pub node: CodeView,
}

impl DeepView for NodeRow {
    type V = NodeRowView;

    open spec fn deep_view(&self) -> NodeRowView {
        NodeRowView {
            project_id: self.project_id@,
            file_path: self.file_path@,
            node: CodeView {
                id: self.node_id@,
                name: self.name@,
                node_type: self.node_type@,
                language: self.language@,
                start_line: self.start_line,
                end_line: self.end_line,
                content: self.content.deep_view(),
                metadata: self.metadata.deep_view(),
                qualified_name: self.qualified_name@,
            },
        }
    }
}

/// An edge as it is stored, but for its weight.
#[derive(Clone, Debug)]
pub struct EdgeRow {
    pub from_id: String,
    pub to_id: String,
    pub to_name: Option<String>,
    pub to_type: Option<String>,
    pub edge_type: String,
    pub confidence: String,
    pub project_id: String,
}

pub struct EdgeRowView {
    pub project_id: Seq<char>,
    pub edge: CodeEdgeView,
}

impl DeepView for EdgeRow {
    type V = EdgeRowView;

    open spec fn deep_view(&self) -> EdgeRowView {
        EdgeRowView {
            project_id: self.project_id@,
            edge: CodeEdgeView {
                from_id: self.from_id@,
                to_id: self.to_id@,
                to_name: self.to_name.deep_view(),
                to_type: self.to_type.deep_view(),
                edge_type: self.edge_type@,
                confidence: self.confidence@,
            },
        }
    }
}

/// What is stored for a file.
#[derive(Debug)]
pub struct FileRows {
    pub nodes: Vec<NodeRow>,
    pub edges: Vec<EdgeRow>,
    pub language: String,
    pub node_count: usize,
    pub edge_count: usize,
}

/// What is stored for a parsed file: a row for each of its nodes and edges.
pub fn store_rows(project_id: &str, file_path: &str, parsed: ParsedFile) -> (r: FileRows)
    ensures
        r.nodes.deep_view() == parsed.deep_view().nodes.map_values(
            |n: CodeView| NodeRowView { project_id: project_id@, file_path: file_path@, node: n },
        ),
        r.edges.deep_view() == parsed.deep_view().edges.map_values(
            |e: CodeEdgeView| EdgeRowView { project_id: project_id@, edge: e },
        ),
        r.language@ == parsed.language@,
        r.node_count == parsed.deep_view().nodes.len(),
        r.edge_count == parsed.deep_view().edges.len(),
{
    let ParsedFile { language, nodes, edges } = parsed;
    let node_count = nodes.len();
    let edge_count = edges.len();
    let node_rows = rows_of_nodes(project_id, file_path, nodes);
    let edge_rows = rows_of_edges(project_id, edges);
    FileRows { nodes: node_rows, edges: edge_rows, language, node_count, edge_count }
}

fn rows_of_nodes(project_id: &str, file_path: &str, nodes: Vec<CodeNode>) -> (r: Vec<NodeRow>)
    ensures
        r.deep_view() == nodes.deep_view().map_values(
            |n: CodeView| NodeRowView { project_id: project_id@, file_path: file_path@, node: n },
        ),
{
    let ghost want = nodes.deep_view().map_values(
        |n: CodeView| NodeRowView { project_id: project_id@, file_path: file_path@, node: n },
    );
    let ghost given = nodes@;
    let n = nodes.len();
    let mut rest = nodes;
    let mut out: Vec<NodeRow> = Vec::new();
    let mut i: usize = n;
    while i > 0
        invariant
            i <= n == given.len() == want.len(),
            rest@ == given.take(i as int),
            out@.len() == n - i,
            forall|k: int| 0 <= k < n ==> #[trigger] want[k] == (NodeRowView {
                project_id: project_id@,
                file_path: file_path@,
                node: given[k].deep_view(),
            }),
            forall|k: int| 0 <= k < out@.len() ==> (#[trigger] out@[k]).deep_view() == want[n - 1 - k],
        decreases i,
    {
        match rest.pop() {
            Some(node) => {
                proof {
                    lemma_take_next(given, i - 1);
                    assert(want[i - 1] == (NodeRowView {
                        project_id: project_id@,
                        file_path: file_path@,
                        node: given[i - 1].deep_view(),
                    }));
                }
                let CodeNode {
                    id,
                    name,
                    node_type,
                    language,
                    start_line,
                    end_line,
                    content,
                    metadata,
                    qualified_name,
                } = node;
                out.push(
                    NodeRow {
                        node_id: id,
                        project_id: project_id.to_owned(),
                        name,
                        node_type,
                        language,
                        file_path: file_path.to_owned(),
                        start_line,
                        end_line,
                        content,
                        metadata,
                        qualified_name,
                    },
                );
            },
            None => {},
        }
        i = i - 1;
    }
    let r = reversed(out);
    assert(r.deep_view() =~= want);
    r
}

fn rows_of_edges(project_id: &str, edges: Vec<CodeEdge>) -> (r: Vec<EdgeRow>)
    ensures
        r.deep_view() == edges.deep_view().map_values(
            |e: CodeEdgeView| EdgeRowView { project_id: project_id@, edge: e },
        ),
{
    let ghost want = edges.deep_view().map_values(
        |e: CodeEdgeView| EdgeRowView { project_id: project_id@, edge: e },
    );
    let ghost given = edges@;
    let n = edges.len();
    let mut rest = edges;
    let mut out: Vec<EdgeRow> = Vec::new();
    let mut i: usize = n;
    while i > 0
        invariant
            i <= n == given.len() == want.len(),
            rest@ == given.take(i as int),
            out@.len() == n - i,
            forall|k: int| 0 <= k < n ==> #[trigger] want[k] == (EdgeRowView {
                project_id: project_id@,
                edge: given[k].deep_view(),
            }),
            forall|k: int| 0 <= k < out@.len() ==> (#[trigger] out@[k]).deep_view() == want[n - 1 - k],
        decreases i,
    {
        match rest.pop() {
            Some(edge) => {
                proof {
                    lemma_take_next(given, i - 1);
                    assert(want[i - 1] == (EdgeRowView {
                        project_id: project_id@,
                        edge: given[i - 1].deep_view(),
                    }));
                }
                let CodeEdge { from_id, to_id, to_name, to_type, edge_type, confidence } = edge;
                out.push(
                    EdgeRow {
                        from_id,
                        to_id,
                        to_name,
                        to_type,
                        edge_type,
                        confidence,
                        project_id: project_id.to_owned(),
                    },
                );
            },
            None => {},
        }
        i = i - 1;
    }
    let r = reversed(out);
    assert(r.deep_view() =~= want);
    r
}

fn reversed<T>(v: Vec<T>) -> (r: Vec<T>)
    ensures
        r@.len() == v@.len(),
        forall|k: int| 0 <= k < v@.len() ==> #[trigger] r@[k] == v@[v@.len() - 1 - k],
{
    let ghost given = v@;
    let n = v.len();
    let mut rest = v;
    let mut out: Vec<T> = Vec::new();
    let mut i: usize = n;
    while i > 0
        invariant
            i <= n == given.len(),
            rest@ == given.take(i as int),
            out@.len() == n - i,
            forall|k: int| 0 <= k < out@.len() ==> #[trigger] out@[k] == given[n - 1 - k],
        decreases i,
    {
        match rest.pop() {
            Some(x) => {
                proof {
                    lemma_take_next(given, i - 1);
                }
                out.push(x);
            },
            None => {},
        }
        i = i - 1;
    }
    out
}

/// A project as the registry holds it.
#[derive(Clone, Debug)]
pub struct RegistryRow {
    pub project_id: String,
    pub name: String,
    pub root_path: String,
    pub node_count: usize,
    pub edge_count: usize,
    pub file_count: usize,
}

/// The name of a directory: the last component of its path; nothing where
/// that is no name.
pub open spec fn directory_name(path: Seq<char>) -> Seq<char> {
    let parts = components(path);
    if parts.len() == 0 || parts.last() == "."@ || parts.last() == ".."@ {
        Seq::empty()
    } else {
        parts.last()
    }
}

/// The name of a directory.
pub fn directory_name_of(path: &str) -> (r: String)
    ensures
        r@ == directory_name(path@),
{
    let parts = split_components(path);
    let n = parts.len();
    proof {
        if n > 0 {
            assert(parts.deep_view().last() == parts@[n - 1]@);
        }
    }
    if n == 0 || same_text(parts[n - 1].as_str(), ".") || same_text(parts[n - 1].as_str(), "..") {
        let none = String::new();
        assert(none@ =~= Seq::empty());
        none
    } else {
        parts[n - 1].as_str().to_owned()
    }
}

/// What the registry holds of a project after a run.
pub fn registry_row(config: &IndexConfig, run: &IndexRun, files_scanned: usize) -> (r: RegistryRow)
    ensures
        r.project_id@ == config.project_id@,
        r.name@ == directory_name(config.root_path@),
        r.root_path@ == config.root_path@,
        r.node_count == run.nodes_created,
        r.edge_count == run.edges_created,
        r.file_count == files_scanned,
{
    RegistryRow {
        project_id: config.project_id.as_str().to_owned(),
        name: directory_name_of(config.root_path.as_str()),
        root_path: config.root_path.as_str().to_owned(),
        node_count: run.nodes_created,
        edge_count: run.edges_created,
        file_count: files_scanned,
    }
}

} // verus!
