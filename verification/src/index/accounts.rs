//! What a run keeps account of.

use vstd::prelude::*;

use crate::gather::{gather, lemma_gather_member};
use crate::index::incremental::ChangeView;
use crate::index::parser::{CodeView, ParsedView};
use crate::index::run::{
    deleted_path, gone, indexed_path, live, named, names_of, qualified_names_of, unchanged_path, without, DeletedRowView,
    RunView, StoredSymbol,
};

verus! {

// ---- the plan -------------------------------------------------------------------------------

/// What is indexed is what is new or modified, and what is deleted is what is no
/// longer there.
pub proof fn a_plan_indexes_what_is_new_or_modified(changes: Seq<ChangeView>, path: Seq<char>)
    ensures
        gather(changes, indexed_path()).contains(path) <==> changes.contains(ChangeView::Added(path)) || changes.contains(
            ChangeView::Modified(path),
        ),
        gather(changes, deleted_path()).contains(path) <==> changes.contains(ChangeView::Deleted(path)),
        gather(changes, unchanged_path()).contains(path) <==> changes.contains(ChangeView::Unchanged(path)),
{
    lemma_gather_member(changes, indexed_path(), path);
    lemma_gather_member(changes, deleted_path(), path);
    lemma_gather_member(changes, unchanged_path(), path);
    assert forall|c: ChangeView, f: spec_fn(ChangeView) -> Option<Seq<char>>| changes.contains(c) && #[trigger] f(c)
        == Some(path) implies exists|i: int| 0 <= i < changes.len() && f(#[trigger] changes[i]) == Some(path) by {
        let i = choose|i: int| 0 <= i < changes.len() && changes[i] == c;
        assert(f(changes[i]) == Some(path));
    }
    assert(indexed_path()(ChangeView::Added(path)) == Some(path));
    assert(indexed_path()(ChangeView::Modified(path)) == Some(path));
    assert(deleted_path()(ChangeView::Deleted(path)) == Some(path));
    assert(unchanged_path()(ChangeView::Unchanged(path)) == Some(path));
}

// ---- what disappeared -----------------------------------------------------------------------

/// A stored definition with a name: an import is none.
pub open spec fn is_lost(symbols: Seq<StoredSymbol>, r: DeletedRowView, i: int) -> bool {
    &&& 0 <= i < symbols.len()
    &&& symbols[i].node_type != "import"@
    &&& symbols[i].name.len() > 0
    &&& r.name == symbols[i].name
    &&& r.qualified_name == symbols[i].qualified_name
    &&& r.node_type == symbols[i].node_type
}

proof fn lemma_gone(
    project: Seq<char>,
    file: Seq<char>,
    symbols: Seq<StoredSymbol>,
    kept: Seq<Seq<char>>,
    r: DeletedRowView,
)
    ensures
        gone(project, file, symbols, kept).contains(r) <==> {
            &&& r.project_id == project
            &&& r.file_path == file
            &&& !kept.contains(r.qualified_name)
            &&& exists|i: int| #[trigger] is_lost(symbols, r, i)
        },
{
    let f = |s: StoredSymbol|
        if s.node_type != "import"@ && s.name.len() > 0 && !kept.contains(s.qualified_name) {
            Some(
                DeletedRowView {
                    project_id: project,
                    name: s.name,
                    qualified_name: s.qualified_name,
                    node_type: s.node_type,
                    file_path: file,
                },
            )
        } else {
            None
        };
    lemma_gather_member(symbols, f, r);
    if gone(project, file, symbols, kept).contains(r) {
        let i = choose|i: int| 0 <= i < symbols.len() && f(#[trigger] symbols[i]) == Some(r);
        assert(is_lost(symbols, r, i));
    }
    if r.project_id == project && r.file_path == file && !kept.contains(r.qualified_name) && exists|i: int| #[trigger]
        is_lost(symbols, r, i) {
        let i = choose|i: int| #[trigger] is_lost(symbols, r, i);
        assert(f(symbols[i]) == Some(r));
    }
}

/// When a file is gone, every definition that was stored for it has disappeared,
/// and every name among its symbols changes; nothing else does.
pub proof fn a_deleted_file_loses_all_its_definitions(
    run: RunView,
    file: Seq<char>,
    symbols: Seq<StoredSymbol>,
    r: DeletedRowView,
    name: Seq<char>,
)
    ensures
        ({
            let after = run.after_deletion(file, symbols);
            &&& after.deletions.contains(r) <==> run.deletions.contains(r) || (r.project_id == run.project && r.file_path
                == file && exists|i: int| #[trigger] is_lost(symbols, r, i))
            &&& after.delta_names.contains(name) <==> run.delta_names.contains(name) || (name.len() > 0
                && exists|i: int| #[trigger] is_called(symbols, name, i))
            &&& after.changed_files == run.changed_files.push(file)
            &&& after.live_keys == run.live_keys
            &&& after.files_indexed == run.files_indexed
            &&& after.files_skipped == run.files_skipped
            &&& after.errors == run.errors
        }),
{
    let after = run.after_deletion(file, symbols);
    lemma_gone(run.project, file, symbols, Seq::empty(), r);
    lemma_both(run.deletions, gone(run.project, file, symbols, Seq::empty()), r);
    lemma_named(symbols, name);
    lemma_both(run.delta_names, gather(symbols, named()), name);
}

/// A stored symbol of that name.
pub open spec fn is_called(symbols: Seq<StoredSymbol>, name: Seq<char>, i: int) -> bool {
    0 <= i < symbols.len() && symbols[i].name == name
}

/// A node of that name.
pub open spec fn is_node(nodes: Seq<CodeView>, name: Seq<char>, i: int) -> bool {
    0 <= i < nodes.len() && nodes[i].name == name
}

proof fn lemma_named(symbols: Seq<StoredSymbol>, name: Seq<char>)
    ensures
        gather(symbols, named()).contains(name) <==> name.len() > 0 && exists|i: int| #[trigger]
            is_called(symbols, name, i),
{
    lemma_gather_member(symbols, named(), name);
    if gather(symbols, named()).contains(name) {
        let i = choose|i: int| 0 <= i < symbols.len() && named()(#[trigger] symbols[i]) == Some(name);
        assert(is_called(symbols, name, i));
    }
    if name.len() > 0 && exists|i: int| #[trigger] is_called(symbols, name, i) {
        let i = choose|i: int| #[trigger] is_called(symbols, name, i);
        assert(named()(symbols[i]) == Some(name));
    }
}

proof fn lemma_both<A>(a: Seq<A>, b: Seq<A>, x: A)
    ensures
        (a + b).contains(x) <==> a.contains(x) || b.contains(x),
{
    let s = a + b;
    if s.contains(x) {
        let k = choose|k: int| 0 <= k < s.len() && s[k] == x;
        if k < a.len() {
            assert(a[k] == x);
        } else {
            assert(b[k - a.len()] == x);
        }
    }
    if a.contains(x) {
        let k = choose|k: int| 0 <= k < a.len() && a[k] == x;
        assert(s[k] == x);
    }
    if b.contains(x) {
        let k = choose|k: int| 0 <= k < b.len() && b[k] == x;
        assert(s[a.len() + k] == x);
    }
}

proof fn lemma_without(s: Seq<Seq<char>>, t: Seq<Seq<char>>, x: Seq<char>)
    ensures
        without(s, t).contains(x) <==> s.contains(x) && !t.contains(x),
{
    let f = |y: Seq<char>|
        if t.contains(y) {
            None
        } else {
            Some(y)
        };
    lemma_gather_member(s, f, x);
    if without(s, t).contains(x) {
        let i = choose|i: int| 0 <= i < s.len() && f(#[trigger] s[i]) == Some(x);
        assert(s[i] == x);
    }
    if s.contains(x) && !t.contains(x) {
        let i = choose|i: int| 0 <= i < s.len() && s[i] == x;
        assert(f(s[i]) == Some(x));
    }
}

proof fn lemma_names(nodes: Seq<CodeView>, name: Seq<char>)
    ensures
        names_of(nodes).contains(name) <==> exists|i: int| #[trigger] is_node(nodes, name, i),
{
    let all = names_of(nodes);
    if all.contains(name) {
        let i = choose|i: int| 0 <= i < all.len() && all[i] == name;
        assert(is_node(nodes, name, i));
    }
    if exists|i: int| #[trigger] is_node(nodes, name, i) {
        let i = choose|i: int| #[trigger] is_node(nodes, name, i);
        assert(all[i] == name);
    }
}

/// A definition of that qualified name among the nodes.
pub open spec fn is_qualified(nodes: Seq<CodeView>, name: Seq<char>, i: int) -> bool {
    0 <= i < nodes.len() && nodes[i].qualified_name == name
}

proof fn lemma_qualified(nodes: Seq<CodeView>, name: Seq<char>)
    ensures
        qualified_names_of(nodes).contains(name) <==> exists|i: int| #[trigger] is_qualified(nodes, name, i),
{
    let all = qualified_names_of(nodes);
    if all.contains(name) {
        let i = choose|i: int| 0 <= i < all.len() && all[i] == name;
        assert(is_qualified(nodes, name, i));
    }
    if exists|i: int| #[trigger] is_qualified(nodes, name, i) {
        let i = choose|i: int| #[trigger] is_qualified(nodes, name, i);
        assert(all[i] == name);
    }
}

/// When a file is stored anew, the names that only one of its two states has
/// change.
pub proof fn a_stored_file_changes_the_names_of_one_state(
    run: RunView,
    file: Seq<char>,
    symbols: Seq<StoredSymbol>,
    parsed: ParsedView,
    name: Seq<char>,
)
    ensures
        ({
            let after = run.after_store(file, symbols, parsed);
            let had = name.len() > 0 && exists|i: int| #[trigger] is_called(symbols, name, i);
            let has = exists|i: int| #[trigger] is_node(parsed.nodes, name, i);
            &&& after.delta_names.contains(name) <==> run.delta_names.contains(name) || had != has
            &&& after.changed_files == run.changed_files.push(file)
            &&& after.files_indexed == run.files_indexed + 1
            &&& after.nodes_created == run.nodes_created + parsed.nodes.len()
            &&& after.edges_created == run.edges_created + parsed.edges.len()
        }),
{
    let old_names = gather(symbols, named());
    let new_names = names_of(parsed.nodes);
    lemma_named(symbols, name);
    lemma_names(parsed.nodes, name);
    lemma_without(old_names, new_names, name);
    lemma_without(new_names, old_names, name);
    lemma_both(run.delta_names, without(old_names, new_names), name);
    lemma_both(run.delta_names + without(old_names, new_names), without(new_names, old_names), name);
}

/// When a file is stored anew, a definition of it has disappeared exactly if no
/// node has its qualified name any more. A forced run keeps no account of that.
pub proof fn a_stored_file_loses_what_it_no_longer_has(
    run: RunView,
    file: Seq<char>,
    symbols: Seq<StoredSymbol>,
    parsed: ParsedView,
    r: DeletedRowView,
)
    ensures
        ({
            let after = run.after_store(file, symbols, parsed);
            after.deletions.contains(r) <==> run.deletions.contains(r) || (!run.force && r.project_id == run.project
                && r.file_path == file && (exists|i: int| #[trigger] is_lost(symbols, r, i)) && !(exists|i: int| #[trigger]
                is_qualified(parsed.nodes, r.qualified_name, i)))
        }),
{
    let kept = qualified_names_of(parsed.nodes);
    lemma_gone(run.project, file, symbols, kept, r);
    lemma_qualified(parsed.nodes, r.qualified_name);
    lemma_both(run.deletions, gone(run.project, file, symbols, kept), r);
}

/// A definition of that qualified name, which an import is not.
pub open spec fn is_alive(nodes: Seq<CodeView>, name: Seq<char>, i: int) -> bool {
    is_qualified(nodes, name, i) && nodes[i].node_type != "import"@
}

/// When a file is stored anew, what it defines is alive. A forced run keeps no
/// account of that.
pub proof fn a_stored_file_heals_what_it_defines(
    run: RunView,
    file: Seq<char>,
    symbols: Seq<StoredSymbol>,
    parsed: ParsedView,
    key: (Seq<char>, Seq<char>),
)
    ensures
        run.after_store(file, symbols, parsed).live_keys.contains(key) <==> run.live_keys.contains(key) || (!run.force
            && key.1 == file && exists|i: int| #[trigger] is_alive(parsed.nodes, key.0, i)),
{
    let nodes = parsed.nodes;
    let f = |n: CodeView|
        if n.node_type != "import"@ {
            Some((n.qualified_name, file))
        } else {
            None
        };
    lemma_gather_member(nodes, f, key);
    if live(file, nodes).contains(key) {
        let i = choose|i: int| 0 <= i < nodes.len() && f(#[trigger] nodes[i]) == Some(key);
        assert(is_alive(nodes, key.0, i));
    }
    if key.1 == file && exists|i: int| #[trigger] is_alive(nodes, key.0, i) {
        let i = choose|i: int| #[trigger] is_alive(nodes, key.0, i);
        assert(f(nodes[i]) == Some(key));
    }
    lemma_both(run.live_keys, live(file, nodes), key);
}

/// A file that fails is skipped with its error, and nothing else changes.
pub proof fn a_failed_file_is_skipped(run: RunView, error: Seq<char>)
    ensures
        ({
            let after = run.after_failure(error);
            &&& after.errors == run.errors.push(error)
            &&& after.files_skipped == run.files_skipped + 1
            &&& after.files_indexed == run.files_indexed
            &&& after.changed_files == run.changed_files
            &&& after.delta_names == run.delta_names
            &&& after.deletions == run.deletions
            &&& after.live_keys == run.live_keys
        }),
{
}

} // verus!
