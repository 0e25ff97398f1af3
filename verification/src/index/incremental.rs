//! Incremental indexing: what happened to each file since the last run, told
//! by the hashes of contents. The stored files are known by their paths below
//! the root of the project.

use vstd::prelude::*;
use crate::gather::gather;
use crate::index::node_id::{hex_encode, hex_of, sha256, sha256_of};
use crate::lookup::{lemma_take_next, put};
use crate::text::{begins_with, chars_of, same_text, stands_at, text_between};

verus! {

/// What happened to a file since the last run.
#[derive(Clone, Debug)]
pub enum FileChange {
    Added(String),
    Modified(String),
    Unchanged(String),
    Deleted(String),
}

pub enum ChangeView {
    Added(Seq<char>),
    Modified(Seq<char>),
    Unchanged(Seq<char>),
    Deleted(Seq<char>),
}

impl DeepView for FileChange {
    type V = ChangeView;

    open spec fn deep_view(&self) -> ChangeView {
        match self {
            FileChange::Added(p) => ChangeView::Added(p@),
            FileChange::Modified(p) => ChangeView::Modified(p@),
            FileChange::Unchanged(p) => ChangeView::Unchanged(p@),
            FileChange::Deleted(p) => ChangeView::Deleted(p@),
        }
    }
}

/// A file with the hash of its content.
#[derive(Clone, Debug)]
pub struct HashedFile {
    pub path: String,
    pub hash: String,
}

pub struct HashedView {
    pub path: Seq<char>,
    pub hash: Seq<char>,
}

impl DeepView for HashedFile {
    type V = HashedView;

    open spec fn deep_view(&self) -> HashedView {
        HashedView { path: self.path@, hash: self.hash@ }
    }
}

/// The hash of a file's content, in hexadecimal digits.
pub fn hash_content(content: &[u8]) -> (r: String)
    ensures
        r@ == hex_of(sha256(content@)),
{
    let digest = sha256_of(content);
    hex_encode(digest.as_slice())
}

/// A path as it stands below a root; a path that is not below it stays.
pub open spec fn relative(root: Seq<char>, path: Seq<char>) -> Seq<char> {
    if !begins_with(path, root) {
        path
    } else if root.len() > 0 && root.last() == '/' {
        path.skip(root.len() as int)
    } else if 0 < root.len() < path.len() && path[root.len() as int] == '/' {
        path.skip(root.len() + 1int)
    } else {
        path
    }
}

/// A path as it stands below a root; a path that is not below it stays.
pub fn relative_path(root: &str, path: &str) -> (r: String)
    ensures
        r@ == relative(root@, path@),
{
    let a = chars_of(root);
    let b = chars_of(path);
    if !stands_at(&b, &a, 0) {
        path.to_owned()
    } else if a.len() > 0 && a[a.len() - 1] == '/' {
        let r = text_between(&b, a.len(), b.len());
        assert(r@ =~= path@.skip(root@.len() as int));
        r
    } else if a.len() > 0 && a.len() < b.len() && b[a.len()] == '/' {
        let r = text_between(&b, a.len() + 1, b.len());
        assert(r@ =~= path@.skip(root@.len() + 1int));
        r
    } else {
        path.to_owned()
    }
}

/// The place of the stored file that a path leads to; the length if there is
/// none.
pub open spec fn stored_place(root: Seq<char>, stored: Seq<HashedView>, path: Seq<char>) -> nat {
    path_place(stored, relative(root, path))
}

/// What happened to a file that is on disk.
pub open spec fn change_of(root: Seq<char>, stored: Seq<HashedView>, file: HashedView) -> ChangeView {
    let k = stored_place(root, stored, file.path);
    if k >= stored.len() {
        ChangeView::Added(file.path)
    } else if stored[k as int].hash == file.hash {
        ChangeView::Unchanged(file.path)
    } else {
        ChangeView::Modified(file.path)
    }
}

/// Was a stored file found for some file on disk?
pub open spec fn is_seen(root: Seq<char>, stored: Seq<HashedView>, on_disk: Seq<HashedView>, k: int) -> bool {
    exists|i: int| 0 <= i < on_disk.len() && #[trigger] stored_place(root, stored, on_disk[i].path) == k
}

/// The stored files up to place `n` that were found for no file on disk.
pub open spec fn unseen(root: Seq<char>, stored: Seq<HashedView>, on_disk: Seq<HashedView>, n: nat) -> Seq<ChangeView>
    decreases n,
{
    if n == 0 {
        Seq::empty()
    } else {
        let before = unseen(root, stored, on_disk, (n - 1) as nat);
        if is_seen(root, stored, on_disk, n - 1) {
            before
        } else {
            before.push(ChangeView::Deleted(stored[n - 1].path))
        }
    }
}

/// What happened to every file: those on disk in their order, then the
/// stored ones that are gone.
pub open spec fn changes(root: Seq<char>, stored: Seq<HashedView>, on_disk: Seq<HashedView>) -> Seq<ChangeView> {
    on_disk.map_values(|f: HashedView| change_of(root, stored, f)) + unseen(root, stored, on_disk, stored.len())
}

/// Rows of stored hashes, the later of two rows for one path in the earlier's
/// place.
pub open spec fn latest(rows: Seq<HashedView>) -> Seq<HashedView>
    decreases rows.len(),
{
    if rows.len() == 0 {
        Seq::empty()
    } else {
        with_row(latest(rows.drop_last()), rows.last())
    }
}

/// The place of the first row for a path; the length if there is none.
pub open spec fn path_place(listed: Seq<HashedView>, path: Seq<char>) -> nat
    decreases listed.len(),
{
    if listed.len() == 0 || listed[0].path == path {
        0
    } else {
        1 + path_place(listed.skip(1), path)
    }
}

/// A listing with a row put in: in the place of its path, or at the end.
pub open spec fn with_row(listed: Seq<HashedView>, row: HashedView) -> Seq<HashedView> {
    let k = path_place(listed, row.path);
    if k < listed.len() {
        listed.update(k as int, row)
    } else {
        listed.push(row)
    }
}

fn put_row(listed: &mut Vec<HashedFile>, row: HashedFile)
    ensures
        final(listed).deep_view() == with_row(old(listed).deep_view(), row.deep_view()),
{
    let ghost all = listed.deep_view();
    let i = find_stored(listed, row.path.as_str());
    if i < listed.len() {
        let ghost new = row.deep_view();
        listed.set(i, row);
        assert(listed.deep_view() =~= all.update(i as int, new));
    } else {
        put(listed, row);
    }
}

/// The stored hashes by path, from rows whose fields may be missing; a row
/// without both is passed over.
pub fn latest_hashes(rows: &Vec<(Option<String>, Option<String>)>) -> (r: Vec<HashedFile>)
    ensures
        r.deep_view() == latest(gather(rows.deep_view(), whole_row())),
{
    let ghost all = rows.deep_view();
    let mut out: Vec<HashedFile> = Vec::new();
    let mut i: usize = 0;
    assert(out.deep_view() =~= latest(gather(all.take(0), whole_row())));
    while i < rows.len()
        invariant
            i <= rows@.len(),
            all == rows.deep_view(),
            out.deep_view() == latest(gather(all.take(i as int), whole_row())),
        decreases rows.len() - i,
    {
        proof {
            assert(all.len() == rows@.len());
            lemma_take_next(all, i as int);
            assert(all[i as int] == rows@[i as int].deep_view());
        }
        match (&rows[i].0, &rows[i].1) {
            (Some(path), Some(hash)) => {
                let row = HashedFile { path: path.as_str().to_owned(), hash: hash.as_str().to_owned() };
                proof {
                    let before = gather(all.take(i as int), whole_row());
                    assert(before.push(row.deep_view()).drop_last() =~= before);
                }
                put_row(&mut out, row);
            },
            _ => {},
        }
        i = i + 1;
    }
    assert(all.take(i as int) =~= all);
    out
}

/// A row with both its fields.
pub open spec fn whole_row() -> spec_fn((Option<Seq<char>>, Option<Seq<char>>)) -> Option<HashedView> {
    |row: (Option<Seq<char>>, Option<Seq<char>>)|
        match row {
            (Some(path), Some(hash)) => Some(HashedView { path, hash }),
            _ => None,
        }
}

fn find_stored(stored: &Vec<HashedFile>, path: &str) -> (r: usize)
    ensures
        r == path_place(stored.deep_view(), path@),
        r <= stored@.len(),
{
    let ghost all = stored.deep_view();
    let mut i: usize = 0;
    assert(all.skip(0) =~= all);
    while i < stored.len() && !same_text(stored[i].path.as_str(), path)
        invariant
            i <= stored@.len(),
            all == stored.deep_view(),
            path_place(all, path@) == i + path_place(all.skip(i as int), path@),
        decreases stored.len() - i,
    {
        assert(all.skip(i as int)[0] == stored@[i as int].deep_view());
        assert(all.skip(i as int).skip(1) =~= all.skip(i + 1));
        i = i + 1;
    }
    if i < stored.len() {
        assert(all.skip(i as int)[0] == stored@[i as int].deep_view());
    }
    i
}

/// Compares the files on disk, under a root, with the stored ones.
pub fn detect_changes(root: &str, stored: &Vec<HashedFile>, on_disk: &Vec<HashedFile>) -> (r: Vec<FileChange>)
    ensures
        r.deep_view() == changes(root@, stored.deep_view(), on_disk.deep_view()),
{
    let ghost st = stored.deep_view();
    let ghost disk = on_disk.deep_view();
    let ghost want = disk.map_values(|f: HashedView| change_of(root@, st, f));
    let mut out: Vec<FileChange> = Vec::new();
    let mut seen: Vec<bool> = Vec::new();
    let mut k: usize = 0;
    while k < stored.len()
        invariant
            k <= stored@.len(),
            seen@.len() == k,
            forall|j: int| 0 <= j < k ==> !#[trigger] seen@[j],
        decreases stored.len() - k,
    {
        seen.push(false);
        k = k + 1;
    }
    let mut i: usize = 0;
    assert(out.deep_view() =~= want.take(0));
    while i < on_disk.len()
        invariant
            i <= on_disk@.len(),
            st == stored.deep_view(),
            disk == on_disk.deep_view(),
            want == disk.map_values(|f: HashedView| change_of(root@, st, f)),
            out.deep_view() == want.take(i as int),
            seen@.len() == stored@.len(),
            forall|j: int| 0 <= j < seen@.len() ==> (#[trigger] seen@[j] <==> is_seen(root@, st, disk.take(i as int), j)),
        decreases on_disk.len() - i,
    {
        let file = &on_disk[i];
        let place = find_stored(stored, relative_path(root, file.path.as_str()).as_str());
        proof {
            assert(want.len() == on_disk@.len());
            lemma_take_next(want, i as int);
            assert(disk[i as int] == file.deep_view());
        }
        let ghost marked = seen@;
        if place < stored.len() {
            assert(st[place as int] == stored@[place as int].deep_view());
            seen.set(place, true);
            if same_text(stored[place].hash.as_str(), file.hash.as_str()) {
                put(&mut out, FileChange::Unchanged(file.path.as_str().to_owned()));
            } else {
                put(&mut out, FileChange::Modified(file.path.as_str().to_owned()));
            }
        } else {
            put(&mut out, FileChange::Added(file.path.as_str().to_owned()));
        }
        proof {
            let front = disk.take(i as int);
            let more = disk.take(i + 1);
            assert forall|j: int| 0 <= j < seen@.len() implies (#[trigger] seen@[j] <==> is_seen(root@, st, more, j)) by {
                assert(marked[j] <==> is_seen(root@, st, front, j));
                if is_seen(root@, st, front, j) {
                    let m = choose|m: int| 0 <= m < front.len() && #[trigger] stored_place(root@, st, front[m].path) == j;
                    assert(stored_place(root@, st, more[m].path) == j);
                }
                if j == place {
                    assert(stored_place(root@, st, more[i as int].path) == j);
                }
                if is_seen(root@, st, more, j) && j != place {
                    let m = choose|m: int| 0 <= m < more.len() && #[trigger] stored_place(root@, st, more[m].path) == j;
                    assert(m < i);
                    assert(stored_place(root@, st, front[m].path) == j);
                }
            }
        }
        i = i + 1;
    }
    assert(disk.take(i as int) =~= disk);
    assert(want.take(i as int) =~= want);
    let mut n: usize = 0;
    assert(out.deep_view() =~= want + unseen(root@, st, disk, 0));
    while n < stored.len()
        invariant
            n <= stored@.len(),
            st == stored.deep_view(),
            seen@.len() == stored@.len(),
            forall|j: int| 0 <= j < seen@.len() ==> (#[trigger] seen@[j] <==> is_seen(root@, st, disk, j)),
            out.deep_view() == want + unseen(root@, st, disk, n as nat),
        decreases stored.len() - n,
    {
        assert(st[n as int] == stored@[n as int].deep_view());
        if !seen[n] {
            let ghost before = unseen(root@, st, disk, n as nat);
            put(&mut out, FileChange::Deleted(stored[n].path.as_str().to_owned()));
            assert((want + before).push(ChangeView::Deleted(st[n as int].path)) =~= want + before.push(
                ChangeView::Deleted(st[n as int].path),
            ));
        }
        n = n + 1;
    }
    out
}

/// Every file that is given as on disk comes out first, in order, under its
/// own path; what follows is deleted files.
pub proof fn changes_cover_the_disk(root: Seq<char>, stored: Seq<HashedView>, on_disk: Seq<HashedView>, i: int)
    requires
        0 <= i < changes(root, stored, on_disk).len(),
    ensures
        ({
            let change = changes(root, stored, on_disk)[i];
            if i < on_disk.len() {
                let path = on_disk[i].path;
                ||| change == ChangeView::Added(path)
                ||| change == ChangeView::Modified(path)
                ||| change == ChangeView::Unchanged(path)
            } else {
                change is Deleted
            }
        }),
{
    if i >= on_disk.len() {
        lemma_unseen(root, stored, on_disk, stored.len());
        assert(changes(root, stored, on_disk)[i] == unseen(root, stored, on_disk, stored.len())[i - on_disk.len()]);
    }
}

/// Is every path stored once?
pub open spec fn stored_once(stored: Seq<HashedView>) -> bool {
    forall|i: int, j: int| 0 <= i < j < stored.len() ==> (#[trigger] stored[i]).path != (#[trigger] stored[j]).path
}

/// Is a path below the root stored?
pub open spec fn is_stored(stored: Seq<HashedView>, path: Seq<char>) -> bool {
    exists|k: int| 0 <= k < stored.len() && (#[trigger] stored[k]).path == path
}

/// Does some file on disk stand at a path below the root?
pub open spec fn is_on_disk(root: Seq<char>, on_disk: Seq<HashedView>, path: Seq<char>) -> bool {
    exists|i: int| 0 <= i < on_disk.len() && relative(root, (#[trigger] on_disk[i]).path) == path
}

/// The listing that rows of stored hashes come to holds every path once.
pub proof fn a_listing_has_no_path_twice(rows: Seq<HashedView>)
    ensures
        stored_once(latest(rows)),
    decreases rows.len(),
{
    if rows.len() > 0 {
        let before = latest(rows.drop_last());
        a_listing_has_no_path_twice(rows.drop_last());
        lemma_path_place(before, rows.last().path);
        assert forall|i: int, j: int| 0 <= i < j < latest(rows).len() implies (#[trigger] latest(rows)[i]).path != (
        #[trigger] latest(rows)[j]).path by {
            let k = path_place(before, rows.last().path);
            if k >= before.len() {
                assert(before[i].path != rows.last().path);
            } else {
                assert(before[i].path != before[j].path);
            }
        }
    }
}

/// A file on disk is added exactly where no stored file has its path below
/// the root; otherwise it is told unchanged or modified by that file's hash.
pub proof fn a_file_is_told_by_its_own_row(root: Seq<char>, stored: Seq<HashedView>, on_disk: Seq<HashedView>, i: int)
    requires
        0 <= i < on_disk.len(),
    ensures
        changes(root, stored, on_disk)[i] is Added <==> !is_stored(stored, relative(root, on_disk[i].path)),
        stored_once(stored) ==> forall|k: int|
            0 <= k < stored.len() && (#[trigger] stored[k]).path == relative(root, on_disk[i].path) ==> changes(
                root,
                stored,
                on_disk,
            )[i] == (if stored[k].hash == on_disk[i].hash {
                ChangeView::Unchanged(on_disk[i].path)
            } else {
                ChangeView::Modified(on_disk[i].path)
            }),
{
    lemma_path_place(stored, relative(root, on_disk[i].path));
}

/// The deleted files are exactly the stored ones that are not on disk.
pub proof fn the_deleted_are_not_on_disk(
    root: Seq<char>,
    stored: Seq<HashedView>,
    on_disk: Seq<HashedView>,
    path: Seq<char>,
)
    requires
        stored_once(stored),
    ensures
        changes(root, stored, on_disk).contains(ChangeView::Deleted(path)) <==> is_stored(stored, path) && !is_on_disk(
            root,
            on_disk,
            path,
        ),
{
    let all = changes(root, stored, on_disk);
    let gone = unseen(root, stored, on_disk, stored.len());
    let told = ChangeView::Deleted(path);
    lemma_gone(root, stored, on_disk, stored.len(), path);
    if all.contains(told) {
        let x = choose|x: int| 0 <= x < all.len() && all[x] == told;
        changes_cover_the_disk(root, stored, on_disk, x);
        assert(gone[x - on_disk.len()] == told);
    }
    if gone.contains(told) {
        let x = choose|x: int| 0 <= x < gone.len() && gone[x] == told;
        assert(all[on_disk.len() + x] == told);
        let k = choose|k: int| 0 <= k < stored.len() && (#[trigger] stored[k]).path == path && !is_seen(root, stored, on_disk, k);
        if is_on_disk(root, on_disk, path) {
            let i = choose|i: int| 0 <= i < on_disk.len() && relative(root, (#[trigger] on_disk[i]).path) == path;
            lemma_path_place(stored, path);
            assert(stored_place(root, stored, on_disk[i].path) == k);
        }
    }
    if is_stored(stored, path) && !is_on_disk(root, on_disk, path) {
        let k = choose|k: int| 0 <= k < stored.len() && (#[trigger] stored[k]).path == path;
        if is_seen(root, stored, on_disk, k) {
            let i = choose|i: int|
                0 <= i < on_disk.len() && #[trigger] stored_place(root, stored, on_disk[i].path) == k;
            lemma_path_place(stored, relative(root, on_disk[i].path));
            assert(relative(root, on_disk[i].path) == path);
        }
    }
}

/// Where a path is listed, its place holds it; nowhere before does.
proof fn lemma_path_place(listed: Seq<HashedView>, path: Seq<char>)
    ensures
        path_place(listed, path) <= listed.len(),
        path_place(listed, path) < listed.len() ==> listed[path_place(listed, path) as int].path == path,
        forall|i: int| 0 <= i < path_place(listed, path) ==> (#[trigger] listed[i]).path != path,
    decreases listed.len(),
{
    if listed.len() > 0 && listed[0].path != path {
        let rest = listed.skip(1);
        lemma_path_place(rest, path);
        assert forall|i: int| 0 <= i < path_place(listed, path) implies (#[trigger] listed[i]).path != path by {
            if i > 0 {
                assert(rest[i - 1] == listed[i]);
            }
        }
    }
}

proof fn lemma_gone(root: Seq<char>, stored: Seq<HashedView>, on_disk: Seq<HashedView>, n: nat, path: Seq<char>)
    requires
        n <= stored.len(),
    ensures
        unseen(root, stored, on_disk, n).contains(ChangeView::Deleted(path)) <==> exists|k: int|
            0 <= k < n && (#[trigger] stored[k]).path == path && !is_seen(root, stored, on_disk, k),
    decreases n,
{
    let told = ChangeView::Deleted(path);
    let now = unseen(root, stored, on_disk, n);
    if n > 0 {
        let before = unseen(root, stored, on_disk, (n - 1) as nat);
        lemma_gone(root, stored, on_disk, (n - 1) as nat, path);
        if now.contains(told) {
            let x = choose|x: int| 0 <= x < now.len() && now[x] == told;
            if x < before.len() {
                assert(before[x] == told);
            } else {
                assert(stored[n - 1].path == path);
            }
        }
        if before.contains(told) {
            let x = choose|x: int| 0 <= x < before.len() && before[x] == told;
            assert(now[x] == told);
        }
        if stored[n - 1].path == path && !is_seen(root, stored, on_disk, n - 1) {
            assert(now[now.len() - 1] == told);
        }
    }
}

proof fn lemma_unseen(root: Seq<char>, stored: Seq<HashedView>, on_disk: Seq<HashedView>, n: nat)
    ensures
        forall|k: int|
            0 <= k < unseen(root, stored, on_disk, n).len() ==> #[trigger] unseen(root, stored, on_disk, n)[k] is Deleted,
    decreases n,
{
    if n > 0 {
        lemma_unseen(root, stored, on_disk, (n - 1) as nat);
    }
}

/// A run over files that are just as they were stored finds nothing changed.
pub proof fn an_unchanged_disk_shows_no_change(root: Seq<char>, stored: Seq<HashedView>, on_disk: Seq<HashedView>)
    requires
        stored_once(stored),
        on_disk.len() == stored.len(),
        forall|i: int|
            0 <= i < stored.len() ==> relative(root, (#[trigger] on_disk[i]).path) == stored[i].path && on_disk[i].hash
                == stored[i].hash,
    ensures
        changes(root, stored, on_disk) == on_disk.map_values(|f: HashedView| ChangeView::Unchanged(f.path)),
{
    assert forall|i: int| 0 <= i < stored.len() implies is_seen(root, stored, on_disk, i) && change_of(
        root,
        stored,
        #[trigger] on_disk[i],
    ) == ChangeView::Unchanged(on_disk[i].path) by {
        lemma_path_place(stored, stored[i].path);
        assert(stored_place(root, stored, on_disk[i].path) == i);
    }
    assert forall|i: int| 0 <= i < stored.len() implies is_seen(root, stored, on_disk, i) by {
        assert(change_of(root, stored, on_disk[i]) == ChangeView::Unchanged(on_disk[i].path));
    }
    lemma_all_seen(root, stored, on_disk, stored.len());
    assert(changes(root, stored, on_disk) =~= on_disk.map_values(|f: HashedView| ChangeView::Unchanged(f.path)));
}

proof fn lemma_all_seen(root: Seq<char>, stored: Seq<HashedView>, on_disk: Seq<HashedView>, n: nat)
    requires
        n <= stored.len(),
        forall|i: int| 0 <= i < stored.len() ==> is_seen(root, stored, on_disk, i),
    ensures
        unseen(root, stored, on_disk, n) == Seq::<ChangeView>::empty(),
    decreases n,
{
    if n > 0 {
        lemma_all_seen(root, stored, on_disk, (n - 1) as nat);
    }
}

} // verus!
