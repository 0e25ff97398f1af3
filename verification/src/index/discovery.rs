//! Discovery: which files of a tree are a project's own source files.

use vstd::prelude::*;
use vstd::utf8::{decode_utf8, encode_utf8, valid_utf8};
use crate::gather::gather;
use crate::index::parser::{extension_to_language, language_of};
use crate::lookup::{lemma_take_next, put};
use crate::text::{
    begins_with, chars_of, end_of_last, find_end_of_last, firsts, has_text, lowered, lowered_text, same_text, split_char,
    split_text, starts_with_text, text_between, trim_text, trimmed,
};

verus! {

/// What produced the list of candidate files of a run.
#[derive(Clone, Debug)]
pub enum DiscoveryStrategy {
    /// The version control's own listing, which knows what is ignored.
    Git,
    /// A walk of the directories, and why the listing was not used.
    Walk { reason: String },
    /// None has run yet.
    Unknown,
}

pub enum StrategyView {
    Git,
    Walk { reason: Seq<char> },
    Unknown,
}

impl DeepView for DiscoveryStrategy {
    type V = StrategyView;

    open spec fn deep_view(&self) -> StrategyView {
        match self {
            DiscoveryStrategy::Git => StrategyView::Git,
            DiscoveryStrategy::Walk { reason } => StrategyView::Walk { reason: reason@ },
            DiscoveryStrategy::Unknown => StrategyView::Unknown,
        }
    }
}

impl StrategyView {
    /// A short phrase for the summary of a run.
    pub open spec fn said(self) -> Seq<char> {
        match self {
            StrategyView::Git => "git ls-files, so .gitignore is respected"@,
            StrategyView::Walk { reason } => "directory walk with the built-in skip list ("@ + reason + ")"@,
            StrategyView::Unknown => "not run"@,
        }
    }
}

impl DiscoveryStrategy {
    /// A short phrase for the summary of a run.
    pub fn describe(&self) -> (r: String)
        ensures
            r@ == self.deep_view().said(),
    {
        match self {
            DiscoveryStrategy::Git => "git ls-files, so .gitignore is respected".to_owned(),
            DiscoveryStrategy::Walk { reason } => {
                let mut r = "directory walk with the built-in skip list (".to_owned();
                r.append(reason.as_str());
                r.append(")");
                r
            },
            DiscoveryStrategy::Unknown => "not run".to_owned(),
        }
    }
}

/// The candidate files, and how they were found.
#[derive(Clone, Debug)]
pub struct Discovery {
    pub files: Vec<String>,
    pub strategy: DiscoveryStrategy,
}

// ---- single files -------------------------------------------------------------------------

/// Is a directory never a project's own source?
pub open spec fn is_foreign_dir(name: Seq<char>) -> bool {
    begins_with(name, "."@) || name == "node_modules"@ || name == "target"@ || name == "build"@ || name == "dist"@
        || name == "vendor"@ || name == "__pycache__"@
}

/// Is a directory never a project's own source?
pub fn is_skipped_dir(name: &str) -> (r: bool)
    ensures
        r == is_foreign_dir(name@),
{
    starts_with_text(name, ".") || same_text(name, "node_modules") || same_text(name, "target") || same_text(
        name,
        "build",
    ) || same_text(name, "dist") || same_text(name, "vendor") || same_text(name, "__pycache__")
}

/// The components of a path: its parts at the slashes, but for empty ones
/// and for single dots behind the first.
pub open spec fn components(path: Seq<char>) -> Seq<Seq<char>> {
    parts_kept(split_char(path, '/'))
}

pub open spec fn parts_kept(parts: Seq<Seq<char>>) -> Seq<Seq<char>>
    decreases parts.len(),
{
    if parts.len() == 0 {
        Seq::empty()
    } else {
        let before = parts_kept(parts.drop_last());
        if parts.last().len() == 0 || (parts.last() == "."@ && parts.len() > 1) {
            before
        } else {
            before.push(parts.last())
        }
    }
}

/// The components of a path.
pub(crate) fn split_components(path: &str) -> (r: Vec<String>)
    ensures
        r.deep_view() == components(path@),
{
    let parts = split_text(path, '/');
    let ghost all = split_char(path@, '/');
    let mut out: Vec<String> = Vec::new();
    let mut i: usize = 0;
    assert(out.deep_view() =~= parts_kept(all.take(0)));
    while i < parts.len()
        invariant
            i <= parts@.len(),
            parts.deep_view() == all,
            out.deep_view() == parts_kept(all.take(i as int)),
        decreases parts.len() - i,
    {
        proof {
            assert(all.len() == parts@.len());
            lemma_take_next(all, i as int);
            assert(all[i as int] == parts@[i as int]@);
        }
        if !(parts[i].as_str().is_empty() || (same_text(parts[i].as_str(), ".") && i > 0)) {
            put(&mut out, parts[i].as_str().to_owned());
        }
        i = i + 1;
    }
    assert(all.take(i as int) =~= all);
    out
}

/// The extension of a file name, behind its last dot; nothing for a name
/// without a dot or with its only dot at the front.
pub open spec fn extension(name: Seq<char>) -> Seq<char> {
    let n = end_of_last(name, '.');
    if n > 1 {
        name.skip(n as int)
    } else {
        Seq::empty()
    }
}

/// The extension of a file name.
pub fn extension_of(name: &str) -> (r: String)
    ensures
        r@ == extension(name@),
{
    let v = chars_of(name);
    let n = find_end_of_last(&v, '.');
    if n > 1 {
        let r = text_between(&v, n, v.len());
        assert(r@ =~= name@.skip(n as int));
        r
    } else {
        let r = String::new();
        assert(r@ =~= Seq::empty());
        r
    }
}

/// Does one of some names name a language, in any case?
pub open spec fn names_one(filter: Seq<Seq<char>>, language: Seq<char>) -> bool {
    exists|i: int| 0 <= i < filter.len() && #[trigger] lowered(filter[i]) == lowered(language)
}

/// Does a filter of languages let one through? No filter does; a filter does
/// where it names the language in any case.
pub open spec fn lets_through(languages: Option<Seq<Seq<char>>>, language: Seq<char>) -> bool {
    match languages {
        None => true,
        Some(filter) => names_one(filter, language),
    }
}

/// Is a file with an extension of a language that is wanted?
pub open spec fn is_wanted(ext: Seq<char>, languages: Option<Seq<Seq<char>>>) -> bool {
    match language_of(ext) {
        Some(language) => lets_through(languages, language),
        None => false,
    }
}

/// Is a file with an extension of a language that is wanted?
pub fn wanted_source_file(ext: &str, languages: &Option<Vec<String>>) -> (r: bool)
    ensures
        r == is_wanted(ext@, languages.deep_view()),
{
    let language = match extension_to_language(ext) {
        Some(language) => language,
        None => {
            return false;
        },
    };
    match languages {
        None => true,
        Some(filter) => {
            let lower = lowered_text(language);
            let ghost all: Seq<Seq<char>> = filter.deep_view();
            let mut i: usize = 0;
            while i < filter.len()
                invariant
                    i <= filter@.len(),
                    all == filter.deep_view(),
                    languages.deep_view() == Some(all),
                    language_of(ext@) == Some(language@),
                    lower@ == lowered(language@),
                    forall|k: int| 0 <= k < i ==> #[trigger] lowered(all[k]) != lowered(language@),
                decreases filter.len() - i,
            {
                assert(all[i as int] == filter@[i as int]@);
                if same_text(lowered_text(filter[i].as_str()).as_str(), lower.as_str()) {
                    assert(names_one(all, language@)) by {
                        assert(i < all.len() && lowered(all[i as int]) == lowered(language@));
                    }
                    return true;
                }
                i = i + 1;
            }
            false
        },
    }
}

/// Is a listed file, given by its path below the root, kept? It stands in no
/// directory that is foreign, and its language is wanted.
pub open spec fn is_kept(path: Seq<char>, languages: Option<Seq<Seq<char>>>) -> bool {
    let parts = components(path);
    &&& forall|i: int| 0 <= i < parts.len() - 1 ==> !is_foreign_dir(#[trigger] parts[i])
    &&& parts.len() > 0
    &&& is_wanted(extension(parts.last()), languages)
}

/// Is a listed file kept?
pub fn keeps_listed(path: &str, languages: &Option<Vec<String>>) -> (r: bool)
    ensures
        r == is_kept(path@, languages.deep_view()),
{
    let parts = split_components(path);
    let ghost all = parts.deep_view();
    let n = parts.len();
    if n == 0 {
        return false;
    }
    let mut i: usize = 0;
    while i < n - 1
        invariant
            i <= n - 1,
            n == parts@.len(),
            all == parts.deep_view(),
            all == components(path@),
            forall|k: int| 0 <= k < i ==> !is_foreign_dir(#[trigger] all[k]),
        decreases n - i,
    {
        assert(all[i as int] == parts@[i as int]@);
        if is_skipped_dir(parts[i].as_str()) {
            return false;
        }
        i = i + 1;
    }
    assert(all.last() == parts@[n - 1]@);
    let ext = extension_of(parts[n - 1].as_str());
    wanted_source_file(ext.as_str(), languages)
}

/// The listed files that are kept, in their order.
pub fn keep_listed(listed: &Vec<String>, languages: &Option<Vec<String>>) -> (r: Vec<String>)
    ensures
        r.deep_view() == gather(
            listed.deep_view(),
            |p: Seq<char>|
                if is_kept(p, languages.deep_view()) {
                    Some(p)
                } else {
                    None
                },
        ),
{
    let ghost all = listed.deep_view();
    let ghost f = |p: Seq<char>|
        if is_kept(p, languages.deep_view()) {
            Some(p)
        } else {
            None
        };
    let mut out: Vec<String> = Vec::new();
    let mut i: usize = 0;
    assert(out.deep_view() =~= gather(all.take(0), f));
    while i < listed.len()
        invariant
            i <= listed@.len(),
            all == listed.deep_view(),
            f == (|p: Seq<char>|
                if is_kept(p, languages.deep_view()) {
                    Some(p)
                } else {
                    None
                }),
            out.deep_view() == gather(all.take(i as int), f),
        decreases listed.len() - i,
    {
        proof {
            assert(all.len() == listed@.len());
            lemma_take_next(all, i as int);
            assert(all[i as int] == listed@[i as int]@);
        }
        if keeps_listed(listed[i].as_str(), languages) {
            put(&mut out, listed[i].as_str().to_owned());
        }
        i = i + 1;
    }
    assert(all.take(i as int) =~= all);
    out
}

// ---- the listing -------------------------------------------------------------------------

/// The pieces of some bytes between zeros.
pub open spec fn split_zero(s: Seq<u8>) -> Seq<Seq<u8>>
    decreases s.len(),
{
    if s.len() == 0 {
        seq![Seq::empty()]
    } else {
        let before = split_zero(s.drop_last());
        if s.last() == 0 {
            before.push(Seq::empty())
        } else {
            before.drop_last().push(before.last().push(s.last()))
        }
    }
}

/// The paths of a listing whose entries end in zeros: those that are text,
/// each once.
pub open spec fn listed_paths(output: Seq<u8>) -> Seq<Seq<char>> {
    firsts(
        gather(
            split_zero(output),
            |chunk: Seq<u8>|
                if chunk.len() > 0 && valid_utf8(chunk) {
                    Some(decode_utf8(chunk))
                } else {
                    None
                },
        ),
    )
}

/// `std::str::from_utf8`: the text whose encoding the bytes are; none where
/// they are not valid UTF-8.
#[verifier::external_body]
fn utf8_text(bytes: &[u8]) -> (r: Option<String>)
    ensures
        match r {
            Some(s) => valid_utf8(bytes@) && encode_utf8(s@) == bytes@,
            None => !valid_utf8(bytes@),
        },
{
    std::str::from_utf8(bytes).ok().map(|s| s.to_string())
}

fn take_path(chunk: &Vec<u8>, paths: &mut Vec<String>, Ghost(found): Ghost<Seq<Seq<char>>>) -> (r: Ghost<
    Seq<Seq<char>>,
>)
    requires
        old(paths).deep_view() == firsts(found),
    ensures
        r@ == (if chunk@.len() > 0 && valid_utf8(chunk@) {
            found.push(decode_utf8(chunk@))
        } else {
            found
        }),
        final(paths).deep_view() == firsts(r@),
{
    if chunk.len() == 0 {
        return Ghost(found);
    }
    match utf8_text(chunk.as_slice()) {
        Some(s) => {
            proof {
                vstd::utf8::encode_utf8_decode_utf8(s@);
                assert(found.push(s@).drop_last() =~= found);
            }
            if !has_text(paths, s.as_str()) {
                let ghost text = s@;
                put(paths, s);
                Ghost(found.push(text))
            } else {
                Ghost(found.push(s@))
            }
        },
        None => Ghost(found),
    }
}

/// The paths of a listing whose entries end in zeros.
pub fn read_listing(output: &[u8]) -> (r: Vec<String>)
    ensures
        r.deep_view() == listed_paths(output@),
{
    let ghost f = |chunk: Seq<u8>|
        if chunk.len() > 0 && valid_utf8(chunk) {
            Some(decode_utf8(chunk))
        } else {
            None
        };
    let mut paths: Vec<String> = Vec::new();
    let mut chunk: Vec<u8> = Vec::new();
    let mut found: Ghost<Seq<Seq<char>>> = Ghost(Seq::empty());
    let mut i: usize = 0;
    proof {
        assert(split_zero(output@.take(0)) =~= seq![chunk@]);
        assert(seq![chunk@].drop_last() =~= Seq::empty());
        assert(paths.deep_view() =~= firsts(found@));
    }
    while i < output.len()
        invariant
            i <= output@.len(),
            f == (|chunk: Seq<u8>|
                if chunk.len() > 0 && valid_utf8(chunk) {
                    Some(decode_utf8(chunk))
                } else {
                    None
                }),
            split_zero(output@.take(i as int)).len() > 0,
            split_zero(output@.take(i as int)).last() == chunk@,
            found@ == gather(split_zero(output@.take(i as int)).drop_last(), f),
            paths.deep_view() == firsts(found@),
        decreases output.len() - i,
    {
        let ghost before = split_zero(output@.take(i as int));
        proof {
            lemma_take_next(output@, i as int);
        }
        if output[i] == 0 {
            let now = take_path(&chunk, &mut paths, found);
            found = now;
            chunk = Vec::new();
            proof {
                let after = split_zero(output@.take(i + 1));
                assert(chunk@ =~= Seq::empty());
                assert(after.drop_last() =~= before);
            }
        } else {
            chunk.push(output[i]);
            proof {
                let after = split_zero(output@.take(i + 1));
                assert(after.drop_last() =~= before.drop_last());
            }
        }
        i = i + 1;
    }
    let _ = take_path(&chunk, &mut paths, found);
    assert(output@.take(i as int) =~= output@);
    paths
}

/// Why a listing was refused: its first line of complaint.
pub open spec fn refusal(complaint: Seq<char>) -> Seq<char> {
    "git declined: "@ + trimmed(
        if complaint.len() == 0 {
            "git ls-files failed"@
        } else {
            split_char(complaint, '\n')[0]
        },
    )
}

/// Why a listing was refused.
pub fn refusal_text(complaint: &str) -> (r: String)
    ensures
        r@ == refusal(complaint@),
{
    let mut r = "git declined: ".to_owned();
    if complaint.is_empty() {
        r.append(trim_text("git ls-files failed").as_str());
    } else {
        let lines = split_text(complaint, '\n');
        proof {
            crate::text::lemma_split_nonempty(complaint@, '\n');
            assert(lines.deep_view()[0] == lines@[0]@);
        }
        r.append(trim_text(lines[0].as_str()).as_str());
    }
    r
}

/// Why the directories are walked, where they are: the listing failed, or it
/// left no file.
pub open spec fn reason_to_walk(left: Result<nat, Seq<char>>) -> Option<Seq<char>> {
    match left {
        Ok(n) => if n == 0 {
            Some("git listed no source files under this path"@)
        } else {
            None
        },
        Err(reason) => Some(reason),
    }
}

/// Why the directories are walked, given how many files the listing left or
/// why there is none.
pub fn walk_reason(left: Result<usize, String>) -> (r: Option<String>)
    ensures
        r.deep_view() == reason_to_walk(
            match left {
                Ok(n) => Ok(n as nat),
                Err(reason) => Err(reason@),
            },
        ),
{
    match left {
        Ok(n) => if n == 0 {
            Some("git listed no source files under this path".to_owned())
        } else {
            None
        },
        Err(reason) => Some(reason),
    }
}

/// Is a directory that a walk meets entered? The root always is.
pub fn walk_enters(name: &str, depth: usize) -> (r: bool)
    ensures
        r == (depth == 0 || !is_foreign_dir(name@)),
{
    depth == 0 || !is_skipped_dir(name)
}

} // verus!
