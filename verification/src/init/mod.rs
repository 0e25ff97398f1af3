//! Setting a repository up: the files that are written into it, and what is
//! told of them.

use vstd::prelude::*;
use crate::config::{config_path, config_path_of, join_path, CODEGRAPH_DIR};
use crate::doctor::planes_path;
use crate::gather::flatten;
use crate::lookup::{lemma_take_next, put};

pub mod gitignore;
pub mod scaffold;

pub use gitignore::gitignore_patch;
use gitignore::patched;
use scaffold::{
    busiest, busiest_source_dir, config_text, config_toml, planes_text, readme_of, root_readme, starter_planes, top_dirs,
};

verus! {

/// What to set up, and where.
#[derive(Clone, Debug)]
pub struct InitOptions {
    pub root: String,
    pub project_id: String,
    /// Replace the settings where they are there already.
    pub force: bool,
}

/// What was done, file by file.
#[derive(Clone, Debug)]
pub struct InitReport {
    pub root: String,
    pub project_id: String,
    pub created: Vec<String>,
    /// What was there and was left alone.
    pub skipped: Vec<String>,
    /// What was there and was replaced.
    pub overwritten: Vec<String>,
    /// What was done to the ignore file, where there is one.
    pub gitignore: Option<String>,
    pub next_command: String,
}

#[verifier::ext_equal]
pub struct ReportView {
    pub root: Seq<char>,
    pub project_id: Seq<char>,
    pub created: Seq<Seq<char>>,
    pub skipped: Seq<Seq<char>>,
    pub overwritten: Seq<Seq<char>>,
    pub gitignore: Option<Seq<char>>,
    pub next_command: Seq<char>,
}

impl DeepView for InitReport {
    type V = ReportView;

    open spec fn deep_view(&self) -> ReportView {
        ReportView {
            root: self.root@,
            project_id: self.project_id@,
            created: self.created.deep_view(),
            skipped: self.skipped.deep_view(),
            overwritten: self.overwritten.deep_view(),
            gitignore: self.gitignore.deep_view(),
            next_command: self.next_command@,
        }
    }
}

// ---- the report in words ---------------------------------------------------------------------

/// A line for each of some paths.
pub open spec fn path_lines(before: Seq<char>, paths: Seq<Seq<char>>, after: Seq<char>) -> Seq<char> {
    flatten(paths, |p: Seq<char>| before + p + after)
}

impl ReportView {
    /// The report in words.
    pub open spec fn said(self) -> Seq<char> {
        "=== codegraph init ===\n"@ + ("  Root:        "@ + self.root + "\n"@) + ("  Project:     "@ + self.project_id
            + "\n"@) + path_lines("  created      "@, self.created, "\n"@) + path_lines(
            "  replaced     "@,
            self.overwritten,
            "\n"@,
        ) + path_lines("  kept         "@, self.skipped, " (already present)\n"@) + match self.gitignore {
            Some(note) => "  .gitignore   "@ + note + "\n"@,
            None => Seq::empty(),
        } + (if self.created.len() == 0 && self.overwritten.len() == 0 {
            "\n  Nothing to do. This repository is already set up.\n"@
        } else {
            Seq::empty()
        }) + (if self.skipped.len() > 0 {
            "\n  Pass --force to replace the files that were kept, except planes.yaml, which init never replaces.\n"@
        } else {
            Seq::empty()
        }) + ("\n  Next: "@ + self.next_command + "\n"@)
    }
}

fn list_paths(before: &str, paths: &Vec<String>, after: &str) -> (r: String)
    ensures
        r@ == path_lines(before@, paths.deep_view(), after@),
{
    let ghost all = paths.deep_view();
    let ghost f = |p: Seq<char>| before@ + p + after@;
    let mut r = String::new();
    let mut i: usize = 0;
    assert(r@ =~= flatten(all.take(0), f));
    while i < paths.len()
        invariant
            i <= paths@.len(),
            all == paths.deep_view(),
            f == (|p: Seq<char>| before@ + p + after@),
            r@ == flatten(all.take(i as int), f),
        decreases paths.len() - i,
    {
        proof {
            assert(all.len() == paths@.len());
            lemma_take_next(all, i as int);
            assert(all[i as int] == paths@[i as int]@);
        }
        let line = around(before, paths[i].as_str(), after);
        r.append(line.as_str());
        i = i + 1;
    }
    assert(all.take(i as int) =~= all);
    r
}

fn around(before: &str, text: &str, after: &str) -> (r: String)
    ensures
        r@ == before@ + text@ + after@,
{
    let mut r = before.to_owned();
    r.append(text);
    r.append(after);
    r
}

impl InitReport {
    /// The report in words.
    pub fn render(&self) -> (r: String)
        ensures
            r@ == self.deep_view().said(),
    {
        let mut r = "=== codegraph init ===\n".to_owned();
        r.append(around("  Root:        ", self.root.as_str(), "\n").as_str());
        r.append(around("  Project:     ", self.project_id.as_str(), "\n").as_str());
        r.append(list_paths("  created      ", &self.created, "\n").as_str());
        r.append(list_paths("  replaced     ", &self.overwritten, "\n").as_str());
        r.append(list_paths("  kept         ", &self.skipped, " (already present)\n").as_str());
        let mut note = String::new();
        assert(note@ =~= Seq::empty());
        if let Some(said) = &self.gitignore {
            note = around("  .gitignore   ", said.as_str(), "\n");
        }
        r.append(note.as_str());
        let mut nothing = String::new();
        assert(nothing@ =~= Seq::empty());
        if self.created.len() == 0 && self.overwritten.len() == 0 {
            nothing = "\n  Nothing to do. This repository is already set up.\n".to_owned();
        }
        r.append(nothing.as_str());
        let mut kept = String::new();
        assert(kept@ =~= Seq::empty());
        if self.skipped.len() > 0 {
            kept =
            "\n  Pass --force to replace the files that were kept, except planes.yaml, which init never replaces.\n".to_owned();
        }
        r.append(kept.as_str());
        r.append(around("\n  Next: ", self.next_command.as_str(), "\n").as_str());
        r
    }
}

// ---- the files -------------------------------------------------------------------------------

/// A file to write.
#[derive(Clone, Debug)]
pub struct FileWrite {
    pub path: String,
    pub contents: String,
}

#[verifier::ext_equal]
pub struct WriteView {
    pub path: Seq<char>,
    pub contents: Seq<char>,
}

impl DeepView for FileWrite {
    type V = WriteView;

    open spec fn deep_view(&self) -> WriteView {
        WriteView { path: self.path@, contents: self.contents@ }
    }
}

/// What was found in a repository.
#[derive(Clone, Debug)]
pub struct RepositorySeen {
    /// Are the settings there?
    pub config: bool,
    /// Are the plans there?
    pub planes: bool,
    /// The names of the files at the root.
    pub root_files: Vec<String>,
    /// The source files, by their paths below the root.
    pub sources: Vec<String>,
}

/// What is to be written, and what is told of it.
#[derive(Clone, Debug)]
pub struct Scaffold {
    pub writes: Vec<FileWrite>,
    pub report: InitReport,
}

/// A report with a file recorded: one that was there is kept, or replaced by
/// force; one that was not is created.
pub open spec fn recorded(report: ReportView, path: Seq<char>, existed: bool, force: bool) -> ReportView {
    if existed && !force {
        ReportView { skipped: report.skipped.push(path), ..report }
    } else if existed {
        ReportView { overwritten: report.overwritten.push(path), ..report }
    } else {
        ReportView { created: report.created.push(path), ..report }
    }
}

/// The writes with that of a file, unless it is kept.
pub open spec fn written(
    writes: Seq<WriteView>,
    path: Seq<char>,
    contents: Seq<char>,
    existed: bool,
    force: bool,
) -> Seq<WriteView> {
    if existed && !force {
        writes
    } else {
        writes.push(WriteView { path, contents })
    }
}

/// The file that the first plans touch: the readme, or else the settings.
pub open spec fn anchor_of(root_files: Seq<Seq<char>>) -> Seq<char> {
    match readme_of(root_files) {
        Some(name) => name,
        None => ".codegraph/config.toml"@,
    }
}

/// The first plans of a repository.
pub open spec fn first_plans(options: InitOptions, seen: RepositorySeen) -> Seq<char> {
    planes_text(
        options.project_id@,
        anchor_of(seen.root_files.deep_view()),
        busiest(top_dirs(seen.sources.deep_view())),
    )
}

/// The report before any file.
pub open spec fn blank_report(options: InitOptions) -> ReportView {
    ReportView {
        root: options.root@,
        project_id: options.project_id@,
        created: Seq::empty(),
        skipped: Seq::empty(),
        overwritten: Seq::empty(),
        gitignore: None,
        next_command: "codegraph index"@,
    }
}

/// What is told of the files. The plans are kept even by force.
pub open spec fn files_report(options: InitOptions, seen: RepositorySeen) -> ReportView {
    recorded(
        recorded(blank_report(options), config_path(options.root@), seen.config, options.force),
        planes_path(options.root@),
        seen.planes,
        false,
    )
}

/// What is written.
pub open spec fn file_writes(options: InitOptions, seen: RepositorySeen) -> Seq<WriteView> {
    written(
        written(
            Seq::empty(),
            config_path(options.root@),
            config_text(options.project_id@),
            seen.config,
            options.force,
        ),
        planes_path(options.root@),
        first_plans(options, seen),
        seen.planes,
        false,
    )
}

fn record(scaffold: &mut Scaffold, path: String, contents: String, existed: bool, force: bool)
    ensures
        final(scaffold).report.deep_view() == recorded(old(scaffold).report.deep_view(), path@, existed, force),
        final(scaffold).writes.deep_view() == written(
            old(scaffold).writes.deep_view(),
            path@,
            contents@,
            existed,
            force,
        ),
{
    if existed && !force {
        put(&mut scaffold.report.skipped, path);
        return;
    }
    put(&mut scaffold.writes, FileWrite { path: path.as_str().to_owned(), contents });
    if existed {
        put(&mut scaffold.report.overwritten, path);
    } else {
        put(&mut scaffold.report.created, path);
    }
}

/// The files to write into a repository, and the report on them. The ignore
/// file is another step: see `patch_gitignore`.
pub fn run(options: &InitOptions, seen: &RepositorySeen) -> (r: Scaffold)
    ensures
        r.report.deep_view() == files_report(*options, *seen),
        r.writes.deep_view() == file_writes(*options, *seen),
{
    let report = InitReport {
        root: options.root.as_str().to_owned(),
        project_id: options.project_id.as_str().to_owned(),
        created: Vec::new(),
        skipped: Vec::new(),
        overwritten: Vec::new(),
        gitignore: None,
        next_command: "codegraph index".to_owned(),
    };
    let mut r = Scaffold { writes: Vec::new(), report };
    assert(r.report.deep_view() =~= blank_report(*options));
    assert(r.writes.deep_view() =~= Seq::empty());
    let config = config_path_of(options.root.as_str());
    record(&mut r, config, config_toml(options.project_id.as_str()), seen.config, options.force);
    let dir = join_path(options.root.as_str(), CODEGRAPH_DIR);
    let planes = join_path(dir.as_str(), "planes.yaml");
    let anchor: &str = match root_readme(&seen.root_files) {
        Some(name) => name,
        None => ".codegraph/config.toml",
    };
    let busy = busiest_source_dir(&seen.sources);
    let text = match &busy {
        Some(d) => starter_planes(options.project_id.as_str(), anchor, Some(d.as_str())),
        None => starter_planes(options.project_id.as_str(), anchor, None),
    };
    record(&mut r, planes, text, seen.planes, false);
    r
}

/// What to do with an ignore file: its new text, if it changes, and what is
/// told of it. Where there is none, none is made.
pub fn patch_gitignore(current: Option<&str>) -> (r: (Option<String>, Option<String>))
    ensures
        match current {
            None => r.0 is None && r.1 is None,
            Some(text) => match patched(text@) {
                Some((new, note)) => r.0.deep_view() == Some(new) && r.1.deep_view() == Some(note),
                None => r.0 is None && r.1.deep_view() == Some("already allows planes.yaml and config.toml"@),
            },
        },
{
    match current {
        None => (None, None),
        Some(text) => match gitignore_patch(text) {
            Some((new, note)) => (Some(new), Some(note)),
            None => (None, Some("already allows planes.yaml and config.toml".to_owned())),
        },
    }
}

/// Plans that are there are never written, by force or not, and settings that
/// are there are written by force only.
pub proof fn what_is_there_is_kept(options: InitOptions, seen: RepositorySeen)
    ensures
        seen.planes ==> forall|i: int|
            0 <= i < file_writes(options, seen).len() ==> (#[trigger] file_writes(options, seen)[i]).path
                != planes_path(options.root@),
        seen.config && !options.force ==> forall|i: int|
            0 <= i < file_writes(options, seen).len() ==> (#[trigger] file_writes(options, seen)[i]).path
                != config_path(options.root@),
{
    lemma_two_paths(options.root@);
}

/// Setting a repository up again changes nothing: both files are there, so
/// neither is written and both are told to be kept.
pub proof fn a_second_run_writes_nothing(options: InitOptions, seen: RepositorySeen)
    requires
        !options.force,
        seen.config,
        seen.planes,
    ensures
        file_writes(options, seen).len() == 0,
        files_report(options, seen).created.len() == 0,
        files_report(options, seen).overwritten.len() == 0,
        files_report(options, seen).skipped == seq![config_path(options.root@), planes_path(options.root@)],
{
    assert(files_report(options, seen).skipped =~= seq![config_path(options.root@), planes_path(options.root@)]);
}

proof fn lemma_two_paths(root: Seq<char>)
    ensures
        config_path(root) != planes_path(root),
{
    reveal_strlit("config.toml");
    reveal_strlit("planes.yaml");
    reveal_strlit("/");
    reveal_strlit(".codegraph");
    let a = config_path(root);
    let b = planes_path(root);
    assert(a[a.len() - 11] == 'c');
    assert(b[b.len() - 11] == 'p');
}

/// What is missing is created. Settings that are there are replaced by force, and
/// everything else that is there is kept: each of the two files is told of once,
/// and written unless it is kept.
pub proof fn what_is_missing_is_created(options: InitOptions, seen: RepositorySeen)
    ensures
        ({
            let report = files_report(options, seen);
            let writes = file_writes(options, seen);
            let config = config_path(options.root@);
            let planes = planes_path(options.root@);
            &&& report.created.contains(config) <==> !seen.config
            &&& report.overwritten.contains(config) <==> seen.config && options.force
            &&& report.skipped.contains(config) <==> seen.config && !options.force
            &&& report.created.contains(planes) <==> !seen.planes
            &&& report.skipped.contains(planes) <==> seen.planes
            &&& !report.overwritten.contains(planes)
            &&& writes.contains(WriteView { path: config, contents: config_text(options.project_id@) }) <==> !seen.config
                || options.force
            &&& !seen.planes ==> writes.contains(WriteView { path: planes, contents: first_plans(options, seen) })
            &&& report.created.len() + report.overwritten.len() == writes.len()
            &&& report.created.len() + report.overwritten.len() + report.skipped.len() == 2
        }),
{
    lemma_two_paths(options.root@);
    let config = config_path(options.root@);
    let planes = planes_path(options.root@);
    let first = recorded(blank_report(options), config, seen.config, options.force);
    let report = files_report(options, seen);
    let w1 = written(Seq::empty(), config, config_text(options.project_id@), seen.config, options.force);
    let writes = file_writes(options, seen);
    assert forall|x: Seq<char>| #[trigger] first.created.contains(x) <==> x == config && !seen.config by {
        if !seen.config {
            assert(first.created[0] == config);
        }
    }
    assert forall|x: Seq<char>| #[trigger] first.overwritten.contains(x) <==> x == config && seen.config && options.force by {
        if seen.config && options.force {
            assert(first.overwritten[0] == config);
        }
    }
    assert forall|x: Seq<char>| #[trigger] first.skipped.contains(x) <==> x == config && seen.config && !options.force by {
        if seen.config && !options.force {
            assert(first.skipped[0] == config);
        }
    }
    lemma_push_contains(first.created, planes, config);
    lemma_push_contains(first.created, planes, planes);
    lemma_push_contains(first.skipped, planes, config);
    lemma_push_contains(first.skipped, planes, planes);
    let own = WriteView { path: config, contents: config_text(options.project_id@) };
    let plans = WriteView { path: planes, contents: first_plans(options, seen) };
    lemma_push_contains(w1, plans, own);
    lemma_push_contains(w1, plans, plans);
    if !seen.config || options.force {
        assert(w1[0] == own);
    }
}

proof fn lemma_push_contains<A>(s: Seq<A>, a: A, x: A)
    ensures
        s.push(a).contains(x) <==> s.contains(x) || x == a,
{
    let t = s.push(a);
    if s.contains(x) {
        let k = choose|k: int| 0 <= k < s.len() && s[k] == x;
        assert(t[k] == x);
    }
    if x == a {
        assert(t[s.len() as int] == x);
    }
    if t.contains(x) {
        let k = choose|k: int| 0 <= k < t.len() && t[k] == x;
        if k < s.len() {
            assert(s[k] == x);
        }
    }
}

} // verus!
