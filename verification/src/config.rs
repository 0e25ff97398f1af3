//! Settings of a project: where its id, its store and its tier come from when
//! nobody says.

use vstd::prelude::*;
use crate::index::discovery::{components, split_components};
use crate::index::run::{directory_name, directory_name_of};
use crate::text::{
    begins_with, char_place, chars_of, decimal, decimal_text, find_char, joined, only, same_text, split_char,
    split_text, starts_with_text, text_between, trim_end_by, trim_end_char, trim_start_by, trim_start_char, trim_text,
    trimmed,
};
use crate::lookup::lemma_take_next;

verus! {

/// The directory of a project's settings, below its root.
pub const CODEGRAPH_DIR: &'static str = ".codegraph";

/// The environment variable that names a project.
pub const PROJECT_ID_ENV: &'static str = "CODEGRAPH_PROJECT_ID";

/// The file of a project's settings.
pub const CONFIG_FILE: &'static str = "config.toml";

/// The key of the tier.
pub const TIER_KEY: &'static str = "tier";

/// The key of the store.
pub const DB_URL_KEY: &'static str = "db_url";

/// Where the store is, below the root.
pub const DEFAULT_DB_PATH: &'static str = ".codegraph/graph.db";

/// The tier where nothing says otherwise.
pub const DEFAULT_TIER: &'static str = "full";

// ---- paths --------------------------------------------------------------------------------

/// A path below another; one that is absolute stands alone.
pub open spec fn path_below(base: Seq<char>, path: Seq<char>) -> Seq<char> {
    if begins_with(path, "/"@) || base.len() == 0 {
        path
    } else if base.last() == '/' {
        base + path
    } else {
        base + "/"@ + path
    }
}

/// A path below another.
pub fn join_path(base: &str, path: &str) -> (r: String)
    ensures
        r@ == path_below(base@, path@),
{
    if starts_with_text(path, "/") || base.is_empty() {
        return path.to_owned();
    }
    let v = chars_of(base);
    let mut r = base.to_owned();
    if v[v.len() - 1] != '/' {
        r.append("/");
    }
    r.append(path);
    r
}

/// The path of the settings of a project.
pub open spec fn config_path(root: Seq<char>) -> Seq<char> {
    path_below(path_below(root, CODEGRAPH_DIR@), CONFIG_FILE@)
}

/// The path of the settings of a project.
pub fn config_path_of(root: &str) -> (r: String)
    ensures
        r@ == config_path(root@),
{
    let dir = join_path(root, CODEGRAPH_DIR);
    join_path(dir.as_str(), CONFIG_FILE)
}

/// The directory with the first `n` components of an absolute path.
pub open spec fn prefix_path(parts: Seq<Seq<char>>, n: int) -> Seq<char> {
    "/"@ + joined(parts.take(n), "/"@)
}

/// An absolute path without dots that say nothing, then its directories, the
/// nearest first.
pub fn ancestors(path: &str) -> (r: Vec<String>)
    ensures
        r@.len() == components(path@).len() + 1,
        forall|i: int|
            0 <= i < r@.len() ==> (#[trigger] r@[i])@ == prefix_path(components(path@), components(path@).len() - i),
{
    let parts = split_components(path);
    let ghost all = parts.deep_view();
    let n = parts.len();
    assert(all.len() == n);
    let mut climbing: Vec<String> = Vec::new();
    let mut here = "/".to_owned();
    assert(here@ =~= prefix_path(all, 0)) by {
        assert(all.take(0) =~= Seq::empty());
    }
    let mut i: usize = 0;
    while i < n
        invariant
            i <= n == parts@.len(),
            all == parts.deep_view(),
            all.len() == n,
            here@ == prefix_path(all, i as int),
            climbing@.len() == i,
            forall|k: int| 0 <= k < i ==> (#[trigger] climbing@[k])@ == prefix_path(all, k),
        decreases n - i,
    {
        proof {
            lemma_take_next(all, i as int);
            assert(all[i as int] == parts@[i as int]@);
        }
        let mut next = here.as_str().to_owned();
        if i > 0 {
            next.append("/");
        }
        next.append(parts[i].as_str());
        proof {
            let front = all.take(i as int);
            if i == 0 {
                assert(front =~= Seq::empty());
                assert(all.take(1) =~= seq![all[0]]);
                assert(joined(seq![all[0]], "/"@) =~= all[0]);
                assert(next@ =~= prefix_path(all, 1));
            } else {
                assert(joined(all.take(i + 1), "/"@) == joined(front, "/"@) + "/"@ + all[i as int]);
                assert(next@ =~= prefix_path(all, i + 1));
            }
        }
        climbing.push(here);
        here = next;
        i = i + 1;
    }
    climbing.push(here);
    let mut out: Vec<String> = Vec::new();
    let mut k: usize = climbing.len();
    while k > 0
        invariant
            k <= n + 1,
            n == all.len(),
            climbing@.len() == k,
            forall|j: int| 0 <= j < k ==> (#[trigger] climbing@[j])@ == prefix_path(all, j),
            out@.len() == n + 1 - k,
            forall|j: int| 0 <= j < out@.len() ==> (#[trigger] out@[j])@ == prefix_path(all, n - j),
        decreases k,
    {
        match climbing.pop() {
            Some(dir) => out.push(dir),
            None => {},
        }
        k = k - 1;
    }
    out
}

/// The root among directories from the nearest up, given which hold a
/// repository's marker.
pub fn repo_root(dirs: &Vec<String>, marked: &Vec<bool>) -> (r: String)
    requires
        dirs@.len() > 0,
        dirs@.len() == marked@.len(),
    ensures
        exists|k: int|
            0 <= k < dirs@.len() && r@ == (#[trigger] dirs@[k])@ && ((marked@[k] && forall|j: int|
                0 <= j < k ==> !#[trigger] marked@[j]) || (k == 0 && forall|j: int|
                0 <= j < marked@.len() ==> !#[trigger] marked@[j])),
{
    let mut i: usize = 0;
    while i < dirs.len()
        invariant
            i <= dirs@.len() == marked@.len(),
            forall|j: int| 0 <= j < i ==> !#[trigger] marked@[j],
        decreases dirs.len() - i,
    {
        if marked[i] {
            return dirs[i].as_str().to_owned();
        }
        i = i + 1;
    }
    dirs[0].as_str().to_owned()
}

// ---- ids of projects -----------------------------------------------------------------------

/// Is a character an ASCII letter or digit?
pub open spec fn is_alphanumeric(c: char) -> bool {
    ('a' <= c && c <= 'z') || ('A' <= c && c <= 'Z') || ('0' <= c && c <= '9')
}

/// A character as it stands in a project id.
pub open spec fn id_char(c: char) -> char {
    if is_alphanumeric(c) || c == '_' || c == '-' {
        c
    } else {
        '_'
    }
}

/// Has a text a letter or a digit?
pub open spec fn has_alphanumeric(s: Seq<char>) -> bool {
    exists|i: int| 0 <= i < s.len() && is_alphanumeric(#[trigger] s[i])
}

/// A name as a project id: letters, digits, underscores and hyphens as they
/// are, anything else an underscore, none of these at the ends; none where no
/// letter or digit is left.
pub open spec fn sanitized(name: Seq<char>) -> Option<Seq<char>> {
    let bare = trim_end_by(trim_start_by(name.map_values(|c: char| id_char(c)), only('_')), only('_'));
    if has_alphanumeric(bare) {
        Some(bare)
    } else {
        None
    }
}

fn alphanumeric(c: char) -> (r: bool)
    ensures
        r == is_alphanumeric(c),
{
    ('a' <= c && c <= 'z') || ('A' <= c && c <= 'Z') || ('0' <= c && c <= '9')
}

/// A name as a project id, if anything usable is left of it.
pub fn sanitize_project_id(name: &str) -> (r: Option<String>)
    ensures
        r.deep_view() == sanitized(name@),
{
    let v = chars_of(name);
    let ghost want = name@.map_values(|c: char| id_char(c));
    let mut mapped: Vec<char> = Vec::new();
    let mut i: usize = 0;
    while i < v.len()
        invariant
            i <= v@.len(),
            v@ == name@,
            want == name@.map_values(|c: char| id_char(c)),
            mapped@ == want.take(i as int),
        decreases v.len() - i,
    {
        let c = v[i];
        mapped.push(if alphanumeric(c) || c == '_' || c == '-' { c } else { '_' });
        i = i + 1;
        assert(mapped@ =~= want.take(i as int));
    }
    assert(mapped@ =~= want);
    let n = mapped.len();
    let a = trim_start_char(&mapped, 0, n, '_');
    let b = trim_end_char(&mapped, a, n, '_');
    assert(mapped@.subrange(0, n as int) =~= want);
    let ghost bare = mapped@.subrange(a as int, b as int);
    let mut k: usize = a;
    while k < b
        invariant
            a <= k <= b <= mapped@.len(),
            bare == mapped@.subrange(a as int, b as int),
            bare == trim_end_by(trim_start_by(want, only('_')), only('_')),
            want == name@.map_values(|c: char| id_char(c)),
            forall|j: int| 0 <= j < k - a ==> !is_alphanumeric(#[trigger] bare[j]),
        decreases b - k,
    {
        if alphanumeric(mapped[k]) {
            assert(is_alphanumeric(bare[k - a]));
            return Some(text_between(&mapped, a, b));
        }
        assert(bare[k - a] == mapped@[k as int]);
        k = k + 1;
    }
    None
}

proof fn lemma_trim_start(s: Seq<char>, p: spec_fn(char) -> bool)
    ensures
        trim_start_by(s, p).len() > 0 ==> !p(trim_start_by(s, p)[0]),
        forall|i: int|
            0 <= i < trim_start_by(s, p).len() ==> s.contains(#[trigger] trim_start_by(s, p)[i]),
    decreases s.len(),
{
    if s.len() > 0 && p(s[0]) {
        lemma_trim_start(s.drop_first(), p);
        assert forall|i: int| 0 <= i < trim_start_by(s, p).len() implies s.contains(
            #[trigger] trim_start_by(s, p)[i],
        ) by {
            let rest = s.drop_first();
            let k = choose|k: int| 0 <= k < rest.len() && rest[k] == trim_start_by(s, p)[i];
            assert(s[k + 1] == rest[k]);
        }
    }
}

proof fn lemma_trim_end(s: Seq<char>, p: spec_fn(char) -> bool)
    ensures
        trim_end_by(s, p).len() > 0 ==> !p(trim_end_by(s, p).last()),
        trim_end_by(s, p).len() <= s.len(),
        trim_end_by(s, p) == s.take(trim_end_by(s, p).len() as int),
    decreases s.len(),
{
    if s.len() > 0 && p(s.last()) {
        lemma_trim_end(s.drop_last(), p);
        let t = trim_end_by(s, p);
        assert(s.drop_last().take(t.len() as int) =~= s.take(t.len() as int));
    } else {
        assert(s.take(s.len() as int) =~= s);
    }
}

/// A project id is its own form: making one of it again changes nothing.
pub proof fn a_project_id_stays_as_it_is(name: Seq<char>)
    requires
        sanitized(name) is Some,
    ensures
        sanitized(sanitized(name)->0) == sanitized(name),
{
    let p = only('_');
    let mapped = name.map_values(|c: char| id_char(c));
    let front = trim_start_by(mapped, p);
    let bare = trim_end_by(front, p);
    lemma_trim_start(mapped, p);
    lemma_trim_end(front, p);
    assert forall|i: int| 0 <= i < bare.len() implies id_char(#[trigger] bare[i]) == bare[i] by {
        assert(bare[i] == front[i]);
        assert(mapped.contains(front[i]));
        let k = choose|k: int| 0 <= k < mapped.len() && mapped[k] == front[i];
        assert(mapped[k] == id_char(name[k]));
    }
    assert(bare.map_values(|c: char| id_char(c)) =~= bare);
    if bare.len() > 0 {
        assert(bare[0] == front[0]);
    }
}

/// Where a project id comes from.
#[derive(Clone, Debug)]
pub enum ProjectIdSource {
    /// The command line.
    Explicit,
    /// The environment.
    Environment,
    /// The settings in this file.
    ConfigFile(String),
    /// The name of this directory.
    RepoRoot(String),
}

pub enum SourceView {
    Explicit,
    Environment,
    ConfigFile(Seq<char>),
    RepoRoot(Seq<char>),
}

impl DeepView for ProjectIdSource {
    type V = SourceView;

    open spec fn deep_view(&self) -> SourceView {
        match self {
            ProjectIdSource::Explicit => SourceView::Explicit,
            ProjectIdSource::Environment => SourceView::Environment,
            ProjectIdSource::ConfigFile(p) => SourceView::ConfigFile(p@),
            ProjectIdSource::RepoRoot(p) => SourceView::RepoRoot(p@),
        }
    }
}

impl ProjectIdSource {
    /// A short phrase that names the source.
    pub fn describe(&self) -> (r: String)
        ensures
            r@ == match self.deep_view() {
                SourceView::Explicit => "the --project-id argument"@,
                SourceView::Environment => "the "@ + PROJECT_ID_ENV@ + " environment variable"@,
                SourceView::ConfigFile(p) => "project_id in "@ + p,
                SourceView::RepoRoot(p) => "the name of the repo root "@ + p,
            },
    {
        match self {
            ProjectIdSource::Explicit => "the --project-id argument".to_owned(),
            ProjectIdSource::Environment => {
                let mut r = "the ".to_owned();
                r.append(PROJECT_ID_ENV);
                r.append(" environment variable");
                r
            },
            ProjectIdSource::ConfigFile(p) => {
                let mut r = "project_id in ".to_owned();
                r.append(p.as_str());
                r
            },
            ProjectIdSource::RepoRoot(p) => {
                let mut r = "the name of the repo root ".to_owned();
                r.append(p.as_str());
                r
            },
        }
    }
}

/// A project id and where it comes from.
#[derive(Clone, Debug)]
pub struct ResolvedProjectId {
    pub id: String,
    pub source: ProjectIdSource,
}

pub struct ResolvedView {
    pub id: Seq<char>,
    pub source: SourceView,
}

impl DeepView for ResolvedProjectId {
    type V = ResolvedView;

    open spec fn deep_view(&self) -> ResolvedView {
        ResolvedView { id: self.id@, source: self.source.deep_view() }
    }
}

// ---- the settings file ----------------------------------------------------------------------

/// What is wrong with a setting, and in which line.
#[derive(Clone, Copy, Debug, PartialEq, Eq, Structural)]
pub enum ConfigFault {
    Unterminated(u64),
    Empty(u64),
}

/// A value without its quotes: what stands before the closing quote, or,
/// without quotes, before a comment.
pub open spec fn unquoted(value: Seq<char>) -> Option<Seq<char>> {
    if value.len() > 0 && (value[0] == '"' || value[0] == '\'') {
        let rest = value.skip(1);
        let end = char_place(rest, value[0]);
        if end < rest.len() {
            Some(rest.take(end as int))
        } else {
            None
        }
    } else {
        Some(trimmed(value.take(char_place(value, '#') as int)))
    }
}

/// What a line says of a key, if it sets it.
pub open spec fn setting(line: Seq<char>, key: Seq<char>) -> Option<Seq<char>> {
    let eq = char_place(line, '=');
    if eq < line.len() && trimmed(line.take(eq as int)) == key {
        Some(trimmed(line.skip(eq + 1int)))
    } else {
        None
    }
}

/// What settings say of a key, from line `i` on. Blank lines and comments say
/// nothing, and neither does anything from the first section on.
pub open spec fn find_setting(lines: Seq<Seq<char>>, key: Seq<char>, i: nat) -> Result<Option<Seq<char>>, ConfigFault>
    decreases lines.len() - i,
{
    if i >= lines.len() {
        Ok(None)
    } else {
        let line = trimmed(lines[i as int]);
        if line.len() == 0 || line[0] == '#' {
            find_setting(lines, key, i + 1)
        } else if line[0] == '[' {
            Ok(None)
        } else {
            match setting(line, key) {
                None => find_setting(lines, key, i + 1),
                Some(value) => match unquoted(value) {
                    None => Err(ConfigFault::Unterminated((i + 1) as u64)),
                    Some(inner) => if trimmed(inner).len() == 0 {
                        Err(ConfigFault::Empty((i + 1) as u64))
                    } else {
                        Ok(Some(trimmed(inner)))
                    },
                },
            }
        }
    }
}

/// What the text of a settings file says of a key; nothing without a file.
pub open spec fn config_value(text: Option<Seq<char>>, key: Seq<char>) -> Result<Option<Seq<char>>, ConfigFault> {
    match text {
        Some(t) => find_setting(split_char(t, '\n'), key, 0),
        None => Ok(None),
    }
}

fn unquote(value: &str) -> (r: Option<String>)
    ensures
        r.deep_view() == unquoted(value@),
{
    let v = chars_of(value);
    if v.len() > 0 && (v[0] == '"' || v[0] == '\'') {
        let rest_text = text_between(&v, 1, v.len());
        let rest = chars_of(rest_text.as_str());
        assert(rest@ =~= value@.skip(1));
        let end = find_char(&rest, v[0]);
        if end < rest.len() {
            let r = text_between(&rest, 0, end);
            assert(r@ =~= rest@.take(end as int));
            Some(r)
        } else {
            None
        }
    } else {
        let end = find_char(&v, '#');
        let front = text_between(&v, 0, end);
        assert(front@ =~= value@.take(end as int));
        Some(trim_text(front.as_str()))
    }
}

fn read_setting(line: &str, key: &str) -> (r: Option<String>)
    ensures
        r.deep_view() == setting(line@, key@),
{
    let v = chars_of(line);
    let eq = find_char(&v, '=');
    if eq >= v.len() {
        return None;
    }
    let name = text_between(&v, 0, eq);
    assert(name@ =~= line@.take(eq as int));
    if !same_text(trim_text(name.as_str()).as_str(), key) {
        return None;
    }
    let value = text_between(&v, eq + 1, v.len());
    assert(value@ =~= line@.skip(eq + 1));
    Some(trim_text(value.as_str()))
}

/// What the text of a settings file says of a key.
pub fn read_config_key(text: Option<&str>, key: &str) -> (r: Result<Option<String>, ConfigFault>)
    ensures
        match r {
            Ok(v) => config_value(
                match text {
                    Some(t) => Some(t@),
                    None => None,
                },
                key@,
            ) == Ok::<_, ConfigFault>(v.deep_view()),
            Err(fault) => config_value(
                match text {
                    Some(t) => Some(t@),
                    None => None,
                },
                key@,
            ) == Err::<Option<Seq<char>>, _>(fault),
        },
{
    let t = match text {
        Some(t) => t,
        None => {
            return Ok(None);
        },
    };
    let lines = split_text(t, '\n');
    let ghost all = split_char(t@, '\n');
    let mut i: usize = 0;
    while i < lines.len()
        invariant
            i <= lines@.len(),
            all == split_char(t@, '\n'),
            all == lines.deep_view(),
            text == Some(t),
            find_setting(all, key@, 0) == find_setting(all, key@, i as nat),
        decreases lines.len() - i,
    {
        assert(all.len() == lines@.len());
        assert(all[i as int] == lines@[i as int]@);
        let bare = trim_text(lines[i].as_str());
        let line = chars_of(bare.as_str());
        if line.len() == 0 || line[0] == '#' {
            i = i + 1;
            continue;
        }
        if line[0] == '[' {
            return Ok(None);
        }
        match read_setting(bare.as_str(), key) {
            None => {
                i = i + 1;
            },
            Some(value) => {
                let number: u64 = i as u64 + 1;
                return match unquote(value.as_str()) {
                    None => Err(ConfigFault::Unterminated(number)),
                    Some(inner) => {
                        let id = trim_text(inner.as_str());
                        if id.as_str().is_empty() {
                            Err(ConfigFault::Empty(number))
                        } else {
                            Ok(Some(id))
                        }
                    },
                };
            },
        }
    }
    Ok(None)
}

impl ConfigFault {
    /// The fault in words.
    pub open spec fn said(self, path: Seq<char>, key: Seq<char>) -> Seq<char> {
        match self {
            ConfigFault::Unterminated(line) => path + ":"@ + decimal(line as nat) + ": "@ + key
                + " has an unterminated quoted value. Write it as "@ + key + " = \"a-value\""@,
            ConfigFault::Empty(line) => path + ":"@ + decimal(line as nat) + ": "@ + key
                + " is set but empty. Give it a value, or delete the line to let codegraph use its default"@,
        }
    }

    /// The fault in words.
    pub fn message(self, path: &str, key: &str) -> (r: String)
        ensures
            r@ == self.said(path@, key@),
    {
        let mut r = path.to_owned();
        r.append(":");
        match self {
            ConfigFault::Unterminated(line) => {
                r.append(decimal_text(line).as_str());
                r.append(": ");
                r.append(key);
                r.append(" has an unterminated quoted value. Write it as ");
                r.append(key);
                r.append(" = \"a-value\"");
            },
            ConfigFault::Empty(line) => {
                r.append(decimal_text(line).as_str());
                r.append(": ");
                r.append(key);
                r.append(
                    " is set but empty. Give it a value, or delete the line to let codegraph use its default",
                );
            },
        }
        r
    }
}

// ---- what a run uses ------------------------------------------------------------------------------

/// An id that was given, if one was: on the command line, where an empty one
/// is refused, or else in the environment.
pub open spec fn given_id(explicit: Option<Seq<char>>, environment: Option<Seq<char>>) -> Option<
    Result<ResolvedView, Seq<char>>,
> {
    match explicit {
        Some(id) => if trimmed(id).len() == 0 {
            Some(
                Err(
                    "--project-id was given but is empty. Pass a non-empty id, or omit the flag to let codegraph derive one from the repo"@,
                ),
            )
        } else {
            Some(Ok(ResolvedView { id: trimmed(id), source: SourceView::Explicit }))
        },
        None => match environment {
            Some(id) => if trimmed(id).len() > 0 {
                Some(Ok(ResolvedView { id: trimmed(id), source: SourceView::Environment }))
            } else {
                None
            },
            None => None,
        },
    }
}

/// The id that a project's place gives: that of its settings, or else one
/// made of its root's name.
pub open spec fn derived_id(root: Seq<char>, config: Option<Seq<char>>) -> Result<ResolvedView, Seq<char>> {
    let path = config_path(root);
    match config_value(config, "project_id"@) {
        Err(fault) => Err(fault.said(path, "project_id"@)),
        Ok(Some(id)) => Ok(ResolvedView { id, source: SourceView::ConfigFile(path) }),
        Ok(None) => match sanitized(directory_name(root)) {
            Some(id) => Ok(ResolvedView { id, source: SourceView::RepoRoot(root) }),
            None => Err(
                "cannot derive a project id from "@ + root
                    + ": its name has no letters or digits to build one from. Pass --project-id, or set "@
                    + PROJECT_ID_ENV@,
            ),
        },
    }
}

pub open spec fn text_of(t: Option<&str>) -> Option<Seq<char>> {
    match t {
        Some(s) => Some(s@),
        None => None,
    }
}

/// An id that was given on the command line or in the environment.
pub fn given_project_id(explicit: Option<&str>, environment: Option<&str>) -> (r: Option<
    Result<ResolvedProjectId, String>,
>)
    ensures
        match r {
            None => given_id(text_of(explicit), text_of(environment)) is None,
            Some(Ok(id)) => given_id(text_of(explicit), text_of(environment)) == Some(
                Ok::<_, Seq<char>>(id.deep_view()),
            ),
            Some(Err(e)) => given_id(text_of(explicit), text_of(environment)) == Some(
                Err::<ResolvedView, _>(e@),
            ),
        },
{
    match explicit {
        Some(raw) => {
            let id = trim_text(raw);
            if id.as_str().is_empty() {
                Some(
                    Err(
                        "--project-id was given but is empty. Pass a non-empty id, or omit the flag to let codegraph derive one from the repo".to_owned(),
                    ),
                )
            } else {
                Some(Ok(ResolvedProjectId { id, source: ProjectIdSource::Explicit }))
            }
        },
        None => match environment {
            Some(raw) => {
                let id = trim_text(raw);
                if id.as_str().is_empty() {
                    None
                } else {
                    Some(Ok(ResolvedProjectId { id, source: ProjectIdSource::Environment }))
                }
            },
            None => None,
        },
    }
}

/// The id that a project's place gives, from its root and the text of its
/// settings.
pub fn derived_project_id(root: &str, config: Option<&str>) -> (r: Result<ResolvedProjectId, String>)
    ensures
        match r {
            Ok(id) => derived_id(root@, text_of(config)) == Ok::<_, Seq<char>>(id.deep_view()),
            Err(e) => derived_id(root@, text_of(config)) == Err::<ResolvedView, _>(e@),
        },
{
    let path = config_path_of(root);
    match read_config_key(config, "project_id") {
        Err(fault) => Err(fault.message(path.as_str(), "project_id")),
        Ok(Some(id)) => Ok(ResolvedProjectId { id, source: ProjectIdSource::ConfigFile(path) }),
        Ok(None) => {
            let base = directory_name_of(root);
            match sanitize_project_id(base.as_str()) {
                Some(id) => Ok(
                    ResolvedProjectId { id, source: ProjectIdSource::RepoRoot(root.to_owned()) },
                ),
                None => {
                    let mut e = "cannot derive a project id from ".to_owned();
                    e.append(root);
                    e.append(": its name has no letters or digits to build one from. Pass --project-id, or set ");
                    e.append(PROJECT_ID_ENV);
                    Err(e)
                },
            }
        },
    }
}

/// The project id of a run: one that was given, or else the one that the
/// project's place gives.
pub fn resolve_project_id(
    explicit: Option<&str>,
    environment: Option<&str>,
    root: &str,
    config: Option<&str>,
) -> (r: Result<ResolvedProjectId, String>)
    ensures
        ({
            let want = match given_id(text_of(explicit), text_of(environment)) {
                Some(given) => given,
                None => derived_id(root@, text_of(config)),
            };
            match r {
                Ok(id) => want == Ok::<_, Seq<char>>(id.deep_view()),
                Err(e) => want == Err::<ResolvedView, _>(e@),
            }
        }),
{
    match given_project_id(explicit, environment) {
        Some(given) => given,
        None => derived_project_id(root, config),
    }
}

/// The project id of a run, without its source.
pub fn project_id(
    explicit: Option<&str>,
    environment: Option<&str>,
    root: &str,
    config: Option<&str>,
) -> (r: Result<String, String>)
    ensures
        ({
            let want = match given_id(text_of(explicit), text_of(environment)) {
                Some(given) => given,
                None => derived_id(root@, text_of(config)),
            };
            match (want, r) {
                (Ok(resolved), Ok(id)) => id@ == resolved.id,
                (Err(want), Err(e)) => e@ == want,
                _ => false,
            }
        }),
{
    match resolve_project_id(explicit, environment, root, config) {
        Ok(resolved) => Ok(resolved.id),
        Err(e) => Err(e),
    }
}

/// A store's address with a relative path of an embedded store made absolute
/// below a root.
pub open spec fn anchored(raw: Seq<char>, root: Seq<char>) -> Seq<char> {
    let scheme = "surrealkv://"@;
    if begins_with(raw, scheme) && !begins_with(raw.skip(12), "/"@) {
        scheme + path_below(root, raw.skip(12))
    } else {
        raw
    }
}

fn anchor_db_url(raw: &str, root: &str) -> (r: String)
    ensures
        r@ == anchored(raw@, root@),
{
    if !starts_with_text(raw, "surrealkv://") {
        return raw.to_owned();
    }
    proof {
        reveal_strlit("surrealkv://");
    }
    let v = chars_of(raw);
    let path = text_between(&v, 12, v.len());
    assert(path@ =~= raw@.skip(12));
    if starts_with_text(path.as_str(), "/") {
        return raw.to_owned();
    }
    let mut r = "surrealkv://".to_owned();
    r.append(join_path(root, path.as_str()).as_str());
    r
}

/// A setting that was given and is not blank.
pub open spec fn given_setting(explicit: Option<Seq<char>>) -> Option<Seq<char>> {
    match explicit {
        Some(t) => if trimmed(t).len() > 0 {
            Some(trimmed(t))
        } else {
            None
        },
        None => None,
    }
}

fn nonblank(explicit: Option<&str>) -> (r: Option<String>)
    ensures
        r.deep_view() == given_setting(text_of(explicit)),
{
    match explicit {
        Some(raw) => {
            let t = trim_text(raw);
            if t.as_str().is_empty() {
                None
            } else {
                Some(t)
            }
        },
        None => None,
    }
}

/// The address of the store: one that was given, as it is, or else that of
/// the settings or the default one, below the root.
pub fn db_url(explicit: Option<&str>, root: &str, config: Option<&str>) -> (r: Result<String, String>)
    ensures
        match (given_setting(text_of(explicit)), config_value(text_of(config), DB_URL_KEY@), r) {
            (Some(url), _, Ok(got)) => got@ == url,
            (None, Ok(Some(url)), Ok(got)) => got@ == anchored(url, root@),
            (None, Ok(None), Ok(got)) => got@ == anchored("surrealkv://"@ + DEFAULT_DB_PATH@, root@),
            (None, Err(fault), Err(e)) => e@ == fault.said(config_path(root@), DB_URL_KEY@),
            _ => false,
        },
{
    match nonblank(explicit) {
        Some(url) => Ok(url),
        None => match read_config_key(config, DB_URL_KEY) {
            Err(fault) => Err(fault.message(config_path_of(root).as_str(), DB_URL_KEY)),
            Ok(Some(raw)) => Ok(anchor_db_url(raw.as_str(), root)),
            Ok(None) => {
                let mut raw = "surrealkv://".to_owned();
                raw.append(DEFAULT_DB_PATH);
                Ok(anchor_db_url(raw.as_str(), root))
            },
        },
    }
}

/// The tier: one that was given, or else that of the settings, or else the
/// default one.
pub fn tier(explicit: Option<&str>, root: &str, config: Option<&str>) -> (r: Result<String, String>)
    ensures
        match (given_setting(text_of(explicit)), config_value(text_of(config), TIER_KEY@), r) {
            (Some(t), _, Ok(got)) => got@ == t,
            (None, Ok(Some(t)), Ok(got)) => got@ == t,
            (None, Ok(None), Ok(got)) => got@ == DEFAULT_TIER@,
            (None, Err(fault), Err(e)) => e@ == fault.said(config_path(root@), TIER_KEY@),
            _ => false,
        },
{
    match nonblank(explicit) {
        Some(t) => Ok(t),
        None => match read_config_key(config, TIER_KEY) {
            Err(fault) => Err(fault.message(config_path_of(root).as_str(), TIER_KEY)),
            Ok(Some(t)) => Ok(t),
            Ok(None) => Ok(DEFAULT_TIER.to_owned()),
        },
    }
}

} // verus!
