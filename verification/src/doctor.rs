//! Diagnoses: what was observed of a project and its store, said in checks
//! with remedies.

use vstd::prelude::*;
use crate::config::{
    anchored, config_path, config_path_of, config_value, db_url, given_setting, path_below,
    join_path, read_config_key, CODEGRAPH_DIR, DB_URL_KEY, DEFAULT_DB_PATH,
};
use crate::db::is_store_locked;
use crate::gather::{flatten, gather};
use crate::index::discovery::{components, extension, extension_of, split_components, DiscoveryStrategy, StrategyView};
use crate::index::parser::{extension_to_language, language_of};
use crate::lookup::{lemma_take_next, places_of, put, SortedIndex};
use crate::order::{sort_keys, sorted};
use crate::text::{
    decimal, decimal_text, firsts, has_part, join_texts, joined, put_first, same_text, signed_decimal, signed_text,
    trim_text,
};

verus! {

/// What to diagnose.
#[derive(Clone, Debug)]
pub struct DoctorOptions {
    pub project_id: String,
    /// Where the id comes from, in words.
    pub project_id_source: String,
    pub root: String,
    /// The store's address, where one was given.
    pub db_url: Option<String>,
}

/// The verdict of a check, from the best to the worst.
#[derive(Clone, Copy, Debug, PartialEq, Eq, Structural)]
pub enum CheckStatus {
    Pass,
    /// It works, and something will bite later.
    Warn,
    /// Something that was asked for cannot work.
    Fail,
}

impl CheckStatus {
    pub open spec fn rank(self) -> nat {
        match self {
            CheckStatus::Pass => 0,
            CheckStatus::Warn => 1,
            CheckStatus::Fail => 2,
        }
    }

    /// The word for a verdict.
    pub open spec fn word(self) -> Seq<char> {
        match self {
            CheckStatus::Pass => "ok"@,
            CheckStatus::Warn => "warn"@,
            CheckStatus::Fail => "FAIL"@,
        }
    }

    /// The worse of two verdicts.
    pub open spec fn worse(self, other: CheckStatus) -> CheckStatus {
        if other.rank() > self.rank() {
            other
        } else {
            self
        }
    }

    /// The word for a verdict.
    pub fn as_str(self) -> (r: &'static str)
        ensures
            r@ == self.word(),
    {
        match self {
            CheckStatus::Pass => "ok",
            CheckStatus::Warn => "warn",
            CheckStatus::Fail => "FAIL",
        }
    }

    fn worse_of(self, other: CheckStatus) -> (r: CheckStatus)
        ensures
            r == self.worse(other),
    {
        match (self, other) {
            (CheckStatus::Fail, _) => CheckStatus::Fail,
            (_, CheckStatus::Fail) => CheckStatus::Fail,
            (CheckStatus::Warn, _) => CheckStatus::Warn,
            (_, CheckStatus::Warn) => CheckStatus::Warn,
            _ => CheckStatus::Pass,
        }
    }
}

/// One diagnosis.
#[derive(Clone, Debug)]
pub struct Check {
    pub name: String,
    pub status: CheckStatus,
    /// What was observed.
    pub detail: String,
    /// What mends it.
    pub remedy: Option<String>,
}

#[verifier::ext_equal]
pub struct CheckView {
    pub name: Seq<char>,
    pub status: CheckStatus,
    pub detail: Seq<char>,
    pub remedy: Option<Seq<char>>,
}

impl DeepView for Check {
    type V = CheckView;

    open spec fn deep_view(&self) -> CheckView {
        CheckView {
            name: self.name@,
            status: self.status,
            detail: self.detail@,
            remedy: self.remedy.deep_view(),
        }
    }
}

/// Every check, in the order of the questions.
#[derive(Clone, Debug)]
pub struct DoctorReport {
    pub project_id: String,
    pub root: String,
    pub checks: Vec<Check>,
}

/// The worst verdict of some checks; the best where there is none.
pub open spec fn worst_of(checks: Seq<CheckView>) -> CheckStatus
    decreases checks.len(),
{
    if checks.len() == 0 {
        CheckStatus::Pass
    } else {
        worst_of(checks.drop_last()).worse(checks.last().status)
    }
}

/// The line of a check, and that of its remedy.
pub open spec fn check_text() -> spec_fn(CheckView) -> Seq<char> {
    |c: CheckView|
        "  ["@ + c.status.word() + "] "@ + c.name + ": "@ + c.detail + "\n"@ + match c.remedy {
            Some(remedy) => "         fix: "@ + remedy + "\n"@,
            None => Seq::empty(),
        }
}

impl DoctorReport {
    /// The worst verdict.
    pub fn worst(&self) -> (r: CheckStatus)
        ensures
            r == worst_of(self.checks.deep_view()),
    {
        let ghost all = self.checks.deep_view();
        let mut worst = CheckStatus::Pass;
        let mut i: usize = 0;
        while i < self.checks.len()
            invariant
                i <= self.checks@.len(),
                all == self.checks.deep_view(),
                worst == worst_of(all.take(i as int)),
            decreases self.checks.len() - i,
        {
            proof {
                assert(all.len() == self.checks@.len());
                lemma_take_next(all, i as int);
                assert(all[i as int] == self.checks@[i as int].deep_view());
            }
            worst = worst.worse_of(self.checks[i].status);
            i = i + 1;
        }
        assert(all.take(i as int) =~= all);
        worst
    }

    /// Did nothing fail? A warning is healthy.
    pub fn is_healthy(&self) -> (r: bool)
        ensures
            r == (worst_of(self.checks.deep_view()) != CheckStatus::Fail),
    {
        self.worst() != CheckStatus::Fail
    }

    /// The report in words.
    pub fn render(&self) -> (r: String)
        ensures
            r@ == "=== codegraph doctor: "@ + self.project_id@ + " ===\n"@ + "  Root: "@ + self.root@ + "\n\n"@ + flatten(
                self.checks.deep_view(),
                check_text(),
            ),
    {
        let mut r = "=== codegraph doctor: ".to_owned();
        r.append(self.project_id.as_str());
        r.append(" ===\n");
        r.append("  Root: ");
        r.append(self.root.as_str());
        r.append("\n\n");
        let ghost head = r@;
        let ghost all = self.checks.deep_view();
        let mut i: usize = 0;
        assert(r@ =~= head + flatten(all.take(0), check_text()));
        while i < self.checks.len()
            invariant
                i <= self.checks@.len(),
                all == self.checks.deep_view(),
                r@ == head + flatten(all.take(i as int), check_text()),
            decreases self.checks.len() - i,
        {
            let c = &self.checks[i];
            proof {
                assert(all.len() == self.checks@.len());
                lemma_take_next(all, i as int);
                assert(all[i as int] == c.deep_view());
            }
            let ghost before = flatten(all.take(i as int), check_text());
            let line = render_check(c);
            r.append(line.as_str());
            assert((head + before) + line@ =~= head + (before + line@));
            i = i + 1;
        }
        assert(all.take(i as int) =~= all);
        r
    }
}

fn render_check(c: &Check) -> (r: String)
    ensures
        r@ == check_text()(c.deep_view()),
{
    let mut r = "  [".to_owned();
    r.append(c.status.as_str());
    r.append("] ");
    r.append(c.name.as_str());
    r.append(": ");
    r.append(c.detail.as_str());
    r.append("\n");
    let ghost line = r@;
    match &c.remedy {
        Some(remedy) => {
            let mut fix = "         fix: ".to_owned();
            fix.append(remedy.as_str());
            fix.append("\n");
            r.append(fix.as_str());
        },
        None => {
            assert(line + Seq::<char>::empty() =~= line);
        },
    }
    r
}

/// The worst verdict is that of some check, and no check has a worse one; a
/// report is healthy exactly when no check failed.
pub proof fn the_worst_bounds_every_check(checks: Seq<CheckView>)
    ensures
        forall|i: int| 0 <= i < checks.len() ==> (#[trigger] checks[i]).status.rank() <= worst_of(checks).rank(),
        checks.len() > 0 ==> exists|i: int| 0 <= i < checks.len() && (#[trigger] checks[i]).status == worst_of(checks),
        worst_of(checks) == CheckStatus::Fail <==> exists|i: int|
            0 <= i < checks.len() && (#[trigger] checks[i]).status == CheckStatus::Fail,
    decreases checks.len(),
{
    if checks.len() > 0 {
        let front = checks.drop_last();
        the_worst_bounds_every_check(front);
        assert forall|i: int| 0 <= i < checks.len() implies (#[trigger] checks[i]).status.rank() <= worst_of(
            checks,
        ).rank() by {
            if i < front.len() {
                assert(front[i] == checks[i]);
            }
        }
        if worst_of(checks) == checks.last().status {
            assert(checks[checks.len() - 1].status == worst_of(checks));
        } else {
            if front.len() > 0 {
                let k = choose|k: int| 0 <= k < front.len() && (#[trigger] front[k]).status == worst_of(front);
                assert(checks[k].status == worst_of(checks));
            }
        }
    }
}

// ---- single checks ---------------------------------------------------------------------------

pub open spec fn plain(name: Seq<char>, status: CheckStatus, detail: Seq<char>) -> CheckView {
    CheckView { name, status, detail, remedy: None }
}

pub open spec fn mended(name: Seq<char>, status: CheckStatus, detail: Seq<char>, remedy: Seq<char>) -> CheckView {
    CheckView { name, status, detail, remedy: Some(remedy) }
}

fn check(name: &str, status: CheckStatus, detail: String) -> (r: Check)
    ensures
        r.deep_view() == plain(name@, status, detail@),
{
    Check { name: name.to_owned(), status, detail, remedy: None }
}

fn check_with_fix(name: &str, status: CheckStatus, detail: String, remedy: &str) -> (r: Check)
    ensures
        r.deep_view() == mended(name@, status, detail@, remedy@),
{
    Check { name: name.to_owned(), status, detail, remedy: Some(remedy.to_owned()) }
}

fn two(a: &str, b: &str) -> (r: String)
    ensures
        r@ == a@ + b@,
{
    let mut r = a.to_owned();
    r.append(b);
    r
}

fn three(a: &str, b: &str, c: &str) -> (r: String)
    ensures
        r@ == a@ + b@ + c@,
{
    let mut r = a.to_owned();
    r.append(b);
    r.append(c);
    r
}

/// Was the root found by a repository's marker?
pub open spec fn root_check(root: Seq<char>, marked: bool) -> CheckView {
    if marked {
        plain("repo-root"@, CheckStatus::Pass, root + " (nearest ancestor holding a .git entry)"@)
    } else {
        mended(
            "repo-root"@,
            CheckStatus::Warn,
            root + " (no .git found above it, so the working directory is being used as the root)"@,
            "run codegraph from inside the repository you mean to index, or pass the path to codegraph index"@,
        )
    }
}

fn repo_root_check(root: &str, marked: bool) -> (r: Check)
    ensures
        r.deep_view() == root_check(root@, marked),
{
    if marked {
        check("repo-root", CheckStatus::Pass, two(root, " (nearest ancestor holding a .git entry)"))
    } else {
        check_with_fix(
            "repo-root",
            CheckStatus::Warn,
            two(root, " (no .git found above it, so the working directory is being used as the root)"),
            "run codegraph from inside the repository you mean to index, or pass the path to codegraph index",
        )
    }
}

/// The settings file as it was found: its text, where it is there, or why it
/// could not be read.
pub type FoundConfig = Result<Option<Seq<char>>, Seq<char>>;

/// What a settings file says of a key, or what is wrong with it.
pub open spec fn found_value(config: FoundConfig, root: Seq<char>, key: Seq<char>) -> Result<
    Option<Seq<char>>,
    Seq<char>,
> {
    match config {
        Err(e) => Err(e),
        Ok(text) => match config_value(text, key) {
            Ok(v) => Ok(v),
            Err(fault) => Err(fault.said(config_path(root), key)),
        },
    }
}

/// Is the settings file there, and does the reader of settings make sense of
/// it?
pub open spec fn settings_check(root: Seq<char>, config: FoundConfig) -> CheckView {
    let path = config_path(root);
    if config == Ok::<Option<Seq<char>>, Seq<char>>(None) {
        mended(
            "config-file"@,
            CheckStatus::Warn,
            "no "@ + path,
            "run codegraph init to write one (not required: the project id is derived without it)"@,
        )
    } else {
        match found_value(config, root, "project_id"@) {
            Ok(Some(id)) => plain(
                "config-file"@,
                CheckStatus::Pass,
                path + " declares project_id \""@ + id + "\""@,
            ),
            Ok(None) => mended(
                "config-file"@,
                CheckStatus::Warn,
                path + " exists but sets no project_id"@,
                "add project_id = \"<name>\", or delete the file to derive the id from the repo root name"@,
            ),
            Err(e) => mended(
                "config-file"@,
                CheckStatus::Fail,
                path + " cannot be read: "@ + e,
                "fix the line the message names, or delete the file and run codegraph init"@,
            ),
        }
    }
}

pub open spec fn config_seen(config: &Result<Option<String>, String>) -> FoundConfig {
    match config {
        Ok(text) => Ok(text.deep_view()),
        Err(e) => Err(e@),
    }
}

fn value_found(config: &Result<Option<String>, String>, root: &str, key: &str) -> (r: Result<Option<String>, String>)
    ensures
        match r {
            Ok(v) => found_value(config_seen(config), root@, key@) == Ok::<_, Seq<char>>(v.deep_view()),
            Err(e) => found_value(config_seen(config), root@, key@) == Err::<Option<Seq<char>>, _>(e@),
        },
{
    let text: Option<&str> = match config {
        Err(e) => {
            return Err(e.as_str().to_owned());
        },
        Ok(Some(t)) => Some(t.as_str()),
        Ok(None) => None,
    };
    match read_config_key(text, key) {
        Ok(v) => Ok(v),
        Err(fault) => Err(fault.message(config_path_of(root).as_str(), key)),
    }
}

fn config_check(root: &str, config: &Result<Option<String>, String>) -> (r: Check)
    ensures
        r.deep_view() == settings_check(root@, config_seen(config)),
{
    let path = config_path_of(root);
    match config {
        Ok(None) => {
            return check_with_fix(
                "config-file",
                CheckStatus::Warn,
                two("no ", path.as_str()),
                "run codegraph init to write one (not required: the project id is derived without it)",
            );
        },
        _ => {},
    }
    match value_found(config, root, "project_id") {
        Ok(Some(id)) => {
            let mut detail = path;
            detail.append(" declares project_id \"");
            detail.append(id.as_str());
            detail.append("\"");
            check("config-file", CheckStatus::Pass, detail)
        },
        Ok(None) => check_with_fix(
            "config-file",
            CheckStatus::Warn,
            two(path.as_str(), " exists but sets no project_id"),
            "add project_id = \"<name>\", or delete the file to derive the id from the repo root name",
        ),
        Err(e) => check_with_fix(
            "config-file",
            CheckStatus::Fail,
            three(path.as_str(), " cannot be read: ", e.as_str()),
            "fix the line the message names, or delete the file and run codegraph init",
        ),
    }
}

/// The file of a project's plans, as it was found.
#[derive(Clone, Debug)]
pub enum PlanesSeen {
    Absent,
    Unreadable(String),
    Read { planes: usize, items: usize, violations: usize },
}

pub open spec fn planes_path(root: Seq<char>) -> Seq<char> {
    path_below(path_below(root, CODEGRAPH_DIR@), "planes.yaml"@)
}

/// Is there a plan, and is it sound?
pub open spec fn plans_check(root: Seq<char>, seen: PlanesSeen) -> CheckView {
    let path = planes_path(root);
    match seen {
        PlanesSeen::Absent => mended(
            "planes-file"@,
            CheckStatus::Warn,
            "no "@ + path,
            "run codegraph init to scaffold one (not required: every other command works without it)"@,
        ),
        PlanesSeen::Unreadable(e) => mended(
            "planes-file"@,
            CheckStatus::Fail,
            path + " does not parse: "@ + e@,
            "run codegraph plan lint for the full list"@,
        ),
        PlanesSeen::Read { planes, items, violations } => if violations == 0 {
            plain(
                "planes-file"@,
                CheckStatus::Pass,
                path + " is valid: "@ + decimal(planes as nat) + " plane(s), "@ + decimal(items as nat)
                    + " work item(s)"@,
            )
        } else {
            mended(
                "planes-file"@,
                CheckStatus::Fail,
                path + " has "@ + decimal(violations as nat) + " schema violation(s)"@,
                "run codegraph plan lint for the full list"@,
            )
        },
    }
}

fn planes_check(root: &str, seen: &PlanesSeen) -> (r: Check)
    ensures
        r.deep_view() == plans_check(root@, *seen),
{
    let dir = join_path(root, CODEGRAPH_DIR);
    let path = join_path(dir.as_str(), "planes.yaml");
    match seen {
        PlanesSeen::Absent => check_with_fix(
            "planes-file",
            CheckStatus::Warn,
            two("no ", path.as_str()),
            "run codegraph init to scaffold one (not required: every other command works without it)",
        ),
        PlanesSeen::Unreadable(e) => check_with_fix(
            "planes-file",
            CheckStatus::Fail,
            three(path.as_str(), " does not parse: ", e.as_str()),
            "run codegraph plan lint for the full list",
        ),
        PlanesSeen::Read { planes, items, violations } => {
            if *violations == 0 {
                let mut detail = path;
                detail.append(" is valid: ");
                detail.append(decimal_text(*planes as u64).as_str());
                detail.append(" plane(s), ");
                detail.append(decimal_text(*items as u64).as_str());
                detail.append(" work item(s)");
                check("planes-file", CheckStatus::Pass, detail)
            } else {
                let mut detail = path;
                detail.append(" has ");
                detail.append(decimal_text(*violations as u64).as_str());
                detail.append(" schema violation(s)");
                check_with_fix(
                    "planes-file",
                    CheckStatus::Fail,
                    detail,
                    "run codegraph plan lint for the full list",
                )
            }
        },
    }
}

// ---- the store -----------------------------------------------------------------------------------

/// The store as it was found.
#[derive(Debug)]
pub enum StoreSeen {
    /// It did not open, and why.
    Closed(String),
    /// It opened. A probe of its schema, and the counts of the project's rows.
    Opened { schema: Result<(), String>, nodes: Result<i64, String>, edges: Result<i64, String> },
}

/// The address of the store, or why it cannot be told.
pub open spec fn store_address(options: DoctorOptions, config: FoundConfig) -> Result<Seq<char>, Seq<char>> {
    match given_setting(options.db_url.deep_view()) {
        Some(url) => Ok(url),
        None => match found_value(config, options.root@, DB_URL_KEY@) {
            Ok(Some(url)) => Ok(anchored(url, options.root@)),
            Ok(None) => Ok(anchored("surrealkv://"@ + DEFAULT_DB_PATH@, options.root@)),
            Err(e) => Err(e),
        },
    }
}

/// The address of the store, or why it cannot be told.
pub fn store_url(options: &DoctorOptions, config: &Result<Option<String>, String>) -> (r: Result<String, String>)
    ensures
        match r {
            Ok(url) => store_address(*options, config_seen(config)) == Ok::<_, Seq<char>>(url@),
            Err(e) => store_address(*options, config_seen(config)) == Err::<Seq<char>, _>(e@),
        },
{
    let explicit: Option<&str> = match &options.db_url {
        Some(url) => Some(url.as_str()),
        None => None,
    };
    match config {
        Ok(Some(text)) => db_url(explicit, options.root.as_str(), Some(text.as_str())),
        Ok(None) => db_url(explicit, options.root.as_str(), None),
        Err(e) => {
            if let Some(url) = explicit {
                let url = trim_text(url);
                if !url.as_str().is_empty() {
                    return Ok(url);
                }
            }
            Err(e.as_str().to_owned())
        },
    }
}

/// Does the store open, has it a schema, and does it hold the project?
pub open spec fn store_part(project_id: Seq<char>, url: Seq<char>, seen: StoreSeen) -> Seq<CheckView> {
    match seen {
        StoreSeen::Closed(raw) => seq![
            if has_part(raw@, "is already locked"@) {
                mended(
                    "store-open"@,
                    CheckStatus::Fail,
                    url + " is open in another process, and it allows one writer at a time"@,
                    "close the other codegraph process (an MCP \"codegraph serve\" left running is the usual one), or pass --db-url to use a different store"@,
                )
            } else {
                mended(
                    "store-open"@,
                    CheckStatus::Fail,
                    url + " will not open: "@ + raw@,
                    "check the url and that the path is writable, or pass --db-url"@,
                )
            },
        ],
        StoreSeen::Opened { schema, nodes, edges } => seq![
            plain("store-open"@, CheckStatus::Pass, "opened for writing"@),
            schema_part(schema),
            indexed_part(project_id, schema, nodes, edges),
        ],
    }
}

pub open spec fn schema_part(schema: Result<(), String>) -> CheckView {
    match schema {
        Ok(_) => plain("schema"@, CheckStatus::Pass, "code_node and code_edge are defined"@),
        Err(e) => mended(
            "schema"@,
            CheckStatus::Warn,
            "the store carries no codegraph schema yet: "@ + e@,
            "run codegraph index, which applies the schema before it writes"@,
        ),
    }
}

/// A store without a schema holds no project; one with a schema is asked, and
/// a failed question is no answer of zero.
pub open spec fn indexed_part(
    project_id: Seq<char>,
    schema: Result<(), String>,
    nodes: Result<i64, String>,
    edges: Result<i64, String>,
) -> CheckView {
    let name = "project-indexed"@;
    if schema is Err {
        mended(
            name,
            CheckStatus::Warn,
            "project \""@ + project_id + "\" cannot have been indexed into a store with no schema"@,
            "run codegraph index"@,
        )
    } else {
        match (nodes, edges) {
            (Ok(n), Ok(e)) => if n == 0 {
                mended(
                    name,
                    CheckStatus::Warn,
                    "project \""@ + project_id + "\" has no nodes in this store"@,
                    "run codegraph index"@,
                )
            } else {
                plain(
                    name,
                    CheckStatus::Pass,
                    "project \""@ + project_id + "\": "@ + signed_decimal(n as int) + " nodes, "@ + signed_decimal(
                        e as int,
                    ) + " edges"@,
                )
            },
            (Err(e), _) => mended(
                name,
                CheckStatus::Fail,
                "cannot count rows for \""@ + project_id + "\": "@ + e@,
                "run codegraph index to rebuild the store"@,
            ),
            (_, Err(e)) => mended(
                name,
                CheckStatus::Fail,
                "cannot count rows for \""@ + project_id + "\": "@ + e@,
                "run codegraph index to rebuild the store"@,
            ),
        }
    }
}

fn schema_check(schema: &Result<(), String>) -> (r: Check)
    ensures
        r.deep_view() == schema_part(*schema),
{
    match schema {
        Ok(_) => check("schema", CheckStatus::Pass, "code_node and code_edge are defined".to_owned()),
        Err(e) => check_with_fix(
            "schema",
            CheckStatus::Warn,
            two("the store carries no codegraph schema yet: ", e.as_str()),
            "run codegraph index, which applies the schema before it writes",
        ),
    }
}

fn count_failed(project_id: &str, e: &str) -> (r: Check)
    ensures
        r.deep_view() == mended(
            "project-indexed"@,
            CheckStatus::Fail,
            "cannot count rows for \""@ + project_id@ + "\": "@ + e@,
            "run codegraph index to rebuild the store"@,
        ),
{
    let mut detail = three("cannot count rows for \"", project_id, "\": ");
    detail.append(e);
    check_with_fix("project-indexed", CheckStatus::Fail, detail, "run codegraph index to rebuild the store")
}

fn indexed_check(
    project_id: &str,
    schema: &Result<(), String>,
    nodes: &Result<i64, String>,
    edges: &Result<i64, String>,
) -> (r: Check)
    ensures
        r.deep_view() == indexed_part(project_id@, *schema, *nodes, *edges),
{
    if schema.is_err() {
        return check_with_fix(
            "project-indexed",
            CheckStatus::Warn,
            three("project \"", project_id, "\" cannot have been indexed into a store with no schema"),
            "run codegraph index",
        );
    }
    match (nodes, edges) {
        (Ok(n), Ok(e)) => {
            if *n == 0 {
                check_with_fix(
                    "project-indexed",
                    CheckStatus::Warn,
                    three("project \"", project_id, "\" has no nodes in this store"),
                    "run codegraph index",
                )
            } else {
                let mut detail = three("project \"", project_id, "\": ");
                detail.append(signed_text(*n).as_str());
                detail.append(" nodes, ");
                detail.append(signed_text(*e).as_str());
                detail.append(" edges");
                check("project-indexed", CheckStatus::Pass, detail)
            }
        },
        (Err(e), _) => count_failed(project_id, e.as_str()),
        (_, Err(e)) => count_failed(project_id, e.as_str()),
    }
}

fn store_checks(checks: &mut Vec<Check>, project_id: &str, url: &str, seen: &StoreSeen)
    ensures
        final(checks).deep_view() == old(checks).deep_view() + store_part(project_id@, url@, *seen),
{
    let ghost before = checks.deep_view();
    match seen {
        StoreSeen::Closed(raw) => {
            if is_store_locked(raw.as_str()) {
                put(
                    checks,
                    check_with_fix(
                        "store-open",
                        CheckStatus::Fail,
                        two(url, " is open in another process, and it allows one writer at a time"),
                        "close the other codegraph process (an MCP \"codegraph serve\" left running is the usual one), or pass --db-url to use a different store",
                    ),
                );
            } else {
                put(
                    checks,
                    check_with_fix(
                        "store-open",
                        CheckStatus::Fail,
                        three(url, " will not open: ", raw.as_str()),
                        "check the url and that the path is writable, or pass --db-url",
                    ),
                );
            }
        },
        StoreSeen::Opened { schema, nodes, edges } => {
            put(checks, check("store-open", CheckStatus::Pass, "opened for writing".to_owned()));
            put(checks, schema_check(schema));
            put(checks, indexed_check(project_id, schema, nodes, edges));
        },
    }
    assert(checks.deep_view() =~= before + store_part(project_id@, url@, *seen));
}

// ---- languages -----------------------------------------------------------------------------------

/// The language of a file, by the extension of its name.
pub open spec fn file_language(path: Seq<char>) -> Option<Seq<char>> {
    let parts = components(path);
    if parts.len() == 0 {
        None
    } else {
        language_of(extension(parts.last()))
    }
}

/// The languages of some files, a file without one left out.
pub open spec fn file_languages(files: Seq<Seq<char>>) -> Seq<Seq<char>> {
    gather(files, |p: Seq<char>| file_language(p))
}

/// How often each language occurs, by its name.
pub open spec fn language_counts(files: Seq<Seq<char>>) -> Seq<Seq<char>> {
    let all = file_languages(files);
    sorted::<String>(firsts(all)).map_values(
        |l: Seq<char>| l + " "@ + decimal(places_of(all, l).len()),
    )
}

/// What there is to index, and how it was found.
pub open spec fn tree_check(root: Seq<char>, files: Seq<Seq<char>>, strategy: StrategyView) -> CheckView {
    if files.len() == 0 {
        mended(
            "languages"@,
            CheckStatus::Warn,
            "no files in a supported language under "@ + root + " ("@ + strategy.said() + ")"@,
            "check the path, and that the files are not excluded by a .gitignore rule"@,
        )
    } else {
        plain(
            "languages"@,
            CheckStatus::Pass,
            decimal(files.len()) + " file(s) via "@ + strategy.said() + ": "@ + joined(language_counts(files), ", "@),
        )
    }
}

fn collect_languages(files: &Vec<String>) -> (r: Vec<String>)
    ensures
        r.deep_view() == file_languages(files.deep_view()),
{
    let ghost all = files.deep_view();
    let ghost f = |p: Seq<char>| file_language(p);
    let mut out: Vec<String> = Vec::new();
    let mut i: usize = 0;
    assert(out.deep_view() =~= gather(all.take(0), f));
    while i < files.len()
        invariant
            i <= files@.len(),
            all == files.deep_view(),
            f == (|p: Seq<char>| file_language(p)),
            out.deep_view() == gather(all.take(i as int), f),
        decreases files.len() - i,
    {
        proof {
            assert(all.len() == files@.len());
            lemma_take_next(all, i as int);
            assert(all[i as int] == files@[i as int]@);
        }
        let parts = split_components(files[i].as_str());
        if parts.len() > 0 {
            let last = parts.len() - 1;
            assert(parts.deep_view().last() == parts@[last as int]@);
            let ext = extension_of(parts[last].as_str());
            if let Some(language) = extension_to_language(ext.as_str()) {
                put(&mut out, language.to_owned());
            }
        }
        i = i + 1;
    }
    assert(all.take(i as int) =~= all);
    out
}

fn each_once(all: &Vec<String>) -> (r: Vec<String>)
    ensures
        r.deep_view() == firsts(all.deep_view()),
{
    let ghost s = all.deep_view();
    let mut out: Vec<String> = Vec::new();
    let mut i: usize = 0;
    assert(out.deep_view() =~= firsts(s.take(0)));
    while i < all.len()
        invariant
            i <= all@.len(),
            s == all.deep_view(),
            out.deep_view() == firsts(s.take(i as int)),
        decreases all.len() - i,
    {
        proof {
            assert(s.len() == all@.len());
            lemma_take_next(s, i as int);
            assert(s[i as int] == all@[i as int]@);
        }
        put_first(&mut out, all[i].as_str());
        i = i + 1;
    }
    assert(s.take(i as int) =~= s);
    out
}

fn count_languages(files: &Vec<String>) -> (r: Vec<String>)
    ensures
        r.deep_view() == language_counts(files.deep_view()),
{
    let all = collect_languages(files);
    let ghost s = all.deep_view();
    let names = sort_keys(each_once(&all));
    let index = SortedIndex::build(all);
    let ghost want = language_counts(files.deep_view());
    let mut out: Vec<String> = Vec::new();
    let mut i: usize = 0;
    assert(out.deep_view() =~= want.take(0));
    while i < names.len()
        invariant
            i <= names@.len(),
            index.wf(),
            index.keys() == s,
            s == file_languages(files.deep_view()),
            names.deep_view() == sorted::<String>(firsts(s)),
            want == language_counts(files.deep_view()),
            out.deep_view() == want.take(i as int),
        decreases names.len() - i,
    {
        proof {
            assert(want.len() == names@.len());
            lemma_take_next(want, i as int);
            assert(names.deep_view()[i as int] == names@[i as int]@);
        }
        let places = index.places(&names[i]);
        let mut line = names[i].as_str().to_owned();
        line.append(" ");
        line.append(decimal_text(places.len() as u64).as_str());
        put(&mut out, line);
        i = i + 1;
    }
    assert(want.len() == names@.len());
    assert(want.take(i as int) =~= want);
    out
}

fn languages_check(root: &str, files: &Vec<String>, strategy: &DiscoveryStrategy) -> (r: Check)
    ensures
        r.deep_view() == tree_check(root@, files.deep_view(), strategy.deep_view()),
{
    if files.len() == 0 {
        let mut detail = "no files in a supported language under ".to_owned();
        detail.append(root);
        detail.append(" (");
        detail.append(strategy.describe().as_str());
        detail.append(")");
        return check_with_fix(
            "languages",
            CheckStatus::Warn,
            detail,
            "check the path, and that the files are not excluded by a .gitignore rule",
        );
    }
    let mut detail = decimal_text(files.len() as u64);
    detail.append(" file(s) via ");
    detail.append(strategy.describe().as_str());
    detail.append(": ");
    let counts = count_languages(files);
    detail.append(join_texts(&counts, ", ").as_str());
    check("languages", CheckStatus::Pass, detail)
}

// ---- the report ----------------------------------------------------------------------------------

/// The verdict of the first check of a name.
pub open spec fn status_of(checks: Seq<CheckView>, name: Seq<char>) -> Option<CheckStatus>
    decreases checks.len(),
{
    if checks.len() == 0 {
        None
    } else if checks[0].name == name {
        Some(checks[0].status)
    } else {
        status_of(checks.skip(1), name)
    }
}

fn find_status(checks: &Vec<Check>, name: &str) -> (r: Option<CheckStatus>)
    ensures
        r == status_of(checks.deep_view(), name@),
{
    let ghost all = checks.deep_view();
    let mut i: usize = 0;
    assert(all.skip(0) =~= all);
    while i < checks.len()
        invariant
            i <= checks@.len(),
            all == checks.deep_view(),
            status_of(all, name@) == status_of(all.skip(i as int), name@),
        decreases checks.len() - i,
    {
        proof {
            assert(all.len() == checks@.len());
            assert(all.skip(i as int)[0] == checks@[i as int].deep_view());
            assert(all.skip(i as int).skip(1) =~= all.skip(i + 1));
        }
        if same_text(checks[i].name.as_str(), name) {
            return Some(checks[i].status);
        }
        i = i + 1;
    }
    None
}

/// The one command to run next, told from what the checks before found.
pub open spec fn next_command(checks: Seq<CheckView>, root: Seq<char>) -> CheckView {
    let said = if status_of(checks, "store-url"@) == Some(CheckStatus::Fail) || status_of(checks, "store-open"@) == Some(
        CheckStatus::Fail,
    ) {
        "fix the store problem above, then run codegraph index"@
    } else if status_of(checks, "languages"@) == Some(CheckStatus::Warn) {
        "there is nothing here to index. Point codegraph at a source tree: codegraph index <path>, from "@ + root
    } else if status_of(checks, "project-indexed"@) == Some(CheckStatus::Pass) {
        "codegraph query --kind hubs"@
    } else {
        "codegraph index"@
    };
    plain("next"@, CheckStatus::Pass, said)
}

fn next_command_check(checks: &Vec<Check>, root: &str) -> (r: Check)
    ensures
        r.deep_view() == next_command(checks.deep_view(), root@),
{
    match (find_status(checks, "store-url"), find_status(checks, "store-open")) {
        (Some(CheckStatus::Fail), _) | (_, Some(CheckStatus::Fail)) => {
            return check(
                "next",
                CheckStatus::Pass,
                "fix the store problem above, then run codegraph index".to_owned(),
            );
        },
        _ => {},
    }
    match find_status(checks, "languages") {
        Some(CheckStatus::Warn) => {
            return check(
                "next",
                CheckStatus::Pass,
                two(
                    "there is nothing here to index. Point codegraph at a source tree: codegraph index <path>, from ",
                    root,
                ),
            );
        },
        _ => {},
    }
    match find_status(checks, "project-indexed") {
        Some(CheckStatus::Pass) => check("next", CheckStatus::Pass, "codegraph query --kind hubs".to_owned()),
        _ => check("next", CheckStatus::Pass, "codegraph index".to_owned()),
    }
}

/// What was observed of a project.
#[derive(Debug)]
pub struct Observed {
    /// The version of this program.
    pub version: String,
    /// Does the root hold a repository's marker?
    pub marked: bool,
    pub config: Result<Option<String>, String>,
    pub planes: PlanesSeen,
    pub store: StoreSeen,
    pub files: Vec<String>,
    pub strategy: DiscoveryStrategy,
}

/// The checks on a project before its store is looked for.
pub open spec fn place_checks(options: DoctorOptions, seen: Observed) -> Seq<CheckView> {
    seq![
        plain("version"@, CheckStatus::Pass, "codegraph "@ + seen.version@),
        root_check(options.root@, seen.marked),
        plain("project-id"@, CheckStatus::Pass, options.project_id@ + " from "@ + options.project_id_source@),
        settings_check(options.root@, config_seen(&seen.config)),
        plans_check(options.root@, seen.planes),
    ]
}

/// The checks on where the store is and whether it opens.
pub open spec fn store_checked(options: DoctorOptions, seen: Observed) -> Seq<CheckView> {
    match store_address(options, config_seen(&seen.config)) {
        Err(e) => seq![
            mended(
                "store-url"@,
                CheckStatus::Fail,
                "cannot work out which store to use: "@ + e,
                "pass --db-url explicitly"@,
            ),
        ],
        Ok(url) => seq![plain("store-url"@, CheckStatus::Pass, url)] + store_part(options.project_id@, url, seen.store),
    }
}

/// The checks from which the command to run next is told.
pub open spec fn looked_at(options: DoctorOptions, seen: Observed) -> Seq<CheckView> {
    (place_checks(options, seen) + store_checked(options, seen)).push(
        tree_check(options.root@, seen.files.deep_view(), seen.strategy.deep_view()),
    )
}

/// All checks. Where the store's address cannot be told, or the store does not
/// open, the rest is still looked at.
pub open spec fn all_checks(options: DoctorOptions, seen: Observed) -> Seq<CheckView> {
    looked_at(options, seen).push(next_command(looked_at(options, seen), options.root@))
}

/// Every check on what was observed, in the order in which one would ask.
pub fn run(options: &DoctorOptions, seen: &Observed) -> (r: DoctorReport)
    ensures
        r.project_id@ == options.project_id@,
        r.root@ == options.root@,
        r.checks.deep_view() == all_checks(*options, *seen),
{
    let root = options.root.as_str();
    let mut checks: Vec<Check> = Vec::new();
    put(&mut checks, check("version", CheckStatus::Pass, two("codegraph ", seen.version.as_str())));
    put(&mut checks, repo_root_check(root, seen.marked));
    put(
        &mut checks,
        check(
            "project-id",
            CheckStatus::Pass,
            three(options.project_id.as_str(), " from ", options.project_id_source.as_str()),
        ),
    );
    put(&mut checks, config_check(root, &seen.config));
    put(&mut checks, planes_check(root, &seen.planes));
    assert(checks.deep_view() =~= place_checks(*options, *seen));
    match store_url(options, &seen.config) {
        Err(e) => {
            put(
                &mut checks,
                check_with_fix(
                    "store-url",
                    CheckStatus::Fail,
                    two("cannot work out which store to use: ", e.as_str()),
                    "pass --db-url explicitly",
                ),
            );
        },
        Ok(url) => {
            put(&mut checks, check("store-url", CheckStatus::Pass, url.as_str().to_owned()));
            store_checks(&mut checks, options.project_id.as_str(), url.as_str(), &seen.store);
        },
    }
    assert(checks.deep_view() =~= place_checks(*options, *seen) + store_checked(*options, *seen));
    put(&mut checks, languages_check(root, &seen.files, &seen.strategy));
    let next = next_command_check(&checks, root);
    put(&mut checks, next);
    DoctorReport {
        project_id: options.project_id.as_str().to_owned(),
        root: options.root.as_str().to_owned(),
        checks,
    }
}

/// A check that failed says what mends it.
pub proof fn a_failed_check_has_a_remedy(options: DoctorOptions, seen: Observed)
    ensures
        forall|i: int|
            0 <= i < all_checks(options, seen).len() && (#[trigger] all_checks(options, seen)[i]).status
                == CheckStatus::Fail ==> all_checks(options, seen)[i].remedy is Some,
{
}

proof fn lemma_first_of_name(checks: Seq<CheckView>, name: Seq<char>, k: int)
    requires
        0 <= k < checks.len(),
        checks[k].name == name,
        forall|i: int| 0 <= i < k ==> (#[trigger] checks[i]).name != name,
    ensures
        status_of(checks, name) == Some(checks[k].status),
    decreases k,
{
    if k > 0 {
        assert(checks[0].name != name);
        let rest = checks.skip(1);
        assert forall|i: int| 0 <= i < k - 1 implies (#[trigger] rest[i]).name != name by {
            assert(rest[i] == checks[i + 1]);
        }
        lemma_first_of_name(rest, name, k - 1);
    }
}

/// One failure does not hide another: whatever was found of the place and the
/// store, the languages are told, and then the command to run next.
pub proof fn every_diagnosis_ends_with_what_to_run(options: DoctorOptions, seen: Observed)
    ensures
        ({
            let all = all_checks(options, seen);
            &&& all.len() >= 8
            &&& all[all.len() - 2] == tree_check(options.root@, seen.files.deep_view(), seen.strategy.deep_view())
            &&& all.last().name == "next"@
        }),
{
}

/// The command to run next does not contradict the store's check: where the
/// store cannot be told or did not open, it sends the user to mend that.
pub proof fn the_next_command_follows_the_store(options: DoctorOptions, seen: Observed)
    requires
        store_address(options, config_seen(&seen.config)) is Err || seen.store is Closed,
    ensures
        all_checks(options, seen).last().name == "next"@,
        all_checks(options, seen).last().detail == "fix the store problem above, then run codegraph index"@,
{
    let looked = looked_at(options, seen);
    reveal_strlit("store-open");
    reveal_strlit("version");
    reveal_strlit("repo-root");
    reveal_strlit("project-id");
    reveal_strlit("config-file");
    reveal_strlit("planes-file");
    reveal_strlit("store-url");
    assert("store-open"@[0] != "project-id"@[0]);
    assert("store-url"@[0] != "repo-root"@[0]);
    assert("store-url"@.len() == 9);
    assert forall|i: int| 0 <= i < 5 implies (#[trigger] looked[i]).name != "store-open"@ && looked[i].name
        != "store-url"@ by {
        assert(looked[i] == place_checks(options, seen)[i]);
    }
    assert(looked[5].name == "store-url"@);
    if store_address(options, config_seen(&seen.config)) is Err {
        lemma_first_of_name(looked, "store-url"@, 5);
    } else {
        assert(looked[6].name == "store-open"@);
        lemma_first_of_name(looked, "store-open"@, 6);
    }
}

} // verus!
