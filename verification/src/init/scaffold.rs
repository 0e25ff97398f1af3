//! The texts of the files that are written into a repository.

use vstd::prelude::*;
use crate::config::{config_value, find_setting, setting, unquoted, DEFAULT_DB_PATH, DEFAULT_TIER};
use crate::gather::gather;
use crate::index::discovery::{components, split_components};
use crate::lines::{lemma_split_ended, lemma_trim_self, lemma_trim_tail};
use crate::lookup::{lemma_take_next, places_of, put, SortedIndex};
use crate::order::{is_distinct_sorted, sort_distinct, Sortable};
use crate::text::{char_place, has_text, is_space, join_texts, joined, space, split_char, trim_start_by, trimmed};

verus! {

// ---- the settings ----------------------------------------------------------------------------

/// A line that sets a key to a value.
pub open spec fn assignment(key: Seq<char>, value: Seq<char>) -> Seq<char> {
    key + " = \""@ + value + "\""@
}

/// The lines of the settings file of a project.
pub open spec fn config_lines(project_id: Seq<char>) -> Seq<Seq<char>> {
    seq![
        "# codegraph configuration for this repository."@,
        "# Written by \"codegraph init\". Safe to commit: it holds no secrets."@,
        ""@,
        "# Project id for every codegraph command run here. An explicit"@,
        "# --project-id and the CODEGRAPH_PROJECT_ID environment variable both"@,
        "# take priority over this value."@,
        assignment("project_id"@, project_id),
        ""@,
        "# Default indexing tier for \"codegraph index\", overridden by --tier."@,
        "#   fast     definitions only, no call edges"@,
        "#   balanced adds call edges"@,
        "#   full     adds references and type annotations"@,
        assignment("tier"@, DEFAULT_TIER@),
        ""@,
        "# Where the graph lives, overridden by --db-url and SURREALDB_URL."@,
        "# A relative surrealkv path is resolved against this repository root,"@,
        "# so the same store is used whichever directory you run from. Point"@,
        "# it at ws://host:8000 to use a SurrealDB server instead."@,
        assignment("db_url"@, "surrealkv://"@ + DEFAULT_DB_PATH@),
    ]
}

/// The settings file of a project.
pub open spec fn config_text(project_id: Seq<char>) -> Seq<char> {
    joined(config_lines(project_id), "\n"@) + "\n"@
}

fn assign(key: &str, value: &str) -> (r: String)
    ensures
        r@ == assignment(key@, value@),
{
    let mut r = key.to_owned();
    r.append(" = \"");
    r.append(value);
    r.append("\"");
    r
}

fn add_line(lines: &mut Vec<String>, line: &str)
    ensures
        final(lines).deep_view() == old(lines).deep_view().push(line@),
{
    put(lines, line.to_owned());
}

/// The settings file of a project.
pub fn config_toml(project_id: &str) -> (r: String)
    ensures
        r@ == config_text(project_id@),
{
    let mut store = "surrealkv://".to_owned();
    store.append(DEFAULT_DB_PATH);
    let mut lines: Vec<String> = Vec::new();
    add_line(&mut lines, "# codegraph configuration for this repository.");
    add_line(&mut lines, "# Written by \"codegraph init\". Safe to commit: it holds no secrets.");
    add_line(&mut lines, "");
    add_line(&mut lines, "# Project id for every codegraph command run here. An explicit");
    add_line(&mut lines, "# --project-id and the CODEGRAPH_PROJECT_ID environment variable both");
    add_line(&mut lines, "# take priority over this value.");
    add_line(&mut lines, assign("project_id", project_id).as_str());
    add_line(&mut lines, "");
    add_line(&mut lines, "# Default indexing tier for \"codegraph index\", overridden by --tier.");
    add_line(&mut lines, "#   fast     definitions only, no call edges");
    add_line(&mut lines, "#   balanced adds call edges");
    add_line(&mut lines, "#   full     adds references and type annotations");
    add_line(&mut lines, assign("tier", DEFAULT_TIER).as_str());
    add_line(&mut lines, "");
    add_line(&mut lines, "# Where the graph lives, overridden by --db-url and SURREALDB_URL.");
    add_line(&mut lines, "# A relative surrealkv path is resolved against this repository root,");
    add_line(&mut lines, "# so the same store is used whichever directory you run from. Point");
    add_line(&mut lines, "# it at ws://host:8000 to use a SurrealDB server instead.");
    add_line(&mut lines, assign("db_url", store.as_str()).as_str());
    assert(lines.deep_view() =~= config_lines(project_id@));
    let mut r = join_texts(&lines, "\n");
    r.append("\n");
    r
}

// ---- what the settings say -------------------------------------------------------------------

/// A value that can be written between quotes and read back.
pub open spec fn is_writable(value: Seq<char>) -> bool {
    &&& value.len() > 0
    &&& trimmed(value) == value
    &&& !value.contains('"')
    &&& !value.contains('\n')
}

proof fn lemma_char_place(s: Seq<char>, x: char, k: int)
    requires
        0 <= k < s.len(),
        s[k] == x,
        forall|i: int| 0 <= i < k ==> s[i] != x,
    ensures
        char_place(s, x) == k,
    decreases k,
{
    if k > 0 {
        assert(s[0] != x);
        let rest = s.skip(1);
        assert forall|i: int| 0 <= i < k - 1 implies rest[i] != x by {
            assert(rest[i] == s[i + 1]);
        }
        lemma_char_place(rest, x, k - 1);
    }
}

/// What a line that sets a key says.
proof fn lemma_assignment(name: Seq<char>, value: Seq<char>, key: Seq<char>)
    requires
        name.len() > 0,
        !name.contains('='),
        !is_space(name[0]),
        !is_space(name.last()),
        is_writable(value),
    ensures
        trimmed(assignment(name, value)) == assignment(name, value),
        assignment(name, value).len() > 0,
        assignment(name, value)[0] == name[0],
        setting(assignment(name, value), key) == if key == name {
            Some("\""@ + value + "\""@)
        } else {
            None::<Seq<char>>
        },
        unquoted("\""@ + value + "\""@) == Some(value),
{
    reveal_strlit(" = \"");
    reveal_strlit("\"");
    let line = assignment(name, value);
    let n = name.len() as int;
    assert(line.len() == n + 4 + value.len() + 1);
    assert(line.last() == '"');
    assert(line[0] == name[0]);
    lemma_trim_self(line);
    assert(line[n + 1] == '=');
    assert forall|i: int| 0 <= i < n + 1 implies line[i] != '=' by {
        if i < n {
            assert(line[i] == name[i]);
            assert(name.contains(name[i]));
        }
    }
    lemma_char_place(line, '=', n + 1);
    let left = line.take(n + 1);
    assert(left.drop_last() =~= name);
    lemma_trim_tail(left);
    lemma_trim_self(name);
    let right = line.skip(n + 2);
    let quoted = "\""@ + value + "\""@;
    assert(right[0] == ' ');
    assert(right.drop_first() =~= quoted);
    assert(trim_start_by(right, space()) == trim_start_by(quoted, space()));
    lemma_trim_self(quoted);
    assert(trimmed(right) == quoted);
    let rest = quoted.skip(1);
    assert(rest =~= value + "\""@);
    assert forall|i: int| 0 <= i < value.len() implies rest[i] != '"' by {
        assert(value.contains(value[i]));
    }
    lemma_char_place(rest, '"', value.len() as int);
    assert(rest.take(value.len() as int) =~= value);
}

/// A line that is passed over when a key is looked for.
proof fn lemma_passed_over(lines: Seq<Seq<char>>, key: Seq<char>, i: nat)
    requires
        i < lines.len(),
        lines[i as int].len() > 0 ==> lines[i as int][0] == '#' && !is_space(lines[i as int].last()),
    ensures
        find_setting(lines, key, i) == find_setting(lines, key, i + 1),
{
    lemma_trim_self(lines[i as int]);
}

proof fn lemma_free(a: Seq<char>, b: Seq<char>, x: char)
    requires
        !a.contains(x),
        !b.contains(x),
    ensures
        !(a + b).contains(x),
{
    if (a + b).contains(x) {
        let i = choose|i: int| 0 <= i < (a + b).len() && (a + b)[i] == x;
        if i < a.len() {
            assert(a[i] == x);
        } else {
            assert(b[i - a.len()] == x);
        }
    }
}

proof fn lemma_assignment_free(key: Seq<char>, value: Seq<char>)
    requires
        !key.contains('\n'),
        !value.contains('\n'),
    ensures
        !assignment(key, value).contains('\n'),
{
    reveal_strlit(" = \"");
    reveal_strlit("\"");
    lemma_free(key, " = \""@, '\n');
    lemma_free(key + " = \""@, value, '\n');
    lemma_free(key + " = \""@ + value, "\""@, '\n');
}

/// The shape of the settings file: comments, blank lines and three settings.
proof fn lemma_config_lines(project_id: Seq<char>)
    requires
        is_writable(project_id),
    ensures
        forall|i: int|
            0 <= i < 19 && i != 6 && i != 12 && i != 18 ==> {
                let line = #[trigger] config_lines(project_id)[i];
                line.len() > 0 ==> line[0] == '#' && !is_space(line.last())
            },
        forall|i: int| 0 <= i < 19 ==> !(#[trigger] config_lines(project_id)[i]).contains('\n'),
        is_writable(DEFAULT_TIER@),
        is_writable("surrealkv://"@ + DEFAULT_DB_PATH@),
{
    reveal_strlit("# codegraph configuration for this repository.");
    reveal_strlit("# Written by \"codegraph init\". Safe to commit: it holds no secrets.");
    reveal_strlit("");
    reveal_strlit("# Project id for every codegraph command run here. An explicit");
    reveal_strlit("# --project-id and the CODEGRAPH_PROJECT_ID environment variable both");
    reveal_strlit("# take priority over this value.");
    reveal_strlit("# Default indexing tier for \"codegraph index\", overridden by --tier.");
    reveal_strlit("#   fast     definitions only, no call edges");
    reveal_strlit("#   balanced adds call edges");
    reveal_strlit("#   full     adds references and type annotations");
    reveal_strlit("# Where the graph lives, overridden by --db-url and SURREALDB_URL.");
    reveal_strlit("# A relative surrealkv path is resolved against this repository root,");
    reveal_strlit("# so the same store is used whichever directory you run from. Point");
    reveal_strlit("# it at ws://host:8000 to use a SurrealDB server instead.");
    reveal_strlit("project_id");
    reveal_strlit("tier");
    reveal_strlit("db_url");
    reveal_strlit("full");
    reveal_strlit("surrealkv://");
    reveal_strlit(".codegraph/graph.db");
    let store = "surrealkv://"@ + DEFAULT_DB_PATH@;
    lemma_free("surrealkv://"@, DEFAULT_DB_PATH@, '\n');
    lemma_free("surrealkv://"@, DEFAULT_DB_PATH@, '"');
    lemma_trim_self(DEFAULT_TIER@);
    lemma_trim_self(store);
    lemma_assignment_free("project_id"@, project_id);
    lemma_assignment_free("tier"@, DEFAULT_TIER@);
    lemma_assignment_free("db_url"@, store);
}

proof fn lemma_setting_at(lines: Seq<Seq<char>>, name: Seq<char>, value: Seq<char>, key: Seq<char>, i: nat)
    requires
        i < lines.len(),
        lines[i as int] == assignment(name, value),
        name.len() > 0,
        !name.contains('='),
        !is_space(name[0]),
        !is_space(name.last()),
        name[0] != '#',
        name[0] != '[',
        is_writable(value),
    ensures
        key == name ==> find_setting(lines, key, i) == Ok::<_, crate::config::ConfigFault>(Some(value)),
        key != name ==> find_setting(lines, key, i) == find_setting(lines, key, i + 1),
{
    lemma_assignment(name, value, key);
}

/// Every key that is written into the settings file is read back from it.
pub proof fn the_settings_read_back(project_id: Seq<char>)
    requires
        is_writable(project_id),
    ensures
        config_value(Some(config_text(project_id)), "project_id"@) == Ok::<_, crate::config::ConfigFault>(
            Some(project_id),
        ),
        config_value(Some(config_text(project_id)), "tier"@) == Ok::<_, crate::config::ConfigFault>(
            Some(DEFAULT_TIER@),
        ),
        config_value(Some(config_text(project_id)), "db_url"@) == Ok::<_, crate::config::ConfigFault>(
            Some("surrealkv://"@ + DEFAULT_DB_PATH@),
        ),
{
    let own = config_lines(project_id);
    lemma_config_lines(project_id);
    lemma_split_ended(own);
    let all = split_char(config_text(project_id), '\n');
    assert(all == own.push(Seq::empty()));
    reveal_strlit("project_id");
    reveal_strlit("tier");
    reveal_strlit("db_url");
    assert forall|key: Seq<char>| #[trigger] find_setting(all, key, 0) == find_setting(all, key, 6) by {
        lemma_passed(all, own, key, 0, 6);
    }
    assert forall|key: Seq<char>| #[trigger] find_setting(all, key, 7) == find_setting(all, key, 12) by {
        lemma_passed(all, own, key, 7, 12);
    }
    assert forall|key: Seq<char>| #[trigger] find_setting(all, key, 13) == find_setting(all, key, 18) by {
        lemma_passed(all, own, key, 13, 18);
    }
    let store = "surrealkv://"@ + DEFAULT_DB_PATH@;
    lemma_setting_at(all, "project_id"@, project_id, "project_id"@, 6);
    lemma_setting_at(all, "project_id"@, project_id, "tier"@, 6);
    lemma_setting_at(all, "project_id"@, project_id, "db_url"@, 6);
    lemma_setting_at(all, "tier"@, DEFAULT_TIER@, "tier"@, 12);
    lemma_setting_at(all, "tier"@, DEFAULT_TIER@, "db_url"@, 12);
    lemma_setting_at(all, "db_url"@, store, "db_url"@, 18);
}

proof fn lemma_passed(all: Seq<Seq<char>>, own: Seq<Seq<char>>, key: Seq<char>, from: nat, to: nat)
    requires
        from <= to <= own.len(),
        all == own.push(Seq::empty()),
        forall|i: int|
            from <= i < to ==> {
                let line = #[trigger] own[i];
                line.len() > 0 ==> line[0] == '#' && !is_space(line.last())
            },
    ensures
        find_setting(all, key, from) == find_setting(all, key, to),
    decreases to - from,
{
    if from < to {
        assert(all[from as int] == own[from as int]);
        lemma_passed_over(all, key, from);
        lemma_passed(all, own, key, from + 1, to);
    }
}

// ---- the plans -------------------------------------------------------------------------------

/// The lines of the first plans of a project, up to the file they touch.
pub open spec fn planes_lines(project_id: Seq<char>, anchor: Seq<char>) -> Seq<Seq<char>> {
    seq![
        "# The roadmap as hyperedges over the code graph."@,
        "#"@,
        "# Each work item names the set of files and symbols it touches. Once"@,
        "# \"codegraph plan sync\" has run, that set is queryable: which planned"@,
        "# work covers this file, which two active items collide, which plan has"@,
        "# gone stale because the code it names no longer exists."@,
        "#"@,
        "# Replace the example below with real work. Delete the file if you do"@,
        "# not want a roadmap; nothing else depends on it."@,
        "#"@,
        "# The example touches were picked to exist in this repository, so the"@,
        "# first \"codegraph plan sync\" resolves all of them. Point them at the"@,
        "# code your work actually changes."@,
        "version: 1"@,
        "project: "@ + project_id,
        ""@,
        "planes:"@,
        "  - id: now"@,
        "    title: Work in flight"@,
        "    status: active"@,
        "    horizon: now"@,
        "    summary: Replace this plane with the work actually underway."@,
        "    items:"@,
        "      - id: W-1"@,
        "        title: Describe one unit of work here"@,
        "        kind: feature"@,
        "        status: planned"@,
        "        touches:"@,
        "          - file: "@ + anchor,
    ]
}

/// The first plans of a project. They touch a file that is there and, where
/// there is one, the directory of the code.
pub open spec fn planes_text(project_id: Seq<char>, anchor: Seq<char>, dir: Option<Seq<char>>) -> Seq<char> {
    joined(planes_lines(project_id, anchor), "\n"@) + "\n"@ + match dir {
        Some(d) => "          - glob: \""@ + d + "/**\"\n"@,
        None => Seq::empty(),
    }
}

/// The first plans of a project.
pub fn starter_planes(project_id: &str, anchor: &str, dir: Option<&str>) -> (r: String)
    ensures
        r@ == planes_text(project_id@, anchor@, crate::config::text_of(dir)),
{
    let mut project = "project: ".to_owned();
    project.append(project_id);
    let mut file = "          - file: ".to_owned();
    file.append(anchor);
    let mut lines: Vec<String> = Vec::new();
    add_line(&mut lines, "# The roadmap as hyperedges over the code graph.");
    add_line(&mut lines, "#");
    add_line(&mut lines, "# Each work item names the set of files and symbols it touches. Once");
    add_line(&mut lines, "# \"codegraph plan sync\" has run, that set is queryable: which planned");
    add_line(&mut lines, "# work covers this file, which two active items collide, which plan has");
    add_line(&mut lines, "# gone stale because the code it names no longer exists.");
    add_line(&mut lines, "#");
    add_line(&mut lines, "# Replace the example below with real work. Delete the file if you do");
    add_line(&mut lines, "# not want a roadmap; nothing else depends on it.");
    add_line(&mut lines, "#");
    add_line(&mut lines, "# The example touches were picked to exist in this repository, so the");
    add_line(&mut lines, "# first \"codegraph plan sync\" resolves all of them. Point them at the");
    add_line(&mut lines, "# code your work actually changes.");
    add_line(&mut lines, "version: 1");
    add_line(&mut lines, project.as_str());
    add_line(&mut lines, "");
    add_line(&mut lines, "planes:");
    add_line(&mut lines, "  - id: now");
    add_line(&mut lines, "    title: Work in flight");
    add_line(&mut lines, "    status: active");
    add_line(&mut lines, "    horizon: now");
    add_line(&mut lines, "    summary: Replace this plane with the work actually underway.");
    add_line(&mut lines, "    items:");
    add_line(&mut lines, "      - id: W-1");
    add_line(&mut lines, "        title: Describe one unit of work here");
    add_line(&mut lines, "        kind: feature");
    add_line(&mut lines, "        status: planned");
    add_line(&mut lines, "        touches:");
    add_line(&mut lines, file.as_str());
    assert(lines.deep_view() =~= planes_lines(project_id@, anchor@));
    let mut r = join_texts(&lines, "\n");
    r.append("\n");
    let ghost head = r@;
    match dir {
        Some(d) => {
            let mut glob = "          - glob: \"".to_owned();
            glob.append(d);
            glob.append("/**\"\n");
            r.append(glob.as_str());
        },
        None => {
            assert(head + Seq::<char>::empty() =~= head);
        },
    }
    r
}

/// The readme at the root, of the names of the files there.
pub open spec fn readme_of(present: Seq<Seq<char>>) -> Option<Seq<char>> {
    if present.contains("README.md"@) {
        Some("README.md"@)
    } else if present.contains("README.rst"@) {
        Some("README.rst"@)
    } else if present.contains("README"@) {
        Some("README"@)
    } else {
        None
    }
}

/// The readme at the root, of the names of the files there.
pub fn root_readme(present: &Vec<String>) -> (r: Option<&'static str>)
    ensures
        crate::config::text_of(r) == readme_of(present.deep_view()),
{
    if has_text(present, "README.md") {
        Some("README.md")
    } else if has_text(present, "README.rst") {
        Some("README.rst")
    } else if has_text(present, "README") {
        Some("README")
    } else {
        None
    }
}

// ---- the busiest directory -------------------------------------------------------------------

/// The top-level directories of some files, one for each file that is in one.
pub open spec fn top_dirs(files: Seq<Seq<char>>) -> Seq<Seq<char>> {
    gather(
        files,
        |p: Seq<char>|
            if components(p).len() >= 2 {
                Some(components(p)[0])
            } else {
                None
            },
    )
}

/// How many files are in a directory.
pub open spec fn votes(dirs: Seq<Seq<char>>, d: Seq<char>) -> nat {
    places_of(dirs, d).len()
}

/// Is a directory the one with the most files and, of several such ones, the
/// first by name?
pub open spec fn is_busiest(dirs: Seq<Seq<char>>, d: Seq<char>) -> bool {
    &&& dirs.contains(d)
    &&& forall|e: Seq<char>| #[trigger]
        dirs.contains(e) && e != d ==> votes(dirs, e) < votes(dirs, d) || (votes(dirs, e) == votes(dirs, d)
            && String::before(d, e))
}

/// The busiest directory, where there is one.
pub open spec fn busiest(dirs: Seq<Seq<char>>) -> Option<Seq<char>> {
    if dirs.len() == 0 {
        None
    } else {
        Some(choose|d: Seq<char>| is_busiest(dirs, d))
    }
}

/// There is one busiest directory.
pub proof fn the_busiest_directory_is_one(dirs: Seq<Seq<char>>, a: Seq<char>, b: Seq<char>)
    requires
        is_busiest(dirs, a),
        is_busiest(dirs, b),
    ensures
        a == b,
{
    if a != b {
        assert(dirs.contains(a));
        assert(dirs.contains(b));
        String::before_transitive(a, b, a);
        String::before_irreflexive(a);
    }
}

fn collect_dirs(files: &Vec<String>) -> (r: Vec<String>)
    ensures
        r.deep_view() == top_dirs(files.deep_view()),
{
    let ghost all = files.deep_view();
    let ghost f = |p: Seq<char>|
        if components(p).len() >= 2 {
            Some(components(p)[0])
        } else {
            None
        };
    let mut out: Vec<String> = Vec::new();
    let mut i: usize = 0;
    assert(out.deep_view() =~= gather(all.take(0), f));
    while i < files.len()
        invariant
            i <= files@.len(),
            all == files.deep_view(),
            f == (|p: Seq<char>|
                if components(p).len() >= 2 {
                    Some(components(p)[0])
                } else {
                    None
                }),
            out.deep_view() == gather(all.take(i as int), f),
        decreases files.len() - i,
    {
        proof {
            assert(all.len() == files@.len());
            lemma_take_next(all, i as int);
            assert(all[i as int] == files@[i as int]@);
        }
        let parts = split_components(files[i].as_str());
        if parts.len() >= 2 {
            assert(parts.deep_view()[0] == parts@[0]@);
            put(&mut out, parts[0].as_str().to_owned());
        }
        i = i + 1;
    }
    assert(all.take(i as int) =~= all);
    out
}

/// The top-level directory that holds the most of some files, given by their
/// paths below the root; nothing where every file is at the root.
pub fn busiest_source_dir(files: &Vec<String>) -> (r: Option<String>)
    ensures
        r.deep_view() == busiest(top_dirs(files.deep_view())),
        r matches Some(d) ==> is_busiest(top_dirs(files.deep_view()), d@),
{
    let dirs = collect_dirs(files);
    let ghost all = dirs.deep_view();
    if dirs.len() == 0 {
        return None;
    }
    let names = sort_distinct(crate::text::copy_texts(&dirs));
    let ghost each = names.deep_view();
    let index = SortedIndex::build(dirs);
    proof {
        assert(all.contains(all[0]));
        assert(each.contains(all[0]));
    }
    let mut best: usize = 0;
    let mut most: usize = index.places(&names[0]).len();
    let mut i: usize = 1;
    assert(each[0] == names@[0]@);
    while i < names.len()
        invariant
            0 <= best < i <= names@.len(),
            each == names.deep_view(),
            index.wf(),
            index.keys() == all,
            is_distinct_sorted::<String>(all, each),
            most == votes(all, each[best as int]),
            forall|k: int| 0 <= k < i ==> votes(all, #[trigger] each[k]) <= most,
            forall|k: int| 0 <= k < best ==> votes(all, #[trigger] each[k]) < most,
        decreases names.len() - i,
    {
        assert(each[i as int] == names@[i as int]@);
        let n: usize = index.places(&names[i]).len();
        if n > most {
            best = i;
            most = n;
        }
        i = i + 1;
    }
    let ghost d = each[best as int];
    proof {
        assert(each.contains(d));
        assert forall|e: Seq<char>| #[trigger] all.contains(e) && e != d implies votes(all, e) < votes(all, d) || (
        votes(all, e) == votes(all, d) && String::before(d, e)) by {
            assert(each.contains(e));
            let k = choose|k: int| 0 <= k < each.len() && each[k] == e;
            assert(votes(all, each[k]) <= most);
            if k > best {
                assert(String::before(each[best as int], each[k]));
            }
        }
        assert(is_busiest(all, d));
        let got = choose|d: Seq<char>| is_busiest(all, d);
        the_busiest_directory_is_one(all, d, got);
        assert(d == names@[best as int]@);
    }
    Some(names[best].as_str().to_owned())
}

} // verus!
