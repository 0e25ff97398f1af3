//! Setting a repository up, and diagnosing one.

use codegraph::config::read_config_key;
use codegraph::doctor::{
    run as diagnose, store_url, Check, CheckStatus, DoctorOptions, DoctorReport, Observed, PlanesSeen, StoreSeen,
};
use codegraph::index::DiscoveryStrategy;
use codegraph::init::scaffold::{busiest_source_dir, config_toml, root_readme, starter_planes};
use codegraph::init::{gitignore_patch, patch_gitignore, run, InitOptions, RepositorySeen};

fn texts(v: &[&str]) -> Vec<String> {
    v.iter().map(|s| s.to_string()).collect()
}

#[test]
fn the_scaffold_names_the_directory_the_code_is_actually_in() {
    let sources = texts(&["lib/deep/f0.rs", "lib/deep/f1.rs", "lib/deep/f2.rs", "tools/one.rs", "build.rs"]);
    let present = texts(&["README.md", "build.rs"]);
    let dir = busiest_source_dir(&sources);
    assert_eq!(dir, Some("lib".to_string()));
    assert_eq!(root_readme(&present), Some("README.md"));

    let text = starter_planes("demo", root_readme(&present).unwrap(), dir.as_deref());
    assert!(text.contains("- file: README.md"), "{text}");
    assert!(text.contains("- glob: \"lib/**\""), "{text}");
    assert!(!text.contains("src/**"), "{text}");
}

#[test]
fn a_tree_with_no_source_directory_still_scaffolds_a_resolvable_touch() {
    assert_eq!(busiest_source_dir(&vec![]), None);
    let options = InitOptions { root: "/r".to_string(), project_id: "demo".to_string(), force: false };
    let seen = RepositorySeen { config: false, planes: false, root_files: vec![], sources: vec![] };
    let made = run(&options, &seen);
    let text = &made.writes[1].contents;
    assert!(text.contains("- file: .codegraph/config.toml"), "{text}");
    assert!(!text.contains("glob:"), "a glob that matches nothing must be omitted:\n{text}");
}

#[test]
fn whole_directory_rule_is_rewritten_so_negations_can_match() {
    let (text, _) = gitignore_patch("/target\n.codegraph/\n.DS_Store\n").expect("must patch");
    assert_eq!(
        text,
        "/target\n.codegraph/*\n!.codegraph/planes.yaml\n!.codegraph/config.toml\n.DS_Store\n"
    );
    // And the result is a fixed point.
    assert!(gitignore_patch(&text).is_none(), "must be idempotent");
}

#[test]
fn a_gitignore_with_no_codegraph_rule_gets_the_lines_appended() {
    let (text, _) = gitignore_patch("/target\n").expect("must patch");
    assert!(text.starts_with("/target\n"));
    assert!(text.contains("\n.codegraph/*\n"));
    assert!(text.contains("\n!.codegraph/planes.yaml\n"));
    assert!(text.contains("\n!.codegraph/config.toml\n"));
    assert!(gitignore_patch(&text).is_none(), "must be idempotent");
}

#[test]
fn init_is_idempotent_and_never_replaces_the_planes_file() {
    let mut options = InitOptions { root: "/r".to_string(), project_id: "demo".to_string(), force: false };
    let mut seen = RepositorySeen { config: false, planes: false, root_files: vec![], sources: vec![] };

    let first = run(&options, &seen);
    assert_eq!(first.report.created, vec!["/r/.codegraph/config.toml", "/r/.codegraph/planes.yaml"]);
    assert!(first.report.skipped.is_empty());
    assert_eq!(first.writes.len(), 2);

    seen.config = true;
    seen.planes = true;
    let second = run(&options, &seen);
    assert!(second.report.created.is_empty(), "nothing new the second time");
    assert_eq!(second.report.skipped.len(), 2);
    assert!(second.writes.is_empty());

    // Even by force.
    options.force = true;
    let forced = run(&options, &seen);
    assert_eq!(forced.report.overwritten, vec!["/r/.codegraph/config.toml"]);
    assert_eq!(forced.writes.len(), 1);
    assert_eq!(forced.writes[0].path, "/r/.codegraph/config.toml");

    let (ignore, _) = patch_gitignore(Some("/target\n.codegraph/\n"));
    let ignore = ignore.expect("patched");
    assert_eq!(
        ignore,
        "/target\n.codegraph/*\n!.codegraph/planes.yaml\n!.codegraph/config.toml\n"
    );
    let (again, note) = patch_gitignore(Some(&ignore));
    assert_eq!(again, None);
    assert_eq!(note.as_deref(), Some("already allows planes.yaml and config.toml"));
    assert_eq!(patch_gitignore(None), (None, None));
}

#[test]
fn line_ends_and_blanks_do_not_hide_a_rule() {
    let (text, note) = gitignore_patch("a\r\n  /.codegraph \r\n!.codegraph/planes.yaml\n.codegraph").expect("patched");
    assert_eq!(text, "a\n.codegraph/*\n!.codegraph/planes.yaml\n");
    assert!(note.starts_with("rewrote the whole-directory .codegraph/ rule"));
    assert!(gitignore_patch(&text).is_none());
    let (text, note) = gitignore_patch("").expect("patched");
    assert!(text.starts_with("\n# codegraph: ignore the generated store"));
    assert_eq!(note, "added .codegraph/* with negations for planes.yaml and config.toml");
    let (text, _) = gitignore_patch("x").expect("patched");
    assert!(text.starts_with("x\n\n# codegraph"));
    assert!(gitignore_patch("!.codegraph/planes.yaml\n").is_none());
}

#[test]
fn the_settings_that_are_written_are_read_back() {
    let text = config_toml("demo");
    assert_eq!(read_config_key(Some(&text), "project_id"), Ok(Some("demo".to_string())));
    assert_eq!(read_config_key(Some(&text), "tier"), Ok(Some("full".to_string())));
    assert_eq!(
        read_config_key(Some(&text), "db_url"),
        Ok(Some("surrealkv://.codegraph/graph.db".to_string()))
    );
    assert!(text.starts_with("# codegraph configuration for this repository.\n# Written by"));
    assert!(text.ends_with("\ndb_url = \"surrealkv://.codegraph/graph.db\"\n"));
}

#[test]
fn the_busiest_directory_is_the_first_of_equals() {
    assert_eq!(busiest_source_dir(&texts(&["b/x.rs", "a/x.rs"])), Some("a".to_string()));
    assert_eq!(busiest_source_dir(&texts(&["b/x.rs", "a/x.rs", "b/y.rs"])), Some("b".to_string()));
    assert_eq!(busiest_source_dir(&texts(&["x.rs"])), None);
    assert_eq!(root_readme(&texts(&["README", "README.rst"])), Some("README.rst"));
    assert_eq!(root_readme(&texts(&["readme.md"])), None);
}

#[test]
fn an_init_report_says_what_was_done() {
    let options = InitOptions { root: "/r".to_string(), project_id: "demo".to_string(), force: false };
    let seen = RepositorySeen { config: true, planes: true, root_files: vec![], sources: vec![] };
    let mut report = run(&options, &seen).report;
    report.gitignore = Some("untouched".to_string());
    assert_eq!(
        report.render(),
        "=== codegraph init ===\n  Root:        /r\n  Project:     demo\n\
         \x20 kept         /r/.codegraph/config.toml (already present)\n\
         \x20 kept         /r/.codegraph/planes.yaml (already present)\n\
         \x20 .gitignore   untouched\n\
         \n  Nothing to do. This repository is already set up.\n\
         \n  Pass --force to replace the files that were kept, except planes.yaml, which init never replaces.\n\
         \n  Next: codegraph index\n"
    );
}

fn options() -> DoctorOptions {
    DoctorOptions {
        project_id: "demo".to_string(),
        project_id_source: "the --project-id argument".to_string(),
        root: "/r".to_string(),
        db_url: None,
    }
}

fn observed(store: StoreSeen) -> Observed {
    Observed {
        version: "1.2.3".to_string(),
        marked: true,
        config: Ok(Some("project_id = \"demo\"\n".to_string())),
        planes: PlanesSeen::Absent,
        store,
        files: texts(&["/r/b.py", "/r/a.rs", "/r/c.rs", "/r/LICENSE"]),
        strategy: DiscoveryStrategy::Git,
    }
}

fn opened(nodes: i64) -> StoreSeen {
    StoreSeen::Opened { schema: Ok(()), nodes: Ok(nodes), edges: Ok(3) }
}

fn find<'a>(report: &'a DoctorReport, name: &str) -> &'a Check {
    report.checks.iter().find(|c| c.name == name).expect("a check of that name")
}

#[test]
fn a_healthy_project_is_told_what_to_run() {
    let report = diagnose(&options(), &observed(opened(2)));
    assert_eq!(report.worst(), CheckStatus::Warn);
    assert!(report.is_healthy());
    let names: Vec<&str> = report.checks.iter().map(|c| c.name.as_str()).collect();
    assert_eq!(
        names,
        vec![
            "version", "repo-root", "project-id", "config-file", "planes-file", "store-url", "store-open", "schema",
            "project-indexed", "languages", "next"
        ]
    );
    assert_eq!(find(&report, "version").detail, "codegraph 1.2.3");
    assert_eq!(find(&report, "project-indexed").detail, "project \"demo\": 2 nodes, 3 edges");
    assert_eq!(
        find(&report, "languages").detail,
        "4 file(s) via git ls-files, so .gitignore is respected: python 1, rust 2"
    );
    assert_eq!(find(&report, "store-url").detail, "surrealkv:///r/.codegraph/graph.db");
    assert_eq!(find(&report, "next").detail, "codegraph query --kind hubs");
}

#[test]
fn a_project_that_was_never_indexed_is_sent_to_index() {
    let report = diagnose(&options(), &observed(opened(0)));
    assert_eq!(find(&report, "project-indexed").status, CheckStatus::Warn);
    assert_eq!(find(&report, "next").detail, "codegraph index");

    let bare = StoreSeen::Opened { schema: Err("no table".to_string()), nodes: Ok(0), edges: Ok(0) };
    let report = diagnose(&options(), &observed(bare));
    assert_eq!(find(&report, "schema").detail, "the store carries no codegraph schema yet: no table");
    assert_eq!(
        find(&report, "project-indexed").detail,
        "project \"demo\" cannot have been indexed into a store with no schema"
    );

    let broken = StoreSeen::Opened { schema: Ok(()), nodes: Ok(1), edges: Err("gone".to_string()) };
    let report = diagnose(&options(), &observed(broken));
    assert_eq!(find(&report, "project-indexed").detail, "cannot count rows for \"demo\": gone");
    assert_eq!(report.worst(), CheckStatus::Fail);
    assert!(!report.is_healthy());
}

#[test]
fn a_store_that_does_not_open_is_the_first_thing_to_mend() {
    let report = diagnose(&options(), &observed(StoreSeen::Closed("it is already locked".to_string())));
    let open = find(&report, "store-open");
    assert_eq!(open.status, CheckStatus::Fail);
    assert_eq!(
        open.detail,
        "surrealkv:///r/.codegraph/graph.db is open in another process, and it allows one writer at a time"
    );
    assert_eq!(find(&report, "languages").status, CheckStatus::Pass);
    assert_eq!(find(&report, "next").detail, "fix the store problem above, then run codegraph index");
    for c in &report.checks {
        assert!(c.status != CheckStatus::Fail || c.remedy.is_some());
    }
    let report = diagnose(&options(), &observed(StoreSeen::Closed("denied".to_string())));
    assert_eq!(find(&report, "store-open").detail, "surrealkv:///r/.codegraph/graph.db will not open: denied");
}

#[test]
fn a_broken_setting_leaves_the_rest_of_the_diagnosis() {
    let mut seen = observed(opened(1));
    seen.config = Ok(Some("db_url = \"\n".to_string()));
    let report = diagnose(&options(), &seen);
    let names: Vec<&str> = report.checks.iter().map(|c| c.name.as_str()).collect();
    assert_eq!(
        names,
        vec!["version", "repo-root", "project-id", "config-file", "planes-file", "store-url", "languages", "next"]
    );
    assert_eq!(find(&report, "store-url").status, CheckStatus::Fail);
    assert_eq!(find(&report, "languages").status, CheckStatus::Pass);
    assert_eq!(find(&report, "next").detail, "fix the store problem above, then run codegraph index");
    assert_eq!(find(&report, "config-file").status, CheckStatus::Warn);
    seen.config = Err("permission denied".to_string());
    let report = diagnose(&options(), &seen);
    assert_eq!(
        find(&report, "config-file").detail,
        "/r/.codegraph/config.toml cannot be read: permission denied"
    );
    let mut given = options();
    given.db_url = Some(" mem:// ".to_string());
    assert_eq!(store_url(&given, &seen.config), Ok("mem://".to_string()));
    assert_eq!(store_url(&options(), &seen.config), Err("permission denied".to_string()));
}

#[test]
fn an_empty_tree_and_its_plans_are_told() {
    let mut seen = observed(opened(0));
    seen.files = vec![];
    seen.marked = false;
    seen.config = Ok(None);
    seen.strategy = DiscoveryStrategy::Walk { reason: "git declined: no".to_string() };
    seen.planes = PlanesSeen::Read { planes: 1, items: 2, violations: 0 };
    let report = diagnose(&options(), &seen);
    assert_eq!(
        find(&report, "languages").detail,
        "no files in a supported language under /r (directory walk with the built-in skip list (git declined: no))"
    );
    assert!(find(&report, "next").detail.ends_with("codegraph index <path>, from /r"));
    assert_eq!(find(&report, "planes-file").detail, "/r/.codegraph/planes.yaml is valid: 1 plane(s), 2 work item(s)");
    assert_eq!(find(&report, "config-file").detail, "no /r/.codegraph/config.toml");
    seen.planes = PlanesSeen::Read { planes: 1, items: 2, violations: 3 };
    assert_eq!(find(&diagnose(&options(), &seen), "planes-file").status, CheckStatus::Fail);
    seen.planes = PlanesSeen::Unreadable("line 3".to_string());
    assert_eq!(
        find(&diagnose(&options(), &seen), "planes-file").detail,
        "/r/.codegraph/planes.yaml does not parse: line 3"
    );
}

#[test]
fn a_doctor_report_is_rendered_line_by_line() {
    let report = DoctorReport {
        project_id: "demo".to_string(),
        root: "/r".to_string(),
        checks: vec![
            Check { name: "a".to_string(), status: CheckStatus::Pass, detail: "fine".to_string(), remedy: None },
            Check {
                name: "b".to_string(),
                status: CheckStatus::Fail,
                detail: "broken".to_string(),
                remedy: Some("mend it".to_string()),
            },
        ],
    };
    assert_eq!(
        report.render(),
        "=== codegraph doctor: demo ===\n  Root: /r\n\n  [ok] a: fine\n  [FAIL] b: broken\n         fix: mend it\n"
    );
    assert_eq!(CheckStatus::Warn.as_str(), "warn");
    let none = DoctorReport { project_id: String::new(), root: String::new(), checks: vec![] };
    assert_eq!(none.worst(), CheckStatus::Pass);
    assert!(none.is_healthy());
}
