//! Finding files, telling what changed, and keeping account of a run.

use codegraph::index::discovery::{
    extension_of, is_skipped_dir, keep_listed, keeps_listed, read_listing, refusal_text, walk_enters, walk_reason,
    wanted_source_file,
};
use codegraph::index::incremental::{detect_changes, hash_content, latest_hashes, relative_path, FileChange, HashedFile};
use codegraph::index::parser::{parse_file, ParsedFile};
use codegraph::index::run::{
    all_added, directory_name_of, node_ids, plan_run, refuse_file, registry_row, store_rows, tier_notice, FileSymbol,
    IndexRun, WriteBack,
};
use codegraph::index::{
    progress_tick_due, DiscoveryStrategy, IndexConfig, IndexingTier, Progress, ProgressStyle,
};

fn texts(v: &[&str]) -> Vec<String> {
    v.iter().map(|s| s.to_string()).collect()
}

fn hashed(path: &str, hash: &str) -> HashedFile {
    HashedFile { path: path.to_string(), hash: hash.to_string() }
}

#[test]
fn a_content_is_hashed_by_sha_256() {
    assert_eq!(hash_content(b"abc"), "ba7816bf8f01cfea414140de5dae2223b00361a396177a9cb410ff61f20015ad");
    assert_eq!(hash_content(b""), "e3b0c44298fc1c149afbf4c8996fb92427ae41e4649b934ca495991b7852b855");
}

#[test]
fn each_file_is_added_modified_unchanged_or_deleted() {
    let stored = vec![hashed("src/a.rs", "1"), hashed("src/b.rs", "2"), hashed("src/c.rs", "3")];
    let on_disk = vec![hashed("/r/src/a.rs", "1"), hashed("/r/src/b.rs", "9"), hashed("/r/src/d.rs", "4")];
    let changes = detect_changes("/r", &stored, &on_disk);
    assert_eq!(changes.len(), 4);
    assert!(matches!(&changes[0], FileChange::Unchanged(p) if p == "/r/src/a.rs"));
    assert!(matches!(&changes[1], FileChange::Modified(p) if p == "/r/src/b.rs"));
    assert!(matches!(&changes[2], FileChange::Added(p) if p == "/r/src/d.rs"));
    assert!(matches!(&changes[3], FileChange::Deleted(p) if p == "src/c.rs"));
    let plan = plan_run(&changes);
    assert_eq!(plan.to_index, vec!["/r/src/b.rs", "/r/src/d.rs"]);
    assert_eq!(plan.deleted, vec!["src/c.rs"]);
    assert_eq!(plan.unchanged, 1);
}

#[test]
fn an_unchanged_disk_is_all_unchanged() {
    let stored = vec![hashed("a.rs", "1"), hashed("b.rs", "2")];
    for change in detect_changes("/r", &stored, &stored) {
        assert!(matches!(change, FileChange::Unchanged(_)));
    }
    assert!(detect_changes("/r", &vec![], &vec![]).is_empty());
}

#[test]
fn a_file_whose_name_ends_like_another_is_another_file() {
    let changes = detect_changes("/r", &vec![hashed("a.rs", "1")], &vec![hashed("/r/ba.rs", "1")]);
    assert_eq!(changes.len(), 2);
    assert!(matches!(&changes[0], FileChange::Added(p) if p == "/r/ba.rs"));
    assert!(matches!(&changes[1], FileChange::Deleted(p) if p == "a.rs"));
    let stored = vec![hashed("a.rs", "1"), hashed("x/a.rs", "2")];
    let changes = detect_changes("/r", &stored, &vec![hashed("/r/x/a.rs", "2")]);
    assert_eq!(changes.len(), 2);
    assert!(matches!(&changes[0], FileChange::Unchanged(p) if p == "/r/x/a.rs"));
    assert!(matches!(&changes[1], FileChange::Deleted(p) if p == "a.rs"));
}

#[test]
fn paths_are_read_below_the_root() {
    assert_eq!(relative_path("/r", "/r/src/a.rs"), "src/a.rs");
    assert_eq!(relative_path("/r/", "/r/src/a.rs"), "src/a.rs");
    assert_eq!(relative_path("/", "/a.rs"), "a.rs");
    assert_eq!(relative_path("/r", "/rs/a.rs"), "/rs/a.rs");
    assert_eq!(relative_path("/r", "src/a.rs"), "src/a.rs");
    assert_eq!(relative_path("", "/a.rs"), "/a.rs");
}

#[test]
fn of_several_stored_hashes_the_last_counts() {
    let rows = vec![
        (Some("a.rs".to_string()), Some("1".to_string())),
        (None, Some("2".to_string())),
        (Some("a.rs".to_string()), Some("3".to_string())),
        (Some("b.rs".to_string()), None),
    ];
    let latest = latest_hashes(&rows);
    assert_eq!(latest.len(), 1);
    assert_eq!((latest[0].path.as_str(), latest[0].hash.as_str()), ("a.rs", "3"));
}

#[test]
fn a_forced_run_takes_every_file_as_new() {
    let changes = all_added(&texts(&["a.rs", "b.rs"]));
    assert!(matches!(&changes[1], FileChange::Added(p) if p == "b.rs"));
    assert_eq!(plan_run(&changes).to_index.len(), 2);
}

#[test]
fn a_listing_is_split_at_zeros_and_read_as_text() {
    let mut output = b"a.rs\0\0b.rs\0a.rs\0".to_vec();
    output.extend_from_slice(&[0xff, 0]);
    assert_eq!(read_listing(&output), vec!["a.rs", "b.rs"]);
    assert!(read_listing(b"").is_empty());
    assert_eq!(read_listing("\u{e9}.rs\0".as_bytes()), vec!["\u{e9}.rs"]);
}

#[test]
fn listed_files_are_kept_by_place_and_language() {
    assert!(keeps_listed("src/a.rs", &None));
    assert!(!keeps_listed("node_modules/x/a.ts", &None));
    assert!(!keeps_listed(".git/a.rs", &None));
    assert!(!keeps_listed("src/a.txt", &None));
    assert!(keeps_listed("src/a.py", &Some(texts(&["PYTHON"]))));
    assert!(!keeps_listed("src/a.rs", &Some(texts(&["python"]))));
    assert_eq!(keep_listed(&texts(&["a.rs", "b.md", "vendor/c.go"]), &None), vec!["a.rs"]);
    assert!(wanted_source_file("go", &None));
    assert!(!wanted_source_file("", &None));
    assert!(is_skipped_dir("target") && is_skipped_dir(".cache") && !is_skipped_dir("src"));
    assert!(walk_enters(".hidden", 0));
    assert!(!walk_enters(".hidden", 1));
    assert_eq!(extension_of("a.test.ts"), "ts");
    assert_eq!(extension_of(".gitignore"), "");
}

#[test]
fn a_walk_says_why_the_listing_was_not_used() {
    assert_eq!(walk_reason(Ok(3)), None);
    assert_eq!(walk_reason(Ok(0)), Some("git listed no source files under this path".to_string()));
    assert_eq!(walk_reason(Err("no git".to_string())), Some("no git".to_string()));
    assert_eq!(refusal_text("fatal: not a repository\nmore"), "git declined: fatal: not a repository");
    assert_eq!(refusal_text(""), "git declined: git ls-files failed");
    assert_eq!(DiscoveryStrategy::Unknown.describe(), "not run");
}

#[test]
fn a_tier_is_spelled_in_any_case() {
    assert_eq!(IndexingTier::from_str("FAST"), Ok(IndexingTier::Fast));
    assert_eq!(IndexingTier::from_str("Balanced"), Ok(IndexingTier::Balanced));
    assert_eq!(IndexingTier::from_str("full").map(|t| t.as_str()), Ok("full"));
    assert_eq!(
        IndexingTier::from_str("Deep"),
        Err("unknown indexing tier: Deep (expected fast|balanced|full)".to_string())
    );
}

#[test]
fn a_style_is_asked_for_or_detected() {
    assert_eq!(ProgressStyle::detect(" TTY ", false), ProgressStyle::InPlace);
    assert_eq!(ProgressStyle::detect("plain", true), ProgressStyle::Plain);
    assert_eq!(ProgressStyle::detect("0", true), ProgressStyle::Off);
    assert_eq!(ProgressStyle::detect("", true), ProgressStyle::InPlace);
    assert_eq!(ProgressStyle::detect("", false), ProgressStyle::Plain);
}

#[test]
fn a_tick_is_due_after_enough_files_or_time() {
    assert!(!progress_tick_due(ProgressStyle::Off, 10_000, 100_000));
    assert!(progress_tick_due(ProgressStyle::InPlace, 25, 100));
    assert!(!progress_tick_due(ProgressStyle::InPlace, 25, 99));
    assert!(progress_tick_due(ProgressStyle::InPlace, 0, 2_000));
    assert!(progress_tick_due(ProgressStyle::Plain, 500, 0));
    assert!(!progress_tick_due(ProgressStyle::Plain, 499, 9_999));
}

#[test]
fn a_reporter_writes_lines_and_closes_its_phases() {
    let mut p = Progress::with_style(ProgressStyle::InPlace);
    assert_eq!(p.emit("1/2", true), "\r1/2\u{1b}[K");
    assert!(p.line_open);
    assert_eq!(p.note("hello"), "\r\u{1b}[K[codegraph] hello\n");
    assert!(!p.line_open);
    p.phase("discovery", "", "0.0s");
    p.phase("resolve", "1.0s", "1.0s");
    assert_eq!(p.phases, vec![("discovery".to_string(), "1.0s".to_string())]);
    assert_eq!(p.finish("2.0s", "3.0s"), "[codegraph] done in 3.0s (discovery 1.0s, resolve 2.0s)\n");
    let mut off = Progress::with_style(ProgressStyle::Off);
    assert_eq!(off.note("hello"), "");
    assert!(!off.tick(1_000, 60_000));
}

fn symbol(id: &str, name: &str, node_type: &str) -> FileSymbol {
    FileSymbol {
        node_id: id.to_string(),
        name: name.to_string(),
        qualified_name: format!("x::{name}"),
        node_type: node_type.to_string(),
    }
}

fn parsed(source: &str) -> ParsedFile {
    parse_file("rs", source, "src/x.rs", "p", IndexingTier::Full).ok().expect("parsed")
}

#[test]
fn a_run_records_what_disappeared_and_heals_what_is_live() {
    let mut run = IndexRun::new("p", false);
    let old = vec![symbol("1", "kept", "function"), symbol("2", "lost", "function"), symbol("3", "std", "import"), symbol("4", "", "impl")];
    assert_eq!(node_ids(&old), vec!["1", "2", "3", "4"]);
    run.file_stored("src/x.rs", &old, &parsed("fn kept() {}\nfn fresh() {}\n"));
    run.file_deleted("src/y.rs", &vec![symbol("9", "bye", "struct")]);
    run.parse_failed("src/z.rs", "no");
    run.store_failed("src/w.rs", "full");
    assert_eq!((run.files_indexed, run.files_skipped, run.nodes_created), (1, 2, 2));
    assert_eq!(run.errors, vec!["src/z.rs: parse failed: no", "src/w.rs: store failed: full"]);
    assert_eq!(run.changed(), vec!["src/x.rs", "src/y.rs"]);
    assert_eq!(run.delta(), vec!["bye", "fresh", "lost", "std"]);
    match run.write_back() {
        WriteBack::Update { heal, record } => {
            assert_eq!(
                heal,
                vec![
                    ("x::kept".to_string(), "src/x.rs".to_string()),
                    ("x::fresh".to_string(), "src/x.rs".to_string())
                ]
            );
            let names: Vec<&str> = record.iter().map(|r| r.name.as_str()).collect();
            assert_eq!(names, vec!["lost", "bye"]);
            assert_eq!(record[1].file_path, "src/y.rs");
        }
        WriteBack::Wipe => panic!("not forced"),
    }
}

#[test]
fn a_forced_run_wipes_the_record() {
    let mut run = IndexRun::new("p", true);
    run.file_stored("src/x.rs", &vec![symbol("2", "lost", "function")], &parsed("fn fresh() {}\n"));
    assert!(run.live_keys.is_empty() && run.deletions.is_empty());
    assert!(matches!(run.write_back(), WriteBack::Wipe));
}

#[test]
fn rows_carry_the_project_and_the_file() {
    let rows = store_rows("p", "src/x.rs", parsed("fn a() {\n    b();\n}\n"));
    assert_eq!((rows.node_count, rows.edge_count), (1, 1));
    assert_eq!(rows.language, "rust");
    assert_eq!(rows.nodes[0].project_id, "p");
    assert_eq!(rows.nodes[0].file_path, "src/x.rs");
    assert_eq!(rows.nodes[0].qualified_name, "x::a");
    assert_eq!(rows.edges[0].to_name.as_deref(), Some("b"));
    assert_eq!(rows.edges[0].project_id, "p");
}

#[test]
fn a_run_says_what_it_does() {
    assert_eq!(
        refuse_file("/r/a.rs", "/r"),
        "/r/a.rs is a file, and codegraph indexes directories. Point it at the directory that contains the file instead:\n  codegraph index /r"
    );
    assert_eq!(
        tier_notice(IndexingTier::Fast),
        "tier fast. Lighter tiers exist: --tier fast indexes definitions only, --tier balanced adds call edges"
    );
    assert_eq!(directory_name_of("/a/b/"), "b");
    assert_eq!(directory_name_of("/"), "");
    let config = IndexConfig {
        project_id: "p".to_string(),
        root_path: "/work/repo".to_string(),
        tier: IndexingTier::Full,
        languages: None,
        force: false,
    };
    let row = registry_row(&config, &IndexRun::new("p", false), 4);
    assert_eq!((row.name.as_str(), row.file_count), ("repo", 4));
}
