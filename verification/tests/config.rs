//! Settings: what a run uses, and where it takes it from.

use codegraph::config::{
    ancestors, config_path_of, db_url, derived_project_id, given_project_id, join_path, project_id, read_config_key,
    repo_root, resolve_project_id, sanitize_project_id, tier, ConfigFault, ProjectIdSource, DB_URL_KEY,
    DEFAULT_DB_PATH, DEFAULT_TIER, TIER_KEY,
};
use codegraph::db::{connect_url, explain_connect_failure, is_embedded, is_store_locked, DEFAULT_EMBEDDED_URL};

fn marks(dirs: &Vec<String>, marked: &str) -> Vec<bool> {
    dirs.iter().map(|d| d == marked).collect()
}

#[test]
fn explicit_wins_over_everything() {
    let r = resolve_project_id(Some("chosen"), None, "", None).expect("resolve");
    assert_eq!(r.id, "chosen");
    assert!(matches!(r.source, ProjectIdSource::Explicit));
    let r = resolve_project_id(Some("chosen"), Some("env"), "/a/b", Some("project_id = \"c\"\n")).expect("resolve");
    assert_eq!(r.id, "chosen");
}

#[test]
fn empty_explicit_is_an_error_that_says_what_to_do() {
    let err = resolve_project_id(Some("   "), None, "", None).expect_err("must reject");
    assert!(err.contains("--project-id was given but is empty"), "{err}");
}

#[test]
fn sanitize_maps_unusable_characters_and_trims() {
    assert_eq!(sanitize_project_id("my repo"), Some("my_repo".to_string()));
    assert_eq!(sanitize_project_id("codegraph"), Some("codegraph".to_string()));
    assert_eq!(sanitize_project_id("a.b"), Some("a_b".to_string()));
    assert_eq!(sanitize_project_id("__"), None);
    assert_eq!(sanitize_project_id(""), None);
}

#[test]
fn config_file_key_is_read_and_quoting_is_handled() {
    let key = "project_id";
    assert_eq!(
        read_config_key(Some("# a comment\nproject_id = \"quoted-id\"\n"), key).unwrap(),
        Some("quoted-id".to_string())
    );
    assert_eq!(
        read_config_key(Some("project_id = bare-id  # trailing\n"), key).unwrap(),
        Some("bare-id".to_string())
    );
    assert_eq!(read_config_key(Some("[other]\nproject_id = \"not-top-level\"\n"), key).unwrap(), None);
    assert_eq!(read_config_key(None, key).unwrap(), None);
}

#[test]
fn repo_root_walks_up_to_the_git_marker() {
    let dirs = ancestors("/tmp/x/repo/src/index");
    assert_eq!(repo_root(&dirs, &marks(&dirs, "/tmp/x/repo")), "/tmp/x/repo");
}

#[test]
fn repo_root_without_a_git_marker_is_the_path_itself() {
    let dirs = ancestors("/tmp/no-git");
    assert_eq!(repo_root(&dirs, &marks(&dirs, "nowhere")), "/tmp/no-git");
}

#[test]
fn the_nearest_marker_wins() {
    let dirs = ancestors("/a/b/c");
    assert_eq!(dirs, vec!["/a/b/c", "/a/b", "/a", "/"]);
    assert_eq!(repo_root(&dirs, &vec![false, true, true, true]), "/a/b");
}

#[test]
fn a_setting_that_is_not_closed_or_empty_is_a_fault() {
    let fault = read_config_key(Some("\ntier = \"full\n"), TIER_KEY).expect_err("not closed");
    assert_eq!(fault, ConfigFault::Unterminated(2));
    assert_eq!(
        fault.message("/r/.codegraph/config.toml", TIER_KEY),
        "/r/.codegraph/config.toml:2: tier has an unterminated quoted value. Write it as tier = \"a-value\""
    );
    let fault = read_config_key(Some("tier = ''\n"), TIER_KEY).expect_err("empty");
    assert_eq!(fault, ConfigFault::Empty(1));
    assert_eq!(
        fault.message("c", TIER_KEY),
        "c:1: tier is set but empty. Give it a value, or delete the line to let codegraph use its default"
    );
}

#[test]
fn the_id_comes_from_the_environment_then_the_settings_then_the_root() {
    let given = given_project_id(None, Some(" env ")).expect("given").expect("valid");
    assert_eq!(given.id, "env");
    assert!(matches!(given.source, ProjectIdSource::Environment));
    assert!(given_project_id(None, Some("  ")).is_none());

    let set = resolve_project_id(None, Some(""), "/work/my repo", Some("project_id = 'set'\n")).expect("set");
    assert_eq!(set.id, "set");
    assert_eq!(set.source.describe(), "project_id in /work/my repo/.codegraph/config.toml");

    let derived = derived_project_id("/work/my repo", None).expect("derived");
    assert_eq!(derived.id, "my_repo");
    assert_eq!(derived.source.describe(), "the name of the repo root /work/my repo");

    let err = project_id(None, None, "/work/...", None).expect_err("no name");
    assert_eq!(
        err,
        "cannot derive a project id from /work/...: its name has no letters or digits to build one from. Pass --project-id, or set CODEGRAPH_PROJECT_ID"
    );
    assert_eq!(project_id(None, None, "/work/a", Some("project_id = b")), Ok("b".to_string()));
}

#[test]
fn a_project_id_is_its_own_form() {
    for name in ["my repo", "a.b", "_x-1_", "-"] {
        if let Some(id) = sanitize_project_id(name) {
            assert_eq!(sanitize_project_id(&id), Some(id));
        }
    }
    assert_eq!(sanitize_project_id("_x-1_"), Some("x-1".to_string()));
    assert_eq!(sanitize_project_id("-"), None);
}

#[test]
fn the_store_is_the_given_one_or_below_the_root() {
    assert_eq!(db_url(Some(" ws://h:8000 "), "/r", None), Ok("ws://h:8000".to_string()));
    assert_eq!(db_url(None, "/r", None), Ok(format!("surrealkv:///r/{DEFAULT_DB_PATH}")));
    assert_eq!(db_url(Some(" "), "/r", Some("db_url = \"surrealkv://x.db\"")), Ok("surrealkv:///r/x.db".to_string()));
    assert_eq!(db_url(None, "/r", Some("db_url = \"surrealkv:///x.db\"")), Ok("surrealkv:///x.db".to_string()));
    assert_eq!(db_url(None, "/r", Some("db_url = mem://")), Ok("mem://".to_string()));
    assert!(db_url(None, "/r", Some("db_url = \"")).is_err());
    assert_eq!(DB_URL_KEY, "db_url");
}

#[test]
fn the_tier_is_the_given_one_or_that_of_the_settings() {
    assert_eq!(tier(Some("fast"), "/r", Some("tier = full")), Ok("fast".to_string()));
    assert_eq!(tier(None, "/r", Some("tier = balanced")), Ok("balanced".to_string()));
    assert_eq!(tier(None, "/r", None), Ok(DEFAULT_TIER.to_string()));
    assert_eq!(
        tier(None, "/r", Some("tier = \"\"")),
        Err("/r/.codegraph/config.toml:1: tier is set but empty. Give it a value, or delete the line to let codegraph use its default".to_string())
    );
}

#[test]
fn paths_are_joined_once() {
    assert_eq!(join_path("/a", "b"), "/a/b");
    assert_eq!(join_path("/a/", "b"), "/a/b");
    assert_eq!(join_path("/a", "/b"), "/b");
    assert_eq!(join_path("", "b"), "b");
    assert_eq!(config_path_of("/r"), "/r/.codegraph/config.toml");
}

#[test]
fn an_address_names_an_embedded_store_or_a_server() {
    assert!(is_embedded("surrealkv:///x"));
    assert!(is_embedded("MEM://"));
    assert!(is_embedded("mem"));
    assert!(!is_embedded("ws://localhost:8000"));
    assert!(!is_embedded("rocksdb://x"));
    assert_eq!(connect_url(None, None), DEFAULT_EMBEDDED_URL);
    assert_eq!(connect_url(None, Some("ws://h")), "ws://h");
    assert_eq!(connect_url(Some("mem://"), Some("ws://h")), "mem://");
}

#[test]
fn a_locked_store_is_told_apart() {
    assert!(is_store_locked("Database at x is already locked by another process"));
    assert!(!is_store_locked("refused"));
    assert_eq!(explain_connect_failure("u", "refused"), "Failed to connect to SurrealDB at u");
    assert!(explain_connect_failure("u", "it is already locked").starts_with("the code graph store at u is open in another process"));
}
