use balpan::paths::{
    cache_dir, config_dir, config_file, dir_from_bases, find_runtime_file, find_workspace, join_path,
    lang_config_file, log_file, resolve_dir, runtime_dirs, runtime_file, workspace_config_file,
    StrategyType,
};

fn strings(v: &[&str]) -> Vec<String> {
    v.iter().map(|s| s.to_string()).collect()
}

#[test]
fn join_adds_one_separator() {
    assert_eq!(join_path("/home/u", "runtime"), "/home/u/runtime");
    assert_eq!(join_path("/home/u/", "runtime"), "/home/u/runtime");
    assert_eq!(join_path("", "runtime"), "runtime");
    assert_eq!(join_path("/home/u", "/etc/x"), "/etc/x");
    assert_eq!(join_path("a", "b/c"), "a/b/c");
}

#[test]
fn runtime_dirs_all_sources_in_priority_order() {
    let dirs = runtime_dirs(
        Some("/src/balpan".to_string()),
        "/home/u/.config/balpan",
        Some("/opt/rt".to_string()),
        "/usr/bin",
    );
    assert_eq!(
        dirs,
        strings(&[
            "/src/balpan/runtime",
            "/home/u/.config/balpan/runtime",
            "/opt/rt",
            "/usr/bin/runtime",
        ])
    );
}

#[test]
fn runtime_dirs_has_at_least_two_and_is_deterministic() {
    let a = runtime_dirs(None, "/c", None, "/e");
    let b = runtime_dirs(None, "/c", None, "/e");
    assert_eq!(a, strings(&["/c/runtime", "/e/runtime"]));
    assert!(a.len() >= 2);
    assert_eq!(a, b);
}

#[test]
fn runtime_file_first_existing_wins() {
    let dirs = strings(&["/a", "/b", "/c"]);
    assert_eq!(
        runtime_file(&dirs, "queries/python.scm", &vec![false, true, true]),
        "/b/queries/python.scm"
    );
    assert_eq!(
        find_runtime_file(&dirs, "x", &vec![true, false, true]),
        Some("/a/x".to_string())
    );
}

#[test]
fn runtime_file_falls_back_to_lowest_priority() {
    let dirs = strings(&["/a", "/b", "/c"]);
    assert_eq!(find_runtime_file(&dirs, "x", &vec![false, false, false]), None);
    assert_eq!(runtime_file(&dirs, "x", &vec![false, false, false]), "/c/x");
    assert_eq!(runtime_file(&vec![], "x", &vec![]), "");
}

#[test]
fn override_short_circuits_directory_lookup() {
    assert_eq!(config_dir(Some("/tmp".to_string())), Some("/tmp".to_string()));
    assert_eq!(cache_dir(Some("/var/c".to_string())), Some("/var/c".to_string()));
}

#[test]
fn convention_directory_gets_tool_subdirectory() {
    assert_eq!(
        resolve_dir(None, Some("/home/u/.config".to_string())),
        Some("/home/u/.config/balpan".to_string())
    );
    assert_eq!(
        resolve_dir(Some("/x".to_string()), Some("/home/u/.config".to_string())),
        Some("/x".to_string())
    );
    assert_eq!(resolve_dir(None, None), None);
}

#[test]
fn convention_directory_from_host() {
    if let Some(d) = config_dir(None) {
        assert!(d.ends_with("/balpan"));
    }
    if let Some(d) = cache_dir(None) {
        assert!(d.ends_with("/balpan"));
    }
}

#[test]
fn file_locations() {
    assert_eq!(config_file(None, "/c"), "/c/config.toml");
    assert_eq!(config_file(Some("/x/my.toml".to_string()), "/c"), "/x/my.toml");
    assert_eq!(lang_config_file("/c"), "/c/languages.toml");
    assert_eq!(log_file("/k"), "/k/balpan.log");
    assert_eq!(workspace_config_file("/w"), "/w/.balpan/config.toml");
}

#[test]
fn workspace_is_first_marked_ancestor() {
    let ancestors = strings(&["/w/a/b", "/w/a", "/w", "/"]);
    assert_eq!(
        find_workspace("/w/a/b", &ancestors, &vec![false, true, true, false]),
        ("/w/a".to_string(), false)
    );
    assert_eq!(
        find_workspace("/w/a/b", &ancestors, &vec![false, false, false, false]),
        ("/w/a/b".to_string(), true)
    );
}

#[test]
fn kind_picks_its_own_base() {
    let bases = Some(("/home/u/.config".to_string(), "/home/u/.cache".to_string()));
    assert_eq!(
        dir_from_bases(StrategyType::Config, None, bases.clone()),
        Some("/home/u/.config/balpan".to_string())
    );
    assert_eq!(
        dir_from_bases(StrategyType::Cache, None, bases.clone()),
        Some("/home/u/.cache/balpan".to_string())
    );
    assert_eq!(
        dir_from_bases(StrategyType::Cache, Some("/c".to_string()), bases),
        Some("/c".to_string())
    );
    assert_eq!(dir_from_bases(StrategyType::Config, None, None), None);
}
