use repotracer::config::{
    add_repo, add_stat, get_config_path, get_repo_config, get_stat_config, get_stats_dir,
    join_path, list_repos, list_stats, stat_storage_path, GlobalConfig, ParamValue,
    StatStorageConfig, UserRepoConfig, UserStatConfig,
};

fn stat(name: &str, type_: &str, params: Option<ParamValue>) -> UserStatConfig {
    UserStatConfig {
        name: name.to_string(),
        description: String::new(),
        type_: type_.to_string(),
        params,
        path_in_repo: None,
        start: None,
        end: None,
        granularity: None,
    }
}

fn repo(name: &str) -> UserRepoConfig {
    UserRepoConfig {
        name: name.to_string(),
        source: "github.com".to_string(),
        storage_path: None,
        default_branch: None,
        stats: None,
    }
}

#[test]
fn joins_paths_like_pathbuf() {
    for (base, name) in [("a", "b"), ("a/", "b"), ("", "b"), ("/x", "/abs"), ("a/b", "c.json")] {
        let std = std::path::Path::new(base).join(name);
        assert_eq!(join_path(base, name), std.to_str().unwrap(), "{:?}", (base, name));
    }
}

#[test]
fn config_and_stats_paths() {
    assert_eq!(get_config_path("/w/.repotracer"), "/w/.repotracer/config.json");
    let mut config = GlobalConfig::new();
    assert_eq!(get_stats_dir(&config, "/w/.repotracer"), "/w/.repotracer/stats");
    config.stat_storage = Some(StatStorageConfig { type_: "csv".to_string(), storage_path: None });
    assert_eq!(get_stats_dir(&config, "/w/.repotracer"), "/w/.repotracer/stats");
    config.stat_storage = Some(StatStorageConfig {
        type_: "csv".to_string(),
        storage_path: Some("/data".to_string()),
    });
    assert_eq!(get_stats_dir(&config, "/w/.repotracer"), "/data");
    assert_eq!(
        stat_storage_path("/data", "pg", "tokei"),
        ("/data/pg".to_string(), "/data/pg/tokei.csv".to_string())
    );
}

#[test]
fn storage_path_of_repo() {
    let r = repo("postgres");
    assert_eq!(r.get_storage_path("/w/.repotracer"), "/w/.repotracer/repos/github.com/postgres");
    let mut r = repo("postgres");
    r.storage_path = Some("elsewhere".to_string());
    assert_eq!(r.get_storage_path("/w"), "elsewhere");
}

#[test]
fn repos_and_stats() {
    let mut config = GlobalConfig::new();
    assert!(list_repos(&config).is_empty());
    add_repo(&mut config, repo("a"));
    add_repo(&mut config, repo("b"));
    add_repo(&mut config, repo("a"));
    assert_eq!(list_repos(&config), vec!["a".to_string(), "b".to_string()]);
    assert_eq!(list_stats(&config, "a"), None);
    assert_eq!(list_stats(&config, "zzz"), None);
    add_stat(&mut config, "a", "loc", stat("loc", "tokei", None));
    add_stat(&mut config, "a", "todos", stat("todos", "grep", None));
    add_stat(&mut config, "a", "loc", stat("loc", "file_count", None));
    assert_eq!(list_stats(&config, "a"), Some(vec!["loc".to_string(), "todos".to_string()]));
    assert_eq!(get_stat_config(&config, "a", "loc").unwrap().type_, "file_count");
    assert!(get_stat_config(&config, "a", "nope").is_none());
    assert!(get_stat_config(&config, "b", "loc").is_none());
    assert_eq!(get_repo_config(&config, "b").unwrap().name, "b");
    assert!(get_repo_config(&config, "c").is_none());
}

#[test]
fn parameters() {
    let params = ParamValue::Object(vec![
        ("pattern".to_string(), ParamValue::Text("TODO".to_string())),
        ("topn".to_string(), ParamValue::Number("3".to_string())),
        (
            "languages".to_string(),
            ParamValue::List(vec![
                ParamValue::Text("Rust".to_string()),
                ParamValue::Number("1".to_string()),
                ParamValue::Text("Go".to_string()),
            ]),
        ),
        ("flag".to_string(), ParamValue::Bool(true)),
    ]);
    let s = stat("s", "grep", Some(params));
    assert_eq!(s.get_param_string("pattern"), Some("TODO".to_string()));
    assert_eq!(s.get_param_string("missing"), None);
    assert_eq!(s.get_param_usize("topn"), Some(3));
    assert_eq!(s.get_param_usize("missing"), None);
    assert_eq!(
        s.get_param_array_string("languages"),
        Some(vec!["Rust".to_string(), "Go".to_string()])
    );
    assert_eq!(s.get_param_array_string("pattern"), None);
    assert!(matches!(s.get_param_value("flag"), Some(ParamValue::Bool(true))));
    let no_params = stat("s", "grep", None);
    assert!(no_params.get_param_value("pattern").is_none());
    let not_object = stat("s", "grep", Some(ParamValue::Text("x".to_string())));
    assert!(not_object.get_param_value("pattern").is_none());
}
