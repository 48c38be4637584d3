use repotracer::config::UserRepoConfig;
use repotracer::sync::{get_repo_url, get_tool_report_path, tool_scan_needed, TOOL_REPORT_MAX_AGE_DAYS};

fn repo(name: &str, source: &str) -> UserRepoConfig {
    UserRepoConfig {
        name: name.to_string(),
        source: source.to_string(),
        storage_path: None,
        default_branch: None,
        stats: None,
    }
}

#[test]
fn repo_url_from_a_domain_source() {
    assert_eq!(
        get_repo_url(&repo("postgres/postgres", "github.com")),
        Some("https://github.com/postgres/postgres".to_string())
    );
}

#[test]
fn no_repo_url_without_a_domain() {
    assert_eq!(get_repo_url(&repo("local", "localhost")), None);
    assert_eq!(get_repo_url(&repo("local", "")), None);
}

#[test]
fn tool_report_path_is_below_the_stats_dir() {
    assert_eq!(get_tool_report_path("/data/stats", "repotracer"), "/data/stats/tool_reports/repotracer.ndjson");
    assert_eq!(get_tool_report_path("stats/", "x"), "stats/tool_reports/x.ndjson");
}

#[test]
fn tool_scan_due_when_missing_or_old() {
    let max = TOOL_REPORT_MAX_AGE_DAYS * 24 * 60 * 60;
    assert_eq!(max, 2_592_000);
    assert!(tool_scan_needed(None));
    assert!(!tool_scan_needed(Some((0, 0))));
    assert!(!tool_scan_needed(Some((max, 0))));
    assert!(tool_scan_needed(Some((max, 1))));
    assert!(tool_scan_needed(Some((max + 1, 0))));
}
