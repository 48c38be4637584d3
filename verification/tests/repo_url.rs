use repotracer::repo_url::{clone_storage_path, parse_clone_url};

fn parts(a: &str, b: &str, c: &str, d: &str) -> (String, String, String, String) {
    (a.to_string(), b.to_string(), c.to_string(), d.to_string())
}

#[test]
fn shorthand_is_github() {
    assert_eq!(
        parse_clone_url("postgres/postgres"),
        Ok(parts("https://github.com/postgres/postgres.git", "github.com", "postgres", "postgres"))
    );
}

#[test]
fn full_url() {
    assert_eq!(
        parse_clone_url("https://github.com/postgres/postgres.git"),
        Ok(parts("https://github.com/postgres/postgres.git", "github.com", "postgres", "postgres"))
    );
    assert_eq!(
        parse_clone_url("https://gitlab.com/group/sub/project"),
        Ok(parts("https://gitlab.com/group/sub/project", "gitlab.com", "group", "project"))
    );
    assert_eq!(
        parse_clone_url("http://example.com/org/repo.git.git"),
        Ok(parts("http://example.com/org/repo.git.git", "example.com", "org", "repo"))
    );
}

#[test]
fn ip_hosts_have_no_domain() {
    assert_eq!(
        parse_clone_url("https://127.0.0.1/org/repo"),
        Ok(parts("https://127.0.0.1/org/repo", "unknown", "org", "repo"))
    );
}

#[test]
fn errors() {
    assert_eq!(
        parse_clone_url("a/b/c"),
        Err("Invalid clone URL format. Expected format: $some-org/$some-repo or a full URL like https://github.com/postgres/postgres.git.".to_string())
    );
    assert_eq!(
        parse_clone_url("https://github.com/onlyorg"),
        Err("Invalid clone URL format. Expected at least an organization and a repository name in the path.".to_string())
    );
    assert_eq!(parse_clone_url("not a url"), Err("Failed to parse the clone URL.".to_string()));
}

#[test]
fn storage_path() {
    assert_eq!(clone_storage_path("github.com", "org", "repo"), "github.com/org/repo");
}

#[test]
fn url_parts_from_given_domain_and_segments() {
    let segs = |v: &[&str]| Some(v.iter().map(|s| s.to_string()).collect::<Vec<String>>());
    assert_eq!(
        repotracer::repo_url::parts_of_url("https://h.org/a/b.git.git", Some("h.org".to_string()), segs(&["a", "b.git.git"])),
        Ok((
            "https://h.org/a/b.git.git".to_string(),
            "h.org".to_string(),
            "a".to_string(),
            "b".to_string()
        ))
    );
    assert_eq!(
        repotracer::repo_url::parts_of_url("x", None, segs(&["o", "mid", "r"])),
        Ok(("x".to_string(), "unknown".to_string(), "o".to_string(), "r".to_string()))
    );
    assert_eq!(
        repotracer::repo_url::parts_of_url("x", Some("d".to_string()), segs(&["only"])),
        Err("Invalid clone URL format. Expected at least an organization and a repository name in the path.".to_string())
    );
    assert!(repotracer::repo_url::parts_of_url("x", Some("d".to_string()), None).is_err());
}

#[test]
fn org_names_starting_with_http_are_shorthand() {
    assert_eq!(
        parse_clone_url("httpie/httpie"),
        Ok(parts("https://github.com/httpie/httpie.git", "github.com", "httpie", "httpie"))
    );
}
