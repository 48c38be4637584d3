use repotracer::paths::{path_file_name, path_file_name_or_empty, path_normal_components};

#[test]
fn file_name_is_last_component() {
    assert_eq!(path_file_name("a/b/c.txt"), Some("c.txt".to_string()));
    assert_eq!(path_file_name("c.txt"), Some("c.txt".to_string()));
    assert_eq!(path_file_name("dir/"), Some("dir".to_string()));
    assert_eq!(path_file_name("foo.txt/."), Some("foo.txt".to_string()));
    assert_eq!(path_file_name("foo.txt/.//"), Some("foo.txt".to_string()));
}

#[test]
fn file_name_absent() {
    assert_eq!(path_file_name(""), None);
    assert_eq!(path_file_name("/"), None);
    assert_eq!(path_file_name("a/.."), None);
    assert_eq!(path_file_name("."), None);
    assert_eq!(path_file_name_or_empty("a/.."), "");
}

#[test]
fn file_name_agrees_with_std() {
    for p in ["a/b", "a//b/", "./x", "../y", "x/./", "/usr/bin/", "tmp/foo.txt", ".."] {
        let ours = path_file_name(p);
        let std = std::path::Path::new(p)
            .file_name()
            .and_then(|n| n.to_str())
            .map(String::from);
        assert_eq!(ours, std, "path {:?}", p);
    }
}

#[test]
fn normal_components_skip_dots_and_empties() {
    assert_eq!(
        path_normal_components("/a//b/./c/../d/"),
        vec!["a".to_string(), "b".to_string(), "c".to_string(), "d".to_string()]
    );
    assert!(path_normal_components("").is_empty());
}

#[test]
fn normal_components_agree_with_std() {
    for p in ["a/b/c", "./a", "a/./b", "../x/y", "/root/dir/", "a//b"] {
        let std: Vec<String> = std::path::Path::new(p)
            .components()
            .filter_map(|c| match c {
                std::path::Component::Normal(n) => n.to_str().map(String::from),
                _ => None,
            })
            .collect();
        assert_eq!(path_normal_components(p), std, "path {:?}", p);
    }
}
