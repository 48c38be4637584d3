use repotracer::glob_pattern::CompiledPattern;
use repotracer::repo_cache::{MyEntry, TreeChild, TreeChildKind, TreeEntry};
use repotracer::tree_walk::{FileMemo, FlatRepo};
use std::collections::HashMap;

// Object numbers: 0 the root tree, 1 README.md, 2 the tree "src",
// 3 src/lib.rs, 4 the tree "src/util", 5 src/util/mod.rs.
fn sample_repo() -> FlatRepo {
    let entries = vec![
        MyEntry { oid_idx: 1, filename_idx: 0, kind: TreeChildKind::Blob },
        MyEntry { oid_idx: 2, filename_idx: 1, kind: TreeChildKind::Tree },
        MyEntry { oid_idx: 3, filename_idx: 2, kind: TreeChildKind::Blob },
        MyEntry { oid_idx: 4, filename_idx: 3, kind: TreeChildKind::Tree },
        MyEntry { oid_idx: 5, filename_idx: 4, kind: TreeChildKind::Blob },
    ];
    let mut trees = HashMap::new();
    trees.insert(0, TreeChild::Tree(TreeEntry { oid_idx: 0, children: vec![0, 1] }));
    trees.insert(2, TreeChild::Tree(TreeEntry { oid_idx: 2, children: vec![2, 3] }));
    trees.insert(4, TreeChild::Tree(TreeEntry { oid_idx: 4, children: vec![4] }));
    trees.insert(1, TreeChild::Blob);
    let filenames = vec![
        "README.md".to_string(),
        "src".to_string(),
        "lib.rs".to_string(),
        "util".to_string(),
        "mod.rs".to_string(),
    ];
    FlatRepo { entries, trees, filenames }
}

#[test]
fn commit_files_lists_every_file_with_its_path() {
    let repo = sample_repo();
    let mut memo: FileMemo = HashMap::new();
    let files = repo.commit_files(&mut memo, 0, 10).unwrap();
    assert_eq!(files, vec![(vec![0], 0), (vec![1, 2], 2), (vec![1, 3, 4], 4)]);
    let paths: Vec<String> = files.iter().map(|f| repo.path_string(&f.0)).collect();
    assert_eq!(paths, vec!["README.md", "src/lib.rs", "src/util/mod.rs"]);
}

#[test]
fn commit_files_reuses_remembered_trees() {
    let repo = sample_repo();
    let mut memo: FileMemo = HashMap::new();
    let first = repo.commit_files(&mut memo, 0, 10).unwrap();
    assert!(memo.contains_key(&0));
    let second = repo.commit_files(&mut memo, 0, 10).unwrap();
    assert_eq!(first, second);
    let below_src = repo.files_below(&mut memo, 2, 10);
    assert_eq!(below_src, vec![(vec![2], 2), (vec![3, 4], 4)]);
}

#[test]
fn commit_files_stops_at_the_depth() {
    let repo = sample_repo();
    let mut memo: FileMemo = HashMap::new();
    assert_eq!(repo.commit_files(&mut memo, 0, 0).unwrap(), vec![(vec![0], 0)]);
    let mut memo: FileMemo = HashMap::new();
    assert_eq!(repo.commit_files(&mut memo, 0, 1).unwrap(), vec![(vec![0], 0), (vec![1, 2], 2)]);
}

#[test]
fn commit_files_of_unknown_or_blob_root_is_none() {
    let repo = sample_repo();
    let mut memo: FileMemo = HashMap::new();
    assert_eq!(repo.commit_files(&mut memo, 1, 10), None);
    assert_eq!(repo.commit_files(&mut memo, 9, 10), None);
}

#[test]
fn files_matching_keeps_the_files_whose_path_matches() {
    let repo = sample_repo();
    let mut memo: FileMemo = HashMap::new();
    let files = repo.commit_files(&mut memo, 0, 10).unwrap();
    let rs = CompiledPattern::compile("**/*.rs").unwrap();
    assert_eq!(repo.files_matching(&files, &rs), vec![(vec![1, 2], 2), (vec![1, 3, 4], 4)]);
    let md = CompiledPattern::compile("*.md").unwrap();
    assert_eq!(repo.files_matching(&files, &md), vec![(vec![0], 0)]);
    let none = CompiledPattern::compile("docs/*").unwrap();
    assert_eq!(repo.files_matching(&files, &none), Vec::<(Vec<u32>, u32)>::new());
}
