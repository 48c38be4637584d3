use repotracer::repo_cache::{MyEntry, TreeChild, TreeChildKind};
use repotracer::repo_sets::FlatRepoWithSets;
use repotracer::tree_walk::FileMemo;
use std::collections::HashMap;

fn child(oid: u32, name: &str, kind: TreeChildKind) -> (u32, String, TreeChildKind) {
    (oid, name.to_string(), kind)
}

#[test]
fn add_tree_numbers_new_names_and_entries() {
    let mut sets = FlatRepoWithSets::new();
    assert!(!sets.has_tree(0));
    let next = sets
        .add_tree(0, &vec![child(1, "README.md", TreeChildKind::Blob), child(2, "src", TreeChildKind::Tree)])
        .unwrap();
    assert_eq!(next, vec![2]);
    assert!(sets.has_tree(0));
    // A second tree: one new name, one entry seen before.
    let next = sets
        .add_tree(2, &vec![child(3, "lib.rs", TreeChildKind::Blob), child(1, "README.md", TreeChildKind::Blob)])
        .unwrap();
    assert_eq!(next, Vec::<u32>::new());
    let flat = sets.into_flat_repo();
    assert_eq!(flat.filenames, vec!["README.md", "src", "lib.rs"]);
    assert_eq!(
        flat.entries,
        vec![
            MyEntry { oid_idx: 1, filename_idx: 0, kind: TreeChildKind::Blob },
            MyEntry { oid_idx: 2, filename_idx: 1, kind: TreeChildKind::Tree },
            MyEntry { oid_idx: 3, filename_idx: 2, kind: TreeChildKind::Blob },
        ]
    );
    match flat.trees.get(&2) {
        Some(TreeChild::Tree(t)) => assert_eq!(t.children, vec![2, 0]),
        _ => panic!("tree 2 is not recorded"),
    }
    match flat.trees.get(&0) {
        Some(TreeChild::Tree(t)) => assert_eq!(t.children, vec![0, 1]),
        _ => panic!("tree 0 is not recorded"),
    }
}

#[test]
fn reading_a_tree_again_adds_nothing() {
    let mut sets = FlatRepoWithSets::new();
    let children = vec![child(5, "a", TreeChildKind::Blob), child(6, "b", TreeChildKind::Tree)];
    sets.add_tree(4, &children).unwrap();
    let again = sets.add_tree(4, &children).unwrap();
    assert_eq!(again, vec![6]);
    let flat = sets.into_flat_repo();
    assert_eq!(flat.filenames.len(), 2);
    assert_eq!(flat.entries.len(), 2);
    assert_eq!(flat.trees.len(), 1);
}

#[test]
fn built_repo_lists_the_files_of_a_commit() {
    let mut sets = FlatRepoWithSets::new();
    sets.add_tree(0, &vec![child(1, "README.md", TreeChildKind::Blob), child(2, "src", TreeChildKind::Tree)])
        .unwrap();
    sets.add_tree(2, &vec![child(3, "main.rs", TreeChildKind::Blob)]).unwrap();
    let flat = sets.into_flat_repo();
    let mut memo: FileMemo = HashMap::new();
    let files = flat.commit_files(&mut memo, 0, 8).unwrap();
    let paths: Vec<String> = files.iter().map(|f| flat.path_string(&f.0)).collect();
    assert_eq!(paths, vec!["README.md", "src/main.rs"]);
}

#[test]
fn filename_cache_collects_the_names_of_each_blob() {
    let entries = vec![
        MyEntry { oid_idx: 7, filename_idx: 0, kind: TreeChildKind::Blob },
        MyEntry { oid_idx: 8, filename_idx: 1, kind: TreeChildKind::Tree },
        MyEntry { oid_idx: 7, filename_idx: 2, kind: TreeChildKind::Blob },
        MyEntry { oid_idx: 9, filename_idx: 0, kind: TreeChildKind::Blob },
        MyEntry { oid_idx: 7, filename_idx: 0, kind: TreeChildKind::Blob },
    ];
    let cache = repotracer::repo_sets::build_filename_cache(&entries);
    assert_eq!(cache.len(), 2);
    let mut names_of_7: Vec<u32> = cache[&7].iter().copied().collect();
    names_of_7.sort();
    assert_eq!(names_of_7, vec![0, 2]);
    assert_eq!(cache[&9].iter().copied().collect::<Vec<u32>>(), vec![0]);
    assert!(!cache.contains_key(&8));
    assert!(repotracer::repo_sets::build_filename_cache(&Vec::new()).is_empty());
}

#[test]
fn all_trees_read_once_every_subtree_is_recorded() {
    let mut sets = FlatRepoWithSets::new();
    assert!(sets.all_trees_read());
    sets.add_tree(0, &vec![child(1, "README.md", TreeChildKind::Blob), child(2, "src", TreeChildKind::Tree)])
        .unwrap();
    assert!(!sets.all_trees_read());
    sets.add_tree(2, &vec![child(3, "main.rs", TreeChildKind::Blob)]).unwrap();
    assert!(sets.all_trees_read());
}
