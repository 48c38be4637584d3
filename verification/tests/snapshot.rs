use repotracer::snapshot::{
    addition_action, classify_modification, commit_cohort_year, count_lines, modification_diffs,
    ModificationOutcome, RepositoryBlameSnapshot, SnapshotAction, TheseusConfig,
};

fn p(s: &str) -> Vec<u8> {
    s.as_bytes().to_vec()
}

#[test]
fn add_rename_delete() {
    let mut snap: RepositoryBlameSnapshot<u32> = RepositoryBlameSnapshot::new(p("abc"));
    assert_eq!(snap.commit_id(), &p("abc"));
    snap.add_file(&p("a.rs"), 3, 2020);
    snap.add_file(&p("b.rs"), 2, 2021);
    assert!(snap.rename_file(&p("a.rs"), &p("c.rs")).is_ok());
    assert!(snap.rename_file(&p("a.rs"), &p("d.rs")).is_err());
    assert!(snap.get_file_blame_mut(&p("c.rs")).is_some());
    assert!(snap.get_file_blame_mut(&p("a.rs")).is_none());
    let stats = snap.repository_cohort_stats();
    assert_eq!(stats.get(&2020), Some(&3));
    assert_eq!(stats.get(&2021), Some(&2));
    let removed = snap.delete_file(&p("b.rs")).unwrap();
    assert_eq!(removed.total_lines(), 2);
    assert!(snap.delete_file(&p("b.rs")).is_none());
    assert_eq!(snap.repository_cohort_stats().get(&2021), None);
}

#[test]
fn adding_again_replaces() {
    let mut snap: RepositoryBlameSnapshot<u32> = RepositoryBlameSnapshot::new(vec![]);
    snap.add_file(&p("a"), 3, 1);
    snap.add_file(&p("a"), 5, 2);
    let stats = snap.repository_cohort_stats();
    assert_eq!(stats.get(&1), None);
    assert_eq!(stats.get(&2), Some(&5));
}

#[test]
fn commit_actions_apply_renames_first_and_deletions_last() {
    let mut snap: RepositoryBlameSnapshot<u32> = RepositoryBlameSnapshot::new(vec![]);
    snap.add_file(&p("old"), 4, 1);
    let actions = vec![
        SnapshotAction::DeleteFile { location: p("new") },
        SnapshotAction::AddFile { location: p("x"), total_lines: 2, cohort: 7 },
        SnapshotAction::ApplyLineDiffs { location: p("new"), line_diffs: vec![(0..1, 0..1, 9)] },
        SnapshotAction::RenameFile { source_location: p("old"), location: p("new") },
        SnapshotAction::ApplyLineDiffs { location: p("missing"), line_diffs: vec![] },
    ];
    let errors = snap.apply_commit_actions(&actions);
    assert_eq!(errors.len(), 1);
    let stats = snap.repository_cohort_stats();
    assert_eq!(stats.get(&1), None);
    assert_eq!(stats.get(&7), Some(&2));
}

#[test]
fn single_actions() {
    let mut snap: RepositoryBlameSnapshot<u32> = RepositoryBlameSnapshot::new(vec![]);
    assert!(snap
        .apply_action(SnapshotAction::AddFile { location: p("a"), total_lines: 1, cohort: 3 })
        .is_ok());
    assert!(snap
        .apply_action(SnapshotAction::ApplyLineDiffs { location: p("b"), line_diffs: vec![] })
        .is_err());
    assert!(snap
        .apply_action(SnapshotAction::RenameFile { source_location: p("b"), location: p("c") })
        .is_err());
    assert!(snap.apply_action(SnapshotAction::DeleteFile { location: p("zz") }).is_ok());
    assert_eq!(snap.repository_cohort_stats().get(&3), Some(&1));
}

#[test]
fn line_counts() {
    assert_eq!(count_lines(b""), 0);
    assert_eq!(count_lines(b"a"), 1);
    assert_eq!(count_lines(b"a\n"), 1);
    assert_eq!(count_lines(b"a\nb"), 2);
    assert_eq!(count_lines(b"\n\n"), 2);
    assert_eq!(count_lines(b"a\r\nb\r\n"), 2);
    match addition_action(p("f"), b"x\ny\nz", 5u32) {
        SnapshotAction::AddFile { location, total_lines, cohort } => {
            assert_eq!(location, p("f"));
            assert_eq!(total_lines, 3);
            assert_eq!(cohort, 5);
        }
        _ => panic!("an addition adds a file"),
    }
}

#[test]
fn modification_outcomes() {
    assert_eq!(classify_modification(true, true, false), ModificationOutcome::DiffContents);
    assert_eq!(classify_modification(true, true, true), ModificationOutcome::DiffContents);
    assert_eq!(classify_modification(false, true, true), ModificationOutcome::AddFile);
    assert_eq!(classify_modification(true, false, true), ModificationOutcome::DeleteFile);
    assert_eq!(classify_modification(false, false, true), ModificationOutcome::DeleteFile);
    assert_eq!(classify_modification(false, false, false), ModificationOutcome::DiffContents);
}

#[test]
fn theseus_defaults() {
    let c = TheseusConfig::default();
    assert_eq!(c.cohort_format, "%Y");
    assert_eq!(c.interval_days, 7);
    assert_eq!(c.branch, "main");
}

#[test]
fn error_messages_name_the_path() {
    let mut snap: RepositoryBlameSnapshot<u32> = RepositoryBlameSnapshot::new(vec![]);
    assert_eq!(
        snap.apply_action(SnapshotAction::ApplyLineDiffs { location: p("src/x.rs"), line_diffs: vec![] }),
        Err("Could not find blame info for path \"src/x.rs\", most likely it was moved".to_string())
    );
    assert_eq!(
        snap.rename_file(&p("gone.rs"), &p("new.rs")),
        Err("File not found for rename: \"gone.rs\"".to_string())
    );
}

#[test]
fn line_diffs_update_the_blame_of_the_file() {
    let mut snap: RepositoryBlameSnapshot<u32> = RepositoryBlameSnapshot::new(vec![]);
    snap.add_file(&p("a.rs"), 10, 2020);
    // One line inserted before line 3, and line 7 replaced.
    let diffs = vec![(3..3, 3..4, 2021), (7..8, 8..9, 2022)];
    assert_eq!(snap.apply_action(SnapshotAction::ApplyLineDiffs { location: p("a.rs"), line_diffs: diffs }), Ok(()));
    let blame = snap.get_file_blame_mut(&p("a.rs")).unwrap();
    assert_eq!(blame.total_lines(), 11);
    assert_eq!(blame.ranges(), vec![(0, 3, 2020), (3, 4, 2021), (4, 8, 2020), (8, 9, 2022), (9, 11, 2020)]);
    let stats = snap.repository_cohort_stats();
    assert_eq!(stats.get(&2020), Some(&9));
    assert_eq!(stats.get(&2021), Some(&1));
    assert_eq!(stats.get(&2022), Some(&1));
}

#[test]
fn line_diffs_that_do_not_fit_change_nothing() {
    let mut snap: RepositoryBlameSnapshot<u32> = RepositoryBlameSnapshot::new(vec![]);
    snap.add_file(&p("a.rs"), 3, 1);
    assert_eq!(
        snap.apply_action(SnapshotAction::ApplyLineDiffs { location: p("a.rs"), line_diffs: vec![(2..5, 2..2, 9)] }),
        Err("Line diffs do not fit the blame of path \"a.rs\"".to_string())
    );
    assert_eq!(snap.repository_cohort_stats().get(&1), Some(&3));
}

#[test]
fn commit_errors_carry_their_messages() {
    let mut snap: RepositoryBlameSnapshot<u32> = RepositoryBlameSnapshot::new(vec![]);
    snap.add_file(&p("a.rs"), 2, 1);
    let actions = vec![
        SnapshotAction::ApplyLineDiffs { location: p("b.rs"), line_diffs: vec![] },
        SnapshotAction::RenameFile { source_location: p("gone.rs"), location: p("c.rs") },
        SnapshotAction::ApplyLineDiffs { location: p("a.rs"), line_diffs: vec![(5..6, 5..6, 2)] },
    ];
    let errors = snap.apply_commit_actions(&actions);
    assert_eq!(
        errors,
        vec![
            (0, "File not found for rename: \"gone.rs\"".to_string()),
            (2, "Could not find blame info for path \"b.rs\", most likely it was moved".to_string()),
            (2, "Line diffs do not fit the blame of path \"a.rs\"".to_string()),
        ]
    );
}

#[test]
fn paths_in_messages_are_shown_as_byte_strings() {
    let mut snap: RepositoryBlameSnapshot<u32> = RepositoryBlameSnapshot::new(vec![]);
    assert_eq!(
        snap.rename_file(&p("it's"), &p("x")),
        Err("File not found for rename: \"it\\'s\"".to_string())
    );
    assert_eq!(
        snap.rename_file(&b"a\x01".to_vec(), &p("x")),
        Err("File not found for rename: \"a\\x01\"".to_string())
    );
    assert_eq!(
        snap.rename_file(&b"\xffz".to_vec(), &p("x")),
        Err("File not found for rename: \"\\xffz\"".to_string())
    );
    assert_eq!(
        snap.apply_action(SnapshotAction::ApplyLineDiffs { location: p("tab\there"), line_diffs: vec![] }),
        Err("Could not find blame info for path \"tab\\there\", most likely it was moved".to_string())
    );
}

#[test]
fn modification_diffs_follow_the_line_diff() {
    assert_eq!(modification_diffs(b"a\nb\n", b"a\nc\n", 2024u32), vec![(1..2, 1..2, 2024)]);
    // a line added after a last line without a newline leaves that line alone
    assert_eq!(modification_diffs(b"a", b"a\nb", 7u32), vec![(1..1, 1..2, 7)]);
    assert_eq!(modification_diffs(b"x\ny\n", b"x\ny\n", 7u32), vec![]);
    assert_eq!(modification_diffs(b"x\ny\nz\n", b"z\n", 3u32), vec![(0..2, 0..0, 3)]);
}

#[test]
fn cohort_year_in_the_commit_time_zone() {
    assert_eq!(commit_cohort_year(0, 0), Some(1970));
    assert_eq!(commit_cohort_year(1_700_000_000, 0), Some(2023));
    // 1970-12-31 23:59:59 UTC is already 1971 an hour east of UTC
    assert_eq!(commit_cohort_year(31_535_999, 0), Some(1970));
    assert_eq!(commit_cohort_year(31_535_999, 3600), Some(1971));
    assert_eq!(commit_cohort_year(0, -3600), Some(1969));
    assert_eq!(commit_cohort_year(0, 86_400), None);
    assert_eq!(commit_cohort_year(i64::MAX, 0), None);
}
