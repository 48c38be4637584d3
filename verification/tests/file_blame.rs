use repotracer::file_blame::FileBlame;

#[test]
fn test_cohort_stats() {
    let blame = FileBlame::new(0, 2022u32);
    let blame = blame.apply_line_diffs(vec![(0..0, 0..10, 2022), (0..0, 5..10, 2023)]);

    let stats = blame.cohort_stats();
    assert_eq!(stats.get(&2022), Some(&10));
    assert_eq!(stats.get(&2023), Some(&5));
}

#[test]
fn test_apply_line_diffs_equal_length_hunks_near_end() {
    let blame = FileBlame::new(160, 2000u32);

    // Multiple replacements near the end; total_lines must stay unchanged
    let diffs = vec![
        (46..49, 46..49, 2006),
        (65..66, 65..66, 2006),
        (92..95, 92..95, 2006),
        (99..100, 99..100, 2006),
        (104..105, 104..105, 2006),
        (106..107, 106..107, 2006),
        (109..110, 109..110, 2006),
        (111..113, 111..113, 2006),
        (138..145, 138..145, 2006),
        (146..149, 146..149, 2006),
        (153..154, 153..154, 2006),
    ];

    let old_total = blame.total_lines();
    let blame = blame.apply_line_diffs(diffs);
    assert_eq!(blame.total_lines(), old_total);
    blame.validate().unwrap();
}

#[test]
fn test_apply_line_diffs_insertion_then_deletion_tail() {
    let blame = FileBlame::new(200, 1999u32);
    // Insert 5 lines at position 50
    let blame = blame.apply_line_diffs(vec![(50..50, 50..55, 2001)]);
    assert_eq!(blame.total_lines(), 205);
    blame.validate().unwrap();
    // Now delete last 10 lines (from position 195..205 -> 195..195)
    let blame = blame.apply_line_diffs(vec![(195..205, 195..195, 2002)]);
    assert_eq!(blame.total_lines(), 195);
    blame.validate().unwrap();
}

#[test]
fn test_apply_line_diffs_insertion_and_followup_replacements() {
    let blame = FileBlame::new(150, 2015u32);
    // Insert 4 lines at 20
    let blame = blame.apply_line_diffs(vec![(20..20, 20..24, 2016)]);
    assert_eq!(blame.total_lines(), 154);
    // Multiple replacements later in the file
    let old_total = blame.total_lines();
    let blame =
        blame.apply_line_diffs(vec![(100..102, 100..102, 2017), (150..151, 150..151, 2017)]);
    assert_eq!(blame.total_lines(), old_total);
    blame.validate().unwrap();
}

#[test]
fn test_apply_line_diffs_resume_would_land_at_final_end() {
    let blame = FileBlame::new(100, 1u32);
    // Hunk 1: simple replacement 90..95 -> 90..95 (delta 0)
    // Hunk 2: delete tail 95..100 -> 95..95 (delta -5)
    let diffs = vec![(90..95, 90..95, 2), (95..100, 95..95, 3)];
    let blame = blame.apply_line_diffs(diffs);
    assert_eq!(blame.total_lines(), 95);
    blame.validate().unwrap();
}

/// Each line's cohort, in order.
fn lines_of(blame: &FileBlame<u32>) -> Vec<u32> {
    let mut out = Vec::new();
    for (start, end, cohort) in blame.ranges() {
        for _ in start..end {
            out.push(cohort);
        }
    }
    out
}

#[test]
fn new_blame_is_one_range() {
    let blame = FileBlame::new(7, 3u32);
    assert_eq!(blame.total_lines(), 7);
    assert_eq!(blame.range_count(), 1);
    assert_eq!(blame.ranges(), vec![(0, 7, 3)]);
    assert_eq!(blame.cohort_stats().get(&3), Some(&7));
}

#[test]
fn empty_blame_has_no_ranges() {
    let blame = FileBlame::new(0, 3u32);
    assert_eq!(blame.total_lines(), 0);
    assert_eq!(blame.range_count(), 0);
    assert!(blame.ranges().is_empty());
    assert!(blame.cohort_stats().is_empty());
}

#[test]
fn replacement_splits_range() {
    let blame = FileBlame::new(10, 1u32);
    let blame = blame.apply_line_diffs(vec![(4..6, 4..7, 2)]);
    assert_eq!(blame.total_lines(), 11);
    assert_eq!(lines_of(&blame), vec![1, 1, 1, 1, 2, 2, 2, 1, 1, 1, 1]);
    assert_eq!(blame.ranges(), vec![(0, 4, 1), (4, 7, 2), (7, 11, 1)]);
    let stats = blame.cohort_stats();
    assert_eq!(stats.get(&1), Some(&8));
    assert_eq!(stats.get(&2), Some(&3));
}

#[test]
fn unsorted_hunks_are_applied_by_start() {
    let blame = FileBlame::new(6, 0u32);
    let sorted = blame.apply_line_diffs(vec![(1..2, 1..1, 5), (4..5, 3..5, 6)]);
    let unsorted = blame.apply_line_diffs(vec![(4..5, 3..5, 6), (1..2, 1..1, 5)]);
    assert_eq!(lines_of(&sorted), lines_of(&unsorted));
    assert_eq!(lines_of(&sorted), vec![0, 0, 0, 6, 6, 0]);
}

#[test]
fn no_hunks_leave_blame_unchanged() {
    let blame = FileBlame::new(5, 9u32);
    let after = blame.apply_line_diffs(vec![]);
    assert_eq!(lines_of(&after), lines_of(&blame));
}

#[test]
fn deleting_everything_empties_the_file() {
    let blame = FileBlame::new(5, 9u32);
    let after = blame.apply_line_diffs(vec![(0..5, 0..0, 1)]);
    assert_eq!(after.total_lines(), 0);
    assert_eq!(after.range_count(), 0);
}

#[test]
fn merging_keeps_lines() {
    let blame = FileBlame::new(4, 1u32);
    let mut blame = blame.apply_line_diffs(vec![(1..2, 1..2, 1)]);
    let before = lines_of(&blame);
    blame.merge_adjacent_ranges();
    assert_eq!(lines_of(&blame), before);
    assert_eq!(blame.range_count(), 1);
}

#[test]
fn cohort_counts_match_the_runs() {
    let b = FileBlame::new(10, 2020u32);
    let r = b.apply_line_diffs(vec![(2..4, 2..5, 2021), (8..8, 9..10, 2022)]);
    let ranges = r.ranges();
    let stats = r.cohort_stats();
    let mut total = 0u64;
    for (k, v) in stats.iter() {
        let from_runs: u64 = ranges.iter().filter(|x| x.2 == *k).map(|x| (x.1 - x.0) as u64).sum();
        assert_eq!(*v, from_runs);
        total += *v;
    }
    assert_eq!(total, r.total_lines() as u64);
    // No hunks: the same runs.
    assert_eq!(r.apply_line_diffs(vec![]).ranges(), ranges);
}
