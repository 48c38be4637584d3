use repotracer::granularity::{select_by_keys, select_commits, select_commits_checked, Granularity, Moment};

const JAN3_10: i64 = 1704276000;
const JAN3_08: i64 = 1704268800;
const JAN2_12: i64 = 1704196800;
const JAN1_00: i64 = 1704067200;
const DEC30_05: i64 = 1703912400;
const JAN3_09: i64 = 1704272400;

fn walk() -> Vec<i64> {
    vec![JAN3_10, JAN3_08, JAN2_12, JAN1_00, DEC30_05]
}

#[test]
fn granularity_names() {
    assert_eq!(Granularity::from_string("infinite"), Some(Granularity::Infinite));
    assert_eq!(Granularity::from_string("all"), Some(Granularity::Infinite));
    assert_eq!(Granularity::from_string("day"), Some(Granularity::Daily));
    assert_eq!(Granularity::from_string("daily"), Some(Granularity::Daily));
    assert_eq!(Granularity::from_string("hour"), Some(Granularity::Hourly));
    assert_eq!(Granularity::from_string("hourly"), Some(Granularity::Hourly));
    assert_eq!(Granularity::from_string("week"), Some(Granularity::Weekly));
    assert_eq!(Granularity::from_string("weekly"), Some(Granularity::Weekly));
    assert_eq!(Granularity::from_string("month"), Some(Granularity::Monthly));
    assert_eq!(Granularity::from_string("monthly"), Some(Granularity::Monthly));
    assert_eq!(Granularity::from_string("Daily"), None);
    assert_eq!(Granularity::from_string("yearly"), None);
    assert_eq!(Granularity::from_string(""), None);
}

#[test]
fn infinite_keeps_every_commit_in_walk_order() {
    assert_eq!(select_commits(&walk(), Granularity::Infinite, None, None), vec![0, 1, 2, 3, 4]);
}

#[test]
fn daily_keeps_newest_commit_of_each_day_oldest_day_first() {
    assert_eq!(select_commits(&walk(), Granularity::Daily, None, None), vec![4, 3, 2, 0]);
}

#[test]
fn hourly_keeps_each_hour() {
    assert_eq!(select_commits(&walk(), Granularity::Hourly, None, None), vec![4, 3, 2, 1, 0]);
}

#[test]
fn every_six_hours_groups_hours() {
    // 08:00 and 10:00 of the same day fall in the period starting at 06.
    assert_eq!(
        select_commits(&walk(), Granularity::EveryXHours(6), None, None),
        vec![4, 3, 2, 0]
    );
}

#[test]
fn weekly_weeks_start_on_sunday() {
    // Jan 1-3 2024 lie in the week of Sunday Dec 31; Dec 30 in that of Dec 24.
    assert_eq!(select_commits(&walk(), Granularity::Weekly, None, None), vec![4, 0]);
}

#[test]
fn monthly_keeps_newest_of_each_month() {
    assert_eq!(select_commits(&walk(), Granularity::Monthly, None, None), vec![4, 0]);
}

#[test]
fn walk_stops_before_start_and_skips_after_end() {
    let start = Some(Moment { secs: JAN2_12, nanos: 0 });
    let end = Some(Moment { secs: JAN3_09, nanos: 0 });
    assert_eq!(select_commits(&walk(), Granularity::Infinite, start, end), vec![1, 2]);
    assert_eq!(select_commits(&walk(), Granularity::Daily, start, end), vec![2, 1]);
}

#[test]
fn start_with_nanoseconds_excludes_that_second() {
    let start = Some(Moment { secs: JAN2_12, nanos: 1 });
    assert_eq!(select_commits(&walk(), Granularity::Infinite, start, None), vec![0, 1]);
}

#[test]
fn empty_walk_selects_nothing() {
    assert!(select_commits(&vec![], Granularity::Weekly, None, None).is_empty());
}

#[test]
fn negative_timestamps_use_floor_days() {
    // One second before the epoch: 1969-12-31 23:59:59, a Wednesday.
    let times = vec![-1i64, 0];
    assert_eq!(select_commits(&times, Granularity::Daily, None, None), vec![0, 1]);
    assert_eq!(select_commits(&times, Granularity::Weekly, None, None), vec![0]);
    assert_eq!(select_commits(&times, Granularity::EveryXHours(5), None, None), vec![0, 1]);
}

#[test]
fn checked_selection_refuses_out_of_range_dates() {
    let times = vec![JAN3_10, i64::MAX];
    assert_eq!(select_commits_checked(&times, Granularity::Daily, None, None), None);
    // The walk stops before reaching the bad date.
    let start = Some(Moment { secs: JAN1_00, nanos: 0 });
    let times = vec![JAN3_10, DEC30_05, i64::MAX];
    assert_eq!(
        select_commits_checked(&times, Granularity::Daily, start, None),
        Some(vec![0])
    );
}

#[test]
fn checked_selection_refuses_zero_hour_periods() {
    assert_eq!(select_commits_checked(&walk(), Granularity::EveryXHours(0), None, None), None);
    assert_eq!(
        select_commits_checked(&walk(), Granularity::EveryXHours(1 << 32), None, None),
        None
    );
    assert_eq!(
        select_commits_checked(&walk(), Granularity::Monthly, None, None),
        Some(vec![4, 0])
    );
}

#[test]
fn selection_by_given_keys() {
    let times = vec![50, 40, 30, 20, 10];
    let keys: Vec<String> = ["b", "b", "a", "c", "a"].iter().map(|k| k.to_string()).collect();
    // One commit per key, the first of the walk, ordered by key.
    assert_eq!(select_by_keys(&times, &keys, true, None, None), vec![2, 0, 3]);
    // Without periods every commit in range is kept, in walk order.
    assert_eq!(select_by_keys(&times, &keys, false, None, None), vec![0, 1, 2, 3, 4]);
    // The walk skips commits after the end and stops before the start.
    let end = Some(Moment { secs: 45, nanos: 0 });
    let start = Some(Moment { secs: 20, nanos: 0 });
    assert_eq!(select_by_keys(&times, &keys, true, start, end), vec![2, 1, 3]);
    assert_eq!(select_by_keys(&times, &keys, false, start, end), vec![1, 2, 3]);
}
