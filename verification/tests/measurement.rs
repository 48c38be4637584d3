use repotracer::measurement::{
    decimal_text, sum_matches, FileCount, MeasurementData, MeasurementKind, NumMatches,
    PossiblyEmpty,
};

#[test]
fn kinds() {
    assert!(MeasurementKind::FilePathOnly.is_file_level());
    assert!(MeasurementKind::FilePathAndContents.is_file_level());
    assert!(!MeasurementKind::WholeRepo.is_file_level());
    assert!(!MeasurementKind::FilePathOnly.can_batch());
    assert!(MeasurementKind::FilePathAndContents.can_batch());
    assert!(!MeasurementKind::WholeRepo.can_batch());
}

#[test]
fn measurement_data_access() {
    let tree: MeasurementData<String> = MeasurementData::TreeData((3, "x".to_string()));
    let file: MeasurementData<String> = MeasurementData::FileData("y".to_string());
    assert_eq!(tree.get_count(), 3);
    assert_eq!(file.get_count(), 1);
    assert_eq!(tree.to_string(), "x");
    assert_eq!(file.to_string(), "y");
    assert_eq!(tree.unwrap_tree(), "x");
    assert_eq!(file.unwrap_file(), "y");
}

#[test]
#[allow(clippy::bool_assert_comparison)]
fn emptiness() {
    assert!(NumMatches(0).is_empty());
    assert!(!NumMatches(2).is_empty());
    assert!(FileCount(0).is_empty());
    assert!(!FileCount(1).is_empty());
    assert!(PossiblyEmpty::is_empty(&String::new()));
    assert!(!PossiblyEmpty::is_empty(&"a".to_string()));
}

#[test]
fn decimal_text_writes_like_to_string() {
    for n in [0u64, 7, 10, 99, 100, 1234, 4000000000, u64::MAX] {
        assert_eq!(decimal_text(n), n.to_string());
    }
}

#[test]
fn sums_matches() {
    assert_eq!(sum_matches(&vec![]), 0);
    assert_eq!(sum_matches(&vec![NumMatches(2), NumMatches(0), NumMatches(5)]), 7);
}
