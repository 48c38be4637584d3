use repotracer::jq_stats::{JqError, JqObjectCollector, JqObjectStat};

fn stat(entries: &[(&str, usize)]) -> JqObjectStat {
    JqObjectStat { data: entries.iter().map(|(k, v)| (k.to_string(), *v)).collect() }
}

fn pairs(s: &JqObjectStat) -> Vec<(String, usize)> {
    s.data.clone()
}

#[test]
fn add_sums_key_by_key() {
    let a = stat(&[("react", 2), ("vue", 1)]);
    let b = stat(&[("vue", 3), ("svelte", 4)]);
    let r = a.add(b);
    assert_eq!(
        pairs(&r),
        vec![("react".to_string(), 2), ("vue".to_string(), 4), ("svelte".to_string(), 4)]
    );
}

#[test]
fn add_assign_matches_add() {
    let mut a = stat(&[("x", 1)]);
    a.add_assign(stat(&[("x", 2), ("y", 5)]));
    assert_eq!(pairs(&a), vec![("x".to_string(), 3), ("y".to_string(), 5)]);
}

#[test]
fn default_is_empty() {
    let d = JqObjectStat::default();
    assert!(d.is_empty());
    assert!(!stat(&[("k", 0)]).is_empty());
    let r = stat(&[("k", 7)]).add(JqObjectStat::default());
    assert_eq!(pairs(&r), vec![("k".to_string(), 7)]);
}

#[test]
fn collector_compiles_its_query() {
    let c = JqObjectCollector::new(".dependencies").unwrap();
    assert_eq!(c.query(), ".dependencies");
    assert_eq!(JqObjectCollector::new("{{{").err(), Some(JqError::InvalidQuery));
    assert_eq!(JqObjectCollector::from_check("q", false).err(), Some(JqError::InvalidQuery));
    assert_eq!(JqObjectCollector::from_check("q", true).unwrap().query(), "q");
}

#[test]
fn summary_adds_up_the_files() {
    let c = JqObjectCollector::new(".deps").unwrap();
    let stats = vec![stat(&[("a", 1), ("b", 2)]), JqObjectStat::default(), stat(&[("b", 10), ("c", 0)])];
    let rows = c.summarize_tree_data(&stats);
    assert_eq!(
        rows,
        vec![
            ("jq_obj_query_.deps_a".to_string(), "1".to_string()),
            ("jq_obj_query_.deps_b".to_string(), "12".to_string()),
            ("jq_obj_query_.deps_c".to_string(), "0".to_string()),
        ]
    );
    assert_eq!(c.summarize_tree_data(&Vec::new()), Vec::<(String, String)>::new());
}
