use repotracer::tokei_stats::{TokeiCollector, TokeiStat};

fn stat(language: &str, blanks: usize, code: usize, comments: usize) -> TokeiStat {
    TokeiStat { language: language.to_string(), blanks, code, comments }
}

#[test]
fn default_stat_is_empty() {
    let d = TokeiStat::default();
    assert_eq!(d.language, "ABNF");
    assert_eq!((d.blanks, d.code, d.comments), (0, 0, 0));
}

#[test]
fn adds_counts_keeping_language() {
    let a = stat("Rust", 1, 2, 3).add(stat("Python", 10, 20, 30));
    assert_eq!(a.language, "Rust");
    assert_eq!((a.blanks, a.code, a.comments), (11, 22, 33));
    let mut b = stat("C", 1, 1, 1);
    b.add_assign(stat("C", 2, 3, 4));
    assert_eq!((b.blanks, b.code, b.comments), (3, 4, 5));
}

#[test]
fn counts_rust_file() {
    let c = TokeiCollector::new(None, None);
    let s = c.measure_file("src/main.rs", "fn main() {}\n// note\n\n");
    assert_eq!(s.language, "Rust");
    assert_eq!((s.code, s.comments, s.blanks), (1, 1, 1));
}

#[test]
fn hidden_files_count_nothing() {
    let c = TokeiCollector::new(None, None);
    let s = c.measure_file(".cargo/x.rs", "fn main() {}\n");
    assert_eq!(s.code, 0);
    assert_eq!(s.language, "ABNF");
    let s = c.measure_file("a/.hidden/x.rs", "fn main() {}\n");
    assert_eq!(s.code, 0);
}

#[test]
fn language_filter() {
    let c = TokeiCollector::new(Some(vec!["python".to_string()]), None);
    assert_eq!(c.measure_file("a.rs", "fn main() {}\n").code, 0);
    assert_eq!(c.measure_file("a.py", "x = 1\n").code, 1);
    let s = c.measure_with_language("a.py", Some("Python".to_string()), "x = 1\ny = 2\n");
    assert_eq!(s.code, 2);
    let none = c.measure_with_language("a.py", None, "x = 1\n");
    assert_eq!(none.code, 0);
}

#[test]
fn unknown_language_is_refused() {
    assert!(TokeiCollector::try_new(Some(vec!["NotALanguage".to_string()]), None).is_none());
    assert!(TokeiCollector::try_new(Some(vec!["rust".to_string()]), Some(3)).is_some());
    assert!(TokeiCollector::try_new(None, None).is_some());
}

#[test]
fn summary_groups_sorts_and_truncates() {
    let stats = vec![
        stat("Rust", 0, 5, 0),
        stat("Python", 1, 10, 0),
        stat("Rust", 0, 7, 0),
        stat("Go", 0, 0, 0),
        stat("C", 0, 10, 1),
    ];
    let all = TokeiCollector::new(None, None).summarize_tree_data(&stats);
    assert_eq!(
        all,
        vec![
            ("Rust".to_string(), "12".to_string()),
            ("Python".to_string(), "10".to_string()),
            ("C".to_string(), "10".to_string()),
        ]
    );
    let top = TokeiCollector::new(None, Some(1)).summarize_tree_data(&stats);
    assert_eq!(top, vec![("Rust".to_string(), "12".to_string())]);
    let none = TokeiCollector::new(None, Some(0)).summarize_tree_data(&stats);
    assert!(none.is_empty());
}

#[test]
fn summary_of_nothing_is_empty() {
    assert!(TokeiCollector::new(None, None).summarize_tree_data(&vec![]).is_empty());
}

#[test]
fn known_file_names_decide_the_language() {
    let c = TokeiCollector::new(None, None);
    let s = c.measure_file("build/Makefile", "all:\n\techo hi\n# note\n");
    assert_eq!(s.language, "Makefile");
    assert_eq!((s.code, s.comments, s.blanks), (2, 1, 0));
    let s = c.measure_file("Dockerfile", "FROM rust\n");
    assert_eq!(s.language, "Dockerfile");
    assert_eq!(s.code, 1);
}

#[test]
fn languages_by_display_or_variant_name() {
    let c = TokeiCollector::try_new(Some(vec!["Cpp".to_string()]), None).unwrap();
    assert_eq!(c.measure_file("a.cpp", "int x;\n").code, 1);
    assert_eq!(c.measure_file("a.rs", "fn main() {}\n").code, 0);
    let c = TokeiCollector::try_new(Some(vec!["C++".to_string()]), None).unwrap();
    assert_eq!(c.measure_file("a.cpp", "int x;\n").code, 1);
    assert!(TokeiCollector::try_new(Some(vec!["CppHeader".to_string()]), None).is_some());
    assert!(TokeiCollector::try_new(Some(vec!["Cplusplus".to_string()]), None).is_none());
}
