use repotracer::config::{add_repo, add_stat, GlobalConfig, ParamValue, UserRepoConfig, UserStatConfig};
use repotracer::granularity::Granularity;
use repotracer::measurement::MeasurementKind;
use repotracer::stat::{
    all_measurements, build_measurement, get_pairs_to_run, run_stat_command,
    try_build_measurement, Measurement, Stat,
};

fn stat(type_: &str, params: Option<ParamValue>) -> UserStatConfig {
    UserStatConfig {
        name: "s".to_string(),
        description: String::new(),
        type_: type_.to_string(),
        params,
        path_in_repo: None,
        start: None,
        end: None,
        granularity: None,
    }
}

fn object(fields: Vec<(&str, ParamValue)>) -> Option<ParamValue> {
    Some(ParamValue::Object(fields.into_iter().map(|(k, v)| (k.to_string(), v)).collect()))
}

fn text(s: &str) -> ParamValue {
    ParamValue::Text(s.to_string())
}

#[test]
fn measurement_names() {
    assert_eq!(
        all_measurements(),
        vec!["tokei", "regex_count", "file_count", "script", "file_script"]
    );
}

#[test]
fn builds_each_kind() {
    assert!(matches!(build_measurement(&stat("tokei", None)), Measurement::Tokei(_)));
    assert!(matches!(build_measurement(&stat("grep", None)), Measurement::Grep(_)));
    assert!(matches!(build_measurement(&stat("regex_count", None)), Measurement::Grep(_)));
    match build_measurement(&stat("file_count", None)) {
        Measurement::FileCount(c) => {
            assert_eq!(c.measure_file("index.html").0, 1);
            assert_eq!(c.measure_file("main.rs").0, 0);
        }
        _ => panic!("file_count builds a path counter"),
    }
    match build_measurement(&stat("script", None)) {
        Measurement::Script(s) => assert_eq!(s.script, "echo 1"),
        _ => panic!("script builds a script collector"),
    }
    match build_measurement(&stat(
        "file_script",
        object(vec![("command", text("wc")), ("args", ParamValue::List(vec![text("-l")]))]),
    )) {
        Measurement::FileScript(f) => {
            assert_eq!(f.command().executable, "wc");
            assert_eq!(f.command().args, vec!["-l".to_string()]);
        }
        _ => panic!("file_script builds a command measurement"),
    }
    match build_measurement(&stat("jq", None)) {
        Measurement::Jq(q) => assert_eq!(q, "."),
        _ => panic!("jq keeps its query"),
    }
}

#[test]
fn grep_uses_pattern_parameter() {
    match build_measurement(&stat("grep", object(vec![("pattern", text("FIXME"))]))) {
        Measurement::Grep(g) => {
            assert_eq!(g.measure_file("FIXME\nTODO\n").unwrap().0, 1);
        }
        _ => panic!("grep builds a regex counter"),
    }
    match build_measurement(&stat("grep", None)) {
        Measurement::Grep(g) => assert_eq!(g.measure_file("todo\n").unwrap().0, 1),
        _ => panic!("grep builds a regex counter"),
    }
}

#[test]
fn refuses_what_cannot_be_built() {
    assert!(try_build_measurement(&stat("nope", None)).is_none());
    assert!(try_build_measurement(&stat("tokei", None)).is_some());
    assert!(try_build_measurement(&stat(
        "tokei",
        object(vec![("languages", ParamValue::List(vec![text("Klingon")]))])
    ))
    .is_none());
    assert!(try_build_measurement(&stat(
        "tokei",
        object(vec![("topn", ParamValue::Number("-1".to_string()))])
    ))
    .is_none());
    assert!(try_build_measurement(&stat(
        "tokei",
        object(vec![("topn", ParamValue::Number("99999999999999999999999".to_string()))])
    ))
    .is_none());
    assert!(try_build_measurement(&stat("file_count", object(vec![("pattern", text("a["))])))
        .is_none());
    assert!(try_build_measurement(&stat("file_script", object(vec![("command", text(""))])))
        .is_none());
    assert!(try_build_measurement(&stat("grep", object(vec![("pattern", ParamValue::Null)])))
        .is_none());
}

#[test]
fn stat_kinds() {
    assert_eq!(Stat::from_config(&stat("file_count", None)).measurement_kind, MeasurementKind::FilePathOnly);
    assert_eq!(Stat::from_config(&stat("script", None)).measurement_kind, MeasurementKind::WholeRepo);
    assert_eq!(Stat::from_config(&stat("tokei", None)).measurement_kind, MeasurementKind::FilePathAndContents);
}

fn two_repos() -> GlobalConfig {
    let mut config = GlobalConfig::new();
    for name in ["a", "b", "c"] {
        add_repo(
            &mut config,
            UserRepoConfig {
                name: name.to_string(),
                source: "github.com".to_string(),
                storage_path: None,
                default_branch: None,
                stats: None,
            },
        );
    }
    add_stat(&mut config, "a", "loc", stat("tokei", None));
    add_stat(&mut config, "a", "todos", stat("grep", None));
    add_stat(&mut config, "b", "files", stat("file_count", None));
    config
}

fn pairs(v: &[(&str, &str)]) -> Vec<(String, String)> {
    v.iter().map(|(a, b)| (a.to_string(), b.to_string())).collect()
}

#[test]
fn pairs_to_run() {
    let config = two_repos();
    assert_eq!(
        get_pairs_to_run(&config, None, None),
        pairs(&[("a", "loc"), ("a", "todos"), ("b", "files")])
    );
    let a = "a".to_string();
    let c = "c".to_string();
    let x = "x".to_string();
    assert_eq!(get_pairs_to_run(&config, Some(&a), None), pairs(&[("a", "loc"), ("a", "todos")]));
    assert_eq!(get_pairs_to_run(&config, Some(&c), None), pairs(&[]));
    assert_eq!(get_pairs_to_run(&config, Some(&x), Some(&a)), pairs(&[("x", "a")]));
    assert_eq!(get_pairs_to_run(&config, None, Some(&a)), pairs(&[]));
}

#[test]
fn run_plan_granularity() {
    let config = two_repos();
    let weekly = "weekly".to_string();
    let bogus = "bogus".to_string();
    assert_eq!(run_stat_command(&config, None, None, None).granularity, Granularity::Daily);
    assert_eq!(run_stat_command(&config, None, None, Some(&weekly)).granularity, Granularity::Weekly);
    assert_eq!(run_stat_command(&config, None, None, Some(&bogus)).granularity, Granularity::Daily);
    assert_eq!(run_stat_command(&config, None, None, None).pairs.len(), 3);
}
