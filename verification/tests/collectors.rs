use repotracer::collectors::{
    CustomFileCommand, CustomFileMeasurement, CustomScriptCollector, GrepError,
    PathBlobCollector, RipgrepCollector,
};
use repotracer::measurement::NumMatches;

#[test]
fn regex_matches_per_line() {
    let c = RipgrepCollector::new("TO+DO");
    let m = c.get_matches("a TODO b\nnone\nTOOODO and TODO\n").unwrap();
    assert_eq!(m, vec![(1, "TODO".to_string()), (3, "TOOODO".to_string())]);
    assert_eq!(c.measure_file("a TODO b\nnone\nTOOODO and TODO\n"), Ok(NumMatches(2)));
    assert_eq!(c.measure_file("nothing here"), Ok(NumMatches(0)));
}

#[test]
fn invalid_regex_is_an_error() {
    let c = RipgrepCollector::new("(");
    assert_eq!(c.get_matches("x").unwrap_err(), GrepError::InvalidPattern);
    assert_eq!(c.measure_file("x"), Err(GrepError::InvalidPattern));
}

#[test]
fn path_glob_counts() {
    let c = PathBlobCollector::try_new("*.rs".to_string()).unwrap();
    assert_eq!(c.measure_file("src/a.rs"), NumMatches(1));
    assert_eq!(c.measure_file("a.py"), NumMatches(0));
    assert_eq!(c.measure_file("src.rs/"), NumMatches(0));
    let exact = PathBlobCollector::new("index.html".to_string());
    assert_eq!(exact.measure_file("index.html"), NumMatches(1));
    assert_eq!(exact.measure_file("site/index.html"), NumMatches(0));
}

#[test]
fn invalid_glob_is_refused() {
    assert!(PathBlobCollector::try_new("a[".to_string()).is_none());
}

#[test]
fn custom_commands() {
    let s = CustomScriptCollector::new("echo 1".to_string());
    assert_eq!(s.script, "echo 1");
    let err = CustomFileMeasurement::new(CustomFileCommand {
        executable: String::new(),
        args: vec![],
    });
    assert_eq!(err.unwrap_err(), "Command executable cannot be empty");
    let ok = CustomFileMeasurement::new(CustomFileCommand {
        executable: "wc".to_string(),
        args: vec!["-l".to_string()],
    })
    .unwrap();
    assert_eq!(ok.command().executable, "wc");
    assert_eq!(ok.command().args, vec!["-l".to_string()]);
}

#[test]
fn keep_matched_lines_pairs_lines_with_their_first_match() {
    let lines = vec![(1u64, "a TODO".to_string()), (4, "nothing".to_string()), (9, "TODO TODO".to_string())];
    let firsts = vec![Some("TODO".to_string()), None, Some("TODO".to_string())];
    assert_eq!(
        repotracer::collectors::keep_matched_lines(&lines, &firsts),
        vec![(1, "TODO".to_string()), (9, "TODO".to_string())]
    );
    assert_eq!(repotracer::collectors::keep_matched_lines(&Vec::new(), &Vec::new()), Vec::<(u64, String)>::new());
}
