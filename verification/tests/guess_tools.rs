use repotracer::guess_tools::{
    compile_tool_definitions, detect_tools_with_details, CompiledToolRule, ToolDefinition,
    ToolDefinitionError, MAX_WILDCARD_MATCHES,
};

/// The string list under `key` of a JSON object, if present.
fn string_list(v: &serde_json::Value, key: &str) -> Option<Vec<String>> {
    v.get(key).and_then(|l| l.as_array()).map(|l| {
        l.iter()
            .map(|x| x.as_str().expect("pattern is a string").to_string())
            .collect()
    })
}

/// One tool definition per non-empty line of NDJSON.
fn parse_definitions(ndjson: &str) -> Vec<ToolDefinition> {
    let mut defs = Vec::new();
    for line in ndjson.lines() {
        if line.trim().is_empty() {
            continue;
        }
        let v: serde_json::Value = serde_json::from_str(line).expect("valid JSON");
        defs.push(ToolDefinition {
            name: v["name"].as_str().expect("name").to_string(),
            files: string_list(&v, "files"),
            dirs: string_list(&v, "dirs"),
        });
    }
    defs
}

fn create_test_tool_rules(ndjson: &str) -> Vec<CompiledToolRule> {
    compile_tool_definitions(&parse_definitions(ndjson))
        .expect("Failed to compile test tool definitions")
}

#[derive(Debug)]
struct MatchingTestCase {
    name: &'static str,
    tool_ndjson: &'static str,
    repo_files: Vec<&'static str>,
    expected_tool_count: usize,
    expected_tool_name: &'static str,
    expected_matching_files: Vec<&'static str>,
    expected_matching_dirs: Vec<&'static str>,
}

#[test]
fn test_file_and_dir_matching() {
    let test_cases = vec![
        MatchingTestCase {
            name: "file_matching_basename_only",
            tool_ndjson: r#"{"name": "Make", "files": ["Makefile"], "dirs": []}"#,
            repo_files: vec![
                "Makefile",
                "drivers/Makefile",
                "fs/ext4/Makefile",
                "README.md",
            ],
            expected_tool_count: 1,
            expected_tool_name: "Make",
            expected_matching_files: vec!["Makefile", "drivers/Makefile", "fs/ext4/Makefile"],
            expected_matching_dirs: vec![],
        },
        MatchingTestCase {
            name: "file_matching_root_anchored",
            tool_ndjson: r#"{"name": "Git", "files": ["/.gitignore"], "dirs": []}"#,
            repo_files: vec![".gitignore", "subdir/.gitignore", "README.md"],
            expected_tool_count: 1,
            expected_tool_name: "Git",
            expected_matching_files: vec![".gitignore"],
            expected_matching_dirs: vec![],
        },
        MatchingTestCase {
            name: "file_matching_wildcard",
            tool_ndjson: r#"{"name": "CSharp", "files": ["*.csproj"], "dirs": []}"#,
            repo_files: vec![
                "MyApp.csproj",
                "src/MyLib.csproj",
                "csproj/shouldntmatch.txt",
                "alsocsproj/shouldntmatch.txt",
                "README.md",
            ],
            expected_tool_count: 1,
            expected_tool_name: "CSharp",
            expected_matching_files: vec!["MyApp.csproj", "src/MyLib.csproj"],
            expected_matching_dirs: vec![],
        },
        MatchingTestCase {
            name: "dir_matching_basename_only",
            tool_ndjson: r#"{"name": "CDK", "files": [], "dirs": ["cdk"]}"#,
            repo_files: vec![
                "cdk/app.py",
                "infrastructure/cdk/stack.py",
                "packages/cdk/lib.py",
                "src/main.py",
            ],
            expected_tool_count: 1,
            expected_tool_name: "CDK",
            expected_matching_files: vec![],
            expected_matching_dirs: vec!["cdk"],
        },
        MatchingTestCase {
            name: "dir_matching_root_anchored",
            tool_ndjson: r#"{"name": "GitHub", "files": [], "dirs": ["/.github"]}"#,
            repo_files: vec![
                ".github/workflows/ci.yml",
                ".github/ISSUE_TEMPLATE.md",
                "subproject/.github/workflows/test.yml",
                "README.md",
            ],
            expected_tool_count: 1,
            expected_tool_name: "GitHub",
            expected_matching_files: vec![],
            expected_matching_dirs: vec!["/.github"],
        },
        MatchingTestCase {
            name: "dir_matching_wildcard",
            tool_ndjson: r#"{"name": "TestDirs", "files": [], "dirs": ["test*"]}"#,
            repo_files: vec![
                "test/unit.py",
                "src/test/integration.py",
                "packages/lib/test/spec.py",
                "src/main.py",
            ],
            expected_tool_count: 1,
            expected_tool_name: "TestDirs",
            expected_matching_files: vec![],
            expected_matching_dirs: vec!["test*"],
        },
        MatchingTestCase {
            name: "mixed_patterns",
            tool_ndjson: r#"{"name": "Mixed", "files": ["Cargo.toml", "/.gitignore", "*.rs"], "dirs": ["src", "/.github"]}"#,
            repo_files: vec![
                "Cargo.toml",
                "workspace/Cargo.toml",
                ".gitignore",
                "subdir/.gitignore",
                "src/main.rs",
                "lib/utils.rs",
                "src/lib.rs",
                ".github/workflows/ci.yml",
                "subproject/.github/workflows/test.yml",
            ],
            expected_tool_count: 1,
            expected_tool_name: "Mixed",
            expected_matching_files: vec![
                "Cargo.toml",
                "workspace/Cargo.toml",
                ".gitignore",
                "src/main.rs",
                "lib/utils.rs",
                "src/lib.rs",
            ],
            expected_matching_dirs: vec!["src", "/.github"],
        },
        MatchingTestCase {
            name: "no_matches",
            tool_ndjson: r#"{"name": "NoMatch", "files": ["nonexistent.txt"], "dirs": ["nonexistent"]}"#,
            repo_files: vec!["README.md", "src/main.py"],
            expected_tool_count: 0,
            expected_tool_name: "",
            expected_matching_files: vec![],
            expected_matching_dirs: vec![],
        },
    ];

    for test_case in test_cases {
        println!("Running test case: {}", test_case.name);
        let rules = create_test_tool_rules(test_case.tool_ndjson);
        let repo_files: Vec<String> = test_case.repo_files.iter().map(|s| s.to_string()).collect();
        let results = detect_tools_with_details(&repo_files, &rules);

        assert_eq!(
            results.len(),
            test_case.expected_tool_count,
            "Test case '{}': Expected {} tools, got {}",
            test_case.name,
            test_case.expected_tool_count,
            results.len()
        );

        if test_case.expected_tool_count > 0 {
            let result = &results[0];
            assert_eq!(
                result.name, test_case.expected_tool_name,
                "Test case '{}': Expected tool name '{}', got '{}'",
                test_case.name, test_case.expected_tool_name, result.name
            );

            for expected_file in &test_case.expected_matching_files {
                assert!(
                    result
                        .matching_files_from_file_rules
                        .contains(&expected_file.to_string()),
                    "Test case '{}': Expected matching file '{}' not found in {:?}",
                    test_case.name,
                    expected_file,
                    result.matching_files_from_file_rules
                );
            }

            for actual_file in &result.matching_files_from_file_rules {
                assert!(
                    test_case
                        .expected_matching_files
                        .contains(&actual_file.as_str()),
                    "Test case '{}': Unexpected matching file '{}' found",
                    test_case.name,
                    actual_file
                );
            }

            for expected_dir in &test_case.expected_matching_dirs {
                assert!(
                    result
                        .matched_dir_patterns
                        .contains(&expected_dir.to_string()),
                    "Test case '{}': Expected matching dir '{}' not found in {:?}",
                    test_case.name,
                    expected_dir,
                    result.matched_dir_patterns
                );
            }

            for actual_dir in &result.matched_dir_patterns {
                assert!(
                    test_case
                        .expected_matching_dirs
                        .contains(&actual_dir.as_str()),
                    "Test case '{}': Unexpected matching dir '{}' found",
                    test_case.name,
                    actual_dir
                );
            }
        }
    }
}

#[test]
fn test_wildcard_limit() {
    let ndjson = r#"{"name": "ManyFiles", "files": ["*.txt"], "dirs": []}"#;
    let rules = create_test_tool_rules(ndjson);

    // Create more files than MAX_WILDCARD_MATCHES
    let mut repo_files = Vec::new();
    for i in 0..100 {
        repo_files.push(format!("file{}.txt", i));
    }

    let results = detect_tools_with_details(&repo_files, &rules);
    assert_eq!(results.len(), 1);
    assert_eq!(results[0].name, "ManyFiles");
    assert_eq!(
        results[0].matching_files_from_file_rules.len(),
        MAX_WILDCARD_MATCHES
    );
}

#[test]
fn wildcard_cap_keeps_first_matches_sorted() {
    let rules = create_test_tool_rules(r#"{"name": "T", "files": ["*.txt"]}"#);
    let repo_files: Vec<String> = (0..12).rev().map(|i| format!("f{:02}.txt", i)).collect();
    let results = detect_tools_with_details(&repo_files, &rules);
    // The first ten in walk order are f11 .. f02, reported sorted.
    let expected: Vec<String> = (2..12).map(|i| format!("f{:02}.txt", i)).collect();
    assert_eq!(results[0].matching_files_from_file_rules, expected);
}

#[test]
fn plain_file_patterns_are_not_capped() {
    let rules = create_test_tool_rules(r#"{"name": "M", "files": ["Makefile"]}"#);
    let repo_files: Vec<String> = (0..15).map(|i| format!("d{:02}/Makefile", i)).collect();
    let results = detect_tools_with_details(&repo_files, &rules);
    assert_eq!(results[0].matching_files_from_file_rules.len(), 15);
}

#[test]
fn duplicate_hits_are_reported_once() {
    let rules =
        create_test_tool_rules(r#"{"name": "R", "files": ["*.rs", "main.rs"], "dirs": ["src", "src"]}"#);
    let repo_files = vec!["src/main.rs".to_string()];
    let results = detect_tools_with_details(&repo_files, &rules);
    assert_eq!(results[0].matching_files_from_file_rules, vec!["src/main.rs".to_string()]);
    assert_eq!(results[0].matched_dir_patterns, vec!["src".to_string()]);
}

#[test]
fn tools_keep_definition_order_and_empty_patterns_are_skipped() {
    let rules = create_test_tool_rules(
        "{\"name\": \"B\", \"files\": [\"\", \"b.txt\"]}\n\n{\"name\": \"A\", \"files\": [\"a.txt\"]}\n{\"name\": \"C\", \"files\": [\"c.txt\"]}",
    );
    assert_eq!(rules.len(), 3);
    assert_eq!(rules[0].file_patterns.len(), 1);
    let repo_files = vec!["a.txt".to_string(), "x/b.txt".to_string()];
    let results = detect_tools_with_details(&repo_files, &rules);
    let names: Vec<&str> = results.iter().map(|r| r.name.as_str()).collect();
    assert_eq!(names, vec!["B", "A"]);
}

#[test]
fn invalid_glob_names_tool_and_pattern() {
    let defs = parse_definitions(
        "{\"name\": \"Ok\", \"files\": [\"*.rs\"]}\n{\"name\": \"Bad\", \"files\": [\"ok.txt\"], \"dirs\": [\"a[\"]}",
    );
    match compile_tool_definitions(&defs) {
        Err(ToolDefinitionError::InvalidGlob { tool, pattern }) => {
            assert_eq!(tool, "Bad");
            assert_eq!(pattern, "a[");
        }
        Ok(_) => panic!("an unclosed class is not a glob"),
    }
}

#[test]
fn rooted_dir_pattern_is_a_prefix() {
    let rules = create_test_tool_rules(r#"{"name": "D", "dirs": ["/docs"]}"#);
    let hit = detect_tools_with_details(&vec!["docs/index.md".to_string()], &rules);
    assert_eq!(hit.len(), 1);
    let miss = detect_tools_with_details(&vec!["sub/docs/index.md".to_string()], &rules);
    assert_eq!(miss.len(), 0);
}
