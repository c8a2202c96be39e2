use seg_arc::matcher::{build_ignore_matcher, MatcherError};

#[test]
fn test_build_ignore_matcher_empty() {
    let patterns: Vec<String> = vec![];
    let result = build_ignore_matcher(&patterns).unwrap();
    assert!(result.is_none(), "Empty patterns should return None");
}

#[test]
fn test_build_ignore_matcher_single_pattern() {
    let patterns = vec!["*.tmp".to_string()];
    let result = build_ignore_matcher(&patterns).unwrap();
    assert!(result.is_some(), "Valid pattern should return Some(GlobSet)");

    let globset = result.unwrap();
    let tmp_path = String::from("/tmp/test_dir/file.tmp");
    let txt_path = String::from("/tmp/test_dir/file.txt");
    assert!(globset.is_match(&tmp_path));
    assert!(!globset.is_match(&txt_path));
}

#[test]
fn test_build_ignore_matcher_multiple_patterns() {
    let patterns = vec![
        "*.tmp".to_string(),
        "**/.DS_Store".to_string(),
        "**/node_modules".to_string(),
    ];
    let result = build_ignore_matcher(&patterns).unwrap();
    assert!(result.is_some());

    let globset = result.unwrap();
    assert!(globset.is_match(&String::from("/tmp/test_dir/file.tmp")));
    assert!(globset.is_match(&String::from("/tmp/test_dir/.DS_Store")));
    assert!(globset.is_match(&String::from("/tmp/test_dir/node_modules")));
    assert!(!globset.is_match(&String::from("/tmp/test_dir/file.txt")));
}

#[test]
fn test_build_ignore_matcher_invalid_pattern() {
    let patterns = vec!["[invalid".to_string()];
    let result = build_ignore_matcher(&patterns);
    assert!(result.is_err(), "Invalid pattern should return error");
}

#[test]
fn test_build_ignore_matcher_recursive_pattern() {
    let patterns = vec!["**/node_modules".to_string()];
    let result = build_ignore_matcher(&patterns).unwrap();
    assert!(result.is_some());

    let globset = result.unwrap();
    assert!(globset.is_match(&String::from("/tmp/test_dir/node_modules")));
    assert!(globset.is_match(&String::from("/tmp/test_dir/subdir/node_modules")));
    assert!(globset.is_match(&String::from("/tmp/test_dir/deep/nested/node_modules")));
}

#[test]
fn test_build_ignore_matcher_absolute_path_pattern() {
    let patterns = vec!["/tmp/**".to_string()];
    let result = build_ignore_matcher(&patterns).unwrap();
    assert!(result.is_some());

    let globset = result.unwrap();
    assert!(globset.is_match(&String::from("/tmp/test_file.txt")));
    assert!(globset.is_match(&String::from("/tmp/subdir/file.txt")));
    assert!(!globset.is_match(&String::from("/var/test_file.txt")));
}

#[test]
fn test_build_ignore_matcher_reports_first_invalid_pattern() {
    let patterns = vec!["*.tmp".to_string(), "{a,b".to_string(), "[invalid".to_string()];
    let error = build_ignore_matcher(&patterns).unwrap_err();
    assert_eq!(
        error,
        MatcherError::InvalidPattern { index: 1, pattern: "{a,b".to_string() }
    );
    assert_eq!(error.message(), "Invalid ignore pattern: {a,b");
}

#[test]
fn test_build_ignore_matcher_holds_every_pattern() {
    let patterns = vec!["*.tmp".to_string(), "**/cache".to_string()];
    let globset = build_ignore_matcher(&patterns).unwrap().unwrap();
    assert_eq!(globset.len(), 2);
    assert_eq!(MatcherError::BuildFailed.message(), "Failed to build GlobSet from ignore patterns");
}

#[test]
fn test_build_ignore_matcher_too_large() {
    // Just within the limit on the bytes of all patterns, and just beyond it
    let patterns = vec!["a".repeat(1048575), "b".to_string()];
    assert!(build_ignore_matcher(&patterns).unwrap().is_some());
    let patterns = vec!["a".repeat(1048575), "bc".to_string()];
    let error = build_ignore_matcher(&patterns).unwrap_err();
    assert_eq!(error, MatcherError::TooLarge);
    assert_eq!(error.message(), "Too many ignore patterns");
    // The size is looked at before the patterns are
    let patterns = vec!["[invalid".to_string(), "é".repeat(524288), "x".to_string()];
    assert_eq!(build_ignore_matcher(&patterns).unwrap_err(), MatcherError::TooLarge);
}
