use seg_arc::archive::{
    create_archive, ArchiveEntry, ArchiveError, ArchivePlan, FILE_MODE_READ,
};
use seg_arc::matcher::build_ignore_matcher;
use seg_arc::rolling_writer::SinkAction;
use seg_arc::tree::Entry;

fn get_test_dir(test_name: &str) -> String {
    format!("/tmp/helpers_test_{}", test_name)
}

fn join(dir: &str, name: &str) -> String {
    format!("{}/{}", dir, name)
}

fn file(name: &str, content: &[u8]) -> Entry {
    Entry::File { name: name.to_string(), content: content.to_vec() }
}

fn symlink(name: &str, target: &str) -> Entry {
    Entry::Symlink { name: name.to_string(), target: target.to_string() }
}

fn dir(name: &str, entries: Vec<Entry>) -> Entry {
    Entry::Dir { name: name.to_string(), entries }
}

/// The names of the entries of the planned archive, sorted.
fn extract_archive_contents(plan: &ArchivePlan) -> Vec<String> {
    let mut entries = Vec::new();
    for entry in &plan.entries {
        let name = match entry {
            ArchiveEntry::Data { name, .. } => name,
            ArchiveEntry::File { name, .. } => name,
            ArchiveEntry::Symlink { name, .. } => name,
            ArchiveEntry::Directory { name, .. } => name,
        };
        entries.push(name.clone());
    }
    entries.sort();
    entries
}

#[test]
fn test_create_archive_with_ignore_patterns_extension() {
    let test_name = "ignore_extensions";
    let test_dir = get_test_dir(test_name);

    let tree = vec![
        file("file1.txt", b"content1"),
        file("file2.tmp", b"content2"),
        file("file3.txt", b"content3"),
        file("file4.tmp", b"content4"),
    ];

    let patterns = vec!["*.tmp".to_string()];
    let ignore_matcher = build_ignore_matcher(&patterns).unwrap();
    let archive_path = join(&test_dir, "test.tar.gz");

    let plan = create_archive(
        &test_dir,
        &tree,
        &archive_path,
        &None,
        &[],
        ignore_matcher.as_ref(),
        Some(6),
        None,
        false,
    )
    .unwrap();

    let entries = extract_archive_contents(&plan);

    assert!(entries.iter().any(|e| e.contains("file1.txt")));
    assert!(entries.iter().any(|e| e.contains("file3.txt")));
    assert!(!entries.iter().any(|e| e.contains("file2.tmp")));
    assert!(!entries.iter().any(|e| e.contains("file4.tmp")));
}

#[test]
fn test_create_archive_with_ignore_patterns_directory() {
    let test_name = "ignore_directory";
    let test_dir = get_test_dir(test_name);

    let tree = vec![
        file("file1.txt", b"content1"),
        dir("node_modules", vec![file("package.json", b"{}")]),
        file("file2.txt", b"content2"),
    ];

    let patterns = vec!["**/node_modules".to_string()];
    let ignore_matcher = build_ignore_matcher(&patterns).unwrap();
    let archive_path = join(&test_dir, "test.tar.gz");

    let plan = create_archive(
        &test_dir,
        &tree,
        &archive_path,
        &None,
        &[],
        ignore_matcher.as_ref(),
        Some(6),
        None,
        false,
    )
    .unwrap();

    let entries = extract_archive_contents(&plan);

    assert!(entries.iter().any(|e| e.contains("file1.txt")));
    assert!(entries.iter().any(|e| e.contains("file2.txt")));
    assert!(!entries.iter().any(|e| e.contains("node_modules")));
}

#[test]
fn test_create_archive_with_ignore_patterns_hidden_file() {
    let test_name = "ignore_hidden";
    let test_dir = get_test_dir(test_name);

    let tree = vec![
        file("file1.txt", b"content1"),
        file(".DS_Store", b"metadata"),
        file("file2.txt", b"content2"),
    ];

    let patterns = vec!["**/.DS_Store".to_string()];
    let ignore_matcher = build_ignore_matcher(&patterns).unwrap();
    let archive_path = join(&test_dir, "test.tar.gz");

    let plan = create_archive(
        &test_dir,
        &tree,
        &archive_path,
        &None,
        &[],
        ignore_matcher.as_ref(),
        Some(6),
        None,
        false,
    )
    .unwrap();

    let entries = extract_archive_contents(&plan);

    assert!(entries.iter().any(|e| e.contains("file1.txt")));
    assert!(entries.iter().any(|e| e.contains("file2.txt")));
    assert!(!entries.iter().any(|e| e.contains(".DS_Store")));
}

#[test]
fn test_create_archive_with_ignore_patterns_recursive() {
    let test_name = "ignore_recursive";
    let test_dir = get_test_dir(test_name);

    let tree = vec![
        file("file1.txt", b"content1"),
        dir("subdir1", vec![dir("node_modules", vec![file("package.json", b"{}")])]),
        dir(
            "subdir2",
            vec![
                dir("deep", vec![dir("node_modules", vec![file("package.json", b"{}")])]),
                file("file2.txt", b"content2"),
            ],
        ),
    ];

    let patterns = vec!["**/node_modules".to_string()];
    let ignore_matcher = build_ignore_matcher(&patterns).unwrap();
    let archive_path = join(&test_dir, "test.tar.gz");

    let plan = create_archive(
        &test_dir,
        &tree,
        &archive_path,
        &None,
        &[],
        ignore_matcher.as_ref(),
        Some(6),
        None,
        false,
    )
    .unwrap();

    let entries = extract_archive_contents(&plan);

    assert!(entries.iter().any(|e| e.contains("file1.txt")));
    assert!(entries.iter().any(|e| e.contains("file2.txt")));
    assert!(!entries.iter().any(|e| e.contains("node_modules")));
}

#[test]
fn test_create_archive_with_ignore_patterns_multiple() {
    let test_name = "ignore_multiple";
    let test_dir = get_test_dir(test_name);

    let tree = vec![
        file("file1.txt", b"content1"),
        file("file2.tmp", b"content2"),
        file(".DS_Store", b"metadata"),
        dir("node_modules", vec![file("package.json", b"{}")]),
    ];

    let patterns =
        vec!["*.tmp".to_string(), "**/.DS_Store".to_string(), "**/node_modules".to_string()];
    let ignore_matcher = build_ignore_matcher(&patterns).unwrap();
    let archive_path = join(&test_dir, "test.tar.gz");

    let plan = create_archive(
        &test_dir,
        &tree,
        &archive_path,
        &None,
        &[],
        ignore_matcher.as_ref(),
        Some(6),
        None,
        false,
    )
    .unwrap();

    let entries = extract_archive_contents(&plan);

    assert!(entries.iter().any(|e| e.contains("file1.txt")));
    assert!(!entries.iter().any(|e| e.contains("file2.tmp")));
    assert!(!entries.iter().any(|e| e.contains(".DS_Store")));
    assert!(!entries.iter().any(|e| e.contains("node_modules")));
}

#[test]
fn test_create_archive_with_ignore_patterns_and_exclusions() {
    let test_name = "ignore_with_exclusions";
    let test_dir = get_test_dir(test_name);

    let excluded_dir = join(&test_dir, "excluded");
    let tree = vec![
        file("file1.txt", b"content1"),
        dir("excluded", vec![file("file2.txt", b"content2")]),
        file("file3.tmp", b"content3"),
    ];

    let patterns = vec!["*.tmp".to_string()];
    let ignore_matcher = build_ignore_matcher(&patterns).unwrap();
    let exclusions = vec![&excluded_dir];
    let archive_path = join(&test_dir, "test.tar.gz");

    let plan = create_archive(
        &test_dir,
        &tree,
        &archive_path,
        &None,
        &exclusions,
        ignore_matcher.as_ref(),
        Some(6),
        None,
        false,
    )
    .unwrap();

    let entries = extract_archive_contents(&plan);

    assert!(entries.iter().any(|e| e.contains("file1.txt")));
    assert!(!entries.iter().any(|e| e.contains("excluded")));
    assert!(!entries.iter().any(|e| e.contains("file3.tmp")));
}

#[test]
fn test_create_archive_empty_base_directory() {
    let test_name = "empty_base_dir";
    let test_dir = get_test_dir(test_name);

    let empty_dir = join(&test_dir, "empty");
    let tree: Vec<Entry> = vec![];
    let archive_path = join(&test_dir, "empty.tar.gz");

    let plan =
        create_archive(&empty_dir, &tree, &archive_path, &None, &[], None, Some(6), None, false)
            .unwrap();

    assert_eq!(
        plan.opening,
        vec![SinkAction::Open { path: archive_path.clone() }],
        "Archive should be created for empty directory"
    );

    let entries = extract_archive_contents(&plan);
    assert!(
        entries.iter().any(|e| e.contains(".seg_arc.path")),
        "Archive should contain path file"
    );
    assert_eq!(entries.len(), 1);
}

#[test]
fn test_create_archive_compression_level_validation() {
    let test_name = "compression_validation";
    let test_dir = get_test_dir(test_name);

    let tree = vec![file("file.txt", b"test content")];
    let archive_path = join(&test_dir, "test.tar.gz");

    for level in 0..=9 {
        let result = create_archive(
            &test_dir,
            &tree,
            &archive_path,
            &None,
            &[],
            None,
            Some(level),
            None,
            false,
        );
        assert!(result.is_ok(), "Compression level {} should be valid", level);
        assert_eq!(result.unwrap().compression_level, Some(level));
    }

    let result =
        create_archive(&test_dir, &tree, &archive_path, &None, &[], None, Some(10), None, false);
    assert!(result.is_err(), "Compression level 10 should be invalid");
    let error_msg = result.err().unwrap().message();
    assert!(
        error_msg.contains("Compression level must be between 0 and 9"),
        "Error should mention valid range"
    );
    assert_eq!(error_msg, "Compression level must be between 0 and 9: 10");

    let result =
        create_archive(&test_dir, &tree, &archive_path, &None, &[], None, Some(100), None, false);
    assert!(result.is_err(), "Compression level 100 should be invalid");
}

#[test]
fn test_create_archive_with_long_path_names() {
    let test_name = "long_paths";
    let test_dir = get_test_dir(test_name);

    let mut long_path = dir(
        "LastFolder.Component",
        vec![dir("Contents", vec![]), file("file.txt", b"test content")],
    );
    for _ in 0..6 {
        long_path = dir("TestLongFilePath", vec![long_path]);
    }
    let very_long_path = dir(
        &"A".repeat(50),
        vec![dir(
            &"B".repeat(50),
            vec![dir(
                &"C".repeat(50),
                vec![file("deep_file.txt", b"deep content"), dir("EmptySubdir", vec![])],
            )],
        )],
    );
    let tree = vec![long_path, very_long_path];

    let archive_path = join(&test_dir, "test.tar.gz");

    let result =
        create_archive(&test_dir, &tree, &archive_path, &None, &[], None, Some(6), None, false);

    assert!(
        result.is_ok(),
        "Archive creation should succeed with long paths: {:?}",
        result.as_ref().err()
    );

    let entries = extract_archive_contents(&result.unwrap());

    assert!(
        entries.iter().any(|e| e.contains("LastFolder.Component")),
        "Archive should contain the long path directory"
    );
    assert!(
        entries.iter().any(|e| e.contains("LastFolder.Component/Contents")),
        "Archive should contain the empty subdirectory in long path"
    );
    assert!(
        entries.iter().any(|e| e.contains("LastFolder.Component/file.txt")),
        "Archive should contain the file in long path"
    );

    let has_very_long_path = entries.iter().any(|e| {
        e.contains("AAAAAAAAAAAAAAAAAAAAAAAAAAAAAAAAAAAAAAAAAAAAAAAAAA") || e.contains("deep_file.txt")
    });
    assert!(has_very_long_path, "Archive should contain the very long path");

    let has_empty_dir = entries.iter().any(|e| e.contains("EmptySubdir") && !e.contains("."));
    assert!(has_empty_dir, "Archive should contain empty directories in long paths");
}

#[test]
fn test_create_archive_with_long_path_names_and_root_path() {
    let test_name = "long_paths_with_root";
    let test_dir = get_test_dir(test_name);

    let base_dir = join(&test_dir, "base");
    let mut long_path = dir(
        "LastFolder.Component",
        vec![dir("Contents", vec![]), file("file.txt", b"test content")],
    );
    for _ in 0..6 {
        long_path = dir("TestLongFilePath", vec![long_path]);
    }
    let tree = vec![long_path];

    let archive_path = join(&test_dir, "test.tar.gz");

    let root_path = Some(base_dir.clone());
    let result = create_archive(
        &base_dir,
        &tree,
        &archive_path,
        &root_path,
        &[],
        None,
        Some(6),
        None,
        false,
    );

    assert!(
        result.is_ok(),
        "Archive creation should succeed with long paths and root_path: {:?}",
        result.as_ref().err()
    );

    let plan = result.unwrap();
    let entries = extract_archive_contents(&plan);

    assert!(
        entries.iter().any(|e| e.contains("LastFolder.Component")),
        "Archive should contain the long path directory (relative to root)"
    );
    assert!(
        entries.iter().any(|e| e.contains("LastFolder.Component/Contents")),
        "Archive should contain the empty subdirectory"
    );
    assert!(
        entries.iter().any(|e| e.contains("LastFolder.Component/file.txt")),
        "Archive should contain the file"
    );
    assert!(
        entries.iter().any(|e| e.contains(".seg_arc.path")),
        "Archive should contain path file"
    );
    // The segment is the root itself: its logical path is empty
    assert_eq!(
        plan.entries[0],
        ArchiveEntry::Data {
            name: ".seg_arc.path".to_string(),
            mode: 0o644,
            content: Vec::new()
        }
    );
}

#[test]
fn test_create_archive_exact_plan() {
    let tree = vec![
        file("x.txt", b"A"),
        symlink("gone", "/nowhere/at/all"),
        dir(
            "sub",
            vec![
                dir("empty", vec![]),
                dir("only_ignored", vec![file("a.tmp", b"")]),
                dir("nested", vec![dir("inner", vec![]), file("keep", b"k")]),
                file("b.tmp", b""),
            ],
        ),
        dir("other", vec![file("y.txt", b"B")]),
    ];
    let patterns = vec!["*.tmp".to_string()];
    let ignore_matcher = build_ignore_matcher(&patterns).unwrap();
    let other = String::from("/data/seg/other");
    let exclusions = vec![&other];
    let root = Some(String::from("/data"));
    let plan = create_archive(
        "/data/seg",
        &tree,
        "/out/seg.tar.gz",
        &root,
        &exclusions,
        ignore_matcher.as_ref(),
        None,
        Some(1024),
        true,
    )
    .unwrap();
    assert_eq!(FILE_MODE_READ, 0o644);
    assert_eq!(plan.compression_level, None);
    assert_eq!(plan.opening, vec![SinkAction::Open { path: "/out/seg.tar.gz.part001".to_string() }]);
    assert_eq!(plan.writer.parts_opened(), 1);
    assert_eq!(
        plan.entries,
        vec![
            ArchiveEntry::Data {
                name: ".seg_arc.path".to_string(),
                mode: 0o644,
                content: b"seg".to_vec()
            },
            ArchiveEntry::File { name: "x.txt".to_string(), source: "/data/seg/x.txt".to_string() },
            ArchiveEntry::Symlink {
                name: "gone".to_string(),
                target: "/nowhere/at/all".to_string(),
                mode: 0o644
            },
            ArchiveEntry::Directory {
                name: "sub/empty".to_string(),
                source: "/data/seg/sub/empty".to_string()
            },
            ArchiveEntry::Directory {
                name: "sub/only_ignored".to_string(),
                source: "/data/seg/sub/only_ignored".to_string()
            },
            ArchiveEntry::Directory {
                name: "sub/nested/inner".to_string(),
                source: "/data/seg/sub/nested/inner".to_string()
            },
            ArchiveEntry::File {
                name: "sub/nested/keep".to_string(),
                source: "/data/seg/sub/nested/keep".to_string()
            },
        ]
    );
    // A listener was asked for: the sink tells of its parts
    let mut writer = plan.writer;
    assert_eq!(
        writer.finalize(),
        vec![
            SinkAction::Close,
            SinkAction::Rename {
                from: "/out/seg.tar.gz.part001".to_string(),
                to: "/out/seg.tar.gz".to_string()
            },
            SinkAction::Notify { path: "/out/seg.tar.gz".to_string() },
        ]
    );
}

#[test]
fn test_create_archive_errors_in_order() {
    let tree = vec![file("x.txt", b"A")];
    let foreign = Some(String::from("/elsewhere"));
    let refused = |level: Option<u32>, max: Option<usize>, root: &Option<String>| {
        create_archive("/data/seg", &tree, "/out/a.tar.gz", root, &[], None, level, max, false)
            .err()
    };
    assert_eq!(
        refused(Some(10), Some(0), &foreign),
        Some(ArchiveError::InvalidCompressionLevel { level: 10 })
    );
    assert_eq!(refused(Some(9), Some(0), &foreign), Some(ArchiveError::InvalidMaxSize));
    assert_eq!(refused(None, Some(0), &None), Some(ArchiveError::InvalidMaxSize));
    assert_eq!(refused(Some(0), Some(1), &foreign), Some(ArchiveError::InvalidRoot));
    assert_eq!(refused(Some(0), Some(1), &None), None);
    assert_eq!(ArchiveError::InvalidMaxSize.message(), "max_size must be at least 1 byte: 0");
    assert_eq!(ArchiveError::InvalidRoot.message(), "Invalid root path");
}

#[test]
fn test_create_archive_root_is_never_an_entry() {
    // A root in which the walk comes upon nothing gives the path file alone
    let tree = vec![file("a.tmp", b"")];
    let patterns = vec!["*.tmp".to_string()];
    let ignore_matcher = build_ignore_matcher(&patterns).unwrap();
    let plan = create_archive(
        "/seg",
        &tree,
        "/out/a.tar.gz",
        &None,
        &[],
        ignore_matcher.as_ref(),
        None,
        None,
        false,
    )
    .unwrap();
    assert_eq!(
        plan.entries,
        vec![ArchiveEntry::Data {
            name: ".seg_arc.path".to_string(),
            mode: 0o644,
            content: b"/seg".to_vec()
        }]
    );
}
