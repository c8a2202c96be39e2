use globset::{Glob, GlobSetBuilder};
use seg_arc::hasher::{compute_segment_hash, hash_dir_contents, hash_file, HASHER_BUFFER_SIZE};
use seg_arc::tree::Entry;
use xxhash_rust::xxh3::xxh3_64;

fn get_test_dir(test_name: &str) -> String {
    format!("/tmp/hasher_test_{}", test_name)
}

fn file(name: &str, content: &[u8]) -> Entry {
    Entry::File { name: name.to_string(), content: content.to_vec() }
}

fn symlink(name: &str, target: &str) -> Entry {
    Entry::Symlink { name: name.to_string(), target: target.to_string() }
}

fn dir(name: &str, entries: Vec<Entry>) -> Entry {
    Entry::Dir { name: name.to_string(), entries }
}

fn join(dir: &str, name: &str) -> String {
    format!("{}/{}", dir, name)
}

#[test]
fn test_hash_detects_filename_change() {
    let test_name = "filename_change";
    let test_dir = get_test_dir(test_name);

    let tree = vec![file("original.txt", b"same content")];
    let hash1 = compute_segment_hash(&test_dir, &tree, &[], None);

    // Same content under another name
    let tree = vec![file("renamed.txt", b"same content")];
    let hash2 = compute_segment_hash(&test_dir, &tree, &[], None);

    assert_ne!(hash1, hash2, "Hash should change when filename changes");
}

#[test]
fn test_hash_detects_file_move() {
    let test_name = "file_move";
    let test_dir = get_test_dir(test_name);

    let tree = vec![dir("dir1", vec![file("file.txt", b"same content")])];
    let hash1 = compute_segment_hash(&test_dir, &tree, &[], None);

    let tree = vec![dir("dir1", vec![]), dir("dir2", vec![file("file.txt", b"same content")])];
    let hash2 = compute_segment_hash(&test_dir, &tree, &[], None);

    assert_ne!(hash1, hash2, "Hash should change when file is moved");
}

#[test]
fn test_hash_detects_content_change() {
    let test_name = "content_change";
    let test_dir = get_test_dir(test_name);

    let tree = vec![file("file.txt", b"original content")];
    let hash1 = compute_segment_hash(&test_dir, &tree, &[], None);

    let tree = vec![file("file.txt", b"modified content")];
    let hash2 = compute_segment_hash(&test_dir, &tree, &[], None);

    assert_ne!(hash1, hash2, "Hash should change when content changes");
}

#[test]
fn test_hash_identical_files_different_paths() {
    let test_name = "identical_files";
    let test_dir = get_test_dir(test_name);

    let tree = vec![
        dir("dir1", vec![file("file.txt", b"identical content")]),
        dir("dir2", vec![file("file.txt", b"identical content")]),
    ];
    let hash = compute_segment_hash(&test_dir, &tree, &[], None);

    let tree = vec![
        dir("dir1", vec![file("file.txt", b"new identical content")]),
        dir("dir2", vec![file("file.txt", b"new identical content")]),
    ];
    let hash_after = compute_segment_hash(&test_dir, &tree, &[], None);

    assert_ne!(
        hash, hash_after,
        "Hash should change even if identical files are edited identically"
    );
}

#[test]
fn test_hash_empty_segment() {
    let test_name = "empty_segment";
    let test_dir = get_test_dir(test_name);

    let tree: Vec<Entry> = vec![];
    let hash = compute_segment_hash(&test_dir, &tree, &[], None);
    assert!(!hash.is_empty(), "Empty segment should produce a hash");

    let hash2 = compute_segment_hash(&test_dir, &tree, &[], None);
    assert_eq!(hash, hash2, "Empty segment hash should be consistent");

    // The hash of no bytes, not zero
    assert_eq!(hash, format!("{:016x}", xxh3_64(b"")));
    assert_eq!(hash, "2d06800538d394c2");
    // Directories alone are no files
    let only_dirs = vec![dir("a", vec![dir("b", vec![])])];
    assert_eq!(compute_segment_hash(&test_dir, &only_dirs, &[], None), hash);
}

#[test]
fn test_hash_exclusions() {
    let test_name = "exclusions";
    let test_dir = get_test_dir(test_name);

    let tree = vec![file("file1.txt", b"content1"), file("file2.txt", b"content2")];
    let hash1 = compute_segment_hash(&test_dir, &tree, &[], None);

    let excluded_dir = join(&test_dir, "excluded");
    let tree = vec![
        file("file1.txt", b"content1"),
        file("file2.txt", b"content2"),
        dir("excluded", vec![file("file3.txt", b"content3")]),
    ];

    let exclusions = vec![&excluded_dir];
    let hash2 = compute_segment_hash(&test_dir, &tree, &exclusions, None);
    assert_eq!(hash1, hash2, "Hash should be same when excluded files are added");
    assert_ne!(compute_segment_hash(&test_dir, &tree, &[], None), hash1);
}

#[test]
fn test_hash_ignore_patterns_extension() {
    let test_name = "ignore_extensions";
    let test_dir = get_test_dir(test_name);

    let tree = vec![file("file1.txt", b"content1"), file("file2.txt", b"content2")];
    let hash1 = compute_segment_hash(&test_dir, &tree, &[], None);

    let tree = vec![
        file("file1.txt", b"content1"),
        file("file2.txt", b"content2"),
        file("file3.tmp", b"content3"),
        file("file4.tmp", b"content4"),
    ];

    let mut builder = GlobSetBuilder::new();
    builder.add(Glob::new("*.tmp").unwrap());
    let ignore_matcher = Some(builder.build().unwrap());

    let hash2 = compute_segment_hash(&test_dir, &tree, &[], ignore_matcher.as_ref());
    assert_eq!(hash1, hash2, "Hash should be same when ignored .tmp files are added");
}

#[test]
fn test_hash_ignore_patterns_directory() {
    let test_name = "ignore_directory";
    let test_dir = get_test_dir(test_name);

    let tree = vec![file("file1.txt", b"content1"), file("file2.txt", b"content2")];
    let hash1 = compute_segment_hash(&test_dir, &tree, &[], None);

    let tree = vec![
        file("file1.txt", b"content1"),
        file("file2.txt", b"content2"),
        dir(
            "node_modules",
            vec![file("package.json", b"{}"), file("index.js", b"console.log('test');")],
        ),
    ];

    let mut builder = GlobSetBuilder::new();
    builder.add(Glob::new("**/node_modules").unwrap());
    let ignore_matcher = Some(builder.build().unwrap());

    let hash2 = compute_segment_hash(&test_dir, &tree, &[], ignore_matcher.as_ref());
    assert_eq!(hash1, hash2, "Hash should be same when ignored node_modules is added");
}

#[test]
fn test_hash_ignore_patterns_hidden_file() {
    let test_name = "ignore_hidden";
    let test_dir = get_test_dir(test_name);

    let tree = vec![file("file1.txt", b"content1"), file("file2.txt", b"content2")];
    let hash1 = compute_segment_hash(&test_dir, &tree, &[], None);

    let tree = vec![
        file("file1.txt", b"content1"),
        file("file2.txt", b"content2"),
        file(".DS_Store", b"metadata"),
    ];

    let mut builder = GlobSetBuilder::new();
    builder.add(Glob::new("**/.DS_Store").unwrap());
    let ignore_matcher = Some(builder.build().unwrap());

    let hash2 = compute_segment_hash(&test_dir, &tree, &[], ignore_matcher.as_ref());
    assert_eq!(hash1, hash2, "Hash should be same when ignored .DS_Store is added");
}

#[test]
fn test_hash_ignore_patterns_recursive() {
    let test_name = "ignore_recursive";
    let test_dir = get_test_dir(test_name);

    let tree = vec![file("file1.txt", b"content1"), file("file2.txt", b"content2")];
    let hash1 = compute_segment_hash(&test_dir, &tree, &[], None);

    let tree = vec![
        file("file1.txt", b"content1"),
        file("file2.txt", b"content2"),
        dir("subdir1", vec![dir("node_modules", vec![file("package.json", b"{}")])]),
        dir(
            "subdir2",
            vec![dir("deep", vec![dir("node_modules", vec![file("package.json", b"{}")])])],
        ),
    ];

    let mut builder = GlobSetBuilder::new();
    builder.add(Glob::new("**/node_modules").unwrap());
    let ignore_matcher = Some(builder.build().unwrap());

    let hash2 = compute_segment_hash(&test_dir, &tree, &[], ignore_matcher.as_ref());
    assert_eq!(
        hash1, hash2,
        "Hash should be same when ignored recursive node_modules are added"
    );
}

#[test]
fn test_hash_ignore_patterns_multiple() {
    let test_name = "ignore_multiple";
    let test_dir = get_test_dir(test_name);

    let tree = vec![file("file1.txt", b"content1"), file("file2.txt", b"content2")];
    let hash1 = compute_segment_hash(&test_dir, &tree, &[], None);

    let tree = vec![
        file("file1.txt", b"content1"),
        file("file2.txt", b"content2"),
        file("file3.tmp", b"content3"),
        file(".DS_Store", b"metadata"),
        dir("node_modules", vec![file("package.json", b"{}")]),
    ];

    let mut builder = GlobSetBuilder::new();
    builder.add(Glob::new("*.tmp").unwrap());
    builder.add(Glob::new("**/.DS_Store").unwrap());
    builder.add(Glob::new("**/node_modules").unwrap());
    let ignore_matcher = Some(builder.build().unwrap());

    let hash2 = compute_segment_hash(&test_dir, &tree, &[], ignore_matcher.as_ref());
    assert_eq!(hash1, hash2, "Hash should be same when multiple ignored patterns are added");
}

#[test]
fn test_hash_ignore_patterns_and_exclusions() {
    let test_name = "ignore_with_exclusions";
    let test_dir = get_test_dir(test_name);

    let tree = vec![file("file1.txt", b"content1")];
    let hash1 = compute_segment_hash(&test_dir, &tree, &[], None);

    let excluded_dir = join(&test_dir, "excluded");
    let tree = vec![
        file("file1.txt", b"content1"),
        dir("excluded", vec![file("file2.txt", b"content2")]),
        file("file3.tmp", b"content3"),
    ];

    let mut builder = GlobSetBuilder::new();
    builder.add(Glob::new("*.tmp").unwrap());
    let ignore_matcher = Some(builder.build().unwrap());
    let exclusions = vec![&excluded_dir];

    let hash2 = compute_segment_hash(&test_dir, &tree, &exclusions, ignore_matcher.as_ref());
    assert_eq!(
        hash1, hash2,
        "Hash should be same when both exclusions and ignore patterns are used"
    );
}

#[test]
fn test_hash_ignore_patterns_affects_hash_when_ignored_file_changes() {
    let test_name = "ignore_changes";
    let test_dir = get_test_dir(test_name);

    let tree = vec![file("file1.txt", b"content1"), file("file2.tmp", b"content2")];

    let mut builder = GlobSetBuilder::new();
    builder.add(Glob::new("*.tmp").unwrap());
    let ignore_matcher = Some(builder.build().unwrap());

    let hash1 = compute_segment_hash(&test_dir, &tree, &[], ignore_matcher.as_ref());

    let tree = vec![file("file1.txt", b"content1"), file("file2.tmp", b"different content")];
    let hash2 = compute_segment_hash(&test_dir, &tree, &[], ignore_matcher.as_ref());
    assert_eq!(hash1, hash2, "Hash should not change when ignored file changes");

    let tree = vec![file("file1.txt", b"different content"), file("file2.tmp", b"content2")];
    let hash3 = compute_segment_hash(&test_dir, &tree, &[], ignore_matcher.as_ref());
    assert_ne!(hash1, hash3, "Hash should change when non-ignored file changes");
}

#[test]
fn test_hash_consistency() {
    let test_name = "consistency";
    let test_dir = get_test_dir(test_name);

    let tree = vec![
        file("file1.txt", b"content1"),
        file("file2.txt", b"content2"),
        dir("subdir", vec![file("file3.txt", b"content3")]),
    ];

    let hash1 = compute_segment_hash(&test_dir, &tree, &[], None);
    let hash2 = compute_segment_hash(&test_dir, &tree, &[], None);
    assert_eq!(hash1, hash2, "Hash should be consistent for same directory");

    // Whatever the order in which the entries were read
    let reordered = vec![
        dir("subdir", vec![file("file3.txt", b"content3")]),
        file("file2.txt", b"content2"),
        file("file1.txt", b"content1"),
    ];
    assert_eq!(compute_segment_hash(&test_dir, &reordered, &[], None), hash1);
}

#[test]
fn test_hash_symlink_target() {
    let test_name = "symlink_target";
    let test_dir = get_test_dir(test_name);

    let target1 = join(&test_dir, "target1.txt");
    let target2 = join(&test_dir, "target2.txt");
    let tree = vec![
        file("target1.txt", b"content1"),
        file("target2.txt", b"content2"),
        symlink("link.txt", &target1),
    ];
    let hash1 = compute_segment_hash(&test_dir, &tree, &[], None);

    let tree = vec![
        file("target1.txt", b"content1"),
        file("target2.txt", b"content2"),
        symlink("link.txt", &target2),
    ];
    let hash2 = compute_segment_hash(&test_dir, &tree, &[], None);

    assert_ne!(hash1, hash2, "Hash should change when symlink target changes");
}

#[test]
fn test_hash_symlink_path() {
    let test_name = "symlink_path";
    let test_dir = get_test_dir(test_name);

    let target = join(&test_dir, "target.txt");
    let tree = vec![file("target.txt", b"content"), symlink("link1.txt", &target)];
    let hash1 = compute_segment_hash(&test_dir, &tree, &[], None);

    let tree = vec![file("target.txt", b"content"), symlink("link2.txt", &target)];
    let hash2 = compute_segment_hash(&test_dir, &tree, &[], None);

    assert_ne!(hash1, hash2, "Hash should change when symlink path changes");
}

#[test]
fn test_hash_broken_symlink() {
    let test_name = "broken_symlink";
    let test_dir = get_test_dir(test_name);

    let tree = vec![file("regular.txt", b"content")];
    let hash_with_regular = compute_segment_hash(&test_dir, &tree, &[], None);

    let non_existent_target = join(&test_dir, "nonexistent.txt");
    let tree =
        vec![file("regular.txt", b"content"), symlink("broken_link.txt", &non_existent_target)];
    let hash_with_broken = compute_segment_hash(&test_dir, &tree, &[], None);

    assert_ne!(
        hash_with_regular, hash_with_broken,
        "Hash should change when broken symlink is added"
    );

    let hash_with_broken2 = compute_segment_hash(&test_dir, &tree, &[], None);
    assert_eq!(
        hash_with_broken, hash_with_broken2,
        "Hash should be consistent for broken symlink"
    );

    let different_target = join(&test_dir, "different_nonexistent.txt");
    let tree =
        vec![file("regular.txt", b"content"), symlink("broken_link.txt", &different_target)];
    let hash_with_different_broken = compute_segment_hash(&test_dir, &tree, &[], None);

    assert_ne!(
        hash_with_broken, hash_with_different_broken,
        "Hash should change when broken symlink target path changes"
    );
}

#[test]
fn test_hash_symlink_ignores_what_the_target_holds() {
    let tree1 = vec![file("a.txt", b"same"), file("b.txt", b"same"), symlink("link", "a.txt")];
    let tree2 = vec![file("a.txt", b"same"), file("b.txt", b"same"), symlink("link", "b.txt")];
    // The targets hold the same bytes; the link still differs
    assert_ne!(
        compute_segment_hash("/data", &tree1, &[], None),
        compute_segment_hash("/data", &tree2, &[], None)
    );
    // A link is hashed as its path and the target it names
    assert_eq!(
        compute_segment_hash("/data", &vec![symlink("link", "a.txt")], &[], None),
        format!("{:016x}", xxh3_64(b"linka.txt"))
    );
}

#[test]
fn test_hash_exact_values() {
    // One file: the hash of its relative path and its bytes
    let one = vec![file("x.txt", b"A")];
    assert_eq!(
        compute_segment_hash("/data", &one, &[], None),
        format!("{:016x}", xxh3_64(b"x.txtA"))
    );
    // Files in directories: relative paths with separators, combined with xor
    let tree = vec![
        file("x.txt", b"A"),
        dir("sub", vec![file("y.txt", b"B"), dir("deep", vec![file("z", b"")])]),
    ];
    let expected = xxh3_64(b"x.txtA") ^ xxh3_64(b"sub/y.txtB") ^ xxh3_64(b"sub/deep/z");
    assert_eq!(compute_segment_hash("/data", &tree, &[], None), format!("{:016x}", expected));
    assert_eq!(hash_dir_contents("/data", "", &tree, &[], None), (expected, true));
    assert_eq!(hash_dir_contents("/data", "", &vec![dir("d", vec![])], &[], None), (0, false));
    // Two files with the same digest cancel: the result is zero, not the empty hash
    assert_eq!(hash_file("x.txt", b"A"), xxh3_64(b"x.txtA"));
    assert_eq!(hash_file("", b""), xxh3_64(b""));
    assert_eq!(hash_file("é", b"\xff"), xxh3_64(b"\xc3\xa9\xff"));
}

#[test]
fn test_hash_file_in_blocks() {
    let mut content = Vec::new();
    for i in 0..(3 * HASHER_BUFFER_SIZE + 17) {
        content.push((i % 251) as u8);
    }
    let mut whole = b"big.bin".to_vec();
    whole.extend_from_slice(&content);
    assert_eq!(hash_file("big.bin", &content), xxh3_64(&whole));
    let exact = vec![9u8; HASHER_BUFFER_SIZE];
    let mut whole = b"p".to_vec();
    whole.extend_from_slice(&exact);
    assert_eq!(hash_file("p", &exact), xxh3_64(&whole));
}

#[test]
fn test_hash_has_sixteen_hex_digits() {
    let trees = vec![
        vec![],
        vec![file("a", b"1")],
        vec![file("a", b"1"), file("b", b"2")],
        vec![dir("d", vec![file("a", b"1")])],
    ];
    for tree in &trees {
        let hash = compute_segment_hash("/s", tree, &[], None);
        assert_eq!(hash.len(), 16);
        assert!(hash.chars().all(|c| c.is_ascii_digit() || ('a'..='f').contains(&c)));
    }
}
