use seg_arc::store::{
    parse_hash_file, read_hash_file, write_hash_file, FingerprintStore, LineIssue,
};

#[test]
fn test_read_hash_file_missing() {
    // A store file that is not there reads as no text
    let hashes = read_hash_file("");
    assert!(hashes.is_empty(), "Reading missing hash file should return empty HashMap");
}

#[test]
fn test_read_write_hash_file() {
    let mut hashes = FingerprintStore::new();
    hashes.insert("segment1".to_string(), "abc123".to_string());
    hashes.insert("segment2".to_string(), "def456".to_string());
    let content = write_hash_file(&hashes);

    let read_hashes = read_hash_file(&content);
    assert_eq!(read_hashes.len(), 2);
    assert_eq!(read_hashes.get("segment1"), Some(&"abc123".to_string()));
    assert_eq!(read_hashes.get("segment2"), Some(&"def456".to_string()));
}

#[test]
fn test_read_hash_file_with_empty_lines() {
    let mut content = String::new();
    content.push_str("segment1=abc123\n");
    content.push_str("\n");
    content.push_str("segment2=def456\n");
    content.push_str("   \n");
    content.push_str("segment3=ghi789\n");

    let read_hashes = read_hash_file(&content);
    assert_eq!(read_hashes.len(), 3);
    assert_eq!(read_hashes.get("segment1"), Some(&"abc123".to_string()));
    assert_eq!(read_hashes.get("segment2"), Some(&"def456".to_string()));
    assert_eq!(read_hashes.get("segment3"), Some(&"ghi789".to_string()));
}

#[test]
fn test_write_hash_file_sorted() {
    let mut hashes = FingerprintStore::new();
    hashes.insert("zebra".to_string(), "hash1".to_string());
    hashes.insert("apple".to_string(), "hash2".to_string());
    hashes.insert("banana".to_string(), "hash3".to_string());
    let content = write_hash_file(&hashes);

    let lines: Vec<&str> = content.lines().collect();
    assert_eq!(lines[0], "apple=hash2");
    assert_eq!(lines[1], "banana=hash3");
    assert_eq!(lines[2], "zebra=hash1");
    assert_eq!(content, "apple=hash2\nbanana=hash3\nzebra=hash1\n");
}

#[test]
fn test_read_hash_file_malformed_line() {
    let content = "segment1=abc123\nmalformed_line_no_equals\nsegment2=def456\n";

    let hashes = read_hash_file(content);
    assert_eq!(hashes.len(), 2, "Should read 2 valid entries");
    assert_eq!(hashes.get("segment1"), Some(&"abc123".to_string()));
    assert_eq!(hashes.get("segment2"), Some(&"def456".to_string()));
}

#[test]
fn test_read_hash_file_duplicate_keys() {
    let content = "segment1=abc123\nsegment1=def456\nsegment2=ghi789\n";

    let hashes = read_hash_file(content);
    assert_eq!(hashes.len(), 2, "Should have 2 unique keys");
    assert_eq!(hashes.get("segment1"), Some(&"def456".to_string()), "Last value should win");
    assert_eq!(hashes.get("segment2"), Some(&"ghi789".to_string()));
}

#[test]
fn test_read_hash_file_very_long_line() {
    let long_key = "a".repeat(10000);
    let long_value = "b".repeat(10000);
    let content = format!("{}={}\nsegment2=normal\n", long_key, long_value);

    let hashes = read_hash_file(&content);
    assert_eq!(hashes.len(), 2, "Should read both entries");
    assert_eq!(hashes.get(&long_key), Some(&long_value));
    assert_eq!(hashes.get("segment2"), Some(&"normal".to_string()));
}

#[test]
fn test_read_hash_file_empty_key() {
    let content = "=abc123\nsegment2=def456\n";

    let hashes = read_hash_file(content);
    assert_eq!(hashes.len(), 2, "Should read both entries");
    assert_eq!(hashes.get(""), Some(&"abc123".to_string()));
    assert_eq!(hashes.get("segment2"), Some(&"def456".to_string()));
}

#[test]
fn test_read_hash_file_empty_value() {
    let content = "segment1=\nsegment2=def456\n";

    let hashes = read_hash_file(content);
    assert_eq!(hashes.len(), 2, "Should read both entries");
    assert_eq!(hashes.get("segment1"), Some(&"".to_string()));
    assert_eq!(hashes.get("segment2"), Some(&"def456".to_string()));
}

#[test]
fn test_read_hash_file_multiple_equals() {
    let content = "segment1=abc=123=xyz\nsegment2=def456\n";

    let hashes = read_hash_file(content);
    assert_eq!(hashes.len(), 2, "Should read both entries");
    assert_eq!(
        hashes.get("segment1"),
        Some(&"abc=123=xyz".to_string()),
        "Value should include all content after first equals"
    );
    assert_eq!(hashes.get("segment2"), Some(&"def456".to_string()));
}

#[test]
fn test_store_round_trip() {
    let mut hashes = FingerprintStore::new();
    hashes.insert("b".to_string(), "2".to_string());
    hashes.insert("a".to_string(), "1".to_string());
    let content = write_hash_file(&hashes);
    assert_eq!(content, "a=1\nb=2\n");
    let back = read_hash_file(&content);
    assert_eq!(back.len(), 2);
    assert_eq!(back.get("a"), Some(&"1".to_string()));
    assert_eq!(back.get("b"), Some(&"2".to_string()));
    assert_eq!(write_hash_file(&back), content);
}

#[test]
fn test_store_white_space_and_line_ends() {
    let content = "  name \t=  value with  spaces \r\n\u{a0}k\u{3000}=\u{2003}v\u{85}\nlast=line";
    let hashes = read_hash_file(content);
    assert_eq!(hashes.len(), 3);
    assert_eq!(hashes.get("name"), Some(&"value with  spaces".to_string()));
    assert_eq!(hashes.get("k"), Some(&"v".to_string()));
    assert_eq!(hashes.get("last"), Some(&"line".to_string()));
    // A line of one `=` names the empty key with the empty value
    let hashes = read_hash_file(" = \n");
    assert_eq!(hashes.len(), 1);
    assert_eq!(hashes.get(""), Some(&"".to_string()));
}

#[test]
fn test_store_insert_get_remove() {
    let mut hashes = FingerprintStore::new();
    assert!(hashes.is_empty());
    assert_eq!(hashes.get("x"), None);
    hashes.insert("m".to_string(), "1".to_string());
    hashes.insert("z".to_string(), "2".to_string());
    hashes.insert("a".to_string(), "3".to_string());
    hashes.insert("m".to_string(), "4".to_string());
    assert_eq!(hashes.len(), 3);
    assert!(!hashes.is_empty());
    assert_eq!(hashes.get("m"), Some(&"4".to_string()));
    assert_eq!(hashes.get("mm"), None);
    assert_eq!(write_hash_file(&hashes), "a=3\nm=4\nz=2\n");
    hashes.remove("m");
    hashes.remove("not there");
    assert_eq!(hashes.len(), 2);
    assert_eq!(hashes.get("m"), None);
    assert_eq!(write_hash_file(&hashes), "a=3\nz=2\n");
    hashes.remove("a");
    hashes.remove("z");
    assert!(hashes.is_empty());
    assert_eq!(write_hash_file(&hashes), "");
}

#[test]
fn test_store_order_of_names() {
    let mut hashes = FingerprintStore::new();
    for name in ["b", "B", "ab", "a", "", "é", "z", "a b", "10", "9"] {
        hashes.insert(name.to_string(), "v".to_string());
    }
    let content = write_hash_file(&hashes);
    let names: Vec<&str> = content.lines().map(|l| l.strip_suffix("=v").unwrap()).collect();
    let mut expected = vec!["b", "B", "ab", "a", "", "é", "z", "a b", "10", "9"];
    expected.sort();
    assert_eq!(names, expected);
}

#[test]
fn test_parse_hash_file_issues() {
    let content = "a=1\n\nno equals\n  a = 2 \nb=3\n   \n=x\n=y\nlast line";
    let (hashes, issues) = parse_hash_file(content);
    assert_eq!(hashes.len(), 3);
    assert_eq!(hashes.get("a"), Some(&"2".to_string()));
    assert_eq!(hashes.get(""), Some(&"y".to_string()));
    assert_eq!(
        issues,
        vec![
            LineIssue::Invalid { line: 3, text: "no equals".to_string() },
            LineIssue::Duplicate { line: 4, name: "a".to_string() },
            LineIssue::Duplicate { line: 8, name: "".to_string() },
            LineIssue::Invalid { line: 9, text: "last line".to_string() },
        ]
    );
    assert_eq!(issues[0].message(), "Invalid line in hash file (line 3): no equals");
    assert_eq!(issues[1].message(), "Duplicate key in hash file (Last value is used): a");
    // Nothing is amiss with what the library writes
    let (_, none) = parse_hash_file(&write_hash_file(&hashes));
    assert!(none.is_empty());
    let (empty, none) = parse_hash_file("\n\n\n");
    assert!(empty.is_empty());
    assert!(none.is_empty());
}
