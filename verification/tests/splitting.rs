use folder_splitter::assign::{split_by_file_count, split_by_file_ext, split_by_file_size};
use folder_splitter::entry::{DirectoryEntry, SplitError};

fn entry(name: &str, size: u64) -> DirectoryEntry {
    DirectoryEntry {
        name: name.to_string(),
        is_directory: false,
        size_bytes: size,
        created: 0,
        accessed: 0,
        modified: 0,
    }
}

fn names(bucket_entries: &[DirectoryEntry]) -> Vec<String> {
    bucket_entries.iter().map(|e| e.name.clone()).collect()
}

#[test]
fn by_count_twenty_five_files_max_ten() {
    let entries: Vec<DirectoryEntry> =
        (0..25).map(|i| entry(&format!("f{:02}", i), 1)).collect();
    let buckets = split_by_file_count(&entries, "", 10).unwrap();
    assert_eq!(buckets.len(), 3);
    assert_eq!(buckets[0].entries.len(), 10);
    assert_eq!(buckets[1].entries.len(), 10);
    assert_eq!(buckets[2].entries.len(), 5);
    assert_eq!(buckets[0].key, "_0");
    assert_eq!(buckets[1].key, "_1");
    assert_eq!(buckets[2].key, "_2");
    assert_eq!(buckets[0].entries[0].name, "f00");
    assert_eq!(buckets[2].entries[4].name, "f24");
}

#[test]
fn by_count_within_limit_is_nothing_to_do() {
    let entries: Vec<DirectoryEntry> =
        (0..25).map(|i| entry(&format!("f{:02}", i), 1)).collect();
    let r = split_by_file_count(&entries, "", 30);
    assert!(matches!(r, Err(SplitError::NothingToDo)));
}

#[test]
fn by_count_zero_limit_is_invalid() {
    let entries = vec![entry("a", 1), entry("b", 1)];
    let r = split_by_file_count(&entries, "", 0);
    assert!(matches!(r, Err(SplitError::InvalidPolicyParameter)));
}

#[test]
fn by_count_sorts_by_name_and_uses_prefix() {
    let entries = vec![entry("c", 1), entry("a", 1), entry("b", 1)];
    let buckets = split_by_file_count(&entries, "part", 2).unwrap();
    assert_eq!(buckets.len(), 2);
    assert_eq!(buckets[0].key, "part_0");
    assert_eq!(buckets[1].key, "part_1");
    assert_eq!(names(&buckets[0].entries), vec!["a", "b"]);
    assert_eq!(names(&buckets[1].entries), vec!["c"]);
}

#[test]
fn by_count_coverage_no_entry_lost_or_doubled() {
    let entries: Vec<DirectoryEntry> =
        (0..7).map(|i| entry(&format!("n{}", i), 1)).collect();
    let buckets = split_by_file_count(&entries, "x", 3).unwrap();
    let mut seen: Vec<String> = Vec::new();
    for b in &buckets {
        for e in &b.entries {
            seen.push(e.name.clone());
        }
    }
    seen.sort();
    let mut expected: Vec<String> = (0..7).map(|i| format!("n{}", i)).collect();
    expected.sort();
    assert_eq!(seen, expected);
}

#[test]
fn by_count_deterministic() {
    let make = || vec![entry("b", 1), entry("a", 1), entry("c", 1), entry("d", 1)];
    let b1 = split_by_file_count(&make(), "p", 3).unwrap();
    let b2 = split_by_file_count(&make(), "p", 3).unwrap();
    assert_eq!(b1.len(), b2.len());
    for (x, y) in b1.iter().zip(b2.iter()) {
        assert_eq!(x.key, y.key);
        assert_eq!(names(&x.entries), names(&y.entries));
    }
}

#[test]
fn by_size_forty_forty_forty_max_hundred() {
    let entries = vec![entry("a", 40), entry("b", 40), entry("c", 40)];
    let buckets = split_by_file_size(&entries, "", 100).unwrap();
    assert_eq!(buckets.len(), 2);
    assert_eq!(names(&buckets[0].entries), vec!["a", "b"]);
    assert_eq!(names(&buckets[1].entries), vec!["c"]);
    assert_eq!(buckets[0].key, "_0");
    assert_eq!(buckets[1].key, "_1");
}

#[test]
fn by_size_greedy_trigger_at_exactly_the_limit() {
    // adding the second entry would reach exactly 100, so it must open a
    // new bucket
    let entries = vec![entry("a", 50), entry("b", 50)];
    let buckets = split_by_file_size(&entries, "", 100).unwrap();
    assert_eq!(buckets.len(), 2);
    assert_eq!(names(&buckets[0].entries), vec!["a"]);
    assert_eq!(names(&buckets[1].entries), vec!["b"]);
}

#[test]
fn by_size_single_entry_at_limit_fills_one_bucket() {
    let entries = vec![entry("a", 100)];
    let buckets = split_by_file_size(&entries, "", 100).unwrap();
    assert_eq!(buckets.len(), 1);
    assert_eq!(names(&buckets[0].entries), vec!["a"]);
}

#[test]
fn by_size_oversized_entry_is_rejected_before_any_work() {
    let entries = vec![entry("a", 40), entry("big", 101), entry("c", 40)];
    let r = split_by_file_size(&entries, "", 100);
    assert!(matches!(r, Err(SplitError::EntryTooLarge)));
}

#[test]
fn by_size_zero_limit_is_invalid() {
    let entries = vec![entry("a", 1)];
    let r = split_by_file_size(&entries, "", 0);
    assert!(matches!(r, Err(SplitError::InvalidPolicyParameter)));
}

#[test]
fn by_size_empty_snapshot_makes_no_buckets() {
    let entries: Vec<DirectoryEntry> = Vec::new();
    let buckets = split_by_file_size(&entries, "", 10).unwrap();
    assert_eq!(buckets.len(), 0);
}

#[test]
fn by_ext_groups_case_insensitively() {
    let entries = vec![entry("a.TXT", 1), entry("b.txt", 1), entry("c", 1)];
    let buckets = split_by_file_ext(&entries, "");
    assert_eq!(buckets.len(), 2);
    assert_eq!(buckets[0].key, "_");
    assert_eq!(names(&buckets[0].entries), vec!["c"]);
    assert_eq!(buckets[1].key, "_txt");
    assert_eq!(names(&buckets[1].entries), vec!["a.TXT", "b.txt"]);
}

#[test]
fn by_ext_leading_dot_names_have_no_extension() {
    let entries = vec![entry(".profile", 1), entry("notes.md", 1), entry("trailing.", 1)];
    let buckets = split_by_file_ext(&entries, "");
    assert_eq!(buckets.len(), 2);
    assert_eq!(buckets[0].key, "_");
    assert_eq!(names(&buckets[0].entries), vec![".profile", "trailing."]);
    assert_eq!(buckets[1].key, "_md");
    assert_eq!(names(&buckets[1].entries), vec!["notes.md"]);
}

#[test]
fn by_ext_key_order_is_lexicographic() {
    let entries = vec![entry("z.rs", 1), entry("a.toml", 1), entry("m.md", 1)];
    let buckets = split_by_file_ext(&entries, "s");
    let keys: Vec<&str> = buckets.iter().map(|b| b.key.as_str()).collect();
    assert_eq!(keys, vec!["s_md", "s_rs", "s_toml"]);
}

#[test]
fn by_ext_last_dot_wins() {
    let entries = vec![entry("archive.tar.gz", 1)];
    let buckets = split_by_file_ext(&entries, "");
    assert_eq!(buckets.len(), 1);
    assert_eq!(buckets[0].key, "_gz");
}

#[test]
fn by_ext_deterministic() {
    let make = || vec![entry("a.TXT", 1), entry("b.txt", 1), entry("c", 1), entry("d.rs", 1)];
    let b1 = split_by_file_ext(&make(), "p");
    let b2 = split_by_file_ext(&make(), "p");
    assert_eq!(b1.len(), b2.len());
    for (x, y) in b1.iter().zip(b2.iter()) {
        assert_eq!(x.key, y.key);
        assert_eq!(names(&x.entries), names(&y.entries));
    }
}

#[test]
fn by_ext_coverage_no_entry_lost_or_doubled() {
    let entries = vec![
        entry("a.txt", 1),
        entry("b.rs", 1),
        entry("c", 1),
        entry("d.TXT", 1),
        entry("e.rs", 1),
    ];
    let buckets = split_by_file_ext(&entries, "");
    let mut seen: Vec<String> = Vec::new();
    for b in &buckets {
        for e in &b.entries {
            seen.push(e.name.clone());
        }
    }
    seen.sort();
    assert_eq!(seen, vec!["a.txt", "b.rs", "c", "d.TXT", "e.rs"]);
}
