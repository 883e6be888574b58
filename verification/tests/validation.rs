use folder_splitter::entry::{
    DateField, DateGranularity, DirectoryEntry, SplitError,
};
use folder_splitter::entry::filter_entries;
use folder_splitter::validate::{normalize_size, parse_date_field, parse_granularity};

#[test]
fn size_units_are_binary_multiples() {
    assert_eq!(normalize_size(7, "b"), Ok(7));
    assert_eq!(normalize_size(2, "kb"), Ok(2048));
    assert_eq!(normalize_size(3, "mb"), Ok(3145728));
    assert_eq!(normalize_size(1, "gb"), Ok(1073741824));
    assert_eq!(normalize_size(1, "tb"), Ok(1099511627776));
}

#[test]
fn unrecognized_unit_is_invalid() {
    assert_eq!(normalize_size(1, "pb"), Err(SplitError::InvalidPolicyParameter));
    assert_eq!(normalize_size(1, "KB"), Err(SplitError::InvalidPolicyParameter));
    assert_eq!(normalize_size(1, ""), Err(SplitError::InvalidPolicyParameter));
}

#[test]
fn zero_or_overflowing_size_is_invalid() {
    assert_eq!(normalize_size(0, "b"), Err(SplitError::InvalidPolicyParameter));
    assert_eq!(normalize_size(u64::MAX, "kb"), Err(SplitError::InvalidPolicyParameter));
    assert_eq!(normalize_size(u64::MAX / 1024, "kb"), Ok((u64::MAX / 1024) * 1024));
}

#[test]
fn date_field_tokens() {
    assert_eq!(parse_date_field("created"), Ok(DateField::Created));
    assert_eq!(parse_date_field("accessed"), Ok(DateField::Accessed));
    assert_eq!(parse_date_field("modified"), Ok(DateField::Modified));
    assert_eq!(parse_date_field("changed"), Err(SplitError::InvalidPolicyParameter));
}

#[test]
fn granularity_tokens() {
    assert_eq!(parse_granularity("hour"), Ok(DateGranularity::Hour));
    assert_eq!(parse_granularity("day"), Ok(DateGranularity::Day));
    assert_eq!(parse_granularity("month"), Ok(DateGranularity::Month));
    assert_eq!(parse_granularity("year"), Ok(DateGranularity::Year));
    assert_eq!(parse_granularity("week"), Err(SplitError::InvalidPolicyParameter));
}

fn item(name: &str, is_directory: bool) -> DirectoryEntry {
    DirectoryEntry {
        name: name.to_string(),
        is_directory,
        size_bytes: 0,
        created: 0,
        accessed: 0,
        modified: 0,
    }
}

#[test]
fn ignoring_directories_drops_them_from_the_snapshot() {
    let entries = vec![item("a", false), item("sub", true), item("b", false)];
    let kept = filter_entries(&entries, true);
    let names: Vec<&str> = kept.iter().map(|e| e.name.as_str()).collect();
    assert_eq!(names, vec!["a", "b"]);
    let all = filter_entries(&entries, false);
    assert_eq!(all.len(), 3);
}
