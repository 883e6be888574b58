use folder_splitter::assign::split_by_date;
use folder_splitter::date::{civil_from_days, date_key_of, label_of_key_exec};
use folder_splitter::entry::{DateField, DateGranularity, DirectoryEntry};

fn entry_at(name: &str, modified: u64) -> DirectoryEntry {
    DirectoryEntry {
        name: name.to_string(),
        is_directory: false,
        size_bytes: 1,
        created: modified,
        accessed: modified,
        modified,
    }
}

const DAY: u64 = 86400;
const HOUR: u64 = 3600;

#[test]
fn civil_of_epoch_start() {
    assert_eq!(civil_from_days(0), (1970, 1, 1));
}

#[test]
fn civil_of_known_dates() {
    // 2020-02-29, a leap day: 18321 days after the epoch
    assert_eq!(civil_from_days(18321), (2020, 2, 29));
    // the next day crosses into March
    assert_eq!(civil_from_days(18322), (2020, 3, 1));
    // 1999-12-31 and the millennium rollover
    assert_eq!(civil_from_days(10956), (1999, 12, 31));
    assert_eq!(civil_from_days(10957), (2000, 1, 1));
    // 2100 is not a leap year: Feb 28 is day 47540, the next is Mar 1
    assert_eq!(civil_from_days(47540), (2100, 2, 28));
    assert_eq!(civil_from_days(47541), (2100, 3, 1));
}

#[test]
fn labels_are_fixed_width_and_sortable() {
    let day_key = date_key_of(18321 * DAY + 5 * HOUR, DateGranularity::Day);
    assert_eq!(label_of_key_exec(day_key, DateGranularity::Day), "2020-02-29");
    let hour_key = date_key_of(18321 * DAY + 5 * HOUR, DateGranularity::Hour);
    assert_eq!(label_of_key_exec(hour_key, DateGranularity::Hour), "2020-02-29-05");
    let month_key = date_key_of(18321 * DAY, DateGranularity::Month);
    assert_eq!(label_of_key_exec(month_key, DateGranularity::Month), "2020-02");
    let year_key = date_key_of(0, DateGranularity::Year);
    assert_eq!(label_of_key_exec(year_key, DateGranularity::Year), "1970");
}

#[test]
fn same_day_different_hours_share_a_day_bucket() {
    let ts = 18321 * DAY;
    let entries = vec![entry_at("a", ts + 5 * HOUR), entry_at("b", ts + 7 * HOUR)];
    let buckets = split_by_date(&entries, "", DateField::Modified, DateGranularity::Day);
    assert_eq!(buckets.len(), 1);
    assert_eq!(buckets[0].key, "_2020-02-29");
    assert_eq!(buckets[0].entries.len(), 2);
}

#[test]
fn same_day_different_hours_split_by_hour() {
    let ts = 18321 * DAY;
    let entries = vec![entry_at("a", ts + 5 * HOUR), entry_at("b", ts + 7 * HOUR)];
    let buckets = split_by_date(&entries, "", DateField::Modified, DateGranularity::Hour);
    assert_eq!(buckets.len(), 2);
    assert_eq!(buckets[0].key, "_2020-02-29-05");
    assert_eq!(buckets[1].key, "_2020-02-29-07");
}

#[test]
fn buckets_come_in_chronological_order() {
    let entries = vec![
        entry_at("new", 18321 * DAY),
        entry_at("old", 0),
        entry_at("mid", 10957 * DAY),
    ];
    let buckets = split_by_date(&entries, "t", DateField::Modified, DateGranularity::Year);
    let keys: Vec<&str> = buckets.iter().map(|b| b.key.as_str()).collect();
    assert_eq!(keys, vec!["t_1970", "t_2000", "t_2020"]);
}

#[test]
fn chosen_date_field_is_honoured() {
    let mut e = entry_at("a", 0);
    e.created = 18321 * DAY;
    let entries = vec![e];
    let by_created = split_by_date(&entries, "", DateField::Created, DateGranularity::Year);
    assert_eq!(by_created[0].key, "_2020");
    let by_modified = split_by_date(&entries, "", DateField::Modified, DateGranularity::Year);
    assert_eq!(by_modified[0].key, "_1970");
}

#[test]
fn by_date_coverage_and_determinism() {
    let make = || {
        vec![
            entry_at("a", 0),
            entry_at("b", 3 * HOUR),
            entry_at("c", 40 * DAY),
            entry_at("d", 400 * DAY),
        ]
    };
    let b1 = split_by_date(&make(), "", DateField::Modified, DateGranularity::Month);
    let b2 = split_by_date(&make(), "", DateField::Modified, DateGranularity::Month);
    assert_eq!(b1.len(), b2.len());
    let mut seen: Vec<String> = Vec::new();
    for (x, y) in b1.iter().zip(b2.iter()) {
        assert_eq!(x.key, y.key);
        for (ex, ey) in x.entries.iter().zip(y.entries.iter()) {
            assert_eq!(ex.name, ey.name);
        }
        for e in &x.entries {
            seen.push(e.name.clone());
        }
    }
    seen.sort();
    assert_eq!(seen, vec!["a", "b", "c", "d"]);
}
