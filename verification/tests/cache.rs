use ais_analytics::cache::{age, age_at, file_name, load, save, save_at, slug, CachedScan};
use ais_analytics::loganalytics::TimeRange;
use ais_analytics::schema::TableSchema;

#[test]
fn workspace_ids_become_safe_recognisable_filenames() {
    assert_eq!(
        slug("11111111-2222-3333-4444-555555555555"),
        "11111111-2222-3333-4444-555555555555"
    );
    // A traversal attempt in an id must not escape the cache directory.
    assert_eq!(slug("../../etc/passwd"), "etc-passwd");
    // Two different workspaces must never collide on one file.
    assert_ne!(slug("aaaa-1111"), slug("bbbb-2222"));
}

fn scan_over(range: TimeRange) -> CachedScan {
    CachedScan {
        scanned_at: 0,
        range,
        schemas: vec![],
    }
}

/// A cache taken over a different window describes a different set of
/// tables, so it must not be shown as if it described this one.
#[test]
fn a_scan_from_another_time_range_is_not_reused() {
    let back = load(Some(scan_over(TimeRange::LastHour)), TimeRange::LastHour).expect("same range");
    assert_eq!(back.range, TimeRange::LastHour);
    assert_ne!(back.range, TimeRange::LastWeek);
    assert_eq!(
        load(Some(scan_over(TimeRange::LastHour)), TimeRange::LastWeek),
        None
    );
    assert_eq!(load(None, TimeRange::LastHour), None);
}

#[test]
fn ages_read_in_sensible_units() {
    let now = chrono::Utc::now().timestamp();
    assert_eq!(age(now), "just now");
    assert_eq!(age(now - 300), "5m ago");
    assert_eq!(age(now - 7200), "2h ago");
    assert_eq!(age(now - 172_800), "2d ago");
    // A clock that jumped backwards must not print a negative age.
    assert_eq!(age(now + 60), "just now");
}

#[test]
fn ages_change_unit_at_the_full_unit() {
    assert_eq!(age_at(59, 0), "just now");
    assert_eq!(age_at(60, 0), "1m ago");
    assert_eq!(age_at(3_599, 0), "59m ago");
    assert_eq!(age_at(3_600, 0), "1h ago");
    assert_eq!(age_at(86_399, 0), "23h ago");
    assert_eq!(age_at(86_400, 0), "1d ago");
    assert_eq!(age_at(i64::MIN, i64::MAX), "just now");
    assert_eq!(age_at(i64::MAX, i64::MIN), "213503982334601d ago");
}

#[test]
fn file_names_hold_nothing_but_letters_digits_and_hyphens() {
    assert_eq!(slug(""), "");
    assert_eq!(slug("---"), "");
    assert_eq!(slug("-a b-"), "a-b");
    assert_eq!(slug("é/ü"), "");
    assert_eq!(file_name("ws-1"), "ws-1.json");
}

#[test]
fn an_empty_scan_is_not_kept() {
    assert_eq!(save_at(7, TimeRange::LastDay, &vec![]), None);
    let schemas = vec![TableSchema {
        table: "T".into(),
        sampled_rows: 0,
        rows_in_range: 0,
        fields: vec![],
    }];
    let kept = save_at(7, TimeRange::LastDay, &schemas).expect("kept");
    assert_eq!(kept.scanned_at, 7);
    assert_eq!(kept.range, TimeRange::LastDay);
    assert_eq!(kept.schemas, schemas);
    let before = chrono::Utc::now().timestamp();
    let kept = save(TimeRange::LastDay, &schemas).expect("kept");
    assert!(kept.scanned_at >= before);
}
