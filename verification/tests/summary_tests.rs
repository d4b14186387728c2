use foliot::entry::{filter_entries, sort_by_start, tail_slice, Entry};
use foliot::summary::{month_key, summarize};
use foliot::timestamp::{days_in_month, from_total_seconds, timestamp_from_fields, Timestamp};

fn ts(year: u16, month: u8, day: u8, hour: u8, minute: u8, second: u8) -> Timestamp {
    Timestamp { year, month, day, hour, minute, second }
}

fn entry(start: Timestamp, end: Timestamp, comment: Option<&str>) -> Entry {
    Entry::create(start, end, comment.map(String::from))
}

#[test]
fn forty_hours_in_a_thirty_day_month() {
    // Five eight-hour days in April, a 30-day month: about 4.2857 weeks,
    // so roughly 9.33 hours per week.
    let mut entries = Vec::new();
    for day in 1..=5u8 {
        entries.push(entry(ts(2024, 4, day, 9, 0, 0), ts(2024, 4, day, 17, 0, 0), None));
    }
    let rows = summarize(&entries);
    assert_eq!(rows.len(), 1);
    let row = &rows[0];
    assert_eq!(row.total_hours.hours, 40);
    assert_eq!(row.total_hours.minutes, 0);
    assert_eq!(row.days, 5);
    assert_eq!(row.nitems, 5);
    assert_eq!(row.days_in_month, 30);
    let weeks = row.days_in_month as f64 / 7.0;
    let hours_per_week = row.total_hours.hours as f64 / weeks;
    assert!((hours_per_week - 9.33).abs() < 0.01);
}

#[test]
fn months_come_out_chronologically() {
    let entries = vec![
        entry(ts(2024, 3, 5, 9, 0, 0), ts(2024, 3, 5, 10, 0, 0), None),
        entry(ts(2023, 12, 5, 9, 0, 0), ts(2023, 12, 5, 10, 0, 0), None),
        entry(ts(2024, 1, 5, 9, 0, 0), ts(2024, 1, 5, 10, 0, 0), None),
    ];
    let rows = summarize(&entries);
    assert_eq!(rows.len(), 3);
    assert_eq!((rows[0].year, rows[0].month), (2023, 12));
    assert_eq!((rows[1].year, rows[1].month), (2024, 1));
    assert_eq!((rows[2].year, rows[2].month), (2024, 3));
}

#[test]
fn distinct_days_count_each_date_once() {
    let entries = vec![
        entry(ts(2024, 4, 1, 9, 0, 0), ts(2024, 4, 1, 10, 0, 0), None),
        entry(ts(2024, 4, 1, 11, 0, 0), ts(2024, 4, 1, 12, 0, 0), None),
        entry(ts(2024, 4, 2, 9, 0, 0), ts(2024, 4, 2, 10, 0, 0), None),
    ];
    let rows = summarize(&entries);
    assert_eq!(rows.len(), 1);
    assert_eq!(rows[0].days, 2);
    assert_eq!(rows[0].nitems, 3);
    assert_eq!(rows[0].total_hours.hours, 3);
}

#[test]
fn month_key_is_sortable_and_named() {
    assert_eq!(month_key(2024, 1), "2024/01 January");
    assert_eq!(month_key(2023, 12), "2023/12 December");
    assert_eq!(month_key(987, 9), "0987/09 September");
    let rows_key = summarize(&vec![entry(
        ts(2024, 4, 1, 9, 0, 0),
        ts(2024, 4, 1, 10, 0, 0),
        None,
    )]);
    assert_eq!(rows_key[0].month_key, "2024/04 April");
}

#[test]
fn days_in_month_handles_leap_rules() {
    assert_eq!(days_in_month(2024, 2), 29);
    assert_eq!(days_in_month(2023, 2), 28);
    assert_eq!(days_in_month(1900, 2), 28);
    assert_eq!(days_in_month(2000, 2), 29);
    assert_eq!(days_in_month(2024, 4), 30);
    assert_eq!(days_in_month(2024, 12), 31);
}

#[test]
fn sort_by_start_orders_chronologically() {
    let mut entries = vec![
        entry(ts(2024, 4, 3, 9, 0, 0), ts(2024, 4, 3, 10, 0, 0), Some("third")),
        entry(ts(2024, 4, 1, 9, 0, 0), ts(2024, 4, 1, 10, 0, 0), Some("first")),
        entry(ts(2024, 4, 2, 9, 0, 0), ts(2024, 4, 2, 10, 0, 0), Some("second")),
    ];
    sort_by_start(&mut entries);
    let order: Vec<&str> = entries.iter().map(|e| e.comment.as_deref().unwrap()).collect();
    assert_eq!(order, ["first", "second", "third"]);
}

#[test]
fn sort_by_start_is_stable_for_equal_starts() {
    let at = ts(2024, 4, 1, 9, 0, 0);
    let mut entries = vec![
        entry(ts(2024, 4, 2, 9, 0, 0), ts(2024, 4, 2, 10, 0, 0), Some("late")),
        entry(at, at, Some("first of the tie")),
        entry(at, at, Some("second of the tie")),
    ];
    sort_by_start(&mut entries);
    let order: Vec<&str> = entries.iter().map(|e| e.comment.as_deref().unwrap()).collect();
    assert_eq!(order, ["first of the tie", "second of the tie", "late"]);
}

#[test]
fn timestamp_from_fields_validates_exactly() {
    assert_eq!(
        timestamp_from_fields(2024, 2, 29, 9, 30),
        Some(ts(2024, 2, 29, 9, 30, 0))
    );
    assert_eq!(timestamp_from_fields(2023, 2, 29, 9, 30), None);
    assert_eq!(timestamp_from_fields(0, 1, 1, 0, 0), None);
    assert_eq!(timestamp_from_fields(10000, 1, 1, 0, 0), None);
    assert_eq!(timestamp_from_fields(2024, 13, 1, 0, 0), None);
    assert_eq!(timestamp_from_fields(2024, 1, 1, 24, 0), None);
    assert_eq!(timestamp_from_fields(2024, 1, 1, 23, 60), None);
}

#[test]
fn tail_slice_keeps_the_last_rows() {
    let v = vec![1u32, 2, 3, 4, 5];
    assert_eq!(tail_slice(v.clone(), 0), vec![1, 2, 3, 4, 5]);
    assert_eq!(tail_slice(v.clone(), 2), vec![4, 5]);
    assert_eq!(tail_slice(v, 9), vec![1, 2, 3, 4, 5]);
}

#[test]
fn filter_entries_applies_the_callers_predicate() {
    let entries = vec![
        entry(ts(2024, 4, 1, 9, 0, 0), ts(2024, 4, 1, 10, 0, 0), Some("meeting")),
        entry(ts(2024, 4, 2, 9, 0, 0), ts(2024, 4, 2, 10, 0, 0), None),
        entry(ts(2024, 4, 3, 9, 0, 0), ts(2024, 4, 3, 10, 0, 0), Some("deep work")),
    ];
    let kept = filter_entries(entries, &|e: &Entry| {
        e.comment.as_deref().map_or(false, |c| c.contains("work"))
    });
    assert_eq!(kept.len(), 1);
    assert_eq!(kept[0].comment.as_deref(), Some("deep work"));
}

#[test]
fn timestamp_round_trips_through_total_seconds() {
    let t = ts(2024, 2, 29, 23, 59, 59);
    let n = t.total_seconds();
    assert_eq!(from_total_seconds(n), t);
    let first = ts(1, 1, 1, 0, 0, 0);
    assert_eq!(first.total_seconds(), 0);
    assert_eq!(from_total_seconds(0), first);
}

#[test]
fn shifting_minutes_crosses_boundaries() {
    let t = ts(2024, 3, 1, 0, 30, 0);
    let back = t.checked_shift_minutes(-60).unwrap();
    assert_eq!(back, ts(2024, 2, 29, 23, 30, 0));
    let forward = ts(2023, 12, 31, 23, 0, 0).checked_shift_minutes(120).unwrap();
    assert_eq!(forward, ts(2024, 1, 1, 1, 0, 0));
    assert!(ts(1, 1, 1, 0, 0, 0).checked_shift_minutes(-1).is_none());
    assert!(ts(9999, 12, 31, 23, 59, 0).checked_shift_minutes(2).is_none());
}

#[test]
fn summarize_of_empty_store_has_no_rows() {
    let rows = summarize(&Vec::new());
    assert!(rows.is_empty());
}

#[test]
fn tail_slice_of_empty_store_is_empty() {
    let v: Vec<u32> = Vec::new();
    assert!(tail_slice(v, 5).is_empty());
}

#[test]
fn current_time_is_well_formed_when_available() {
    if let Some(t) = foliot::timestamp::now() {
        assert!(t.well_formed());
        assert_eq!(t.second, 0);
        assert!(t.year >= 2024);
    } else {
        panic!("system clock outside the supported years");
    }
}
