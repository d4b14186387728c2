use foliot::clock::{abort_clock, add_entry, can_insert, clock_duration, clock_in, clock_out};
use foliot::entry::{entries_overlap, ClockinTimestamp, Entry};
use foliot::error::ClockError;
use foliot::timestamp::Timestamp;

fn ts(year: u16, month: u8, day: u8, hour: u8, minute: u8, second: u8) -> Timestamp {
    Timestamp { year, month, day, hour, minute, second }
}

fn entry(start: Timestamp, end: Timestamp) -> Entry {
    Entry::create(start, end, None)
}

#[test]
fn an_entry_overlaps_itself() {
    let e = entry(ts(2024, 5, 1, 10, 0, 0), ts(2024, 5, 1, 12, 0, 0));
    assert!(entries_overlap(&e, &e));
}

#[test]
fn inserting_the_same_entry_twice_is_rejected() {
    let e = entry(ts(2024, 5, 1, 10, 0, 0), ts(2024, 5, 1, 12, 0, 0));
    let store = add_entry(Vec::new(), e.start_time, e.end_time, None).unwrap();
    assert_eq!(store.len(), 1);
    let again = add_entry(store, e.start_time, e.end_time, None);
    assert_eq!(again.unwrap_err(), ClockError::Overlap);
}

#[test]
fn back_to_back_entries_are_accepted() {
    let boundary = ts(2024, 5, 1, 12, 0, 0);
    let store = add_entry(Vec::new(), ts(2024, 5, 1, 10, 0, 0), boundary, None).unwrap();
    let store = add_entry(store, boundary, ts(2024, 5, 1, 14, 0, 0), None).unwrap();
    assert_eq!(store.len(), 2);
}

#[test]
fn overlapping_sub_interval_is_rejected() {
    let store = add_entry(
        Vec::new(),
        ts(2024, 5, 1, 10, 0, 0),
        ts(2024, 5, 1, 12, 0, 0),
        None,
    )
    .unwrap();
    let r = add_entry(store, ts(2024, 5, 1, 11, 0, 0), ts(2024, 5, 1, 13, 0, 0), None);
    assert_eq!(r.unwrap_err(), ClockError::Overlap);
}

#[test]
fn containing_interval_is_rejected() {
    let store = add_entry(
        Vec::new(),
        ts(2024, 5, 1, 10, 0, 0),
        ts(2024, 5, 1, 12, 0, 0),
        None,
    )
    .unwrap();
    let r = add_entry(store, ts(2024, 5, 1, 9, 0, 0), ts(2024, 5, 1, 13, 0, 0), None);
    assert_eq!(r.unwrap_err(), ClockError::Overlap);
}

#[test]
fn can_insert_checks_every_entry() {
    let store = vec![
        entry(ts(2024, 5, 1, 8, 0, 0), ts(2024, 5, 1, 9, 0, 0)),
        entry(ts(2024, 5, 1, 12, 0, 0), ts(2024, 5, 1, 13, 0, 0)),
    ];
    let fits = entry(ts(2024, 5, 1, 10, 0, 0), ts(2024, 5, 1, 11, 0, 0));
    let collides = entry(ts(2024, 5, 1, 12, 30, 0), ts(2024, 5, 1, 12, 45, 0));
    assert!(can_insert(&store, &fits));
    assert!(!can_insert(&store, &collides));
}

#[test]
fn zero_length_entry_does_not_overlap_itself() {
    // A zero-duration entry has no inner instant, so even an exact
    // duplicate of it is accepted.
    let at = ts(2024, 5, 1, 10, 0, 0);
    let e = entry(at, at);
    assert!(!entries_overlap(&e, &e));
    let store = add_entry(Vec::new(), at, at, None).unwrap();
    let store = add_entry(store, at, at, None).unwrap();
    assert_eq!(store.len(), 2);
}

#[test]
fn zero_length_entry_inside_a_span_is_rejected() {
    let store = add_entry(
        Vec::new(),
        ts(2024, 5, 1, 10, 0, 0),
        ts(2024, 5, 1, 12, 0, 0),
        None,
    )
    .unwrap();
    let at = ts(2024, 5, 1, 11, 0, 0);
    let r = add_entry(store, at, at, None);
    assert_eq!(r.unwrap_err(), ClockError::Overlap);
}

#[test]
fn create_checked_is_the_validation_toggle() {
    let start = ts(2024, 5, 1, 10, 0, 0);
    let end = ts(2024, 5, 1, 12, 0, 0);
    let ok = Entry::create_checked(start, end, None, true).unwrap();
    assert_eq!(ok, Entry::create(start, end, None));
    assert!(Entry::create_checked(start, start, None, true).is_none());
    assert!(Entry::create_checked(end, start, None, true).is_none());
    assert!(Entry::create_checked(end, start, None, false).is_some());
}

#[test]
fn clock_in_twice_fails_and_keeps_marker() {
    let marker: Option<ClockinTimestamp> = None;
    let started = clock_in(&marker, ts(2024, 1, 10, 9, 0, 0)).unwrap();
    assert_eq!(started.start_time, ts(2024, 1, 10, 9, 0, 0));
    let running = Some(started);
    let second = clock_in(&running, ts(2024, 1, 10, 10, 0, 0));
    assert_eq!(second.unwrap_err(), ClockError::AlreadyRunning);
    assert_eq!(running.unwrap().start_time, ts(2024, 1, 10, 9, 0, 0));
}

#[test]
fn clock_out_without_clock_in_fails() {
    let marker: Option<ClockinTimestamp> = None;
    let r = clock_out(&marker, Vec::new(), ts(2024, 1, 10, 17, 30, 0), None);
    assert_eq!(r.unwrap_err(), ClockError::NotRunning);
}

#[test]
fn clock_in_then_out_records_one_entry() {
    let marker: Option<ClockinTimestamp> = None;
    let started = clock_in(&marker, ts(2024, 1, 10, 9, 0, 0)).unwrap();
    let running = Some(started);
    let store = clock_out(
        &running,
        Vec::new(),
        ts(2024, 1, 10, 17, 30, 0),
        Some(String::from("worked")),
    )
    .unwrap();
    assert_eq!(store.len(), 1);
    let e = &store[0];
    assert_eq!(e.start_time, ts(2024, 1, 10, 9, 0, 0));
    assert_eq!(e.end_time, ts(2024, 1, 10, 17, 30, 0));
    assert_eq!(e.comment.as_deref(), Some("worked"));
    let d = e.duration();
    assert_eq!(d.hours, 8);
    assert_eq!(d.minutes, 30);
    assert_eq!(d.format(), "08:30h");
}

#[test]
fn clock_out_overlap_reports_and_preserves_state() {
    let existing = add_entry(
        Vec::new(),
        ts(2024, 1, 10, 9, 0, 0),
        ts(2024, 1, 10, 18, 0, 0),
        None,
    )
    .unwrap();
    let running = Some(ClockinTimestamp::starting(&ts(2024, 1, 10, 10, 0, 0)));
    let r = clock_out(&running, existing.clone(), ts(2024, 1, 10, 11, 0, 0), None);
    assert_eq!(r.unwrap_err(), ClockError::Overlap);
    assert_eq!(existing.len(), 1);
}

#[test]
fn abort_discards_marker_and_makes_no_entry() {
    let running = Some(ClockinTimestamp::starting(&ts(2024, 1, 10, 9, 0, 0)));
    assert!(abort_clock(&running).is_ok());
    let idle: Option<ClockinTimestamp> = None;
    assert_eq!(abort_clock(&idle).unwrap_err(), ClockError::NotRunning);
}

#[test]
fn clock_duration_with_explicit_start() {
    let store = clock_duration(
        Vec::new(),
        90,
        Some(ts(2024, 1, 10, 9, 0, 0)),
        ts(2024, 6, 1, 12, 0, 0),
        Some(String::from("offline work")),
    )
    .unwrap();
    assert_eq!(store.len(), 1);
    assert_eq!(store[0].start_time, ts(2024, 1, 10, 9, 0, 0));
    assert_eq!(store[0].end_time, ts(2024, 1, 10, 10, 30, 0));
}

#[test]
fn clock_duration_counts_back_from_current_time() {
    let store = clock_duration(Vec::new(), 120, None, ts(2024, 1, 10, 12, 0, 0), None).unwrap();
    assert_eq!(store.len(), 1);
    assert_eq!(store[0].start_time, ts(2024, 1, 10, 10, 0, 0));
    assert_eq!(store[0].end_time, ts(2024, 1, 10, 12, 0, 0));
}

#[test]
fn add_entry_keeps_history_sorted_before_the_new_entry() {
    let store = add_entry(
        Vec::new(),
        ts(2024, 5, 2, 10, 0, 0),
        ts(2024, 5, 2, 11, 0, 0),
        None,
    )
    .unwrap();
    let store = add_entry(store, ts(2024, 5, 1, 10, 0, 0), ts(2024, 5, 1, 11, 0, 0), None)
        .unwrap();
    let store = add_entry(store, ts(2024, 5, 3, 10, 0, 0), ts(2024, 5, 3, 11, 0, 0), None)
        .unwrap();
    assert_eq!(store[0].start_time.day, 1);
    assert_eq!(store[1].start_time.day, 2);
    assert_eq!(store[2].start_time.day, 3);
}
