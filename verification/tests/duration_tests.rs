use foliot::duration::HumanDuration;
use foliot::timestamp::Timestamp;

fn ts(year: u16, month: u8, day: u8, hour: u8, minute: u8, second: u8) -> Timestamp {
    Timestamp { year, month, day, hour, minute, second }
}

#[test]
fn zero_is_identity() {
    let z = HumanDuration::zero();
    assert_eq!(z.hours, 0);
    assert_eq!(z.minutes, 0);
    let d = HumanDuration { hours: 7, minutes: 42 };
    let s = z.add(d);
    assert_eq!(s, d);
}

#[test]
fn add_carries_minutes_into_hours() {
    let a = HumanDuration { hours: 1, minutes: 45 };
    let b = HumanDuration { hours: 2, minutes: 30 };
    let s = a.add(b);
    assert_eq!(s.hours, 4);
    assert_eq!(s.minutes, 15);
}

#[test]
fn add_is_commutative_and_associative() {
    let a = HumanDuration { hours: 3, minutes: 59 };
    let b = HumanDuration { hours: 0, minutes: 59 };
    let c = HumanDuration { hours: 11, minutes: 7 };
    assert_eq!(a.add(b), b.add(a));
    assert_eq!(a.add(b.add(c)), a.add(b).add(c));
    let ab = a.add(b);
    assert!(0 <= ab.minutes && ab.minutes < 60);
    let bc = b.add(c);
    assert!(0 <= bc.minutes && bc.minutes < 60);
}

#[test]
fn from_span_gives_hours_and_minutes() {
    let d = HumanDuration::from_span(
        &ts(2024, 1, 10, 9, 0, 0),
        &ts(2024, 1, 10, 17, 30, 0),
    );
    assert_eq!(d.hours, 8);
    assert_eq!(d.minutes, 30);
}

#[test]
fn from_span_crosses_midnight_and_months() {
    let d = HumanDuration::from_span(
        &ts(2024, 2, 29, 23, 30, 0),
        &ts(2024, 3, 1, 1, 0, 0),
    );
    assert_eq!(d.hours, 1);
    assert_eq!(d.minutes, 30);
}

#[test]
fn from_span_truncates_seconds_to_minutes() {
    let d = HumanDuration::from_span(
        &ts(2024, 1, 10, 9, 0, 30),
        &ts(2024, 1, 10, 9, 2, 15),
    );
    assert_eq!(d.hours, 0);
    assert_eq!(d.minutes, 1);
}

#[test]
fn from_span_backwards_is_non_positive() {
    let d = HumanDuration::from_span(
        &ts(2024, 1, 10, 12, 0, 0),
        &ts(2024, 1, 10, 10, 30, 0),
    );
    assert_eq!(d.hours, -1);
    assert_eq!(d.minutes, -30);
}

#[test]
fn format_is_zero_padded() {
    let d = HumanDuration { hours: 8, minutes: 5 };
    assert_eq!(d.format(), "08:05h");
}

#[test]
fn format_keeps_hours_above_ninety_nine() {
    let d = HumanDuration { hours: 123, minutes: 7 };
    assert_eq!(d.format(), "123:07h");
}

#[test]
fn format_of_zero() {
    assert_eq!(HumanDuration::zero().format(), "00:00h");
}

#[test]
fn entry_duration_format_matches_clock_shape() {
    let e = foliot::entry::Entry::create(
        ts(2024, 1, 10, 9, 0, 0),
        ts(2024, 1, 12, 17, 30, 0),
        None,
    );
    let shown = e.duration().format();
    assert_eq!(shown, "56:30h");
    let bytes = shown.as_bytes();
    let colon = shown.find(':').unwrap();
    assert!(colon >= 2);
    assert!(bytes[..colon].iter().all(|b| b.is_ascii_digit()));
    assert_eq!(bytes.len(), colon + 4);
    assert!(bytes[colon + 1].is_ascii_digit());
    assert!(bytes[colon + 2].is_ascii_digit());
    assert_eq!(bytes[colon + 3], b'h');
}

#[test]
fn from_minutes_normalizes() {
    let d = HumanDuration::from_minutes(150);
    assert_eq!(d.hours, 2);
    assert_eq!(d.minutes, 30);
    let n = HumanDuration::from_minutes(-90);
    assert_eq!(n.hours, -1);
    assert_eq!(n.minutes, -30);
}
