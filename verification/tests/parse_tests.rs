use foliot::error::ClockError;
use foliot::parse::{parse_starting_value, parse_starting_value_time};
use foliot::timestamp::Timestamp;

fn ts(year: u16, month: u8, day: u8, hour: u8, minute: u8, second: u8) -> Timestamp {
    Timestamp { year, month, day, hour, minute, second }
}

fn noon() -> Timestamp {
    ts(2024, 1, 10, 12, 0, 0)
}

#[test]
fn parses_full_datetime() {
    let t = parse_starting_value("2015-09-18T23:56:04", noon()).unwrap();
    assert_eq!(t, ts(2015, 9, 18, 23, 56, 4));
}

#[test]
fn parses_dotted_datetime_with_dash() {
    let t = parse_starting_value("18.09.2015-23:56", noon()).unwrap();
    assert_eq!(t, ts(2015, 9, 18, 23, 56, 0));
}

#[test]
fn parses_dotted_datetime_with_space() {
    let t = parse_starting_value("18.09.2015 23:56", noon()).unwrap();
    assert_eq!(t, ts(2015, 9, 18, 23, 56, 0));
}

#[test]
fn time_before_now_resolves_to_today() {
    let t = parse_starting_value("9:30", ts(2024, 1, 10, 10, 0, 0)).unwrap();
    assert_eq!(t, ts(2024, 1, 10, 9, 30, 0));
}

#[test]
fn time_after_now_resolves_to_yesterday() {
    let t = parse_starting_value("9:30", ts(2024, 1, 10, 9, 0, 0)).unwrap();
    assert_eq!(t, ts(2024, 1, 9, 9, 30, 0));
}

#[test]
fn time_equal_to_now_resolves_to_yesterday() {
    let t = parse_starting_value_time("09:00", ts(2024, 3, 1, 9, 0, 0)).unwrap();
    assert_eq!(t, ts(2024, 2, 29, 9, 0, 0));
}

#[test]
fn yesterday_crosses_a_year_boundary() {
    let t = parse_starting_value_time("23:59", ts(2024, 1, 1, 0, 0, 0)).unwrap();
    assert_eq!(t, ts(2023, 12, 31, 23, 59, 0));
}

#[test]
fn accepts_time_with_marker_and_compact_forms() {
    let now = ts(2024, 1, 10, 23, 59, 0);
    assert_eq!(parse_starting_value("09:30h", now).unwrap(), ts(2024, 1, 10, 9, 30, 0));
    assert_eq!(parse_starting_value("0930", now).unwrap(), ts(2024, 1, 10, 9, 30, 0));
    assert_eq!(parse_starting_value("0930h", now).unwrap(), ts(2024, 1, 10, 9, 30, 0));
}

#[test]
fn rejects_unparseable_text_with_the_offending_input() {
    let r = parse_starting_value("surely not a time", noon());
    match r.unwrap_err() {
        ClockError::Parse(s) => assert_eq!(s, "surely not a time"),
        other => panic!("expected a parse failure, got {:?}", other),
    }
}

#[test]
fn rejects_out_of_range_fields() {
    assert!(parse_starting_value("2024-13-01T00:00:00", noon()).is_err());
    assert!(parse_starting_value("2024-02-30T00:00:00", noon()).is_err());
    assert!(parse_starting_value("2024-01-10T24:00:00", noon()).is_err());
    assert!(parse_starting_value("31.04.2024-10:00", noon()).is_err());
    assert!(parse_starting_value("25:00", noon()).is_err());
    assert!(parse_starting_value("10:60", noon()).is_err());
    assert!(parse_starting_value("9:3", noon()).is_err());
    assert!(parse_starting_value("", noon()).is_err());
}

#[test]
fn leap_day_parses_only_in_leap_years() {
    assert!(parse_starting_value("2024-02-29T08:00:00", noon()).is_ok());
    assert!(parse_starting_value("2023-02-29T08:00:00", noon()).is_err());
    assert!(parse_starting_value("1900-02-29T08:00:00", noon()).is_err());
    assert!(parse_starting_value("2000-02-29T08:00:00", noon()).is_ok());
}
