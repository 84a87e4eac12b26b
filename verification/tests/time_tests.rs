use task_entry_engine::time::Precision;
use task_entry_engine::time::Timestamp;
use task_entry_engine::time::duration_hms;
use task_entry_engine::time::format_clock;
use task_entry_engine::time::format_timestamp;
use task_entry_engine::time::leap_year;
use task_entry_engine::time::month_length;
use task_entry_engine::time::now_local;
use task_entry_engine::time::parse_timestamp;
use task_entry_engine::time::timestamp_from_fields;

fn ts(year: u16, month: u8, day: u8, hour: u8, minute: u8, second: u8) -> Timestamp {
    Timestamp { year, month, day, hour, minute, second }
}

#[test]
fn parse_with_seconds_exact_fields() {
    let t = parse_timestamp("2024-01-01 09:30:05", Precision::WithSeconds).unwrap();
    assert_eq!(t, ts(2024, 1, 1, 9, 30, 5));
}

#[test]
fn parse_without_seconds_exact_fields() {
    let t = parse_timestamp("2024-12-31 23:59", Precision::WithoutSeconds).unwrap();
    assert_eq!(t, ts(2024, 12, 31, 23, 59, 0));
}

#[test]
fn parse_rejects_wrong_shape() {
    assert!(parse_timestamp("2024-01-01 09:30", Precision::WithSeconds).is_none());
    assert!(parse_timestamp("2024-01-01 09:30:00", Precision::WithoutSeconds).is_none());
    assert!(parse_timestamp("2024/01/01 09:30:00", Precision::WithSeconds).is_none());
    assert!(parse_timestamp("not a time", Precision::WithSeconds).is_none());
    assert!(parse_timestamp("", Precision::WithSeconds).is_none());
    assert!(parse_timestamp("2024-01-01T09:30:00", Precision::WithSeconds).is_none());
}

#[test]
fn parse_rejects_out_of_range_fields() {
    assert!(parse_timestamp("2024-13-01 09:30:00", Precision::WithSeconds).is_none());
    assert!(parse_timestamp("2024-00-01 09:30:00", Precision::WithSeconds).is_none());
    assert!(parse_timestamp("2024-01-32 09:30:00", Precision::WithSeconds).is_none());
    assert!(parse_timestamp("2024-01-00 09:30:00", Precision::WithSeconds).is_none());
    assert!(parse_timestamp("2024-01-01 24:30:00", Precision::WithSeconds).is_none());
    assert!(parse_timestamp("2024-01-01 09:60:00", Precision::WithSeconds).is_none());
    assert!(parse_timestamp("2024-01-01 09:30:60", Precision::WithSeconds).is_none());
}

#[test]
fn parse_respects_month_lengths_and_leap_years() {
    assert!(parse_timestamp("2024-02-29 00:00:00", Precision::WithSeconds).is_some());
    assert!(parse_timestamp("2023-02-29 00:00:00", Precision::WithSeconds).is_none());
    assert!(parse_timestamp("1900-02-29 00:00:00", Precision::WithSeconds).is_none());
    assert!(parse_timestamp("2000-02-29 00:00:00", Precision::WithSeconds).is_some());
    assert!(parse_timestamp("2024-04-31 00:00:00", Precision::WithSeconds).is_none());
    assert!(parse_timestamp("2024-04-30 00:00:00", Precision::WithSeconds).is_some());
}

#[test]
fn leap_year_rule() {
    assert!(leap_year(2024));
    assert!(!leap_year(2023));
    assert!(!leap_year(1900));
    assert!(leap_year(2000));
}

#[test]
fn month_length_values() {
    assert_eq!(month_length(2024, 2), 29);
    assert_eq!(month_length(2023, 2), 28);
    assert_eq!(month_length(2024, 4), 30);
    assert_eq!(month_length(2024, 12), 31);
}

#[test]
fn format_round_trips_through_parse() {
    let t = ts(2024, 3, 7, 8, 5, 9);
    assert_eq!(format_timestamp(&t, Precision::WithSeconds), "2024-03-07 08:05:09");
    assert_eq!(format_timestamp(&t, Precision::WithoutSeconds), "2024-03-07 08:05");
    let back = parse_timestamp("2024-03-07 08:05:09", Precision::WithSeconds).unwrap();
    assert_eq!(back, t);
}

#[test]
fn format_clock_values() {
    let t = ts(2024, 3, 7, 8, 5, 9);
    assert_eq!(format_clock(&t, Precision::WithSeconds), "08:05:09");
    assert_eq!(format_clock(&t, Precision::WithoutSeconds), "08:05");
}

#[test]
fn timestamp_ordering_compares_instants() {
    let a = ts(2024, 1, 31, 23, 59, 59);
    let b = ts(2024, 2, 1, 0, 0, 0);
    assert!(a.le(&b));
    assert!(!b.le(&a));
    assert!(a.le(&a));
}

#[test]
fn duration_hms_exact_value() {
    let a = ts(2024, 1, 1, 9, 0, 0);
    let b = ts(2024, 1, 1, 10, 31, 5);
    assert_eq!(duration_hms(&a, &b), (1, 31, 5));
    let c = ts(2024, 1, 2, 9, 0, 0);
    assert_eq!(duration_hms(&a, &c), (24, 0, 0));
}

#[test]
fn timestamp_from_fields_validates() {
    assert_eq!(timestamp_from_fields(2024, 2, 29, 10, 0, 0), Some(ts(2024, 2, 29, 10, 0, 0)));
    assert_eq!(timestamp_from_fields(2023, 2, 29, 10, 0, 0), None);
    assert_eq!(timestamp_from_fields(-1, 1, 1, 0, 0, 0), None);
    assert_eq!(timestamp_from_fields(10000, 1, 1, 0, 0, 0), None);
}

#[test]
fn now_local_reports_a_valid_timestamp() {
    let now = now_local().unwrap();
    assert!(now.check_wf());
    assert!(now.year >= 2020);
}

#[test]
fn instant_counts_seconds_from_year_zero() {
    let epoch = ts(0, 1, 1, 0, 0, 0);
    assert_eq!(epoch.instant_exec(), 0);
    let next_day = ts(0, 1, 2, 0, 0, 0);
    assert_eq!(next_day.instant_exec(), 86400);
    let with_clock = ts(0, 1, 1, 1, 2, 3);
    assert_eq!(with_clock.instant_exec(), 3723);
    // Year zero is a leap year, so March 1 comes after 31 + 29 days.
    let march = ts(0, 3, 1, 0, 0, 0);
    assert_eq!(march.instant_exec(), 60 * 86400);
}

#[test]
fn ordering_within_one_day() {
    let a = ts(2024, 5, 5, 9, 0, 0);
    let b = ts(2024, 5, 5, 9, 0, 1);
    let c = ts(2024, 5, 5, 10, 0, 0);
    assert!(a.le(&b));
    assert!(!b.le(&a));
    assert!(b.le(&c));
    assert!(!c.le(&b));
}
