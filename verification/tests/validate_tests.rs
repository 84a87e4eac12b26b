use task_entry_engine::time::Precision;
use task_entry_engine::time::Timestamp;
use task_entry_engine::time::parse_timestamp;
use task_entry_engine::validate::EditRequest;
use task_entry_engine::validate::Rule;
use task_entry_engine::validate::validate_edit;

fn at(text: &str) -> Timestamp {
    parse_timestamp(text, Precision::WithSeconds).unwrap()
}

fn req(
    name: Option<&str>,
    tags: Option<&str>,
    start: Option<&str>,
    stop: Option<&str>,
) -> EditRequest {
    EditRequest {
        name: name.map(|s| s.to_string()),
        tags: tags.map(|s| s.to_string()),
        start_text: start.map(|s| s.to_string()),
        stop_text: stop.map(|s| s.to_string()),
    }
}

#[test]
fn accepts_valid_range_not_in_future() {
    let now = at("2030-01-01 00:00:00");
    let cur_start = at("2024-01-01 09:00:00");
    let cur_stop = at("2024-01-01 09:30:00");
    let r = req(
        Some("Write"),
        Some("#Work"),
        Some("2024-01-01 08:00:00"),
        Some("2024-01-01 08:45:00"),
    );
    let patch = validate_edit(&r, &cur_start, &cur_stop, &now, Precision::WithSeconds).unwrap();
    assert_eq!(patch.name.as_deref(), Some("Write"));
    assert_eq!(patch.tags, Some(vec!["work".to_string()]));
    assert_eq!(patch.start, Some(at("2024-01-01 08:00:00")));
    assert_eq!(patch.stop, Some(at("2024-01-01 08:45:00")));
}

#[test]
fn rejects_start_after_stop_with_range_invalid() {
    let now = at("2030-01-01 00:00:00");
    let cur_start = at("2024-01-01 09:00:00");
    let cur_stop = at("2024-01-01 09:30:00");
    let r = req(None, None, Some("2024-01-01 10:00:00"), Some("2024-01-01 09:00:00"));
    let v = validate_edit(&r, &cur_start, &cur_stop, &now, Precision::WithSeconds).unwrap_err();
    assert_eq!(v, vec![Rule::RangeInvalid]);
}

#[test]
fn rejects_future_time() {
    let now = at("2024-06-01 12:00:00");
    let cur_start = at("2024-01-01 09:00:00");
    let cur_stop = at("2024-01-01 09:30:00");
    // A future stop after the stored start violates only the future rule.
    let r = req(None, None, None, Some("2024-06-01 12:00:01"));
    let v = validate_edit(&r, &cur_start, &cur_stop, &now, Precision::WithSeconds).unwrap_err();
    assert_eq!(v, vec![Rule::FutureTime]);
    // A future start after the stored stop violates the range rule too.
    let r = req(None, None, Some("2024-06-01 12:00:01"), None);
    let v = validate_edit(&r, &cur_start, &cur_stop, &now, Precision::WithSeconds).unwrap_err();
    assert_eq!(v, vec![Rule::FutureTime, Rule::RangeInvalid]);
}

#[test]
fn rejects_bad_format_per_field() {
    let now = at("2030-01-01 00:00:00");
    let cur_start = at("2024-01-01 09:00:00");
    let cur_stop = at("2024-01-01 09:30:00");
    let r = req(None, None, Some("yesterday"), None);
    let v = validate_edit(&r, &cur_start, &cur_stop, &now, Precision::WithSeconds).unwrap_err();
    assert_eq!(v, vec![Rule::StartFormat]);
    let r = req(None, None, None, Some("2024-01-01 09:30"));
    let v = validate_edit(&r, &cur_start, &cur_stop, &now, Precision::WithSeconds).unwrap_err();
    assert_eq!(v, vec![Rule::StopFormat]);
}

#[test]
fn rejects_empty_name_with_name_required() {
    let now = at("2030-01-01 00:00:00");
    let cur_start = at("2024-01-01 09:00:00");
    let cur_stop = at("2024-01-01 09:30:00");
    let r = req(Some("   "), None, None, None);
    let v = validate_edit(&r, &cur_start, &cur_stop, &now, Precision::WithSeconds).unwrap_err();
    assert_eq!(v, vec![Rule::NameRequired]);
}

#[test]
fn reports_every_violated_rule_in_order() {
    let now = at("2024-06-01 12:00:00");
    let cur_start = at("2024-01-01 09:00:00");
    let cur_stop = at("2024-01-01 09:30:00");
    let r = req(
        Some(" "),
        None,
        Some("nonsense"),
        Some("2025-01-01 00:00:00"),
    );
    let v = validate_edit(&r, &cur_start, &cur_stop, &now, Precision::WithSeconds).unwrap_err();
    assert_eq!(v, vec![Rule::NameRequired, Rule::StartFormat, Rule::FutureTime]);
}

#[test]
fn single_edited_endpoint_checked_against_stored_counterpart() {
    let now = at("2030-01-01 00:00:00");
    let cur_start = at("2024-01-01 09:00:00");
    let cur_stop = at("2024-01-01 09:30:00");
    // New stop before the stored start: range violation.
    let r = req(None, None, None, Some("2024-01-01 08:00:00"));
    let v = validate_edit(&r, &cur_start, &cur_stop, &now, Precision::WithSeconds).unwrap_err();
    assert_eq!(v, vec![Rule::RangeInvalid]);
    // New stop after the stored start: accepted.
    let r = req(None, None, None, Some("2024-01-01 09:10:00"));
    assert!(validate_edit(&r, &cur_start, &cur_stop, &now, Precision::WithSeconds).is_ok());
}

#[test]
fn without_seconds_mode_validates_minute_texts() {
    let now = at("2030-01-01 00:00:00");
    let cur_start = at("2024-01-01 09:00:00");
    let cur_stop = at("2024-01-01 09:30:00");
    let r = req(None, None, Some("2024-01-01 08:00"), Some("2024-01-01 08:45"));
    let patch = validate_edit(&r, &cur_start, &cur_stop, &now, Precision::WithoutSeconds).unwrap();
    assert_eq!(patch.start, Some(at("2024-01-01 08:00:00")));
    assert_eq!(patch.stop, Some(at("2024-01-01 08:45:00")));
}
