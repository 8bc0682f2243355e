use ytq::util::{format_duration, parse_iso8601_duration};

#[test]
fn parse_duration_hours_minutes_seconds() {
    assert_eq!(parse_iso8601_duration("PT1H2M3S"), Some(3723));
}

#[test]
fn parse_duration_minutes_seconds() {
    assert_eq!(parse_iso8601_duration("PT3M33S"), Some(213));
}

#[test]
fn parse_duration_seconds_only() {
    assert_eq!(parse_iso8601_duration("PT45S"), Some(45));
}

#[test]
fn parse_duration_minutes_only() {
    assert_eq!(parse_iso8601_duration("PT10M"), Some(600));
}

#[test]
fn parse_duration_hours_only() {
    assert_eq!(parse_iso8601_duration("PT2H"), Some(7200));
}

#[test]
fn parse_duration_hours_seconds() {
    assert_eq!(parse_iso8601_duration("PT1H30S"), Some(3630));
}

#[test]
fn parse_duration_zero() {
    assert_eq!(parse_iso8601_duration("PT0S"), Some(0));
}

#[test]
fn parse_duration_invalid() {
    assert_eq!(parse_iso8601_duration("invalid"), None);
    assert_eq!(parse_iso8601_duration(""), None);
    assert_eq!(parse_iso8601_duration("P1D"), None);
}

#[test]
fn parse_duration_units_out_of_order() {
    assert_eq!(parse_iso8601_duration("PT3S2M"), None);
    assert_eq!(parse_iso8601_duration("PT1H1H"), None);
}

#[test]
fn format_duration_with_hours() {
    assert_eq!(format_duration(3723), "1:02:03");
}

#[test]
fn format_duration_minutes_seconds() {
    assert_eq!(format_duration(213), "3:33");
}

#[test]
fn format_duration_seconds_only() {
    assert_eq!(format_duration(45), "0:45");
}

#[test]
fn format_duration_zero() {
    assert_eq!(format_duration(0), "0:00");
}

#[test]
fn format_duration_exact_hour() {
    assert_eq!(format_duration(3600), "1:00:00");
}
