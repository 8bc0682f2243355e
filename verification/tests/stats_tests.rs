use chrono::TimeZone;
use ytq::model::{Action, Event};
use ytq::range::{filter_events, DateRange};
use ytq::util::{format_duration_human, format_duration_long, make_bar, truncate};

fn ev(action: Action, video_id: &str, ts: i64) -> Event {
    Event {
        timestamp: ts,
        action,
        video_id: video_id.to_string(),
        time_in_queue_sec: None,
    }
}

#[test]
fn format_duration_human_days() {
    assert_eq!(format_duration_human(90000), "1d 1h");
}

#[test]
fn format_duration_human_hours() {
    assert_eq!(format_duration_human(3720), "1h 2m");
}

#[test]
fn format_duration_human_minutes() {
    assert_eq!(format_duration_human(300), "5m");
}

#[test]
fn format_duration_human_seconds() {
    assert_eq!(format_duration_human(45), "45s");
}

#[test]
fn format_duration_human_negative_uses_magnitude() {
    assert_eq!(format_duration_human(-300), "5m");
}

#[test]
fn format_duration_long_days() {
    assert_eq!(format_duration_long(93120), "1d 1h 52m");
    assert_eq!(format_duration_long(66720), "18h 32m");
    assert_eq!(format_duration_long(120), "2m");
}

#[test]
fn bar_full_width() {
    let bar = make_bar(10, 10, 10);
    assert_eq!(
        bar,
        "\u{2588}\u{2588}\u{2588}\u{2588}\u{2588}\u{2588}\u{2588}\u{2588}\u{2588}\u{2588}"
    );
}

#[test]
fn bar_half_width() {
    let bar = make_bar(5, 10, 10);
    assert_eq!(bar, "\u{2588}\u{2588}\u{2588}\u{2588}\u{2588}     ");
}

#[test]
fn bar_zero() {
    let bar = make_bar(0, 10, 10);
    assert_eq!(bar, "          ");
}

#[test]
fn bar_zero_max() {
    let bar = make_bar(0, 0, 10);
    assert_eq!(bar, "          ");
}

#[test]
fn truncate_short_string_unchanged() {
    assert_eq!(truncate("hello", 10), "hello");
}

#[test]
fn truncate_long_string_adds_ellipsis() {
    assert_eq!(truncate("hello world", 8), "hello...");
}

#[test]
fn date_range_all_time_contains_everything() {
    let range = DateRange::all_time();
    assert!(range.contains(chrono::Utc::now().timestamp()));
}

#[test]
fn date_range_last_days_excludes_old() {
    let now = chrono::Utc::now().timestamp();
    let range = DateRange::last_days(now, 7);
    let old = now - 10 * 86400;
    let recent = now - 3 * 86400;
    assert!(!range.contains(old));
    assert!(range.contains(recent));
}

fn utc_ts(y: i32, mo: u32, d: u32, h: u32, mi: u32, s: u32) -> i64 {
    chrono::Utc
        .with_ymd_and_hms(y, mo, d, h, mi, s)
        .unwrap()
        .timestamp()
}

#[test]
fn date_range_specific_month() {
    let range = DateRange::specific_month(2025, 6).unwrap();
    assert!(range.contains(utc_ts(2025, 6, 15, 12, 0, 0)));
    assert!(!range.contains(utc_ts(2025, 5, 31, 23, 59, 59)));
    assert!(!range.contains(utc_ts(2025, 7, 1, 0, 0, 0)));
}

#[test]
fn date_range_specific_month_december() {
    let range = DateRange::specific_month(2025, 12).unwrap();
    assert!(range.contains(utc_ts(2025, 12, 25, 0, 0, 0)));
    assert!(!range.contains(utc_ts(2026, 1, 1, 0, 0, 0)));
}

#[test]
fn date_range_specific_year() {
    let range = DateRange::specific_year(2025).unwrap();
    assert!(range.contains(utc_ts(2025, 6, 15, 0, 0, 0)));
    assert!(!range.contains(utc_ts(2024, 12, 31, 23, 59, 59)));
    assert!(!range.contains(utc_ts(2026, 1, 1, 0, 0, 0)));
}

#[test]
fn date_range_custom_from_only() {
    let from = utc_ts(2025, 1, 1, 0, 0, 0);
    let range = DateRange::custom(Some(from), None);
    assert!(range.contains(utc_ts(2025, 6, 1, 0, 0, 0)));
    assert!(!range.contains(utc_ts(2024, 12, 31, 0, 0, 0)));
}

#[test]
fn date_range_agrees_with_chrono_on_month_starts() {
    // The verified calendar arithmetic and the chrono library name the
    // same first midnights.
    for (y, m) in [(1970i64, 1u32), (2000, 2), (2024, 2), (2025, 12), (2026, 1), (2100, 3)] {
        let range = DateRange::specific_month(y, m).unwrap();
        assert_eq!(range.start.unwrap(), utc_ts(y as i32, m, 1, 0, 0, 0));
    }
}

#[test]
fn filter_events_all_time_returns_all() {
    let events = vec![
        ev(Action::Queued, "aaaaaaaaaaa", 1000),
        ev(Action::Watched, "aaaaaaaaaaa", 2000),
    ];
    let filtered = filter_events(&events, &DateRange::all_time());
    assert_eq!(filtered.len(), 2);
}

#[test]
fn filter_events_by_range() {
    let events = vec![
        ev(Action::Queued, "aaaaaaaaaaa", 1000),
        ev(Action::Watched, "bbbbbbbbbbb", 2000),
        ev(Action::Skipped, "ccccccccccc", 3000),
    ];
    let range = DateRange::custom(Some(1500), Some(2500));
    let filtered = filter_events(&events, &range);
    assert_eq!(filtered.len(), 1);
    assert_eq!(filtered[0].video_id, "bbbbbbbbbbb");
}

#[test]
fn resolve_range_week() {
    let now = utc_ts(2026, 1, 10, 12, 0, 0);
    let r = ytq::range::resolve_date_range(false, true, &None, &None, &None, &None, now, 2026)
        .unwrap();
    assert_eq!(r.start, Some(now - 7 * 86400));
    assert_eq!(r.end, None);
}

#[test]
fn resolve_range_named_month() {
    let now = utc_ts(2026, 1, 10, 12, 0, 0);
    let r = ytq::range::resolve_date_range(
        false,
        false,
        &Some("2025-06".to_string()),
        &None,
        &None,
        &None,
        now,
        2026,
    )
    .unwrap();
    assert_eq!(r.start, Some(utc_ts(2025, 6, 1, 0, 0, 0)));
    assert_eq!(r.end, Some(utc_ts(2025, 7, 1, 0, 0, 0)));
}

#[test]
fn resolve_range_bad_month_is_an_error() {
    let now = utc_ts(2026, 1, 10, 12, 0, 0);
    let r = ytq::range::resolve_date_range(
        false,
        false,
        &Some("2025-13".to_string()),
        &None,
        &None,
        &None,
        now,
        2026,
    );
    assert!(r.is_err());
}

#[test]
fn resolve_range_default_is_current_year() {
    let now = utc_ts(2026, 3, 10, 12, 0, 0);
    let r = ytq::range::resolve_date_range(false, false, &None, &None, &None, &None, now, 2026)
        .unwrap();
    assert_eq!(r.start, Some(utc_ts(2026, 1, 1, 0, 0, 0)));
    assert_eq!(r.end, Some(utc_ts(2027, 1, 1, 0, 0, 0)));
}

#[test]
fn resolve_range_custom_dates() {
    let now = utc_ts(2026, 1, 10, 12, 0, 0);
    let r = ytq::range::resolve_date_range(
        false,
        false,
        &None,
        &None,
        &Some("2025-02-01".to_string()),
        &Some("2025-03-01".to_string()),
        now,
        2026,
    )
    .unwrap();
    assert_eq!(r.start, Some(utc_ts(2025, 2, 1, 0, 0, 0)));
    assert_eq!(r.end, Some(utc_ts(2025, 3, 1, 0, 0, 0)));
}

#[test]
fn resolve_range_bad_year_is_an_error() {
    let now = utc_ts(2026, 1, 10, 12, 0, 0);
    let r = ytq::range::resolve_date_range(
        false,
        false,
        &None,
        &Some("20x6".to_string()),
        &None,
        &None,
        now,
        2026,
    );
    assert!(r.is_err());
}

#[test]
fn resolve_range_bad_date_is_an_error() {
    let now = utc_ts(2026, 1, 10, 12, 0, 0);
    let r = ytq::range::resolve_date_range(
        false,
        false,
        &None,
        &None,
        &Some("2025-02-30".to_string()),
        &None,
        now,
        2026,
    );
    assert!(r.is_err());
}
