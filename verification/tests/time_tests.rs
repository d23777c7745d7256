use hn_core::spinner::spinner_frame;
use hn_core::timefmt::{fixed_clock, format_relative, Clock, MAX_FORMAT_TS};

#[test]
fn format_relative_minutes() {
    let now = 1700000000u64;
    let timestamp = 1700000000 - 30 * 60; // 30 minutes ago
    assert_eq!(format_relative(timestamp, now), "30m ago");
}

#[test]
fn format_relative_hours() {
    let now = 1700000000u64;
    let timestamp = 1700000000 - 5 * 3600; // 5 hours ago
    assert_eq!(format_relative(timestamp, now), "5h ago");
}

#[test]
fn format_relative_days() {
    let now = 1700000000u64;
    let timestamp = 1700000000 - 3 * 86400; // 3 days ago
    assert_eq!(format_relative(timestamp, now), "3d ago");
}

#[test]
fn format_relative_just_now() {
    assert_eq!(format_relative(1700000000, 1700000000), "0m ago");
}

#[test]
fn format_relative_boundaries() {
    let now = 1700000000u64;
    assert_eq!(format_relative(now - 3599, now), "59m ago");
    assert_eq!(format_relative(now - 3600, now), "1h ago");
    assert_eq!(format_relative(now - 86399, now), "23h ago");
    assert_eq!(format_relative(now - 86400, now), "1d ago");
}

#[test]
fn format_relative_future_timestamp() {
    let now = 1700000000u64;
    assert_eq!(format_relative(now + 30, now), "0m ago");
    assert_eq!(format_relative(now + 120, now), "-2m ago");
}

#[test]
fn format_relative_out_of_range() {
    assert_eq!(format_relative(MAX_FORMAT_TS + 1, 1700000000), "?");
}

#[test]
fn test_fixed_clock_reads_its_second() {
    let clock = fixed_clock(1700000000);
    assert_eq!(clock.now(), 1700000000);
}

#[test]
fn test_spinner_frames_advance() {
    assert_eq!(spinner_frame(None), "\u{280b}");
    assert_eq!(spinner_frame(Some(0)), "\u{280b}");
    assert_eq!(spinner_frame(Some(79)), "\u{280b}");
    assert_eq!(spinner_frame(Some(80)), "\u{2819}");
    assert_eq!(spinner_frame(Some(800)), "\u{280b}");
}
