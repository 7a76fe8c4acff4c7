use gitr::commit::{classify_ref, format_time, time_label};
use gitr::config::lane_color;

#[test]
fn classify_ref_kinds() {
    assert_eq!(classify_ref(&"refs/heads/feature/x".to_string()), Some(("feature/x".to_string(), false)));
    assert_eq!(classify_ref(&"refs/tags/v2".to_string()), Some(("v2".to_string(), true)));
    assert_eq!(classify_ref(&"refs/remotes/origin/HEAD".to_string()), Some(("origin/HEAD".to_string(), false)));
    assert_eq!(classify_ref(&"refs/stash".to_string()), None);
    assert_eq!(classify_ref(&"HEAD".to_string()), None);
    assert_eq!(classify_ref(&"refs/heads/".to_string()), Some((String::new(), false)));
}

#[test]
fn format_time_epoch_utc() {
    assert_eq!(format_time(0, 0), "1970-01-01 00:00");
}

#[test]
fn format_time_uses_commit_offset() {
    // 2023-11-14 22:13:20 UTC, seen at +02:00
    assert_eq!(format_time(1_700_000_000, 120), "2023-11-15 00:13");
    assert_eq!(format_time(1_700_000_000, -300), "2023-11-14 17:13");
}

#[test]
fn format_time_bad_offset_falls_back_to_utc() {
    // 24 hours is not a valid offset
    assert_eq!(format_time(0, 1440), "1970-01-01 00:00");
}

#[test]
fn format_time_out_of_range_is_question_mark() {
    assert_eq!(format_time(i64::MAX, 0), "?");
}

#[test]
fn time_label_of_missing_time() {
    assert_eq!(time_label(None), "?");
    assert_eq!(time_label(Some("2020-01-01 10:00".to_string())), "2020-01-01 10:00");
}

#[test]
fn lane_colors_repeat_every_six() {
    let c0 = lane_color(0);
    assert_eq!((c0.r, c0.g, c0.b, c0.a), (0x89, 0xb4, 0xfa, 255));
    let c5 = lane_color(5);
    assert_eq!((c5.r, c5.g, c5.b), (0x89, 0xdc, 0xeb));
    assert!(lane_color(7) == lane_color(1));
    let c1 = lane_color(1);
    assert_eq!((c1.r, c1.g, c1.b), (0xf3, 0x8b, 0xa8));
}
