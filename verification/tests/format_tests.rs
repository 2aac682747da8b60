use reminder::format::{format_duration_until, get_trimmed_content, u64_to_string};
use reminder::time::Timestamp;

fn ts(seconds: i64) -> Timestamp {
    Timestamp { seconds, offset_seconds: 0 }
}

#[test]
fn decimal_rendering_is_exact() {
    assert_eq!(u64_to_string(0), "0");
    assert_eq!(u64_to_string(7), "7");
    assert_eq!(u64_to_string(10), "10");
    assert_eq!(u64_to_string(12_345), "12345");
    assert_eq!(u64_to_string(18_446_744_073_709_551_615), "18446744073709551615");
}

#[test]
fn future_phrases_pick_the_largest_whole_unit() {
    let now = ts(1_000_000);
    assert_eq!(format_duration_until(ts(1_000_000 + 2 * 86_400 + 30), now), "in 2 days");
    assert_eq!(format_duration_until(ts(1_000_000 + 5 * 3_600 + 59), now), "in 5 hours");
    assert_eq!(format_duration_until(ts(1_000_000 + 3 * 60 + 1), now), "in 3 minutes");
    assert_eq!(format_duration_until(ts(1_000_000 + 59), now), "now");
    assert_eq!(format_duration_until(now, now), "now");
}

#[test]
fn past_phrases_pick_the_largest_whole_unit() {
    let now = ts(1_000_000);
    assert_eq!(format_duration_until(ts(1_000_000 - 3 * 86_400), now), "3 days ago");
    assert_eq!(format_duration_until(ts(1_000_000 - 7 * 3_600), now), "7 hours ago");
    assert_eq!(format_duration_until(ts(1_000_000 - 2 * 60), now), "2 minutes ago");
    assert_eq!(format_duration_until(ts(1_000_000 - 59), now), "just now");
    assert_eq!(format_duration_until(ts(1_000_000 - 1), now), "just now");
}

#[test]
fn trimming_shortens_only_the_displayed_text() {
    assert_eq!(get_trimmed_content("hello world", None), "hello world");
    assert_eq!(get_trimmed_content("hello world", Some(5)), "hello...");
    assert_eq!(get_trimmed_content("hello", Some(5)), "hello");
    assert_eq!(get_trimmed_content("hello", Some(10)), "hello");
    assert_eq!(get_trimmed_content("hello", Some(0)), "...");
    assert_eq!(get_trimmed_content("", Some(3)), "");
}

#[test]
fn trimming_counts_characters_not_bytes() {
    let s = "caf\u{e9} \u{1f980}\u{1f980}\u{1f980}";
    assert_eq!(get_trimmed_content(s, Some(6)), "caf\u{e9} \u{1f980}...");
    assert_eq!(get_trimmed_content(s, Some(8)), s);
}
