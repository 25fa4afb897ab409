use timekeeper::booker::check_sprint_active;
use timekeeper::calendar::{Date, Instant, MAX_SECS, MIN_SECS};
use timekeeper::duration::Duration;
use timekeeper::text::{
    decimal_text, joined_text, left_aligned_text, right_aligned_text, signed_text, text_precedes,
    zero_padded_text,
};

fn date(year: i32, month: u32, day: u32) -> Date {
    Date { year, month, day }
}

#[test]
fn clock_shows_hours_minutes_seconds() {
    assert_eq!(Duration::from_secs(0).clock_text(), "00:00:00");
    assert_eq!(Duration::new(3_723, 999_999_999).clock_text(), "01:02:03");
    assert_eq!(Duration::from_secs(86_399).clock_text(), "23:59:59");
    assert_eq!(Duration::from_secs(360_000).clock_text(), "100:00:00");
    assert_eq!(Duration::from_secs(u64::MAX).clock_text(), "5124095576030431:00:15");
}

#[test]
fn spans_are_added_and_taken_away() {
    let a = Duration::new(1, 600_000_000);
    let b = Duration::new(2, 700_000_000);
    assert_eq!(a.checked_add(&b), Some(Duration::new(4, 300_000_000)));
    assert_eq!(b.checked_sub(&a), Some(Duration::new(1, 100_000_000)));
    assert_eq!(a.checked_sub(&b), None);
    assert_eq!(a.checked_sub(&a), Some(Duration::from_secs(0)));
    let longest = Duration::new(u64::MAX, 999_999_999);
    assert_eq!(longest.checked_add(&Duration::new(0, 1)), None);
    assert_eq!(longest.checked_add(&Duration::from_secs(0)), Some(longest));
}

#[test]
fn spans_are_multiplied_and_divided() {
    let a = Duration::new(10, 500_000_000);
    assert_eq!(a.checked_mul(3), Some(Duration::new(31, 500_000_000)));
    assert_eq!(Duration::from_secs(u64::MAX).checked_mul(2), None);
    assert_eq!(Duration::from_secs(10).divided(3), Duration::new(3, 333_333_333));
    assert_eq!(Duration::from_secs(7).divided(7), Duration::from_secs(1));
    assert_eq!(Duration::new(5, 1).as_secs(), 5);
}

#[test]
fn spans_are_compared() {
    assert!(Duration::new(30, 1).longer_than(&Duration::from_secs(30)));
    assert!(!Duration::from_secs(30).longer_than(&Duration::from_secs(30)));
    assert!(!Duration::new(29, 999_999_999).longer_than(&Duration::from_secs(30)));
}

#[test]
fn days_are_written() {
    assert_eq!(date(2024, 2, 9).day_month_year(), "09.02.2024");
    assert_eq!(date(800, 12, 25).day_month_year(), "25.12.0800");
    assert_eq!(date(-1, 1, 1).day_month_year(), "01.01.-0001");
    assert_eq!(date(12_345, 1, 1).day_month_year(), "01.01.+12345");
}

#[test]
fn days_are_ordered() {
    assert!(date(2024, 2, 29).is_before(&date(2024, 3, 1)));
    assert!(date(2023, 12, 31).is_before(&date(2024, 1, 1)));
    assert!(date(2024, 1, 1).is_before(&date(2024, 1, 2)));
    assert!(!date(2024, 1, 1).is_before(&date(2024, 1, 1)));
    assert!(!date(2024, 1, 1).is_before(&date(2023, 12, 31)));
}

#[test]
fn instants_go_on() {
    let start = Instant { secs: 100, nanos: 600_000_000 };
    assert_eq!(
        start.checked_plus(&Duration::new(2, 700_000_000)),
        Some(Instant { secs: 103, nanos: 300_000_000 })
    );
    let leap = Instant { secs: 59, nanos: 1_200_000_000 };
    assert_eq!(
        leap.checked_plus(&Duration::new(0, 100_000_000)),
        Some(Instant { secs: 59, nanos: 1_300_000_000 })
    );
    assert_eq!(
        leap.checked_plus(&Duration::from_secs(1)),
        Some(Instant { secs: 60, nanos: 200_000_000 })
    );
    let last = Instant { secs: MAX_SECS, nanos: 0 };
    assert_eq!(last.checked_plus(&Duration::from_secs(1)), None);
    assert_eq!(start.checked_plus(&Duration::from_secs(u64::MAX)), None);
}

#[test]
fn instants_agree_with_the_calendar_crate() {
    let earlier = chrono::DateTime::<chrono::Utc>::from_timestamp(1_700_000_000, 900_000_000).unwrap();
    let span = std::time::Duration::new(86_400, 200_000_000);
    let later = earlier + chrono::Duration::from_std(span).unwrap();
    let start = Instant { secs: 1_700_000_000, nanos: 900_000_000 };
    assert_eq!(
        start.checked_plus(&Duration::new(86_400, 200_000_000)),
        Some(Instant { secs: later.timestamp(), nanos: later.timestamp_subsec_nanos() })
    );
}

#[test]
fn spans_that_are_too_long_lead_nowhere() {
    let start = Instant { secs: MIN_SECS, nanos: 0 };
    let whole = (MAX_SECS - MIN_SECS) as u64;
    assert_eq!(
        start.checked_plus(&Duration::new(whole, 999_999_999)),
        Some(Instant { secs: MAX_SECS, nanos: 999_999_999 })
    );
    assert_eq!(start.checked_plus(&Duration::from_secs(whole + 1)), None);
    assert_eq!(start.checked_plus(&Duration::new(9_223_372_036_854_775, 807_000_001)), None);
    let leap = Instant { secs: 59, nanos: 1_900_000_000 };
    assert_eq!(
        leap.checked_plus(&Duration::new(0, 100_000_000)),
        Some(Instant { secs: 60, nanos: 0 })
    );
    assert_eq!(
        leap.checked_plus(&Duration::new(3, 200_000_000)),
        Some(Instant { secs: 63, nanos: 100_000_000 })
    );
}

#[test]
fn sprint_counts_when_it_touches_the_day() {
    let day = date(2024, 5, 15);
    // 2024-05-15T00:00:00Z
    let midnight: i64 = 1_715_731_200;
    let at = |secs: i64, nanos: u32| Instant { secs, nanos };
    let before = at(midnight - 86_400, 0);
    let noon = at(midnight + 43_200, 0);
    let after = at(midnight + 2 * 86_400, 0);
    assert!(check_sprint_active(&day, before, after));
    assert!(check_sprint_active(&day, before, noon));
    assert!(check_sprint_active(&day, noon, after));
    assert!(!check_sprint_active(&day, after, after));
    assert!(!check_sprint_active(&day, before, before));
    // a sprint that starts with the day and goes on after it does not count
    assert!(!check_sprint_active(&day, at(midnight, 0), after));
    // one that started before and ends with the last millisecond does
    assert!(check_sprint_active(&day, before, at(midnight + 86_399, 999_000_000)));
    assert!(!check_sprint_active(&day, at(midnight, 0), at(midnight + 86_399, 999_000_000)));
}

#[test]
fn numbers_are_written() {
    assert_eq!(decimal_text(0), "0");
    assert_eq!(decimal_text(1_234_567_890), "1234567890");
    assert_eq!(decimal_text(u64::MAX), "18446744073709551615");
    assert_eq!(zero_padded_text(7, 2), "07");
    assert_eq!(zero_padded_text(123, 2), "123");
    assert_eq!(signed_text(-1), "-1");
    assert_eq!(signed_text(i32::MIN), "-2147483648");
    assert_eq!(signed_text(42), "42");
}

#[test]
fn texts_are_aligned_and_joined() {
    assert_eq!(left_aligned_text("ab", 4), format!("{:width$}", "ab", width = 4));
    assert_eq!(left_aligned_text("äöü", 4), format!("{:width$}", "äöü", width = 4));
    assert_eq!(left_aligned_text("abcdef", 4), "abcdef");
    assert_eq!(right_aligned_text("ab", 4), format!("{:>width$}", "ab", width = 4));
    let list = vec!["a".to_string(), "".to_string(), "c".to_string()];
    assert_eq!(joined_text(&list, "|"), list.join("|"));
    assert_eq!(joined_text(&Vec::new(), "|"), "");
}

#[test]
fn texts_are_ordered_as_strings_are() {
    let list = ["", "A-1", "A-10", "A-2", "B", "a", "ä", "\u{ffff}", "\u{10000}"];
    for a in list {
        for b in list {
            assert_eq!(text_precedes(a, b), a < b);
        }
    }
}
