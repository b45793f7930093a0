use ecs_benchmarking::text::{pad, text_less};
use ecs_benchmarking::timestamp::utc_timestamp;

#[test]
fn pad_appends_spaces_up_to_width() {
    assert_eq!(pad("ab", 5), "ab   ");
    assert_eq!(pad("", 3), "   ");
}

#[test]
fn pad_leaves_long_text_alone() {
    assert_eq!(pad("abcdef", 3), "abcdef");
    assert_eq!(pad("abc", 3), "abc");
    assert_eq!(pad("abc", 0), "abc");
}

#[test]
fn pad_counts_characters_not_bytes() {
    assert_eq!(pad("é", 3), "é  ");
    assert_eq!(pad("日本", 4), "日本  ");
}

#[test]
fn timestamp_of_epoch() {
    assert_eq!(utc_timestamp(0), "1970-01-01 00:00:00 UTC");
}

#[test]
fn timestamp_day_boundaries() {
    assert_eq!(utc_timestamp(86_399), "1970-01-01 23:59:59 UTC");
    assert_eq!(utc_timestamp(86_400), "1970-01-02 00:00:00 UTC");
}

#[test]
fn timestamp_leap_day() {
    assert_eq!(utc_timestamp(951_782_400), "2000-02-29 00:00:00 UTC");
    assert_eq!(utc_timestamp(951_868_799), "2000-02-29 23:59:59 UTC");
}

#[test]
fn timestamp_recent_and_century() {
    assert_eq!(utc_timestamp(1_725_029_869), "2024-08-30 14:57:49 UTC");
    assert_eq!(utc_timestamp(4_102_444_800), "2100-01-01 00:00:00 UTC");
}

#[test]
fn timestamp_year_grows_past_four_digits() {
    assert_eq!(utc_timestamp(253_402_300_799), "9999-12-31 23:59:59 UTC");
    assert_eq!(utc_timestamp(253_402_300_800), "10000-01-01 00:00:00 UTC");
}

#[test]
fn timestamp_of_largest_count() {
    assert_eq!(utc_timestamp(u64::MAX), "584554051223-11-09 07:00:15 UTC");
    assert_eq!(utc_timestamp(1u64 << 63), "292277026596-12-04 15:30:08 UTC");
}

#[test]
fn text_order_is_string_order() {
    let words = ["", "a", "ab", "b", "bevy", "freecs", "freecs_dyn", "é", "z", "日本"];
    for a in words {
        for b in words {
            assert_eq!(text_less(a, b), a < b, "{a} vs {b}");
        }
    }
}

#[test]
fn later_instants_give_later_timestamps() {
    let instants = [0u64, 59, 60, 3_599, 3_600, 86_399, 86_400, 951_782_400, 1_725_029_869, 253_402_300_799];
    for pair in instants.windows(2) {
        assert!(utc_timestamp(pair[0]) < utc_timestamp(pair[1]));
    }
}
