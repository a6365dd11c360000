//! Names of this moment.

use std::time::{Duration, Instant, SystemTime};
use stryke_kafka::consume::{moment_name, uuid_like};

fn pause(millis: u64) {
    let start = Instant::now();
    while start.elapsed() < Duration::from_millis(millis) {}
}

#[test]
fn a_moment_is_named_by_its_nanoseconds() {
    assert_eq!(moment_name(Ok(Duration::new(0, 0))), "0");
    assert_eq!(moment_name(Ok(Duration::new(1, 255))), "3b9acaff");
    let early = SystemTime::UNIX_EPOCH;
    let late = early + Duration::from_nanos(1);
    assert_eq!(moment_name(late.duration_since(early)), "1");
    assert_eq!(moment_name(early.duration_since(late)), "0", "a moment before the start");
}

#[test]
fn uuid_like_names_a_moment_between_two_others() {
    let now = || SystemTime::now().duration_since(SystemTime::UNIX_EPOCH).unwrap().as_nanos();
    let before = now();
    let named = u128::from_str_radix(&uuid_like(), 16).unwrap();
    assert!(before <= named && named <= now());
}

#[test]
fn uuid_like_returns_lowercase_hex() {
    let s = uuid_like();
    assert!(!s.is_empty());
    assert!(s.chars().all(|c| c.is_ascii_hexdigit() && (c.is_ascii_digit() || c.is_ascii_lowercase())));
}

#[test]
fn uuid_like_length_reasonable() {
    // u128 nanos since epoch in hex: ~14-16 chars in 2024-2030 range.
    let s = uuid_like();
    assert!(s.len() >= 8, "len = {} for {s}", s.len());
    assert!(s.len() <= 32, "len = {} for {s}", s.len());
}

#[test]
fn uuid_like_no_uppercase_hex() {
    let s = uuid_like();
    assert!(!s.chars().any(|c| c.is_ascii_uppercase()));
}

#[test]
fn uuid_like_monotonic_non_decreasing_under_rapid_calls() {
    let a = uuid_like();
    let b = uuid_like();
    let c = uuid_like();
    assert!(a <= b);
    assert!(b <= c);
}

#[test]
fn uuid_like_only_hex_digits() {
    assert!(uuid_like().chars().all(|c| c.is_ascii_hexdigit()));
}

#[test]
fn uuid_like_starts_with_non_zero_nanos() {
    // Nanos since epoch in 2026 → hex string not empty and not all zeros.
    let s = uuid_like();
    assert_ne!(s, "0");
}

#[test]
fn uuid_like_is_hex_parseable() {
    let s = uuid_like();
    assert!(u128::from_str_radix(&s, 16).is_ok());
}

#[test]
fn uuid_like_not_all_same_char() {
    let s = uuid_like();
    assert!(!s.chars().all(|c| c == s.chars().next().unwrap()));
}

#[test]
fn uuid_like_even_length() {
    let s = uuid_like();
    assert_eq!(s.len() % 2, 0);
}

#[test]
fn uuid_like_no_prefix_zeros_only() {
    let s = uuid_like();
    assert_ne!(s, "0000000000000000");
}

#[test]
fn uuid_like_hex_digit_count_matches_len() {
    let s = uuid_like();
    assert_eq!(s.chars().filter(|c| c.is_ascii_hexdigit()).count(), s.len());
}

#[test]
fn uuid_like_burst_samples_non_empty() {
    for _ in 0..20 {
        assert!(!uuid_like().is_empty());
    }
}

#[test]
fn uuid_like_first_char_is_hex() {
    let s = uuid_like();
    assert!(s.chars().next().unwrap().is_ascii_hexdigit());
}

#[test]
fn uuid_like_last_char_is_hex() {
    let s = uuid_like();
    assert!(s.chars().last().unwrap().is_ascii_hexdigit());
}

#[test]
fn uuid_like_no_whitespace() {
    let s = uuid_like();
    assert!(!s.chars().any(|c| c.is_whitespace()));
}

#[test]
fn uuid_like_min_len_at_least_eight() {
    assert!(uuid_like().len() >= 8);
}

#[test]
fn uuid_like_all_lowercase_or_digit() {
    let s = uuid_like();
    assert!(s.chars().all(|c| c.is_ascii_digit() || ('a'..='f').contains(&c)));
}

#[test]
fn uuid_like_parseable_as_u128() {
    assert!(u128::from_str_radix(&uuid_like(), 16).is_ok());
}

#[test]
fn uuid_like_not_empty_string() {
    assert!(!uuid_like().is_empty());
}

#[test]
fn uuid_like_no_plus_or_minus() {
    let s = uuid_like();
    assert!(!s.contains('+') && !s.contains('-'));
}

#[test]
fn uuid_like_hex_only_chars() {
    assert!(uuid_like().chars().all(|c| c.is_ascii_hexdigit()));
}

#[test]
fn uuid_like_differs_from_zero_padded() {
    assert_ne!(uuid_like(), "00000000000000000000000000000000");
}

#[test]
fn uuid_like_len_at_most_32() {
    assert!(uuid_like().len() <= 32);
}

#[test]
fn uuid_like_starts_with_digit_allowed() {
    let s = uuid_like();
    assert!(s.chars().next().unwrap().is_ascii_hexdigit());
}

#[test]
fn uuid_like_no_uppercase_a_f() {
    let s = uuid_like();
    assert!(!s.chars().any(|c| ('A'..='F').contains(&c)));
}

#[test]
fn uuid_like_from_str_radix_hex() {
    let n = u128::from_str_radix(&uuid_like(), 16).unwrap();
    assert!(n > 0);
}

#[test]
fn uuid_like_consistent_format() {
    let s = uuid_like();
    assert!(!s.starts_with("0x"));
}

#[test]
fn uuid_like_batch_non_empty() {
    let ids: Vec<_> = (0..5).map(|_| uuid_like()).collect();
    assert!(ids.iter().all(|s| !s.is_empty()));
}

#[test]
fn uuid_like_len_at_least_sixteen() {
    assert!(uuid_like().len() >= 16);
}

#[test]
fn uuid_like_lowercase_only() {
    let s = uuid_like();
    assert_eq!(s, s.to_ascii_lowercase());
}

#[test]
fn uuid_like_parse_u128_nonzero() {
    let n = u128::from_str_radix(&uuid_like(), 16).unwrap();
    assert!(n > 0);
}

#[test]
fn uuid_like_three_samples_all_nonempty() {
    let a = uuid_like();
    let b = uuid_like();
    let c = uuid_like();
    assert!(!a.is_empty() && !b.is_empty() && !c.is_empty());
}

#[test]
fn uuid_like_hex_len_even() {
    assert_eq!(uuid_like().len() % 2, 0);
}

#[test]
fn uuid_like_does_not_start_with_minus() {
    assert!(!uuid_like().starts_with('-'));
}

#[test]
fn uuid_like_batch_all_parseable() {
    for _ in 0..10 {
        assert!(u128::from_str_radix(&uuid_like(), 16).is_ok());
    }
}

#[test]
fn uuid_like_two_calls_differ() {
    // Nanosecond resolution should make consecutive calls distinct.
    // Sleep a touch to be safe under fast clocks.
    let a = uuid_like();
    pause(1);
    let b = uuid_like();
    assert_ne!(a, b);
}

#[test]
fn uuid_like_u128_roundtrip_order() {
    let a = u128::from_str_radix(&uuid_like(), 16).unwrap();
    pause(1);
    let b = u128::from_str_radix(&uuid_like(), 16).unwrap();
    assert!(a < b);
}

#[test]
fn uuid_like_three_samples_monotonic() {
    let a = uuid_like();
    pause(1);
    let b = uuid_like();
    pause(1);
    let c = uuid_like();
    assert!(a <= b && b <= c);
}

#[test]
fn uuid_like_two_consecutive_differ_with_sleep() {
    let a = uuid_like();
    pause(2);
    assert_ne!(a, uuid_like());
}

#[test]
fn uuid_like_sorted_pair() {
    let a = uuid_like();
    pause(1);
    let b = uuid_like();
    assert!(a <= b);
}
