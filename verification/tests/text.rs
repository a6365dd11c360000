//! Texts, numerals and their order, held against the standard library.

use stryke_kafka::number::{
    parse_i64, parse_u32, to_decimal, to_lower_hex, to_signed_decimal, truncate,
};
use stryke_kafka::order::{comes_first, sort};
use stryke_kafka::text::{
    chars_of, is_white_space, join, rsplit_once, split_all, split_commas, split_once, str_eq, trim,
};

#[test]
fn white_space_is_that_of_unicode() {
    for code in 0..=0x10_ffff_u32 {
        if let Some(c) = char::from_u32(code) {
            assert_eq!(is_white_space(c), c.is_whitespace(), "code {code:x}");
        }
    }
}

#[test]
fn trim_cuts_white_space_off_both_ends() {
    for s in ["", " ", "a", " a b ", "\t\u{3000}x\u{a0}", "\u{200b}x"] {
        assert_eq!(trim(s), s.trim(), "{s:?}");
    }
}

#[test]
fn splitting_is_that_of_the_standard_library() {
    for s in ["", "=", "a", "a=b", "a=b=c", "=b", "a=", "é=ü=", "=="] {
        let own = split_once(s, '=');
        let own = own.as_ref().map(|(a, b)| (a.as_str(), b.as_str()));
        assert_eq!(own, s.split_once('='), "{s:?}");
        let own = rsplit_once(s, '=');
        let own = own.as_ref().map(|(a, b)| (a.as_str(), b.as_str()));
        assert_eq!(own, s.rsplit_once('='), "{s:?}");
        let all: Vec<&str> = s.split('=').collect();
        assert_eq!(split_all(s, '='), all, "{s:?}");
        assert_eq!(join(&split_all(s, '='), "="), s, "joining undoes splitting");
    }
}

#[test]
fn comma_separated_items_are_trimmed_and_not_empty() {
    assert_eq!(split_commas(" a, b ,,c,  "), vec!["a", "b", "c"]);
    assert!(split_commas(" , ,").is_empty());
    assert!(split_commas("").is_empty());
    let items: Vec<String> = vec!["x y".into(), "z".into()];
    assert_eq!(split_commas(&join(&items, ",")), items);
}

#[test]
fn texts_are_equal_by_their_characters() {
    assert!(str_eq("", ""));
    assert!(str_eq("héllo", "héllo"));
    assert!(!str_eq("héllo", "hello"));
    assert!(!str_eq("ab", "abc"));
    assert_eq!(chars_of("aé😀"), vec!['a', 'é', '😀']);
}

#[test]
fn numerals_are_those_of_the_standard_library() {
    for n in [0_u64, 1, 9, 10, 99, 100, 12_345, u64::MAX] {
        assert_eq!(to_decimal(n), n.to_string());
    }
    for n in [0_i64, -1, 1, 42, -42, i64::MIN, i64::MAX] {
        assert_eq!(to_signed_decimal(n), n.to_string());
        assert_eq!(parse_i64(&n.to_string()), Some(n), "reading gives back what was written");
    }
    for n in [0_u128, 1, 15, 16, 255, 256, 0xdead_beef, u128::MAX] {
        assert_eq!(to_lower_hex(n), format!("{n:x}"));
    }
}

#[test]
fn reading_numbers_is_that_of_the_standard_library() {
    for s in [
        "", "+", "-", "0", "+0", "-0", "007", "42", "+42", "-42", "4294967295", "4294967296",
        "99999999999999999999", "1x", " 1", "1 ", "++1", "+-1", "9223372036854775807",
        "9223372036854775808", "-9223372036854775808", "-9223372036854775809", "１",
    ] {
        assert_eq!(parse_u32(s), s.parse::<u32>().ok(), "{s:?}");
        assert_eq!(parse_i64(s), s.parse::<i64>().ok(), "{s:?}");
    }
}

#[test]
fn truncating_keeps_the_lower_bits() {
    for n in [
        0_i64, 1, -1, 2_147_483_647, 2_147_483_648, -2_147_483_648, -2_147_483_649, 4_294_967_296,
        4_294_967_299, i64::MAX, i64::MIN,
    ] {
        assert_eq!(truncate(n), n as i32, "{n}");
    }
}

#[test]
fn sorting_is_that_of_the_standard_library() {
    let list: Vec<String> =
        ["b", "a", "", "ab", "a", "é", "z", "😀", "\u{ffff}", "B", "a0", "a-1"]
            .iter()
            .map(|s| s.to_string())
            .collect();
    let mut want = list.clone();
    want.sort();
    assert_eq!(sort(list.clone()), want);
    for a in &list {
        for b in &list {
            assert_eq!(comes_first(a, b), a <= b, "{a:?} {b:?}");
        }
    }
}
