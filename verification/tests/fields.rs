//! How payloads and keys are framed.

use stryke_kafka::codec::{
    base64_decode, base64_encode, decode_field, encode_field, field_is_clean, hex_splits_a_char,
};

fn refusal(value: &str, encoding: &str) -> String {
    decode_field(value, encoding).unwrap_err().message
}

#[test]
fn base64_pads_to_groups_of_four() {
    assert_eq!(base64_encode(b""), "");
    assert_eq!(base64_encode(b"M"), "TQ==");
    assert_eq!(base64_encode(b"Ma"), "TWE=");
    assert_eq!(base64_encode(b"Man"), "TWFu");
    assert_eq!(base64_encode(&[0xfb, 0xff, 0xbf]), "+/+/");
}

#[test]
fn any_bytes_survive_both_binary_encodings() {
    let all: Vec<u8> = (0..=255).collect();
    for n in 0..=all.len() {
        for encoding in ["base64", "b64", "hex"] {
            let text = encode_field(&all[..n], encoding);
            assert!(field_is_clean(&text, encoding));
            assert_eq!(decode_field(&text, encoding).unwrap(), &all[..n]);
        }
    }
}

#[test]
fn base64_skips_white_space() {
    assert_eq!(base64_decode(" TW\nFu\t").unwrap(), b"Man");
    assert_eq!(base64_decode("TQ= =").unwrap(), b"M");
}

#[test]
fn base64_may_close_any_group() {
    assert_eq!(base64_decode("TQ==TQ==").unwrap(), b"MM");
}

#[test]
fn base64_is_refused_with_a_reason() {
    assert_eq!(refusal("TWF", "base64"), "base64 length must be a multiple of 4");
    assert_eq!(refusal("TW!u", "b64"), "invalid base64 character");
    assert_eq!(refusal("=WFu", "base64"), "invalid base64 character");
}

#[test]
fn hex_reads_both_cases_and_writes_lower() {
    assert_eq!(decode_field("DEadBeef", "hex").unwrap(), vec![0xde, 0xad, 0xbe, 0xef]);
    assert_eq!(encode_field(&[0xde, 0xad, 0x0f], "hex"), "dead0f");
    // A plus sign before a digit is read as by the standard library.
    assert_eq!(decode_field("+f", "hex").unwrap(), vec![15]);
}

#[test]
fn hex_is_refused_with_a_reason() {
    assert_eq!(refusal("abc", "hex"), "hex payload must have an even length");
    assert_eq!(refusal("00zz", "hex"), "invalid hex byte at offset 2");
    assert_eq!(refusal("é", "hex"), "invalid hex byte at offset 0");
    assert_eq!(refusal("-1", "hex"), "invalid hex byte at offset 0");
}

#[test]
fn hex_that_cuts_a_character_is_told_apart() {
    assert!(hex_splits_a_char("aéb"));
    assert!(!field_is_clean("aéb", "hex"));
    assert!(field_is_clean("aéb", "utf8"));
    assert!(!hex_splits_a_char("00ff"));
    // The first bad pair decides.
    assert!(!hex_splits_a_char("zzaéb"));
}

#[test]
fn unknown_encodings_are_named() {
    assert_eq!(refusal("x", "snappy"), "unknown encoding: snappy (want utf8|base64|hex)");
}

#[test]
fn text_is_shown_as_it_stands_and_repaired_where_it_is_broken() {
    assert_eq!(encode_field("héllo".as_bytes(), "utf8"), "héllo");
    assert_eq!(encode_field("héllo".as_bytes(), "anything"), "héllo");
    assert_eq!(encode_field(&[b'a', 0xff, b'b'], "utf8"), "a\u{fffd}b");
    assert_eq!(decode_field("héllo", "text").unwrap(), "héllo".as_bytes());
}
