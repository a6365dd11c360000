//! Headers from flags.

use rdkafka::message::Headers;
use stryke_kafka::headers::parse_headers;

#[test]
fn parse_headers_empty_input_yields_empty() {
    let h = parse_headers(&[]);
    assert_eq!(h.count(), 0);
}

#[test]
fn parse_headers_pairs_inserted_in_order() {
    let h = parse_headers(&["a=1".into(), "b=two".into(), "c=3".into()]);
    assert_eq!(h.count(), 3);
    // Iteration order matches insertion in rdkafka's OwnedHeaders.
    let h0 = h.get(0);
    let h1 = h.get(1);
    let h2 = h.get(2);
    assert_eq!(h0.key, "a");
    assert_eq!(h0.value, Some(b"1".as_ref()));
    assert_eq!(h1.key, "b");
    assert_eq!(h1.value, Some(b"two".as_ref()));
    assert_eq!(h2.key, "c");
}

#[test]
fn parse_headers_malformed_silently_dropped() {
    // No '=' → skipped (no error path).
    let h = parse_headers(&["a=1".into(), "no-equals".into(), "b=2".into()]);
    assert_eq!(h.count(), 2);
    assert_eq!(h.get(0).key, "a");
    assert_eq!(h.get(1).key, "b");
}

#[test]
fn parse_headers_value_with_equals_preserved() {
    // First '=' splits — value can contain additional '='.
    let h = parse_headers(&["jwt=a.b=c".into()]);
    assert_eq!(h.count(), 1);
    assert_eq!(h.get(0).key, "jwt");
    assert_eq!(h.get(0).value, Some(b"a.b=c".as_ref()));
}

#[test]
fn parse_headers_empty_value_allowed() {
    let h = parse_headers(&["k=".into()]);
    assert_eq!(h.count(), 1);
    assert_eq!(h.get(0).key, "k");
    assert_eq!(h.get(0).value, Some(b"".as_ref()));
}

#[test]
fn parse_headers_binary_safe_bytes() {
    // Non-ASCII bytes in the value pass through unchanged (UTF-8 here).
    let h = parse_headers(&["msg=héllo".into()]);
    assert_eq!(h.count(), 1);
    assert_eq!(h.get(0).value, Some("héllo".as_bytes()));
}

#[test]
fn parse_headers_duplicate_keys_both_kept() {
    // OwnedHeaders allows duplicate keys (Kafka spec permits it).
    let h = parse_headers(&["k=1".into(), "k=2".into()]);
    assert_eq!(h.count(), 2);
    assert_eq!(h.get(0).value, Some(b"1".as_ref()));
    assert_eq!(h.get(1).value, Some(b"2".as_ref()));
}

#[test]
fn parse_headers_empty_key_allowed() {
    let h = parse_headers(&["=v".into()]);
    assert_eq!(h.count(), 1);
    assert_eq!(h.get(0).key, "");
    assert_eq!(h.get(0).value, Some(b"v".as_ref()));
}

#[test]
fn parse_headers_whitespace_in_value_preserved() {
    let h = parse_headers(&["x= hello ".into()]);
    assert_eq!(h.get(0).value, Some(b" hello ".as_ref()));
}

#[test]
fn parse_headers_tab_in_value() {
    let h = parse_headers(&["k=v\tw".into()]);
    assert_eq!(h.get(0).value, Some(b"v\tw".as_ref()));
}

#[test]
fn parse_headers_single_header_count_one() {
    assert_eq!(parse_headers(&["trace=1".into()]).count(), 1);
}

#[test]
fn parse_headers_many_pairs() {
    let specs: Vec<String> = (0..10).map(|i| format!("h{i}={i}")).collect();
    assert_eq!(parse_headers(&specs).count(), 10);
}

#[test]
fn parse_headers_key_with_dashes() {
    let h = parse_headers(&["x-correlation-id=abc".into()]);
    assert_eq!(h.get(0).key, "x-correlation-id");
}

#[test]
fn parse_headers_utf8_value() {
    let h = parse_headers(&["msg=日本語".into()]);
    assert_eq!(h.get(0).value, Some("日本語".as_bytes()));
}

#[test]
fn parse_headers_only_equals_sign_pair() {
    assert_eq!(parse_headers(&["=".into()]).count(), 1);
}

#[test]
fn parse_headers_value_is_digits() {
    let h = parse_headers(&["code=404".into()]);
    assert_eq!(h.get(0).value, Some(b"404".as_ref()));
}

#[test]
fn parse_headers_long_value() {
    let long = "x".repeat(256);
    let spec = format!("payload={long}");
    let h = parse_headers(&[spec]);
    assert_eq!(h.get(0).value.unwrap().len(), 256);
}

#[test]
fn parse_headers_key_with_underscore() {
    let h = parse_headers(&["trace_id=abc".into()]);
    assert_eq!(h.get(0).key, "trace_id");
}

#[test]
fn parse_headers_three_malformed_one_valid() {
    let h = parse_headers(&["bad".into(), "a=1".into(), "also-bad".into(), "b=2".into()]);
    assert_eq!(h.count(), 2);
}

#[test]
fn parse_headers_value_newline() {
    let h = parse_headers(&["body=a\nb".into()]);
    assert_eq!(h.get(0).value, Some(b"a\nb".as_ref()));
}

#[test]
fn parse_headers_order_preserved_five() {
    let h = parse_headers(&[
        "h1=1".into(),
        "h2=2".into(),
        "h3=3".into(),
        "h4=4".into(),
        "h5=5".into(),
    ]);
    assert_eq!(h.count(), 5);
    assert_eq!(h.get(4).key, "h5");
}

#[test]
fn parse_headers_colon_not_separator() {
    // Only '=' splits; colon stays in value if using '=' form.
    let h = parse_headers(&["k=v:w".into()]);
    assert_eq!(h.get(0).value, Some(b"v:w".as_ref()));
}

#[test]
fn parse_headers_zero_length_value_after_equals() {
    assert_eq!(
        parse_headers(&["k=".into()]).get(0).value,
        Some(b"".as_ref())
    );
}

#[test]
fn parse_headers_binary_null_byte_in_value() {
    let h = parse_headers(&["bin=a\0b".into()]);
    assert_eq!(h.get(0).value, Some(b"a\0b".as_ref()));
}

#[test]
fn parse_headers_key_starts_with_x() {
    let h = parse_headers(&["x-trace=1".into()]);
    assert_eq!(h.get(0).key, "x-trace");
}

#[test]
fn parse_headers_two_valid_one_invalid() {
    assert_eq!(
        parse_headers(&["a=1".into(), "bad".into(), "b=2".into()]).count(),
        2,
    );
}

#[test]
fn parse_headers_value_is_zero() {
    assert_eq!(
        parse_headers(&["n=0".into()]).get(0).value,
        Some(b"0".as_ref())
    );
}

#[test]
fn parse_headers_seven_pairs() {
    let specs: Vec<String> = (0..7).map(|i| format!("h{i}={i}")).collect();
    assert_eq!(parse_headers(&specs).count(), 7);
}

#[test]
fn parse_headers_key_only_equals() {
    assert_eq!(parse_headers(&["=".into()]).get(0).key, "");
}

#[test]
fn parse_headers_value_pipe_char() {
    assert_eq!(
        parse_headers(&["k=a|b".into()]).get(0).value,
        Some(b"a|b".as_ref()),
    );
}

#[test]
fn parse_headers_preserves_key_case() {
    assert_eq!(
        parse_headers(&["X-Request-ID=1".into()]).get(0).key,
        "X-Request-ID"
    );
}

#[test]
fn parse_headers_content_type_json() {
    let h = parse_headers(&["content-type=application/json".into()]);
    assert_eq!(h.get(0).key, "content-type");
}

#[test]
fn parse_headers_eight_pairs() {
    let specs: Vec<String> = (0..8).map(|i| format!("h{i}={i}")).collect();
    assert_eq!(parse_headers(&specs).count(), 8);
}

#[test]
fn parse_headers_value_with_slash() {
    assert_eq!(
        parse_headers(&["path=/a/b".into()]).get(0).value,
        Some(b"/a/b".as_ref()),
    );
}

#[test]
fn parse_headers_key_with_dot() {
    assert_eq!(
        parse_headers(&["meta.version=1".into()]).get(0).key,
        "meta.version"
    );
}

#[test]
fn parse_headers_only_malformed_returns_empty() {
    assert_eq!(parse_headers(&["bad".into()]).count(), 0);
}

#[test]
fn parse_headers_value_utf8_emoji() {
    let h = parse_headers(&["msg=🦀".into()]);
    assert_eq!(h.get(0).value, Some("🦀".as_bytes()));
}

#[test]
fn parse_headers_two_equals_in_value() {
    assert_eq!(
        parse_headers(&["jwt=a=b=c".into()]).get(0).value,
        Some(b"a=b=c".as_ref()),
    );
}

#[test]
fn parse_headers_first_key_wins_order() {
    let h = parse_headers(&["a=1".into(), "b=2".into()]);
    assert_eq!(h.get(0).key, "a");
    assert_eq!(h.get(1).key, "b");
}

#[test]
fn parse_headers_empty_value_is_emitted_not_dropped() {
    // `flag=` → header with key=`flag`, value=`b""`. Empty values
    // are semantically distinct from "no header set" and must
    // round-trip.
    let h = parse_headers(&["flag=".into()]);
    assert_eq!(h.get(0).key, "flag");
    assert_eq!(h.get(0).value, Some(b"".as_slice()));
}

#[test]
fn parse_headers_value_with_multiple_equals_keeps_full_value() {
    // JWT / base64 / `k=v;k2=v2` values have inner `=` chars;
    // splitting on the first `=` is the documented contract.
    let h = parse_headers(&["jwt=eyJhbGciOiJIUzI1NiJ9.payload.sig".into()]);
    assert_eq!(h.get(0).key, "jwt");
    assert_eq!(
        h.get(0).value,
        Some(b"eyJhbGciOiJIUzI1NiJ9.payload.sig".as_slice())
    );
}

#[test]
fn parse_headers_no_equals_bareword_is_dropped() {
    // A bareword like `oops` (no `=`) has no value half — the
    // documented behavior is silent drop; pin it so a future
    // panic-on-bad-input change is intentional.
    let h = parse_headers(&["oops".into(), "ok=1".into()]);
    // Only `ok=1` makes it in; the bareword is gone.
    assert_eq!(h.get(0).key, "ok");
}

#[test]
fn parse_headers_empty_key_with_value_is_emitted() {
    // `=v` → key="", value=b"v". Kafka allows zero-length keys;
    // dropping these would break interop with brokers that send
    // them in transactional metadata.
    let h = parse_headers(&["=onlyvalue".into()]);
    assert_eq!(h.get(0).key, "");
    assert_eq!(h.get(0).value, Some(b"onlyvalue".as_slice()));
}
