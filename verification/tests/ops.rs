//! The operations that need no broker, and what the others check before they ask
//! one.

use rdkafka::message::Headers;
use stryke_kafka::admin::{
    delete_topic_request, parse_alter_configs, parse_create_partitions, parse_delete_groups,
    parse_describe_configs, topic_request,
};
use stryke_kafka::assignment::{op_range_assignment, op_roundrobin_assignment};
use stryke_kafka::brokers::{brokers_from_opts, op_build_brokers, op_parse_brokers};
use stryke_kafka::cache::ClientCache;
use stryke_kafka::codec::{base64_decode, base64_encode, decode_field, encode_field};
use stryke_kafka::config::{base_config, consumer_config};
use stryke_kafka::error::OpError;
use stryke_kafka::hash::{crc32_ieee, java_string_hashcode, murmur2};
use stryke_kafka::headers::build_headers;
use stryke_kafka::json::Json;
use stryke_kafka::lag::{parse_lag_request, parse_times_request, parse_watermarks_request};
use stryke_kafka::offset::op_format_offset;
use stryke_kafka::partitioner::{
    op_group_coordinator_partition, op_partition_for_key, op_partition_for_key_crc32,
};
use stryke_kafka::produce::{prepare_record, Batch};
use stryke_kafka::reply::{arguments, reply, version_reply, Outcome};
use stryke_kafka::resource::{make_specifier, resource_parts, ResourceSpecifier};
use stryke_kafka::topic::{op_is_internal_topic, op_topics_collide, op_valid_topic_name};

use rdkafka::consumer::{BaseConsumer, Consumer};
use rdkafka::producer::FutureProducer;
use serde_json::Value;

fn from_value(v: Value) -> Json {
    match v {
        Value::Null => Json::Null,
        Value::Bool(b) => Json::Bool(b),
        Value::Number(n) => match (n.as_i64(), n.as_u64()) {
            (Some(i), _) => Json::Int(i as i128),
            (None, Some(u)) => Json::Int(u as i128),
            (None, None) => Json::Float(n.to_string()),
        },
        Value::String(s) => Json::Str(s),
        Value::Array(items) => Json::Array(items.into_iter().map(from_value).collect()),
        Value::Object(members) => {
            Json::Object(members.into_iter().map(|(k, v)| (k, from_value(v))).collect())
        }
    }
}

fn json(text: &str) -> Json {
    from_value(serde_json::from_str(text).expect("valid JSON"))
}

/// What the caller of a function handed over, if it is JSON.
fn parsed(text: &str) -> Option<Json> {
    serde_json::from_str(text).ok().map(from_value)
}

fn at<'a>(v: &'a Json, key: &str) -> &'a Json {
    v.get(key).expect("member")
}

fn numbers(list: &[i128]) -> Json {
    Json::Array(list.iter().map(|n| Json::Int(*n)).collect())
}

fn error_of<T>(r: Result<T, OpError>) -> String {
    match r {
        Ok(_) => panic!("expected an error"),
        Err(e) => e.message,
    }
}

// ---- brokers ----

#[test]
fn brokers_opts_string_wins() {
    assert_eq!(
        brokers_from_opts(&json(r#"{"brokers": "from-opts:9092"}"#), Some("from-env:9092".into())),
        "from-opts:9092"
    );
}

#[test]
fn brokers_falls_back_to_env() {
    assert_eq!(brokers_from_opts(&json("{}"), Some("env-host:9092".into())), "env-host:9092");
}

#[test]
fn brokers_default_when_unset() {
    assert_eq!(brokers_from_opts(&json("{}"), None), "127.0.0.1:9092");
}

#[test]
fn brokers_ignores_non_string_opts() {
    // A number is not read as a string.
    assert_eq!(brokers_from_opts(&json(r#"{"brokers": 9092}"#), None), "127.0.0.1:9092");
}

#[test]
fn brokers_multibroker_csv_passes_through_byte_identical() {
    let raw = "host-a:9092, host-b:9092 ,host-c:9092";
    let opts = Json::object().with("brokers", Json::str(raw));
    assert_eq!(
        brokers_from_opts(&opts, None),
        raw,
        "broker CSV must reach librdkafka unmodified (no trim/split/rejoin)"
    );
}

#[test]
fn get_producer_cache_hit_does_not_rebuild() {
    let brokers = "stryke-kafka-cache-test-unique-host:9092";
    let seeded: FutureProducer = base_config(brokers)
        .create()
        .expect("FutureProducer::create must be a non-connecting constructor");
    let mut cache: ClientCache<FutureProducer> = ClientCache::new();
    assert!(cache.find(brokers).is_none());
    cache.keep(brokers.to_string(), seeded);
    // The stored client is found, and finding it leaves the cache as it is.
    assert!(cache.find(brokers).is_some(), "cache hit must succeed");
    assert!(cache.find(brokers).is_some(), "cache hit must reuse the stored producer");
    assert!(cache.find("another-host:9092").is_none());
}

#[test]
fn base_config_sets_bootstrap_servers() {
    let cfg = base_config("host-a:9092,host-b:9092");
    assert_eq!(cfg.get("bootstrap.servers"), Some("host-a:9092,host-b:9092"));
}

#[test]
fn base_config_creates_clean_per_call() {
    // Two calls must yield independent configs so consumer-vs-producer
    // overrides (`enable.auto.commit`, `message.timeout.ms`) on one
    // don't bleed into the other.
    let mut a = base_config("h:1");
    a.set("enable.auto.commit", "false");
    let b = base_config("h:1");
    assert_eq!(b.get("enable.auto.commit"), None);
}

#[test]
fn make_consumer_sets_explicit_offset_and_commit_policy() {
    let brokers = brokers_from_opts(&json("{}"), Some("h:1".into()));
    let cfg = consumer_config(&brokers, None);
    assert_eq!(cfg.get("group.id"), Some("stryke-kafka-snapshot"));
    assert_eq!(cfg.get("auto.offset.reset"), Some("earliest"));
    assert_eq!(cfg.get("enable.auto.commit"), Some("false"));
    let consumer: Result<BaseConsumer, _> = cfg.create();
    assert!(consumer.is_ok(), "default consumer build failed");
    let cfg_g = consumer_config(&brokers, Some("my-test-group"));
    assert_eq!(cfg_g.get("group.id"), Some("my-test-group"));
    let consumer_g: Result<BaseConsumer, _> = cfg_g.create();
    assert!(consumer_g.is_ok_and(|c| c.assignment().is_ok()), "explicit-group consumer build failed");
}

// ---- replies and refusals ----

#[test]
fn ffi_handler_panic_is_caught_and_reported_as_json() {
    let v = reply(Outcome::Panicked);
    let err = v.text("error").unwrap_or("");
    assert!(err.contains("panicked"), "expected panic-marker in error field; got: {err}");
}

#[test]
fn ffi_handler_error_returns_flat_error_object() {
    let v = reply(Outcome::Finished(Err(OpError::new("missing topic"))));
    let obj = v.as_object().expect("must be a JSON object, not array/string");
    assert_eq!(obj.len(), 1, "error response must have exactly one key");
    assert_eq!(v.text("error"), Some("missing topic"), "error message must round-trip verbatim");
}

#[test]
fn kafka_pkg_version_ffi_roundtrip_matches_cargo_metadata() {
    let v = reply(Outcome::Finished(Ok(version_reply("0.2.0"))));
    assert_eq!(v.text("version"), Some("0.2.0"));
    assert_eq!(v.as_object().unwrap().len(), 1);
}

#[test]
fn kafka_produce_missing_topic_fails_before_broker_contact() {
    let v = reply(Outcome::Finished(
        prepare_record(&json(r#"{"value":"hi"}"#)).map(|_| Json::Null),
    ));
    let obj = v.as_object().expect("must be flat JSON object");
    assert_eq!(obj.len(), 1, "error response must be flat single-key");
    assert_eq!(v.text("error"), Some("missing topic"));
}

#[test]
fn kafka_produce_many_rejects_non_array_rows() {
    let err = error_of(Batch::request(json(r#"{"topic":"t","rows":{"k":"v"}}"#)));
    assert!(err.starts_with("missing rows"), "expected `missing rows (...)` contract; got: {err}");
    assert_eq!(err, "missing rows (array of {key?, value} objects)");
}

#[test]
fn kafka_delete_topic_does_not_coerce_int_name_to_string() {
    let err = error_of(delete_topic_request(&json(r#"{"name":42}"#)));
    assert_eq!(err, "missing name", "integer `name` must be rejected as missing, never coerced");
}

#[test]
fn ffi_malformed_json_input_does_not_panic_and_falls_through_to_validator() {
    let err = error_of(prepare_record(&arguments(parsed("not-json-{[}"))));
    assert_eq!(err, "missing topic");
}

#[test]
fn ffi_empty_string_input_does_not_panic() {
    assert_eq!(error_of(prepare_record(&arguments(parsed("")))), "missing topic");
}

#[test]
fn arguments_are_what_was_parsed_or_null() {
    assert_eq!(arguments(parsed("{]")), Json::Null);
    assert_eq!(arguments(parsed("[1]")), numbers(&[1]));
    assert_eq!(arguments(None), Json::Null);
}

#[test]
fn kafka_produce_many_rejects_null_rows_distinctly_from_missing() {
    let err = error_of(Batch::request(json(r#"{"topic":"t","rows":null}"#)));
    assert!(
        err.starts_with("missing rows"),
        "expected `missing rows (...)` contract for JSON null; got: {err}"
    );
}

#[test]
fn kafka_describe_missing_topic_fails_before_metadata_fetch() {
    assert_eq!(error_of(topic_request(&json("{}"))), "missing topic");
}

#[test]
fn new_ops_validate_before_broker_contact() {
    let cases: Vec<(String, &str)> = vec![
        (error_of(parse_watermarks_request(&json("{}"))), "missing topic"),
        (error_of(parse_lag_request(&json(r#"{"topic":"t"}"#))), "missing group"),
        (error_of(parse_lag_request(&json(r#"{"group":"g"}"#))), "missing topic"),
        (error_of(parse_times_request(&json(r#"{"topic":"t"}"#))), "missing timestamp"),
        (error_of(parse_create_partitions(&json(r#"{"name":"t"}"#))), "missing partitions"),
        (error_of(parse_describe_configs(&json("{}"))), "missing resource_name"),
        (error_of(parse_alter_configs(&json(r#"{"resource_name":"t"}"#))), "missing entries"),
        (error_of(parse_delete_groups(&json("{}"))), "missing groups"),
    ];
    for (err, want) in cases {
        assert!(err.contains(want), "expected `{want}`; got: {err}");
    }
}

// ---- fields, headers, resources ----

#[test]
fn base64_round_trips_and_hex_field_codec() {
    let raw = [0u8, 1, 2, 255, 254, 128, b'k'];
    assert_eq!(base64_decode(&base64_encode(&raw)).unwrap(), raw);
    assert_eq!(base64_encode(b"Man"), "TWFu");
    // field codecs: utf8 default, base64, hex round-trip arbitrary bytes
    assert_eq!(decode_field("00ff2a", "hex").unwrap(), vec![0u8, 255, 42]);
    assert_eq!(encode_field(&[0u8, 255, 42], "hex"), "00ff2a");
    assert_eq!(decode_field("TWFu", "base64").unwrap(), b"Man");
    assert_eq!(decode_field("hi", "utf8").unwrap(), b"hi");
    assert!(decode_field("zzz", "snappy").is_err(), "unknown encoding must error");
}

#[test]
fn build_headers_from_object_and_absent() {
    // No headers key → None so the producer skips attaching.
    assert!(build_headers(&json(r#"{"topic": "t"}"#)).is_none());
    assert!(build_headers(&json(r#"{"headers": {}}"#)).is_none());
    let h = build_headers(&json(r#"{"headers": {"a": "1", "b": "2"}}"#)).expect("two headers built");
    assert_eq!(h.count(), 2);
}

#[test]
fn resource_parts_and_specifier() {
    // topic default
    let (tag, id) = resource_parts(&json(r#"{"resource_name": "orders"}"#)).unwrap();
    assert_eq!(tag, "topic:orders");
    assert_eq!(id, None);
    assert_eq!(make_specifier(&tag, id).unwrap(), ResourceSpecifier::Topic("orders".into()));
    // broker id parsed
    let (tag, id) =
        resource_parts(&json(r#"{"resource_type": "broker", "resource_name": 3}"#)).unwrap();
    assert_eq!(id, Some(3));
    assert!(matches!(make_specifier(&tag, id).unwrap(), ResourceSpecifier::Broker(3)));
    // missing name for topic errors
    assert!(resource_parts(&json(r#"{"resource_type": "topic"}"#)).is_err());
    // unknown type errors
    assert!(
        resource_parts(&json(r#"{"resource_type": "cluster", "resource_name": "x"}"#)).is_err()
    );
}

// ---- topics ----

#[test]
fn valid_topic_name_accepts_legal_and_flags_each_violation() {
    assert_eq!(
        at(&op_valid_topic_name(json(r#"{"name": "orders.us-east_1"}"#)).unwrap(), "valid"),
        &Json::Bool(true)
    );
    // Each rejection carries a specific reason.
    let dot = op_valid_topic_name(json(r#"{"name": ".."}"#)).unwrap();
    assert_eq!(at(&dot, "valid"), &Json::Bool(false));
    assert!(dot.text("reason").unwrap().contains("reserved"));
    let bad = op_valid_topic_name(json(r#"{"name": "has space"}"#)).unwrap();
    assert_eq!(at(&bad, "valid"), &Json::Bool(false));
    assert!(bad.text("reason").unwrap().contains("illegal"));
    let named = |n: usize| Json::object().with("name", Json::str(&"a".repeat(n)));
    let long = op_valid_topic_name(named(250)).unwrap();
    assert_eq!(at(&long, "valid"), &Json::Bool(false));
    assert!(long.text("reason").unwrap().contains("249"));
    // 249 chars is the boundary — still valid.
    assert_eq!(at(&op_valid_topic_name(named(249)).unwrap(), "valid"), &Json::Bool(true));
}

#[test]
fn is_internal_topic_detects_double_underscore_prefix() {
    assert_eq!(
        at(&op_is_internal_topic(json(r#"{"name": "__consumer_offsets"}"#)).unwrap(), "internal"),
        &Json::Bool(true)
    );
    assert_eq!(
        at(&op_is_internal_topic(json(r#"{"name": "orders"}"#)).unwrap(), "internal"),
        &Json::Bool(false)
    );
}

#[test]
fn topics_collide_unifies_periods_to_underscores() {
    // The canonical metric-namespace collision: `my.topic` vs `my_topic`.
    let r = op_topics_collide(json(r#"{"a": "my.topic", "b": "my_topic"}"#)).unwrap();
    assert_eq!(at(&r, "collide"), &Json::Bool(true));
    assert_eq!(r.text("unified_a"), Some("my_topic"));
    assert_eq!(r.text("unified_b"), Some("my_topic"));
    assert_eq!(at(&r, "a_has_collision_chars"), &Json::Bool(true));
    assert_eq!(at(&r, "b_has_collision_chars"), &Json::Bool(true));
    // Distinct names with no shared unified form do not collide.
    assert_eq!(
        at(&op_topics_collide(json(r#"{"a": "orders", "b": "events"}"#)).unwrap(), "collide"),
        &Json::Bool(false)
    );
    // A plain name has no collision chars.
    assert_eq!(
        at(
            &op_topics_collide(json(r#"{"a": "orders", "b": "orders"}"#)).unwrap(),
            "a_has_collision_chars"
        ),
        &Json::Bool(false)
    );
    // Multiple periods all unify.
    assert_eq!(
        at(&op_topics_collide(json(r#"{"a": "a.b.c", "b": "a_b_c"}"#)).unwrap(), "collide"),
        &Json::Bool(true)
    );
    assert!(op_topics_collide(json(r#"{"a": "x"}"#)).is_err());
}

// ---- broker lists ----

#[test]
fn parse_brokers_splits_host_port_list() {
    let v = op_parse_brokers(json(r#"{"brokers": "b1:9092, b2:9093 ,b3"}"#)).unwrap();
    let brokers = v.items("brokers").unwrap();
    assert_eq!(at(&v, "count"), &Json::Int(3));
    assert_eq!(brokers[0].text("host"), Some("b1"));
    assert_eq!(at(&brokers[0], "port"), &Json::Int(9092));
    assert_eq!(at(&brokers[1], "port"), &Json::Int(9093), "whitespace trimmed");
    assert_eq!(at(&brokers[2], "port"), &Json::Null, "portless broker → null");
    assert!(op_parse_brokers(json(r#"{"brokers": ""}"#)).is_err());
}

#[test]
fn build_brokers_inverts_parse_brokers() {
    // Parse → build round-trips the bootstrap string (modulo whitespace).
    let parsed = op_parse_brokers(json(r#"{"brokers": "b1:9092,b2:9093,b3"}"#)).unwrap();
    let list = match parsed {
        Json::Object(members) => members.into_iter().find(|m| m.0 == "brokers").unwrap().1,
        _ => panic!("expected an object"),
    };
    let built = op_build_brokers(Json::object().with("brokers", list)).unwrap();
    assert_eq!(built.text("bootstrap"), Some("b1:9092,b2:9093,b3"));
    // Accepts {host,port} objects and bare host strings, mixed.
    let mixed = json(r#"{"brokers": [{"host": "h1", "port": 9092}, "h2", {"host": "h3"}]}"#);
    assert_eq!(op_build_brokers(mixed).unwrap().text("bootstrap"), Some("h1:9092,h2,h3"));
    // Missing host and empty list error.
    assert!(op_build_brokers(json(r#"{"brokers": [{"port": 9092}]}"#)).is_err());
    assert!(op_build_brokers(json(r#"{"brokers": []}"#)).is_err());
}

// ---- placement by key ----

#[test]
fn murmur2_matches_kafka_reference_vectors() {
    // Canonical values from Apache Kafka's own UtilsTest.testMurmur2.
    assert_eq!(murmur2(b"21"), -973_932_308);
    assert_eq!(murmur2(b"foobar"), -790_332_482);
    assert_eq!(murmur2(b"a-little-bit-long-string"), -985_981_536);
    assert_eq!(murmur2(b"a-little-bit-longer-string"), -1_486_304_829);
    assert_eq!(murmur2(b"lkjh234lh9fiuh90y23oiuhsafujhadof229phr9h19h89h8"), -58_897_971);
}

fn keyed(key: &str, partitions: u64) -> Json {
    Json::object().with("key", Json::str(key)).with("partitions", Json::Int(partitions as i128))
}

#[test]
fn partition_for_key_uses_to_positive_modulo() {
    // toPositive(murmur2("foobar")) = -790332482 & 0x7fffffff = 1357151166.
    // 1357151166 % 10 = 6.
    let v = op_partition_for_key(keyed("foobar", 10)).unwrap();
    assert_eq!(at(&v, "hash"), &Json::Int(-790_332_482));
    assert_eq!(at(&v, "partition"), &Json::Int(6));
    // Deterministic and always in [0, partitions).
    for p in 1u64..=8 {
        let r = op_partition_for_key(keyed("user-42", p)).unwrap();
        let part = r.unsigned("partition").unwrap();
        assert!(part < p, "partition {part} must be < {p}");
    }
    assert!(op_partition_for_key(keyed("x", 0)).is_err());
}

#[test]
fn crc32_matches_standard_iso_hdlc_check_value() {
    // Published CRC-32/ISO-HDLC check value for "123456789" is 0xCBF43926.
    assert_eq!(crc32_ieee(b"123456789"), 0xCBF4_3926);
    assert_eq!(crc32_ieee(b""), 0);
}

#[test]
fn partition_for_key_crc32_uses_consistent_partitioner() {
    // librdkafka `consistent`: crc32(key) % partitions, unsigned (no
    // toPositive masking). crc32("foobar") = 0x9EF61F95 = 2666930069.
    let v = op_partition_for_key_crc32(keyed("foobar", 10)).unwrap();
    assert_eq!(at(&v, "crc32"), &Json::Int(0x9EF6_1F95));
    assert_eq!(at(&v, "partition"), &Json::Int(2_666_930_069 % 10));
    // The crc32 and murmur2 partitioners disagree for the same key/topology —
    // that's the whole point of exposing both.
    let murmur = op_partition_for_key(keyed("foobar", 10)).unwrap();
    assert_ne!(at(&v, "partition"), at(&murmur, "partition"));
    // Deterministic and always in [0, partitions).
    for p in 1u64..=8 {
        let r = op_partition_for_key_crc32(keyed("user-42", p)).unwrap();
        assert!(r.unsigned("partition").unwrap() < p);
    }
    assert!(op_partition_for_key_crc32(keyed("x", 0)).is_err());
}

#[test]
fn java_string_hashcode_matches_jvm() {
    // Published JVM String.hashCode values.
    assert_eq!(java_string_hashcode(""), 0);
    assert_eq!(java_string_hashcode("a"), 97);
    assert_eq!(java_string_hashcode("abc"), 96354);
    assert_eq!(java_string_hashcode("test"), 3_556_498);
}

#[test]
fn group_coordinator_partition_matches_kafka_formula() {
    // Utils.abs(hashCode) % 50 — verified against a JVM-hashCode oracle.
    let of = |g: &str| {
        op_group_coordinator_partition(Json::object().with("group", Json::str(g))).unwrap()
    };
    let p = |g: &str| of(g).unsigned("partition").unwrap();
    assert_eq!(p("abc"), 4, "abc → hashCode 96354 → partition 4 of 50");
    assert_eq!(p("test"), 48);
    assert_eq!(p("my-consumer-group"), 13);
    // The hash is the raw (signed) JVM hashCode.
    assert_eq!(at(&of("abc"), "hash"), &Json::Int(96354));
    // Default partition count is 50; an explicit count is honored.
    assert_eq!(at(&of("abc"), "partitions"), &Json::Int(50));
    let sized = |parts: u64| {
        Json::object().with("group", Json::str("g")).with("partitions", Json::Int(parts as i128))
    };
    for parts in 1u64..=64 {
        let v = op_group_coordinator_partition(sized(parts)).unwrap();
        assert!(v.unsigned("partition").unwrap() < parts);
    }
    assert!(op_group_coordinator_partition(sized(0)).is_err());
    assert!(op_group_coordinator_partition(json("{}")).is_err());
}

// ---- assignment ----

#[test]
fn range_assignment_matches_kafka_range_assignor() {
    // 7 partitions, 3 consumers: the first absorbs the remainder → 3/2/2.
    let v = op_range_assignment(json(r#"{"partitions": 7, "consumers": ["c0", "c1", "c2"]}"#))
        .unwrap();
    let a = at(&v, "assignment");
    assert_eq!(at(a, "c0"), &numbers(&[0, 1, 2]));
    assert_eq!(at(a, "c1"), &numbers(&[3, 4]));
    assert_eq!(at(a, "c2"), &numbers(&[5, 6]));
    // Even split: 6 partitions, 3 consumers → 2 each, contiguous.
    let even = op_range_assignment(json(r#"{"partitions": 6, "consumers": ["a", "b", "c"]}"#))
        .unwrap();
    assert_eq!(at(at(&even, "assignment"), "a"), &numbers(&[0, 1]));
    assert_eq!(at(at(&even, "assignment"), "c"), &numbers(&[4, 5]));
    // More consumers than partitions: extras get nothing.
    let sparse = op_range_assignment(json(r#"{"partitions": 2, "consumers": ["x", "y", "z"]}"#))
        .unwrap();
    assert_eq!(at(at(&sparse, "assignment"), "x"), &numbers(&[0]));
    assert_eq!(at(at(&sparse, "assignment"), "y"), &numbers(&[1]));
    assert_eq!(at(at(&sparse, "assignment"), "z"), &numbers(&[]));
    // Member ids are sorted before slicing, regardless of input order.
    let unsorted =
        op_range_assignment(json(r#"{"partitions": 4, "consumers": ["c2", "c0", "c1"]}"#)).unwrap();
    assert_eq!(at(at(&unsorted, "assignment"), "c0"), &numbers(&[0, 1]));
    assert_eq!(at(at(&unsorted, "assignment"), "c2"), &numbers(&[3]));
    // Errors.
    assert!(op_range_assignment(json(r#"{"consumers": ["a"]}"#)).is_err());
    assert!(op_range_assignment(json(r#"{"partitions": 4}"#)).is_err());
    assert!(op_range_assignment(json(r#"{"partitions": 0, "consumers": ["a"]}"#)).is_err());
    assert!(op_range_assignment(json(r#"{"partitions": 4, "consumers": []}"#)).is_err());
}

#[test]
fn roundrobin_assignment_matches_kafka_roundrobin_assignor() {
    // 7 partitions, 3 consumers: partition p → member p%3, so counts 3/2/2
    // but interleaved (vs RangeAssignor's contiguous blocks).
    let v = op_roundrobin_assignment(json(r#"{"partitions": 7, "consumers": ["c0", "c1", "c2"]}"#))
        .unwrap();
    let a = at(&v, "assignment");
    assert_eq!(at(a, "c0"), &numbers(&[0, 3, 6]));
    assert_eq!(at(a, "c1"), &numbers(&[1, 4]));
    assert_eq!(at(a, "c2"), &numbers(&[2, 5]));
    // Even split: counts within one, still interleaved.
    let even = op_roundrobin_assignment(json(r#"{"partitions": 6, "consumers": ["a", "b", "c"]}"#))
        .unwrap();
    assert_eq!(at(at(&even, "assignment"), "a"), &numbers(&[0, 3]));
    assert_eq!(at(at(&even, "assignment"), "b"), &numbers(&[1, 4]));
    assert_eq!(at(at(&even, "assignment"), "c"), &numbers(&[2, 5]));
    // More consumers than partitions: the tail members get nothing.
    let sparse =
        op_roundrobin_assignment(json(r#"{"partitions": 2, "consumers": ["x", "y", "z"]}"#))
            .unwrap();
    assert_eq!(at(at(&sparse, "assignment"), "x"), &numbers(&[0]));
    assert_eq!(at(at(&sparse, "assignment"), "y"), &numbers(&[1]));
    assert_eq!(at(at(&sparse, "assignment"), "z"), &numbers(&[]));
    // Member ids are sorted before the round-robin walk.
    let unsorted =
        op_roundrobin_assignment(json(r#"{"partitions": 4, "consumers": ["c2", "c0", "c1"]}"#))
            .unwrap();
    assert_eq!(at(at(&unsorted, "assignment"), "c0"), &numbers(&[0, 3]));
    assert_eq!(at(at(&unsorted, "assignment"), "c1"), &numbers(&[1]));
    assert_eq!(at(at(&unsorted, "assignment"), "c2"), &numbers(&[2]));
    // Errors mirror range_assignment (shared input parsing).
    assert!(op_roundrobin_assignment(json(r#"{"consumers": ["a"]}"#)).is_err());
    assert!(op_roundrobin_assignment(json(r#"{"partitions": 0, "consumers": ["a"]}"#)).is_err());
    assert!(op_roundrobin_assignment(json(r#"{"partitions": 4, "consumers": []}"#)).is_err());
}

// ---- offsets ----

#[test]
fn format_offset_maps_sentinels_both_directions() {
    assert_eq!(
        op_format_offset(json(r#"{"offset": -1}"#)).unwrap().text("name"),
        Some("latest")
    );
    assert_eq!(
        op_format_offset(json(r#"{"offset": -2}"#)).unwrap().text("name"),
        Some("earliest")
    );
    assert_eq!(
        at(&op_format_offset(json(r#"{"offset": 42}"#)).unwrap(), "name"),
        &Json::Null,
        "concrete offset has no sentinel name"
    );
    assert_eq!(
        at(&op_format_offset(json(r#"{"name": "EARLIEST"}"#)).unwrap(), "offset"),
        &Json::Int(-2),
        "name lookup is case-insensitive"
    );
    assert!(op_format_offset(json(r#"{"name": "whoknows"}"#)).is_err());
    assert!(op_format_offset(json("{}")).is_err());
}
