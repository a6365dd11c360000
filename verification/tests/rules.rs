//! Topics, brokers, placement, assignment, offsets, resources and the cache.

use stryke_kafka::assignment::{
    op_range_assignment, op_roundrobin_assignment, parse_assignment_inputs,
};
use stryke_kafka::brokers::{op_build_brokers, op_parse_brokers};
use stryke_kafka::cache::ClientCache;
use stryke_kafka::config::{producer_config, KafkaConn};
use stryke_kafka::hash::java_string_hashcode;
use stryke_kafka::json::{set_member, Json};
use stryke_kafka::offset::op_format_offset;
use stryke_kafka::partitioner::{op_group_coordinator_partition, op_partition_for_key};
use stryke_kafka::resource::{make_specifier, resource_parts, ResourceSpecifier};
use stryke_kafka::topic::{op_is_internal_topic, op_topics_collide, op_valid_topic_name};

fn obj(members: Vec<(&str, Json)>) -> Json {
    Json::Object(members.into_iter().map(|(k, v)| (k.to_string(), v)).collect())
}

fn text(s: &str) -> Json {
    Json::str(s)
}

fn texts(list: &[&str]) -> Json {
    Json::Array(list.iter().map(|s| Json::str(s)).collect())
}

fn numbers(list: &[i128]) -> Json {
    Json::Array(list.iter().map(|n| Json::Int(*n)).collect())
}

// ---- JSON ----

#[test]
fn members_are_read_by_name_and_kind() {
    let v = obj(vec![
        ("s", text("x")),
        ("u", Json::Int(u64::MAX as i128)),
        ("i", Json::Int(-5)),
        ("b", Json::Bool(true)),
        ("f", Json::Float("1.5".into())),
        ("n", Json::Null),
    ]);
    assert_eq!(v.text("s"), Some("x"));
    assert_eq!(v.text("u"), None);
    assert_eq!(v.unsigned("u"), Some(u64::MAX));
    assert_eq!(v.signed("u"), None, "too large for a signed number");
    assert_eq!(v.signed("i"), Some(-5));
    assert_eq!(v.unsigned("i"), None);
    assert_eq!(v.flag("b"), Some(true));
    assert_eq!(v.unsigned("f"), None);
    assert!(v.get("n").is_some());
    assert!(v.get("missing").is_none());
    assert!(Json::Null.get("s").is_none());
}

#[test]
fn setting_a_member_replaces_it_in_place() {
    let mut members: Vec<(String, Json)> = Vec::new();
    set_member(&mut members, "a".into(), Json::Int(1));
    set_member(&mut members, "b".into(), Json::Int(2));
    set_member(&mut members, "a".into(), Json::Int(3));
    assert_eq!(Json::Object(members), obj(vec![("a", Json::Int(3)), ("b", Json::Int(2))]));
}

// ---- topics ----

#[test]
fn each_fault_of_a_topic_name_has_its_reason() {
    let check = |name: &str| {
        let r = op_valid_topic_name(obj(vec![("name", text(name))])).unwrap();
        assert_eq!(r.text("name"), Some(name));
        assert_eq!(r.flag("valid"), Some(r.get("reason") == Some(&Json::Null)));
        r.text("reason").map(String::from)
    };
    assert_eq!(check("").as_deref(), Some("empty"));
    assert_eq!(check(".").as_deref(), Some("reserved (`.` / `..`)"));
    assert_eq!(check("..").as_deref(), Some("reserved (`.` / `..`)"));
    assert_eq!(check("..."), None);
    assert_eq!(
        check("a/b").as_deref(),
        Some("illegal character (allowed: a-z A-Z 0-9 . _ -)")
    );
    assert_eq!(check(&"é".repeat(125)).as_deref(), Some("longer than 249 characters"));
    assert_eq!(check("A-z_0.9"), None);
    assert_eq!(op_valid_topic_name(Json::Null).unwrap_err().message, "missing name");
}

#[test]
fn internal_topics_begin_with_two_underscores() {
    let internal = |name: &str| {
        op_is_internal_topic(obj(vec![("name", text(name))])).unwrap().flag("internal").unwrap()
    };
    assert!(internal("__"));
    assert!(!internal("_"));
    assert!(!internal("a__b"));
    assert_eq!(op_is_internal_topic(obj(vec![])).unwrap_err().message, "missing name");
}

#[test]
fn collision_is_an_equivalence() {
    let names = ["a.b", "a_b", "a.b_c", "ab", "a_b.c", ".", "_"];
    let collide = |a: &str, b: &str| {
        op_topics_collide(obj(vec![("a", text(a)), ("b", text(b))])).unwrap().flag("collide").unwrap()
    };
    for a in names {
        assert!(collide(a, a));
        for b in names {
            assert_eq!(collide(a, b), collide(b, a));
            for c in names {
                assert!(!(collide(a, b) && collide(b, c)) || collide(a, c));
            }
        }
    }
    assert_eq!(op_topics_collide(obj(vec![])).unwrap_err().message, "missing a");
    assert_eq!(op_topics_collide(obj(vec![("a", text("x"))])).unwrap_err().message, "missing b");
}

// ---- brokers ----

fn parsed(s: &str) -> Vec<(String, Option<u64>)> {
    let v = op_parse_brokers(obj(vec![("brokers", text(s))])).unwrap();
    let list: Vec<_> = v
        .items("brokers")
        .unwrap()
        .iter()
        .map(|b| (b.text("host").unwrap().to_string(), b.unsigned("port")))
        .collect();
    assert_eq!(v.unsigned("count"), Some(list.len() as u64));
    list
}

#[test]
fn a_port_is_what_stands_behind_the_last_colon() {
    assert_eq!(parsed("[::1]:9092"), vec![("[::1]".to_string(), Some(9092))]);
    assert_eq!(parsed("h:+80"), vec![("h".to_string(), Some(80))]);
    assert_eq!(parsed("h:4294967296"), vec![("h:4294967296".to_string(), None)]);
    assert_eq!(parsed("h:"), vec![("h:".to_string(), None)]);
    assert_eq!(parsed(":9092"), vec![(String::new(), Some(9092))]);
    assert_eq!(parsed(" h :1 , "), vec![("h ".to_string(), Some(1))]);
}

#[test]
fn a_list_of_brokers_is_refused_with_a_reason() {
    assert_eq!(op_parse_brokers(obj(vec![])).unwrap_err().message, "missing brokers");
    assert_eq!(
        op_parse_brokers(obj(vec![("brokers", text(" , "))])).unwrap_err().message,
        "no brokers in ` , `"
    );
    // Another name for the list counts only where the first is not there.
    assert!(op_parse_brokers(obj(vec![("bootstrap", text("h"))])).is_ok());
    assert!(
        op_parse_brokers(obj(vec![("brokers", Json::Null), ("bootstrap", text("h"))])).is_err()
    );
    let build = |list: Json| op_build_brokers(obj(vec![("brokers", list)]));
    assert_eq!(op_build_brokers(obj(vec![])).unwrap_err().message, "missing brokers (array)");
    assert_eq!(build(Json::Array(vec![])).unwrap_err().message, "broker list is empty");
    assert_eq!(
        build(Json::Array(vec![obj(vec![("host", text(""))])])).unwrap_err().message,
        "broker entry missing host"
    );
    assert_eq!(build(Json::Array(vec![text("")])).unwrap().text("bootstrap"), Some(""));
}

#[test]
fn reading_undoes_writing_and_writing_undoes_reading() {
    for s in ["h:9092", "a:1,b,c:65535", " x : 7 ,[::1]:2", "h:+80,i:007"] {
        let read = op_parse_brokers(obj(vec![("brokers", text(s))])).unwrap();
        let list = match read {
            Json::Object(members) => members.into_iter().next().unwrap().1,
            _ => panic!("expected an object"),
        };
        let built = op_build_brokers(obj(vec![("brokers", list)])).unwrap();
        assert_eq!(parsed(built.text("bootstrap").unwrap()), parsed(s), "{s:?}");
    }
}

#[test]
fn a_plain_list_of_brokers_is_written_as_it_was_read() {
    for s in ["h:9092", "a:1,b,c:65535", "h", "[::1]:2,x:0", "h:4294967296"] {
        let read = op_parse_brokers(obj(vec![("brokers", text(s))])).unwrap();
        let list = match read {
            Json::Object(members) => members.into_iter().next().unwrap().1,
            _ => panic!("expected an object"),
        };
        let built = op_build_brokers(obj(vec![("brokers", list)])).unwrap();
        assert_eq!(built, obj(vec![("bootstrap", text(s))]));
    }
}

// ---- placement ----

#[test]
fn murmur2_places_keys_as_the_jvm_client_does() {
    for (key, partition) in
        [("", 681), ("a", 524), ("ab", 434), ("abc", 107), ("123456789", 566)]
    {
        let opts = obj(vec![("key", text(key)), ("partitions", Json::Int(1000))]);
        let r = op_partition_for_key(opts).unwrap();
        assert_eq!(r.unsigned("partition"), Some(partition), "{key:?}");
    }
    assert_eq!(op_partition_for_key(obj(vec![])).unwrap_err().message, "missing key");
    assert_eq!(
        op_partition_for_key(obj(vec![("key", text("k"))])).unwrap_err().message,
        "missing partitions"
    );
    assert_eq!(
        op_partition_for_key(obj(vec![("key", text("k")), ("partitions", Json::Int(0))]))
            .unwrap_err()
            .message,
        "partitions must be > 0"
    );
}

#[test]
fn java_hashes_are_over_utf16_units() {
    // A character beyond the basic plane is a pair of surrogates: 0xd83d, 0xde00.
    assert_eq!(java_string_hashcode("\u{1f600}"), 0xd83d * 31 + 0xde00);
    // The hash wraps, and can be negative.
    assert_eq!(java_string_hashcode("polygenelubricants"), i32::MIN);
    let r = op_group_coordinator_partition(obj(vec![("group_id", text("polygenelubricants"))]));
    assert_eq!(r.unwrap().unsigned("partition"), Some(0));
}

// ---- assignment ----

#[test]
fn assignment_is_refused_with_a_reason() {
    let refusal = |opts: Json| parse_assignment_inputs(&opts).unwrap_err().message;
    let of = |consumers: Json| {
        obj(vec![("partitions", Json::Int(4)), ("consumers", consumers)])
    };
    assert_eq!(refusal(obj(vec![])), "missing partitions (count)");
    assert_eq!(refusal(obj(vec![("partitions", Json::Int(0))])), "partitions must be > 0");
    assert_eq!(
        refusal(obj(vec![("partitions", Json::Int(4))])),
        "missing consumers (array of member ids)"
    );
    assert_eq!(refusal(of(texts(&[]))), "consumers is empty");
    assert_eq!(
        refusal(of(Json::Array(vec![text("a"), Json::Int(1)]))),
        "consumer id must be a string"
    );
    // Another name for the list.
    let members = obj(vec![("partitions", Json::Int(2)), ("members", texts(&["b", "a"]))]);
    assert_eq!(
        parse_assignment_inputs(&members).unwrap(),
        (2, vec!["a".to_string(), "b".to_string()])
    );
}

#[test]
fn every_partition_has_one_owner_and_counts_differ_by_one_at_most() {
    for n in 1..6 {
        let ids: Vec<String> = (0..n).map(|i| format!("m{i}")).collect();
        let ids: Vec<&str> = ids.iter().map(String::as_str).collect();
        for partitions in 1..14 {
            let opts =
                || obj(vec![("partitions", Json::Int(partitions)), ("consumers", texts(&ids))]);
            let mut counts: Vec<Vec<usize>> = Vec::new();
            for v in [op_range_assignment(opts()), op_roundrobin_assignment(opts())] {
                let v = v.unwrap();
                let assignment = v.get("assignment").unwrap();
                let mut owned: Vec<i128> = Vec::new();
                let mut sizes: Vec<usize> = Vec::new();
                for id in &ids {
                    let parts = assignment.items(id).unwrap();
                    sizes.push(parts.len());
                    owned.extend(parts.iter().map(|p| p.as_i64().unwrap() as i128));
                }
                owned.sort();
                assert_eq!(owned, (0..partitions).collect::<Vec<i128>>());
                assert!(sizes.iter().max().unwrap() - sizes.iter().min().unwrap() <= 1);
                counts.push(sizes);
            }
            assert_eq!(counts[0], counts[1], "both assignors count alike");
        }
    }
}

#[test]
fn an_id_that_occurs_twice_has_one_entry() {
    let opts = || obj(vec![("partitions", Json::Int(3)), ("consumers", texts(&["a", "b", "a"]))]);
    let range = op_range_assignment(opts()).unwrap();
    assert_eq!(
        range.get("assignment"),
        Some(&obj(vec![("a", numbers(&[1])), ("b", numbers(&[2]))]))
    );
    assert_eq!(range.get("consumers"), Some(&texts(&["a", "a", "b"])));
    let turns = op_roundrobin_assignment(opts()).unwrap();
    assert_eq!(
        turns.get("assignment"),
        Some(&obj(vec![("a", numbers(&[0, 1])), ("b", numbers(&[2]))]))
    );
}

// ---- offsets ----

#[test]
fn special_offsets_and_their_names_translate_both_ways() {
    let named = |name: &str| op_format_offset(obj(vec![("name", text(name))]));
    for (name, offset) in
        [("latest", -1), ("End", -1), ("earliest", -2), ("BEGINNING", -2), ("start", -2)]
    {
        let r = named(name).unwrap();
        assert_eq!(r, obj(vec![("name", text(name)), ("offset", Json::Int(offset))]));
    }
    assert_eq!(
        named("Middle").unwrap_err().message,
        "unknown offset name `middle` (latest|earliest)"
    );
    assert_eq!(
        op_format_offset(obj(vec![])).unwrap_err().message,
        "format_offset requires `offset` or `name`"
    );
    // The number comes first.
    let both = op_format_offset(obj(vec![("name", text("end")), ("offset", Json::Int(-2))]));
    assert_eq!(both.unwrap().text("name"), Some("earliest"));
}

// ---- resources ----

#[test]
fn resources_are_asked_for_by_kind_and_name() {
    let asked = |kind: &str, name: Json| {
        let opts = obj(vec![("resource_type", text(kind)), ("resource_name", name)]);
        let (tag, id) = resource_parts(&opts)?;
        make_specifier(&tag, id)
    };
    assert_eq!(asked("topic", text("a:b")).unwrap(), ResourceSpecifier::Topic("a:b".into()));
    assert_eq!(asked("group", text("g")).unwrap(), ResourceSpecifier::Group("g".into()));
    assert_eq!(asked("broker", text("-7")).unwrap(), ResourceSpecifier::Broker(-7));
    assert_eq!(asked("broker", Json::Int(4_294_967_298)).unwrap(), ResourceSpecifier::Broker(2));
    assert_eq!(asked("topic", Json::Int(1)).unwrap_err().message, "missing resource_name");
    assert_eq!(
        asked("broker", text("x")).unwrap_err().message,
        "broker resource_name must be a broker id"
    );
    assert_eq!(
        asked("cluster", text("x")).unwrap_err().message,
        "unknown resource_type `cluster` (want topic|broker|group)"
    );
    assert_eq!(make_specifier("nothing", None).unwrap_err().message, "bad resource tag");
    assert_eq!(make_specifier("acl:x", None).unwrap_err().message, "bad resource kind");
    assert_eq!(make_specifier("broker:9", None).unwrap(), ResourceSpecifier::Broker(0));
}

// ---- clients ----

#[test]
fn a_client_is_kept_in_place_of_the_one_before() {
    let mut cache: ClientCache<u32> = ClientCache::new();
    cache.keep("a".into(), 1);
    cache.keep("b".into(), 2);
    cache.keep("a".into(), 3);
    assert_eq!(cache.find("a"), Some(&3));
    assert_eq!(cache.find("b"), Some(&2));
    assert_eq!(cache.find("c"), None);
}

#[test]
fn each_kind_of_client_is_told_its_parameters() {
    let conn = KafkaConn {
        brokers: Some("h:1".into()),
        security_protocol: None,
        sasl_mechanism: None,
        sasl_username: None,
        sasl_password: None,
        ssl_ca: None,
        ssl_cert: None,
        ssl_key: None,
        ssl_key_password: None,
        extra_conf: vec!["group.id=overridden".into()],
        timeout_ms: 250,
        client_id: "c".into(),
    };
    assert_eq!(producer_config("h:1").get("message.timeout.ms"), Some("10000"));
    assert_eq!(conn.producer_config().unwrap().get("message.timeout.ms"), Some("250"));
    let consumer = conn.consumer_config("g", "latest", true).unwrap();
    assert_eq!(consumer.get("group.id"), Some("g"));
    assert_eq!(consumer.get("auto.offset.reset"), Some("latest"));
    assert_eq!(consumer.get("enable.auto.commit"), Some("true"));
    assert_eq!(consumer.get("enable.partition.eof"), Some("false"));
    let lag = conn.lag_config("g").unwrap();
    assert_eq!(lag.get("group.id"), Some("g"));
    assert_eq!(lag.get("enable.auto.commit"), Some("false"));
    assert_eq!(lag.get("auto.offset.reset"), None);
    let refused = KafkaConn { brokers: None, ..conn.clone() };
    assert_eq!(
        refused.consumer_config("g", "latest", false).unwrap_err().message,
        "--brokers required (or $KAFKA_BROKERS)"
    );
    let refused = KafkaConn { extra_conf: vec!["a=1".into(), "b".into(), "c".into()], ..conn };
    assert_eq!(refused.lag_config("g").unwrap_err().message, "invalid -X k=v form: b");
}
