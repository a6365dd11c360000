//! Answers about a cluster, its offsets and its administration.

use rdkafka::{Offset, TopicPartitionList};
use stryke_kafka::admin::{
    alter_configs_reply, create_partitions_reply, create_topic_reply, created_line, delete_reply,
    deleted_line, describe_configs_reply, parse_alter_configs, parse_configs,
    parse_create_partitions, parse_delete_groups, parse_describe_configs, part_results, ConfigEntry,
    NewTopicRequest, ResourceConfig,
};
use stryke_kafka::json::Json;
use stryke_kafka::lag::{
    check_counts_fit, check_lags_fit, lag_reply, parse_lag_request, parse_times_request,
    parse_watermarks_request, times_reply, watermarks_reply, GroupLag, Progress, Watermark,
};
use stryke_kafka::metadata::{
    all_partition_ids, cluster_line, cluster_reply, describe_line, describe_reply, group_line,
    groups_reply, ping_line, ping_reply, topic_line, topic_partition_ids, topics_reply, BrokerMeta,
    ClusterMeta, GroupMeta, PartitionMeta, TopicMeta,
};
use stryke_kafka::resource::ResourceSpecifier;

fn obj(members: Vec<(&str, Json)>) -> Json {
    Json::Object(members.into_iter().map(|(k, v)| (k.to_string(), v)).collect())
}

fn text(s: &str) -> Json {
    Json::str(s)
}

fn texts(list: &[&str]) -> Json {
    Json::Array(list.iter().map(|s| Json::str(s)).collect())
}

fn numbers(list: &[i128]) -> Json {
    Json::Array(list.iter().map(|n| Json::Int(*n)).collect())
}

fn partition(id: i32, error: Option<&str>) -> PartitionMeta {
    PartitionMeta {
        id,
        leader: 1,
        replicas: vec![1, 2],
        isr: vec![1],
        error: error.map(String::from),
    }
}

fn cluster() -> ClusterMeta {
    ClusterMeta {
        brokers: vec![
            BrokerMeta { id: 1, host: "h1".into(), port: 9092 },
            BrokerMeta { id: 2, host: "h2".into(), port: 9093 },
        ],
        origin: 2,
        topics: vec![
            TopicMeta { name: "a".into(), partitions: vec![partition(0, None)], error: None },
            TopicMeta {
                name: "b".into(),
                partitions: vec![partition(4, None), partition(2, Some("Lost"))],
                error: Some("Odd".into()),
            },
        ],
    }
}

fn brokers() -> Json {
    Json::Array(vec![
        obj(vec![("id", Json::Int(1)), ("host", text("h1")), ("port", Json::Int(9092))]),
        obj(vec![("id", Json::Int(2)), ("host", text("h2")), ("port", Json::Int(9093))]),
    ])
}

// ---- metadata ----

#[test]
fn a_cluster_tells_of_its_brokers() {
    let c = cluster();
    assert_eq!(
        ping_reply(&c),
        obj(vec![("ok", Json::Bool(true)), ("broker_count", Json::Int(2))])
    );
    assert_eq!(ping_line(&c), "ok brokers=2 topics=2");
    assert_eq!(
        cluster_reply(&c),
        obj(vec![("brokers", brokers()), ("topic_count", Json::Int(2))])
    );
    assert_eq!(
        cluster_line(&c),
        obj(vec![
            ("broker_count", Json::Int(2)),
            ("controller_id", Json::Int(2)),
            ("brokers", brokers()),
            ("topic_count", Json::Int(2)),
        ])
    );
}

#[test]
fn a_cluster_tells_of_its_topics() {
    let c = cluster();
    assert_eq!(topics_reply(&c), obj(vec![("topics", texts(&["a", "b"]))]));
    assert_eq!(
        topic_line(&c.topics[1]),
        obj(vec![("name", text("b")), ("partitions", Json::Int(2)), ("error", text("Odd"))])
    );
    assert_eq!(topic_line(&c.topics[0]).get("error"), Some(&Json::Null));
    assert_eq!(topic_partition_ids(&c, "b").unwrap(), vec![4, 2]);
    assert_eq!(topic_partition_ids(&c, "c").unwrap_err().message, "topic `c` not found");
    assert_eq!(
        all_partition_ids(&c),
        vec![("a".to_string(), vec![0]), ("b".to_string(), vec![4, 2])]
    );
}

#[test]
fn a_topic_is_described_by_its_partitions() {
    let c = cluster();
    let entry = |id: i128| {
        vec![
            ("id", Json::Int(id)),
            ("leader", Json::Int(1)),
            ("replicas", numbers(&[1, 2])),
            ("isr", numbers(&[1])),
        ]
    };
    assert_eq!(
        describe_reply(&c, "b").unwrap(),
        obj(vec![
            ("topic", text("b")),
            ("partition_count", Json::Int(2)),
            ("partitions", Json::Array(vec![obj(entry(4)), obj(entry(2))])),
        ])
    );
    let mut healthy = entry(4);
    healthy.push(("error", Json::Null));
    let mut lost = entry(2);
    lost.push(("error", text("Lost")));
    assert_eq!(
        describe_line(&c, "b").unwrap(),
        obj(vec![
            ("name", text("b")),
            ("partition_count", Json::Int(2)),
            ("partitions", Json::Array(vec![obj(healthy), obj(lost)])),
        ])
    );
    assert_eq!(describe_reply(&c, "x").unwrap_err().message, "topic `x` not found");
    assert_eq!(describe_line(&c, "").unwrap_err().message, "topic `` not found");
}

#[test]
fn groups_are_told_one_by_one() {
    let g = GroupMeta {
        name: "g".into(),
        state: "Stable".into(),
        protocol: "range".into(),
        protocol_type: "consumer".into(),
        members: 3,
    };
    let shown = || {
        obj(vec![
            ("name", text("g")),
            ("state", text("Stable")),
            ("protocol", text("range")),
            ("protocol_type", text("consumer")),
            ("members", Json::Int(3)),
        ])
    };
    assert_eq!(group_line(&g), shown());
    assert_eq!(groups_reply(&vec![g]), obj(vec![("groups", Json::Array(vec![shown()]))]));
}

// ---- offsets ----

#[test]
fn watermarks_are_counted_and_added_up() {
    let marks = vec![
        Watermark { partition: 0, low: 2, high: 10 },
        Watermark { partition: 1, low: 5, high: 5 },
    ];
    assert!(check_counts_fit(&marks));
    let row = |p: i128, low: i128, high: i128, count: i128| {
        obj(vec![
            ("partition", Json::Int(p)),
            ("low", Json::Int(low)),
            ("high", Json::Int(high)),
            ("count", Json::Int(count)),
        ])
    };
    assert_eq!(
        watermarks_reply("t", &marks),
        obj(vec![
            ("topic", text("t")),
            ("partitions", Json::Array(vec![row(0, 2, 10, 8), row(1, 5, 5, 0)])),
            ("total", Json::Int(8)),
        ])
    );
    assert!(!check_counts_fit(&vec![Watermark { partition: 0, low: -1, high: i64::MAX }]));
    let half = Watermark { partition: 0, low: 0, high: i64::MAX };
    assert!(check_counts_fit(&vec![half]));
    assert!(!check_counts_fit(&vec![half, half]));
    let asked = obj(vec![("topic", text("t")), ("partition", Json::Int(4_294_967_297))]);
    assert_eq!(parse_watermarks_request(&asked).unwrap(), ("t".to_string(), Some(1)));
}

#[test]
fn lag_counts_what_is_yet_to_be_read() {
    let parts = vec![
        Progress { partition: 0, committed: Some(7), high: 10 },
        Progress { partition: 1, committed: None, high: 4 },
        Progress { partition: 2, committed: Some(9), high: 5 },
    ];
    assert!(check_lags_fit(&parts));
    let row = |p: i128, committed: i128, high: i128, lag: i128| {
        obj(vec![
            ("partition", Json::Int(p)),
            ("committed", Json::Int(committed)),
            ("high", Json::Int(high)),
            ("lag", Json::Int(lag)),
        ])
    };
    assert_eq!(
        lag_reply("g", "t", &parts),
        obj(vec![
            ("group", text("g")),
            ("topic", text("t")),
            ("partitions", Json::Array(vec![row(0, 7, 10, 3), row(1, 0, 4, 4), row(2, 9, 5, 0)])),
            ("total_lag", Json::Int(7)),
        ])
    );
    assert!(!check_lags_fit(&vec![Progress { partition: 0, committed: Some(-1), high: i64::MAX }]));
    assert_eq!(
        parse_lag_request(&obj(vec![("group", text("g"))])).unwrap_err().message,
        "missing topic (lag is reported per topic)"
    );
}

#[test]
fn lag_is_told_line_by_line() {
    let mut lag = GroupLag { group: "g".into(), total: 0 };
    assert_eq!(
        lag.nothing(),
        obj(vec![("group", text("g")), ("topics", Json::Array(vec![]))])
    );
    assert!(lag.can_take(None, 2, 10));
    assert_eq!(
        lag.row("t", 0, None, 2, 10),
        obj(vec![
            ("group", text("g")),
            ("topic", text("t")),
            ("partition", Json::Int(0)),
            ("committed", Json::Int(-1)),
            ("low_watermark", Json::Int(2)),
            ("high_watermark", Json::Int(10)),
            ("lag", Json::Int(8)),
        ])
    );
    assert_eq!(lag.row("t", 1, Some(7), 2, 10).signed("lag"), Some(3));
    assert_eq!(lag.row("t", 2, Some(11), 2, 10).signed("lag"), Some(0));
    assert_eq!(lag.summary(), obj(vec![("group", text("g")), ("total_lag", Json::Int(11))]));
    assert!(!lag.can_take(None, 0, i64::MAX));
}

#[test]
fn the_last_line_adds_up_the_lags() {
    let mut lag = GroupLag { group: "g".into(), total: 0 };
    let mut sum: i64 = 0;
    for (committed, low, high) in [(Some(3), 0, 9), (None, 4, 9), (Some(20), 0, 9), (None, 9, 4)] {
        sum += lag.row("t", 0, committed, low, high).signed("lag").unwrap();
    }
    assert_eq!(sum, 6);
    assert_eq!(lag.summary().signed("total_lag"), Some(sum));
}

#[test]
fn both_ways_of_telling_lag_agree() {
    for (committed, low, high) in [(Some(0), 3, 9), (Some(5), 0, 9), (Some(12), 1, 9), (None, 0, 9)] {
        let mut told = GroupLag { group: "g".into(), total: 0 };
        let row = told.row("t", 0, committed, low, high);
        let reply = lag_reply("g", "t", &vec![Progress { partition: 0, committed, high }]);
        assert_eq!(row.signed("lag"), reply.signed("total_lag"));
    }
}

#[test]
fn offsets_at_a_time() {
    let asked = obj(vec![("topic", text("t")), ("timestamp", Json::Int(99))]);
    assert_eq!(parse_times_request(&asked).unwrap(), ("t".to_string(), 99));
    let mut found = TopicPartitionList::new();
    found.add_partition_offset("t", 0, Offset::Offset(12)).unwrap();
    found.add_partition_offset("t", 1, Offset::End).unwrap();
    assert_eq!(
        times_reply("t", 99, &found),
        obj(vec![
            ("topic", text("t")),
            ("timestamp", Json::Int(99)),
            (
                "partitions",
                Json::Array(vec![
                    obj(vec![("partition", Json::Int(0)), ("offset", Json::Int(12))]),
                    obj(vec![("partition", Json::Int(1)), ("offset", Json::Null)]),
                ])
            ),
        ])
    );
}

// ---- administration ----

#[test]
fn a_topic_to_create_has_one_partition_and_one_replica() {
    let r = NewTopicRequest::request(&obj(vec![("name", text("t"))])).unwrap();
    assert_eq!((r.partitions, r.replication), (1, 1));
    assert!(r.config.is_empty());
    let r = NewTopicRequest::request(&obj(vec![
        ("name", text("t")),
        ("partitions", Json::Int(6)),
        ("replication", Json::Int(-1)),
        ("config", obj(vec![("a", text("1")), ("b", Json::Int(2)), ("c", text("3"))])),
    ]))
    .unwrap();
    assert_eq!((r.partitions, r.replication), (6, -1));
    assert_eq!(
        r.config,
        vec![("a".to_string(), "1".to_string()), ("c".to_string(), "3".to_string())]
    );
    assert_eq!(NewTopicRequest::request(&Json::Null).unwrap_err().message, "missing name");
    let flags: Vec<String> = vec!["a=1".into(), "b".into(), "c=x=y".into()];
    assert_eq!(
        parse_configs(&flags),
        vec![("a".to_string(), "1".to_string()), ("c".to_string(), "x=y".to_string())]
    );
}

#[test]
fn partitions_and_groups_are_asked_for_by_name() {
    let asked = obj(vec![("name", text("t")), ("partitions", Json::Int(8))]);
    assert_eq!(parse_create_partitions(&asked).unwrap(), ("t".to_string(), 8));
    assert_eq!(
        parse_create_partitions(&obj(vec![("name", text("t"))])).unwrap_err().message,
        "missing partitions (new total partition count)"
    );
    assert_eq!(parse_create_partitions(&Json::Null).unwrap_err().message, "missing name");
    let groups = |list: Json| parse_delete_groups(&obj(vec![("groups", list)]));
    let mixed = Json::Array(vec![text("a"), Json::Null, text("b")]);
    assert_eq!(groups(mixed).unwrap(), vec!["a", "b"]);
    assert_eq!(
        groups(Json::Array(vec![Json::Int(1)])).unwrap_err().message,
        "groups must be a non-empty array of group ids"
    );
    assert_eq!(groups(Json::Null).unwrap_err().message, "missing groups (array of group ids)");
}

#[test]
fn results_are_parted_into_successes_and_failures() {
    let results: Vec<Result<String, (String, String)>> =
        vec![Ok("a".into()), Err(("b".into(), "exists".into())), Ok("c".into())];
    assert_eq!(
        part_results(&results),
        (vec!["a".to_string(), "c".to_string()], vec!["b: exists".to_string()])
    );
    let answer = |change: &'static str| {
        obj(vec![(change, texts(&["a", "c"])), ("errors", texts(&["b: exists"]))])
    };
    assert_eq!(create_topic_reply(&results), answer("created"));
    assert_eq!(delete_reply(&results), answer("deleted"));
    assert_eq!(alter_configs_reply(&results), answer("altered"));
    assert_eq!(
        create_partitions_reply("t", &results),
        obj(vec![
            ("topic", text("t")),
            ("altered", texts(&["a", "c"])),
            ("errors", texts(&["b: exists"])),
        ])
    );
    assert_eq!(
        created_line(&results[0]),
        obj(vec![("name", text("a")), ("created", Json::Bool(true))])
    );
    assert_eq!(
        deleted_line(&results[1]),
        obj(vec![("name", text("b")), ("deleted", Json::Bool(false)), ("error", text("exists"))])
    );
}

#[test]
fn configurations_are_described_and_altered() {
    let asked = |entries: Option<Json>| {
        let mut members = vec![("resource_type", text("broker")), ("resource_name", text("3"))];
        if let Some(entries) = entries {
            members.push(("entries", entries));
        }
        obj(members)
    };
    assert_eq!(parse_describe_configs(&asked(None)).unwrap(), ResourceSpecifier::Broker(3));
    assert_eq!(
        parse_alter_configs(&asked(Some(obj(vec![("a", text("1")), ("b", Json::Null)])))).unwrap(),
        (ResourceSpecifier::Broker(3), vec![("a".to_string(), "1".to_string())])
    );
    assert_eq!(
        parse_alter_configs(&asked(None)).unwrap_err().message,
        "missing entries (object of config key => value)"
    );
    let results = vec![
        Ok(ResourceConfig {
            resource: "Broker(3)".into(),
            entries: vec![ConfigEntry {
                name: "n".into(),
                value: None,
                read_only: true,
                is_default: false,
                sensitive: true,
            }],
        }),
        Err("denied".to_string()),
    ];
    assert_eq!(
        describe_configs_reply(&results),
        obj(vec![
            (
                "resources",
                Json::Array(vec![obj(vec![
                    ("resource", text("Broker(3)")),
                    (
                        "entries",
                        Json::Array(vec![obj(vec![
                            ("name", text("n")),
                            ("value", Json::Null),
                            ("read_only", Json::Bool(true)),
                            ("default", Json::Bool(false)),
                            ("sensitive", Json::Bool(true)),
                        ])])
                    ),
                ])])
            ),
            ("errors", texts(&["denied"])),
        ])
    );
}
