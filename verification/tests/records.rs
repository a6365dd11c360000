//! Records to send and messages received.

use rdkafka::message::Headers;
use rdkafka::{Offset, TopicPartitionList};
use stryke_kafka::consume::{
    consumer_topics, group_name, ConsumeArgs, ConsumeEvent, ConsumeRun, ConsumeStep, Follow,
    FollowEvent, FollowStep,
};
use stryke_kafka::headers::{check_headers_fit, headers_to_json};
use stryke_kafka::json::Json;
use stryke_kafka::message::Message;
use stryke_kafka::partitions::{
    are_listable, commit_list, holds_null, list_partitions, list_topics, read_list, seed_partitions,
};
use stryke_kafka::produce::{
    delivered, is_blank, is_sendable, prepare_record, send_record, Batch, BatchEvent, BatchStep,
    ProduceRecord, Stream, StreamEvent, StreamStep,
};

fn obj(members: Vec<(&str, Json)>) -> Json {
    Json::Object(members.into_iter().map(|(k, v)| (k.to_string(), v)).collect())
}

fn text(s: &str) -> Json {
    Json::str(s)
}

fn message(offset: i64, payload: Option<&[u8]>) -> Message {
    Message {
        topic: "t".into(),
        partition: 3,
        offset,
        timestamp: Some(7),
        key: Some(b"k".to_vec()),
        payload: payload.map(|b| b.to_vec()),
        headers: vec![
            ("a".into(), Some(b"1".to_vec())),
            ("n".into(), None),
            ("a".into(), Some(b"2".to_vec())),
        ],
    }
}

fn header_list(record: &ProduceRecord) -> Option<Vec<(String, Vec<u8>)>> {
    record.headers.as_ref().map(|h| {
        (0..h.count())
            .map(|i| (h.get(i).key.to_string(), h.get(i).value.unwrap().to_vec()))
            .collect()
    })
}

fn entries(list: &TopicPartitionList) -> Vec<(String, i32, Offset)> {
    list.elements().iter().map(|e| (e.topic().to_string(), e.partition(), e.offset())).collect()
}

// ---- one record ----

#[test]
fn a_record_is_prepared_as_asked() {
    let opts = obj(vec![
        ("topic", text("t")),
        ("encoding", text("hex")),
        ("value", text("00ff")),
        ("key", text("6b")),
        ("partition", Json::Int(-1)),
        ("timestamp", Json::Int(12)),
        ("headers", obj(vec![("h", text("v")), ("x", Json::Int(1))])),
    ]);
    assert!(is_sendable(&opts));
    let record = prepare_record(&opts).unwrap();
    assert_eq!(record.topic, "t");
    assert_eq!(record.value, vec![0, 255]);
    assert_eq!(record.key, Some(b"k".to_vec()));
    assert_eq!(record.partition, Some(-1));
    assert_eq!(record.timestamp, Some(12));
    assert_eq!(
        header_list(&record),
        Some(vec![("h".into(), b"v".to_vec()), ("x".into(), Vec::new())])
    );
}

#[test]
fn a_record_needs_no_more_than_a_topic() {
    let record = prepare_record(&obj(vec![("topic", text("t"))])).unwrap();
    assert!(record.value.is_empty());
    assert_eq!(record.key, None);
    assert_eq!(record.partition, None);
    assert_eq!(record.timestamp, None);
    assert!(record.headers.is_none());
}

#[test]
fn a_record_that_cannot_be_decoded_is_refused() {
    let opts = |value: &str, key: &str| {
        obj(vec![
            ("topic", text("t")),
            ("encoding", text("base64")),
            ("value", text(value)),
            ("key", text(key)),
        ])
    };
    let refusal = |o: Json| prepare_record(&o).err().unwrap().message;
    assert_eq!(refusal(opts("abc", "!!!!")), "base64 length must be a multiple of 4");
    assert_eq!(refusal(opts("TWFu", "!!!!")), "invalid base64 character");
    // A character cut in two is not sendable; behind a bad value the key does not
    // matter.
    let cut = |value: &str, key: &str| {
        is_sendable(&obj(vec![
            ("topic", text("t")),
            ("encoding", text("hex")),
            ("value", text(value)),
            ("key", text(key)),
        ]))
    };
    assert!(!cut("aéb", "00"));
    assert!(!cut("00", "aéb"));
    assert!(cut("zz", "aéb"));
    assert!(cut("00", "11"));
}

#[test]
fn a_delivery_is_answered() {
    assert_eq!(
        delivered("t", Ok((3, 42))).unwrap(),
        obj(vec![("topic", text("t")), ("partition", Json::Int(3)), ("offset", Json::Int(42))])
    );
    assert_eq!(delivered("t", Err("timed out".into())).unwrap_err().message, "send: timed out");
}

#[test]
fn headers_are_counted_before_they_are_built() {
    assert!(check_headers_fit(&obj(vec![("headers", obj(vec![("a", Json::Null)]))])));
    assert!(check_headers_fit(&Json::Null));
}

// ---- a batch ----

#[test]
fn a_batch_takes_up_row_after_row() {
    let rows = Json::Array(vec![
        obj(vec![("value", text("a")), ("key", text("1"))]),
        obj(vec![("value", text("zz")), ("encoding", text("hex"))]),
        obj(vec![("value", text("62")), ("encoding", text("hex")), ("partition", Json::Int(5))]),
        Json::Null,
    ]);
    let mut batch = Batch::request(obj(vec![("topic", text("t")), ("rows", rows)])).unwrap();
    let mut event = BatchEvent::Ready;
    let mut sent: Vec<(Vec<u8>, Option<i32>)> = Vec::new();
    let answer = loop {
        assert!(batch.is_ready());
        match batch.next(event) {
            BatchStep::Skip(next) => {
                batch = next;
                event = BatchEvent::Ready;
            }
            BatchStep::Send(next, record) => {
                assert_eq!(record.topic, "t");
                event = if sent.len() == 1 {
                    BatchEvent::Failed("broken".into())
                } else {
                    BatchEvent::Delivered
                };
                sent.push((record.value, record.partition));
                batch = next;
            }
            BatchStep::Done(answer) => break answer,
        }
    };
    assert_eq!(sent, vec![(b"a".to_vec(), None), (b"b".to_vec(), Some(5)), (Vec::new(), None)]);
    assert_eq!(
        answer,
        obj(vec![
            ("topic", text("t")),
            ("sent", Json::Int(2)),
            (
                "errors",
                Json::Array(vec![text("invalid hex byte at offset 0"), text("broken")])
            ),
        ])
    );
    assert_eq!(
        Batch::request(obj(vec![])).err().unwrap().message,
        "missing topic"
    );
}

#[test]
fn a_batch_keeps_all_that_was_asked_for() {
    let opts = || {
        obj(vec![
            ("topic", text("t")),
            ("rows", Json::Array(vec![obj(vec![("value", text("a"))])])),
            ("brokers", text("h:1")),
        ])
    };
    let batch = Batch::request(opts()).unwrap();
    assert_eq!(batch.opts, opts());
    match batch.next(BatchEvent::Ready) {
        BatchStep::Send(next, _) => assert_eq!(next.opts, opts()),
        _ => panic!("expected a record"),
    }
}

#[test]
fn a_row_that_cannot_be_cut_is_not_ready() {
    let rows = Json::Array(vec![obj(vec![("value", text("aéb"))])]);
    let opts = obj(vec![("topic", text("t")), ("rows", rows), ("encoding", text("hex"))]);
    assert!(!Batch::request(opts).unwrap().is_ready());
}

// ---- commands ----

#[test]
fn a_single_message_has_headers_only_from_flags_of_that_form() {
    let flags: Vec<String> = vec!["a=1".into(), "oops".into()];
    let record = send_record("t", "v", Some("k"), &flags, Some(2));
    assert_eq!(record.value, b"v");
    assert_eq!(record.key, Some(b"k".to_vec()));
    assert_eq!(record.partition, Some(2));
    assert_eq!(header_list(&record), Some(vec![("a".into(), b"1".to_vec())]));
    let none: Vec<String> = vec!["oops".into()];
    assert!(send_record("t", "v", None, &none, None).headers.is_none());
}

#[test]
fn lines_are_sent_until_the_limit() {
    let stream = |limit: Option<usize>| Stream {
        default_topic: Some("d".into()),
        limit,
        sent: 0,
        last: None,
    };
    assert!(is_blank(" \t"));
    assert!(!is_blank("x"));
    let line = obj(vec![("value", text("v")), ("key", text("")), ("partition", Json::Int(1))]);
    let (next, record) = match stream(Some(1)).next(StreamEvent::Line(line)) {
        StreamStep::Send(next, record) => (next, record),
        _ => panic!("expected a record"),
    };
    assert_eq!(record.topic, "d");
    assert_eq!(record.key, None, "an empty key is none");
    assert_eq!(record.partition, Some(1));
    assert_eq!(header_list(&record), Some(Vec::new()), "headers are always there");
    match next.next(StreamEvent::Delivered("d".into(), 1, 9)) {
        StreamStep::Done(Ok(answer)) => assert_eq!(
            answer,
            obj(vec![
                ("sent", Json::Int(1)),
                (
                    "last",
                    obj(vec![
                        ("topic", text("d")),
                        ("partition", Json::Int(1)),
                        ("offset", Json::Int(9)),
                    ])
                ),
            ])
        ),
        _ => panic!("expected the end"),
    }
    assert!(matches!(
        stream(Some(2)).next(StreamEvent::Delivered("d".into(), 1, 9)),
        StreamStep::Read(_)
    ));
    match stream(None).next(StreamEvent::End) {
        StreamStep::Done(Ok(answer)) => {
            assert_eq!(answer, obj(vec![("sent", Json::Int(0)), ("last", Json::Null)]))
        }
        _ => panic!("expected the end"),
    }
}

/// The values sent for lines that are all delivered, and the answer.
fn streamed(limit: Option<usize>, values: &[&str]) -> (Vec<Vec<u8>>, Json) {
    let mut sent = Vec::new();
    let mut lines = values.iter();
    let mut step = Stream { default_topic: Some("d".into()), limit, sent: 0, last: None }.start();
    loop {
        step = match step {
            StreamStep::Read(stream) => match lines.next() {
                Some(v) => stream.next(StreamEvent::Line(obj(vec![("value", text(v))]))),
                None => stream.next(StreamEvent::End),
            },
            StreamStep::Send(stream, record) => {
                sent.push(record.value);
                let offset = sent.len() as i64 + 10;
                stream.next(StreamEvent::Delivered(record.topic, 0, offset))
            }
            StreamStep::Done(answer) => return (sent, answer.unwrap()),
        }
    }
}

#[test]
fn as_many_lines_are_sent_as_the_limit_allows() {
    let answer = |sent: i128, offset: i128| {
        let last = obj(vec![
            ("topic", text("d")),
            ("partition", Json::Int(0)),
            ("offset", Json::Int(offset)),
        ]);
        obj(vec![("sent", Json::Int(sent)), ("last", last)])
    };
    let nothing = || obj(vec![("sent", Json::Int(0)), ("last", Json::Null)]);
    let bytes = |s: &str| s.as_bytes().to_vec();
    assert_eq!(streamed(Some(0), &["a", "b"]), (vec![], nothing()));
    assert_eq!(streamed(Some(1), &["a", "b"]), (vec![bytes("a")], answer(1, 11)));
    assert_eq!(streamed(Some(5), &["a", "b"]), (vec![bytes("a"), bytes("b")], answer(2, 12)));
    assert_eq!(streamed(None, &["a", "b"]), (vec![bytes("a"), bytes("b")], answer(2, 12)));
    assert_eq!(streamed(None, &[]), (vec![], nothing()));
}

#[test]
fn no_line_is_sent_beyond_the_limit() {
    let stream = Stream { default_topic: Some("d".into()), limit: Some(0), sent: 0, last: None };
    assert!(matches!(
        stream.next(StreamEvent::Line(obj(vec![("value", text("v"))]))),
        StreamStep::Done(Ok(_))
    ));
}

#[test]
fn a_line_that_is_no_record_ends_it_all() {
    let end = |default_topic: Option<&str>, event: StreamEvent| {
        let stream = Stream {
            default_topic: default_topic.map(String::from),
            limit: None,
            sent: 4,
            last: None,
        };
        match stream.next(event) {
            StreamStep::Done(Err(e)) => e.message,
            _ => panic!("expected an error"),
        }
    };
    assert_eq!(
        end(None, StreamEvent::Line(obj(vec![("value", text("v"))]))),
        "each line needs `topic` or pass --default-topic"
    );
    assert_eq!(
        end(Some("d"), StreamEvent::Line(obj(vec![("value", Json::Int(1))]))),
        "each line needs `value`"
    );
    assert_eq!(end(None, StreamEvent::Failed("gone".into())), "send: gone");
}

// ---- one answer ----

fn run(members: Vec<(&str, Json)>) -> ConsumeRun {
    ConsumeRun::request(&obj(members)).unwrap()
}

#[test]
fn a_run_asks_for_ten_messages_in_five_seconds() {
    let r = run(vec![("topic", text("t"))]);
    assert_eq!(r.topic, "t");
    assert_eq!(r.limit, 10);
    assert_eq!(r.timeout_ms, 5000);
    assert_eq!(r.group, None);
    assert_eq!(r.encoding, "utf8");
    assert!(!r.commit);
    assert_eq!(ConsumeRun::request(&Json::Null).err().unwrap().message, "missing topic");
}

#[test]
fn a_run_shows_messages_up_to_its_limit() {
    let mut state = run(vec![
        ("topic", text("t")),
        ("limit", Json::Int(2)),
        ("encoding", text("hex")),
        ("group", text("g")),
        ("commit", Json::Bool(true)),
    ]);
    state = match state.next(ConsumeEvent::Subscribed) {
        ConsumeStep::Poll(next) => next,
        _ => panic!("expected a poll"),
    };
    state = match state.next(ConsumeEvent::Received(message(1, Some(&[0, 255])))) {
        ConsumeStep::Poll(next) => next,
        _ => panic!("expected a poll"),
    };
    state = match state.next(ConsumeEvent::Received(message(2, None))) {
        ConsumeStep::Commit(next) => next,
        _ => panic!("expected a commit"),
    };
    let answer = match state.next(ConsumeEvent::Committed) {
        ConsumeStep::Done(Ok(answer)) => answer,
        _ => panic!("expected an answer"),
    };
    assert_eq!(answer.flag("committed"), Some(true));
    let messages = answer.items("messages").unwrap();
    assert_eq!(messages.len(), 2);
    assert_eq!(
        messages[0],
        obj(vec![
            ("topic", text("t")),
            ("partition", Json::Int(3)),
            ("offset", Json::Int(1)),
            ("timestamp", Json::Int(7)),
            ("key", text("6b")),
            ("value", text("00ff")),
            ("headers", obj(vec![("a", text("2")), ("n", Json::Null)])),
        ])
    );
    assert_eq!(messages[1].get("value"), Some(&Json::Null));
}

#[test]
fn what_is_produced_is_consumed() {
    for (encoding, value, key) in
        [("utf8", "héllo", "clé"), ("base64", "TWFu", "TQ=="), ("hex", "00ff", "aa")]
    {
        let opts = obj(vec![
            ("topic", text("t")),
            ("encoding", text(encoding)),
            ("value", text(value)),
            ("key", text(key)),
        ]);
        let record = prepare_record(&opts).unwrap();
        let received = Message { key: record.key, ..message(1, Some(&record.value)) };
        let r = run(vec![("topic", text("t")), ("encoding", text(encoding)), ("limit", Json::Int(1))]);
        match r.next(ConsumeEvent::Received(received)) {
            ConsumeStep::Done(Ok(answer)) => {
                let shown = &answer.items("messages").unwrap()[0];
                assert_eq!(shown.text("value"), Some(value));
                assert_eq!(shown.text("key"), Some(key));
            }
            _ => panic!("expected an answer"),
        }
    }
}

#[test]
fn nothing_is_committed_without_a_group_or_a_message() {
    let with_commit = |group: bool| {
        let mut members = vec![("topic", text("t")), ("commit", Json::Bool(true))];
        if group {
            members.push(("group", text("g")));
        }
        run(members)
    };
    let end = |r: ConsumeRun, event: ConsumeEvent| match r.next(event) {
        ConsumeStep::Done(Ok(answer)) => answer.flag("committed").unwrap(),
        _ => panic!("expected an answer"),
    };
    let received = match with_commit(false).next(ConsumeEvent::Received(message(1, None))) {
        ConsumeStep::Poll(next) => next,
        _ => panic!("expected a poll"),
    };
    assert!(!end(received, ConsumeEvent::TimeUp));
    assert!(end(with_commit(true), ConsumeEvent::Quiet), "asked for, with nothing to commit");
    let none = run(vec![("topic", text("t")), ("limit", Json::Int(0))]);
    assert!(!end(none, ConsumeEvent::Subscribed));
}

#[test]
fn a_run_fails_with_a_reason() {
    let end = |event: ConsumeEvent| match run(vec![("topic", text("t"))]).next(event) {
        ConsumeStep::Done(Err(e)) => e.message,
        _ => panic!("expected an error"),
    };
    assert_eq!(end(ConsumeEvent::PollFailed("lost".into())), "consumer error: lost");
    assert_eq!(end(ConsumeEvent::CommitFailed), "committing consumer offsets");
}

// ---- line by line ----

fn follow(value_mode: &str, commit: bool, max: Option<usize>) -> Follow {
    Follow {
        args: ConsumeArgs {
            topics: "t".into(),
            group: None,
            offset_reset: "latest".into(),
            max,
            idle_ms: 100,
            value_mode: value_mode.into(),
            commit,
        },
        count: 0,
    }
}

fn shown(mode: &str, payload: Option<&[u8]>, parsed: Option<Json>) -> Json {
    let mut f = follow(mode, false, None);
    let m = message(1, payload);
    assert!(f.args.can_show(&m));
    match f.next(FollowEvent::Received(m, parsed)) {
        FollowStep::Emit { line, commit, last } => {
            assert!(commit.is_none());
            assert!(!last);
            assert_eq!(f.count, 1);
            line
        }
        _ => panic!("expected a line"),
    }
}

#[test]
fn values_are_shown_by_their_mode() {
    let bytes: &[u8] = &[0xfb, 0xff, 0x01, b'x'];
    assert_eq!(shown("binary", Some(bytes), None).text("value"), Some("base64:+/8BeA=="));
    assert_eq!(shown("text", Some(b"hi"), None).text("value"), Some("hi"));
    assert_eq!(shown("json", Some(b"1"), Some(Json::Int(1))).get("value"), Some(&Json::Int(1)));
    assert_eq!(shown("json", Some(b"{"), None).text("value"), Some("{"));
    assert_eq!(shown("text", Some(b"1"), Some(Json::Int(1))).text("value"), Some("1"));
    for mode in ["binary", "json", "text", "else"] {
        assert_eq!(shown(mode, None, None).get("value"), Some(&Json::Null));
    }
    let line = shown("text", Some(b"\xff"), None);
    assert_eq!(line.text("value"), Some("\u{fffd}"));
    assert_eq!(line.text("key"), Some("k"));
    assert_eq!(line.get("headers"), Some(&obj(vec![("a", text("2")), ("n", text(""))])));
}

#[test]
fn following_stops_when_idle_or_when_it_has_enough() {
    let mut f = follow("text", false, Some(2));
    assert!(matches!(f.next(FollowEvent::Quiet(99)), FollowStep::Poll));
    assert!(matches!(f.next(FollowEvent::Quiet(100)), FollowStep::Stop));
    match f.next(FollowEvent::PollFailed("lost".into())) {
        FollowStep::Warn(w) => assert_eq!(w, "stryke-kafka-helper: poll error: lost"),
        _ => panic!("expected a warning"),
    }
    for want in [false, true] {
        match f.next(FollowEvent::Received(message(1, None), None)) {
            FollowStep::Emit { last, .. } => assert_eq!(last, want),
            _ => panic!("expected a line"),
        }
    }
}

/// The offsets of the messages shown for a row of events.
fn offsets_shown(mut f: Follow, events: Vec<FollowEvent>) -> Vec<i64> {
    let mut offsets = Vec::new();
    if matches!(f.start(), FollowStep::Stop) {
        return offsets;
    }
    for event in events {
        match f.next(event) {
            FollowStep::Emit { line, last, .. } => {
                offsets.push(line.signed("offset").unwrap());
                if last {
                    break;
                }
            }
            FollowStep::Stop => break,
            _ => {}
        }
    }
    offsets
}

#[test]
fn as_many_messages_are_shown_as_asked_for() {
    let events = || {
        vec![
            FollowEvent::Received(message(5, None), None),
            FollowEvent::PollFailed("lost".into()),
            FollowEvent::Received(message(7, None), None),
            FollowEvent::Quiet(99),
            FollowEvent::Received(message(6, None), None),
            FollowEvent::Quiet(100),
            FollowEvent::Received(message(8, None), None),
        ]
    };
    assert_eq!(offsets_shown(follow("text", false, Some(0)), events()), Vec::<i64>::new());
    assert_eq!(offsets_shown(follow("text", false, Some(2)), events()), vec![5, 7]);
    assert_eq!(offsets_shown(follow("text", false, Some(9)), events()), vec![5, 7, 6]);
    assert_eq!(offsets_shown(follow("text", false, None), events()), vec![5, 7, 6]);
}

#[test]
fn no_message_is_shown_beyond_the_last() {
    let mut none = follow("text", false, Some(0));
    assert!(matches!(none.start(), FollowStep::Stop));
    assert!(matches!(
        none.next(FollowEvent::Received(message(1, None), None)),
        FollowStep::Stop
    ));
    assert_eq!(none.count, 0);
    assert!(matches!(follow("text", false, Some(1)).start(), FollowStep::Poll));
}

#[test]
fn a_message_is_committed_with_the_offset_behind_it() {
    let mut f = follow("text", true, None);
    match f.next(FollowEvent::Received(message(41, None), None)) {
        FollowStep::Emit { commit: Some(Ok(list)), .. } => {
            assert_eq!(entries(&list), vec![("t".to_string(), 3, Offset::Offset(42))]);
        }
        _ => panic!("expected a commit"),
    }
    assert!(!f.args.can_show(&message(i64::MAX, None)));
    let refused = commit_list("t", 3, -9).err().unwrap().message;
    let mut list = TopicPartitionList::new();
    let error = list.add_partition_offset("t", 3, Offset::Offset(-8)).unwrap_err();
    assert_eq!(refused, error.to_string());
}

#[test]
fn topics_and_groups_to_follow() {
    assert_eq!(consumer_topics("a, b,,").unwrap(), vec!["a", "b"]);
    assert_eq!(consumer_topics(" , ").unwrap_err().message, "at least one topic required");
    assert_eq!(group_name(&Some("g".into()), "1f"), "g");
    assert_eq!(group_name(&None, "1f"), "stryke-kafka-1f");
    let mut args = follow("text", false, None).args;
    assert!(args.group_or_new().starts_with("stryke-kafka-"));
    args.group = Some("g".into());
    assert_eq!(args.group_or_new(), "g");
}

// ---- lists of partitions ----

#[test]
fn partitions_are_listed_with_and_without_offsets() {
    let parts = vec![2, 0, 2];
    assert_eq!(
        entries(&list_partitions("t", &parts)),
        vec![
            ("t".to_string(), 2, Offset::Invalid),
            ("t".to_string(), 0, Offset::Invalid),
            ("t".to_string(), 2, Offset::Invalid),
        ]
    );
    // The first entry for a partition is the one that is set.
    assert_eq!(
        entries(&seed_partitions("t", &parts, 5).unwrap()),
        vec![
            ("t".to_string(), 2, Offset::Offset(5)),
            ("t".to_string(), 0, Offset::Offset(5)),
            ("t".to_string(), 2, Offset::Invalid),
        ]
    );
    assert_eq!(
        seed_partitions("t", &parts, -1).err().unwrap().message,
        "seeding offsets_for_times request"
    );
    assert_eq!(seed_partitions("t", &vec![], -1).unwrap().count(), 0);
    let topics = vec![("a".to_string(), vec![1]), ("b".to_string(), vec![]), ("c".to_string(), vec![0, 1])];
    assert!(are_listable(&topics));
    let list = list_topics(&topics).unwrap();
    assert_eq!(list.count(), 3);
    assert_eq!(
        entries(&list),
        vec![
            ("a".to_string(), 1, Offset::Invalid),
            ("c".to_string(), 0, Offset::Invalid),
            ("c".to_string(), 1, Offset::Invalid),
        ]
    );
    assert!(list_topics(&vec![("b".to_string(), vec![])]).is_none());
    assert!(!are_listable(&vec![("a\0".to_string(), vec![])]));
    let mut answered = list_partitions("t", &vec![0, 1, 2]);
    answered.set_partition_offset("t", 0, Offset::Offset(4)).unwrap();
    answered.set_partition_offset("t", 1, Offset::Beginning).unwrap();
    assert_eq!(
        read_list(&answered),
        vec![("t".to_string(), 0, Some(4)), ("t".to_string(), 1, None), ("t".to_string(), 2, None)]
    );
    assert!(holds_null("a\0b"));
    assert!(!holds_null("ab"));
}

#[test]
fn headers_of_a_message_are_shown_once_each() {
    let headers = message(0, None).headers;
    assert_eq!(
        headers_to_json(&headers, false),
        obj(vec![("a", text("2")), ("n", Json::Null)])
    );
    assert_eq!(headers_to_json(&vec![], true), obj(vec![]));
}
