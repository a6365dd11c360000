//! Consuming: draining a topic for one answer, and following topics line by line.

use rdkafka::TopicPartitionList;
use std::time::{Duration, SystemTime, SystemTimeError};
use vstd::prelude::*;
use vstd::string::*;

use crate::codec::{
    base64_text, binary_encoding, decode_lossy, encode_field, field_bytes, field_text,
    law_field_round_trip, law_text_round_trip, lossy_text, standard_base64, text_encoding,
};
use crate::config::duration_nanos;
use crate::error::OpError;
use crate::headers::{headers_to_json, shown_headers};
use crate::json::{group_members, lookup, views, Json, JsonView};
use crate::message::{law_message_shown, show_message, shown_message, Message};
use crate::number::{lower_hex, to_lower_hex};
use crate::partitions::{commit_list, holds_null, listed, refused_offset};
use crate::produce::{asked_encoding, asked_value, opt_bytes, produce_request, RecordView};
use crate::text::{comma_items, concat2, opt_text, owned, split_commas, str_eq, texts};

verus! {

// ---- one answer ----

/// A topic being drained: what was asked for, and the messages so far.
pub struct ConsumeRun {
    pub topic: String,
    /// How many messages to stop at.
    pub limit: usize,
    /// How long to go on for, in milliseconds.
    pub timeout_ms: u64,
    pub group: Option<String>,
    /// How keys and values are shown.
    pub encoding: String,
    /// Whether to commit the group's offsets in the end.
    pub commit: bool,
    /// The messages received, as they will be shown.
    pub messages: Vec<Json>,
}

/// The model of a topic being drained.
pub struct ConsumeRunView {
    pub topic: Seq<char>,
    pub limit: usize,
    pub timeout_ms: u64,
    pub group: Option<Seq<char>>,
    pub encoding: Seq<char>,
    pub commit: bool,
    pub messages: Seq<JsonView>,
}

impl View for ConsumeRun {
    type V = ConsumeRunView;

    open spec fn view(&self) -> ConsumeRunView {
        ConsumeRunView {
            topic: self.topic@,
            limit: self.limit,
            timeout_ms: self.timeout_ms,
            group: opt_text(self.group),
            encoding: self.encoding@,
            commit: self.commit,
            messages: views(self.messages@),
        }
    }
}

/// What happened to a topic being drained.
pub enum ConsumeEvent {
    /// The consumer has subscribed to the topic.
    Subscribed,
    /// A poll returned a message.
    Received(Message),
    /// A poll returned an error, with this text.
    PollFailed(String),
    /// A poll returned nothing.
    Quiet,
    /// There is no time left for another poll.
    TimeUp,
    /// The offsets were committed.
    Committed,
    /// The offsets were not committed.
    CommitFailed,
}

/// What to do next.
pub enum ConsumeStep {
    /// Poll, for as long as there is time left.
    Poll(ConsumeRun),
    /// Commit the group's offsets.
    Commit(ConsumeRun),
    /// Answer.
    Done(Result<Json, OpError>),
}

/// The model of what to do next.
pub enum ConsumeStepView {
    Poll(ConsumeRunView),
    Commit(ConsumeRunView),
    Done(Result<JsonView, Seq<char>>),
}

impl View for ConsumeStep {
    type V = ConsumeStepView;

    open spec fn view(&self) -> ConsumeStepView {
        match self {
            ConsumeStep::Poll(run) => ConsumeStepView::Poll(run@),
            ConsumeStep::Commit(run) => ConsumeStepView::Commit(run@),
            ConsumeStep::Done(Ok(answer)) => ConsumeStepView::Done(Ok(answer@)),
            ConsumeStep::Done(Err(e)) => ConsumeStepView::Done(Err(e@)),
        }
    }
}

/// What is asked for: ten messages and five seconds where nothing else is said.
pub open spec fn consume_request(opts: JsonView) -> Result<ConsumeRunView, Seq<char>> {
    match opts.text("topic"@) {
        None => Err("missing topic"@),
        Some(topic) => Ok(
            ConsumeRunView {
                topic,
                limit: match opts.unsigned("limit"@) {
                    Some(n) => n as usize,
                    None => 10,
                },
                timeout_ms: match opts.unsigned("timeout_ms"@) {
                    Some(n) => n,
                    None => 5000,
                },
                group: opts.text("group"@),
                encoding: match opts.text("encoding"@) {
                    Some(s) => s,
                    None => "utf8"@,
                },
                commit: opts.flag("commit"@) == Some(true),
                messages: Seq::empty(),
            },
        ),
    }
}

/// A key or value as it is shown, null where there is none.
pub open spec fn shown_field(bytes: Option<Vec<u8>>, encoding: Seq<char>) -> JsonView {
    match bytes {
        Some(b) => JsonView::Str(field_text(b@, encoding)),
        None => JsonView::Null,
    }
}

impl ConsumeRunView {
    /// How this run shows a message.
    pub open spec fn shown(self, message: Message) -> JsonView {
        shown_message(
            message,
            shown_field(message.key, self.encoding),
            shown_field(message.payload, self.encoding),
            JsonView::Object(shown_headers(message.headers@, false)),
        )
    }

    /// Offsets are committed only for a group.
    pub open spec fn commits(self) -> bool {
        self.commit && self.group is Some
    }

    /// The answer: the messages, and whether the offsets are committed.
    pub open spec fn answer(self) -> JsonView {
        JsonView::object().with("messages"@, JsonView::Array(self.messages)).with(
            "committed"@,
            JsonView::Bool(self.commits()),
        )
    }

    /// The end of a run: where there is something to commit, that comes first.
    pub open spec fn drained(self) -> ConsumeStepView {
        if self.commits() && self.messages.len() > 0 {
            ConsumeStepView::Commit(self)
        } else {
            ConsumeStepView::Done(Ok(self.answer()))
        }
    }

    /// The next poll, or the end of the run where the limit is reached.
    pub open spec fn onward(self) -> ConsumeStepView {
        if self.messages.len() < self.limit {
            ConsumeStepView::Poll(self)
        } else {
            self.drained()
        }
    }

    /// What to do after an event.
    pub open spec fn next(self, event: ConsumeEvent) -> ConsumeStepView {
        match event {
            ConsumeEvent::Subscribed => self.onward(),
            ConsumeEvent::Received(message) => ConsumeRunView {
                messages: self.messages.push(self.shown(message)),
                ..self
            }.onward(),
            ConsumeEvent::PollFailed(text) => ConsumeStepView::Done(
                Err("consumer error: "@ + text@),
            ),
            ConsumeEvent::Quiet => self.drained(),
            ConsumeEvent::TimeUp => self.drained(),
            ConsumeEvent::Committed => ConsumeStepView::Done(Ok(self.answer())),
            ConsumeEvent::CommitFailed => ConsumeStepView::Done(
                Err("committing consumer offsets"@),
            ),
        }
    }
}

fn show_field(bytes: &Option<Vec<u8>>, encoding: &str) -> (r: Json)
    ensures
        r@ == shown_field(*bytes, encoding@),
{
    match bytes {
        Some(b) => Json::Str(encode_field(b.as_slice(), encoding)),
        None => Json::Null,
    }
}

impl ConsumeRun {
    /// Reads what is asked for.
    pub fn request(opts: &Json) -> (r: Result<ConsumeRun, OpError>)
        ensures
            match (r, consume_request(opts@)) {
                (Ok(run), Ok(m)) => run@ == m,
                (Err(e), Err(message)) => e@ == message,
                _ => false,
            },
    {
        let topic = match opts.text("topic") {
            Some(topic) => topic.to_owned(),
            None => {
                return Err(OpError::new("missing topic"));
            },
        };
        let limit: usize = match opts.unsigned("limit") {
            Some(n) => n as usize,
            None => 10,
        };
        let timeout_ms: u64 = match opts.unsigned("timeout_ms") {
            Some(n) => n,
            None => 5000,
        };
        let encoding = match opts.text("encoding") {
            Some(s) => s.to_owned(),
            None => "utf8".to_owned(),
        };
        let commit = match opts.flag("commit") {
            Some(b) => b,
            None => false,
        };
        let messages: Vec<Json> = Vec::new();
        assert(views(messages@) =~= Seq::empty());
        Ok(
            ConsumeRun {
                topic,
                limit,
                timeout_ms,
                group: owned(opts.text("group")),
                encoding,
                commit,
                messages,
            },
        )
    }

    fn answer(self) -> (r: Json)
        ensures
            r@ == self@.answer(),
    {
        let committed = self.commit && self.group.is_some();
        Json::object().with("messages", Json::array(self.messages)).with(
            "committed",
            Json::Bool(committed),
        )
    }

    fn drained(self) -> (r: ConsumeStep)
        ensures
            r@ == self@.drained(),
    {
        assert(views(self.messages@).len() == self.messages@.len());
        if self.commit && self.group.is_some() && self.messages.len() > 0 {
            ConsumeStep::Commit(self)
        } else {
            ConsumeStep::Done(Ok(self.answer()))
        }
    }

    fn onward(self) -> (r: ConsumeStep)
        ensures
            r@ == self@.onward(),
    {
        assert(views(self.messages@).len() == self.messages@.len());
        if self.messages.len() < self.limit {
            ConsumeStep::Poll(self)
        } else {
            self.drained()
        }
    }

    /// Decides what to do after an event.
    pub fn next(self, event: ConsumeEvent) -> (r: ConsumeStep)
        ensures
            r@ == self@.next(event),
    {
        match event {
            ConsumeEvent::Subscribed => self.onward(),
            ConsumeEvent::Received(message) => {
                let mut run = self;
                let encoding = run.encoding.as_str();
                let shown = show_message(
                    &message,
                    show_field(&message.key, encoding),
                    show_field(&message.payload, encoding),
                    headers_to_json(&message.headers, false),
                );
                proof {
                    assert(views(run.messages@.push(shown)) =~= views(run.messages@).push(shown@));
                }
                run.messages.push(shown);
                run.onward()
            },
            ConsumeEvent::PollFailed(text) => ConsumeStep::Done(
                Err(OpError { message: concat2("consumer error: ", text.as_str()) }),
            ),
            ConsumeEvent::Quiet => self.drained(),
            ConsumeEvent::TimeUp => self.drained(),
            ConsumeEvent::Committed => ConsumeStep::Done(Ok(self.answer())),
            ConsumeEvent::CommitFailed => ConsumeStep::Done(
                Err(OpError::new("committing consumer offsets")),
            ),
        }
    }
}

/// What to do once a topic is subscribed to and messages have come in, one poll
/// after the other.
pub open spec fn after_messages(run: ConsumeRunView, messages: Seq<Message>) -> ConsumeStepView
    decreases messages.len(),
{
    if messages.len() == 0 {
        run.next(ConsumeEvent::Subscribed)
    } else {
        match after_messages(run, messages.drop_last()) {
            ConsumeStepView::Poll(next) => next.next(ConsumeEvent::Received(messages.last())),
            other => other,
        }
    }
}

/// A run shows the messages in the order in which they came, and polls until it
/// has as many as its limit and no more.
pub proof fn law_consume_collects(run: ConsumeRunView, messages: Seq<Message>)
    requires
        run.messages.len() == 0,
    ensures
        after_messages(run, messages) == if messages.len() < run.limit {
            ConsumeStepView::Poll(
                ConsumeRunView { messages: messages.map_values(|m: Message| run.shown(m)), ..run },
            )
        } else {
            ConsumeRunView {
                messages: messages.take(run.limit as int).map_values(|m: Message| run.shown(m)),
                ..run
            }.drained()
        },
    decreases messages.len(),
{
    let shown = |m: Message| run.shown(m);
    if messages.len() == 0 {
        assert(run.messages =~= messages.map_values(shown));
        assert(messages.take(0) =~= messages);
    } else {
        let init = messages.drop_last();
        law_consume_collects(run, init);
        if init.len() < run.limit {
            assert(init.map_values(shown).push(run.shown(messages.last())) =~= messages.map_values(
                shown,
            ));
            if messages.len() == run.limit {
                assert(messages.take(run.limit as int) =~= messages);
            }
        } else {
            assert(init.take(run.limit as int) =~= messages.take(run.limit as int));
        }
    }
}

/// Offsets are committed only where that is asked for, with a group, and with at
/// least one message; an answer says so only where it is asked for, with a group.
pub proof fn law_commit_needs_group(run: ConsumeRunView, event: ConsumeEvent)
    ensures
        run.next(event) matches ConsumeStepView::Commit(next) ==> run.commit && run.group is Some
            && next.messages.len() > 0,
        run.next(event) matches ConsumeStepView::Done(Ok(answer)) ==> answer.flag("committed"@)
            == Some(run.commit && run.group is Some),
{
    reveal_with_fuel(lookup, 3);
    reveal_strlit("messages");
    reveal_strlit("committed");
    assert("messages"@[0] == 'm');
    assert("committed"@[0] == 'c');
    if let ConsumeStepView::Done(Ok(answer)) = run.next(event) {
        let members = answer->Object_0;
        assert(members.len() == 2);
        assert(members[0].0 == "messages"@);
        assert(members.skip(1)[0] == members[1]);
    }
}

/// A field shown under the encoding that it was decoded under stands for the same
/// bytes, and is the same text where the encoding carries text.
proof fn lemma_shown_again(value: Seq<char>, encoding: Seq<char>, bytes: Option<Vec<u8>>)
    requires
        field_bytes(value, encoding) is Ok,
        opt_bytes(bytes) == Some(field_bytes(value, encoding)->Ok_0),
    ensures
        shown_field(bytes, encoding) matches JsonView::Str(t) && field_bytes(t, encoding)
            == field_bytes(value, encoding) && (text_encoding(encoding) ==> t == value),
{
    let b = field_bytes(value, encoding)->Ok_0;
    if text_encoding(encoding) {
        law_text_round_trip(value, encoding);
    } else {
        assert(binary_encoding(encoding));
        law_field_round_trip(b, encoding);
    }
}

/// What is produced under an encoding is consumed under it: the value and the key
/// shown stand for the bytes that were sent, and are the very texts that were given
/// where the encoding carries text.
pub proof fn law_consumed_is_produced(
    opts: JsonView,
    record: RecordView,
    run: ConsumeRunView,
    message: Message,
)
    requires
        produce_request(opts) == Ok::<RecordView, Seq<char>>(record),
        run.encoding == asked_encoding(opts, "utf8"@),
        opt_bytes(message.payload) == Some(record.value),
        opt_bytes(message.key) == record.key,
    ensures
        shown_field(message.payload, run.encoding) matches JsonView::Str(t) && field_bytes(
            t,
            run.encoding,
        ) == Ok::<Seq<u8>, Seq<char>>(record.value) && (text_encoding(run.encoding) ==> t
            == asked_value(opts)),
        match opts.text("key"@) {
            None => shown_field(message.key, run.encoding) == JsonView::Null,
            Some(k) => shown_field(message.key, run.encoding) matches JsonView::Str(t)
                && field_bytes(t, run.encoding) == field_bytes(k, run.encoding) && (text_encoding(
                run.encoding,
            ) ==> t == k),
        },
{
    lemma_shown_again(asked_value(opts), run.encoding, message.payload);
    if let Some(k) = opts.text("key"@) {
        lemma_shown_again(k, run.encoding, message.key);
    }
}

/// A run is refused exactly where no topic is named by a text. Else it is for that topic,
/// and has the limit, the time, the group and the encoding that the options hold, or ten
/// messages, five seconds, no group and text. It commits where `commit` is true.
pub proof fn law_run_as_asked(opts: JsonView)
    ensures
        match opts.get("topic"@) {
            Some(JsonView::Str(topic)) => consume_request(opts) matches Ok(run) && run.topic == topic,
            _ => consume_request(opts) matches Err(message) && message == "missing topic"@,
        },
        consume_request(opts) matches Ok(run) ==> {
            &&& match opts.get("limit"@) {
                Some(JsonView::Int(n)) if 0 <= n <= u64::MAX => n <= usize::MAX ==> run.limit == n,
                _ => run.limit == 10,
            }
            &&& match opts.get("timeout_ms"@) {
                Some(JsonView::Int(n)) if 0 <= n <= u64::MAX => run.timeout_ms == n,
                _ => run.timeout_ms == 5000,
            }
            &&& match opts.get("group"@) {
                Some(JsonView::Str(group)) => run.group == Some(group),
                _ => run.group is None,
            }
            &&& match opts.get("encoding"@) {
                Some(JsonView::Str(encoding)) => run.encoding == encoding,
                _ => run.encoding == "utf8"@,
            }
            &&& run.commit <==> opts.get("commit"@) == Some(JsonView::Bool(true))
            &&& run.messages.len() == 0
        },
{
}

/// A run asked for with a limit polls on after every smaller number of messages, and ends
/// after that many: then it answers with, or first commits, the messages up to the limit
/// in the order in which they came. Where no limit is asked for, it is ten.
pub proof fn law_run_collects_as_asked(opts: JsonView, limit: int, messages: Seq<Message>)
    requires
        opts.get("topic"@) matches Some(JsonView::Str(_)),
        match opts.get("limit"@) {
            Some(JsonView::Int(n)) if 0 <= n <= u64::MAX => limit == n && n <= usize::MAX,
            _ => limit == 10,
        },
    ensures
        ({
            let run = consume_request(opts)->Ok_0;
            let shown = |n: int| messages.take(n).map_values(|m: Message| run.shown(m));
            match after_messages(run, messages) {
                ConsumeStepView::Poll(next) => messages.len() < limit && next == (ConsumeRunView {
                    messages: shown(messages.len() as int),
                    ..run
                }),
                ConsumeStepView::Commit(next) => messages.len() >= limit > 0 && next == (
                ConsumeRunView { messages: shown(limit), ..run }) && opts.get("commit"@) == Some(
                    JsonView::Bool(true),
                ) && opts.get("group"@) is Some,
                ConsumeStepView::Done(Ok(answer)) => messages.len() >= limit && answer.get(
                    "messages"@,
                ) == Some(JsonView::Array(shown(limit))),
                ConsumeStepView::Done(Err(_)) => false,
            }
        }),
{
    broadcast use group_members;

    let run = consume_request(opts)->Ok_0;
    law_consume_collects(run, messages);
    assert(messages.take(messages.len() as int) =~= messages);
    reveal_strlit("messages");
    reveal_strlit("committed");
    assert("messages"@.len() == 8
        && "committed"@.len() == 9);
}

/// A run that hears nothing or is out of time ends with the messages that it has. It
/// commits first exactly where that is asked for, with a group, and there is a message.
/// An error of a poll or of the commit is the answer.
pub proof fn law_run_ends(run: ConsumeRunView, text: String)
    ensures
        run.next(ConsumeEvent::Quiet) == run.next(ConsumeEvent::TimeUp),
        run.next(ConsumeEvent::Quiet) == (if run.commit && run.group is Some && run.messages.len()
            > 0 {
            ConsumeStepView::Commit(run)
        } else {
            run.next(ConsumeEvent::Committed)
        }),
        run.next(ConsumeEvent::Committed) matches ConsumeStepView::Done(Ok(answer)) && answer.get(
            "messages"@,
        ) == Some(JsonView::Array(run.messages)) && answer.get("committed"@) == Some(
            JsonView::Bool(run.commit && run.group is Some),
        ),
        run.next(ConsumeEvent::PollFailed(text)) == ConsumeStepView::Done(
            Err("consumer error: "@ + text@),
        ),
        run.next(ConsumeEvent::CommitFailed) == ConsumeStepView::Done(
            Err("committing consumer offsets"@),
        ),
{
    broadcast use group_members;

    reveal_strlit("messages");
    reveal_strlit("committed");
    assert("messages"@.len() == 8
        && "committed"@.len() == 9);
}

/// A run shows a message with its own topic, partition, offset and timestamp, with the
/// key and the value under the encoding asked for, null where there is none, and with its
/// headers, null where one has no value.
pub proof fn law_run_shows(run: ConsumeRunView, message: Message)
    ensures
        ({
            let shown = run.shown(message);
            &&& shown.get("topic"@) == Some(JsonView::Str(message.topic@))
            &&& shown.get("partition"@) == Some(JsonView::Int(message.partition as int))
            &&& shown.get("offset"@) == Some(JsonView::Int(message.offset as int))
            &&& shown.get("timestamp"@) == Some(
                match message.timestamp {
                    Some(t) => JsonView::Int(t as int),
                    None => JsonView::Null,
                },
            )
            &&& shown.get("key"@) == Some(
                match message.key {
                    Some(b) => JsonView::Str(field_text(b@, run.encoding)),
                    None => JsonView::Null,
                },
            )
            &&& shown.get("value"@) == Some(
                match message.payload {
                    Some(b) => JsonView::Str(field_text(b@, run.encoding)),
                    None => JsonView::Null,
                },
            )
            &&& shown.get("headers"@) == Some(
                JsonView::Object(shown_headers(message.headers@, false)),
            )
        }),
{
    law_message_shown(
        message,
        shown_field(message.key, run.encoding),
        shown_field(message.payload, run.encoding),
        JsonView::Object(shown_headers(message.headers@, false)),
    );
}

/// The model of a run holds what the run holds.
pub proof fn law_run_model(run: ConsumeRun)
    ensures
        run@.topic == run.topic@,
        run@.limit == run.limit,
        run@.timeout_ms == run.timeout_ms,
        run@.group is Some <==> run.group is Some,
        run.group matches Some(g) ==> run@.group == Some(g@),
        run@.encoding == run.encoding@,
        run@.commit == run.commit,
        run@.messages.len() == run.messages@.len(),
        forall|i: int|
            0 <= i < run.messages@.len() ==> #[trigger] run@.messages[i] == run.messages@[i]@,
{
}

/// What a step of a run hands on is what its model says.
pub proof fn law_run_step_model(step: ConsumeStep)
    ensures
        match step {
            ConsumeStep::Poll(run) => step@ == ConsumeStepView::Poll(run@),
            ConsumeStep::Commit(run) => step@ == ConsumeStepView::Commit(run@),
            ConsumeStep::Done(Ok(answer)) => step@ == ConsumeStepView::Done(Ok(answer@)),
            ConsumeStep::Done(Err(e)) => step@ == ConsumeStepView::Done(Err(e.message@)),
        },
{
}

// ---- line by line ----

/// How to follow topics.
#[derive(Debug)]
pub struct ConsumeArgs {
    /// Comma separated topics, at least one.
    pub topics: String,
    /// The consumer group. Without one, a new group is made up.
    pub group: Option<String>,
    /// `earliest` or `latest`.
    pub offset_reset: String,
    /// How many messages to stop after.
    pub max: Option<usize>,
    /// How many milliseconds without a message to stop after.
    pub idle_ms: u64,
    /// How values are shown: as `text`, `binary` (in base64) or `json` (parsed, where
    /// that is possible).
    pub value_mode: String,
    /// Whether to commit the offset of each message.
    pub commit: bool,
}

/// The topics to follow. There must be one.
pub fn consumer_topics(topics: &str) -> (r: Result<Vec<String>, OpError>)
    ensures
        match r {
            Ok(list) => texts(list@) == comma_items(topics@) && list@.len() > 0,
            Err(e) => comma_items(topics@).len() == 0 && e@ == "at least one topic required"@,
        },
{
    let list = split_commas(topics);
    assert(texts(list@).len() == list@.len());
    if list.len() == 0 {
        Err(OpError::new("at least one topic required"))
    } else {
        Ok(list)
    }
}

/// The group to follow topics with: the one given, or one made up from a tag.
pub fn group_name(group: &Option<String>, tag: &str) -> (r: String)
    ensures
        r@ == match *group {
            Some(g) => g@,
            None => "stryke-kafka-"@ + tag@,
        },
{
    match group {
        Some(g) => g.clone(),
        None => concat2("stryke-kafka-", tag),
    }
}

impl ConsumeArgs {
    /// The group to follow topics with: the one given, or one of this moment.
    pub fn group_or_new(&self) -> (r: String)
        ensures
            match self.group {
                Some(g) => r@ == g@,
                None => exists|tag: Seq<char>| #[trigger]
                    names_a_moment(tag) && r@ == "stryke-kafka-"@ + tag,
            },
    {
        match &self.group {
            Some(g) => g.clone(),
            None => group_name(&None, uuid_like().as_str()),
        }
    }
}

/// The value of a message as it is shown: null where there is none; in base64 behind
/// a mark; parsed, where it could be; or as text.
pub open spec fn line_value(
    mode: Seq<char>,
    payload: Option<Vec<u8>>,
    parsed: Option<JsonView>,
) -> JsonView {
    match payload {
        None => JsonView::Null,
        Some(b) => if mode == "binary"@ {
            JsonView::Str("base64:"@ + base64_text(b@))
        } else if mode == "json"@ && parsed is Some {
            parsed.unwrap()
        } else {
            JsonView::Str(lossy_text(b@))
        },
    }
}

/// The model of a value, if there is one.
pub open spec fn opt_json(v: Option<Json>) -> Option<JsonView> {
    match v {
        Some(v) => Some(v@),
        None => None,
    }
}

/// Topics being followed, and how many messages have been shown.
pub struct Follow {
    pub args: ConsumeArgs,
    pub count: usize,
}

/// What happened while topics are followed.
pub enum FollowEvent {
    /// A poll returned nothing, this many milliseconds after the last message.
    Quiet(u128),
    /// A poll returned an error, with this text.
    PollFailed(String),
    /// A poll returned a message. Its value is also given as JSON, where it is JSON.
    Received(Message, Option<Json>),
}

/// What to do next.
pub enum FollowStep {
    /// Poll.
    Poll,
    /// Say that a poll failed, and poll.
    Warn(String),
    /// Show a message; commit an offset, where there is one to commit; then poll, or
    /// stop after the last message.
    Emit { line: Json, commit: Option<Result<TopicPartitionList, OpError>>, last: bool },
    /// Stop.
    Stop,
}

/// The text shown for a key.
pub open spec fn line_key(key: Option<Vec<u8>>) -> JsonView {
    match key {
        Some(b) => JsonView::Str(lossy_text(b@)),
        None => JsonView::Null,
    }
}

impl ConsumeArgs {
    /// The line that shows a message.
    pub open spec fn line(self, message: Message, parsed: Option<JsonView>) -> JsonView {
        shown_message(
            message,
            line_key(message.key),
            line_value(self.value_mode@, message.payload, parsed),
            JsonView::Object(shown_headers(message.headers@, true)),
        )
    }

    /// Whether to stop, when so many messages have been shown.
    pub open spec fn enough(self, count: int) -> bool {
        self.max matches Some(max) && count >= max
    }

    /// A message that can be shown: there is room for its value in base64, and where
    /// its offset is committed, there is one behind it, and the topic's name holds
    /// no null character.
    pub open spec fn shows(self, message: Message) -> bool {
        &&& self.value_mode@ == "binary"@ ==> (message.payload matches Some(b) ==> (b@.len() + 2)
            / 3 * 4 <= isize::MAX)
        &&& self.commit ==> message.offset < i64::MAX && !message.topic@.contains('\0')
    }

    /// Whether a message can be shown.
    pub fn can_show(&self, message: &Message) -> (r: bool)
        ensures
            r == self.shows(*message),
    {
        let fits = match &message.payload {
            Some(b) => b.len() <= (isize::MAX as usize) / 4 * 3,
            None => true,
        };
        (!str_eq(self.value_mode.as_str(), "binary") || fits) && (!self.commit || (message.offset
            < i64::MAX && !holds_null(message.topic.as_str())))
    }
}

/// The model of what to do next; a commit by the entries to commit, or the text of its
/// error.
pub enum FollowStepView {
    Poll,
    Warn(Seq<char>),
    Emit {
        line: JsonView,
        commit: Option<Result<Seq<(Seq<char>, i32, Option<i64>)>, Seq<char>>>,
        last: bool,
    },
    Stop,
}

impl View for FollowStep {
    type V = FollowStepView;

    open spec fn view(&self) -> FollowStepView {
        match self {
            FollowStep::Poll => FollowStepView::Poll,
            FollowStep::Warn(text) => FollowStepView::Warn(text@),
            FollowStep::Emit { line, commit, last } => FollowStepView::Emit {
                line: line@,
                commit: match commit {
                    None => None,
                    Some(Ok(list)) => Some(Ok(listed(*list))),
                    Some(Err(e)) => Some(Err(e@)),
                },
                last: *last,
            },
            FollowStep::Stop => FollowStepView::Stop,
        }
    }
}

impl ConsumeArgs {
    /// What is committed for a message, where that is asked for: the offset behind it.
    /// An offset below -1 is refused.
    pub open spec fn commit_for(self, message: Message) -> Option<
        Result<Seq<(Seq<char>, i32, Option<i64>)>, Seq<char>>,
    > {
        if !self.commit {
            None
        } else if message.offset < -1 {
            Some(Err(refused_offset()))
        } else {
            Some(Ok(seq![(message.topic@, message.partition, Some((message.offset + 1) as i64))]))
        }
    }

    /// What to do before the first poll: there is none, where no message is to be shown.
    pub open spec fn first_step(self, count: int) -> FollowStepView {
        if self.enough(count) {
            FollowStepView::Stop
        } else {
            FollowStepView::Poll
        }
    }

    /// What to do after an event, when so many messages have been shown. No message is
    /// shown beyond the number to stop after.
    pub open spec fn step(self, count: int, event: FollowEvent) -> FollowStepView {
        if self.enough(count) {
            FollowStepView::Stop
        } else {
            match event {
                FollowEvent::Quiet(elapsed) => if elapsed >= self.idle_ms {
                    FollowStepView::Stop
                } else {
                    FollowStepView::Poll
                },
                FollowEvent::PollFailed(text) => FollowStepView::Warn(
                    "stryke-kafka-helper: poll error: "@ + text@,
                ),
                FollowEvent::Received(message, parsed) => FollowStepView::Emit {
                    line: self.line(message, opt_json(parsed)),
                    commit: self.commit_for(message),
                    last: self.enough(count + 1),
                },
            }
        }
    }
}

fn show_value(mode: &str, payload: &Option<Vec<u8>>, parsed: Option<Json>) -> (r: Json)
    requires
        mode@ == "binary"@ ==> (payload matches Some(b) ==> (b@.len() + 2) / 3 * 4 <= isize::MAX),
    ensures
        r@ == line_value(mode@, *payload, opt_json(parsed)),
{
    match payload {
        None => Json::Null,
        Some(b) => {
            if str_eq(mode, "binary") {
                return Json::Str(concat2("base64:", standard_base64(b.as_slice()).as_str()));
            }
            if str_eq(mode, "json") {
                if let Some(v) = parsed {
                    return v;
                }
            }
            Json::Str(decode_lossy(b.as_slice()))
        },
    }
}

impl Follow {
    fn has_enough(&self) -> (r: bool)
        ensures
            r == self.args.enough(self.count as int),
    {
        match self.args.max {
            Some(max) => self.count >= max,
            None => false,
        }
    }

    /// Decides what to do before the first poll.
    pub fn start(&self) -> (r: FollowStep)
        ensures
            r@ == self.args.first_step(self.count as int),
    {
        if self.has_enough() {
            FollowStep::Stop
        } else {
            FollowStep::Poll
        }
    }

    /// Decides what to do after an event.
    pub fn next(&mut self, event: FollowEvent) -> (r: FollowStep)
        requires
            event matches FollowEvent::Received(message, _) ==> old(self).args.enough(
                old(self).count as int,
            ) || old(self).args.shows(message) && old(self).count < usize::MAX,
        ensures
            r@ == old(self).args.step(old(self).count as int, event),
            final(self).args == old(self).args,
            final(self).count == old(self).count + if r is Emit {
                1int
            } else {
                0
            },
    {
        if self.has_enough() {
            return FollowStep::Stop;
        }
        match event {
            FollowEvent::Quiet(elapsed) => {
                if elapsed >= self.args.idle_ms as u128 {
                    FollowStep::Stop
                } else {
                    FollowStep::Poll
                }
            },
            FollowEvent::PollFailed(text) => FollowStep::Warn(
                concat2("stryke-kafka-helper: poll error: ", text.as_str()),
            ),
            FollowEvent::Received(message, parsed) => {
                let key = match &message.key {
                    Some(b) => Json::Str(decode_lossy(b.as_slice())),
                    None => Json::Null,
                };
                let value = show_value(self.args.value_mode.as_str(), &message.payload, parsed);
                let headers = headers_to_json(&message.headers, true);
                let line = show_message(&message, key, value, headers);
                self.count = self.count + 1;
                let commit = if self.args.commit {
                    Some(commit_list(message.topic.as_str(), message.partition, message.offset))
                } else {
                    None
                };
                let last = self.has_enough();
                FollowStep::Emit { line, commit, last }
            },
        }
    }
}

/// The lines shown for a row of events, when so many have been shown: after a line
/// whose commit is refused, or the last one, there are no more.
pub open spec fn lines_from(args: ConsumeArgs, events: Seq<FollowEvent>, count: int) -> Seq<JsonView>
    decreases events.len(),
{
    if events.len() == 0 {
        Seq::empty()
    } else {
        match args.step(count, events[0]) {
            FollowStepView::Stop => Seq::empty(),
            FollowStepView::Emit { line, commit, last } => if last || commit matches Some(Err(_)) {
                seq![line]
            } else {
                seq![line] + lines_from(args, events.skip(1), count + 1)
            },
            _ => lines_from(args, events.skip(1), count),
        }
    }
}

/// The lines shown for a row of events, from the first poll on, if there is one.
pub open spec fn lines_shown(args: ConsumeArgs, events: Seq<FollowEvent>) -> Seq<JsonView> {
    if args.first_step(0) is Stop {
        Seq::empty()
    } else {
        lines_from(args, events, 0)
    }
}

/// A line for each message of a row of events, in the order in which they came, until
/// it was quiet for too long or a commit was refused.
pub open spec fn lines_heard(args: ConsumeArgs, events: Seq<FollowEvent>) -> Seq<JsonView>
    decreases events.len(),
{
    if events.len() == 0 {
        Seq::empty()
    } else {
        match events[0] {
            FollowEvent::Quiet(elapsed) => if elapsed >= args.idle_ms {
                Seq::empty()
            } else {
                lines_heard(args, events.skip(1))
            },
            FollowEvent::PollFailed(_) => lines_heard(args, events.skip(1)),
            FollowEvent::Received(message, parsed) => {
                let line = args.line(message, opt_json(parsed));
                if args.commit && message.offset < -1 {
                    seq![line]
                } else {
                    seq![line] + lines_heard(args, events.skip(1))
                }
            },
        }
    }
}

/// The first lines of a row, up to a number, where there is one.
pub open spec fn up_to(lines: Seq<JsonView>, max: Option<usize>) -> Seq<JsonView> {
    match max {
        Some(max) if max < lines.len() => lines.take(max as int),
        _ => lines,
    }
}

/// As many messages are shown as come in, one line for each and in their order, up to
/// the number to stop after and no further, also where that is none. A poll that fails
/// does not count.
pub proof fn law_follow_stops(args: ConsumeArgs, events: Seq<FollowEvent>)
    ensures
        lines_shown(args, events) == up_to(lines_heard(args, events), args.max),
{
    if args.enough(0) {
        assert(up_to(lines_heard(args, events), args.max) =~= Seq::empty());
    } else {
        lemma_lines_from(args, events, 0);
        if let Some(max) = args.max {
            assert(max - 0 == max);
        }
    }
}

proof fn lemma_lines_from(args: ConsumeArgs, events: Seq<FollowEvent>, count: int)
    requires
        0 <= count,
        !args.enough(count),
    ensures
        lines_from(args, events, count) == match args.max {
            Some(max) if max - count < lines_heard(args, events).len() => lines_heard(
                args,
                events,
            ).take(max - count),
            _ => lines_heard(args, events),
        },
    decreases events.len(),
{
    if events.len() > 0 {
        let rest = events.skip(1);
        match events[0] {
            FollowEvent::Received(message, parsed) => {
                let line = args.line(message, opt_json(parsed));
                let heard = lines_heard(args, rest);
                if args.enough(count + 1) {
                    if let Some(max) = args.max {
                        assert(max - count == 1);
                        assert((seq![line] + heard).take(1) =~= seq![line]);
                        assert(seq![line].take(1) =~= seq![line]);
                        assert(seq![line] + Seq::<JsonView>::empty() =~= seq![line]);
                        if heard.len() == 0 {
                            assert(seq![line] + heard =~= seq![line]);
                        }
                    }
                } else {
                    lemma_lines_from(args, rest, count + 1);
                    if let Some(max) = args.max {
                        if max - count < 1 + heard.len() {
                            assert((seq![line] + heard).take(max - count) =~= seq![line]
                                + heard.take(max - count - 1));
                        }
                    }
                }
            },
            _ => {
                lemma_lines_from(args, rest, count);
            },
        }
    }
}

/// A line shows a message with its own topic, partition, offset and timestamp; its key as
/// text, null where there is none; its value in base64 behind `base64:`, or parsed where
/// that is asked for and possible, or as text, null where there is none; and its headers,
/// the empty text where one has no value.
pub proof fn law_line_shows(args: ConsumeArgs, message: Message, parsed: Option<JsonView>)
    ensures
        ({
            let line = args.line(message, parsed);
            &&& line.get("topic"@) == Some(JsonView::Str(message.topic@))
            &&& line.get("partition"@) == Some(JsonView::Int(message.partition as int))
            &&& line.get("offset"@) == Some(JsonView::Int(message.offset as int))
            &&& line.get("timestamp"@) == Some(
                match message.timestamp {
                    Some(t) => JsonView::Int(t as int),
                    None => JsonView::Null,
                },
            )
            &&& line.get("key"@) == Some(
                match message.key {
                    Some(b) => JsonView::Str(lossy_text(b@)),
                    None => JsonView::Null,
                },
            )
            &&& line.get("value"@) == Some(
                match message.payload {
                    None => JsonView::Null,
                    Some(b) => if args.value_mode@ == "binary"@ {
                        JsonView::Str("base64:"@ + base64_text(b@))
                    } else {
                        match parsed {
                            Some(v) if args.value_mode@ == "json"@ => v,
                            _ => JsonView::Str(lossy_text(b@)),
                        }
                    },
                },
            )
            &&& line.get("headers"@) == Some(
                JsonView::Object(shown_headers(message.headers@, true)),
            )
        }),
{
    law_message_shown(
        message,
        line_key(message.key),
        line_value(args.value_mode@, message.payload, parsed),
        JsonView::Object(shown_headers(message.headers@, true)),
    );
}

/// While topics are followed, a message is shown by its line, and is the last where it
/// makes up the number to stop after. Where that is asked for, the offset behind it is
/// committed for its topic and partition, unless it is refused. A failed poll is told of,
/// and only a silence that is long enough ends it.
pub proof fn law_follow_steps(
    args: ConsumeArgs,
    count: int,
    message: Message,
    parsed: Option<Json>,
    text: String,
    quiet: u128,
)
    requires
        match args.max {
            Some(max) => count < max,
            None => true,
        },
    ensures
        args.step(count, FollowEvent::Received(message, parsed)) matches FollowStepView::Emit {
            line,
            commit,
            last,
        } && line == args.line(
            message,
            match parsed {
                Some(v) => Some(v@),
                None => None,
            },
        ) && last == (args.max matches Some(max) && count + 1 == max) && commit == (
        if !args.commit {
            None
        } else if message.offset < -1 {
            Some(Err::<Seq<(Seq<char>, i32, Option<i64>)>, Seq<char>>(refused_offset()))
        } else {
            Some(
                Ok::<Seq<(Seq<char>, i32, Option<i64>)>, Seq<char>>(
                    seq![(message.topic@, message.partition, Some((message.offset + 1) as i64))],
                ),
            )
        }),
        args.step(count, FollowEvent::PollFailed(text)) == FollowStepView::Warn(
            "stryke-kafka-helper: poll error: "@ + text@,
        ),
        args.step(count, FollowEvent::Quiet(quiet)) == (if quiet >= args.idle_ms {
            FollowStepView::Stop
        } else {
            FollowStepView::Poll
        }),
        args.first_step(count) == FollowStepView::Poll,
{
}

/// Once as many messages are shown as were asked for, nothing more is polled for or shown.
pub proof fn law_follow_ends(args: ConsumeArgs, count: int, event: FollowEvent)
    requires
        args.max matches Some(max) && count >= max,
    ensures
        args.step(count, event) == FollowStepView::Stop,
        args.first_step(count) == FollowStepView::Stop,
{
}

/// What a step hands on is what its model says.
pub proof fn law_follow_step_model(step: FollowStep)
    ensures
        match step {
            FollowStep::Poll => step@ == FollowStepView::Poll,
            FollowStep::Warn(text) => step@ == FollowStepView::Warn(text@),
            FollowStep::Stop => step@ == FollowStepView::Stop,
            FollowStep::Emit { line, commit, last } => step@ matches FollowStepView::Emit {
                line: l,
                commit: c,
                last: e,
            } && l == line@ && e == last && match commit {
                None => c is None,
                Some(Ok(list)) => c == Some(
                    Ok::<Seq<(Seq<char>, i32, Option<i64>)>, Seq<char>>(listed(list)),
                ),
                Some(Err(error)) => c == Some(
                    Err::<Seq<(Seq<char>, i32, Option<i64>)>, Seq<char>>(error.message@),
                ),
            },
        },
{
}

/// Any message can be shown whose value is below 2^29 bytes, or is not to be shown in
/// base64; and, where offsets are committed, whose offset is not the largest and whose
/// topic holds no null character.
pub proof fn law_messages_accepted(args: ConsumeArgs, message: Message)
    requires
        args.value_mode@ == "binary"@ ==> (message.payload matches Some(b) ==> b@.len()
            <= 0x2000_0000),
        args.commit ==> message.offset < i64::MAX && !message.topic@.contains('\0'),
    ensures
        args.shows(message),
{
}

// ---- a name of this moment ----

/// A point in time of the system's clock.
#[verifier::external_type_specification]
#[verifier::external_body]
pub struct ExSystemTime(SystemTime);

/// That one point in time is before another.
#[verifier::external_type_specification]
#[verifier::external_body]
pub struct ExSystemTimeError(SystemTimeError);

/// `SystemTime::now`: what the system's clock says. Nothing is said of it.
pub assume_specification[ SystemTime::now ]() -> SystemTime;

/// The nanoseconds from the start of 1970 to a point in time, if it is not before it.
pub uninterp spec fn unix_nanos(time: SystemTime) -> Option<nat>;

/// `SystemTime::duration_since` the start of 1970, `SystemTime::UNIX_EPOCH`: how far the
/// point in time is behind it, which is an error where it is before it. How long ago the
/// point is, is left to the name.
#[verifier::external_body]
fn since_epoch(time: &SystemTime) -> (r: Result<Duration, SystemTimeError>)
    ensures
        match r {
            Ok(d) => unix_nanos(*time) == Some(duration_nanos(d)),
            Err(_) => unix_nanos(*time) is None,
        },
{
    time.duration_since(SystemTime::UNIX_EPOCH)
}

/// `Duration::as_nanos`: the length of a duration in nanoseconds.
pub assume_specification[ Duration::as_nanos ](duration: &Duration) -> (r: u128)
    ensures
        r == duration_nanos(*duration),
;

/// The name of a moment that is so far behind the start of 1970: the nanoseconds, or
/// zero where it is before it, in base sixteen.
pub fn moment_name(since_epoch: Result<Duration, SystemTimeError>) -> (r: String)
    ensures
        r@ == lower_hex(
            match since_epoch {
                Ok(d) => duration_nanos(d),
                Err(_) => 0,
            },
        ),
        exists|n: u128| r@ == lower_hex(n as nat),
{
    let nanos: u128 = match since_epoch {
        Ok(d) => d.as_nanos(),
        Err(_) => 0,
    };
    to_lower_hex(nanos)
}

/// A text is the name of some moment: of what the clock can say, and of 128 bits.
pub open spec fn names_a_moment(text: Seq<char>) -> bool {
    &&& exists|time: SystemTime|
        text == lower_hex(
            match #[trigger] unix_nanos(time) {
                Some(n) => n,
                None => 0,
            },
        )
    &&& exists|n: u128| text == lower_hex(n as nat)
}

/// The name of this moment.
pub fn uuid_like() -> (r: String)
    ensures
        names_a_moment(r@),
{
    let now = SystemTime::now();
    let name = moment_name(since_epoch(&now));
    proof {
        let nanos = unix_nanos(now);
        assert(name@ == lower_hex(
            match nanos {
                Some(n) => n,
                None => 0,
            },
        ));
    }
    name
}

} // verus!
