//! Producing: records to send, one at a time, in a batch, or line by line.

use rdkafka::message::OwnedHeaders;
use vstd::prelude::*;
use vstd::string::*;
use vstd::utf8::*;

use crate::codec::{
    decode_field, field_bytes, field_cuts_cleanly, field_is_clean, law_ascii_cut_cleanly,
};
use crate::error::{agrees, OpError};
use crate::headers::{
    asked_headers, build_headers, check_headers_fit, flag_headers, header_list, headers_fit,
    headers_of, law_flag_headers, member_headers, parse_headers, MAX_HEADERS,
};
use crate::json::{group_members, member_views, views, Json, JsonView};
use crate::number::{signed32, truncate};
use crate::text::{concat2, opt_text, split_once, texts, trim, trimmed};

verus! {

// ---- records ----

/// A record to send.
pub struct ProduceRecord {
    pub topic: String,
    pub value: Vec<u8>,
    pub key: Option<Vec<u8>>,
    /// The partition, where it is not left to the client library.
    pub partition: Option<i32>,
    /// In milliseconds since the epoch, where it is not left to the client library.
    pub timestamp: Option<i64>,
    pub headers: Option<OwnedHeaders>,
}

/// The model of a record to send.
pub struct RecordView {
    pub topic: Seq<char>,
    pub value: Seq<u8>,
    pub key: Option<Seq<u8>>,
    pub partition: Option<int>,
    pub timestamp: Option<i64>,
    pub headers: Option<Seq<(Seq<char>, Seq<u8>)>>,
}

/// The bytes of a field, if there is one.
pub open spec fn opt_bytes(b: Option<Vec<u8>>) -> Option<Seq<u8>> {
    match b {
        Some(b) => Some(b@),
        None => None,
    }
}

/// A number, if there is one.
pub open spec fn opt_number(n: Option<i32>) -> Option<int> {
    match n {
        Some(n) => Some(n as int),
        None => None,
    }
}

/// The headers of a list, if there is one.
pub open spec fn opt_headers(h: Option<OwnedHeaders>) -> Option<Seq<(Seq<char>, Seq<u8>)>> {
    match h {
        Some(h) => Some(header_list(h)),
        None => None,
    }
}

impl View for ProduceRecord {
    type V = RecordView;

    open spec fn view(&self) -> RecordView {
        RecordView {
            topic: self.topic@,
            value: self.value@,
            key: opt_bytes(self.key),
            partition: opt_number(self.partition),
            timestamp: self.timestamp,
            headers: opt_headers(self.headers),
        }
    }
}

/// The partition asked for, if one is: the lower 32 bits of the number.
pub open spec fn asked_partition(row: JsonView) -> Option<int> {
    match row.signed("partition"@) {
        Some(p) => Some(signed32(p as int)),
        None => None,
    }
}

fn partition_of(row: &Json) -> (r: Option<i32>)
    ensures
        opt_number(r) == asked_partition(row@),
{
    match row.signed("partition") {
        Some(p) => Some(truncate(p)),
        None => None,
    }
}

/// The value asked for, empty where none is.
pub open spec fn asked_value(row: JsonView) -> Seq<char> {
    match row.text("value"@) {
        Some(s) => s,
        None => ""@,
    }
}

/// The encoding asked for, or else another one.
pub open spec fn asked_encoding(row: JsonView, default: Seq<char>) -> Seq<char> {
    match row.text("encoding"@) {
        Some(s) => s,
        None => default,
    }
}

/// The bytes of the key asked for, if one is.
pub open spec fn key_bytes(row: JsonView, encoding: Seq<char>) -> Result<
    Option<Seq<u8>>,
    Seq<char>,
> {
    match row.text("key"@) {
        None => Ok(None),
        Some(k) => match field_bytes(k, encoding) {
            Ok(b) => Ok(Some(b)),
            Err(message) => Err(message),
        },
    }
}

/// The record asked for: the value is decoded before the key.
pub open spec fn asked_record(
    topic: Seq<char>,
    row: JsonView,
    encoding: Seq<char>,
    timestamp: Option<i64>,
) -> Result<RecordView, Seq<char>> {
    match (field_bytes(asked_value(row), encoding), key_bytes(row, encoding)) {
        (Err(message), _) => Err(message),
        (Ok(_), Err(message)) => Err(message),
        (Ok(value), Ok(key)) => Ok(
            RecordView {
                topic,
                value,
                key,
                partition: asked_partition(row),
                timestamp,
                headers: asked_headers(row),
            },
        ),
    }
}

/// A record that can be prepared: neither the value nor, behind a value that can be
/// decoded, the key is cut within a character, and there are not too many headers.
pub open spec fn preparable(row: JsonView, encoding: Seq<char>) -> bool {
    &&& field_cuts_cleanly(asked_value(row), encoding)
    &&& field_bytes(asked_value(row), encoding) is Ok ==> (row.text("key"@) matches Some(k)
        ==> field_cuts_cleanly(k, encoding))
    &&& headers_fit(row)
}

/// Whether a record can be prepared.
pub fn is_preparable(row: &Json, encoding: &str) -> (r: bool)
    ensures
        r == preparable(row@, encoding@),
{
    let value = match row.text("value") {
        Some(s) => s,
        None => "",
    };
    if !field_is_clean(value, encoding) || !check_headers_fit(row) {
        return false;
    }
    match (decode_field(value, encoding), row.text("key")) {
        (Ok(_), Some(k)) => field_is_clean(k, encoding),
        _ => true,
    }
}

fn prepare(topic: &str, row: &Json, encoding: &str, timestamp: Option<i64>) -> (r: Result<
    ProduceRecord,
    OpError,
>)
    requires
        preparable(row@, encoding@),
    ensures
        agrees(r, asked_record(topic@, row@, encoding@, timestamp)),
{
    let text = match row.text("value") {
        Some(s) => s,
        None => "",
    };
    let value = match decode_field(text, encoding) {
        Ok(value) => value,
        Err(e) => {
            return Err(e);
        },
    };
    let key = match row.text("key") {
        None => None,
        Some(k) => match decode_field(k, encoding) {
            Ok(b) => Some(b),
            Err(e) => {
                return Err(e);
            },
        },
    };
    Ok(
        ProduceRecord {
            topic: topic.to_owned(),
            value,
            key,
            partition: partition_of(row),
            timestamp,
            headers: build_headers(row),
        },
    )
}

// ---- one record ----

/// The record that the options ask for.
pub open spec fn produce_request(opts: JsonView) -> Result<RecordView, Seq<char>> {
    match opts.text("topic"@) {
        None => Err("missing topic"@),
        Some(topic) => asked_record(
            topic,
            opts,
            asked_encoding(opts, "utf8"@),
            opts.signed("timestamp"@),
        ),
    }
}

/// The record that the options ask for can be prepared, if they ask for one.
pub open spec fn sendable(opts: JsonView) -> bool {
    opts.text("topic"@) is Some ==> preparable(opts, asked_encoding(opts, "utf8"@))
}

fn encoding_of<'a>(opts: &'a Json, default: &'a str) -> (r: &'a str)
    ensures
        r@ == asked_encoding(opts@, default@),
{
    match opts.text("encoding") {
        Some(s) => s,
        None => default,
    }
}

/// Whether the record that the options ask for can be prepared.
pub fn is_sendable(opts: &Json) -> (r: bool)
    ensures
        r == sendable(opts@),
{
    opts.text("topic").is_none() || is_preparable(opts, encoding_of(opts, "utf8"))
}

/// Prepares the record that the options ask for.
pub fn prepare_record(opts: &Json) -> (r: Result<ProduceRecord, OpError>)
    requires
        sendable(opts@),
    ensures
        agrees(r, produce_request(opts@)),
{
    match opts.text("topic") {
        None => Err(OpError::new("missing topic")),
        Some(topic) => prepare(topic, opts, encoding_of(opts, "utf8"), opts.signed("timestamp")),
    }
}

/// Where a record went: its topic, its partition and its offset.
pub open spec fn delivery_json(topic: Seq<char>, partition: i32, offset: i64) -> JsonView {
    JsonView::object().with("topic"@, JsonView::Str(topic)).with(
        "partition"@,
        JsonView::Int(partition as int),
    ).with("offset"@, JsonView::Int(offset as int))
}

fn show_delivery(topic: &str, partition: i32, offset: i64) -> (r: Json)
    ensures
        r@ == delivery_json(topic@, partition, offset),
{
    Json::object().with("topic", Json::str(topic)).with(
        "partition",
        Json::Int(partition as i128),
    ).with("offset", Json::Int(offset as i128))
}

/// What is answered once a record was sent: where it went, or why it was not delivered.
pub open spec fn delivery_answer(topic: Seq<char>, delivery: Result<(i32, i64), String>) -> Result<
    JsonView,
    Seq<char>,
> {
    match delivery {
        Ok((partition, offset)) => Ok(delivery_json(topic, partition, offset)),
        Err(text) => Err("send: "@ + text@),
    }
}

/// The answer once a record was sent.
pub fn delivered(topic: &str, delivery: Result<(i32, i64), String>) -> (r: Result<Json, OpError>)
    ensures
        agrees(r, delivery_answer(topic@, delivery)),
        agrees(
            r,
            match delivery {
                Ok((partition, offset)) => Ok(delivery_json(topic@, partition, offset)),
                Err(text) => Err("send: "@ + text@),
            },
        ),
{
    match delivery {
        Ok((partition, offset)) => Ok(show_delivery(topic, partition, offset)),
        Err(text) => Err(OpError { message: concat2("send: ", text.as_str()) }),
    }
}

/// What options or a row ask of a record, whatever its topic: the partition is the number
/// under `partition`, of which 32 bits count; the value and the key are the texts under
/// `value` and `key` as the encoding has them, the value empty and the key missing where
/// there is none; the headers are the members under `headers`. The record has the topic
/// and the timestamp that it is given.
pub proof fn law_record_fields(
    topic: Seq<char>,
    row: JsonView,
    encoding: Seq<char>,
    timestamp: Option<i64>,
)
    ensures
        asked_record(topic, row, encoding, timestamp) matches Ok(record) ==> {
            &&& record.topic == topic
            &&& record.timestamp == timestamp
            &&& match row.get("partition"@) {
                Some(JsonView::Int(n)) if i64::MIN <= n <= i64::MAX => record.partition matches Some(p)
                    && i32::MIN <= p <= i32::MAX && (n - p) % 0x1_0000_0000 == 0,
                _ => record.partition is None,
            }
            &&& field_bytes(
                match row.get("value"@) {
                    Some(JsonView::Str(s)) => s,
                    _ => Seq::empty(),
                },
                encoding,
            ) == Ok::<Seq<u8>, Seq<char>>(record.value)
            &&& match row.get("key"@) {
                Some(JsonView::Str(k)) => record.key matches Some(b) && field_bytes(k, encoding)
                    == Ok::<Seq<u8>, Seq<char>>(b),
                _ => record.key is None,
            }
            &&& match row.get("headers"@) {
                Some(JsonView::Object(members)) if members.len() > 0 => record.headers matches Some(h)
                    && h.len() == members.len() && forall|i: int|
                    0 <= i < h.len() ==> (#[trigger] h[i]).0 == members[i].0 && h[i].1
                        == encode_utf8(
                        match members[i].1 {
                            JsonView::Str(s) => s,
                            _ => Seq::empty(),
                        },
                    ),
                _ => record.headers is None,
            }
        },
{
    reveal_strlit("");
    assert(""@ =~= Seq::<char>::empty());
}

/// What options or a row ask for is refused exactly where the value cannot be decoded, or
/// else the key cannot, for the reason that it cannot.
pub proof fn law_record_refused(
    topic: Seq<char>,
    row: JsonView,
    encoding: Seq<char>,
    timestamp: Option<i64>,
)
    ensures
        ({
            let value = match row.get("value"@) {
                Some(JsonView::Str(s)) => s,
                _ => Seq::empty(),
            };
            match (field_bytes(value, encoding), row.get("key"@)) {
                (Err(message), _) => asked_record(topic, row, encoding, timestamp) == Err::<
                    RecordView,
                    Seq<char>,
                >(message),
                (Ok(_), Some(JsonView::Str(k))) => match field_bytes(k, encoding) {
                    Err(message) => asked_record(topic, row, encoding, timestamp) == Err::<
                        RecordView,
                        Seq<char>,
                    >(message),
                    Ok(_) => asked_record(topic, row, encoding, timestamp) is Ok,
                },
                _ => asked_record(topic, row, encoding, timestamp) is Ok,
            }
        }),
{
    reveal_strlit("");
    assert(""@ =~= Seq::<char>::empty());
}

/// Options are made a record for the topic that they name, with the whole number of 64
/// bits under `timestamp` for a timestamp, or none; under the encoding that they name, or
/// as text. Without the text of a topic they are refused.
pub proof fn law_record_as_asked(opts: JsonView)
    ensures
        match opts.get("topic"@) {
            Some(JsonView::Str(topic)) => {
                let encoding = match opts.get("encoding"@) {
                    Some(JsonView::Str(e)) => e,
                    _ => "utf8"@,
                };
                let timestamp = match opts.get("timestamp"@) {
                    Some(JsonView::Int(n)) if i64::MIN <= n <= i64::MAX => Some(n as i64),
                    _ => None,
                };
                &&& produce_request(opts) == asked_record(topic, opts, encoding, timestamp)
                &&& produce_request(opts) matches Ok(record) ==> record.topic == topic
                    && record.timestamp == timestamp
            },
            _ => produce_request(opts) == Err::<RecordView, Seq<char>>("missing topic"@),
        },
{
}

/// The model of a record holds what the record holds.
pub proof fn law_record_model(record: ProduceRecord)
    ensures
        record@.topic == record.topic@,
        record@.value == record.value@,
        match record.key {
            Some(b) => record@.key == Some(b@),
            None => record@.key is None,
        },
        match record.partition {
            Some(p) => record@.partition == Some(p as int),
            None => record@.partition is None,
        },
        record@.timestamp == record.timestamp,
        match record.headers {
            Some(h) => record@.headers == Some(header_list(h)),
            None => record@.headers is None,
        },
{
}

/// Where a record went is told by its topic, its partition and its offset.
pub proof fn law_delivery_shown(topic: Seq<char>, partition: i32, offset: i64)
    ensures
        delivery_json(topic, partition, offset).get("topic"@) == Some(JsonView::Str(topic)),
        delivery_json(topic, partition, offset).get("partition"@) == Some(
            JsonView::Int(partition as int),
        ),
        delivery_json(topic, partition, offset).get("offset"@) == Some(
            JsonView::Int(offset as int),
        ),
{
    broadcast use group_members;

    reveal_strlit("topic");
    reveal_strlit("partition");
    reveal_strlit("offset");
    assert("topic"@.len() == 5
        && "partition"@.len() == 9
        && "offset"@.len() == 6);
}

// ---- a batch ----

/// A batch being sent: what was asked for, how many rows were taken up, and what
/// became of them.
pub struct Batch {
    pub opts: Json,
    /// How many rows were taken up.
    pub taken: usize,
    /// How many records were delivered.
    pub sent: usize,
    /// Why the others were not.
    pub errors: Vec<String>,
}

/// The model of a batch being sent.
pub struct BatchView {
    /// All that was asked for.
    pub opts: JsonView,
    pub topic: Seq<char>,
    pub rows: Seq<JsonView>,
    pub encoding: Seq<char>,
    pub taken: nat,
    pub sent: nat,
    pub errors: Seq<Seq<char>>,
}

impl View for Batch {
    type V = BatchView;

    open spec fn view(&self) -> BatchView {
        BatchView {
            opts: self.opts@,
            topic: self.opts@.text("topic"@).unwrap(),
            rows: self.opts@.items("rows"@).unwrap(),
            encoding: asked_encoding(self.opts@, "utf8"@),
            taken: self.taken as nat,
            sent: self.sent as nat,
            errors: texts(self.errors@),
        }
    }
}

/// What happened to a batch.
pub enum BatchEvent {
    /// Nothing is under way.
    Ready,
    /// The record was delivered.
    Delivered,
    /// The record was not delivered, for this reason.
    Failed(String),
}

/// What to do next.
pub enum BatchStep {
    /// Go on: a row could not be made a record.
    Skip(Batch),
    /// Send a record.
    Send(Batch, ProduceRecord),
    /// Answer.
    Done(Json),
}

/// The model of what to do next.
pub enum BatchStepView {
    Skip(BatchView),
    Send(BatchView, RecordView),
    Done(JsonView),
}

impl View for BatchStep {
    type V = BatchStepView;

    open spec fn view(&self) -> BatchStepView {
        match self {
            BatchStep::Skip(batch) => BatchStepView::Skip(batch@),
            BatchStep::Send(batch, record) => BatchStepView::Send(batch@, record@),
            BatchStep::Done(answer) => BatchStepView::Done(answer@),
        }
    }
}

/// The batch asked for.
pub open spec fn batch_request(opts: JsonView) -> Result<BatchView, Seq<char>> {
    match (opts.text("topic"@), opts.items("rows"@)) {
        (None, _) => Err("missing topic"@),
        (Some(_), None) => Err("missing rows (array of {key?, value} objects)"@),
        (Some(topic), Some(rows)) => Ok(
            BatchView {
                opts,
                topic,
                rows,
                encoding: asked_encoding(opts, "utf8"@),
                taken: 0,
                sent: 0,
                errors: Seq::empty(),
            },
        ),
    }
}

impl BatchView {
    /// The encoding of a row: its own, or else the one of the batch.
    pub open spec fn row_encoding(self, i: int) -> Seq<char> {
        asked_encoding(self.rows[i], self.encoding)
    }

    /// The record that a row stands for.
    pub open spec fn row_record(self, i: int) -> Result<RecordView, Seq<char>> {
        asked_record(self.topic, self.rows[i], self.row_encoding(i), None)
    }

    /// The next row, if there is one, can be prepared.
    pub open spec fn ready(self) -> bool {
        self.taken < self.rows.len() ==> preparable(
            self.rows[self.taken as int],
            self.row_encoding(self.taken as int),
        )
    }

    /// Every row taken up was delivered or has an error, but for those under way.
    pub open spec fn accounts(self, under_way: nat) -> bool {
        &&& self.taken <= self.rows.len()
        &&& self.sent + self.errors.len() + under_way == self.taken
    }

    /// The answer: how many records were delivered, and why the others were not.
    pub open spec fn answer(self) -> JsonView {
        JsonView::object().with("topic"@, JsonView::Str(self.topic)).with(
            "sent"@,
            JsonView::Int(self.sent as int),
        ).with("errors"@, JsonView::strings(self.errors))
    }

    /// The batch after an event.
    pub open spec fn after(self, event: BatchEvent) -> BatchView {
        match event {
            BatchEvent::Ready => self,
            BatchEvent::Delivered => BatchView { sent: self.sent + 1, ..self },
            BatchEvent::Failed(text) => BatchView { errors: self.errors.push(text@), ..self },
        }
    }

    /// Takes up the next row: a row that cannot be made a record is skipped with an
    /// error; behind the last one comes the answer.
    pub open spec fn onward(self) -> BatchStepView {
        if self.taken < self.rows.len() {
            match self.row_record(self.taken as int) {
                Ok(record) => BatchStepView::Send(
                    BatchView { taken: self.taken + 1, ..self },
                    record,
                ),
                Err(message) => BatchStepView::Skip(
                    BatchView {
                        taken: self.taken + 1,
                        errors: self.errors.push(message),
                        ..self
                    },
                ),
            }
        } else {
            BatchStepView::Done(self.answer())
        }
    }
}

/// How many records are under way before an event.
pub open spec fn under_way(event: BatchEvent) -> nat {
    if event is Ready {
        0
    } else {
        1
    }
}

impl Batch {
    /// The batch has a topic and rows.
    pub open spec fn is_batch(self) -> bool {
        self.opts@.text("topic"@) is Some && self.opts@.items("rows"@) is Some
    }

    /// Reads which batch is asked for.
    pub fn request(opts: Json) -> (r: Result<Batch, OpError>)
        ensures
            agrees(r, batch_request(opts@)),
            r matches Ok(batch) ==> batch.opts == opts && batch.is_batch() && batch@.accounts(0),
    {
        if opts.text("topic").is_none() {
            return Err(OpError::new("missing topic"));
        }
        if opts.items("rows").is_none() {
            return Err(OpError::new("missing rows (array of {key?, value} objects)"));
        }
        let errors: Vec<String> = Vec::new();
        assert(texts(errors@) =~= Seq::empty());
        Ok(Batch { opts, taken: 0, sent: 0, errors })
    }

    /// Whether the next row, if there is one, can be prepared.
    pub fn is_ready(&self) -> (r: bool)
        requires
            self.is_batch(),
        ensures
            r == self@.ready(),
    {
        match self.opts.items("rows") {
            Some(rows) => {
                assert(self@.rows == views(rows@));
                if self.taken < rows.len() {
                    let row = &rows[self.taken];
                    assert(self@.rows[self.taken as int] == row@);
                    let encoding = encoding_of(row, encoding_of(&self.opts, "utf8"));
                    is_preparable(row, encoding)
                } else {
                    true
                }
            },
            None => true,
        }
    }

    fn take_row(&self) -> (r: Option<Result<ProduceRecord, OpError>>)
        requires
            self.is_batch(),
            self@.ready(),
        ensures
            match r {
                Some(record) => self.taken < usize::MAX && self@.taken < self@.rows.len() && agrees(
                    record,
                    self@.row_record(self.taken as int),
                ),
                None => self@.taken >= self@.rows.len(),
            },
    {
        match (self.opts.items("rows"), self.opts.text("topic")) {
            (Some(rows), Some(topic)) => {
                assert(self@.rows == views(rows@));
                if self.taken < rows.len() {
                    let row = &rows[self.taken];
                    assert(self@.rows[self.taken as int] == row@);
                    let encoding = encoding_of(row, encoding_of(&self.opts, "utf8"));
                    Some(prepare(topic, row, encoding, None))
                } else {
                    None
                }
            },
            _ => None,
        }
    }

    fn answer(&self) -> (r: Json)
        requires
            self.is_batch(),
        ensures
            r@ == self@.answer(),
    {
        let topic = match self.opts.text("topic") {
            Some(topic) => topic,
            None => "",
        };
        Json::object().with("topic", Json::str(topic)).with(
            "sent",
            Json::Int(self.sent as i128),
        ).with("errors", Json::strings(&self.errors))
    }

    /// Decides what to do after an event.
    pub fn next(self, event: BatchEvent) -> (r: BatchStep)
        requires
            self.is_batch(),
            self@.ready(),
            self@.accounts(under_way(event)),
        ensures
            r@ == self@.after(event).onward(),
            match r {
                BatchStep::Skip(batch) => batch.opts == self.opts && batch.is_batch()
                    && batch@.accounts(0),
                BatchStep::Send(batch, _) => batch.opts == self.opts && batch.is_batch()
                    && batch@.accounts(1),
                BatchStep::Done(_) => true,
            },
    {
        let mut batch = self;
        let row = batch.take_row();
        match event {
            BatchEvent::Ready => {},
            BatchEvent::Delivered => {
                batch.sent = batch.sent + 1;
            },
            BatchEvent::Failed(text) => {
                proof {
                    assert(texts(batch.errors@.push(text)) =~= texts(batch.errors@).push(text@));
                }
                batch.errors.push(text);
            },
        }
        match row {
            None => BatchStep::Done(batch.answer()),
            Some(Ok(record)) => {
                batch.taken = batch.taken + 1;
                BatchStep::Send(batch, record)
            },
            Some(Err(e)) => {
                proof {
                    assert(texts(batch.errors@.push(e.message)) =~= texts(batch.errors@).push(
                        e.message@,
                    ));
                }
                batch.errors.push(e.message);
                batch.taken = batch.taken + 1;
                BatchStep::Skip(batch)
            },
        }
    }
}

/// When a batch is answered, each of its rows was delivered or has an error.
pub proof fn law_batch_complete(batch: BatchView, event: BatchEvent)
    requires
        batch.accounts(under_way(event)),
        batch.after(event).onward() is Done,
    ensures
        batch.after(event).sent + batch.after(event).errors.len() == batch.rows.len(),
        batch.after(event).onward() == BatchStepView::Done(batch.after(event).answer()),
{
}

/// What a row comes to: the reason why it is no record, or else why its record was not
/// delivered, if it was not.
pub open spec fn row_error(batch: BatchView, i: int, failure: Option<String>) -> Option<Seq<char>> {
    match batch.row_record(i) {
        Err(message) => Some(message),
        Ok(_) => opt_text(failure),
    }
}

/// The batch once its first `n` rows are settled, given why each record was not
/// delivered, where it was not: the reasons stand in the order of the rows.
pub open spec fn settled(batch: BatchView, failures: Seq<Option<String>>, n: nat) -> BatchView
    decreases n,
{
    if n == 0 {
        batch
    } else {
        let before = settled(batch, failures, (n - 1) as nat);
        match row_error(batch, n - 1, failures[n - 1]) {
            Some(message) => BatchView {
                taken: n,
                errors: before.errors.push(message),
                ..before
            },
            None => BatchView { taken: n, sent: before.sent + 1, ..before },
        }
    }
}

/// The event that tells of a delivery or of its failure.
pub open spec fn told(failure: Option<String>) -> BatchEvent {
    match failure {
        Some(text) => BatchEvent::Failed(text),
        None => BatchEvent::Delivered,
    }
}

/// Row after row is settled in order, whatever became of those before; once all are,
/// the answer tells of them all.
pub proof fn law_batch_settles(batch: BatchView, failures: Seq<Option<String>>, n: nat)
    requires
        batch.taken == 0,
        failures.len() == batch.rows.len(),
        n <= batch.rows.len(),
    ensures
        match settled(batch, failures, n).onward() {
            BatchStepView::Skip(next) => n < batch.rows.len() && next == settled(
                batch,
                failures,
                n + 1,
            ),
            BatchStepView::Send(next, record) => n < batch.rows.len() && batch.row_record(n as int)
                == Ok::<RecordView, Seq<char>>(record) && next.after(told(failures[n as int]))
                == settled(batch, failures, n + 1),
            BatchStepView::Done(answer) => n == batch.rows.len() && answer == settled(
                batch,
                failures,
                n,
            ).answer(),
        },
{
    lemma_settled(batch, failures, n);
}

/// Settling rows leaves what was asked for as it is.
proof fn lemma_settled(batch: BatchView, failures: Seq<Option<String>>, n: nat)
    requires
        batch.taken == 0,
    ensures
        ({
            let after = settled(batch, failures, n);
            &&& after.opts == batch.opts
            &&& after.topic == batch.topic
            &&& after.rows == batch.rows
            &&& after.encoding == batch.encoding
            &&& after.taken == n
        }),
    decreases n,
{
    if n > 0 {
        lemma_settled(batch, failures, (n - 1) as nat);
    }
}

/// A batch is refused exactly where the text of a topic or an array of rows is missing.
/// Else it has that topic, those rows, and the encoding named, or text; and nothing is
/// taken up yet.
pub proof fn law_batch_as_asked(opts: JsonView)
    ensures
        match (opts.get("topic"@), opts.get("rows"@)) {
            (Some(JsonView::Str(topic)), Some(JsonView::Array(rows))) => batch_request(
                opts,
            ) matches Ok(batch) && batch.opts == opts && batch.topic == topic && batch.rows == rows
                && batch.taken == 0 && batch.sent == 0 && batch.errors.len() == 0
                && match opts.get("encoding"@) {
                Some(JsonView::Str(e)) => batch.encoding == e,
                _ => batch.encoding == "utf8"@,
            },
            (Some(JsonView::Str(_)), _) => batch_request(opts) == Err::<BatchView, Seq<char>>(
                "missing rows (array of {key?, value} objects)"@,
            ),
            _ => batch_request(opts) == Err::<BatchView, Seq<char>>("missing topic"@),
        },
{
}

/// A row is made a record for the batch's topic, without a timestamp, under the row's own
/// encoding or else the batch's.
pub proof fn law_row_as_asked(batch: BatchView, i: int)
    ensures
        batch.row_record(i) == asked_record(
            batch.topic,
            batch.rows[i],
            match batch.rows[i].get("encoding"@) {
                Some(JsonView::Str(e)) => e,
                _ => batch.encoding,
            },
            None,
        ),
{
}

/// A batch is answered with its topic, the number of records delivered, and the reasons
/// why the others were not, in their order.
pub proof fn law_batch_answered(batch: BatchView, i: int)
    ensures
        batch.answer().get("topic"@) == Some(JsonView::Str(batch.topic)),
        batch.answer().get("sent"@) == Some(JsonView::Int(batch.sent as int)),
        batch.answer().get("errors"@) matches Some(JsonView::Array(errors)) && errors.len()
            == batch.errors.len() && (0 <= i < errors.len() ==> errors[i] == JsonView::Str(
            batch.errors[i],
        )),
{
    broadcast use group_members;

    reveal_strlit("topic");
    reveal_strlit("sent");
    reveal_strlit("errors");
    assert("topic"@.len() == 5
        && "sent"@.len() == 4
        && "errors"@.len() == 6);
}

/// Once the rows of a batch are settled from the first to the last, as many are sent as
/// are records that were delivered, and each of the others has left its reason.
pub proof fn law_batch_counts(batch: BatchView, failures: Seq<Option<String>>, n: nat)
    requires
        batch.taken == 0,
        batch.sent == 0,
        batch.errors.len() == 0,
    ensures
        settled(batch, failures, n).sent + settled(batch, failures, n).errors.len() == n,
        n > 0 ==> match (batch.row_record(n - 1), failures[n - 1]) {
            (Err(message), _) => settled(batch, failures, n).errors.last() == message && settled(
                batch,
                failures,
                n,
            ).sent == settled(batch, failures, (n - 1) as nat).sent,
            (Ok(_), Some(text)) => settled(batch, failures, n).errors.last() == text@ && settled(
                batch,
                failures,
                n,
            ).sent == settled(batch, failures, (n - 1) as nat).sent,
            (Ok(_), None) => settled(batch, failures, n).errors == settled(
                batch,
                failures,
                (n - 1) as nat,
            ).errors && settled(batch, failures, n).sent == settled(
                batch,
                failures,
                (n - 1) as nat,
            ).sent + 1,
        },
    decreases n,
{
    if n > 0 {
        law_batch_counts(batch, failures, (n - 1) as nat);
    }
}

/// The model of a batch holds what the batch holds.
pub proof fn law_batch_model(batch: Batch, i: int)
    ensures
        batch@.opts == batch.opts@,
        batch@.taken == batch.taken,
        batch@.sent == batch.sent,
        batch@.errors.len() == batch.errors@.len(),
        0 <= i < batch.errors@.len() ==> batch@.errors[i] == batch.errors@[i]@,
        batch.is_batch() ==> batch.opts@.get("topic"@) == Some(JsonView::Str(batch@.topic))
            && batch.opts@.get("rows"@) == Some(JsonView::Array(batch@.rows)),
{
}

// ---- commands ----

/// What to send from the command line.
#[derive(Debug)]
pub enum ProduceCmd {
    /// Send a single message.
    Send {
        topic: String,
        value: String,
        key: Option<String>,
        /// Headers, each of the form `K=V`.
        headers: Vec<String>,
        /// The partition, where it is not left to the client library.
        partition: Option<i32>,
    },
    /// Read lines of JSON and send each as a message.
    Stream {
        /// The topic of lines that name none.
        default_topic: Option<String>,
        /// How long to wait for each message, in milliseconds.
        ack_timeout_ms: u64,
        /// How many messages to stop after.
        limit: Option<usize>,
    },
}

/// One of the flags has the form of a header.
pub open spec fn any_header(kvs: Seq<Seq<char>>) -> bool {
    exists|i: int| 0 <= i < kvs.len() && (#[trigger] kvs[i]).contains('=')
}

fn has_header(kvs: &Vec<String>) -> (r: bool)
    ensures
        r == any_header(texts(kvs@)),
{
    let ghost all = texts(kvs@);
    let mut i: usize = 0;
    while i < kvs.len()
        invariant
            i <= kvs@.len(),
            all == texts(kvs@),
            forall|j: int| 0 <= j < i ==> !(#[trigger] all[j]).contains('='),
        decreases kvs@.len() - i,
    {
        proof {
            assert(all[i as int] == kvs@[i as int]@);
            all[i as int].index_of_first_ensures('=');
        }
        if split_once(kvs[i].as_str(), '=').is_some() {
            return true;
        }
        i = i + 1;
    }
    false
}

/// The record that flags ask for.
pub open spec fn flag_record(
    topic: Seq<char>,
    value: Seq<char>,
    key: Option<Seq<char>>,
    flags: Seq<Seq<char>>,
    partition: Option<i32>,
) -> RecordView {
    RecordView {
        topic,
        value: encode_utf8(value),
        key: match key {
            Some(k) => Some(encode_utf8(k)),
            None => None,
        },
        partition: opt_number(partition),
        timestamp: None,
        headers: if any_header(flags) {
            Some(flag_headers(flags))
        } else {
            None
        },
    }
}

/// The record for a single message. It has headers only where a flag has the form of
/// one.
pub fn send_record(
    topic: &str,
    value: &str,
    key: Option<&str>,
    headers: &Vec<String>,
    partition: Option<i32>,
) -> (r: ProduceRecord)
    requires
        headers@.len() <= MAX_HEADERS,
    ensures
        r@ == flag_record(
            topic@,
            value@,
            match key {
                Some(k) => Some(k@),
                None => None,
            },
            texts(headers@),
            partition,
        ),
        r@ == (RecordView {
            topic: topic@,
            value: encode_utf8(value@),
            key: match key {
                Some(k) => Some(encode_utf8(k@)),
                None => None,
            },
            partition: opt_number(partition),
            timestamp: None,
            headers: if any_header(texts(headers@)) {
                Some(flag_headers(texts(headers@)))
            } else {
                None
            },
        }),
{
    let attached = if has_header(headers) {
        Some(parse_headers(headers.as_slice()))
    } else {
        None
    };
    let key = match key {
        Some(k) => Some(k.as_bytes_vec()),
        None => None,
    };
    ProduceRecord {
        topic: topic.to_owned(),
        value: value.as_bytes_vec(),
        key,
        partition,
        timestamp: None,
        headers: attached,
    }
}

// ---- line by line ----

/// Whether a line is skipped: it has nothing but white space.
pub fn is_blank(line: &str) -> (r: bool)
    ensures
        r == (trimmed(line@).len() == 0),
{
    trim(line).as_str().unicode_len() == 0
}

/// The key of a line, if it has one that is not empty.
pub open spec fn line_key(line: JsonView) -> Option<Seq<u8>> {
    match line.text("key"@) {
        Some(k) if k.len() > 0 => Some(encode_utf8(k)),
        _ => None,
    }
}

/// The record that a line stands for. It always has headers, if only an empty list.
pub open spec fn line_record(line: JsonView, default_topic: Option<Seq<char>>) -> Result<
    RecordView,
    Seq<char>,
> {
    let topic = match line.text("topic"@) {
        Some(t) => Some(t),
        None => default_topic,
    };
    match (topic, line.text("value"@)) {
        (None, _) => Err("each line needs `topic` or pass --default-topic"@),
        (Some(_), None) => Err("each line needs `value`"@),
        (Some(topic), Some(value)) => Ok(
            RecordView {
                topic,
                value: encode_utf8(value),
                key: line_key(line),
                partition: asked_partition(line),
                timestamp: None,
                headers: Some(
                    match line.members("headers"@) {
                        Some(members) => member_headers(members),
                        None => Seq::empty(),
                    },
                ),
            },
        ),
    }
}

/// Lines being sent: what was asked for, how many were sent, and where the last one
/// went.
pub struct Stream {
    pub default_topic: Option<String>,
    pub limit: Option<usize>,
    pub sent: usize,
    pub last: Option<(String, i32, i64)>,
}

/// The model of lines being sent.
pub struct StreamView {
    pub default_topic: Option<Seq<char>>,
    pub limit: Option<usize>,
    pub sent: nat,
    pub last: Option<(Seq<char>, i32, i64)>,
}

impl View for Stream {
    type V = StreamView;

    open spec fn view(&self) -> StreamView {
        StreamView {
            default_topic: opt_text(self.default_topic),
            limit: self.limit,
            sent: self.sent as nat,
            last: match self.last {
                Some((topic, partition, offset)) => Some((topic@, partition, offset)),
                None => None,
            },
        }
    }
}

/// What happened to lines being sent.
pub enum StreamEvent {
    /// A line that is not blank was read.
    Line(Json),
    /// The record was delivered, to this topic, partition and offset.
    Delivered(String, i32, i64),
    /// The record was not delivered, for this reason.
    Failed(String),
    /// There are no more lines.
    End,
}

/// What to do next.
pub enum StreamStep {
    /// Read a line.
    Read(Stream),
    /// Send a record.
    Send(Stream, ProduceRecord),
    /// Answer.
    Done(Result<Json, OpError>),
}

/// The model of what to do next.
pub enum StreamStepView {
    Read(StreamView),
    Send(StreamView, RecordView),
    Done(Result<JsonView, Seq<char>>),
}

impl View for StreamStep {
    type V = StreamStepView;

    open spec fn view(&self) -> StreamStepView {
        match self {
            StreamStep::Read(stream) => StreamStepView::Read(stream@),
            StreamStep::Send(stream, record) => StreamStepView::Send(stream@, record@),
            StreamStep::Done(Ok(answer)) => StreamStepView::Done(Ok(answer@)),
            StreamStep::Done(Err(e)) => StreamStepView::Done(Err(e@)),
        }
    }
}

impl StreamView {
    /// The answer: how many lines were sent, and where the last one went.
    pub open spec fn answer(self) -> JsonView {
        JsonView::object().with("sent"@, JsonView::Int(self.sent as int)).with(
            "last"@,
            match self.last {
                Some((topic, partition, offset)) => delivery_json(topic, partition, offset),
                None => JsonView::Null,
            },
        )
    }

    /// As many lines were sent as may be.
    pub open spec fn at_limit(self) -> bool {
        self.limit matches Some(limit) && self.sent >= limit
    }

    /// Goes on to the next line, or to the answer where the limit is reached.
    pub open spec fn onward(self) -> StreamStepView {
        if self.at_limit() {
            StreamStepView::Done(Ok(self.answer()))
        } else {
            StreamStepView::Read(self)
        }
    }

    /// What to do after an event: a line that is no record, or a record that is not
    /// delivered, ends it all. No line is sent beyond the limit.
    pub open spec fn next(self, event: StreamEvent) -> StreamStepView {
        match event {
            StreamEvent::Line(line) => if self.at_limit() {
                StreamStepView::Done(Ok(self.answer()))
            } else {
                match line_record(line@, self.default_topic) {
                    Ok(record) => StreamStepView::Send(self, record),
                    Err(message) => StreamStepView::Done(Err(message)),
                }
            },
            StreamEvent::Delivered(topic, partition, offset) => StreamView {
                sent: self.sent + 1,
                last: Some((topic@, partition, offset)),
                ..self
            }.onward(),
            StreamEvent::Failed(text) => StreamStepView::Done(Err("send: "@ + text@)),
            StreamEvent::End => StreamStepView::Done(Ok(self.answer())),
        }
    }
}

fn prepare_line(line: &Json, default_topic: &Option<String>) -> (r: Result<ProduceRecord, OpError>)
    requires
        headers_fit(line@),
    ensures
        agrees(r, line_record(line@, opt_text(*default_topic))),
{
    let topic = match line.text("topic") {
        Some(t) => t.to_owned(),
        None => match default_topic {
            Some(t) => t.clone(),
            None => {
                return Err(OpError::new("each line needs `topic` or pass --default-topic"));
            },
        },
    };
    let value = match line.text("value") {
        Some(v) => v.as_bytes_vec(),
        None => {
            return Err(OpError::new("each line needs `value`"));
        },
    };
    let key = match line.text("key") {
        Some(k) => if k.unicode_len() > 0 {
            Some(k.as_bytes_vec())
        } else {
            None
        },
        None => None,
    };
    let headers = match line.members("headers") {
        Some(members) => {
            assert(member_views(members@).len() == members@.len());
            headers_of(members)
        },
        None => {
            let none = OwnedHeaders::new();
            assert(header_list(none) =~= Seq::empty());
            none
        },
    };
    Ok(
        ProduceRecord {
            topic,
            value,
            key,
            partition: partition_of(line),
            timestamp: None,
            headers: Some(headers),
        },
    )
}

impl Stream {
    fn answer(&self) -> (r: Json)
        ensures
            r@ == self@.answer(),
    {
        let last = match &self.last {
            Some((topic, partition, offset)) => show_delivery(topic.as_str(), *partition, *offset),
            None => Json::Null,
        };
        Json::object().with("sent", Json::Int(self.sent as i128)).with("last", last)
    }

    fn onward(self) -> (r: StreamStep)
        ensures
            r@ == self@.onward(),
    {
        let enough = match self.limit {
            Some(limit) => self.sent >= limit,
            None => false,
        };
        if enough {
            StreamStep::Done(Ok(self.answer()))
        } else {
            StreamStep::Read(self)
        }
    }

    /// Decides what to do before the first line: a limit of zero is reached at once.
    pub fn start(self) -> (r: StreamStep)
        ensures
            r@ == self@.onward(),
    {
        self.onward()
    }

    /// Decides what to do after an event.
    pub fn next(self, event: StreamEvent) -> (r: StreamStep)
        requires
            event matches StreamEvent::Line(line) ==> headers_fit(line@),
            event is Delivered ==> self.sent < usize::MAX,
        ensures
            r@ == self@.next(event),
    {
        match event {
            StreamEvent::Line(line) => match self.onward() {
                StreamStep::Read(stream) => match prepare_line(&line, &stream.default_topic) {
                    Ok(record) => StreamStep::Send(stream, record),
                    Err(e) => StreamStep::Done(Err(e)),
                },
                other => other,
            },
            StreamEvent::Delivered(topic, partition, offset) => {
                let mut stream = self;
                stream.sent = stream.sent + 1;
                stream.last = Some((topic, partition, offset));
                stream.onward()
            },
            StreamEvent::Failed(text) => StreamStep::Done(
                Err(OpError { message: concat2("send: ", text.as_str()) }),
            ),
            StreamEvent::End => StreamStep::Done(Ok(self.answer())),
        }
    }
}

/// Where the lines stand once records were delivered, one after the other.
pub open spec fn after_deliveries(stream: StreamView, done: Seq<(String, i32, i64)>) -> StreamStepView
    decreases done.len(),
{
    if done.len() == 0 {
        stream.onward()
    } else {
        match after_deliveries(stream, done.drop_last()) {
            StreamStepView::Read(next) => {
                let (topic, partition, offset) = done.last();
                next.next(StreamEvent::Delivered(topic, partition, offset))
            },
            other => other,
        }
    }
}

/// The lines after so many deliveries.
pub open spec fn counted(stream: StreamView, done: Seq<(String, i32, i64)>) -> StreamView {
    StreamView {
        sent: stream.sent + done.len(),
        last: if done.len() == 0 {
            stream.last
        } else {
            Some((done.last().0@, done.last().1, done.last().2))
        },
        ..stream
    }
}

/// Lines are sent until the limit is reached; the answer counts them and says where the
/// last one went.
pub proof fn law_stream_counts(stream: StreamView, done: Seq<(String, i32, i64)>)
    requires
        stream.sent == 0,
    ensures
        after_deliveries(stream, done) == match stream.limit {
            Some(limit) if limit <= done.len() => StreamStepView::Done(
                Ok(counted(stream, done.take(limit as int)).answer()),
            ),
            _ => StreamStepView::Read(counted(stream, done)),
        },
    decreases done.len(),
{
    if done.len() > 0 {
        let init = done.drop_last();
        law_stream_counts(stream, init);
        if let Some(limit) = stream.limit {
            if limit < done.len() {
                assert(init.take(limit as int) =~= done.take(limit as int));
            } else if limit == done.len() {
                assert(done.take(limit as int) =~= done);
            }
        }
    } else {
        assert(counted(stream, done) == stream);
        assert(done.take(0) =~= done);
    }
}

/// How many steps are left at most.
pub open spec fn steps_left(step: StreamStepView, lines: nat) -> nat {
    match step {
        StreamStepView::Done(_) => 0,
        StreamStepView::Read(_) => 3 * lines + 1,
        StreamStepView::Send(_, _) => 3 * lines + 2,
    }
}

/// The records sent from a step on, and the answer, given the lines that can be read and
/// where the records to send will go.
pub open spec fn stream_run(
    step: StreamStepView,
    lines: Seq<Json>,
    done: Seq<(String, i32, i64)>,
) -> (Seq<RecordView>, Result<JsonView, Seq<char>>)
    decreases steps_left(step, lines.len()),
{
    match step {
        StreamStepView::Done(answer) => (Seq::empty(), answer),
        StreamStepView::Read(stream) => if lines.len() == 0 {
            stream_run(stream.next(StreamEvent::End), lines, done)
        } else {
            stream_run(stream.next(StreamEvent::Line(lines[0])), lines.skip(1), done)
        },
        StreamStepView::Send(stream, record) => {
            let (topic, partition, offset) = done[0];
            let (records, answer) = stream_run(
                stream.next(StreamEvent::Delivered(topic, partition, offset)),
                lines,
                done.skip(1),
            );
            (seq![record] + records, answer)
        },
    }
}

/// The records of the first lines.
pub open spec fn line_records(lines: Seq<Json>, default_topic: Option<Seq<char>>, n: nat) -> Seq<
    RecordView,
> {
    Seq::new(n, |i: int| line_record(lines[i]@, default_topic)->Ok_0)
}

/// How many of the lines are sent: all of them, or as many as the limit leaves room for.
pub open spec fn lines_sent(stream: StreamView, lines: nat) -> nat {
    match stream.limit {
        Some(limit) if limit <= stream.sent => 0,
        Some(limit) if limit - stream.sent < lines => (limit - stream.sent) as nat,
        _ => lines,
    }
}

/// Of lines that all stand for records which are all delivered, as many are sent as the
/// limit allows, each as one record and in their order. The answer counts them and says
/// where the last one went, if there was one.
pub proof fn law_stream_run(stream: StreamView, lines: Seq<Json>, done: Seq<(String, i32, i64)>)
    requires
        forall|i: int|
            0 <= i < lines.len() ==> line_record(
                (#[trigger] lines[i])@,
                stream.default_topic,
            ) is Ok,
        done.len() == lines.len(),
    ensures
        ({
            let n = lines_sent(stream, lines.len());
            stream_run(stream.onward(), lines, done) == (
                line_records(lines, stream.default_topic, n),
                Ok::<JsonView, Seq<char>>(counted(stream, done.take(n as int)).answer()),
            )
        }),
    decreases lines.len(),
{
    let n = lines_sent(stream, lines.len());
    let records = line_records(lines, stream.default_topic, n);
    if n == 0 {
        assert(records =~= Seq::empty());
        assert(counted(stream, done.take(0)) == stream);
        reveal_with_fuel(stream_run, 2);
    } else {
        let (topic, partition, offset) = done[0];
        let event = StreamEvent::Delivered(topic, partition, offset);
        let after = StreamView {
            sent: stream.sent + 1,
            last: Some((topic@, partition, offset)),
            ..stream
        };
        let rest = lines.skip(1);
        assert forall|i: int| 0 <= i < rest.len() implies line_record(
            (#[trigger] rest[i])@,
            after.default_topic,
        ) is Ok by {
            assert(rest[i] == lines[i + 1]);
        }
        law_stream_run(after, rest, done.skip(1));
        let m = (n - 1) as nat;
        assert(lines_sent(after, rest.len()) == m);
        let first = line_record(lines[0]@, stream.default_topic)->Ok_0;
        assert(records =~= seq![first] + line_records(rest, stream.default_topic, m));
        assert(counted(after, done.skip(1).take(m as int)) == counted(
            stream,
            done.take(n as int),
        )) by {
            if m > 0 {
                assert(done.skip(1).take(m as int).last() == done.take(n as int).last());
            } else {
                assert(done.take(1).last() == done[0]);
            }
        }
        reveal_with_fuel(stream_run, 3);
    }
}

/// A line is made a record for the topic that it names, or else the one for all lines. Its
/// value is the text under `value`, which it must have; its key the text under `key`,
/// unless that is empty; it has the partition and the headers that it asks for, and no
/// timestamp.
pub proof fn law_line_as_asked(line: JsonView, default_topic: Option<Seq<char>>)
    ensures
        match (line.get("topic"@), default_topic, line.get("value"@)) {
            (Some(JsonView::Str(topic)), _, Some(JsonView::Str(value))) => line_record(
                line,
                default_topic,
            ) matches Ok(record) && record.topic == topic && record.value == encode_utf8(value),
            (Some(JsonView::Str(_)), _, _) => line_record(line, default_topic) == Err::<
                RecordView,
                Seq<char>,
            >("each line needs `value`"@),
            (_, Some(topic), Some(JsonView::Str(value))) => line_record(
                line,
                default_topic,
            ) matches Ok(record) && record.topic == topic && record.value == encode_utf8(value),
            (_, Some(_), _) => line_record(line, default_topic) == Err::<RecordView, Seq<char>>(
                "each line needs `value`"@,
            ),
            (_, None, _) => line_record(line, default_topic) == Err::<RecordView, Seq<char>>(
                "each line needs `topic` or pass --default-topic"@,
            ),
        },
        line_record(line, default_topic) matches Ok(record) ==> {
            &&& record.timestamp is None
            &&& match line.get("key"@) {
                Some(JsonView::Str(k)) if k.len() > 0 => record.key == Some(encode_utf8(k)),
                _ => record.key is None,
            }
            &&& match line.get("partition"@) {
                Some(JsonView::Int(n)) if i64::MIN <= n <= i64::MAX => record.partition matches Some(p)
                    && i32::MIN <= p <= i32::MAX && (n - p) % 0x1_0000_0000 == 0,
                _ => record.partition is None,
            }
            &&& record.headers matches Some(h) && match line.get("headers"@) {
                Some(JsonView::Object(members)) => h.len() == members.len() && forall|i: int|
                    0 <= i < h.len() ==> (#[trigger] h[i]).0 == members[i].0 && h[i].1
                        == encode_utf8(
                        match members[i].1 {
                            JsonView::Str(s) => s,
                            _ => Seq::empty(),
                        },
                    ),
                _ => h.len() == 0,
            }
        },
{
}

/// The answer tells how many lines were sent, and of the last one its topic, its
/// partition and its offset; it is null where none was sent.
pub proof fn law_stream_answered(stream: StreamView)
    ensures
        stream.answer().get("sent"@) == Some(JsonView::Int(stream.sent as int)),
        match stream.last {
            None => stream.answer().get("last"@) == Some(JsonView::Null),
            Some((topic, partition, offset)) => stream.answer().get("last"@) matches Some(last)
                && last.get("topic"@) == Some(JsonView::Str(topic)) && last.get("partition"@)
                == Some(JsonView::Int(partition as int)) && last.get("offset"@) == Some(
                JsonView::Int(offset as int),
            ),
        },
{
    broadcast use group_members;

    if let Some((topic, partition, offset)) = stream.last {
        law_delivery_shown(topic, partition, offset);
    }
    reveal_strlit("sent");
    reveal_strlit("last");
    assert("sent"@.len() == 4
        && "last"@.len() == 4);
    assert("sent"@[0] == 's');
    assert("last"@[0] == 'l');
}

/// The model of lines being sent holds what they hold.
pub proof fn law_stream_model(stream: Stream)
    ensures
        match stream.default_topic {
            Some(t) => stream@.default_topic == Some(t@),
            None => stream@.default_topic is None,
        },
        stream@.limit == stream.limit,
        stream@.sent == stream.sent,
        match stream.last {
            Some((topic, partition, offset)) => stream@.last == Some((topic@, partition, offset)),
            None => stream@.last is None,
        },
{
}

/// What a step of a batch hands on is what its model says.
pub proof fn law_batch_step_model(step: BatchStep)
    ensures
        match step {
            BatchStep::Skip(batch) => step@ == BatchStepView::Skip(batch@),
            BatchStep::Send(batch, record) => step@ == BatchStepView::Send(batch@, record@),
            BatchStep::Done(answer) => step@ == BatchStepView::Done(answer@),
        },
{
}

/// What a step of lines being sent hands on is what its model says.
pub proof fn law_stream_step_model(step: StreamStep)
    ensures
        match step {
            StreamStep::Read(stream) => step@ == StreamStepView::Read(stream@),
            StreamStep::Send(stream, record) => step@ == StreamStepView::Send(stream@, record@),
            StreamStep::Done(Ok(answer)) => step@ == StreamStepView::Done(Ok(answer@)),
            StreamStep::Done(Err(e)) => step@ == StreamStepView::Done(Err(e.message@)),
        },
{
}

/// A line that is no record, and a record that is not delivered, end the sending with the
/// reason; the end of the lines ends it with the answer. A record that was delivered is
/// counted, and is the last.
pub proof fn law_stream_steps(
    stream: StreamView,
    line: Json,
    topic: String,
    partition: i32,
    offset: i64,
    text: String,
)
    requires
        match stream.limit {
            Some(limit) => stream.sent < limit,
            None => true,
        },
    ensures
        match line_record(line@, stream.default_topic) {
            Ok(record) => stream.next(StreamEvent::Line(line)) == StreamStepView::Send(
                stream,
                record,
            ),
            Err(message) => stream.next(StreamEvent::Line(line)) == StreamStepView::Done(
                Err(message),
            ),
        },
        stream.next(StreamEvent::Failed(text)) == StreamStepView::Done(Err("send: "@ + text@)),
        stream.next(StreamEvent::End) == StreamStepView::Done(Ok(stream.answer())),
        ({
            let after = StreamView {
                sent: stream.sent + 1,
                last: Some((topic@, partition, offset)),
                ..stream
            };
            stream.next(StreamEvent::Delivered(topic, partition, offset)) == (
            if stream.limit matches Some(limit) && limit == stream.sent + 1 {
                StreamStepView::Done(Ok(after.answer()))
            } else {
                StreamStepView::Read(after)
            })
        }),
{
}

/// A record from flags has the topic, the value and the key as they are given, the
/// partition where one is, and no timestamp. It has headers exactly where one of the flags
/// for them holds `=`.
pub proof fn law_flag_record(
    topic: Seq<char>,
    value: Seq<char>,
    key: Option<Seq<char>>,
    flags: Seq<Seq<char>>,
    partition: Option<i32>,
)
    ensures
        ({
            let record = flag_record(topic, value, key, flags, partition);
            &&& record.topic == topic
            &&& record.value == encode_utf8(value)
            &&& match key {
                Some(k) => record.key == Some(encode_utf8(k)),
                None => record.key is None,
            }
            &&& match partition {
                Some(p) => record.partition == Some(p as int),
                None => record.partition is None,
            }
            &&& record.timestamp is None
            &&& if exists|i: int| 0 <= i < flags.len() && (#[trigger] flags[i]).contains('=') {
                record.headers == Some(flag_headers(flags)) && flag_headers(flags).len() > 0
            } else {
                record.headers is None
            }
        }),
{
    law_flag_headers(flags);
}

/// The answer about a delivery is where the record went, or why it was not delivered.
pub proof fn law_delivery_answered(topic: Seq<char>, delivery: Result<(i32, i64), String>)
    ensures
        match delivery {
            Ok((partition, offset)) => delivery_answer(topic, delivery) matches Ok(answer)
                && answer.get("topic"@) == Some(JsonView::Str(topic)) && answer.get("partition"@)
                == Some(JsonView::Int(partition as int)) && answer.get("offset"@) == Some(
                JsonView::Int(offset as int),
            ),
            Err(text) => delivery_answer(topic, delivery) == Err::<JsonView, Seq<char>>(
                "send: "@ + text@,
            ),
        },
{
    if let Ok((partition, offset)) = delivery {
        law_delivery_shown(topic, partition, offset);
    }
}

/// Any record can be prepared whose value and key are not in base sixteen, or are and hold
/// nothing but ASCII, and that has no more headers than a list may hold.
pub proof fn law_records_accepted(row: JsonView, encoding: Seq<char>)
    requires
        match row.get("headers"@) {
            Some(JsonView::Object(members)) => members.len() <= 0x4000_0000,
            _ => true,
        },
        encoding != "hex"@ || (match row.get("value"@) {
            Some(JsonView::Str(s)) => is_ascii_chars(s),
            _ => true,
        }) && (match row.get("key"@) {
            Some(JsonView::Str(s)) => is_ascii_chars(s),
            _ => true,
        }),
    ensures
        preparable(row, encoding),
        encoding == asked_encoding(row, "utf8"@) ==> sendable(row),
{
    reveal_strlit("");
    assert(""@ =~= Seq::<char>::empty());
    assert(is_ascii_chars(""@));
    law_ascii_cut_cleanly(asked_value(row), encoding);
    if let Some(k) = row.text("key"@) {
        law_ascii_cut_cleanly(k, encoding);
    }
}

/// Options without the text of a topic are never in the way; they are refused.
pub proof fn law_no_topic_sendable(opts: JsonView)
    requires
        !(opts.get("topic"@) matches Some(JsonView::Str(_))),
    ensures
        sendable(opts),
{
}

/// A batch is one exactly where the text of a topic and an array of rows are asked for; it
/// is ready exactly where there is no next row, or one that can be prepared.
pub proof fn law_batch_ready(batch: Batch)
    ensures
        batch.is_batch() <==> {
            &&& batch.opts@.get("topic"@) matches Some(JsonView::Str(_))
            &&& batch.opts@.get("rows"@) matches Some(JsonView::Array(_))
        },
        batch@.ready() <==> batch@.taken >= batch@.rows.len() || preparable(
            batch@.rows[batch@.taken as int],
            match batch@.rows[batch@.taken as int].get("encoding"@) {
                Some(JsonView::Str(e)) => e,
                _ => batch@.encoding,
            },
        ),
{
}

} // verus!
