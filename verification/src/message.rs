//! Messages as they are received, and how they are shown.

use vstd::prelude::*;
use vstd::string::*;

use crate::json::{group_members, Json, JsonView};

verus! {

/// A message as it was received.
#[derive(Debug, PartialEq, Eq)]
pub struct Message {
    pub topic: String,
    pub partition: i32,
    pub offset: i64,
    /// In milliseconds since the epoch, where there is one.
    pub timestamp: Option<i64>,
    pub key: Option<Vec<u8>>,
    pub payload: Option<Vec<u8>>,
    /// The names of the headers, and the bytes of those that have a value.
    pub headers: Vec<(String, Option<Vec<u8>>)>,
}

/// A message as an object, given how its key, its value and its headers are shown.
pub open spec fn shown_message(
    message: Message,
    key: JsonView,
    value: JsonView,
    headers: JsonView,
) -> JsonView {
    JsonView::object().with("topic"@, JsonView::Str(message.topic@)).with(
        "partition"@,
        JsonView::Int(message.partition as int),
    ).with("offset"@, JsonView::Int(message.offset as int)).with(
        "timestamp"@,
        JsonView::opt_int(message.timestamp),
    ).with("key"@, key).with("value"@, value).with("headers"@, headers)
}

/// Shows a message.
pub fn show_message(message: &Message, key: Json, value: Json, headers: Json) -> (r: Json)
    ensures
        r@ == shown_message(*message, key@, value@, headers@),
{
    Json::object().with("topic", Json::str(message.topic.as_str())).with(
        "partition",
        Json::Int(message.partition as i128),
    ).with("offset", Json::Int(message.offset as i128)).with(
        "timestamp",
        Json::opt_int(message.timestamp),
    ).with("key", key).with("value", value).with("headers", headers)
}

/// What is shown of a message is its own topic, partition, offset and timestamp, and the
/// key, the value and the headers as they are given, each under its name.
pub proof fn law_message_shown(message: Message, key: JsonView, value: JsonView, headers: JsonView)
    ensures
        ({
            let shown = shown_message(message, key, value, headers);
            &&& shown.get("topic"@) == Some(JsonView::Str(message.topic@))
            &&& shown.get("partition"@) == Some(JsonView::Int(message.partition as int))
            &&& shown.get("offset"@) == Some(JsonView::Int(message.offset as int))
            &&& shown.get("timestamp"@) == Some(
                match message.timestamp {
                    Some(t) => JsonView::Int(t as int),
                    None => JsonView::Null,
                },
            )
            &&& shown.get("key"@) == Some(key)
            &&& shown.get("value"@) == Some(value)
            &&& shown.get("headers"@) == Some(headers)
            &&& shown->Object_0.len() == 7
        }),
{
    broadcast use group_members;

    reveal_strlit("topic");
    reveal_strlit("partition");
    reveal_strlit("offset");
    reveal_strlit("timestamp");
    reveal_strlit("key");
    reveal_strlit("value");
    reveal_strlit("headers");
    assert("topic"@.len() == 5
        && "partition"@.len() == 9
        && "offset"@.len() == 6
        && "timestamp"@.len() == 9
        && "key"@.len() == 3
        && "value"@.len() == 5
        && "headers"@.len() == 7);
    assert("topic"@[0] == 't');
    assert("value"@[0] == 'v');
    assert("partition"@[0] == 'p');
    assert("timestamp"@[0] == 't');
}

} // verus!
