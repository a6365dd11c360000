//! Replies: what a caller is given back, whatever came of its call.

use vstd::prelude::*;
use vstd::string::*;

use crate::error::OpError;
use crate::json::{group_members, Json, JsonView};

verus! {

/// What came of a call.
pub enum Outcome {
    /// It was answered or refused.
    Finished(Result<Json, OpError>),
    /// It broke off.
    Panicked,
}

/// The reply to a call: the answer, or an object that names the error.
pub open spec fn reply_to(outcome: Outcome) -> JsonView {
    match outcome {
        Outcome::Finished(Ok(answer)) => answer@,
        Outcome::Finished(Err(e)) => JsonView::object().with("error"@, JsonView::Str(e@)),
        Outcome::Panicked => JsonView::object().with(
            "error"@,
            JsonView::Str("stryke-kafka handler panicked"@),
        ),
    }
}

/// The arguments of a call: null, where what the caller handed over is no JSON.
pub fn arguments(parsed: Option<Json>) -> (r: Json)
    ensures
        r@ == match parsed {
            Some(json) => json@,
            None => JsonView::Null,
        },
{
    match parsed {
        Some(json) => json,
        None => Json::Null,
    }
}

/// Replies to a call.
pub fn reply(outcome: Outcome) -> (r: Json)
    ensures
        r@ == reply_to(outcome),
{
    match outcome {
        Outcome::Finished(Ok(answer)) => answer,
        Outcome::Finished(Err(e)) => Json::object().with("error", Json::Str(e.message)),
        Outcome::Panicked => Json::object().with(
            "error",
            Json::str("stryke-kafka handler panicked"),
        ),
    }
}

/// A call that was refused is replied to with its error.
pub proof fn law_refusal_replied(e: OpError)
    ensures
        reply_to(Outcome::Finished(Err(e))).text("error"@) == Some(e@),
{
    let members = reply_to(Outcome::Finished(Err(e)))->Object_0;
    assert(members[0].0 == "error"@);
}

/// The answer about a version.
pub open spec fn version_answer(version: Seq<char>) -> JsonView {
    JsonView::object().with("version"@, JsonView::Str(version))
}

/// A version is told as it is, and nothing else.
pub proof fn law_version_told(version: Seq<char>)
    ensures
        version_answer(version).get("version"@) == Some(JsonView::Str(version)),
        version_answer(version)->Object_0.len() == 1,
{
    broadcast use group_members;

}

/// The answer about the version of this package.
pub fn version_reply(version: &str) -> (r: Json)
    ensures
        r@ == version_answer(version@),
        r@ == JsonView::object().with("version"@, JsonView::Str(version@)),
{
    Json::object().with("version", Json::str(version))
}

/// A call that was answered is replied to with the answer as it is; one that was refused
/// or that broke off with an object that has the error and nothing else.
pub proof fn law_replied(answer: Json, e: OpError)
    ensures
        reply_to(Outcome::Finished(Ok(answer))) == answer@,
        reply_to(Outcome::Finished(Err(e))).get("error"@) == Some(JsonView::Str(e.message@)),
        reply_to(Outcome::Finished(Err(e)))->Object_0.len() == 1,
        reply_to(Outcome::Panicked).get("error"@) == Some(
            JsonView::Str("stryke-kafka handler panicked"@),
        ),
        reply_to(Outcome::Panicked)->Object_0.len() == 1,
{
    broadcast use group_members;

}

} // verus!
