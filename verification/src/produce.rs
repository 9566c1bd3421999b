//! Writing to a topic: take an offset from the counter, stamp the message,
//! store it under its key, and only then answer.
//!
//! The counter is never touched again for the same request. When the write
//! fails after an offset was taken, that offset stays unused: the error
//! carries it, and nothing is rolled back.

use crate::bytes::{append_bytes, append_text, borrowed, text_view};
use crate::codec::{encode, encoded, Message, MessageView};
use crate::decimal::{
    integer_within, lemma_integer_of_signed_decimal, push_signed_decimal, read_integer,
    signed_decimal,
};
use crate::json::{check_json, is_json, json_string, quote};
use crate::key::{key_text, message_key};
use crate::reply::{Reply, ReplyView};
use vstd::prelude::*;
use vstd::string::StringExecFns;
use vstd::string::StringSliceAdditionalSpecFns;
use vstd::utf8::encode_utf8;

verus! {

/// What became of the request's body when it was read.
#[derive(Debug, Clone, PartialEq, Eq)]
pub enum Body {
    /// The request had no body.
    Missing,
    /// The body could not be read as a produce request, for this reason.
    Unreadable { reason: String },
    /// The body was read; this is the JSON text of its payload.
    Payload { json: Vec<u8> },
}

/// Why a request to write is refused before anything is done: the client
/// sent no payload that can be stored.
#[derive(Debug, Clone, PartialEq, Eq)]
pub enum InvalidRequest {
    /// The request had no body.
    MissingBody,
    /// The body could not be read as a produce request, for this reason.
    UnreadableBody { reason: String },
    /// The payload is not JSON.
    PayloadNotJson,
}

/// The atomic increment that is asked of the counter service: add one to
/// the topic's counter, starting it at zero where it does not exist, and
/// return the new value.
#[derive(Debug, Clone, PartialEq, Eq)]
pub struct CounterUpdate {
    /// The name of the attribute that holds the key.
    pub key_name: String,
    /// The key: the topic.
    pub key: String,
    /// The update to perform.
    pub expression: String,
    /// The placeholder in the expression for the counter's first value.
    pub zero_name: String,
    /// The counter's first value.
    pub zero: String,
    /// The placeholder in the expression for the increment.
    pub step_name: String,
    /// The increment.
    pub step: String,
    /// The attribute whose new value the reply carries.
    pub counter_name: String,
}

impl CounterUpdate {
    /// This is the increment of the counter of `topic`.
    pub open spec fn is_for(self, topic: Seq<char>) -> bool {
        &&& self.key_name@ == "pk"@
        &&& self.key@ == topic
        &&& self.expression@
            == "SET current_offset = if_not_exists(current_offset, :zero) + :inc"@
        &&& self.zero_name@ == ":zero"@
        &&& self.zero@ == "0"@
        &&& self.step_name@ == ":inc"@
        &&& self.step@ == "1"@
        &&& self.counter_name@ == "current_offset"@
    }
}

/// Where the handling of a write stands.
#[derive(Debug, Clone, PartialEq, Eq)]
pub enum State {
    /// Nothing has happened yet.
    Start,
    /// An offset is being taken for this payload.
    Allocating { topic: String, payload: Vec<u8> },
    /// The message with this offset is being stored.
    Writing { topic: String, offset: i64 },
    /// The write was answered or has failed.
    Done,
}

/// What happened outside.
#[derive(Debug, Clone, PartialEq, Eq)]
pub enum Event {
    /// A request to write to `topic` arrived.
    Request { topic: String, body: Body },
    /// The counter service replied. `counter` is the counter's new value
    /// as the reply gave it, or `None` where the reply gave none;
    /// `now_millis` is the time after the reply, in milliseconds since the
    /// epoch.
    Allocated { counter: Option<String>, now_millis: u128 },
    /// The counter service could not be reached or reported an error.
    AllocationFailed,
    /// The message is stored.
    Written,
    /// The message could not be stored.
    WriteFailed,
}

/// Why a write failed as a whole.
#[derive(Debug, Clone, Copy, PartialEq, Eq, Structural)]
pub enum ProduceError {
    /// The counter gave no offset: the call failed, or its reply carried
    /// no value that can serve as one. Nothing was written. Safe to try
    /// again.
    AllocationFailed,
    /// This offset was taken, but the message is not stored. The offset
    /// will not be given out again.
    StorageWriteFailed { offset: i64 },
    /// An event arrived that the state does not expect.
    OutOfTurn,
}

/// What to do next.
#[derive(Debug, Clone, PartialEq, Eq)]
pub enum Action {
    /// Increment the counter, then report `Allocated` or
    /// `AllocationFailed`.
    Allocate(CounterUpdate),
    /// Store `bytes` under `key`, then report `Written` or `WriteFailed`.
    Put { key: String, bytes: Vec<u8> },
    /// Answer the request.
    Respond(Reply),
    /// Give the request up with this error.
    Fail(ProduceError),
}

/// The smallest offset that a message can have.
pub const FIRST_OFFSET: i64 = 1;

/// The offset that the counter's reply gives: the value it carries, where
/// that is an integer from `FIRST_OFFSET` up that `i64` holds. A reply that
/// carries no value, or text that is no such integer, gives no offset:
/// none is made up in its place, since a made-up offset may be one that was
/// given out before.
pub open spec fn offset_of_reply(counter: Option<Seq<char>>) -> Option<int> {
    match counter {
        Some(text) => integer_within(encode_utf8(text), FIRST_OFFSET as int, i64::MAX as int),
        None => None,
    }
}

/// The body of the answer to a request without a body.
pub open spec fn missing_body() -> Seq<u8> {
    "{\"error\":\"missing request body\"}".spec_bytes()
}

/// The body of an answer that reports an error. `quoted_message` is the
/// message as a JSON string.
pub open spec fn error_body(quoted_message: Seq<u8>) -> Seq<u8> {
    "{\"error\":".spec_bytes() + quoted_message + "}".spec_bytes()
}

/// What the answer to a request with an unreadable body says: that the
/// JSON is invalid, and the reason.
pub open spec fn unreadable_message(reason: Seq<char>) -> Seq<char> {
    "invalid json: "@ + reason
}

/// The body of the answer to a request whose body could not be read. The
/// reason stands in it as part of a JSON string, with whatever escapes it
/// needs.
pub open spec fn unreadable_body(reason: Seq<char>) -> Seq<u8> {
    error_body(json_string(unreadable_message(reason)))
}

/// The body of the answer to a request whose payload is not JSON.
pub open spec fn not_json_body() -> Seq<u8> {
    "{\"error\":\"invalid json: payload is not a JSON value\"}".spec_bytes()
}

/// The body of the answer to a request that is refused.
pub open spec fn refusal_body(error: InvalidRequest) -> Seq<u8> {
    match error {
        InvalidRequest::MissingBody => missing_body(),
        InvalidRequest::UnreadableBody { reason } => unreadable_body(reason@),
        InvalidRequest::PayloadNotJson => not_json_body(),
    }
}

/// The body of the answer to a write that succeeded. `quoted_topic` is the
/// topic as a JSON string.
pub open spec fn produced_body(quoted_topic: Seq<u8>, offset: int) -> Seq<u8> {
    "{\"topic\":".spec_bytes() + quoted_topic + ",\"offset\":".spec_bytes() + signed_decimal(
        offset,
    ) + "}".spec_bytes()
}

/// `next` and `action` are what follows when `event` arrives in `state`.
pub open spec fn follows(state: State, event: Event, next: State, action: Action) -> bool {
    match (state, event) {
        (State::Start, Event::Request { topic, body }) => match body {
            Body::Missing => {
                &&& next == State::Done
                &&& action matches Action::Respond(reply)
                &&& reply@ == (ReplyView {
                    status: 400,
                    json: true,
                    body: refusal_body(InvalidRequest::MissingBody),
                })
            },
            Body::Unreadable { reason } => {
                &&& next == State::Done
                &&& action matches Action::Respond(reply)
                &&& reply@ == (ReplyView {
                    status: 400,
                    json: true,
                    body: refusal_body(InvalidRequest::UnreadableBody { reason }),
                })
            },
            Body::Payload { json } => if is_json(json@) {
                &&& next == State::Allocating { topic, payload: json }
                &&& action matches Action::Allocate(update)
                &&& update.is_for(topic@)
            } else {
                &&& next == State::Done
                &&& action matches Action::Respond(reply)
                &&& reply@ == (ReplyView {
                    status: 400,
                    json: true,
                    body: refusal_body(InvalidRequest::PayloadNotJson),
                })
            },
        },
        (State::Allocating { topic, payload }, Event::AllocationFailed) => {
            &&& next == State::Done
            &&& action == Action::Fail(ProduceError::AllocationFailed)
        },
        (State::Allocating { topic, payload }, Event::Allocated { counter, now_millis }) => {
            match offset_of_reply(text_view(counter)) {
                Some(offset) => {
                    &&& next == State::Writing { topic, offset: offset as i64 }
                    &&& action matches Action::Put { key, bytes }
                    &&& key@ == key_text(topic@, offset)
                    &&& bytes@ == encoded(
                        MessageView { offset, payload: payload@, timestamp: now_millis as nat },
                    )
                },
                None => {
                    &&& next == State::Done
                    &&& action == Action::Fail(ProduceError::AllocationFailed)
                },
            }
        },
        (State::Writing { topic, offset }, Event::WriteFailed) => {
            &&& next == State::Done
            &&& action == Action::Fail(ProduceError::StorageWriteFailed { offset })
        },
        (State::Writing { topic, offset }, Event::Written) => {
            &&& next == State::Done
            &&& action matches Action::Respond(reply)
            &&& reply@ == (ReplyView {
                status: 200,
                json: true,
                body: produced_body(json_string(topic@), offset as int),
            })
        },
        _ => {
            &&& next == State::Done
            &&& action == Action::Fail(ProduceError::OutOfTurn)
        },
    }
}

/// The offset that the counter's reply gives, or `None` where it gives
/// none.
pub fn allocated_offset(counter: Option<&str>) -> (offset: Option<i64>)
    ensures
        match offset_of_reply(
            match counter {
                Some(text) => Some(text@),
                None => None,
            },
        ) {
            Some(v) => offset == Some(v as i64),
            None => offset is None,
        },
{
    match counter {
        Some(text) => read_integer(text.as_bytes(), FIRST_OFFSET, i64::MAX),
        None => None,
    }
}

/// The increment to ask of the counter service for `topic`.
pub fn counter_update(topic: &str) -> (update: CounterUpdate)
    ensures
        update.is_for(topic@),
{
    CounterUpdate {
        key_name: String::from_str("pk"),
        key: String::from_str(topic),
        expression: String::from_str(
            "SET current_offset = if_not_exists(current_offset, :zero) + :inc",
        ),
        zero_name: String::from_str(":zero"),
        zero: String::from_str("0"),
        step_name: String::from_str(":inc"),
        step: String::from_str("1"),
        counter_name: String::from_str("current_offset"),
    }
}

/// An answer that reports an error to the client. `quoted_message` is the
/// message as a JSON string.
pub fn error_reply(quoted_message: &[u8]) -> (reply: Reply)
    ensures
        reply@ == (ReplyView { status: 400, json: true, body: error_body(quoted_message@) }),
{
    let mut body: Vec<u8> = Vec::new();
    append_text(&mut body, "{\"error\":");
    append_bytes(&mut body, quoted_message);
    append_text(&mut body, "}");
    assert(body@ =~= error_body(quoted_message@));
    Reply { status: 400, json: true, body }
}

/// The answer to a request that is refused: a client error that says why.
pub fn refusal(error: &InvalidRequest) -> (reply: Reply)
    ensures
        reply@ == (ReplyView { status: 400, json: true, body: refusal_body(*error) }),
{
    match error {
        InvalidRequest::MissingBody => {
            let mut body: Vec<u8> = Vec::new();
            append_text(&mut body, "{\"error\":\"missing request body\"}");
            assert(body@ =~= missing_body());
            Reply { status: 400, json: true, body }
        },
        InvalidRequest::UnreadableBody { reason } => {
            let mut message = String::from_str("invalid json: ");
            message.append(reason.as_str());
            let quoted = quote(message.as_str()).unwrap();
            error_reply(quoted.as_slice())
        },
        InvalidRequest::PayloadNotJson => {
            let mut body: Vec<u8> = Vec::new();
            append_text(&mut body, "{\"error\":\"invalid json: payload is not a JSON value\"}");
            assert(body@ =~= not_json_body());
            Reply { status: 400, json: true, body }
        },
    }
}

/// The answer to a write that succeeded. `quoted_topic` is the topic as a
/// JSON string.
pub fn produced_reply(quoted_topic: &[u8], offset: i64) -> (reply: Reply)
    ensures
        reply@ == (ReplyView {
            status: 200,
            json: true,
            body: produced_body(quoted_topic@, offset as int),
        }),
{
    let mut body: Vec<u8> = Vec::new();
    append_text(&mut body, "{\"topic\":");
    append_bytes(&mut body, quoted_topic);
    append_text(&mut body, ",\"offset\":");
    push_signed_decimal(&mut body, offset);
    append_text(&mut body, "}");
    assert(body@ =~= produced_body(quoted_topic@, offset as int));
    Reply { status: 200, json: true, body }
}

/// What follows a request whose payload was read: the increment of the
/// counter where the payload was found to be JSON, the answer that it is
/// unreadable where not.
pub fn take_payload(topic: String, payload: Vec<u8>, payload_is_json: bool) -> (r: (
    State,
    Action,
))
    ensures
        if payload_is_json {
            &&& r.0 == State::Allocating { topic, payload }
            &&& r.1 matches Action::Allocate(update)
            &&& update.is_for(topic@)
        } else {
            &&& r.0 == State::Done
            &&& r.1 matches Action::Respond(reply)
            &&& reply@ == (ReplyView {
                status: 400,
                json: true,
                body: refusal_body(InvalidRequest::PayloadNotJson),
            })
        },
{
    if payload_is_json {
        let update = counter_update(topic.as_str());
        (State::Allocating { topic, payload }, Action::Allocate(update))
    } else {
        (State::Done, Action::Respond(refusal(&InvalidRequest::PayloadNotJson)))
    }
}

/// Handles one event of a write: says what to do next, and in which state
/// the result of doing it is awaited.
pub fn handle(state: State, event: Event) -> (r: (State, Action))
    ensures
        follows(state, event, r.0, r.1),
{
    match (state, event) {
        (State::Start, Event::Request { topic, body }) => match body {
            Body::Missing => (
                State::Done,
                Action::Respond(refusal(&InvalidRequest::MissingBody)),
            ),
            Body::Unreadable { reason } => (
                State::Done,
                Action::Respond(refusal(&InvalidRequest::UnreadableBody { reason })),
            ),
            Body::Payload { json } => {
                let payload_is_json = check_json(json.as_slice());
                take_payload(topic, json, payload_is_json)
            },
        },
        (State::Allocating { topic, payload }, Event::AllocationFailed) => {
            (State::Done, Action::Fail(ProduceError::AllocationFailed))
        },
        (State::Allocating { topic, payload }, Event::Allocated { counter, now_millis }) => {
            match allocated_offset(borrowed(&counter)) {
                Some(offset) => {
                    let key = message_key(topic.as_str(), offset);
                    let message = Message { offset, payload, timestamp: now_millis };
                    let bytes = encode(&message);
                    (State::Writing { topic, offset }, Action::Put { key, bytes })
                },
                None => (State::Done, Action::Fail(ProduceError::AllocationFailed)),
            }
        },
        (State::Writing { topic, offset }, Event::WriteFailed) => {
            (State::Done, Action::Fail(ProduceError::StorageWriteFailed { offset }))
        },
        (State::Writing { topic, offset }, Event::Written) => {
            let quoted = quote(topic.as_str()).unwrap();
            (State::Done, Action::Respond(produced_reply(quoted.as_slice(), offset)))
        },
        _ => (State::Done, Action::Fail(ProduceError::OutOfTurn)),
    }
}

/// A reply that carries an offset as its decimal text gives that offset.
pub proof fn lemma_offset_is_counter_value(reply: Seq<char>, value: int)
    requires
        FIRST_OFFSET <= value <= i64::MAX,
        encode_utf8(reply) == signed_decimal(value),
    ensures
        offset_of_reply(Some(reply)) == Some(value),
{
    lemma_integer_of_signed_decimal(value);
}

/// Every offset that a reply gives is an offset that a message can have:
/// `FIRST_OFFSET` or larger.
pub proof fn lemma_offsets_are_positive(counter: Option<Seq<char>>)
    ensures
        offset_of_reply(counter) matches Some(offset) ==> FIRST_OFFSET <= offset <= i64::MAX,
{
}

/// The offsets that producers are given follow the counter. Where the
/// counter's replies to a run of increments carry increasing values, as an
/// atomic increment makes them, the offsets are those values: each later
/// one is larger than every earlier one, and no two are the same.
pub proof fn lemma_offsets_follow_counter(replies: Seq<Seq<char>>, values: Seq<int>)
    requires
        replies.len() == values.len(),
        forall|i: int|
            0 <= i < values.len() ==> FIRST_OFFSET <= #[trigger] values[i] <= i64::MAX
                && encode_utf8(replies[i]) == signed_decimal(values[i]),
        forall|i: int, j: int|
            0 <= i < j < values.len() ==> #[trigger] values[i] < #[trigger] values[j],
    ensures
        forall|i: int|
            0 <= i < replies.len() ==> offset_of_reply(Some(#[trigger] replies[i])) == Some(
                values[i],
            ),
        forall|i: int, j: int|
            0 <= i < j < replies.len() ==> offset_of_reply(Some(#[trigger] replies[i]))->0
                < offset_of_reply(Some(#[trigger] replies[j]))->0,
{
    assert forall|i: int| 0 <= i < replies.len() implies offset_of_reply(
        Some(#[trigger] replies[i]),
    ) == Some(values[i]) by {
        lemma_offset_is_counter_value(replies[i], values[i]);
    }
    assert forall|i: int, j: int| 0 <= i < j < replies.len() implies offset_of_reply(
        Some(#[trigger] replies[i]),
    )->0 < offset_of_reply(Some(#[trigger] replies[j]))->0 by {
        assert(values[i] < values[j]);
    }
}

} // verus!
