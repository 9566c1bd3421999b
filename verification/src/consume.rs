//! Reading a topic: which keys to list, and what to make of the bodies that
//! were fetched for them.

use crate::bytes::{append_bytes, append_text, borrowed, text_view};
use crate::codec::{decode, decoded, encode, encoded, Message, MessageView};
use crate::decimal::{integer_within, parse_i32, parse_i64, push_signed_decimal, signed_decimal};
use crate::key::{
    bytes_less, key_less, key_text, lemma_key_order, lemma_key_order_in_bytes, message_key,
    offset_bound, prefix_text, topic_prefix,
};
use crate::reply::{Reply, ReplyView};
use vstd::prelude::*;
use vstd::string::StringSliceAdditionalSpecFns;
use vstd::utf8::encode_utf8;

verus! {

/// The messages as mathematical values.
pub open spec fn views_of(messages: Seq<Message>) -> Seq<MessageView> {
    messages.map_values(|m: Message| m@)
}

/// What was fetched for one key, as a mathematical value: the bytes, or
/// nothing where the fetch failed.
pub open spec fn body_view(body: Option<Vec<u8>>) -> Option<Seq<u8>> {
    match body {
        Some(bytes) => Some(bytes@),
        None => None,
    }
}

/// What was fetched, as mathematical values.
pub open spec fn bodies_view(bodies: Seq<Option<Vec<u8>>>) -> Seq<Option<Seq<u8>>> {
    bodies.map_values(|b: Option<Vec<u8>>| body_view(b))
}

/// Why the fetch for one key gave no message. Neither fails the read: the
/// message is left out of the page.
#[derive(Debug, Clone, Copy, PartialEq, Eq, Structural)]
pub enum FetchError {
    /// The body could not be fetched.
    StorageReadFailed,
    /// The body was fetched, but holds no well-formed message.
    MalformedMessage,
}

/// What one fetch gave: the message, or why there is none.
pub open spec fn read_of(body: Option<Seq<u8>>) -> Result<MessageView, FetchError> {
    match body {
        Some(bytes) => match decoded(bytes) {
            Some(m) => Ok(m),
            None => Err(FetchError::MalformedMessage),
        },
        None => Err(FetchError::StorageReadFailed),
    }
}

/// The message that one fetched body yields: none where the fetch failed or
/// the body is malformed.
pub open spec fn yield_of(body: Option<Seq<u8>>) -> Option<MessageView> {
    match read_of(body) {
        Ok(m) => Some(m),
        Err(_) => None,
    }
}

/// The messages that the fetched bodies yield, in the order of the bodies.
/// A failed fetch and a malformed body yield nothing.
pub open spec fn survivors(bodies: Seq<Option<Seq<u8>>>) -> Seq<MessageView>
    decreases bodies.len(),
{
    if bodies.len() == 0 {
        Seq::empty()
    } else {
        match yield_of(bodies.last()) {
            Some(m) => survivors(bodies.drop_last()).push(m),
            None => survivors(bodies.drop_last()),
        }
    }
}

/// The messages with the given offset, in the order in which they stand.
pub open spec fn at_offset(messages: Seq<MessageView>, offset: int) -> Seq<MessageView>
    decreases messages.len(),
{
    if messages.len() == 0 {
        Seq::empty()
    } else if messages.last().offset == offset {
        at_offset(messages.drop_last(), offset).push(messages.last())
    } else {
        at_offset(messages.drop_last(), offset)
    }
}

/// No message stands before one with a smaller offset.
pub open spec fn ascending(messages: Seq<MessageView>) -> bool {
    forall|i: int, j: int|
        0 <= i < j < messages.len() ==> (#[trigger] messages[i]).offset <= (
        #[trigger] messages[j]).offset
}

/// `sorted` is `given` put in ascending order of offset, messages with the
/// same offset keeping the order they had.
pub open spec fn is_ordering_of(sorted: Seq<MessageView>, given: Seq<MessageView>) -> bool {
    &&& ascending(sorted)
    &&& forall|offset: int| #[trigger] at_offset(sorted, offset) == at_offset(given, offset)
}

/// Where the next read should start: one past the last message, or, when
/// there is no message, where this read started. The cursor stays within
/// `i64`: after a message at the largest offset it does not move on.
pub open spec fn next_after(messages: Seq<MessageView>, start: int) -> int {
    if messages.len() == 0 {
        start
    } else if messages.last().offset < i64::MAX {
        messages.last().offset + 1
    } else {
        i64::MAX as int
    }
}

/// The messages with an offset, taken from two runs of messages put end to
/// end, are those from the first run followed by those from the second.
proof fn lemma_at_offset_add(a: Seq<MessageView>, b: Seq<MessageView>, offset: int)
    ensures
        at_offset(a + b, offset) == at_offset(a, offset) + at_offset(b, offset),
    decreases b.len(),
{
    if b.len() == 0 {
        assert(a + b =~= a);
        assert(at_offset(a, offset) + at_offset(b, offset) =~= at_offset(a, offset));
    } else {
        assert((a + b).drop_last() =~= a + b.drop_last());
        assert((a + b).last() == b.last());
        lemma_at_offset_add(a, b.drop_last(), offset);
        if b.last().offset == offset {
            assert(at_offset(a, offset) + at_offset(b.drop_last(), offset).push(b.last())
                =~= (at_offset(a, offset) + at_offset(b.drop_last(), offset)).push(b.last()));
        }
    }
}

/// Where no message has the offset, none is found.
proof fn lemma_at_offset_none(messages: Seq<MessageView>, offset: int)
    requires
        forall|i: int| 0 <= i < messages.len() ==> (#[trigger] messages[i]).offset != offset,
    ensures
        at_offset(messages, offset) == Seq::<MessageView>::empty(),
    decreases messages.len(),
{
    if messages.len() > 0 {
        let shorter = messages.drop_last();
        assert forall|i: int| 0 <= i < shorter.len() implies (#[trigger] shorter[i]).offset
            != offset by {
            assert(shorter[i] == messages[i]);
        }
        lemma_at_offset_none(shorter, offset);
        assert(messages.last() == messages[messages.len() - 1]);
    }
}

/// Every message found at an offset has that offset and stands in the run
/// it was taken from.
proof fn lemma_at_offset_members(messages: Seq<MessageView>, offset: int)
    ensures
        forall|i: int|
            0 <= i < at_offset(messages, offset).len() ==> (#[trigger] at_offset(
                messages,
                offset,
            )[i]).offset == offset && messages.contains(at_offset(messages, offset)[i]),
        messages.len() > 0 && messages.last().offset == offset ==> at_offset(
            messages,
            offset,
        ).len() > 0 && at_offset(messages, offset).last() == messages.last(),
    decreases messages.len(),
{
    if messages.len() > 0 {
        let shorter = messages.drop_last();
        lemma_at_offset_members(shorter, offset);
        let found = at_offset(messages, offset);
        assert forall|i: int| 0 <= i < found.len() implies (#[trigger] found[i]).offset == offset
            && messages.contains(found[i]) by {
            if i < at_offset(shorter, offset).len() {
                let x = at_offset(shorter, offset)[i];
                assert(shorter.contains(x));
                let j = choose|j: int| 0 <= j < shorter.len() && shorter[j] == x;
                assert(messages[j] == x);
            } else {
                assert(found[i] == messages[messages.len() - 1]);
            }
        }
    }
}

/// Putting a message into an ordered run, behind every message whose offset
/// is not larger, gives an ordering of the run with the message added at
/// its end.
proof fn lemma_insert_orders(
    sorted: Seq<MessageView>,
    given: Seq<MessageView>,
    at: int,
    m: MessageView,
)
    requires
        is_ordering_of(sorted, given),
        0 <= at <= sorted.len(),
        forall|i: int| 0 <= i < at ==> (#[trigger] sorted[i]).offset <= m.offset,
        forall|i: int| at <= i < sorted.len() ==> (#[trigger] sorted[i]).offset > m.offset,
    ensures
        is_ordering_of(sorted.insert(at, m), given.push(m)),
{
    let before = sorted.subrange(0, at);
    let after = sorted.subrange(at, sorted.len() as int);
    let grown = sorted.insert(at, m);
    assert(grown =~= before.push(m) + after);
    assert(sorted =~= before + after);
    assert(ascending(grown)) by {
        assert forall|i: int, j: int| 0 <= i < j < grown.len() implies (#[trigger] grown[i]).offset
            <= (#[trigger] grown[j]).offset by {
            let gi = if i < at {
                sorted[i]
            } else if i == at {
                m
            } else {
                sorted[i - 1]
            };
            let gj = if j < at {
                sorted[j]
            } else if j == at {
                m
            } else {
                sorted[j - 1]
            };
            assert(grown[i] == gi);
            assert(grown[j] == gj);
        }
    }
    assert forall|offset: int| #[trigger]
        at_offset(grown, offset) == at_offset(given.push(m), offset) by {
        lemma_at_offset_add(before.push(m), after, offset);
        lemma_at_offset_add(before, after, offset);
        assert(before.push(m).drop_last() =~= before);
        assert(given.push(m).drop_last() =~= given);
        assert(at_offset(sorted, offset) == at_offset(given, offset));
        if m.offset == offset {
            assert forall|i: int| 0 <= i < after.len() implies (#[trigger] after[i]).offset
                != offset by {
                assert(after[i] == sorted[at + i]);
            }
            lemma_at_offset_none(after, offset);
            assert(at_offset(before, offset).push(m) + Seq::<MessageView>::empty() =~= at_offset(
                before,
                offset,
            ).push(m));
            assert(at_offset(before, offset) + Seq::<MessageView>::empty() =~= at_offset(
                before,
                offset,
            ));
        }
    }
}

/// Only one run of messages is the ordering of a given run.
pub proof fn lemma_ordering_unique(
    a: Seq<MessageView>,
    b: Seq<MessageView>,
    given: Seq<MessageView>,
)
    requires
        is_ordering_of(a, given),
        is_ordering_of(b, given),
    ensures
        a == b,
    decreases a.len(),
{
    if a.len() == 0 {
        if b.len() > 0 {
            let k = b.last().offset;
            lemma_at_offset_members(b, k);
            assert(at_offset(a, k) == at_offset(given, k));
            assert(at_offset(b, k) == at_offset(given, k));
        }
        assert(a =~= b);
    } else {
        let ka = a.last().offset;
        lemma_at_offset_members(a, ka);
        assert(at_offset(a, ka) == at_offset(given, ka));
        assert(at_offset(b, ka) == at_offset(given, ka));
        lemma_at_offset_members(b, ka);
        assert(b.len() > 0) by {
            let x = at_offset(b, ka)[0];
            assert(b.contains(x));
        }
        let kb = b.last().offset;
        lemma_at_offset_members(b, kb);
        assert(at_offset(a, kb) == at_offset(given, kb));
        assert(at_offset(b, kb) == at_offset(given, kb));
        lemma_at_offset_members(a, kb);
        // The largest offset of either run occurs in the other.
        assert(kb <= ka) by {
            let x = at_offset(a, kb)[0];
            assert(a.contains(x));
            let i = choose|i: int| 0 <= i < a.len() && a[i] == x;
            if i < a.len() - 1 {
                assert(a[i].offset <= a[a.len() - 1].offset);
            }
        }
        assert(ka <= kb) by {
            let x = at_offset(b, ka)[0];
            assert(b.contains(x));
            let i = choose|i: int| 0 <= i < b.len() && b[i] == x;
            if i < b.len() - 1 {
                assert(b[i].offset <= b[b.len() - 1].offset);
            }
        }
        assert(a.last() == b.last());
        let a0 = a.drop_last();
        let b0 = b.drop_last();
        assert(ascending(a0)) by {
            assert forall|i: int, j: int| 0 <= i < j < a0.len() implies (#[trigger] a0[i]).offset
                <= (#[trigger] a0[j]).offset by {
                assert(a0[i] == a[i] && a0[j] == a[j]);
            }
        }
        assert(ascending(b0)) by {
            assert forall|i: int, j: int| 0 <= i < j < b0.len() implies (#[trigger] b0[i]).offset
                <= (#[trigger] b0[j]).offset by {
                assert(b0[i] == b[i] && b0[j] == b[j]);
            }
        }
        assert forall|offset: int| #[trigger] at_offset(a0, offset) == at_offset(b0, offset) by {
            assert(at_offset(a, offset) == at_offset(given, offset));
            assert(at_offset(b, offset) == at_offset(given, offset));
            if offset == ka {
                assert(at_offset(a, offset).drop_last() =~= at_offset(a0, offset));
                assert(at_offset(b, offset).drop_last() =~= at_offset(b0, offset));
            }
        }
        lemma_ordering_unique(a0, b0, b0);
        assert(a =~= a0.push(a.last()));
        assert(b =~= b0.push(b.last()));
    }
}

/// Where a read starts when the request does not say.
pub const DEFAULT_START: i64 = 1;

/// How many messages a read asks for when the request does not say.
pub const DEFAULT_LIMIT: i32 = 10;

/// The most messages that one read asks for.
pub const MAX_LIMIT: i32 = 100;

/// How many bodies are fetched at a time.
pub const MAX_CONCURRENT_READS: usize = 10;

/// The offset at which a read starts: the request's `offset` parameter where
/// it is an integer that `i64` holds, and `DEFAULT_START` where the
/// parameter is absent or is no such integer.
pub open spec fn start_offset_of(param: Option<Seq<char>>) -> int {
    match param {
        Some(text) => match integer_within(encode_utf8(text), i64::MIN as int, i64::MAX as int) {
            Some(v) => v,
            None => DEFAULT_START as int,
        },
        None => DEFAULT_START as int,
    }
}

/// `limit`, lowered to `MAX_LIMIT` where it is above.
pub open spec fn capped(limit: int) -> int {
    if limit > MAX_LIMIT {
        MAX_LIMIT as int
    } else {
        limit
    }
}

/// The number of messages that a read asks for: the request's `limit`
/// parameter where it is an integer that `i32` holds, `DEFAULT_LIMIT` where
/// the parameter is absent or is no such integer; in each case capped.
pub open spec fn limit_of(param: Option<Seq<char>>) -> int {
    match param {
        Some(text) => match integer_within(encode_utf8(text), i32::MIN as int, i32::MAX as int) {
            Some(v) => capped(v),
            None => DEFAULT_LIMIT as int,
        },
        None => DEFAULT_LIMIT as int,
    }
}

/// The key after which a listing starts, so that its first key is that of
/// the first message at or after `start_offset`: the key just before, or
/// none where the read starts at the first offset or earlier.
pub open spec fn start_after_of(topic: Seq<char>, start_offset: int) -> Option<Seq<char>> {
    if start_offset > 1 {
        Some(key_text(topic, start_offset - 1))
    } else {
        None
    }
}

/// A request to list keys of the object store.
#[derive(Debug, Clone, PartialEq, Eq)]
pub struct Listing {
    /// Only keys with this prefix are listed.
    pub prefix: String,
    /// Only keys after this one are listed.
    pub start_after: Option<String>,
    /// At most this many keys are listed.
    pub max_keys: i32,
}

impl Listing {
    /// This is the listing for a read of `topic` from `start_offset` with
    /// the given limit.
    pub open spec fn is_for(self, topic: Seq<char>, start_offset: int, limit: int) -> bool {
        &&& self.prefix@ == prefix_text(topic)
        &&& match self.start_after {
            Some(key) => start_after_of(topic, start_offset) == Some(key@),
            None => start_after_of(topic, start_offset) is None,
        }
        &&& self.max_keys == capped(limit)
    }
}

/// What a read returns: messages in ascending order of offset, and where
/// the next read should start.
#[derive(Debug, Clone, PartialEq, Eq)]
pub struct Page {
    pub messages: Vec<Message>,
    pub next_offset: i64,
}

impl Page {
    /// This is the page that a read from `start_offset` makes of the
    /// fetched `bodies`.
    pub open spec fn is_made_of(self, start_offset: int, bodies: Seq<Option<Seq<u8>>>) -> bool {
        &&& is_ordering_of(views_of(self.messages@), survivors(bodies))
        &&& self.next_offset == next_after(views_of(self.messages@), start_offset)
    }
}

/// The stored forms of the messages, with a comma between one and the next.
pub open spec fn joined(messages: Seq<MessageView>) -> Seq<u8>
    decreases messages.len(),
{
    if messages.len() == 0 {
        Seq::empty()
    } else if messages.len() == 1 {
        encoded(messages[0])
    } else {
        joined(messages.drop_last()) + seq![44u8] + encoded(messages.last())
    }
}

/// The body of the answer to a read.
pub open spec fn page_body(messages: Seq<MessageView>, next_offset: int) -> Seq<u8> {
    "{\"messages\":[".spec_bytes() + joined(messages) + "],\"next_offset\":".spec_bytes()
        + signed_decimal(next_offset) + "}".spec_bytes()
}

/// Reads the `offset` parameter of a request.
pub fn start_offset(param: Option<&str>) -> (start: i64)
    ensures
        start == start_offset_of(
            match param {
                Some(text) => Some(text@),
                None => None,
            },
        ),
{
    match param {
        Some(text) => match parse_i64(text) {
            Some(v) => v,
            None => DEFAULT_START,
        },
        None => DEFAULT_START,
    }
}

/// Reads the `limit` parameter of a request.
pub fn page_limit(param: Option<&str>) -> (limit: i32)
    ensures
        limit == limit_of(
            match param {
                Some(text) => Some(text@),
                None => None,
            },
        ),
        limit <= MAX_LIMIT,
{
    match param {
        Some(text) => match parse_i32(text) {
            Some(v) => if v > MAX_LIMIT {
                MAX_LIMIT
            } else {
                v
            },
            None => DEFAULT_LIMIT,
        },
        None => DEFAULT_LIMIT,
    }
}

/// Says which keys to list for a read of `topic` that starts at
/// `start_offset` and asks for `limit` messages.
pub fn plan_listing(topic: &str, start_offset: i64, limit: i32) -> (listing: Listing)
    ensures
        listing.is_for(topic@, start_offset as int, limit as int),
        listing.max_keys <= MAX_LIMIT,
{
    let start_after = if start_offset > 1 {
        Some(message_key(topic, start_offset - 1))
    } else {
        None
    };
    let max_keys: i32 = if limit > MAX_LIMIT {
        MAX_LIMIT
    } else {
        limit
    };
    Listing { prefix: topic_prefix(topic), start_after, max_keys }
}

/// Reads what the fetch for one key gave.
pub fn read_fetched(body: &Option<Vec<u8>>) -> (r: Result<Message, FetchError>)
    ensures
        match r {
            Ok(message) => read_of(body_view(*body)) == Ok::<MessageView, FetchError>(message@),
            Err(e) => read_of(body_view(*body)) == Err::<MessageView, FetchError>(e),
        },
{
    match body {
        Some(bytes) => match decode(bytes.as_slice()) {
            Ok(message) => Ok(message),
            Err(_) => Err(FetchError::MalformedMessage),
        },
        None => Err(FetchError::StorageReadFailed),
    }
}

/// Puts `message` into `sorted`, behind every message whose offset is not
/// larger than its own.
fn insert_in_order(
    sorted: &mut Vec<Message>,
    message: Message,
    Ghost(given): Ghost<Seq<MessageView>>,
)
    requires
        is_ordering_of(views_of(old(sorted)@), given),
    ensures
        is_ordering_of(views_of(final(sorted)@), given.push(message@)),
{
    let mut at: usize = sorted.len();
    while at > 0 && sorted[at - 1].offset > message.offset
        invariant
            at <= sorted@.len(),
            forall|i: int|
                at <= i < sorted@.len() ==> (#[trigger] sorted@[i]).offset > message.offset,
        decreases at,
    {
        at = at - 1;
    }
    proof {
        let views = views_of(sorted@);
        assert forall|i: int| 0 <= i < at implies (#[trigger] views[i]).offset
            <= message@.offset by {
            if i < at - 1 {
                assert(views[i].offset <= views[at - 1].offset);
            }
            assert(views[at - 1] == sorted@[at - 1]@);
            assert(views[i] == sorted@[i]@);
        }
        assert forall|i: int| at <= i < views.len() implies (#[trigger] views[i]).offset
            > message@.offset by {
            assert(views[i] == sorted@[i]@);
            assert(sorted@[i].offset > message.offset);
        }
        lemma_insert_orders(views, given, at as int, message@);
        assert(views_of(sorted@.insert(at as int, message)) =~= views.insert(at as int, message@));
    }
    sorted.insert(at, message);
}

/// Makes a page of what was fetched: decodes each body, leaves out those
/// that could not be fetched or are malformed, puts the rest in ascending
/// order of offset, and says where the next read should start.
///
/// `bodies` holds, in any order, what the fetch of each listed key
/// returned, `None` where it failed.
pub fn assemble(start_offset: i64, bodies: &Vec<Option<Vec<u8>>>) -> (page: Page)
    ensures
        page.is_made_of(start_offset as int, bodies_view(bodies@)),
{
    let mut messages: Vec<Message> = Vec::new();
    let ghost all = bodies_view(bodies@);
    let mut at: usize = 0;
    assert(all.subrange(0, 0) =~= Seq::<Option<Seq<u8>>>::empty());
    assert(views_of(messages@) =~= Seq::<MessageView>::empty());
    assert(is_ordering_of(views_of(messages@), survivors(all.subrange(0, 0))));
    while at < bodies.len()
        invariant
            at <= bodies@.len(),
            all == bodies_view(bodies@),
            is_ordering_of(views_of(messages@), survivors(all.subrange(0, at as int))),
        decreases bodies@.len() - at,
    {
        let ghost seen = all.subrange(0, at as int);
        let ghost next = all.subrange(0, at + 1);
        assert(next.drop_last() =~= seen);
        assert(next.last() == body_view(bodies@[at as int]));
        match read_fetched(&bodies[at]) {
            Ok(message) => {
                insert_in_order(&mut messages, message, Ghost(survivors(seen)));
            },
            Err(_) => {},
        }
        at = at + 1;
    }
    assert(all.subrange(0, at as int) =~= all);
    let next_offset: i64 = if messages.len() == 0 {
        start_offset
    } else {
        let last: i64 = messages[messages.len() - 1].offset;
        if last < i64::MAX {
            last + 1
        } else {
            i64::MAX
        }
    };
    proof {
        let views = views_of(messages@);
        if messages@.len() > 0 {
            assert(views.last() == messages@[messages@.len() - 1]@);
        }
    }
    Page { messages, next_offset }
}

/// The answer to a read: status 200 and the page as JSON.
pub fn page_reply(page: &Page) -> (reply: Reply)
    ensures
        reply@ == (ReplyView {
            status: 200,
            json: true,
            body: page_body(views_of(page.messages@), page.next_offset as int),
        }),
{
    let mut body: Vec<u8> = Vec::new();
    append_text(&mut body, "{\"messages\":[");
    let ghost opened = body@;
    let ghost views = views_of(page.messages@);
    let mut at: usize = 0;
    assert(views.subrange(0, 0) =~= Seq::<MessageView>::empty());
    assert(body@ =~= opened + joined(views.subrange(0, 0)));
    while at < page.messages.len()
        invariant
            at <= page.messages@.len(),
            views == views_of(page.messages@),
            body@ == opened + joined(views.subrange(0, at as int)),
        decreases page.messages@.len() - at,
    {
        let ghost seen = views.subrange(0, at as int);
        let ghost next = views.subrange(0, at + 1);
        assert(next.drop_last() =~= seen);
        assert(next.last() == page.messages@[at as int]@);
        if at > 0 {
            body.push(44);
        }
        let stored = encode(&page.messages[at]);
        append_bytes(&mut body, stored.as_slice());
        at = at + 1;
        assert(body@ =~= opened + joined(next));
    }
    assert(views.subrange(0, at as int) =~= views);
    append_text(&mut body, "],\"next_offset\":");
    push_signed_decimal(&mut body, page.next_offset);
    append_text(&mut body, "}");
    Reply { status: 200, json: true, body }
}

/// Where the handling of a read stands.
#[derive(Debug, Clone, Copy, PartialEq, Eq, Structural)]
pub enum State {
    /// Nothing has happened yet.
    Start,
    /// The keys are being listed.
    Listing { start_offset: i64 },
    /// The bodies are being fetched.
    Fetching { start_offset: i64 },
    /// The read was answered or has failed.
    Done,
}

/// What happened outside.
#[derive(Debug, Clone, PartialEq, Eq)]
pub enum Event {
    /// A request to read `topic` arrived, with these query parameters.
    Request { topic: String, offset: Option<String>, limit: Option<String> },
    /// The listing returned these keys.
    Listed { keys: Vec<String> },
    /// The listing failed.
    ListFailed,
    /// The fetches are over. `bodies` holds what each returned, `None` where
    /// it failed, in the order in which they completed.
    Fetched { bodies: Vec<Option<Vec<u8>>> },
}

/// Why a read failed as a whole.
#[derive(Debug, Clone, Copy, PartialEq, Eq, Structural)]
pub enum ConsumeError {
    /// The keys could not be listed.
    ListingFailed,
    /// An event arrived that the state does not expect.
    OutOfTurn,
}

/// What to do next.
#[derive(Debug, Clone, PartialEq, Eq)]
pub enum Action {
    /// List keys, then report `Listed` or `ListFailed`.
    List(Listing),
    /// Fetch the bodies of these keys, at most `concurrency` at a time,
    /// then report `Fetched`.
    Fetch { keys: Vec<String>, concurrency: usize },
    /// Answer the request.
    Respond(Reply),
    /// Give the request up with this error.
    Fail(ConsumeError),
}

/// The answer to a read from `start_offset` for which `bodies` were
/// fetched.
pub open spec fn is_answer_to(
    reply: Reply,
    start_offset: int,
    bodies: Seq<Option<Seq<u8>>>,
) -> bool {
    exists|messages: Seq<MessageView>|
        #![trigger is_ordering_of(messages, survivors(bodies))]
        is_ordering_of(messages, survivors(bodies)) && reply@ == (ReplyView {
            status: 200,
            json: true,
            body: page_body(messages, next_after(messages, start_offset)),
        })
}

/// `next` and `action` are what follows when `event` arrives in `state`.
pub open spec fn follows(state: State, event: Event, next: State, action: Action) -> bool {
    match (state, event) {
        (State::Start, Event::Request { topic, offset, limit }) => {
            let start = start_offset_of(text_view(offset));
            &&& next == State::Listing { start_offset: start as i64 }
            &&& action matches Action::List(listing)
            &&& listing.is_for(topic@, start, limit_of(text_view(limit)))
        },
        (State::Listing { start_offset }, Event::ListFailed) => {
            &&& next == State::Done
            &&& action == Action::Fail(ConsumeError::ListingFailed)
        },
        (State::Listing { start_offset }, Event::Listed { keys }) => {
            if keys@.len() == 0 {
                &&& next == State::Done
                &&& action matches Action::Respond(reply)
                &&& reply@ == (ReplyView {
                    status: 200,
                    json: true,
                    body: page_body(Seq::empty(), start_offset as int),
                })
            } else {
                &&& next == State::Fetching { start_offset }
                &&& action == Action::Fetch { keys, concurrency: MAX_CONCURRENT_READS }
            }
        },
        (State::Fetching { start_offset }, Event::Fetched { bodies }) => {
            &&& next == State::Done
            &&& action matches Action::Respond(reply)
            &&& is_answer_to(reply, start_offset as int, bodies_view(bodies@))
        },
        _ => {
            &&& next == State::Done
            &&& action == Action::Fail(ConsumeError::OutOfTurn)
        },
    }
}

/// Handles one event of a read: says what to do next, and in which state
/// the result of doing it is awaited.
pub fn handle(state: State, event: Event) -> (r: (State, Action))
    ensures
        follows(state, event, r.0, r.1),
{
    match (state, event) {
        (State::Start, Event::Request { topic, offset, limit }) => {
            let start = start_offset(borrowed(&offset));
            let limit = page_limit(borrowed(&limit));
            let listing = plan_listing(topic.as_str(), start, limit);
            (State::Listing { start_offset: start }, Action::List(listing))
        },
        (State::Listing { start_offset }, Event::ListFailed) => {
            (State::Done, Action::Fail(ConsumeError::ListingFailed))
        },
        (State::Listing { start_offset }, Event::Listed { keys }) => {
            if keys.len() == 0 {
                let page = Page { messages: Vec::new(), next_offset: start_offset };
                assert(views_of(page.messages@) =~= Seq::<MessageView>::empty());
                (State::Done, Action::Respond(page_reply(&page)))
            } else {
                (
                    State::Fetching { start_offset },
                    Action::Fetch { keys, concurrency: MAX_CONCURRENT_READS },
                )
            }
        },
        (State::Fetching { start_offset }, Event::Fetched { bodies }) => {
            let page = assemble(start_offset, &bodies);
            let reply = page_reply(&page);
            assert(is_ordering_of(views_of(page.messages@), survivors(bodies_view(bodies@))));
            (State::Done, Action::Respond(reply))
        },
        _ => (State::Done, Action::Fail(ConsumeError::OutOfTurn)),
    }
}

/// A listing that starts after the key just before `start_offset` passes
/// over the keys of all earlier offsets and of no other: the key of an
/// offset stands after that key exactly when the offset is `start_offset`
/// or later.
pub proof fn lemma_listing_starts_at(topic: Seq<char>, start_offset: int, offset: int)
    requires
        1 < start_offset <= offset_bound(),
        0 <= offset < offset_bound(),
    ensures
        start_after_of(topic, start_offset) == Some(key_text(topic, start_offset - 1)),
        key_less(key_text(topic, start_offset - 1), key_text(topic, offset)) <==> start_offset
            <= offset,
        bytes_less(
            encode_utf8(key_text(topic, start_offset - 1)),
            encode_utf8(key_text(topic, offset)),
        ) <==> start_offset <= offset,
{
    lemma_key_order(topic, start_offset - 1, offset);
    lemma_key_order_in_bytes(topic, start_offset - 1, offset);
}

/// A read that finds nothing returns no message and leaves the cursor where
/// the read started: whether no key was listed, or every fetch failed, or
/// every body was malformed.
pub proof fn lemma_nothing_found(
    messages: Seq<MessageView>,
    start_offset: int,
    bodies: Seq<Option<Seq<u8>>>,
)
    requires
        is_ordering_of(messages, survivors(bodies)),
        forall|i: int| 0 <= i < bodies.len() ==> yield_of(#[trigger] bodies[i]) is None,
    ensures
        messages == Seq::<MessageView>::empty(),
        next_after(messages, start_offset) == start_offset,
        page_body(messages, next_after(messages, start_offset)) == page_body(
            Seq::empty(),
            start_offset,
        ),
{
    lemma_no_survivors(bodies);
    lemma_ordering_unique(messages, Seq::empty(), Seq::empty());
}

/// Bodies that yield nothing leave no survivors.
proof fn lemma_no_survivors(bodies: Seq<Option<Seq<u8>>>)
    requires
        forall|i: int| 0 <= i < bodies.len() ==> yield_of(#[trigger] bodies[i]) is None,
    ensures
        survivors(bodies) == Seq::<MessageView>::empty(),
    decreases bodies.len(),
{
    if bodies.len() > 0 {
        let shorter = bodies.drop_last();
        assert forall|i: int| 0 <= i < shorter.len() implies yield_of(#[trigger] shorter[i])
            is None by {
            assert(shorter[i] == bodies[i]);
        }
        lemma_no_survivors(shorter);
        assert(bodies.last() == bodies[bodies.len() - 1]);
    }
}

/// The messages of a page stand in ascending order of offset, whatever the
/// order in which the bodies arrived, and the cursor lies behind the last
/// of them.
pub proof fn lemma_page_ascending(
    messages: Seq<MessageView>,
    start_offset: int,
    bodies: Seq<Option<Seq<u8>>>,
)
    requires
        is_ordering_of(messages, survivors(bodies)),
    ensures
        forall|i: int, j: int|
            0 <= i < j < messages.len() ==> (#[trigger] messages[i]).offset <= (
            #[trigger] messages[j]).offset,
        forall|i: int|
            0 <= i < messages.len() && (#[trigger] messages[i]).offset < i64::MAX
                ==> messages[i].offset < next_after(messages, start_offset),
{
    assert forall|i: int|
        0 <= i < messages.len() && (#[trigger] messages[i]).offset < i64::MAX implies messages[i]
            .offset
        < next_after(messages, start_offset) by {
        if i < messages.len() - 1 {
            assert(messages[i].offset <= messages[messages.len() - 1].offset);
        }
    }
}

} // verus!
