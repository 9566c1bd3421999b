//! The stored form of a message: a JSON object with the fields `offset`,
//! `payload` and `timestamp`, in that order and without white space between
//! them. The payload is carried as the JSON text it was given as.
//!
//! # Writing one form, reading any
//!
//! [`encode`] writes a message in exactly one form, the stored form.
//! [`decode`] reads the stored form by itself, which is what makes reading
//! the exact inverse of writing. Bytes that are not in the stored form it
//! hands to the JSON crate: a JSON object that holds the three fields is
//! read whatever their order, with white space between its tokens and with
//! further members, which are ignored; of members with the same name the
//! JSON crate keeps the last. In either case `offset` and `timestamp` must
//! be written in plain decimal (`7`, not `07`, `-0`, `7.0` or `7e0`), and
//! the payload is kept as the text it has in the object.

use crate::bytes::{append_bytes, append_text, continues_with};
use crate::decimal::{
    decimal, is_digit, lemma_decimal_canonical, lemma_decimal_injective,
    lemma_signed_decimal_injective, parse_decimal, parse_signed_decimal, push_decimal,
    push_signed_decimal, signed_decimal, MINUS,
};
use crate::json::{check_json, is_json, json_members, members_view, read_members};
use vstd::prelude::*;
use vstd::slice::{slice_subrange, slice_to_vec};
use vstd::string::StringSliceAdditionalSpecFns;

verus! {

/// One message of a topic.
///
/// [`encode`] writes it as the object
/// `{"offset":N,"payload":P,"timestamp":T}`, with its fields in this order,
/// no white space outside `P`, and `N` and `T` in plain decimal. [`decode`]
/// reads this and every other JSON object with these three fields.
#[derive(Debug, Clone, PartialEq, Eq)]
pub struct Message {
    /// The position of the message in its topic.
    pub offset: i64,
    /// The payload, as JSON text.
    pub payload: Vec<u8>,
    /// When the message was produced, in milliseconds since the epoch.
    pub timestamp: u128,
}

/// What a message is: its three fields as mathematical values.
pub struct MessageView {
    pub offset: int,
    pub payload: Seq<u8>,
    pub timestamp: nat,
}

impl View for Message {
    type V = MessageView;

    open spec fn view(&self) -> MessageView {
        MessageView {
            offset: self.offset as int,
            payload: self.payload@,
            timestamp: self.timestamp as nat,
        }
    }
}

impl MessageView {
    /// The offset and the timestamp are numbers that a `Message` can hold.
    pub open spec fn fits(self) -> bool {
        &&& i64::MIN <= self.offset <= i64::MAX
        &&& self.timestamp <= u128::MAX
    }

    /// The message can be held, and its payload is JSON.
    pub open spec fn well_formed(self) -> bool {
        &&& self.fits()
        &&& is_json(self.payload)
    }
}

/// Why some bytes were not read as a message.
#[derive(Debug, Clone, Copy, PartialEq, Eq, Structural)]
pub enum DecodeError {
    /// The bytes are no message: they are no JSON object, or one of the
    /// three fields is missing or is not what it has to be, an integer that
    /// fits for `offset` and `timestamp`, JSON for `payload`.
    MalformedMessage,
}

/// The bytes that open a stored message, up to its offset.
pub open spec fn offset_tag() -> Seq<u8> {
    "{\"offset\":".spec_bytes()
}

/// The bytes between the offset and the payload.
pub open spec fn payload_tag() -> Seq<u8> {
    ",\"payload\":".spec_bytes()
}

/// The bytes between the payload and the timestamp.
pub open spec fn timestamp_tag() -> Seq<u8> {
    ",\"timestamp\":".spec_bytes()
}

/// The byte that closes a stored message.
pub open spec fn close_tag() -> Seq<u8> {
    "}".spec_bytes()
}

/// A stored message up to its payload.
pub open spec fn head(offset: int) -> Seq<u8> {
    offset_tag() + signed_decimal(offset) + payload_tag()
}

/// A stored message after its payload.
pub open spec fn tail(timestamp: nat) -> Seq<u8> {
    timestamp_tag() + decimal(timestamp) + close_tag()
}

/// The stored form of `m`.
pub open spec fn encoded(m: MessageView) -> Seq<u8> {
    head(m.offset) + m.payload + tail(m.timestamp)
}

/// `bytes` is the stored form of the well-formed message `m`.
pub open spec fn is_record_of(bytes: Seq<u8>, m: MessageView) -> bool {
    m.well_formed() && encoded(m) == bytes
}

/// The well-formed message whose stored form `bytes` is, if there is one.
pub open spec fn decoded_stored(bytes: Seq<u8>) -> Option<MessageView> {
    if exists|m: MessageView| is_record_of(bytes, m) {
        Some(choose|m: MessageView| is_record_of(bytes, m))
    } else {
        None
    }
}

/// `text` is the signed decimal text of `i`, and `i64` holds `i`.
pub open spec fn is_offset_text(text: Seq<u8>, i: int) -> bool {
    i64::MIN <= i <= i64::MAX && signed_decimal(i) == text
}

/// `text` is the decimal text of `n`, and `u128` holds `n`.
pub open spec fn is_timestamp_text(text: Seq<u8>, n: nat) -> bool {
    n <= u128::MAX && decimal(n) == text
}

/// The offset that `text` is the plain decimal text of, if there is one.
pub open spec fn offset_of_text(text: Seq<u8>) -> Option<int> {
    if exists|i: int| is_offset_text(text, i) {
        Some(choose|i: int| is_offset_text(text, i))
    } else {
        None
    }
}

/// The timestamp that `text` is the plain decimal text of, if there is one.
pub open spec fn timestamp_of_text(text: Seq<u8>) -> Option<nat> {
    if exists|n: nat| is_timestamp_text(text, n) {
        Some(choose|n: nat| is_timestamp_text(text, n))
    } else {
        None
    }
}

/// The value of the first member with the given name.
pub open spec fn member(members: Seq<(Seq<u8>, Seq<u8>)>, name: Seq<u8>) -> Option<Seq<u8>>
    decreases members.len(),
{
    if members.len() == 0 {
        None
    } else if members[0].0 == name {
        Some(members[0].1)
    } else {
        member(members.drop_first(), name)
    }
}

/// The message that the members of a JSON object make up: its `offset` and
/// `timestamp` read as plain decimal, its `payload` as it stands. None where
/// one of the three is missing or a number is no plain decimal that fits.
/// Members of other names do not count.
pub open spec fn message_of(members: Seq<(Seq<u8>, Seq<u8>)>) -> Option<MessageView> {
    match (
        member(members, "offset".spec_bytes()),
        member(members, "payload".spec_bytes()),
        member(members, "timestamp".spec_bytes()),
    ) {
        (Some(o), Some(payload), Some(t)) => match (offset_of_text(o), timestamp_of_text(t)) {
            (Some(offset), Some(timestamp)) => Some(MessageView { offset, payload, timestamp }),
            _ => None,
        },
        _ => None,
    }
}

/// The well-formed message that `bytes` holds as a JSON object in any
/// layout, if there is one.
pub open spec fn decoded_loosely(bytes: Seq<u8>) -> Option<MessageView> {
    match json_members(bytes) {
        Some(members) => match message_of(members) {
            Some(m) => if is_json(m.payload) {
                Some(m)
            } else {
                None
            },
            None => None,
        },
        None => None,
    }
}

/// The well-formed message that `bytes` holds, if there is one: the message
/// whose stored form `bytes` is, or else the message that `bytes` holds as
/// a JSON object in another layout.
pub open spec fn decoded(bytes: Seq<u8>) -> Option<MessageView> {
    match decoded_stored(bytes) {
        Some(m) => Some(m),
        None => decoded_loosely(bytes),
    }
}

/// `bytes` begins with `prefix`.
pub open spec fn starts_with(bytes: Seq<u8>, prefix: Seq<u8>) -> bool {
    prefix.len() <= bytes.len() && bytes.subrange(0, prefix.len() as int) == prefix
}

/// `bytes` ends with `suffix`.
pub open spec fn ends_with(bytes: Seq<u8>, suffix: Seq<u8>) -> bool {
    suffix.len() <= bytes.len() && bytes.subrange(bytes.len() - suffix.len(), bytes.len() as int)
        == suffix
}

/// The lengths of the four tags, and the bytes at which reading turns.
proof fn lemma_tags()
    ensures
        offset_tag().len() == 10,
        payload_tag().len() == 11,
        payload_tag()[0] == 44,
        timestamp_tag().len() == 13,
        timestamp_tag()[12] == 58,
        close_tag() =~= seq![125u8],
{
    reveal_strlit("{\"offset\":");
    reveal_strlit(",\"payload\":");
    reveal_strlit(",\"timestamp\":");
    reveal_strlit("}");
    vstd::utf8::is_ascii_chars_encode_utf8("{\"offset\":"@);
    vstd::utf8::is_ascii_chars_encode_utf8(",\"payload\":"@);
    vstd::utf8::is_ascii_chars_encode_utf8(",\"timestamp\":"@);
    vstd::utf8::is_ascii_chars_encode_utf8("}"@);
}

/// A signed decimal text is not empty and holds digits and `-` only.
proof fn lemma_signed_decimal_bytes(i: int)
    ensures
        signed_decimal(i).len() > 0,
        forall|k: int|
            0 <= k < signed_decimal(i).len() ==> is_digit(#[trigger] signed_decimal(i)[k])
                || signed_decimal(i)[k] == MINUS,
{
    if i < 0 {
        lemma_decimal_canonical((-i) as nat);
        let d = decimal((-i) as nat);
        assert forall|k: int| 0 <= k < signed_decimal(i).len() implies is_digit(
            #[trigger] signed_decimal(i)[k],
        ) || signed_decimal(i)[k] == MINUS by {
            if k > 0 {
                assert(signed_decimal(i)[k] == d[k - 1]);
            }
        }
    } else {
        lemma_decimal_canonical(i as nat);
    }
}

/// Where the parts of a head lie in bytes that begin with it.
proof fn lemma_head_layout(bytes: Seq<u8>, offset: int)
    requires
        starts_with(bytes, head(offset)),
    ensures
        ({
            let e: int = 10 + signed_decimal(offset).len() as int;
            &&& head(offset).len() == e + 11
            &&& bytes.subrange(0, 10) == offset_tag()
            &&& bytes.subrange(10, e) == signed_decimal(offset)
            &&& bytes.subrange(e, e + 11) == payload_tag()
            &&& bytes[e] == 44
            &&& forall|i: int| 10 <= i < e ==> bytes[i] != 44
        }),
{
    lemma_tags();
    lemma_signed_decimal_bytes(offset);
    let h = head(offset);
    let sd = signed_decimal(offset);
    let e: int = 10 + sd.len() as int;
    assert(h.len() == e + 11);
    assert forall|i: int| 0 <= i < h.len() implies bytes[i] == h[i] by {
        assert(bytes.subrange(0, h.len() as int)[i] == bytes[i]);
    }
    assert(bytes.subrange(0, 10) =~= offset_tag()) by {
        assert forall|i: int| 0 <= i < 10 implies bytes[i] == offset_tag()[i] by {
            assert(h[i] == offset_tag()[i]);
        }
    }
    assert(bytes.subrange(10, e) =~= sd) by {
        assert forall|i: int| 0 <= i < sd.len() implies bytes[10 + i] == sd[i] by {
            assert(h[10 + i] == sd[i]);
        }
    }
    assert(bytes.subrange(e, e + 11) =~= payload_tag()) by {
        assert forall|i: int| 0 <= i < 11 implies bytes[e + i] == payload_tag()[i] by {
            assert(h[e + i] == payload_tag()[i]);
        }
    }
    assert(bytes[e] == payload_tag()[0]) by {
        assert(h[e] == payload_tag()[0]);
    }
    assert forall|i: int| 10 <= i < e implies bytes[i] != 44 by {
        assert(h[i] == sd[i - 10]);
        assert(is_digit(sd[i - 10]) || sd[i - 10] == MINUS);
    }
}

/// Bytes begin with the head of at most one offset.
proof fn lemma_head_unique(bytes: Seq<u8>, a: int, b: int)
    requires
        starts_with(bytes, head(a)),
        starts_with(bytes, head(b)),
    ensures
        a == b,
{
    lemma_head_layout(bytes, a);
    lemma_head_layout(bytes, b);
    let ea: int = 10 + signed_decimal(a).len() as int;
    let eb: int = 10 + signed_decimal(b).len() as int;
    if ea < eb {
        assert(bytes[ea] == 44);
    } else if eb < ea {
        assert(bytes[eb] == 44);
    } else {
        lemma_signed_decimal_injective(a, b);
    }
}

/// Where the parts of a tail lie in bytes that end with it.
proof fn lemma_tail_layout(bytes: Seq<u8>, timestamp: nat)
    requires
        ends_with(bytes, tail(timestamp)),
    ensures
        ({
            let n = bytes.len() as int;
            let s = n - 1 - decimal(timestamp).len();
            &&& tail(timestamp).len() == n - s + 13
            &&& s >= 13
            &&& s < n - 1
            &&& bytes[n - 1] == 125
            &&& bytes.subrange(s, n - 1) == decimal(timestamp)
            &&& bytes.subrange(s - 13, s) == timestamp_tag()
            &&& bytes[s - 1] == 58
            &&& forall|i: int| s <= i < n - 1 ==> is_digit(bytes[i])
        }),
{
    lemma_tags();
    lemma_decimal_canonical(timestamp);
    let t = tail(timestamp);
    let d = decimal(timestamp);
    let n = bytes.len() as int;
    let s = n - 1 - d.len();
    let base = n - t.len();
    assert(t.len() == 13 + d.len() + 1);
    assert forall|i: int| 0 <= i < t.len() implies bytes[base + i] == t[i] by {
        assert(bytes.subrange(base, n)[i] == bytes[base + i]);
    }
    assert(bytes[n - 1] == 125) by {
        assert(t[t.len() - 1] == close_tag()[0]);
        assert(bytes[base + (t.len() - 1)] == t[t.len() - 1]);
    }
    assert(bytes.subrange(s, n - 1) =~= d) by {
        assert forall|i: int| 0 <= i < d.len() implies bytes[s + i] == d[i] by {
            assert(t[13 + i] == d[i]);
            assert(bytes[base + (13 + i)] == t[13 + i]);
        }
    }
    assert(bytes.subrange(s - 13, s) =~= timestamp_tag()) by {
        assert forall|i: int| 0 <= i < 13 implies bytes[s - 13 + i] == timestamp_tag()[i] by {
            assert(t[i] == timestamp_tag()[i]);
            assert(bytes[base + i] == t[i]);
        }
    }
    assert(bytes[s - 1] == 58) by {
        assert(t[12] == timestamp_tag()[12]);
        assert(bytes[base + 12] == t[12]);
    }
    assert forall|i: int| s <= i < n - 1 implies is_digit(bytes[i]) by {
        assert(t[13 + (i - s)] == d[i - s]);
        assert(bytes[base + (13 + (i - s))] == t[13 + (i - s)]);
        assert(is_digit(d[i - s]));
    }
}

/// Bytes end with the tail of at most one timestamp.
proof fn lemma_tail_unique(bytes: Seq<u8>, a: nat, b: nat)
    requires
        ends_with(bytes, tail(a)),
        ends_with(bytes, tail(b)),
    ensures
        a == b,
{
    lemma_tail_layout(bytes, a);
    lemma_tail_layout(bytes, b);
    let n = bytes.len() as int;
    let sa = n - 1 - decimal(a).len();
    let sb = n - 1 - decimal(b).len();
    if sa < sb {
        assert(is_digit(bytes[sb - 1]));
    } else if sb < sa {
        assert(is_digit(bytes[sa - 1]));
    } else {
        lemma_decimal_injective(a, b);
    }
}

/// The stored form of a message begins with its head and ends with its tail.
proof fn lemma_encoded_ends(m: MessageView)
    ensures
        starts_with(encoded(m), head(m.offset)),
        ends_with(encoded(m), tail(m.timestamp)),
        encoded(m).len() == head(m.offset).len() + m.payload.len() + tail(m.timestamp).len(),
        encoded(m).subrange(
            head(m.offset).len() as int,
            encoded(m).len() - tail(m.timestamp).len(),
        ) == m.payload,
{
    let e = encoded(m);
    let h = head(m.offset);
    let t = tail(m.timestamp);
    assert(e.subrange(0, h.len() as int) =~= h);
    assert(e.subrange(e.len() - t.len(), e.len() as int) =~= t);
    assert(e.subrange(h.len() as int, e.len() - t.len()) =~= m.payload);
}

/// Two messages with the same stored form are the same message.
pub proof fn lemma_encoding_injective(a: MessageView, b: MessageView)
    requires
        encoded(a) == encoded(b),
    ensures
        a == b,
{
    lemma_encoded_ends(a);
    lemma_encoded_ends(b);
    lemma_head_unique(encoded(a), a.offset, b.offset);
    lemma_tail_unique(encoded(a), a.timestamp, b.timestamp);
    assert(a.payload =~= b.payload);
}

/// Reading back what was stored gives the message that was stored: a
/// well-formed message is the decoding of its own stored form.
pub proof fn lemma_decode_encode(m: MessageView)
    requires
        m.well_formed(),
    ensures
        decoded_stored(encoded(m)) == Some(m),
        decoded(encoded(m)) == Some(m),
{
    let bytes = encoded(m);
    assert(is_record_of(bytes, m));
    let found = choose|x: MessageView| is_record_of(bytes, x);
    lemma_encoding_injective(found, m);
}

/// Whatever is decoded is a well-formed message.
pub proof fn lemma_decoded_well_formed(bytes: Seq<u8>)
    requires
        decoded(bytes) is Some,
    ensures
        decoded(bytes)->0.well_formed(),
{
    if decoded_stored(bytes) is None {
        let members = json_members(bytes)->0;
        let m = message_of(members)->0;
        let o = member(members, "offset".spec_bytes())->0;
        let t = member(members, "timestamp".spec_bytes())->0;
        assert(is_offset_text(o, offset_of_text(o)->0));
        assert(is_timestamp_text(t, timestamp_of_text(t)->0));
    }
}

/// Writes the stored form of `message`.
pub fn encode(message: &Message) -> (bytes: Vec<u8>)
    ensures
        bytes@ == encoded(message@),
{
    let mut bytes: Vec<u8> = Vec::new();
    append_text(&mut bytes, "{\"offset\":");
    push_signed_decimal(&mut bytes, message.offset);
    append_text(&mut bytes, ",\"payload\":");
    append_bytes(&mut bytes, message.payload.as_slice());
    append_text(&mut bytes, ",\"timestamp\":");
    push_decimal(&mut bytes, message.timestamp);
    append_text(&mut bytes, "}");
    assert(bytes@ =~= encoded(message@));
    bytes
}

/// Reads the head of a stored message: the offset, and where the payload
/// begins. `None` when `bytes` begins with the head of no offset.
fn read_head(bytes: &[u8]) -> (r: Option<(i64, usize)>)
    ensures
        match r {
            Some((offset, at)) => starts_with(bytes@, head(offset as int)) && at == head(
                offset as int,
            ).len(),
            None => forall|o: int|
                i64::MIN <= o <= i64::MAX ==> !starts_with(bytes@, #[trigger] head(o)),
        },
{
    proof {
        lemma_tags();
    }
    if !continues_with(bytes, 0, "{\"offset\":".as_bytes()) {
        assert forall|o: int| i64::MIN <= o <= i64::MAX implies !starts_with(
            bytes@,
            #[trigger] head(o),
        ) by {
            if starts_with(bytes@, head(o)) {
                lemma_head_layout(bytes@, o);
            }
        }
        return None;
    }
    let start: usize = 10;
    let mut end: usize = start;
    while end < bytes.len() && bytes[end] != 44
        invariant
            start <= end <= bytes@.len(),
            forall|i: int| start <= i < end ==> bytes@[i] != 44,
        decreases bytes@.len() - end,
    {
        end = end + 1;
    }
    let number = slice_subrange(bytes, start, end);
    let parsed = parse_signed_decimal(number);
    let ok = parsed.is_some() && continues_with(bytes, end, ",\"payload\":".as_bytes());
    if !ok {
        assert forall|o: int| i64::MIN <= o <= i64::MAX implies !starts_with(
            bytes@,
            #[trigger] head(o),
        ) by {
            if starts_with(bytes@, head(o)) {
                lemma_head_layout(bytes@, o);
                let e: int = 10 + signed_decimal(o).len() as int;
                assert(bytes@[e] == 44);
                assert(e == end);
            }
        }
        return None;
    }
    let offset: i64 = parsed.unwrap();
    proof {
        let h = head(offset as int);
        assert(bytes@.subrange(0, end + 11) =~= h) by {
            assert(bytes@.subrange(0, end + 11) =~= bytes@.subrange(0, 10) + bytes@.subrange(
                10,
                end as int,
            ) + bytes@.subrange(end as int, end + 11));
        }
    }
    Some((offset, end + 11))
}

/// Reads the tail of a stored message, which must begin at or after `from`:
/// where the tail begins, and the timestamp. `None` when `bytes`, from
/// `from` on, ends with the tail of no timestamp.
fn read_tail(bytes: &[u8], from: usize) -> (r: Option<(usize, u128)>)
    requires
        from <= bytes@.len(),
    ensures
        match r {
            Some((at, timestamp)) => ends_with(bytes@, tail(timestamp as nat)) && at
                == bytes@.len() - tail(timestamp as nat).len() && from <= at,
            None => forall|t: nat|
                t <= u128::MAX ==> !(ends_with(bytes@, #[trigger] tail(t)) && tail(t).len()
                    <= bytes@.len() - from),
        },
{
    proof {
        lemma_tags();
    }
    let n: usize = bytes.len();
    if n <= from || bytes[n - 1] != 125 {
        assert forall|t: nat| t <= u128::MAX implies !(ends_with(bytes@, #[trigger] tail(t))
            && tail(t).len() <= bytes@.len() - from) by {
            if ends_with(bytes@, tail(t)) {
                lemma_tail_layout(bytes@, t);
            }
        }
        return None;
    }
    let stop: usize = n - 1;
    let mut start: usize = stop;
    while start > from && bytes[start - 1] >= 48 && bytes[start - 1] <= 57
        invariant
            from <= start <= stop,
            stop == bytes@.len() - 1,
            forall|i: int| start <= i < stop ==> is_digit(bytes@[i]),
        decreases start,
    {
        start = start - 1;
    }
    let ok = start >= 13 && start - 13 >= from && continues_with(
        bytes,
        start - 13,
        ",\"timestamp\":".as_bytes(),
    );
    let parsed = if ok {
        parse_decimal(slice_subrange(bytes, start, stop))
    } else {
        None
    };
    if parsed.is_none() {
        assert forall|t: nat| t <= u128::MAX implies !(ends_with(bytes@, #[trigger] tail(t))
            && tail(t).len() <= bytes@.len() - from) by {
            if ends_with(bytes@, tail(t)) && tail(t).len() <= bytes@.len() - from {
                lemma_tail_layout(bytes@, t);
                let s = n - 1 - decimal(t).len();
                assert(s - 13 >= from);
                if start < s {
                    assert(is_digit(bytes@[s - 1]));
                }
                if s < start {
                    assert(is_digit(bytes@[start - 1]));
                }
                assert(s == start);
            }
        }
        return None;
    }
    let timestamp: u128 = parsed.unwrap();
    proof {
        let t = tail(timestamp as nat);
        assert(bytes@.subrange(start - 13, n as int) =~= t) by {
            assert(bytes@.subrange(start - 13, n as int) =~= bytes@.subrange(
                start - 13,
                start as int,
            ) + bytes@.subrange(start as int, stop as int) + seq![125u8]);
        }
    }
    Some((start - 13, timestamp))
}

/// Takes a stored message apart, without judging its payload.
///
/// Returns the message whose stored form `bytes` is; `None` when `bytes` is
/// the stored form of no message. The stored form is exact: fields in the
/// order `offset`, `payload`, `timestamp`, no white space outside the
/// payload, numbers in plain decimal.
pub fn unframe(bytes: &[u8]) -> (r: Option<Message>)
    ensures
        match r {
            Some(message) => encoded(message@) == bytes@,
            None => forall|m: MessageView| m.fits() ==> #[trigger] encoded(m) != bytes@,
        },
{
    let head_read = read_head(bytes);
    if head_read.is_none() {
        assert forall|m: MessageView| m.fits() implies #[trigger] encoded(m) != bytes@ by {
            lemma_encoded_ends(m);
            assert(!starts_with(bytes@, head(m.offset)));
        }
        return None;
    }
    let (offset, payload_at) = head_read.unwrap();
    let tail_read = read_tail(bytes, payload_at);
    if tail_read.is_none() {
        assert forall|m: MessageView| m.fits() implies #[trigger] encoded(m) != bytes@ by {
            lemma_encoded_ends(m);
            if encoded(m) == bytes@ {
                lemma_head_unique(bytes@, offset as int, m.offset);
                assert(!(ends_with(bytes@, tail(m.timestamp)) && tail(m.timestamp).len()
                    <= bytes@.len() - payload_at));
            }
        }
        return None;
    }
    let (tail_at, timestamp) = tail_read.unwrap();
    let payload = slice_to_vec(slice_subrange(bytes, payload_at, tail_at));
    let message = Message { offset, payload, timestamp };
    assert(encoded(message@) =~= bytes@) by {
        assert(bytes@ =~= bytes@.subrange(0, payload_at as int) + bytes@.subrange(
            payload_at as int,
            tail_at as int,
        ) + bytes@.subrange(tail_at as int, bytes@.len() as int));
    }
    Some(message)
}

/// Accepts a message that was taken apart if its payload was found to be
/// JSON, and rejects it as malformed if not.
pub fn accept(message: Message, payload_is_json: bool) -> (r: Result<Message, DecodeError>)
    ensures
        r == if payload_is_json {
            Ok::<Message, DecodeError>(message)
        } else {
            Err::<Message, DecodeError>(DecodeError::MalformedMessage)
        },
{
    if payload_is_json {
        Ok(message)
    } else {
        Err(DecodeError::MalformedMessage)
    }
}

/// Reads a message in its stored form, and in no other.
///
/// Returns the well-formed message whose stored form `bytes` is;
/// `MalformedMessage` when there is none: when `bytes` is not the stored
/// form of a message, or the payload in it is not JSON.
pub fn decode_stored(bytes: &[u8]) -> (r: Result<Message, DecodeError>)
    ensures
        match r {
            Ok(message) => decoded_stored(bytes@) == Some(message@) && is_record_of(
                bytes@,
                message@,
            ),
            Err(e) => decoded_stored(bytes@) is None && e == DecodeError::MalformedMessage,
        },
{
    match unframe(bytes) {
        Some(message) => {
            let payload_is_json = check_json(message.payload.as_slice());
            proof {
                if payload_is_json {
                    lemma_decode_encode(message@);
                } else {
                    assert forall|m: MessageView| !is_record_of(bytes@, m) by {
                        if is_record_of(bytes@, m) {
                            lemma_encoding_injective(m, message@);
                        }
                    }
                }
            }
            accept(message, payload_is_json)
        },
        None => {
            assert forall|m: MessageView| !is_record_of(bytes@, m) by {
                if m.fits() {
                    assert(encoded(m) != bytes@);
                }
            }
            Err(DecodeError::MalformedMessage)
        },
    }
}

/// Finds the value of the first member with the given name.
fn find_member<'a>(members: &'a Vec<(Vec<u8>, Vec<u8>)>, name: &str) -> (r: Option<&'a Vec<u8>>)
    ensures
        match r {
            Some(value) => member(members_view(members@), name.spec_bytes()) == Some(value@),
            None => member(members_view(members@), name.spec_bytes()) is None,
        },
{
    let wanted = name.as_bytes();
    let ghost all = members_view(members@);
    let mut at: usize = 0;
    assert(all.subrange(0, all.len() as int) =~= all);
    while at < members.len()
        invariant
            at <= members@.len(),
            all == members_view(members@),
            wanted@ == name.spec_bytes(),
            member(all, wanted@) == member(all.subrange(at as int, all.len() as int), wanted@),
        decreases members@.len() - at,
    {
        let ghost rest = all.subrange(at as int, all.len() as int);
        assert(rest[0] == all[at as int]);
        assert(rest.drop_first() =~= all.subrange(at + 1, all.len() as int));
        let found = &members[at].0;
        assert(found@.subrange(0, found@.len() as int) =~= found@);
        if found.len() == wanted.len() && continues_with(found.as_slice(), 0, wanted) {
            return Some(&members[at].1);
        }
        at = at + 1;
    }
    None
}

/// Makes a message of the members of a JSON object, without judging its
/// payload.
///
/// Returns the message whose offset and timestamp are the numbers that the
/// members `offset` and `timestamp` are the plain decimal text of, and
/// whose payload is the member `payload`; `None` where one of the three is
/// missing or one of the two numbers is no plain decimal that fits.
pub fn from_members(members: &Vec<(Vec<u8>, Vec<u8>)>) -> (r: Option<Message>)
    ensures
        match r {
            Some(message) => message_of(members_view(members@)) == Some(message@),
            None => message_of(members_view(members@)) is None,
        },
{
    let offset_text = find_member(members, "offset");
    let payload_text = find_member(members, "payload");
    let timestamp_text = find_member(members, "timestamp");
    if offset_text.is_none() || payload_text.is_none() || timestamp_text.is_none() {
        return None;
    }
    let o = offset_text.unwrap();
    let p = payload_text.unwrap();
    let t = timestamp_text.unwrap();
    let offset = parse_signed_decimal(o.as_slice());
    let timestamp = parse_decimal(t.as_slice());
    proof {
        match offset {
            Some(i) => {
                assert(is_offset_text(o@, i as int));
                lemma_signed_decimal_injective(offset_of_text(o@)->0, i as int);
            },
            None => {
                assert forall|i: int| !is_offset_text(o@, i) by {}
            },
        }
        match timestamp {
            Some(n) => {
                assert(is_timestamp_text(t@, n as nat));
                lemma_decimal_injective(timestamp_of_text(t@)->0, n as nat);
            },
            None => {
                assert forall|n: nat| !is_timestamp_text(t@, n) by {}
            },
        }
    }
    if offset.is_none() || timestamp.is_none() {
        return None;
    }
    Some(
        Message {
            offset: offset.unwrap(),
            payload: slice_to_vec(p.as_slice()),
            timestamp: timestamp.unwrap(),
        },
    )
}

/// What is made of bytes that are not in the stored form, given the members
/// that the JSON crate found in them, if it found a JSON object.
pub fn decode_members(members: Option<Vec<(Vec<u8>, Vec<u8>)>>) -> (r: Option<Message>)
    ensures
        match r {
            Some(message) => members matches Some(found) && message_of(members_view(found@))
                == Some(message@),
            None => members matches Some(found) ==> message_of(members_view(found@)) is None,
        },
{
    match members {
        Some(found) => from_members(&found),
        None => None,
    }
}

/// Reads a message.
///
/// Returns the well-formed message that `bytes` holds: the message whose
/// stored form `bytes` is or, for bytes in another layout, the message that
/// the JSON object `bytes` holds in its members `offset`, `payload` and
/// `timestamp`. `MalformedMessage` when there is none: when `bytes` is no
/// JSON object, a field is missing, `offset` or `timestamp` is no plain
/// decimal integer that fits, or the payload is not JSON.
pub fn decode(bytes: &[u8]) -> (r: Result<Message, DecodeError>)
    ensures
        match r {
            Ok(message) => decoded(bytes@) == Some(message@) && message@.well_formed(),
            Err(e) => decoded(bytes@) is None && e == DecodeError::MalformedMessage,
        },
{
    match decode_stored(bytes) {
        Ok(message) => Ok(message),
        Err(_) => match decode_members(read_members(bytes)) {
            Some(message) => {
                let payload_is_json = check_json(message.payload.as_slice());
                accept(message, payload_is_json)
            },
            None => Err(DecodeError::MalformedMessage),
        },
    }
}

} // verus!
