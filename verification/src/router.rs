//! Which handler a request goes to, by its method and its path.

use crate::bytes::{append_text, continues_with};
use crate::decimal::{all_digits, is_digit};
use crate::reply::{Reply, ReplyView};
use vstd::prelude::*;
use vstd::string::StringExecFns;
use vstd::string::StringSliceAdditionalSpecFns;
use vstd::utf8::{encode_utf8, is_char_boundary, valid_utf8};

verus! {

/// The byte `/`.
pub const SLASH: u8 = 47;

/// The byte `v`.
pub const STAGE_MARK: u8 = 118;

/// Where a request goes.
#[derive(Debug, Clone, PartialEq, Eq)]
pub enum Route {
    /// To the write handler, for this topic.
    Produce { topic: String },
    /// To the read handler, for this topic.
    Consume { topic: String },
    /// To the liveness probe.
    Health,
    /// Nowhere.
    NotFound,
}

/// Where a request goes, the topic as the bytes it has in the path.
pub enum Target {
    Produce { topic: Seq<u8> },
    Consume { topic: Seq<u8> },
    Health,
    NotFound,
}

impl View for Route {
    type V = Target;

    open spec fn view(&self) -> Target {
        match *self {
            Route::Produce { topic } => Target::Produce { topic: encode_utf8(topic@) },
            Route::Consume { topic } => Target::Consume { topic: encode_utf8(topic@) },
            Route::Health => Target::Health,
            Route::NotFound => Target::NotFound,
        }
    }
}

/// Reading a path from the left: the segments that a `/` has closed, and
/// the bytes read since the last `/`. An empty run between two `/` closes
/// no segment.
pub open spec fn scan(path: Seq<u8>) -> (Seq<Seq<u8>>, Seq<u8>)
    decreases path.len(),
{
    if path.len() == 0 {
        (Seq::empty(), Seq::empty())
    } else {
        let (closed, run) = scan(path.drop_last());
        if path.last() != SLASH {
            (closed, run.push(path.last()))
        } else if run.len() > 0 {
            (closed.push(run), Seq::empty())
        } else {
            (closed, Seq::empty())
        }
    }
}

/// The segments of a path: its runs of bytes between `/`, the empty runs
/// left out.
pub open spec fn segments(path: Seq<u8>) -> Seq<Seq<u8>> {
    let (closed, run) = scan(path);
    if run.len() > 0 {
        closed.push(run)
    } else {
        closed
    }
}

/// The segment names a deployment stage: a `v`, then digits or nothing.
pub open spec fn is_stage(segment: Seq<u8>) -> bool {
    &&& segment.len() > 0
    &&& segment[0] == STAGE_MARK
    &&& all_digits(segment.subrange(1, segment.len() as int))
}

/// The segments without the stages they begin with.
pub open spec fn without_stages(parts: Seq<Seq<u8>>) -> Seq<Seq<u8>>
    decreases parts.len(),
{
    if parts.len() > 0 && is_stage(parts[0]) {
        without_stages(parts.drop_first())
    } else {
        parts
    }
}

/// Where a request with this method and this path goes.
pub open spec fn route_of(method: Seq<u8>, path: Seq<u8>) -> Target {
    let parts = without_stages(segments(path));
    if method == "POST".spec_bytes() && parts.len() == 3 && parts[0] == "topics".spec_bytes()
        && parts[2] == "produce".spec_bytes() {
        Target::Produce { topic: parts[1] }
    } else if method == "GET".spec_bytes() && parts.len() == 3 && parts[0]
        == "topics".spec_bytes() && parts[2] == "consume".spec_bytes() {
        Target::Consume { topic: parts[1] }
    } else if method == "GET".spec_bytes() && parts.len() == 1 && parts[0]
        == "health".spec_bytes() {
        Target::Health
    } else {
        Target::NotFound
    }
}

/// The body of the answer of the liveness probe.
pub open spec fn health_body() -> Seq<u8> {
    "{\"status\":\"ok\"}".spec_bytes()
}

/// The body of the answer to a request that goes nowhere.
pub open spec fn not_found_body() -> Seq<u8> {
    "{\"error\":\"not found\"}".spec_bytes()
}

/// The parts of `bytes` that the ranges mark.
spec fn cut(bytes: Seq<u8>, ranges: Seq<(usize, usize)>) -> Seq<Seq<u8>> {
    Seq::new(ranges.len(), |i: int| bytes.subrange(ranges[i].0 as int, ranges[i].1 as int))
}

/// Each range lies in `bytes`, is not empty, and has a `/` or an end of
/// `bytes` on either side.
spec fn ranges_fit(bytes: Seq<u8>, ranges: Seq<(usize, usize)>) -> bool {
    forall|i: int|
        0 <= i < ranges.len() ==> {
            let (from, to) = #[trigger] ranges[i];
            &&& from < to <= bytes.len()
            &&& (from == 0 || bytes[from - 1] == SLASH)
            &&& (to == bytes.len() || bytes[to as int] == SLASH)
        }
}

/// Finds the segments of `bytes`, each as the range it occupies.
fn find_segments(bytes: &[u8]) -> (ranges: Vec<(usize, usize)>)
    ensures
        cut(bytes@, ranges@) == segments(bytes@),
        ranges_fit(bytes@, ranges@),
{
    let mut ranges: Vec<(usize, usize)> = Vec::new();
    let mut from: usize = 0;
    let mut at: usize = 0;
    assert(bytes@.subrange(0, 0) =~= Seq::<u8>::empty());
    assert(cut(bytes@, ranges@) =~= Seq::<Seq<u8>>::empty());
    while at < bytes.len()
        invariant
            from <= at <= bytes@.len(),
            scan(bytes@.subrange(0, at as int)) == (
                cut(bytes@, ranges@),
                bytes@.subrange(from as int, at as int),
            ),
            from == 0 || bytes@[from - 1] == SLASH,
            forall|i: int|
                0 <= i < ranges@.len() ==> {
                    let (f, t) = #[trigger] ranges@[i];
                    &&& f < t < at
                    &&& (f == 0 || bytes@[f - 1] == SLASH)
                    &&& bytes@[t as int] == SLASH
                },
        decreases bytes@.len() - at,
    {
        let ghost seen = bytes@.subrange(0, at as int);
        let ghost next = bytes@.subrange(0, at + 1);
        let ghost before = cut(bytes@, ranges@);
        assert(next.drop_last() =~= seen);
        assert(next.last() == bytes@[at as int]);
        if bytes[at] == SLASH {
            if from < at {
                ranges.push((from, at));
                assert(cut(bytes@, ranges@) =~= before.push(
                    bytes@.subrange(from as int, at as int),
                ));
            }
            from = at + 1;
            assert(bytes@.subrange(from as int, at + 1) =~= Seq::<u8>::empty());
        } else {
            assert(bytes@.subrange(from as int, at + 1) =~= bytes@.subrange(
                from as int,
                at as int,
            ).push(bytes@[at as int]));
        }
        at = at + 1;
    }
    assert(bytes@.subrange(0, at as int) =~= bytes@);
    if from < at {
        let ghost before = cut(bytes@, ranges@);
        ranges.push((from, at));
        assert(cut(bytes@, ranges@) =~= before.push(bytes@.subrange(from as int, at as int)));
    }
    ranges
}

/// Whether the bytes in the range name a deployment stage.
fn names_stage(bytes: &[u8], from: usize, to: usize) -> (yes: bool)
    requires
        from < to <= bytes@.len(),
    ensures
        yes == is_stage(bytes@.subrange(from as int, to as int)),
{
    let ghost segment = bytes@.subrange(from as int, to as int);
    let ghost rest = segment.subrange(1, segment.len() as int);
    if bytes[from] != STAGE_MARK {
        return false;
    }
    let mut at: usize = from + 1;
    while at < to
        invariant
            from < at <= to <= bytes@.len(),
            segment == bytes@.subrange(from as int, to as int),
            rest == segment.subrange(1, segment.len() as int),
            forall|i: int| 0 <= i < at - from - 1 ==> is_digit(#[trigger] rest[i]),
        decreases to - at,
    {
        let b: u8 = bytes[at];
        assert(rest[at - from - 1] == b);
        if b < 48 || b > 57 {
            return false;
        }
        at = at + 1;
    }
    true
}

/// Whether the bytes in the range are those of `text`.
fn range_is(bytes: &[u8], range: (usize, usize), text: &str) -> (yes: bool)
    requires
        range.0 <= range.1 <= bytes@.len(),
    ensures
        yes == (bytes@.subrange(range.0 as int, range.1 as int) == text.spec_bytes()),
{
    let expected = text.as_bytes();
    range.1 - range.0 == expected.len() && continues_with(bytes, range.0, expected)
}

/// The part of `text` between two borders of segments, as text.
fn segment_text<'a>(text: &'a str, from: usize, to: usize) -> (piece: &'a str)
    requires
        from <= to <= text.spec_bytes().len(),
        from == 0 || text.spec_bytes()[from - 1] == SLASH,
        to == text.spec_bytes().len() || text.spec_bytes()[to as int] == SLASH,
    ensures
        piece.spec_bytes() == text.spec_bytes().subrange(from as int, to as int),
{
    broadcast use vstd::utf8::group_utf8_lib;

    let ghost bytes = text.spec_bytes();
    assert(valid_utf8(bytes));
    assert(is_char_boundary(bytes, to as int)) by {
        if to < bytes.len() {
            vstd::utf8::is_char_boundary_iff_not_is_continuation_byte(bytes, to as int);
        } else {
            vstd::utf8::is_char_boundary_start_end_of_seq(bytes);
        }
    }
    let (left, _) = text.split_at(to);
    if from == 0 {
        left
    } else {
        let ghost left_bytes = left.spec_bytes();
        assert(left_bytes[from - 1] == bytes[from - 1]);
        assert(valid_utf8(left_bytes));
        assert(is_char_boundary(left_bytes, from - 1)) by {
            vstd::utf8::is_char_boundary_iff_not_is_continuation_byte(left_bytes, from - 1);
        }
        let (_, tail) = left.split_at(from - 1);
        let ghost tail_bytes = tail.spec_bytes();
        assert(tail_bytes[0] == left_bytes[from - 1]);
        assert(valid_utf8(tail_bytes));
        assert(is_char_boundary(tail_bytes, 1)) by {
            reveal_with_fuel(valid_utf8, 2);
            reveal_with_fuel(is_char_boundary, 2);
        }
        let (_, piece) = tail.split_at(1);
        assert(piece.spec_bytes() =~= bytes.subrange(from as int, to as int));
        piece
    }
}

/// Skipping stages at the front changes nothing of what is left without
/// stages.
proof fn lemma_skip_stage(parts: Seq<Seq<u8>>, k: int)
    requires
        0 <= k <= parts.len(),
        forall|i: int| 0 <= i < k ==> is_stage(#[trigger] parts[i]),
    ensures
        without_stages(parts) == without_stages(parts.subrange(k, parts.len() as int)),
    decreases k,
{
    if k == 0 {
        assert(parts.subrange(0, parts.len() as int) =~= parts);
    } else {
        let rest = parts.drop_first();
        assert forall|i: int| 0 <= i < k - 1 implies is_stage(#[trigger] rest[i]) by {
            assert(rest[i] == parts[i + 1]);
        }
        lemma_skip_stage(rest, k - 1);
        assert(rest.subrange(k - 1, rest.len() as int) =~= parts.subrange(k, parts.len() as int));
        assert(is_stage(parts[0]));
    }
}

/// Says where a request goes.
///
/// A `POST` to `topics/{topic}/produce` goes to the write handler, a `GET`
/// to `topics/{topic}/consume` to the read handler, a `GET` to `health` to
/// the liveness probe, each after any number of stage segments; everything
/// else goes nowhere.
pub fn route(method: &str, path: &str) -> (r: Route)
    ensures
        r@ == route_of(method.spec_bytes(), path.spec_bytes()),
{
    let bytes = path.as_bytes();
    let ranges = find_segments(bytes);
    let ghost parts = segments(bytes@);
    let mut first: usize = 0;
    while first < ranges.len() && names_stage(bytes, ranges[first].0, ranges[first].1)
        invariant
            first <= ranges@.len(),
            parts == cut(bytes@, ranges@),
            ranges_fit(bytes@, ranges@),
            forall|i: int| 0 <= i < first ==> is_stage(#[trigger] parts[i]),
        decreases ranges@.len() - first,
    {
        first = first + 1;
    }
    let count: usize = ranges.len() - first;
    proof {
        lemma_skip_stage(parts, first as int);
        let left = parts.subrange(first as int, parts.len() as int);
        if left.len() > 0 {
            assert(left[0] == parts[first as int]);
        }
        assert(without_stages(left) == left);
        assert(without_stages(parts) == left);
        assert(left.len() == count);
        assert forall|i: int| 0 <= i < count implies #[trigger] left[i] == bytes@.subrange(
            ranges@[first + i].0 as int,
            ranges@[first + i].1 as int,
        ) by {
            assert(left[i] == parts[first + i]);
        }
    }
    let post = range_is(method.as_bytes(), (0, method.as_bytes().len()), "POST");
    let get = range_is(method.as_bytes(), (0, method.as_bytes().len()), "GET");
    assert(method.spec_bytes().subrange(0, method.spec_bytes().len() as int)
        =~= method.spec_bytes());
    if count == 3 && range_is(bytes, ranges[first], "topics") {
        if post && range_is(bytes, ranges[first + 2], "produce") {
            let topic = segment_text(path, ranges[first + 1].0, ranges[first + 1].1);
            return Route::Produce { topic: String::from_str(topic) };
        }
        if get && range_is(bytes, ranges[first + 2], "consume") {
            proof {
                lemma_methods_differ();
            }
            let topic = segment_text(path, ranges[first + 1].0, ranges[first + 1].1);
            return Route::Consume { topic: String::from_str(topic) };
        }
        proof {
            lemma_methods_differ();
        }
        return Route::NotFound;
    }
    if get && count == 1 && range_is(bytes, ranges[first], "health") {
        proof {
            lemma_methods_differ();
        }
        return Route::Health;
    }
    proof {
        lemma_methods_differ();
    }
    Route::NotFound
}

/// `POST` and `GET` are different methods.
proof fn lemma_methods_differ()
    ensures
        "POST".spec_bytes() != "GET".spec_bytes(),
{
    reveal_strlit("POST");
    reveal_strlit("GET");
    vstd::utf8::is_ascii_chars_encode_utf8("POST"@);
    vstd::utf8::is_ascii_chars_encode_utf8("GET"@);
}

/// The answer of the liveness probe.
pub fn health_reply() -> (reply: Reply)
    ensures
        reply@ == (ReplyView { status: 200, json: false, body: health_body() }),
{
    let mut body: Vec<u8> = Vec::new();
    append_text(&mut body, "{\"status\":\"ok\"}");
    assert(body@ =~= health_body());
    Reply { status: 200, json: false, body }
}

/// The answer to a request that goes nowhere.
pub fn not_found_reply() -> (reply: Reply)
    ensures
        reply@ == (ReplyView { status: 404, json: false, body: not_found_body() }),
{
    let mut body: Vec<u8> = Vec::new();
    append_text(&mut body, "{\"error\":\"not found\"}");
    assert(body@ =~= not_found_body());
    Reply { status: 404, json: false, body }
}

} // verus!
