//! The storage key scheme. A message is stored under its topic's prefix and
//! its offset, written at a fixed width, so that the object store's native
//! key order is the order of the offsets.

use crate::decimal::magnitude_of;
use vstd::prelude::*;
use vstd::string::StringExecFns;
use vstd::utf8::{encode_utf8, is_ascii_chars, is_ascii_chars_encode_utf8};

verus! {

/// The width, in characters, of the offset at the end of a key.
pub const OFFSET_WIDTH: u8 = 20;

/// One past the largest offset for which keys are ordered as offsets are:
/// ten to the power of `OFFSET_WIDTH`.
pub open spec fn offset_bound() -> int {
    100_000_000_000_000_000_000
}

/// The character that shows the digit `d`.
pub open spec fn digit_char(d: nat) -> char
    recommends
        d < 10,
{
    if d == 0 {
        '0'
    } else if d == 1 {
        '1'
    } else if d == 2 {
        '2'
    } else if d == 3 {
        '3'
    } else if d == 4 {
        '4'
    } else if d == 5 {
        '5'
    } else if d == 6 {
        '6'
    } else if d == 7 {
        '7'
    } else if d == 8 {
        '8'
    } else {
        '9'
    }
}

/// The last `width` decimal digits of `n`, most significant first, with
/// zeros in front where `n` has fewer.
pub open spec fn zero_padded(n: nat, width: nat) -> Seq<char>
    decreases width,
{
    if width == 0 {
        Seq::empty()
    } else {
        zero_padded(n / 10, (width - 1) as nat).push(digit_char(n % 10))
    }
}

/// The offset as it stands in a key: `OFFSET_WIDTH` characters; a negative
/// offset spends the first of them on its `-`.
pub open spec fn offset_field(offset: int) -> Seq<char> {
    if offset < 0 {
        seq!['-'] + zero_padded((-offset) as nat, 19)
    } else {
        zero_padded(offset as nat, 20)
    }
}

/// The prefix that the keys of all messages of `topic` share.
pub open spec fn prefix_text(topic: Seq<char>) -> Seq<char> {
    "topics/"@ + topic + "/"@
}

/// The key of the message of `topic` at `offset`.
pub open spec fn key_text(topic: Seq<char>, offset: int) -> Seq<char> {
    prefix_text(topic) + offset_field(offset)
}

/// The object store's order of keys: character by character, a proper
/// prefix first. On UTF-8 text this is the order of the encoded bytes.
pub open spec fn key_less(a: Seq<char>, b: Seq<char>) -> bool
    decreases a.len(),
{
    if a.len() == 0 {
        b.len() > 0
    } else if b.len() == 0 {
        false
    } else if a[0] == b[0] {
        key_less(a.drop_first(), b.drop_first())
    } else {
        a[0] < b[0]
    }
}

/// Ten to the power of `width`.
pub open spec fn pow10(width: nat) -> nat
    decreases width,
{
    if width == 0 {
        1
    } else {
        10 * pow10((width - 1) as nat)
    }
}

/// A shared prefix does not change the order of two keys.
pub proof fn lemma_less_after_prefix(p: Seq<char>, a: Seq<char>, b: Seq<char>)
    ensures
        key_less(p + a, p + b) == key_less(a, b),
    decreases p.len(),
{
    if p.len() == 0 {
        assert(p + a =~= a);
        assert(p + b =~= b);
    } else {
        assert((p + a).drop_first() =~= p.drop_first() + a);
        assert((p + b).drop_first() =~= p.drop_first() + b);
        lemma_less_after_prefix(p.drop_first(), a, b);
    }
}

/// Two texts of one length, each with one more character: the longer texts
/// are ordered by the shorter ones, and by the added characters where the
/// shorter ones are equal.
proof fn lemma_less_push(x: Seq<char>, y: Seq<char>, c: char, d: char)
    requires
        x.len() == y.len(),
    ensures
        key_less(x.push(c), y.push(d)) == (key_less(x, y) || (x == y && c < d)),
    decreases x.len(),
{
    let xc = x.push(c);
    let yd = y.push(d);
    if x.len() == 0 {
        assert(x =~= y);
        assert(xc.drop_first() =~= Seq::<char>::empty());
        assert(yd.drop_first() =~= Seq::<char>::empty());
        assert(xc[0] == c && yd[0] == d);
        assert(!key_less(xc.drop_first(), yd.drop_first()));
    } else {
        assert(xc.drop_first() =~= x.drop_first().push(c));
        assert(yd.drop_first() =~= y.drop_first().push(d));
        assert(xc[0] == x[0] && yd[0] == y[0]);
        lemma_less_push(x.drop_first(), y.drop_first(), c, d);
        if x[0] == y[0] && x.drop_first() == y.drop_first() {
            assert forall|i: int| 0 <= i < x.len() implies x[i] == y[i] by {
                if i > 0 {
                    assert(x[i] == x.drop_first()[i - 1]);
                    assert(y[i] == y.drop_first()[i - 1]);
                }
            }
            assert(x =~= y);
        }
    }
}

/// Below ten to the power of the width, padded numbers are ordered, and
/// told apart, as the numbers are.
pub proof fn lemma_padded_order(a: nat, b: nat, width: nat)
    requires
        a < pow10(width),
        b < pow10(width),
    ensures
        zero_padded(a, width).len() == width,
        key_less(zero_padded(a, width), zero_padded(b, width)) <==> a < b,
        zero_padded(a, width) == zero_padded(b, width) <==> a == b,
    decreases width,
{
    if width > 0 {
        let w = (width - 1) as nat;
        lemma_padded_order(a / 10, b / 10, w);
        lemma_padded_order(a / 10, a / 10, w);
        lemma_padded_order(b / 10, b / 10, w);
        let x = zero_padded(a / 10, w);
        let y = zero_padded(b / 10, w);
        let c = digit_char(a % 10);
        let d = digit_char(b % 10);
        lemma_less_push(x, y, c, d);
        assert(c < d <==> a % 10 < b % 10);
        assert(c == d <==> a % 10 == b % 10);
        if x.push(c) == y.push(d) {
            assert(x =~= x.push(c).drop_last());
            assert(y =~= y.push(d).drop_last());
            assert(x.push(c).last() == c);
            assert(y.push(d).last() == d);
        }
    }
}

/// Keys of one topic are ordered as their offsets are, for offsets from zero
/// up to, and not including, `offset_bound()`.
pub proof fn lemma_key_order(topic: Seq<char>, a: int, b: int)
    requires
        0 <= a < offset_bound(),
        0 <= b < offset_bound(),
    ensures
        key_less(key_text(topic, a), key_text(topic, b)) <==> a < b,
{
    assert(pow10(20) == offset_bound()) by {
        reveal_with_fuel(pow10, 21);
    }
    lemma_padded_order(a as nat, b as nat, 20);
    lemma_less_after_prefix(prefix_text(topic), offset_field(a), offset_field(b));
}

/// The order of keys as the object store sees them: byte by byte over their
/// UTF-8 encoding, a proper prefix first.
pub open spec fn bytes_less(a: Seq<u8>, b: Seq<u8>) -> bool
    decreases a.len(),
{
    if a.len() == 0 {
        b.len() > 0
    } else if b.len() == 0 {
        false
    } else if a[0] == b[0] {
        bytes_less(a.drop_first(), b.drop_first())
    } else {
        a[0] < b[0]
    }
}

/// The encoding of two texts put end to end is their encodings put end to
/// end.
proof fn lemma_encode_add(a: Seq<char>, b: Seq<char>)
    ensures
        encode_utf8(a + b) == encode_utf8(a) + encode_utf8(b),
    decreases a.len(),
{
    if a.len() == 0 {
        assert(a + b =~= b);
        assert(encode_utf8(a) + encode_utf8(b) =~= encode_utf8(b));
    } else {
        assert((a + b).drop_first() =~= a.drop_first() + b);
        assert((a + b)[0] == a[0]);
        lemma_encode_add(a.drop_first(), b);
        let first = vstd::utf8::encode_scalar(a[0] as u32);
        assert(first + (encode_utf8(a.drop_first()) + encode_utf8(b)) =~= (first + encode_utf8(
            a.drop_first(),
        )) + encode_utf8(b));
    }
}

/// A shared prefix does not change the order of two byte strings.
proof fn lemma_bytes_less_after_prefix(p: Seq<u8>, a: Seq<u8>, b: Seq<u8>)
    ensures
        bytes_less(p + a, p + b) == bytes_less(a, b),
    decreases p.len(),
{
    if p.len() == 0 {
        assert(p + a =~= a);
        assert(p + b =~= b);
    } else {
        assert((p + a).drop_first() =~= p.drop_first() + a);
        assert((p + b).drop_first() =~= p.drop_first() + b);
        lemma_bytes_less_after_prefix(p.drop_first(), a, b);
    }
}

/// On ASCII texts, the order of the encoded bytes is the order of the
/// characters.
proof fn lemma_ascii_order(x: Seq<char>, y: Seq<char>)
    requires
        is_ascii_chars(x),
        is_ascii_chars(y),
    ensures
        bytes_less(encode_utf8(x), encode_utf8(y)) == key_less(x, y),
    decreases x.len(),
{
    is_ascii_chars_encode_utf8(x);
    is_ascii_chars_encode_utf8(y);
    let ex = encode_utf8(x);
    let ey = encode_utf8(y);
    if x.len() > 0 && y.len() > 0 {
        let xs = x.drop_first();
        let ys = y.drop_first();
        assert(is_ascii_chars(xs)) by {
            assert forall|i: int| 0 <= i < xs.len() implies '\0' <= #[trigger] xs[i] <= '\u{7f}' by {
                assert(xs[i] == x[i + 1]);
            }
        }
        assert(is_ascii_chars(ys)) by {
            assert forall|i: int| 0 <= i < ys.len() implies '\0' <= #[trigger] ys[i] <= '\u{7f}' by {
                assert(ys[i] == y[i + 1]);
            }
        }
        is_ascii_chars_encode_utf8(xs);
        is_ascii_chars_encode_utf8(ys);
        assert(ex.drop_first() =~= encode_utf8(xs)) by {
            assert forall|i: int| 0 <= i < xs.len() implies ex.drop_first()[i] == encode_utf8(
                xs,
            )[i] by {
                assert(ex[i + 1] == x[i + 1] as u8);
                assert(xs[i] == x[i + 1]);
            }
        }
        assert(ey.drop_first() =~= encode_utf8(ys)) by {
            assert forall|i: int| 0 <= i < ys.len() implies ey.drop_first()[i] == encode_utf8(
                ys,
            )[i] by {
                assert(ey[i + 1] == y[i + 1] as u8);
                assert(ys[i] == y[i + 1]);
            }
        }
        lemma_ascii_order(xs, ys);
        assert(ex[0] == x[0] as u8);
        assert(ey[0] == y[0] as u8);
        assert('\0' <= x[0] <= '\u{7f}');
        assert('\0' <= y[0] <= '\u{7f}');
    }
}

/// The digits of a padded number are ASCII.
proof fn lemma_padded_ascii(n: nat, width: nat)
    ensures
        is_ascii_chars(zero_padded(n, width)),
    decreases width,
{
    if width > 0 {
        lemma_padded_ascii(n / 10, (width - 1) as nat);
        let shorter = zero_padded(n / 10, (width - 1) as nat);
        let whole = zero_padded(n, width);
        assert forall|i: int| 0 <= i < whole.len() implies '\0' <= #[trigger] whole[i]
            <= '\u{7f}' by {
            if i < shorter.len() {
                assert(whole[i] == shorter[i]);
            }
        }
    }
}

/// Keys of one topic are ordered by the object store as their offsets are:
/// the order of the UTF-8 bytes of the keys is the order of the offsets,
/// for offsets from zero up to, and not including, `offset_bound()`.
pub proof fn lemma_key_order_in_bytes(topic: Seq<char>, a: int, b: int)
    requires
        0 <= a < offset_bound(),
        0 <= b < offset_bound(),
    ensures
        bytes_less(encode_utf8(key_text(topic, a)), encode_utf8(key_text(topic, b))) <==> a < b,
{
    assert(pow10(20) == offset_bound()) by {
        reveal_with_fuel(pow10, 21);
    }
    let prefix = prefix_text(topic);
    let fa = offset_field(a);
    let fb = offset_field(b);
    lemma_padded_order(a as nat, b as nat, 20);
    lemma_padded_ascii(a as nat, 20);
    lemma_padded_ascii(b as nat, 20);
    lemma_ascii_order(fa, fb);
    lemma_encode_add(prefix, fa);
    lemma_encode_add(prefix, fb);
    lemma_bytes_less_after_prefix(encode_utf8(prefix), encode_utf8(fa), encode_utf8(fb));
}

/// Every key of a topic starts with the topic's prefix and is
/// `OFFSET_WIDTH` characters longer.
pub proof fn lemma_key_shape(topic: Seq<char>, offset: int)
    requires
        i64::MIN <= offset <= i64::MAX,
    ensures
        key_text(topic, offset).len() == prefix_text(topic).len() + OFFSET_WIDTH,
        key_text(topic, offset).subrange(0, prefix_text(topic).len() as int) == prefix_text(
            topic,
        ),
{
    assert(pow10(20) == offset_bound()) by {
        reveal_with_fuel(pow10, 21);
    }
    assert(pow10(19) == 10_000_000_000_000_000_000) by {
        reveal_with_fuel(pow10, 20);
    }
    if offset < 0 {
        lemma_padded_order((-offset) as nat, (-offset) as nat, 19);
    } else {
        lemma_padded_order(offset as nat, offset as nat, 20);
    }
    assert(key_text(topic, offset).subrange(0, prefix_text(topic).len() as int) =~= prefix_text(
        topic,
    ));
}

/// The text of one digit.
fn digit_str(d: u8) -> (s: &'static str)
    requires
        d < 10,
    ensures
        s@ == seq![digit_char(d as nat)],
{
    proof {
        reveal_strlit("0");
        reveal_strlit("1");
        reveal_strlit("2");
        reveal_strlit("3");
        reveal_strlit("4");
        reveal_strlit("5");
        reveal_strlit("6");
        reveal_strlit("7");
        reveal_strlit("8");
        reveal_strlit("9");
    }
    let s = if d == 0 {
        "0"
    } else if d == 1 {
        "1"
    } else if d == 2 {
        "2"
    } else if d == 3 {
        "3"
    } else if d == 4 {
        "4"
    } else if d == 5 {
        "5"
    } else if d == 6 {
        "6"
    } else if d == 7 {
        "7"
    } else if d == 8 {
        "8"
    } else {
        "9"
    };
    assert(s@ =~= seq![digit_char(d as nat)]);
    s
}

/// Appends the last `width` digits of `n` to `text`.
fn append_padded(text: &mut String, n: u64, width: u8)
    ensures
        final(text)@ == old(text)@ + zero_padded(n as nat, width as nat),
    decreases width,
{
    if width > 0 {
        append_padded(text, n / 10, width - 1);
        text.append(digit_str((n % 10) as u8));
        assert(final(text)@ =~= old(text)@ + zero_padded(n as nat, width as nat));
    } else {
        assert(final(text)@ =~= old(text)@ + zero_padded(n as nat, width as nat));
    }
}

/// The prefix under which the messages of `topic` are stored.
pub fn topic_prefix(topic: &str) -> (prefix: String)
    ensures
        prefix@ == prefix_text(topic@),
{
    let mut prefix = String::from_str("topics/");
    prefix.append(topic);
    prefix.append("/");
    prefix
}

/// The key under which the message of `topic` at `offset` is stored.
pub fn message_key(topic: &str, offset: i64) -> (key: String)
    ensures
        key@ == key_text(topic@, offset as int),
{
    let mut key = topic_prefix(topic);
    if offset < 0 {
        proof {
            reveal_strlit("-");
        }
        key.append("-");
        let magnitude: u128 = magnitude_of(offset);
        append_padded(&mut key, magnitude as u64, 19);
        assert(key@ =~= key_text(topic@, offset as int));
    } else {
        append_padded(&mut key, offset as u64, OFFSET_WIDTH);
    }
    key
}

} // verus!
