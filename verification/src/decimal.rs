//! Decimal text of integers, as bytes: rendering, the inverse of rendering,
//! and the lenient reading of integers that arrive as text.

use vstd::prelude::*;
use vstd::string::StringSliceAdditionalSpecFns;

verus! {

/// The byte `-`.
pub const MINUS: u8 = 45;

/// The byte `+`.
pub const PLUS: u8 = 43;

/// The byte `0`.
pub const ZERO: u8 = 48;

/// `b` is one of the bytes `0` to `9`.
pub open spec fn is_digit(b: u8) -> bool {
    48 <= b <= 57
}

/// The byte that shows the digit `d`.
pub open spec fn digit_byte(d: nat) -> u8
    recommends
        d < 10,
{
    (48 + d) as u8
}

/// Every byte of `s` is a digit.
pub open spec fn all_digits(s: Seq<u8>) -> bool {
    forall|i: int| 0 <= i < s.len() ==> is_digit(#[trigger] s[i])
}

/// The shortest decimal text of `n`: no sign, no leading zero.
pub open spec fn decimal(n: nat) -> Seq<u8>
    decreases n,
{
    if n < 10 {
        seq![digit_byte(n)]
    } else {
        decimal(n / 10).push(digit_byte(n % 10))
    }
}

/// The shortest decimal text of `i`, with a leading `-` when it is negative.
pub open spec fn signed_decimal(i: int) -> Seq<u8> {
    if i < 0 {
        seq![MINUS] + decimal((-i) as nat)
    } else {
        decimal(i as nat)
    }
}

/// The number that a run of digits denotes, most significant digit first.
/// Leading zeros are allowed; the empty run denotes zero.
pub open spec fn digits_value(s: Seq<u8>) -> nat
    decreases s.len(),
{
    if s.len() == 0 {
        0
    } else {
        digits_value(s.drop_last()) * 10 + (s.last() - 48) as nat
    }
}

/// `s` is what `decimal` produces: digits, at least one, and no leading zero
/// unless `s` is the single digit `0`.
pub open spec fn is_canonical(s: Seq<u8>) -> bool {
    &&& s.len() > 0
    &&& all_digits(s)
    &&& (s[0] == ZERO ==> s.len() == 1)
}

/// `decimal(n)` is canonical and denotes `n`.
pub proof fn lemma_decimal_canonical(n: nat)
    ensures
        is_canonical(decimal(n)),
        digits_value(decimal(n)) == n,
    decreases n,
{
    if n < 10 {
        let s = decimal(n);
        assert(s.drop_last() =~= Seq::<u8>::empty());
        assert(digits_value(s.drop_last()) == 0);
    } else {
        lemma_decimal_canonical(n / 10);
        let p = decimal(n / 10);
        let s = decimal(n);
        assert(s.drop_last() =~= p);
        assert(s[0] == p[0]);
        if p[0] == ZERO {
            assert(p.len() == 1);
            assert(p.drop_last() =~= Seq::<u8>::empty());
            assert(digits_value(p.drop_last()) == 0);
            assert(digits_value(p) == 0);
        }
    }
}

/// A canonical run of digits is the decimal text of the number it denotes.
pub proof fn lemma_canonical_decimal(s: Seq<u8>)
    requires
        is_canonical(s),
    ensures
        decimal(digits_value(s)) == s,
    decreases s.len(),
{
    let d = (s.last() - 48) as nat;
    if s.len() == 1 {
        assert(s.drop_last() =~= Seq::<u8>::empty());
        assert(digits_value(s.drop_last()) == 0);
        assert(digits_value(s) == d);
        assert(decimal(d) =~= s);
    } else {
        let p = s.drop_last();
        assert(p[0] == s[0]);
        assert(is_canonical(p)) by {
            assert forall|i: int| 0 <= i < p.len() implies is_digit(#[trigger] p[i]) by {
                assert(p[i] == s[i]);
            }
        }
        lemma_canonical_decimal(p);
        lemma_leading_digit(p);
        let v = digits_value(p);
        assert(v >= 1);
        assert(digits_value(s) == v * 10 + d);
        assert((v * 10 + d) / 10 == v);
        assert((v * 10 + d) % 10 == d);
        assert(decimal(digits_value(s)) =~= s);
    }
}

/// A non-empty run of digits that does not start with `0` denotes a positive
/// number.
proof fn lemma_leading_digit(s: Seq<u8>)
    requires
        s.len() > 0,
        all_digits(s),
        s[0] != ZERO,
    ensures
        digits_value(s) >= 1,
    decreases s.len(),
{
    if s.len() == 1 {
        assert(s.drop_last() =~= Seq::<u8>::empty());
        assert(digits_value(s.drop_last()) == 0);
    } else {
        let p = s.drop_last();
        assert(p[0] == s[0]);
        assert forall|i: int| 0 <= i < p.len() implies is_digit(#[trigger] p[i]) by {
            assert(p[i] == s[i]);
        }
        lemma_leading_digit(p);
    }
}

/// Two numbers with the same decimal text are the same number.
pub proof fn lemma_decimal_injective(a: nat, b: nat)
    requires
        decimal(a) == decimal(b),
    ensures
        a == b,
{
    lemma_decimal_canonical(a);
    lemma_decimal_canonical(b);
}

/// Two integers with the same signed decimal text are the same integer.
pub proof fn lemma_signed_decimal_injective(a: int, b: int)
    requires
        signed_decimal(a) == signed_decimal(b),
    ensures
        a == b,
{
    let sa = signed_decimal(a);
    let sb = signed_decimal(b);
    if a < 0 {
        assert(sa[0] == MINUS);
        if b < 0 {
            assert(sa.subrange(1, sa.len() as int) =~= decimal((-a) as nat));
            assert(sb.subrange(1, sb.len() as int) =~= decimal((-b) as nat));
            lemma_decimal_injective((-a) as nat, (-b) as nat);
        } else {
            lemma_decimal_canonical(b as nat);
            assert(is_digit(sb[0]));
        }
    } else {
        lemma_decimal_canonical(a as nat);
        assert(is_digit(sa[0]));
        if b < 0 {
            assert(sb[0] == MINUS);
        } else {
            lemma_decimal_injective(a as nat, b as nat);
        }
    }
}

/// Appends the decimal text of `n` to `out`.
pub fn push_decimal(out: &mut Vec<u8>, n: u128)
    ensures
        final(out)@ == old(out)@ + decimal(n as nat),
    decreases n,
{
    if n >= 10 {
        push_decimal(out, n / 10);
    }
    let d: u8 = (n % 10) as u8;
    out.push(48 + d);
    assert(final(out)@ =~= old(out)@ + decimal(n as nat));
}

/// Appends the signed decimal text of `i` to `out`.
pub fn push_signed_decimal(out: &mut Vec<u8>, i: i64)
    ensures
        final(out)@ == old(out)@ + signed_decimal(i as int),
{
    if i < 0 {
        out.push(MINUS);
        let magnitude: u128 = magnitude_of(i);
        push_decimal(out, magnitude);
        assert(final(out)@ =~= old(out)@ + signed_decimal(i as int));
    } else {
        push_decimal(out, i as u128);
    }
}

/// The absolute value of `i`.
pub fn magnitude_of(i: i64) -> (m: u128)
    ensures
        m as int == if i < 0 {
            -(i as int)
        } else {
            i as int
        },
{
    if i < 0 {
        let up: i128 = i as i128;
        (-up) as u128
    } else {
        i as u128
    }
}

/// Extending a run of digits never lowers the number it denotes.
proof fn lemma_digits_value_grows(s: Seq<u8>, k: int)
    requires
        all_digits(s),
        0 <= k <= s.len(),
    ensures
        digits_value(s.subrange(0, k)) <= digits_value(s),
    decreases s.len() - k,
{
    if k == s.len() {
        assert(s.subrange(0, k) =~= s);
    } else {
        lemma_digits_value_grows(s, k + 1);
        let longer = s.subrange(0, k + 1);
        assert(longer.drop_last() =~= s.subrange(0, k));
        assert(is_digit(s[k]));
        assert(longer.last() == s[k]);
    }
}

/// Reads a run of digits, with leading zeros allowed, as long as the number
/// stays at or under `limit`.
///
/// Returns the number; `None` when `text` is empty, holds a byte that is no
/// digit, or denotes a number above `limit`.
pub fn read_digits(text: &[u8], limit: u128) -> (r: Option<u128>)
    ensures
        r == if text@.len() > 0 && all_digits(text@) && digits_value(text@) <= limit {
            Some(digits_value(text@) as u128)
        } else {
            None
        },
{
    if text.len() == 0 {
        return None;
    }
    let mut value: u128 = 0;
    let mut at: usize = 0;
    while at < text.len()
        invariant
            at <= text@.len(),
            all_digits(text@.subrange(0, at as int)),
            value == digits_value(text@.subrange(0, at as int)),
            value <= limit,
        decreases text@.len() - at,
    {
        let b: u8 = text[at];
        let ghost seen = text@.subrange(0, at as int);
        let ghost next = text@.subrange(0, at + 1);
        assert(next.drop_last() =~= seen);
        assert(next.last() == b);
        if b < 48 || b > 57 {
            assert(!all_digits(text@)) by {
                assert(!is_digit(text@[at as int]));
            }
            return None;
        }
        assert(all_digits(next)) by {
            assert forall|i: int| 0 <= i < next.len() implies is_digit(#[trigger] next[i]) by {
                if i < at {
                    assert(seen[i] == next[i]);
                }
            }
        }
        let d: u128 = (b - 48) as u128;
        if d > limit || value > (limit - d) / 10 {
            proof {
                assert(digits_value(next) == value * 10 + d);
                assert(digits_value(next) > limit);
                if all_digits(text@) {
                    lemma_digits_value_grows(text@, at + 1);
                }
            }
            return None;
        }
        value = value * 10 + d;
        at = at + 1;
    }
    assert(text@.subrange(0, at as int) =~= text@);
    Some(value)
}

/// Reads what `decimal` wrote.
///
/// Returns `n` exactly when `text` is the decimal text of `n`; `None` when it
/// is the decimal text of no number that `u128` holds.
pub fn parse_decimal(text: &[u8]) -> (r: Option<u128>)
    ensures
        match r {
            Some(n) => text@ == decimal(n as nat),
            None => forall|n: nat| n <= u128::MAX ==> decimal(n) != text@,
        },
{
    if text.len() == 0 {
        assert forall|n: nat| decimal(n) != text@ by {
            lemma_decimal_canonical(n);
        }
        return None;
    }
    if text[0] == ZERO && text.len() > 1 {
        assert forall|n: nat| decimal(n) != text@ by {
            lemma_decimal_canonical(n);
        }
        return None;
    }
    let mut value: u128 = 0;
    let mut at: usize = 0;
    while at < text.len()
        invariant
            at <= text@.len(),
            all_digits(text@.subrange(0, at as int)),
            value == digits_value(text@.subrange(0, at as int)),
        decreases text@.len() - at,
    {
        let b: u8 = text[at];
        let ghost seen = text@.subrange(0, at as int);
        let ghost next = text@.subrange(0, at + 1);
        assert(next.drop_last() =~= seen);
        assert(next.last() == b);
        if b < 48 || b > 57 {
            assert forall|n: nat| decimal(n) != text@ by {
                lemma_decimal_canonical(n);
                assert(!is_digit(text@[at as int]));
            }
            return None;
        }
        assert(all_digits(next)) by {
            assert forall|i: int| 0 <= i < next.len() implies is_digit(#[trigger] next[i]) by {
                if i < at {
                    assert(seen[i] == next[i]);
                }
            }
        }
        let d: u128 = (b - 48) as u128;
        if value > (u128::MAX - d) / 10 {
            assert forall|n: nat| n <= u128::MAX implies decimal(n) != text@ by {
                lemma_decimal_canonical(n);
                if decimal(n) == text@ {
                    lemma_digits_value_grows(text@, at + 1);
                }
            }
            return None;
        }
        value = value * 10 + d;
        at = at + 1;
    }
    proof {
        assert(text@.subrange(0, at as int) =~= text@);
        lemma_canonical_decimal(text@);
    }
    Some(value)
}

/// Reads what `signed_decimal` wrote.
///
/// Returns `i` exactly when `text` is the signed decimal text of `i`; `None`
/// when it is the signed decimal text of no number that `i64` holds.
pub fn parse_signed_decimal(text: &[u8]) -> (r: Option<i64>)
    ensures
        match r {
            Some(i) => text@ == signed_decimal(i as int),
            None => forall|i: int| i64::MIN <= i <= i64::MAX ==> signed_decimal(i) != text@,
        },
{
    if text.len() > 0 && text[0] == MINUS {
        let rest = vstd::slice::slice_subrange(text, 1, text.len());
        assert(text@ =~= seq![MINUS] + rest@);
        match parse_decimal(rest) {
            Some(m) => {
                if m == 0 || m > 9223372036854775808u128 {
                    assert forall|i: int| i64::MIN <= i <= i64::MAX implies signed_decimal(i)
                        != text@ by {
                        if signed_decimal(i) == text@ {
                            lemma_signed_of_minus(i, text@);
                            lemma_decimal_injective((-i) as nat, m as nat);
                        }
                    }
                    None
                } else {
                    let wide: i128 = -(m as i128);
                    Some(wide as i64)
                }
            },
            None => {
                assert forall|i: int| i64::MIN <= i <= i64::MAX implies signed_decimal(i)
                    != text@ by {
                    if signed_decimal(i) == text@ {
                        lemma_signed_of_minus(i, text@);
                    }
                }
                None
            },
        }
    } else {
        match parse_decimal(text) {
            Some(m) => {
                if m > 9223372036854775807u128 {
                    assert forall|i: int| i64::MIN <= i <= i64::MAX implies signed_decimal(i)
                        != text@ by {
                        if signed_decimal(i) == text@ {
                            lemma_signed_of_plain(i, text@);
                            lemma_decimal_injective(i as nat, m as nat);
                        }
                    }
                    None
                } else {
                    Some(m as i64)
                }
            },
            None => {
                assert forall|i: int| i64::MIN <= i <= i64::MAX implies signed_decimal(i)
                    != text@ by {
                    if signed_decimal(i) == text@ {
                        lemma_signed_of_plain(i, text@);
                    }
                }
                None
            },
        }
    }
}

/// A signed decimal text that starts with `-` is that of a negative number,
/// and what follows the `-` is the decimal text of its absolute value.
proof fn lemma_signed_of_minus(i: int, text: Seq<u8>)
    requires
        signed_decimal(i) == text,
        text.len() > 0,
        text[0] == MINUS,
    ensures
        i < 0,
        text.subrange(1, text.len() as int) == decimal((-i) as nat),
{
    if i >= 0 {
        lemma_decimal_canonical(i as nat);
        assert(is_digit(text[0]));
    } else {
        assert(text.subrange(1, text.len() as int) =~= decimal((-i) as nat));
    }
}

/// A signed decimal text that does not start with `-` is the decimal text of
/// a number that is not negative.
proof fn lemma_signed_of_plain(i: int, text: Seq<u8>)
    requires
        signed_decimal(i) == text,
        text.len() == 0 || text[0] != MINUS,
    ensures
        i >= 0,
        text == decimal(i as nat),
{
    if i < 0 {
        assert(signed_decimal(i)[0] == MINUS);
    }
}

/// The integer that `text` denotes to a lenient reader: an optional `+` or
/// `-`, then one or more digits, leading zeros allowed. Anything else denotes
/// nothing.
pub open spec fn integer_of_text(text: Seq<u8>) -> Option<int> {
    if text.len() > 0 && (text[0] == MINUS || text[0] == PLUS) {
        let digits = text.subrange(1, text.len() as int);
        if digits.len() > 0 && all_digits(digits) {
            if text[0] == MINUS {
                Some(-(digits_value(digits) as int))
            } else {
                Some(digits_value(digits) as int)
            }
        } else {
            None
        }
    } else if text.len() > 0 && all_digits(text) {
        Some(digits_value(text) as int)
    } else {
        None
    }
}

/// `integer_of_text`, kept only when the integer lies in `min ..= max`.
pub open spec fn integer_within(text: Seq<u8>, min: int, max: int) -> Option<int> {
    match integer_of_text(text) {
        Some(v) => if min <= v <= max {
            Some(v)
        } else {
            None
        },
        None => None,
    }
}

/// Reads an integer between `min` and `max` from text.
pub fn read_integer(text: &[u8], min: i64, max: i64) -> (r: Option<i64>)
    ensures
        match integer_within(text@, min as int, max as int) {
            Some(v) => r == Some(v as i64),
            None => r is None,
        },
{
    let negative = text.len() > 0 && text[0] == MINUS;
    let signed = negative || (text.len() > 0 && text[0] == PLUS);
    let digits = if signed {
        vstd::slice::slice_subrange(text, 1, text.len())
    } else {
        text
    };
    match read_digits(digits, 9223372036854775808u128) {
        Some(m) => {
            let value: i128 = if negative {
                -(m as i128)
            } else {
                m as i128
            };
            if min as i128 <= value && value <= max as i128 {
                Some(value as i64)
            } else {
                None
            }
        },
        None => None,
    }
}

/// Reads a 64-bit integer from text; `None` when the text denotes no integer
/// or one that `i64` cannot hold.
pub fn parse_i64(text: &str) -> (r: Option<i64>)
    ensures
        match integer_within(text.spec_bytes(), i64::MIN as int, i64::MAX as int) {
            Some(v) => r == Some(v as i64),
            None => r is None,
        },
{
    read_integer(text.as_bytes(), i64::MIN, i64::MAX)
}

/// Reads a 32-bit integer from text; `None` when the text denotes no integer
/// or one that `i32` cannot hold.
pub fn parse_i32(text: &str) -> (r: Option<i32>)
    ensures
        match integer_within(text.spec_bytes(), i32::MIN as int, i32::MAX as int) {
            Some(v) => r == Some(v as i32),
            None => r is None,
        },
{
    match read_integer(text.as_bytes(), -2147483648, 2147483647) {
        Some(v) => Some(v as i32),
        None => None,
    }
}

/// Reading the signed decimal text of an integer gives that integer back.
pub proof fn lemma_integer_of_signed_decimal(i: int)
    ensures
        integer_of_text(signed_decimal(i)) == Some(i),
{
    let text = signed_decimal(i);
    if i < 0 {
        let digits = text.subrange(1, text.len() as int);
        assert(digits =~= decimal((-i) as nat));
        lemma_decimal_canonical((-i) as nat);
    } else {
        lemma_decimal_canonical(i as nat);
        assert(is_digit(text[0]));
    }
}

} // verus!
