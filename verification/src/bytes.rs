//! Small tools for building and reading byte strings and texts.

use vstd::prelude::*;
use vstd::string::StringSliceAdditionalSpecFns;

verus! {

/// Appends `src` to `out`.
pub fn append_bytes(out: &mut Vec<u8>, src: &[u8])
    ensures
        final(out)@ == old(out)@ + src@,
{
    let mut at: usize = 0;
    while at < src.len()
        invariant
            at <= src@.len(),
            out@ == old(out)@ + src@.subrange(0, at as int),
        decreases src@.len() - at,
    {
        out.push(src[at]);
        at = at + 1;
        assert(out@ =~= old(out)@ + src@.subrange(0, at as int));
    }
    assert(src@.subrange(0, at as int) =~= src@);
}

/// Appends the UTF-8 bytes of `text` to `out`.
pub fn append_text(out: &mut Vec<u8>, text: &str)
    ensures
        final(out)@ == old(out)@ + text.spec_bytes(),
{
    append_bytes(out, text.as_bytes());
}

/// Whether `bytes`, read from position `at`, goes on with `expected`.
pub fn continues_with(bytes: &[u8], at: usize, expected: &[u8]) -> (yes: bool)
    ensures
        yes == (at + expected@.len() <= bytes@.len() && bytes@.subrange(
            at as int,
            at + expected@.len(),
        ) == expected@),
{
    if at > bytes.len() || expected.len() > bytes.len() - at {
        return false;
    }
    let mut i: usize = 0;
    while i < expected.len()
        invariant
            at + expected@.len() <= bytes@.len() <= usize::MAX,
            i <= expected@.len(),
            bytes@.subrange(at as int, at + i) == expected@.subrange(0, i as int),
        decreases expected@.len() - i,
    {
        if bytes[at + i] != expected[i] {
            assert(bytes@.subrange(at as int, at + expected@.len())[i as int]
                != expected@[i as int]);
            return false;
        }
        i = i + 1;
        assert(bytes@.subrange(at as int, at + i) =~= expected@.subrange(0, i as int)) by {
            let a = bytes@.subrange(at as int, at + i);
            let b = expected@.subrange(0, i as int);
            assert forall|j: int| 0 <= j < i implies a[j] == b[j] by {
                if j < i - 1 {
                    assert(bytes@.subrange(at as int, at + i - 1)[j] == expected@.subrange(
                        0,
                        i - 1,
                    )[j]);
                }
            }
        }
    }
    assert(expected@.subrange(0, i as int) =~= expected@);
    true
}

/// A text that may be absent, as a mathematical value.
pub open spec fn text_view(text: Option<String>) -> Option<Seq<char>> {
    match text {
        Some(t) => Some(t@),
        None => None,
    }
}

/// The text, where there is one, borrowed.
pub fn borrowed(text: &Option<String>) -> (r: Option<&str>)
    ensures
        match r {
            Some(t) => text_view(*text) == Some(t@),
            None => text_view(*text) is None,
        },
{
    match text {
        Some(t) => Some(t.as_str()),
        None => None,
    }
}

} // verus!
