//! What this library asks of the JSON crate: whether some bytes are JSON,
//! which members a JSON object has, and how a string is written as a JSON
//! string. The answers are taken on trust. The contracts below give each a
//! name; of the last they claim, beside the name, only that there always is
//! one.

use serde_json::value::RawValue;
use std::collections::BTreeMap;
use vstd::prelude::*;

verus! {

/// Whether the JSON crate reads `text` as exactly one JSON value.
pub uninterp spec fn is_json(text: Seq<u8>) -> bool;

/// The members of the JSON object `text`, as the JSON crate reads them into
/// a map from names to values left as text: of each member the bytes of its
/// name and the bytes of its value. `None` where the crate does not read
/// `text` as one JSON object.
pub uninterp spec fn json_members(text: Seq<u8>) -> Option<Seq<(Seq<u8>, Seq<u8>)>>;

/// Members as mathematical values.
pub open spec fn members_view(members: Seq<(Vec<u8>, Vec<u8>)>) -> Seq<(Seq<u8>, Seq<u8>)> {
    members.map_values(|m: (Vec<u8>, Vec<u8>)| (m.0@, m.1@))
}

/// The JSON crate's rendering of the string `s`, quotes and escapes
/// included.
pub uninterp spec fn json_string(s: Seq<char>) -> Seq<u8>;

/// Calls `serde_json::from_slice` at the type `serde_json::Value` and says
/// whether it returned `Ok`. Trusted: that the answer depends on the bytes
/// alone, which is what naming it `is_json(text@)` claims.
#[verifier::external_body]
pub(crate) fn check_json(text: &[u8]) -> (ok: bool)
    ensures
        ok == is_json(text@),
{
    serde_json::from_slice::<serde_json::Value>(text).is_ok()
}

/// Calls `serde_json::from_slice` at the type of a `BTreeMap` from `String`
/// to `Box<RawValue>`, and hands out the map's entries as bytes. Trusted:
/// that the outcome depends on the bytes of `text` alone, which is what
/// naming it `json_members(text@)` claims.
#[verifier::external_body]
pub(crate) fn read_members(text: &[u8]) -> (members: Option<Vec<(Vec<u8>, Vec<u8>)>>)
    ensures
        match members {
            Some(found) => json_members(text@) == Some(members_view(found@)),
            None => json_members(text@) is None,
        },
{
    let map = serde_json::from_slice::<BTreeMap<String, Box<RawValue>>>(text).ok()?;
    Some(map.into_iter().map(|(k, v)| (k.into_bytes(), v.get().as_bytes().to_vec())).collect())
}

/// Calls `serde_json::to_vec` on a string slice. Trusted: that the call
/// succeeds, and that the bytes returned depend on the characters of `s`
/// alone, which is what naming them `json_string(s@)` claims. It succeeds
/// because its two documented causes of failure, a `Serialize` impl that
/// fails and a map with keys that are no strings, cannot arise for a
/// string, and because it writes into a `Vec`, which takes every write.
#[verifier::external_body]
pub(crate) fn quote(s: &str) -> (quoted: Option<Vec<u8>>)
    ensures
        quoted is Some,
        quoted->0@ == json_string(s@),
{
    serde_json::to_vec(s).ok()
}

} // verus!
