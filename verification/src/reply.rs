//! What a handler answers with, for the caller to put on the wire.

use vstd::prelude::*;

verus! {

/// An answer to a request: the status, whether the body is announced as
/// JSON, and the body.
#[derive(Debug, Clone, PartialEq, Eq)]
pub struct Reply {
    /// The HTTP status code.
    pub status: u16,
    /// Whether the answer carries the header `content-type: application/json`.
    pub json: bool,
    /// The body.
    pub body: Vec<u8>,
}

/// An answer as mathematical values.
pub struct ReplyView {
    pub status: int,
    pub json: bool,
    pub body: Seq<u8>,
}

impl View for Reply {
    type V = ReplyView;

    open spec fn view(&self) -> ReplyView {
        ReplyView { status: self.status as int, json: self.json, body: self.body@ }
    }
}

} // verus!
