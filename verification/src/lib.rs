//! An append-only message log: the pure protocol core of a produce/consume
//! service whose message bodies live in an object store and whose offsets
//! come from an atomic counter.
//!
//! Nothing here performs I/O. The handlers in [`produce`] and [`consume`] are
//! state machines: the caller performs the action a step asks for and hands
//! the outcome back as the next event, until the step asks to answer the
//! request or to give it up.
//!
//! - [`key`]: the storage keys, whose order is the order of the offsets.
//! - [`codec`]: the stored form of a message, and reading it back.
//! - [`produce`]: writing a message: offset, stamp, store, answer.
//! - [`consume`]: reading a page of messages and the cursor for the next.
//! - [`router`]: which handler a request goes to.
//! - [`reply`]: what a handler answers with.
//! - [`decimal`], [`bytes`]: numbers as text, and tools for byte strings.
//! - [`json`]: the two calls into the JSON crate, taken on trust.

pub mod bytes;
pub mod codec;
pub mod consume;
pub mod decimal;
pub mod json;
pub mod key;
pub mod produce;
pub mod reply;
pub mod router;
