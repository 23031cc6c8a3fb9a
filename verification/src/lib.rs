//! Verified core of a federated Matrix home server: the PDU codec with
//! canonical JSON, the event store with its per-room state index, the
//! append pipeline, the outbound transaction dispatcher, and the push-rule
//! evaluator.

pub mod append;
pub mod bytes;
pub mod client;
pub mod dispatch;
pub mod hashes;
pub mod json;
pub mod pdu;
pub mod push;
pub mod queue;
pub mod store;

use vstd::prelude::*;

verus! {

/// How a request or an internal operation fails.
///
/// `BadRequest` carries a Matrix error kind that the HTTP layer maps to an
/// error code; `BadDatabase` marks stored data that no longer parses;
/// `BadServerResponse` marks a misbehaving remote peer.
#[derive(Clone, Copy, Debug, PartialEq, Eq, Structural)]
pub enum ErrorKind {
    Forbidden,
    NotFound,
    BadJson,
    InvalidParam,
    UnknownToken,
    MissingToken,
}

#[derive(Clone, Copy, Debug, PartialEq, Eq, Structural)]
pub enum Error {
    BadRequest(ErrorKind),
    BadDatabase,
    BadServerResponse,
    Conflict,
}

} // verus!
