//! Error kinds surfaced by the replication link.

use vstd::prelude::*;

verus! {

/// Every failure the link can report. Codec failures carry a human-readable
/// message; schema failures carry the versions involved.
#[derive(Debug, Clone, PartialEq, Eq)]
pub enum LinkError {
    Serialization(String),
    Deserialization(String),
    Transport(String),
    SchemaMismatch { expected: String, actual: String },
    SchemaNotFound(String),
    RateLimitExceeded(String),
    InvalidMessage(String),
    ConnectionClosed,
    Timeout,
    Unknown(String),
}

} // verus!
