//! Verified core of a state-replication link: wire protocol types, delta
//! compression of world snapshots, rate limiting, schema validation, and a
//! sync manager over a pluggable transport.

pub mod clock;
pub mod codec;
pub mod compression;
pub mod error;
pub mod json;
pub mod protocol;
pub mod rate_limit;
pub mod schema;
pub mod serialization;
pub mod sync;
pub mod text;
pub mod transport;

pub use error::LinkError;
pub use protocol::{
    ComponentId, DeltaChange, EntityId, FieldDelta, FieldId, Message, MessageHeader, MessageType,
};
pub use serialization::{
    BinaryFormat, BinarySerializer, Delta, StreamingDeserializer, StreamingSerializer,
    WorldSnapshot,
};
pub use compression::{DeltaCompressor, FieldCompressor};
pub use rate_limit::{RateLimitConfig, RateLimiter, TokenBucketRateLimiter};
pub use schema::{ComponentSchema, FieldSchema, SchemaRegistry, SchemaValidator, SchemaVersion};
pub use sync::{SyncConfig, SyncManager, SyncMode};
pub use text::{format_bytes, message_summary};
pub use transport::{MemoryTransport, Transport, TransportError};
