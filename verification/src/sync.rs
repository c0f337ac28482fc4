//! The sync manager: drives a transport with snapshots or deltas, applies
//! rate limiting, reacts to incoming messages, and keeps session counters.

use vstd::prelude::*;
use vstd::string::StringExecFns;

use crate::clock::now_micros;
use crate::compression::{spec_initial_changes, spec_snapshot_changes, DeltaCompressor};
use crate::error::LinkError;
use crate::protocol::{
    ComponentSchemaInfo, DeltaChangeV, Message, MessagePayload, MessagePayloadV, MessageType,
    MessageV, spec_component_total,
};
use crate::rate_limit::{sat_add, sum_sizes, RateLimitConfig, RateLimitStats, RateLimiter};
use crate::schema::{SchemaRegistry, SchemaVersion};
use crate::serialization::{Delta, WorldSnapshot, WorldSnapshotV};
use crate::transport::Transport;

verus! {

/// What a tick of the link ships: everything, a diff, or nothing unless
/// asked.
#[derive(Debug, Clone, Copy, PartialEq, Eq, Structural)]
pub enum SyncMode {
    Full,
    Delta,
    Manual,
}

#[derive(Debug, Clone, Copy, PartialEq, Eq, Structural)]
pub struct SyncConfig {
    pub mode: SyncMode,
    /// How often `should_sync` asks for a new tick, in microseconds.
    pub sync_interval: u64,
    pub enable_rate_limiting: bool,
    pub rate_limit_config: RateLimitConfig,
    pub enable_field_compression: bool,
    pub auto_reconnect: bool,
    pub max_reconnect_attempts: u32,
    /// Advisory delay between reconnect attempts, in microseconds.
    pub reconnect_delay: u64,
}

impl Default for SyncConfig {
    fn default() -> (c: Self)
        ensures
            c.mode == SyncMode::Delta,
            c.sync_interval == 100000,
            c.enable_rate_limiting,
            c.rate_limit_config == (RateLimitConfig {
                max_messages_per_second: 1000,
                max_bytes_per_second: 10485760,
                burst_size: 100,
                window_duration: 1000000,
            }),
            c.enable_field_compression,
            !c.auto_reconnect,
            c.max_reconnect_attempts == 3,
            c.reconnect_delay == 1000000,
    {
        SyncConfig {
            mode: SyncMode::Delta,
            sync_interval: 100000,
            enable_rate_limiting: true,
            rate_limit_config: RateLimitConfig::new(),
            enable_field_compression: true,
            auto_reconnect: false,
            max_reconnect_attempts: 3,
            reconnect_delay: 1000000,
        }
    }
}

impl SyncConfig {
    pub fn new() -> (c: Self)
        ensures
            c.mode == SyncMode::Delta,
            c.sync_interval == 100000,
            c.enable_rate_limiting,
            c.rate_limit_config == (RateLimitConfig {
                max_messages_per_second: 1000,
                max_bytes_per_second: 10485760,
                burst_size: 100,
                window_duration: 1000000,
            }),
            c.enable_field_compression,
            !c.auto_reconnect,
            c.max_reconnect_attempts == 3,
            c.reconnect_delay == 1000000,
    {
        Self::default()
    }

    pub fn with_mode(self, mode: SyncMode) -> (c: Self)
        ensures
            c == (SyncConfig { mode, ..self }),
    {
        SyncConfig { mode, ..self }
    }

    /// The interval is given in microseconds.
    pub fn with_sync_interval(self, interval_micros: u64) -> (c: Self)
        ensures
            c == (SyncConfig { sync_interval: interval_micros, ..self }),
    {
        SyncConfig { sync_interval: interval_micros, ..self }
    }

    pub fn with_rate_limiting(self, enabled: bool) -> (c: Self)
        ensures
            c == (SyncConfig { enable_rate_limiting: enabled, ..self }),
    {
        SyncConfig { enable_rate_limiting: enabled, ..self }
    }

    pub fn with_rate_limit_config(self, config: RateLimitConfig) -> (c: Self)
        ensures
            c == (SyncConfig { rate_limit_config: config, ..self }),
    {
        SyncConfig { rate_limit_config: config, ..self }
    }

    pub fn with_field_compression(self, enabled: bool) -> (c: Self)
        ensures
            c == (SyncConfig { enable_field_compression: enabled, ..self }),
    {
        SyncConfig { enable_field_compression: enabled, ..self }
    }

    pub fn with_auto_reconnect(self, enabled: bool, max_attempts: u32) -> (c: Self)
        ensures
            c == (SyncConfig {
                auto_reconnect: enabled,
                max_reconnect_attempts: max_attempts,
                ..self
            }),
    {
        SyncConfig { auto_reconnect: enabled, max_reconnect_attempts: max_attempts, ..self }
    }
}

/// What a received message means to the application.
#[derive(Debug)]
pub enum SyncEvent {
    Snapshot(WorldSnapshot),
    Delta(Delta),
    SnapshotRequested,
    Ack(u64),
    Ping,
    Pong,
    SchemaSync(Vec<ComponentSchemaInfo>),
    Error { code: u32, message: String },
}

#[derive(Debug, Clone, Copy, PartialEq, Eq, Structural)]
pub struct SyncStats {
    pub sync_count: u64,
    pub error_count: u64,
    /// Microseconds of the last successful send, if any.
    pub last_sync: Option<u64>,
    pub rate_limiter_stats: Option<RateLimitStats>,
    pub reconnect_attempts: u32,
}

/// Composes a transport, the delta compressor, an optional rate limiter and
/// a schema registry into one replication endpoint.
pub struct SyncManager<T: Transport> {
    transport: T,
    config: SyncConfig,
    delta_compressor: DeltaCompressor,
    rate_limiter: Option<RateLimiter>,
    schema_registry: SchemaRegistry,
    last_sync: Option<u64>,
    sync_count: u64,
    error_count: u64,
    reconnect_attempts: u32,
    schema_version: SchemaVersion,
    next_sequence: u64,
}

impl<T: Transport> SyncManager<T> {
    pub closed spec fn spec_config(&self) -> SyncConfig {
        self.config
    }

    pub closed spec fn spec_connected(&self) -> bool {
        self.transport.spec_connected()
    }

    pub closed spec fn spec_sync_count(&self) -> u64 {
        self.sync_count
    }

    pub closed spec fn spec_error_count(&self) -> u64 {
        self.error_count
    }

    pub closed spec fn spec_reconnect_attempts(&self) -> u32 {
        self.reconnect_attempts
    }

    pub closed spec fn spec_schema_version(&self) -> SchemaVersion {
        self.schema_version
    }

    pub closed spec fn spec_sequence(&self) -> u64 {
        self.next_sequence
    }

    pub closed spec fn spec_last_sync(&self) -> Option<u64> {
        self.last_sync
    }

    /// The compressor's stored previous snapshot, if any.
    pub closed spec fn spec_compressor_prev(&self) -> Option<WorldSnapshotV> {
        self.delta_compressor.spec_prev()
    }

    /// The rate limiter, when one is configured.
    pub closed spec fn spec_limiter(&self) -> Option<RateLimiter> {
        self.rate_limiter
    }

    /// Everything this manager's transport has accepted for delivery.
    pub closed spec fn spec_outbox(&self) -> Seq<MessageV> {
        self.transport.spec_outbox()
    }

    /// The changes the next delta would carry, given the stored base.
    pub open spec fn spec_pending_changes(
        prev: Option<WorldSnapshotV>,
        field_compression: bool,
        curr: WorldSnapshotV,
    ) -> Seq<DeltaChangeV> {
        match prev {
            Some(p) => spec_snapshot_changes(field_compression, p.entities, curr.entities),
            None => spec_initial_changes(curr.entities, 0),
        }
    }

    /// The advisory reconnect counter after one failed send on a closed
    /// transport.
    pub open spec fn spec_bumped_attempts(cfg: SyncConfig, attempts: u32) -> u32 {
        if cfg.auto_reconnect && attempts < cfg.max_reconnect_attempts {
            (attempts + 1) as u32
        } else {
            attempts
        }
    }

    pub fn new(transport: T, config: SyncConfig) -> (m: SyncManager<T>)
        ensures
            m.spec_config() == config,
            m.spec_sync_count() == 0,
            m.spec_error_count() == 0,
            m.spec_reconnect_attempts() == 0,
            m.spec_schema_version() == 1,
            m.spec_compressor_prev() is None,
            m.spec_last_sync() is None,
    {
        let delta_compressor = DeltaCompressor::with_field_compression(
            config.enable_field_compression,
        );
        let rate_limiter = if config.enable_rate_limiting {
            Some(RateLimiter::new(config.rate_limit_config))
        } else {
            None
        };
        SyncManager {
            transport,
            config,
            delta_compressor,
            rate_limiter,
            schema_registry: SchemaRegistry::new(),
            last_sync: None,
            sync_count: 0,
            error_count: 0,
            reconnect_attempts: 0,
            schema_version: 1,
            next_sequence: 0,
        }
    }

    /// Note a failed send on a closed transport: the advisory reconnect
    /// counter moves (when auto-reconnect is on and attempts remain) and
    /// nothing else does.
    fn note_disconnected(&mut self) -> (r: Result<(), LinkError>)
        ensures
            r matches Err(e) && e is ConnectionClosed,
            final(self).spec_sync_count() == old(self).spec_sync_count(),
            final(self).spec_last_sync() == old(self).spec_last_sync(),
            final(self).spec_compressor_prev() == old(self).spec_compressor_prev(),
            final(self).spec_config() == old(self).spec_config(),
            final(self).spec_schema_version() == old(self).spec_schema_version(),
            final(self).spec_limiter() == old(self).spec_limiter(),
            final(self).spec_outbox() == old(self).spec_outbox(),
            final(self).spec_sequence() == old(self).spec_sequence(),
            final(self).spec_error_count() == old(self).spec_error_count(),
            final(self).spec_reconnect_attempts() == Self::spec_bumped_attempts(
                old(self).spec_config(),
                old(self).spec_reconnect_attempts(),
            ),
    {
        if self.config.auto_reconnect && self.reconnect_attempts < self.config.max_reconnect_attempts {
            self.reconnect_attempts = self.reconnect_attempts + 1;
        }
        Err(LinkError::ConnectionClosed)
    }

    /// Take the next wire sequence number; strictly increasing until it
    /// saturates.
    fn take_sequence(&mut self) -> (r: u64)
        ensures
            r == sat_add(old(self).spec_sequence(), 1),
            final(self).spec_sequence() == sat_add(old(self).spec_sequence(), 1),
            *final(self) == (SyncManager { next_sequence: final(self).next_sequence, ..*old(self) }),
    {
        self.next_sequence = if self.next_sequence < u64::MAX {
            self.next_sequence + 1
        } else {
            u64::MAX
        };
        self.next_sequence
    }

    /// Ship the whole snapshot. Fails with `ConnectionClosed` on a closed
    /// transport (touching only the advisory reconnect counter) and with
    /// `RateLimitExceeded` when the limiter rejects; on success exactly one
    /// snapshot message of this world state joins the outbox and the
    /// session counters advance.
    pub fn send_snapshot(&mut self, snapshot: WorldSnapshot) -> (r: Result<(), LinkError>)
        requires
            snapshot.entities@.len() <= u32::MAX,
            spec_component_total(snapshot.deep_view().entities) <= u32::MAX,
        ensures
            !old(self).spec_connected() ==> (r matches Err(e) && e is ConnectionClosed)
                && final(self).spec_outbox() == old(self).spec_outbox()
                && final(self).spec_limiter() == old(self).spec_limiter()
                && final(self).spec_reconnect_attempts() == Self::spec_bumped_attempts(
                old(self).spec_config(),
                old(self).spec_reconnect_attempts(),
            ),
            r is Ok ==> final(self).spec_sync_count() == sat_add(old(self).spec_sync_count(), 1)
                && final(self).spec_reconnect_attempts() == 0 && final(self).spec_last_sync()
                is Some,
            r is Ok ==> final(self).spec_outbox().len() == old(self).spec_outbox().len() + 1
                && final(self).spec_outbox().drop_last() == old(self).spec_outbox() && ({
                let m = final(self).spec_outbox().last();
                &&& m.header.msg_type == MessageType::Snapshot
                &&& m.header.schema_version == old(self).spec_schema_version()
                &&& m.payload matches MessagePayloadV::Snapshot(p) && p.entities
                    == snapshot.deep_view().entities && p.metadata.world_time
                    == snapshot.timestamp
            }),
            r is Err ==> final(self).spec_sync_count() == old(self).spec_sync_count()
                && final(self).spec_last_sync() == old(self).spec_last_sync()
                && final(self).spec_outbox() == old(self).spec_outbox(),
            final(self).spec_config() == old(self).spec_config(),
            final(self).spec_schema_version() == old(self).spec_schema_version(),
            final(self).spec_compressor_prev() == old(self).spec_compressor_prev(),
            final(self).spec_limiter() is Some <==> old(self).spec_limiter() is Some,
    {
        if !self.transport.is_connected() {
            return self.note_disconnected();
        }
        let schema_version = self.schema_version;
        let now = now_micros();
        let sequence = self.take_sequence();
        let message = Message::snapshot(
            snapshot.entities,
            snapshot.timestamp,
            schema_version,
            now / 1000,
            sequence,
        );
        match self.apply_rate_limit(1024) {
            Ok(_) => {},
            Err(e) => {
                return Err(e);
            },
        }
        let ghost outbox0 = self.spec_outbox();
        match self.transport.send(&message) {
            Ok(_) => {
                proof {
                    assert(self.spec_outbox().drop_last() =~= outbox0);
                    assert(self.spec_outbox().last() == message.deep_view());
                }
            },
            Err(e) => {
                return Err(e);
            },
        }
        self.last_sync = Some(now);
        self.sync_count = if self.sync_count < u64::MAX {
            self.sync_count + 1
        } else {
            u64::MAX
        };
        self.reconnect_attempts = 0;
        Ok(())
    }

    /// Consult the rate limiter with the standing size estimate; a link
    /// without a limiter admits everything, and a rejection carries the
    /// limiter's own message.
    fn apply_rate_limit(&mut self, estimated_size: u64) -> (r: Result<(), LinkError>)
        ensures
            *final(self) == (SyncManager { rate_limiter: final(self).rate_limiter, ..*old(self) }),
            r matches Err(e) ==> e is RateLimitExceeded,
            final(self).spec_limiter() is Some <==> old(self).spec_limiter() is Some,
    {
        match &mut self.rate_limiter {
            Some(limiter) => limiter.check_and_record(estimated_size),
            None => Ok(()),
        }
    }

    /// Compress the snapshot against the stored previous one and ship the
    /// delta. An empty delta succeeds without sending, without charging the
    /// limiter and without moving any counter; either way (when connected)
    /// the snapshot becomes the new base. The changes shipped are exactly
    /// the diff the compressor's contract names.
    pub fn send_delta(&mut self, snapshot: WorldSnapshot) -> (r: Result<(), LinkError>)
        ensures
            !old(self).spec_connected() ==> (r matches Err(e) && e is ConnectionClosed)
                && final(self).spec_compressor_prev() == old(self).spec_compressor_prev()
                && final(self).spec_outbox() == old(self).spec_outbox()
                && final(self).spec_limiter() == old(self).spec_limiter()
                && final(self).spec_last_sync() == old(self).spec_last_sync()
                && final(self).spec_reconnect_attempts() == Self::spec_bumped_attempts(
                old(self).spec_config(),
                old(self).spec_reconnect_attempts(),
            ),
            old(self).spec_connected() ==> final(self).spec_compressor_prev() == Some(
                snapshot.deep_view(),
            ),
            old(self).spec_connected() && Self::spec_pending_changes(
                old(self).spec_compressor_prev(),
                old(self).spec_field_compression(),
                snapshot.deep_view(),
            ) == Seq::<DeltaChangeV>::empty() ==> r is Ok && final(self).spec_sync_count() == old(
                self,
            ).spec_sync_count() && final(self).spec_last_sync() == old(self).spec_last_sync()
                && final(self).spec_outbox() == old(self).spec_outbox()
                && final(self).spec_limiter() == old(self).spec_limiter()
                && final(self).spec_reconnect_attempts() == old(self).spec_reconnect_attempts(),
            old(self).spec_connected() && Self::spec_pending_changes(
                old(self).spec_compressor_prev(),
                old(self).spec_field_compression(),
                snapshot.deep_view(),
            ).len() > u32::MAX ==> (r matches Err(e) && e is Serialization),
            r is Ok && Self::spec_pending_changes(
                old(self).spec_compressor_prev(),
                old(self).spec_field_compression(),
                snapshot.deep_view(),
            ) != Seq::<DeltaChangeV>::empty() ==> final(self).spec_sync_count() == sat_add(
                old(self).spec_sync_count(),
                1,
            ) && final(self).spec_reconnect_attempts() == 0 && final(self).spec_last_sync()
                is Some,
            r is Ok && Self::spec_pending_changes(
                old(self).spec_compressor_prev(),
                old(self).spec_field_compression(),
                snapshot.deep_view(),
            ) != Seq::<DeltaChangeV>::empty() ==> final(self).spec_outbox().len() == old(
                self,
            ).spec_outbox().len() + 1 && final(self).spec_outbox().drop_last() == old(
                self,
            ).spec_outbox() && ({
                let m = final(self).spec_outbox().last();
                &&& m.header.msg_type == MessageType::Delta
                &&& m.header.schema_version == old(self).spec_schema_version()
                &&& m.payload matches MessagePayloadV::Delta(p) && p.changes
                    == Self::spec_pending_changes(
                    old(self).spec_compressor_prev(),
                    old(self).spec_field_compression(),
                    snapshot.deep_view(),
                ) && p.base_timestamp == (match old(self).spec_compressor_prev() {
                    Some(prev) => prev.timestamp,
                    None => 0u64,
                })
            }),
            r is Err ==> final(self).spec_sync_count() == old(self).spec_sync_count()
                && final(self).spec_last_sync() == old(self).spec_last_sync()
                && final(self).spec_outbox() == old(self).spec_outbox(),
            final(self).spec_config() == old(self).spec_config(),
            final(self).spec_schema_version() == old(self).spec_schema_version(),
            final(self).spec_limiter() is Some <==> old(self).spec_limiter() is Some,
    {
        if !self.transport.is_connected() {
            return self.note_disconnected();
        }
        let delta = self.delta_compressor.create_delta(snapshot);
        proof {
            assert(delta.changes.deep_view().len() == delta.changes@.len());
        }
        if delta.changes.len() == 0 {
            proof {
                assert(delta.changes.deep_view() =~= Seq::<DeltaChangeV>::empty());
            }
            return Ok(());
        }
        if delta.changes.len() > (u32::MAX as usize) {
            let msg = String::from_str("delta too large for the wire");
            return Err(LinkError::Serialization(msg));
        }
        let base_timestamp = delta.base_timestamp;
        let schema_version = self.schema_version;
        let now = now_micros();
        let sequence = self.take_sequence();
        let message = Message::delta(delta.changes, base_timestamp, schema_version, now / 1000, sequence);
        match self.apply_rate_limit(1024) {
            Ok(_) => {},
            Err(e) => {
                return Err(e);
            },
        }
        let ghost outbox0 = self.spec_outbox();
        match self.transport.send(&message) {
            Ok(_) => {
                proof {
                    assert(self.spec_outbox().drop_last() =~= outbox0);
                    assert(self.spec_outbox().last() == message.deep_view());
                }
            },
            Err(e) => {
                return Err(e);
            },
        }
        self.last_sync = Some(now);
        self.sync_count = if self.sync_count < u64::MAX {
            self.sync_count + 1
        } else {
            u64::MAX
        };
        self.reconnect_attempts = 0;
        Ok(())
    }

    /// Whether the compressor diffs field by field.
    pub closed spec fn spec_field_compression(&self) -> bool {
        self.delta_compressor.spec_field_enabled()
    }

    /// Ship per the configured mode: everything, a diff, or nothing. The
    /// mode-specific clauses of `send_snapshot` and `send_delta` carry over.
    pub fn send(&mut self, snapshot: WorldSnapshot) -> (r: Result<(), LinkError>)
        requires
            snapshot.entities@.len() <= u32::MAX,
            spec_component_total(snapshot.deep_view().entities) <= u32::MAX,
        ensures
            old(self).spec_config().mode == SyncMode::Manual ==> r is Ok
                && *final(self) == *old(self),
            old(self).spec_config().mode != SyncMode::Manual && !old(self).spec_connected() ==> (
            r matches Err(e) && e is ConnectionClosed) && final(self).spec_outbox() == old(
                self,
            ).spec_outbox() && final(self).spec_last_sync() == old(self).spec_last_sync()
                && final(self).spec_reconnect_attempts() == Self::spec_bumped_attempts(
                old(self).spec_config(),
                old(self).spec_reconnect_attempts(),
            ),
            old(self).spec_config().mode == SyncMode::Full ==> final(self).spec_compressor_prev() == old(self).spec_compressor_prev() && (r is Ok ==> final(self).spec_sync_count() == sat_add(old(self).spec_sync_count(), 1) && final(self).spec_reconnect_attempts() == 0 && final(self).spec_last_sync() is Some),
            old(self).spec_config().mode == SyncMode::Delta && old(self).spec_connected()
                ==> final(self).spec_compressor_prev() == Some(snapshot.deep_view()),
            old(self).spec_config().mode == SyncMode::Delta && old(self).spec_connected()
                && Self::spec_pending_changes(
                old(self).spec_compressor_prev(),
                old(self).spec_field_compression(),
                snapshot.deep_view(),
            ) == Seq::<DeltaChangeV>::empty() ==> r is Ok && final(self).spec_sync_count() == old(
                self,
            ).spec_sync_count() && final(self).spec_outbox() == old(self).spec_outbox() && final(self).spec_limiter() == old(self).spec_limiter(),
            old(self).spec_config().mode == SyncMode::Delta && r is Ok
                && Self::spec_pending_changes(
                old(self).spec_compressor_prev(),
                old(self).spec_field_compression(),
                snapshot.deep_view(),
            ) != Seq::<DeltaChangeV>::empty() ==> final(self).spec_sync_count() == sat_add(
                old(self).spec_sync_count(),
                1,
            ) && final(self).spec_reconnect_attempts() == 0 && final(self).spec_last_sync()
                is Some,
            r is Err ==> final(self).spec_sync_count() == old(self).spec_sync_count()
                && final(self).spec_last_sync() == old(self).spec_last_sync()
                && final(self).spec_outbox() == old(self).spec_outbox(),
            final(self).spec_config() == old(self).spec_config(),
            final(self).spec_schema_version() == old(self).spec_schema_version(),
    {
        match self.config.mode {
            SyncMode::Full => self.send_snapshot(snapshot),
            SyncMode::Delta => self.send_delta(snapshot),
            SyncMode::Manual => Ok(()),
        }
    }

    /// Poll the transport once and translate what arrived; `Ok(None)` when
    /// nothing is waiting. How each payload maps to its event, and the
    /// pong answered to a ping, are stated on `process_message`; here the
    /// outbox either stays or gains exactly that one pong.
    pub fn receive(&mut self) -> (r: Result<Option<SyncEvent>, LinkError>)
        ensures
            !old(self).spec_connected() ==> (r matches Err(e) && e is ConnectionClosed)
                && *final(self) == *old(self),
            final(self).spec_config() == old(self).spec_config(),
            final(self).spec_schema_version() == old(self).spec_schema_version(),
            final(self).spec_sync_count() == old(self).spec_sync_count(),
            final(self).spec_last_sync() == old(self).spec_last_sync(),
            final(self).spec_outbox() == old(self).spec_outbox() || (final(self).spec_outbox().len() == old(self).spec_outbox().len() + 1 && final(self).spec_outbox().drop_last() == old(self).spec_outbox() && final(self).spec_outbox().last().payload is Pong),
    {
        if !self.transport.is_connected() {
            return Err(LinkError::ConnectionClosed);
        }
        match self.transport.receive() {
            Ok(Some(message)) => match self.process_message(message) {
                Ok(event) => Ok(Some(event)),
                Err(e) => Err(e),
            },
            Ok(None) => Ok(None),
            Err(e) => Err(e),
        }
    }

    /// Translate one already-received message into its event, with the side
    /// effects the protocol asks for: a snapshot resets the compressor, an
    /// error bumps the error counter, and a ping is answered on the spot
    /// with exactly one pong carrying this manager's schema version.
    pub fn process_message(&mut self, message: Message) -> (r: Result<SyncEvent, LinkError>)
        ensures
            final(self).spec_config() == old(self).spec_config(),
            final(self).spec_schema_version() == old(self).spec_schema_version(),
            final(self).spec_sync_count() == old(self).spec_sync_count(),
            final(self).spec_last_sync() == old(self).spec_last_sync(),
            final(self).spec_limiter() == old(self).spec_limiter(),
            !(message.payload is Ping) ==> final(self).spec_outbox() == old(self).spec_outbox(),
            message.payload is Ping ==> (r is Err && final(self).spec_outbox() == old(
                self,
            ).spec_outbox()) || (r matches Ok(e) && e is Ping && final(self).spec_outbox().len()
                == old(self).spec_outbox().len() + 1 && final(self).spec_outbox().drop_last()
                == old(self).spec_outbox() && final(self).spec_outbox().last().header.msg_type
                == MessageType::Pong && final(self).spec_outbox().last().header.schema_version
                == old(self).spec_schema_version() && final(self).spec_outbox().last().payload
                is Pong),
            message.payload matches MessagePayload::Snapshot(p) ==> (r matches Ok(e) && (e
                matches SyncEvent::Snapshot(s) && s.deep_view().entities == p.entities.deep_view()
                && s.deep_view().timestamp == p.metadata.world_time && s.deep_view().version
                == "1.0.0"@))
                && final(self).spec_compressor_prev() is None,
            message.payload matches MessagePayload::Delta(p) ==> (r matches Ok(e) && (e
                matches SyncEvent::Delta(d) && d.deep_view().changes == p.changes.deep_view()
                && d.deep_view().timestamp == message.header.timestamp
                && d.deep_view().base_timestamp == p.base_timestamp)),
            message.payload is RequestSnapshot ==> (r matches Ok(e) && e is SnapshotRequested),
            message.payload matches MessagePayload::Ack { ack_id } ==> (r matches Ok(e) && (e
                matches SyncEvent::Ack(id) && id == ack_id)),
            message.payload is Ping ==> (r is Err || (r matches Ok(e) && e is Ping)),
            message.payload is Pong ==> (r matches Ok(e) && e is Pong),
            message.payload matches MessagePayload::SchemaSync(p) ==> (r matches Ok(e) && (e
                matches SyncEvent::SchemaSync(s) && s.deep_view() == p.schemas.deep_view())),
            message.payload matches MessagePayload::Error { code, .. } ==> (r matches Ok(e) && (e
                matches SyncEvent::Error { code: c, .. } && c == code))
                && final(self).spec_error_count() == sat_add(old(self).spec_error_count(), 1),
    {
        match message.payload {
            MessagePayload::Snapshot(payload) => {
                let snapshot = WorldSnapshot {
                    entities: payload.entities,
                    timestamp: payload.metadata.world_time,
                    version: String::from_str("1.0.0"),
                };
                self.delta_compressor.reset();
                Ok(SyncEvent::Snapshot(snapshot))
            },
            MessagePayload::Delta(payload) => {
                let delta = Delta {
                    changes: payload.changes,
                    timestamp: message.header.timestamp,
                    base_timestamp: payload.base_timestamp,
                };
                Ok(SyncEvent::Delta(delta))
            },
            MessagePayload::RequestSnapshot => Ok(SyncEvent::SnapshotRequested),
            MessagePayload::Ack { ack_id } => Ok(SyncEvent::Ack(ack_id)),
            MessagePayload::Ping => {
                let now = now_micros();
                let sequence = self.take_sequence();
                let pong = Message::pong(self.schema_version, now / 1000, sequence);
                let ghost outbox0 = self.spec_outbox();
                match self.transport.send(&pong) {
                    Ok(_) => {
                        proof {
                            assert(self.spec_outbox().drop_last() =~= outbox0);
                            assert(self.spec_outbox().last() == pong.deep_view());
                        }
                        Ok(SyncEvent::Ping)
                    },
                    Err(e) => Err(e),
                }
            },
            MessagePayload::Pong => Ok(SyncEvent::Pong),
            MessagePayload::SchemaSync(payload) => Ok(SyncEvent::SchemaSync(payload.schemas)),
            MessagePayload::Error { code, message: error_message } => {
                self.error_count = if self.error_count < u64::MAX {
                    self.error_count + 1
                } else {
                    u64::MAX
                };
                Ok(SyncEvent::Error { code, message: error_message })
            },
        }
    }

    /// Ask the peer for a full snapshot.
    pub fn request_snapshot(&mut self) -> (r: Result<(), LinkError>)
        ensures
            !old(self).spec_connected() ==> r is Err,
            final(self).spec_config() == old(self).spec_config(),
    {
        let now = now_micros();
        let sequence = self.take_sequence();
        let message = Message::request_snapshot(self.schema_version, now / 1000, sequence);
        match self.transport.send(&message) {
            Ok(_) => Ok(()),
            Err(e) => Err(e),
        }
    }

    /// Acknowledge a message by its correlation id.
    pub fn send_ack(&mut self, message_id: u64) -> (r: Result<(), LinkError>)
        ensures
            !old(self).spec_connected() ==> r is Err,
            final(self).spec_config() == old(self).spec_config(),
    {
        let now = now_micros();
        let sequence = self.take_sequence();
        let message = Message::ack(message_id, self.schema_version, now / 1000, sequence);
        match self.transport.send(&message) {
            Ok(_) => Ok(()),
            Err(e) => Err(e),
        }
    }

    /// Probe the peer.
    pub fn ping(&mut self) -> (r: Result<(), LinkError>)
        ensures
            !old(self).spec_connected() ==> r is Err,
            final(self).spec_config() == old(self).spec_config(),
    {
        let now = now_micros();
        let sequence = self.take_sequence();
        let message = Message::ping(self.schema_version, now / 1000, sequence);
        match self.transport.send(&message) {
            Ok(_) => Ok(()),
            Err(e) => Err(e),
        }
    }

    /// Is a tick due at instant `now`? Never in manual mode; otherwise when
    /// nothing was ever sent, or the interval has elapsed.
    pub fn should_sync_at(&self, now: u64) -> (r: bool)
        ensures
            r == (self.spec_config().mode != SyncMode::Manual && match self.spec_last_sync() {
                Some(last) => now >= last && now - last >= self.spec_config().sync_interval,
                None => true,
            }),
    {
        if self.config.mode == SyncMode::Manual {
            return false;
        }
        match self.last_sync {
            Some(last) => now >= last && now - last >= self.config.sync_interval,
            None => true,
        }
    }

    /// Is a tick due now?
    pub fn should_sync(&self) -> (r: bool)
        ensures
            self.spec_config().mode == SyncMode::Manual ==> !r,
            self.spec_last_sync() is None && self.spec_config().mode != SyncMode::Manual ==> r,
    {
        let now = now_micros();
        self.should_sync_at(now)
    }

    /// The session counters, including the rate limiter's when one runs.
    pub fn get_stats(&self) -> (s: SyncStats)
        ensures
            s.sync_count == self.spec_sync_count(),
            s.error_count == self.spec_error_count(),
            s.last_sync == self.spec_last_sync(),
            s.reconnect_attempts == self.spec_reconnect_attempts(),
            match self.spec_limiter() {
                Some(l) => s.rate_limiter_stats matches Some(st) && st.total_messages
                    == l.spec_total_messages() && st.total_bytes == l.spec_total_bytes()
                    && st.total_rejected == l.spec_total_rejected() && st.messages_in_window
                    == l.spec_history().len() as u32 && st.bytes_in_window == sum_sizes(
                    l.spec_byte_history(),
                ) as u64,
                None => s.rate_limiter_stats is None,
            },
    {
        let rate_limiter_stats = match &self.rate_limiter {
            Some(l) => Some(l.get_stats()),
            None => None,
        };
        SyncStats {
            sync_count: self.sync_count,
            error_count: self.error_count,
            last_sync: self.last_sync,
            rate_limiter_stats,
            reconnect_attempts: self.reconnect_attempts,
        }
    }

    pub fn get_schema_registry(&self) -> (r: &SchemaRegistry) {
        &self.schema_registry
    }

    pub fn get_schema_registry_mut(&mut self) -> (r: &mut SchemaRegistry)
        ensures
            final(self).spec_config() == old(self).spec_config(),
    {
        &mut self.schema_registry
    }

    pub fn set_schema_version(&mut self, version: SchemaVersion)
        ensures
            final(self).spec_schema_version() == version,
            final(self).spec_config() == old(self).spec_config(),
    {
        self.schema_version = version;
    }

    pub fn get_schema_version(&self) -> (v: SchemaVersion)
        ensures
            v == self.spec_schema_version(),
    {
        self.schema_version
    }

    /// Forget the compression base, so the next delta is a full initial one.
    pub fn reset_delta_compressor(&mut self)
        ensures
            final(self).spec_compressor_prev() is None,
            final(self).spec_config() == old(self).spec_config(),
    {
        self.delta_compressor.reset();
    }

    pub fn is_connected(&self) -> (r: bool)
        ensures
            r == self.spec_connected(),
    {
        self.transport.is_connected()
    }

    /// The underlying transport, for composition plumbing such as wiring
    /// two loopback endpoints together.
    pub fn get_transport(&self) -> (r: &T) {
        &self.transport
    }

    /// Mutable access to the underlying transport.
    pub fn get_transport_mut(&mut self) -> (r: &mut T)
        ensures
            final(self).spec_config() == old(self).spec_config(),
            final(self).spec_sync_count() == old(self).spec_sync_count(),
    {
        &mut self.transport
    }

    /// Close the underlying transport.
    pub fn close(&mut self) -> (r: Result<(), LinkError>)
        ensures
            !final(self).spec_connected(),
    {
        self.transport.close()
    }
}

} // verus!
