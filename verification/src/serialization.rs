//! Snapshot and delta values, and the codec configuration used to put them
//! on the wire.
//!
//! The byte-level work splits in two: this library's own fixed-schema binary
//! codec and the stream framing are verified (see the codec module); the
//! interchangeable general-purpose codecs (JSON, MessagePack, bincode) run
//! through outside serializers and live with the unverified shell around the
//! library, configured by the same `BinaryFormat` value.

use vstd::prelude::*;

use crate::codec::{parse_u32, push_all, ser_u32};
use crate::protocol::{DeltaChange, DeltaChangeV, SerializedEntity, SerializedEntityV};

verus! {

/// A complete world state at one point in time.
#[derive(Debug, PartialEq)]
pub struct WorldSnapshot {
    pub entities: Vec<SerializedEntity>,
    /// Milliseconds since an arbitrary epoch, monotonic per producer.
    pub timestamp: u64,
    /// Producer-defined world schema tag.
    pub version: String,
}

pub struct WorldSnapshotV {
    pub entities: Seq<SerializedEntityV>,
    pub timestamp: u64,
    pub version: Seq<char>,
}

impl DeepView for WorldSnapshot {
    type V = WorldSnapshotV;

    open spec fn deep_view(&self) -> WorldSnapshotV {
        WorldSnapshotV {
            entities: self.entities.deep_view(),
            timestamp: self.timestamp,
            version: self.version@,
        }
    }
}

impl Clone for WorldSnapshot {
    /// A clone preserves the structural content exactly.
    fn clone(&self) -> (res: Self)
        ensures
            res.deep_view() == self.deep_view(),
    {
        let mut entities: Vec<SerializedEntity> = Vec::new();
        let mut i: usize = 0;
        while i < self.entities.len()
            invariant
                0 <= i <= self.entities@.len(),
                entities@.len() == i,
                forall|j: int|
                    0 <= j < i ==> #[trigger] entities@[j].deep_view()
                        == self.entities@[j].deep_view(),
            decreases self.entities@.len() - i,
        {
            entities.push(self.entities[i].clone());
            i = i + 1;
        }
        proof {
            assert(entities.deep_view() =~= self.entities.deep_view());
        }
        WorldSnapshot { entities, timestamp: self.timestamp, version: self.version.clone() }
    }
}

/// The minimal difference between two snapshots.
#[derive(Debug, Clone, PartialEq)]
pub struct Delta {
    pub changes: Vec<DeltaChange>,
    /// Milliseconds timestamp of the snapshot the delta leads to.
    pub timestamp: u64,
    /// Milliseconds timestamp of the snapshot the delta starts from; zero
    /// for the first delta of a session.
    pub base_timestamp: u64,
}

pub struct DeltaV {
    pub changes: Seq<DeltaChangeV>,
    pub timestamp: u64,
    pub base_timestamp: u64,
}

impl DeepView for Delta {
    type V = DeltaV;

    open spec fn deep_view(&self) -> DeltaV {
        DeltaV {
            changes: self.changes.deep_view(),
            timestamp: self.timestamp,
            base_timestamp: self.base_timestamp,
        }
    }
}

/// Which byte codec a link runs over. All formats carry the same structural
/// content; the fixed-schema binary one is implemented and verified here,
/// the other two are provided by the unverified shell.
#[derive(Debug, Clone, Copy, PartialEq, Eq, Structural)]
pub enum BinaryFormat {
    Json,
    MessagePack,
    Bincode,
}

/// Codec configuration handle: remembers the chosen format.
#[derive(Debug, Clone, Copy, PartialEq, Eq, Structural)]
pub struct BinarySerializer {
    format: BinaryFormat,
}

impl BinarySerializer {
    pub closed spec fn spec_format(&self) -> BinaryFormat {
        self.format
    }

    pub fn new(format: BinaryFormat) -> (s: BinarySerializer)
        ensures
            s.spec_format() == format,
    {
        BinarySerializer { format }
    }

    pub fn json() -> (s: BinarySerializer)
        ensures
            s.spec_format() == BinaryFormat::Json,
    {
        BinarySerializer::new(BinaryFormat::Json)
    }

    pub fn messagepack() -> (s: BinarySerializer)
        ensures
            s.spec_format() == BinaryFormat::MessagePack,
    {
        BinarySerializer::new(BinaryFormat::MessagePack)
    }

    pub fn bincode() -> (s: BinarySerializer)
        ensures
            s.spec_format() == BinaryFormat::Bincode,
    {
        BinarySerializer::new(BinaryFormat::Bincode)
    }

    pub fn get_format(&self) -> (f: BinaryFormat)
        ensures
            f == self.spec_format(),
    {
        self.format
    }
}


/// Frames encoded messages for a byte-stream transport: each frame is a
/// 32-bit little-endian length followed by that many payload bytes.
pub struct StreamingSerializer {
    format: BinaryFormat,
    buffer: Vec<u8>,
}

impl StreamingSerializer {
    pub closed spec fn spec_format(&self) -> BinaryFormat {
        self.format
    }

    pub closed spec fn spec_buffer(&self) -> Seq<u8> {
        self.buffer@
    }

    pub fn new(format: BinaryFormat) -> (s: StreamingSerializer)
        ensures
            s.spec_format() == format,
            s.spec_buffer() == Seq::<u8>::empty(),
    {
        let s = StreamingSerializer { format, buffer: Vec::new() };
        proof {
            assert(s.spec_buffer() =~= Seq::<u8>::empty());
        }
        s
    }

    /// Append one frame: the payload's length, then the payload.
    pub fn write_frame(&mut self, data: &Vec<u8>) -> (r: Result<(), crate::error::LinkError>)
        ensures
            data@.len() <= u32::MAX ==> r is Ok && final(self).spec_buffer() == old(
                self,
            ).spec_buffer() + ser_u32(data@.len() as u32) + data@,
            data@.len() > u32::MAX ==> r is Err && final(self).spec_buffer() == old(
                self,
            ).spec_buffer(),
            final(self).spec_format() == old(self).spec_format(),
    {
        if data.len() > (u32::MAX as usize) {
            return Err(crate::error::LinkError::Serialization(String::from_str("frame too large")));
        }
        let len_bytes = vstd::bytes::u32_to_le_bytes(data.len() as u32);
        push_all(&mut self.buffer, &len_bytes);
        push_all(&mut self.buffer, data);
        Ok(())
    }

    /// Hand over everything framed so far and start empty.
    pub fn flush(&mut self) -> (r: Vec<u8>)
        ensures
            r@ == old(self).spec_buffer(),
            final(self).spec_buffer() == Seq::<u8>::empty(),
            final(self).spec_format() == old(self).spec_format(),
    {
        let mut out: Vec<u8> = Vec::new();
        core::mem::swap(&mut out, &mut self.buffer);
        proof {
            assert(self.spec_buffer() =~= Seq::<u8>::empty());
        }
        out
    }

    pub fn clear(&mut self)
        ensures
            final(self).spec_buffer() == Seq::<u8>::empty(),
            final(self).spec_format() == old(self).spec_format(),
    {
        self.buffer.clear();
        proof {
            assert(self.spec_buffer() =~= Seq::<u8>::empty());
        }
    }
}

/// Reassembles length-prefixed frames from a byte stream fed in arbitrary
/// pieces.
pub struct StreamingDeserializer {
    format: BinaryFormat,
    buffer: Vec<u8>,
}

impl StreamingDeserializer {
    pub closed spec fn spec_format(&self) -> BinaryFormat {
        self.format
    }

    pub closed spec fn spec_buffer(&self) -> Seq<u8> {
        self.buffer@
    }

    pub fn new(format: BinaryFormat) -> (s: StreamingDeserializer)
        ensures
            s.spec_format() == format,
            s.spec_buffer() == Seq::<u8>::empty(),
    {
        let s = StreamingDeserializer { format, buffer: Vec::new() };
        proof {
            assert(s.spec_buffer() =~= Seq::<u8>::empty());
        }
        s
    }

    /// Append newly arrived bytes.
    pub fn feed(&mut self, data: &Vec<u8>)
        ensures
            final(self).spec_buffer() == old(self).spec_buffer() + data@,
            final(self).spec_format() == old(self).spec_format(),
    {
        push_all(&mut self.buffer, data);
    }

    /// Detach the next complete frame's payload, if one has fully arrived.
    pub fn try_read_frame(&mut self) -> (r: Option<Vec<u8>>)
        ensures
            final(self).spec_format() == old(self).spec_format(),
            match r {
                Some(d) => parse_u32(old(self).spec_buffer(), 0) matches Some((len, p)) && d@
                    == old(self).spec_buffer().subrange(4, 4 + len) && 4 + len <= old(
                    self,
                ).spec_buffer().len() && final(self).spec_buffer() == old(
                    self,
                ).spec_buffer().skip(4 + len),
                None => *final(self) == *old(self) && (old(self).spec_buffer().len() < 4 || (
                parse_u32(old(self).spec_buffer(), 0) matches Some((len, p)) && 4 + len > old(
                    self,
                ).spec_buffer().len())),
            },
    {
        let n = self.buffer.len();
        if n < 4 {
            return None;
        }
        let len_slice = vstd::slice::slice_subrange(self.buffer.as_slice(), 0, 4);
        let len = vstd::bytes::u32_from_le_bytes(len_slice);
        let len_us = len as usize;
        if len_us > n - 4 {
            return None;
        }
        let payload_slice = vstd::slice::slice_subrange(self.buffer.as_slice(), 4, 4 + len_us);
        let payload = vstd::slice::slice_to_vec(payload_slice);
        let rest_slice = vstd::slice::slice_subrange(self.buffer.as_slice(), 4 + len_us, n);
        let rest = vstd::slice::slice_to_vec(rest_slice);
        self.buffer = rest;
        proof {
            assert(payload@ =~= old(self).spec_buffer().subrange(4, 4 + len as int));
            assert(self.spec_buffer() =~= old(self).spec_buffer().skip(4 + len as int));
        }
        Some(payload)
    }

    pub fn clear(&mut self)
        ensures
            final(self).spec_buffer() == Seq::<u8>::empty(),
            final(self).spec_format() == old(self).spec_format(),
    {
        self.buffer.clear();
        proof {
            assert(self.spec_buffer() =~= Seq::<u8>::empty());
        }
    }
}

} // verus!

