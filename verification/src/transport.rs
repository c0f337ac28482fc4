//! The byte-free edge of the link: the transport abstraction the sync
//! manager drives, and an in-memory loopback used for tests and local
//! pipelines. Transports doing real I/O live outside the verified library
//! and implement the same trait.

use vstd::prelude::*;
use vstd::string::StringExecFns;

use crate::error::LinkError;
use crate::protocol::{Message, MessageV};
use crate::serialization::{BinaryFormat, BinarySerializer};

verus! {

/// A point-to-point, order-preserving message channel.
///
/// `send` must not silently drop a message, `receive` must not reorder, and
/// `close` is idempotent. Those duties bind every implementation; here only
/// the connection-state discipline is specified, and the loopback
/// implementation carries exact contracts of its own.
pub trait Transport: Sized {
    /// Whether the transport considers itself connected. Implementations
    /// outside the verified library leave the default, which promises
    /// nothing.
    open spec fn spec_connected(&self) -> bool {
        true
    }

    /// The messages this transport has accepted for delivery, oldest first.
    /// A verified implementation overrides this with its real send record;
    /// implementations outside the verified library leave the default, and
    /// then nothing is promised about what they carry.
    open spec fn spec_outbox(&self) -> Seq<MessageV> {
        Seq::empty()
    }

    /// A send must not silently drop: `Ok` records exactly this message at
    /// the end of the outbox, and a failed send records nothing.
    fn send(&mut self, message: &Message) -> (r: Result<(), LinkError>)
        ensures
            !old(self).spec_connected() ==> r is Err,
            r is Ok ==> final(self).spec_outbox() == old(self).spec_outbox().push(
                message.deep_view(),
            ),
            r is Err ==> final(self).spec_outbox() == old(self).spec_outbox(),
    ;

    /// Non-blocking: `Ok(None)` when nothing is currently available.
    /// Receiving sends nothing.
    fn receive(&mut self) -> (r: Result<Option<Message>, LinkError>)
        ensures
            !old(self).spec_connected() ==> r is Err,
            final(self).spec_outbox() == old(self).spec_outbox(),
    ;

    fn close(&mut self) -> (r: Result<(), LinkError>)
        ensures
            !final(self).spec_connected(),
    ;

    fn is_connected(&self) -> (r: bool)
        ensures
            r == self.spec_connected(),
    ;
}

/// In-memory loopback: messages pushed by `send` wait in an outgoing queue;
/// `connect_to` hands each side's outgoing queue to the other's incoming
/// one.
pub struct MemoryTransport {
    serializer: BinarySerializer,
    send_buffer: Vec<Message>,
    receive_buffer: Vec<Message>,
    connected: bool,
}

impl MemoryTransport {
    pub closed spec fn spec_outgoing(&self) -> Seq<MessageV> {
        self.send_buffer.deep_view()
    }

    pub closed spec fn spec_incoming(&self) -> Seq<MessageV> {
        self.receive_buffer.deep_view()
    }

    pub closed spec fn spec_is_connected(&self) -> bool {
        self.connected
    }

    pub fn new(format: BinaryFormat) -> (t: MemoryTransport)
        ensures
            t.spec_is_connected(),
            t.spec_outgoing() == Seq::<MessageV>::empty(),
            t.spec_incoming() == Seq::<MessageV>::empty(),
    {
        let t = MemoryTransport {
            serializer: BinarySerializer::new(format),
            send_buffer: Vec::new(),
            receive_buffer: Vec::new(),
            connected: true,
        };
        proof {
            assert(t.spec_outgoing() =~= Seq::<MessageV>::empty());
            assert(t.spec_incoming() =~= Seq::<MessageV>::empty());
        }
        t
    }

    /// A pair of fresh transports over the same format.
    pub fn create_pair(format: BinaryFormat) -> (r: (MemoryTransport, MemoryTransport))
        ensures
            r.0.spec_is_connected() && r.1.spec_is_connected(),
            r.0.spec_outgoing() == Seq::<MessageV>::empty(),
            r.0.spec_incoming() == Seq::<MessageV>::empty(),
            r.1.spec_outgoing() == Seq::<MessageV>::empty(),
            r.1.spec_incoming() == Seq::<MessageV>::empty(),
    {
        (MemoryTransport::new(format), MemoryTransport::new(format))
    }

    /// Exchange queues with the peer: what each side sent becomes what the
    /// other receives.
    pub fn connect_to(&mut self, other: &mut MemoryTransport)
        ensures
            final(self).spec_incoming() == old(other).spec_outgoing(),
            final(other).spec_incoming() == old(self).spec_outgoing(),
            final(self).spec_outgoing() == old(other).spec_incoming(),
            final(other).spec_outgoing() == old(self).spec_incoming(),
            final(self).spec_is_connected() == old(self).spec_is_connected(),
            final(other).spec_is_connected() == old(other).spec_is_connected(),
    {
        core::mem::swap(&mut self.send_buffer, &mut other.receive_buffer);
        core::mem::swap(&mut self.receive_buffer, &mut other.send_buffer);
    }

    /// The messages sent and not yet handed over.
    pub fn get_send_buffer(&self) -> (r: &Vec<Message>)
        ensures
            r.deep_view() == self.spec_outgoing(),
    {
        &self.send_buffer
    }

    /// The messages waiting to be received.
    pub fn get_receive_buffer(&self) -> (r: &Vec<Message>)
        ensures
            r.deep_view() == self.spec_incoming(),
    {
        &self.receive_buffer
    }
}

impl Transport for MemoryTransport {
    closed spec fn spec_connected(&self) -> bool {
        self.connected
    }

    closed spec fn spec_outbox(&self) -> Seq<MessageV> {
        self.send_buffer.deep_view()
    }

    /// Queue the message; fails only when closed.
    fn send(&mut self, message: &Message) -> (r: Result<(), LinkError>)
        ensures
            !old(self).spec_connected() ==> r is Err,
            old(self).spec_connected() ==> r is Ok && final(self).spec_outgoing()
                == old(self).spec_outgoing().push(message.deep_view())
                && final(self).spec_incoming() == old(self).spec_incoming()
                && final(self).spec_is_connected(),
            !old(self).spec_connected() ==> *final(self) == *old(self) && (r matches Err(e) && e
                is ConnectionClosed),
    {
        if !self.connected {
            return Err(LinkError::ConnectionClosed);
        }
        let cloned = message.clone();
        self.send_buffer.push(cloned);
        proof {
            assert(self.send_buffer.deep_view() =~= old(self).send_buffer.deep_view().push(
                message.deep_view(),
            ));
        }
        Ok(())
    }

    /// Take the oldest waiting message, if any; fails only when closed.
    fn receive(&mut self) -> (r: Result<Option<Message>, LinkError>)
        ensures
            !old(self).spec_connected() ==> r is Err,
            old(self).spec_connected() && old(self).spec_incoming().len() == 0 ==> (r matches Ok(
            m) && m is None) && *final(self) == *old(self),
            old(self).spec_connected() && old(self).spec_incoming().len() > 0 ==> (r matches Ok(
            m) && (m matches Some(msg) && msg.deep_view() == old(self).spec_incoming().first()))
                && final(self).spec_incoming() == old(self).spec_incoming().drop_first()
                && final(self).spec_outgoing() == old(self).spec_outgoing()
                && final(self).spec_is_connected(),
    {
        if !self.connected {
            return Err(LinkError::ConnectionClosed);
        }
        if self.receive_buffer.len() == 0 {
            return Ok(None);
        }
        let message = self.receive_buffer.remove(0);
        proof {
            assert(self.receive_buffer.deep_view()
                =~= old(self).receive_buffer.deep_view().drop_first());
        }
        Ok(Some(message))
    }

    /// Close and drop both queues; idempotent.
    fn close(&mut self) -> (r: Result<(), LinkError>)
        ensures
            !final(self).spec_connected(),
            r is Ok,
            final(self).spec_outgoing() == Seq::<MessageV>::empty(),
            final(self).spec_incoming() == Seq::<MessageV>::empty(),
    {
        self.connected = false;
        self.send_buffer.clear();
        self.receive_buffer.clear();
        proof {
            assert(self.send_buffer.deep_view() =~= Seq::<MessageV>::empty());
            assert(self.receive_buffer.deep_view() =~= Seq::<MessageV>::empty());
        }
        Ok(())
    }

    fn is_connected(&self) -> (r: bool)
        ensures
            r == self.spec_connected(),
    {
        self.connected
    }
}

/// Errors a transport implementation may classify its failures into.
#[derive(Debug, Clone, Copy, PartialEq, Eq, Structural)]
pub enum TransportError {
    NotConnected,
    SendFailed,
    ReceiveFailed,
    CloseFailed,
}

impl TransportError {
    /// A human-readable description.
    pub fn message(&self) -> (r: String)
        ensures
            r@ == match *self {
                TransportError::NotConnected => "Not connected"@,
                TransportError::SendFailed => "Send failed"@,
                TransportError::ReceiveFailed => "Receive failed"@,
                TransportError::CloseFailed => "Close failed"@,
            },
    {
        match self {
            TransportError::NotConnected => String::from_str("Not connected"),
            TransportError::SendFailed => String::from_str("Send failed"),
            TransportError::ReceiveFailed => String::from_str("Receive failed"),
            TransportError::CloseFailed => String::from_str("Close failed"),
        }
    }
}

} // verus!
