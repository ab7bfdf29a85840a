use vstd::prelude::*;
use crate::address::Address;

verus! {

/// Whether the sender repeats a packet until the peer has acknowledged it.
#[derive(Clone, Copy, Debug, PartialEq, Eq, Structural, Hash)]
pub enum DeliveryGuarantee {
    /// Sent once; it may be lost.
    Unreliable,
    /// Sent again until acknowledged.
    Reliable,
}

/// How the receiver hands packets on, relative to the order they were sent in.
///
/// A stream number tells independent streams to the same peer apart; `None`
/// is the default stream.
#[derive(Clone, Copy, Debug, PartialEq, Eq, Hash)]
pub enum OrderingGuarantee {
    /// In whatever order they arrive.
    Unordered,
    /// Only the newest: a packet older than one already handed on is dropped.
    Sequenced(Option<u8>),
    /// In the order sent, each exactly once; later packets wait for earlier ones.
    Ordered(Option<u8>),
}

/// The stream that stands in where a packet names none.
pub const DEFAULT_STREAM: u8 = 255;

impl OrderingGuarantee {
    /// The stream this guarantee arranges its packets on, if it arranges them.
    pub open spec fn spec_stream(self) -> Option<u8> {
        match self {
            OrderingGuarantee::Unordered => None,
            OrderingGuarantee::Sequenced(s) => Some(if let Some(n) = s { n } else { DEFAULT_STREAM }),
            OrderingGuarantee::Ordered(s) => Some(if let Some(n) = s { n } else { DEFAULT_STREAM }),
        }
    }

    pub fn stream(self) -> (r: Option<u8>)
        ensures
            r == self.spec_stream(),
    {
        match self {
            OrderingGuarantee::Unordered => None,
            OrderingGuarantee::Sequenced(s) => Some(if let Some(n) = s { n } else { DEFAULT_STREAM }),
            OrderingGuarantee::Ordered(s) => Some(if let Some(n) = s { n } else { DEFAULT_STREAM }),
        }
    }
}

/// A message of the application: to a peer when submitted, from a peer when
/// received.
#[derive(Clone, Debug, PartialEq, Eq)]
pub struct Packet {
    addr: Address,
    payload: Vec<u8>,
    delivery: DeliveryGuarantee,
    ordering: OrderingGuarantee,
}

/// A packet as a mathematical value.
pub struct PacketView {
    pub addr: Address,
    pub payload: Seq<u8>,
    pub delivery: DeliveryGuarantee,
    pub ordering: OrderingGuarantee,
}

impl View for Packet {
    type V = PacketView;

    closed spec fn view(&self) -> PacketView {
        PacketView {
            addr: self.addr,
            payload: self.payload@,
            delivery: self.delivery,
            ordering: self.ordering,
        }
    }
}

impl Packet {
    /// A packet with the given guarantees.
    pub fn new(
        addr: Address,
        payload: Vec<u8>,
        delivery: DeliveryGuarantee,
        ordering: OrderingGuarantee,
    ) -> (r: Packet)
        ensures
            r@ == (PacketView { addr, payload: payload@, delivery, ordering }),
    {
        Packet { addr, payload, delivery, ordering }
    }

    /// A packet that may be lost, duplicated or arrive out of order.
    pub fn unreliable(addr: Address, payload: Vec<u8>) -> (r: Packet)
        ensures
            r@ == (PacketView {
                addr,
                payload: payload@,
                delivery: DeliveryGuarantee::Unreliable,
                ordering: OrderingGuarantee::Unordered,
            }),
    {
        Packet {
            addr,
            payload,
            delivery: DeliveryGuarantee::Unreliable,
            ordering: OrderingGuarantee::Unordered,
        }
    }

    /// A packet that may be lost; of those that arrive only the newest is
    /// handed on.
    pub fn unreliable_sequenced(addr: Address, payload: Vec<u8>, stream_id: Option<u8>) -> (r:
        Packet)
        ensures
            r@ == (PacketView {
                addr,
                payload: payload@,
                delivery: DeliveryGuarantee::Unreliable,
                ordering: OrderingGuarantee::Sequenced(stream_id),
            }),
    {
        Packet {
            addr,
            payload,
            delivery: DeliveryGuarantee::Unreliable,
            ordering: OrderingGuarantee::Sequenced(stream_id),
        }
    }

    /// A packet that is repeated until acknowledged and handed on as it arrives.
    pub fn reliable_unordered(addr: Address, payload: Vec<u8>) -> (r: Packet)
        ensures
            r@ == (PacketView {
                addr,
                payload: payload@,
                delivery: DeliveryGuarantee::Reliable,
                ordering: OrderingGuarantee::Unordered,
            }),
    {
        Packet {
            addr,
            payload,
            delivery: DeliveryGuarantee::Reliable,
            ordering: OrderingGuarantee::Unordered,
        }
    }

    /// A packet that is repeated until acknowledged and handed on in the
    /// order sent.
    pub fn reliable_ordered(addr: Address, payload: Vec<u8>, stream_id: Option<u8>) -> (r: Packet)
        ensures
            r@ == (PacketView {
                addr,
                payload: payload@,
                delivery: DeliveryGuarantee::Reliable,
                ordering: OrderingGuarantee::Ordered(stream_id),
            }),
    {
        Packet {
            addr,
            payload,
            delivery: DeliveryGuarantee::Reliable,
            ordering: OrderingGuarantee::Ordered(stream_id),
        }
    }

    /// A packet that is repeated until acknowledged and handed on only if it
    /// is newer than every packet handed on before it.
    pub fn reliable_sequenced(addr: Address, payload: Vec<u8>, stream_id: Option<u8>) -> (r:
        Packet)
        ensures
            r@ == (PacketView {
                addr,
                payload: payload@,
                delivery: DeliveryGuarantee::Reliable,
                ordering: OrderingGuarantee::Sequenced(stream_id),
            }),
    {
        Packet {
            addr,
            payload,
            delivery: DeliveryGuarantee::Reliable,
            ordering: OrderingGuarantee::Sequenced(stream_id),
        }
    }

    /// The peer this packet goes to or came from.
    pub fn addr(&self) -> (r: Address)
        ensures
            r == self@.addr,
    {
        self.addr
    }

    /// The bytes of the message.
    pub fn payload(&self) -> (r: &[u8])
        ensures
            r@ == self@.payload,
    {
        self.payload.as_slice()
    }

    pub fn delivery_guarantee(&self) -> (r: DeliveryGuarantee)
        ensures
            r == self@.delivery,
    {
        self.delivery
    }

    pub fn order_guarantee(&self) -> (r: OrderingGuarantee)
        ensures
            r == self@.ordering,
    {
        self.ordering
    }

    /// Takes the packet apart.
    pub fn into_parts(self) -> (r: (Address, Vec<u8>, DeliveryGuarantee, OrderingGuarantee))
        ensures
            r.0 == self@.addr,
            r.1@ == self@.payload,
            r.2 == self@.delivery,
            r.3 == self@.ordering,
    {
        (self.addr, self.payload, self.delivery, self.ordering)
    }
}

} // verus!
