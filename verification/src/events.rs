use vstd::prelude::*;
use crate::address::Address;
use crate::packet::{Packet, PacketView};

verus! {

/// What a socket reports to the application.
#[derive(Clone, Debug, PartialEq, Eq)]
pub enum SocketEvent {
    /// A message from a peer, whole and in the order its stream asks for.
    Packet(Packet),
    /// A datagram arrived from a peer that the socket holds no connection to.
    Connect(Address),
    /// The connection to a peer was removed because the peer fell silent.
    Timeout(Address),
}

/// An event as a mathematical value.
pub enum SocketEventView {
    Packet(PacketView),
    Connect(Address),
    Timeout(Address),
}

impl View for SocketEvent {
    type V = SocketEventView;

    open spec fn view(&self) -> SocketEventView {
        match *self {
            SocketEvent::Packet(p) => SocketEventView::Packet(p@),
            SocketEvent::Connect(a) => SocketEventView::Connect(a),
            SocketEvent::Timeout(a) => SocketEventView::Timeout(a),
        }
    }
}

/// The views of a run of events, in order.
pub open spec fn event_views(events: Seq<SocketEvent>) -> Seq<SocketEventView> {
    events.map_values(|e: SocketEvent| e@)
}

} // verus!
