use vstd::prelude::*;
use crate::events::SocketEvent;

verus! {

/// Why an operation of the crate failed.
#[derive(Clone, Debug, PartialEq, Eq)]
pub enum ErrorKind {
    /// A datagram of no bytes was received.
    ReceivedDataToShort,
    /// A datagram ended before its headers did.
    CouldNotReadHeader,
    /// A datagram was written by another version of the protocol.
    ProtocolVersionMismatch,
    /// A header holds a value that no sender writes.
    MalformedHeader,
    /// The fragments of one payload disagree with each other.
    FragmentMismatch,
    /// An unreliable payload does not fit into a single datagram.
    ExceededMaxPacketSize,
    /// A reliable payload would need more fragments than are allowed.
    ExceededMaxFragments,
    /// Ordered delivery was asked for without reliable delivery.
    UnsupportedGuarantee,
    /// A stream has handed out every number it can give to a packet.
    StreamExhausted,
    /// A channel of the socket is closed; the event could not be passed on.
    SendError(SocketEvent),
}

} // verus!
