//! A reliability, ordering and fragmentation layer over unreliable datagrams.
//!
//! The crate is the engine of a connection-oriented facade over a
//! connectionless transport. It owns the table of active connections, turns
//! submitted packets into wire datagrams, turns received datagrams into
//! events, and evicts peers that fell silent. The datagram endpoint itself is
//! the caller's: the engine takes the datagrams that were received and hands
//! back the datagrams to transmit.

pub mod address;
pub mod config;
pub mod error;
pub mod packet;
pub mod events;
pub mod wire;
pub mod acknowledgment;
pub mod arranging;
pub mod fragmentation;
pub mod connection;
pub mod active_connections;
pub mod link_conditioner;
pub mod channel;
pub mod socket;

pub use active_connections::ActiveConnections;
pub use address::Address;
pub use config::Config;
pub use connection::{Connection, Outgoing};
pub use error::ErrorKind;
pub use events::SocketEvent;
pub use link_conditioner::LinkConditioner;
pub use packet::{DeliveryGuarantee, OrderingGuarantee, Packet};
pub use socket::{Datagram, PollOutcome, Socket, TickOutcome, Transmission};
