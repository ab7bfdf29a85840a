use vstd::prelude::*;

verus! {

/// What a socket and its connections are configured with.
///
/// Times are counted in ticks of the caller's monotonic clock; the crate
/// only compares and subtracts them.
#[derive(Clone, Copy, Debug, PartialEq, Eq, Structural)]
pub struct Config {
    /// After how many ticks of silence a peer is evicted.
    pub idle_connection_timeout: u64,
    /// The capacity in bytes of the buffer a datagram is received into. A
    /// datagram that is sent unfragmented must fit into it.
    pub receive_buffer_max_size: usize,
    /// The largest payload in bytes that one fragment carries. A reliable
    /// payload above it is split.
    pub fragment_size: u16,
    /// The largest number of fragments one payload may be split into.
    pub max_fragments: u8,
    /// How many partly received fragmented payloads a connection keeps.
    pub fragment_reassembly_buffer_size: u16,
}

/// Five seconds, in nanoseconds.
pub const DEFAULT_IDLE_CONNECTION_TIMEOUT: u64 = 5_000_000_000;

/// The payload of an Ethernet frame less the IP and UDP headers.
pub const DEFAULT_RECEIVE_BUFFER_MAX_SIZE: usize = 1452;

pub const DEFAULT_FRAGMENT_SIZE: u16 = 1024;

pub const DEFAULT_MAX_FRAGMENTS: u8 = 16;

pub const DEFAULT_FRAGMENT_REASSEMBLY_BUFFER_SIZE: u16 = 64;

impl Config {
    /// The configuration a socket gets when none is given.
    pub open spec fn spec_default() -> Config {
        Config {
            idle_connection_timeout: DEFAULT_IDLE_CONNECTION_TIMEOUT,
            receive_buffer_max_size: DEFAULT_RECEIVE_BUFFER_MAX_SIZE,
            fragment_size: DEFAULT_FRAGMENT_SIZE,
            max_fragments: DEFAULT_MAX_FRAGMENTS,
            fragment_reassembly_buffer_size: DEFAULT_FRAGMENT_REASSEMBLY_BUFFER_SIZE,
        }
    }
}

impl Default for Config {
    fn default() -> (r: Config)
        ensures
            r == Config::spec_default(),
    {
        Config {
            idle_connection_timeout: DEFAULT_IDLE_CONNECTION_TIMEOUT,
            receive_buffer_max_size: DEFAULT_RECEIVE_BUFFER_MAX_SIZE,
            fragment_size: DEFAULT_FRAGMENT_SIZE,
            max_fragments: DEFAULT_MAX_FRAGMENTS,
            fragment_reassembly_buffer_size: DEFAULT_FRAGMENT_REASSEMBLY_BUFFER_SIZE,
        }
    }
}

} // verus!
