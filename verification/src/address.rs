use vstd::prelude::*;

verus! {

/// The address of a peer: an IP address and a UDP port, held as integers.
///
/// Two addresses are the same peer exactly when all their fields agree.
#[derive(Clone, Copy, Debug, PartialEq, Eq, Structural, Hash)]
pub enum Address {
    /// An IPv4 address, most significant octet first, and a port.
    V4 { ip: u32, port: u16 },
    /// An IPv6 address with its port, flow information and scope.
    V6 { ip6: u128, port: u16, flowinfo: u32, scope_id: u32 },
}

impl Address {
    /// The IPv4 address `a.b.c.d` with the given port.
    pub fn v4(a: u8, b: u8, c: u8, d: u8, port: u16) -> (r: Address)
        ensures
            r == (Address::V4 { ip: Self::spec_ipv4(a, b, c, d), port }),
    {
        let ip: u32 = (a as u32) * 16777216 + (b as u32) * 65536 + (c as u32) * 256 + (d as u32);
        Address::V4 { ip, port }
    }

    /// The number that stands for the IPv4 address `a.b.c.d`.
    pub open spec fn spec_ipv4(a: u8, b: u8, c: u8, d: u8) -> u32 {
        (a * 16777216 + b * 65536 + c * 256 + d) as u32
    }

    /// The loopback address `127.0.0.1` with the given port.
    pub fn loopback(port: u16) -> (r: Address)
        ensures
            r == (Address::V4 { ip: Self::spec_ipv4(127, 0, 0, 1), port }),
    {
        Address::v4(127, 0, 0, 1, port)
    }

    /// The port of this address.
    pub fn port(&self) -> (r: u16)
        ensures
            r == self.spec_port(),
    {
        match self {
            Address::V4 { port, .. } => *port,
            Address::V6 { port, .. } => *port,
        }
    }

    pub open spec fn spec_port(&self) -> u16 {
        match *self {
            Address::V4 { port, .. } => port,
            Address::V6 { port, .. } => port,
        }
    }
}

} // verus!
