//! Network addresses as the discovery logic sees them: plain values that the
//! unverified transport layer converts to and from the operating system's
//! address types.

use vstd::prelude::*;

verus! {

/// An IP address, IPv4 as its 32 address bits and IPv6 as its 128 address
/// bits, in big-endian integer form.
#[derive(Clone, Copy, PartialEq, Eq, Structural, Hash, Debug)]
pub enum IpAddress {
    V4(u32),
    V6(u128),
}

/// A source socket address: the unit that the beacon's rate limiter serves.
#[derive(Clone, Copy, PartialEq, Eq, Structural, Hash, Debug)]
pub struct SocketAddress {
    pub ip: IpAddress,
    pub port: u16,
}

} // verus!
