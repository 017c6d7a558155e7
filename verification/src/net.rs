use vstd::prelude::*;

verus! {

/// An IPv4 address as its 32-bit value, or an IPv6 address as two 64-bit
/// halves (high, low) in network byte order, as the wire carries them.
#[derive(Clone, Copy, PartialEq, Eq, Structural, Debug, Hash)]
pub enum IpValue {
    V4(u32),
    V6(u64, u64),
}

/// An IP address plus a 16-bit port: the key under which endpoints are cached.
#[derive(Clone, Copy, PartialEq, Eq, Structural, Debug, Hash)]
pub struct SocketAddress {
    pub ip: IpValue,
    pub port: u16,
}

impl SocketAddress {
    pub fn new_v4(octets: u32, port: u16) -> (r: SocketAddress)
        ensures
            r == (SocketAddress { ip: IpValue::V4(octets), port }),
    {
        SocketAddress { ip: IpValue::V4(octets), port }
    }

    pub fn new_v6(first: u64, last: u64, port: u16) -> (r: SocketAddress)
        ensures
            r == (SocketAddress { ip: IpValue::V6(first, last), port }),
    {
        SocketAddress { ip: IpValue::V6(first, last), port }
    }
}

} // verus!
