//! Network prefixes as plain values: an IP address together with a prefix
//! length, IPv4 or IPv6. Two prefixes differing only in length are distinct.

use vstd::prelude::*;

verus! {

/// An IPv4 network prefix: a 32-bit address (numeric, most significant octet
/// first) and a prefix length of at most 32 bits.
#[derive(Clone, Copy, Debug, Hash, PartialEq, Eq, Structural)]
pub struct Ipv4Net {
    /// The address, as the number its four octets spell in big-endian order.
    pub addr: u32,
    /// The number of leading bits that form the network part.
    pub prefix_len: u8,
}

/// An IPv6 network prefix: a 128-bit address (numeric, most significant octet
/// first) and a prefix length of at most 128 bits.
#[derive(Clone, Copy, Debug, Hash, PartialEq, Eq, Structural)]
pub struct Ipv6Net {
    /// The address, as the number its sixteen octets spell in big-endian order.
    pub addr: u128,
    /// The number of leading bits that form the network part.
    pub prefix_len: u8,
}

/// A network prefix of either family, the atomic unit of an address-change
/// event. Compared by exact (address, length) equality.
#[derive(Clone, Copy, Debug, Hash, PartialEq, Eq, Structural)]
pub enum IpNet {
    /// An IPv4 prefix.
    V4(Ipv4Net),
    /// An IPv6 prefix.
    V6(Ipv6Net),
}

impl Ipv4Net {
    /// Builds an IPv4 prefix from an address and a prefix length.
    pub fn new(addr: u32, prefix_len: u8) -> (r: Ipv4Net)
        requires
            prefix_len <= 32,
        ensures
            r.addr == addr,
            r.prefix_len == prefix_len,
    {
        Ipv4Net { addr, prefix_len }
    }

    /// Builds an IPv4 prefix from the four address octets, most significant
    /// first, and a prefix length.
    pub fn from_octets(a: u8, b: u8, c: u8, d: u8, prefix_len: u8) -> (r: Ipv4Net)
        requires
            prefix_len <= 32,
        ensures
            r.addr == (a as u32) * 0x1000000 + (b as u32) * 0x10000 + (c as u32) * 0x100
                + (d as u32),
            r.prefix_len == prefix_len,
    {
        let addr: u32 = (a as u32) * 0x1000000 + (b as u32) * 0x10000 + (c as u32) * 0x100
            + (d as u32);
        Ipv4Net { addr, prefix_len }
    }
}

impl Ipv6Net {
    /// Builds an IPv6 prefix from an address and a prefix length.
    pub fn new(addr: u128, prefix_len: u8) -> (r: Ipv6Net)
        requires
            prefix_len <= 128,
        ensures
            r.addr == addr,
            r.prefix_len == prefix_len,
    {
        Ipv6Net { addr, prefix_len }
    }
}

impl IpNet {
    /// Whether the prefix length fits its address family.
    pub open spec fn wf(self) -> bool {
        match self {
            IpNet::V4(n) => n.prefix_len <= 32,
            IpNet::V6(n) => n.prefix_len <= 128,
        }
    }

    /// Builds an IPv4 prefix of either-family type.
    pub fn v4(addr: u32, prefix_len: u8) -> (r: IpNet)
        requires
            prefix_len <= 32,
        ensures
            r == IpNet::V4(Ipv4Net { addr, prefix_len }),
            r.wf(),
    {
        IpNet::V4(Ipv4Net::new(addr, prefix_len))
    }

    /// Builds an IPv6 prefix of either-family type.
    pub fn v6(addr: u128, prefix_len: u8) -> (r: IpNet)
        requires
            prefix_len <= 128,
        ensures
            r == IpNet::V6(Ipv6Net { addr, prefix_len }),
            r.wf(),
    {
        IpNet::V6(Ipv6Net::new(addr, prefix_len))
    }
}

} // verus!
