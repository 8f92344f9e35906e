//! Internet addresses as integers.

use vstd::prelude::*;

verus! {

/// An address of either family, as the integer its octets make.
#[derive(Clone, Copy, Debug, PartialEq, Eq, Structural)]
pub enum Ip {
    /// An IPv4 address.
    V4(u32),
    /// An IPv6 address.
    V6(u128),
}

impl Ip {
    /// Whether the address is the unspecified one of its family.
    pub fn is_unspecified(&self) -> (r: bool)
        ensures
            r == (*self == Ip::V4(0) || *self == Ip::V6(0)),
    {
        match self {
            Ip::V4(a) => *a == 0,
            Ip::V6(a) => *a == 0,
        }
    }

    /// Whether the address is an IPv4 one.
    pub fn is_ipv4(&self) -> (r: bool)
        ensures
            r == (*self is V4),
    {
        match self {
            Ip::V4(_) => true,
            Ip::V6(_) => false,
        }
    }

    /// Whether the address is an IPv6 one.
    pub fn is_ipv6(&self) -> (r: bool)
        ensures
            r == (*self is V6),
    {
        !self.is_ipv4()
    }

    /// The address as it is judged: an IPv4 address carried in IPv6 is the
    /// IPv4 address it is.
    pub fn to_canonical(&self) -> (r: Ip)
        ensures
            r == canonical(*self),
    {
        match *self {
            Ip::V4(a) => Ip::V4(a),
            Ip::V6(a) => if a / 0x1_0000_0000 == 0xffff {
                Ip::V4((a % 0x1_0000_0000) as u32)
            } else {
                Ip::V6(a)
            },
        }
    }
}

/// The address as it is judged: an IPv4 address carried in IPv6 is the IPv4
/// address it is.
pub open spec fn canonical(ip: Ip) -> Ip {
    match ip {
        Ip::V4(a) => ip,
        Ip::V6(a) => if a / 0x1_0000_0000 == 0xffff {
            Ip::V4((a % 0x1_0000_0000) as u32)
        } else {
            ip
        },
    }
}

} // verus!
