//! Who a query comes from.

use vstd::prelude::*;

use crate::ip::{canonical, Ip};

pub mod history;
pub mod persistent;
pub mod runtime;

verus! {

/// Whether an address is inside a subnet: of the same family, and with the
/// same first `bits` bits. A length past the family's is no subnet.
pub open spec fn inside(addr: Ip, net: Ip, bits: u8) -> bool {
    match (addr, net) {
        (Ip::V4(a), Ip::V4(n)) => bits <= 32 && (bits == 0 || a >> ((32 - bits) as u32) == n >> ((32 - bits) as u32)),
        (Ip::V6(a), Ip::V6(n)) => bits <= 128 && (bits == 0 || a >> ((128 - bits) as u128) == n >> ((128
            - bits) as u128)),
        _ => false,
    }
}

/// Reports whether an address is inside a subnet.
pub fn in_subnet(addr: Ip, net: Ip, bits: u8) -> (r: bool)
    ensures
        r == inside(addr, net, bits),
{
    match (addr, net) {
        (Ip::V4(a), Ip::V4(n)) => {
            if bits > 32 {
                return false;
            }
            if bits == 0 {
                return true;
            }
            let d: u32 = 32 - bits as u32;
            (a >> d) == (n >> d)
        },
        (Ip::V6(a), Ip::V6(n)) => {
            if bits > 128 {
                return false;
            }
            if bits == 0 {
                return true;
            }
            let d: u128 = 128 - bits as u128;
            (a >> d) == (n >> d)
        },
        _ => false,
    }
}

/// Whether an address is inside one of `nets`.
pub open spec fn inside_any(addr: Ip, nets: Seq<(Ip, u8)>) -> bool {
    exists|i: int| 0 <= i < nets.len() && inside(addr, (#[trigger] nets[i]).0, nets[i].1)
}

/// Reports whether an address is inside one of `nets`.
pub fn in_any(addr: Ip, nets: &Vec<(Ip, u8)>) -> (r: bool)
    ensures
        r == inside_any(addr, nets@),
{
    let mut i: usize = 0;
    while i < nets.len()
        invariant
            i <= nets@.len(),
            forall|k: int| 0 <= k < i ==> !inside(addr, (#[trigger] nets@[k]).0, nets@[k].1),
        decreases nets@.len() - i,
    {
        if in_subnet(addr, nets[i].0, nets[i].1) {
            assert(inside(addr, nets@[i as int].0, nets@[i as int].1));
            return true;
        }
        i = i + 1;
    }
    false
}

/// The networks an address is local in: the private IPv4 ranges, link-local,
/// loopback and the shared space of carrier-grade NATs, and their IPv6
/// counterparts.
pub open spec fn local_nets() -> Seq<(Ip, u8)> {
    seq![
        (Ip::V4(0x0a00_0000), 8u8),
        (Ip::V4(0xac10_0000), 12u8),
        (Ip::V4(0xc0a8_0000), 16u8),
        (Ip::V4(0xa9fe_0000), 16u8),
        (Ip::V4(0x7f00_0000), 8u8),
        (Ip::V4(0x6440_0000), 10u8),
        (Ip::V6(0xfd00_0000_0000_0000_0000_0000_0000_0000), 8u8),
        (Ip::V6(0xfe80_0000_0000_0000_0000_0000_0000_0000), 10u8),
        (Ip::V6(1), 128u8),
    ]
}

/// The networks an address is local in.
pub fn local_networks() -> (r: Vec<(Ip, u8)>)
    ensures
        r@ == local_nets(),
{
    let r: Vec<(Ip, u8)> = vec![
        (Ip::V4(0x0a00_0000), 8u8),
        (Ip::V4(0xac10_0000), 12u8),
        (Ip::V4(0xc0a8_0000), 16u8),
        (Ip::V4(0xa9fe_0000), 16u8),
        (Ip::V4(0x7f00_0000), 8u8),
        (Ip::V4(0x6440_0000), 10u8),
        (Ip::V6(0xfd00_0000_0000_0000_0000_0000_0000_0000), 8u8),
        (Ip::V6(0xfe80_0000_0000_0000_0000_0000_0000_0000), 10u8),
        (Ip::V6(1), 128u8),
    ];
    assert(r@ =~= local_nets());
    r
}

/// Reports whether an address is on a local network.
///
/// An IPv4 address carried in IPv6 is judged as the IPv4 address it is.
pub fn is_local(addr: Ip) -> (r: bool)
    ensures
        r == inside_any(canonical(addr), local_nets()),
{
    in_any(addr.to_canonical(), &local_networks())
}

} // verus!
