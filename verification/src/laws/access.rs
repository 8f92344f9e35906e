//! Who is let in, in terms of what the two access lists say.

use vstd::arithmetic::power2::pow2;
use vstd::prelude::*;

use crate::clients::{inside, inside_any, local_nets};
use crate::ip::{canonical, Ip};
use crate::laws::text::law_first_place;
use crate::server::access::{
    client_id, decimal, digits, entry_of, law_one_notion_of_network, permitted, small_number, sorted_into, within, EntryV,
    ListV,
};
use crate::text::first_at;

verus! {

/// Whether two addresses are of one family and begin with the same `bits`
/// bits: they fall into the same block of addresses of that size.
pub open spec fn one_block(a: Ip, b: Ip, bits: u8) -> bool {
    match (a, b) {
        (Ip::V4(x), Ip::V4(y)) => bits <= 32 && x as int / pow2((32 - bits) as nat) as int == y as int / pow2(
            (32 - bits) as nat,
        ) as int,
        (Ip::V6(x), Ip::V6(y)) => bits <= 128 && x as int / pow2((128 - bits) as nat) as int == y as int / pow2(
            (128 - bits) as nat,
        ) as int,
        _ => false,
    }
}

/// The width of an address's family, in bits.
pub open spec fn width(a: Ip) -> int {
    if a is V4 {
        32
    } else {
        128
    }
}

proof fn lemma_none_of_it(x: int, d: int)
    requires
        0 <= x < d,
    ensures
        x / d == 0,
{
    vstd::arithmetic::div_mod::lemma_basic_div(x, d);
}

/// A subnet is the block of addresses that begin as its own does. No bits at
/// all make the whole family, all of them the one address, and more than the
/// family has make nothing.
pub proof fn law_subnet_is_a_block(addr: Ip, net: Ip, bits: u8)
    ensures
        inside(addr, net, bits) == one_block(addr, net, bits),
        bits <= width(net) ==> within(addr, net, bits) == one_block(addr, net, bits),
        bits == 0 ==> inside(addr, net, bits) == (addr is V4 == net is V4),
        bits == width(net) ==> inside(addr, net, bits) == (addr == net),
        bits > width(net) ==> !inside(addr, net, bits),
{
    if bits <= width(net) {
        law_one_notion_of_network(addr, net, bits);
    }
    match (addr, net) {
        (Ip::V4(a), Ip::V4(n)) => {
            if 0 < bits <= 32 {
                let d = (32 - bits) as u32;
                vstd::bits::lemma_u32_shr_is_div(a, d);
                vstd::bits::lemma_u32_shr_is_div(n, d);
            }
            vstd::arithmetic::power2::lemma2_to64();
            vstd::arithmetic::power2::lemma2_to64_rest();
            if bits == 0 {
                lemma_none_of_it(a as int, pow2(32) as int);
                lemma_none_of_it(n as int, pow2(32) as int);
            }
        },
        (Ip::V6(a), Ip::V6(n)) => {
            if 0 < bits <= 128 {
                let d = (128 - bits) as u128;
                vstd::bits::lemma_u128_shr_is_div(a, d);
                vstd::bits::lemma_u128_shr_is_div(n, d);
            }
            vstd::arithmetic::power2::lemma2_to64();
            vstd::arithmetic::power2::lemma2_to64_rest();
            vstd::arithmetic::power2::lemma_pow2_adds(64, 64);
            assert(pow2(128) == 0x1_0000_0000_0000_0000 * 0x1_0000_0000_0000_0000);
            if bits == 0 {
                lemma_none_of_it(a as int, pow2(128) as int);
                lemma_none_of_it(n as int, pow2(128) as int);
            }
        },
        _ => {},
    }
}

/// Whether an access list names an address, by itself or by a network.
pub open spec fn names_address(l: ListV, ip: Ip) -> bool {
    ||| exists|i: int| 0 <= i < l.ips.len() && #[trigger] l.ips[i] == ip
    ||| exists|i: int| 0 <= i < l.nets.len() && within(ip, (#[trigger] l.nets[i]).0, l.nets[i].1)
}

/// Whether an access list names a ClientID.
pub open spec fn names_client(l: ListV, id: Seq<char>) -> bool {
    exists|i: int| 0 <= i < l.ids.len() && #[trigger] l.ids[i] == id
}

/// With no allowed clients listed, a request from an address that the
/// disallowed list names, by itself or by a network, is refused whatever
/// ClientID it carries or none; a request that carries a disallowed ClientID
/// is refused whatever address it comes from; and every other is let in.
pub proof fn law_blocklist(allowed: ListV, disallowed: ListV, ip: Ip, id: Seq<char>)
    requires
        allowed.ips.len() + allowed.nets.len() + allowed.ids.len() == 0,
    ensures
        names_address(disallowed, ip) ==> !permitted(allowed, disallowed, ip, None),
        names_address(disallowed, ip) ==> !permitted(allowed, disallowed, ip, Some(id)),
        names_client(disallowed, id) ==> !permitted(allowed, disallowed, ip, Some(id)),
        !names_address(disallowed, ip) ==> permitted(allowed, disallowed, ip, None),
        !names_address(disallowed, ip) && !names_client(disallowed, id) ==> permitted(allowed, disallowed, ip, Some(id)),
{
}

/// With anything allowed listed, a request is let in by its address or by its
/// ClientID, whichever the list names, and refused where it names neither;
/// the disallowed list is not asked.
pub proof fn law_allowlist(allowed: ListV, disallowed: ListV, ip: Ip, id: Seq<char>)
    requires
        allowed.ips.len() + allowed.nets.len() + allowed.ids.len() > 0,
    ensures
        names_address(allowed, ip) ==> permitted(allowed, disallowed, ip, None),
        names_address(allowed, ip) ==> permitted(allowed, disallowed, ip, Some(id)),
        names_client(allowed, id) ==> permitted(allowed, disallowed, ip, Some(id)),
        !names_address(allowed, ip) ==> !permitted(allowed, disallowed, ip, None),
        !names_address(allowed, ip) && !names_client(allowed, id) ==> !permitted(allowed, disallowed, ip, Some(id)),
{
}

/// A list is in force as it is written: each entry is in it in its own form,
/// and nothing is that no entry wrote.
pub proof fn law_listed_as_written(entries: Seq<Seq<char>>, address: spec_fn(Seq<char>) -> Option<Ip>)
    ensures
        ({
            let l = sorted_into(entries, address);
            &&& forall|i: int|
                0 <= i < entries.len() ==> match entry_of(#[trigger] entries[i], address) {
                    Some(EntryV::Ip(ip)) => l.ips.contains(ip),
                    Some(EntryV::Net(ip, bits)) => l.nets.contains((ip, bits)),
                    Some(EntryV::Id(id)) => l.ids.contains(id),
                    None => true,
                }
            &&& forall|j: int|
                0 <= j < l.ips.len() ==> exists|i: int|
                    0 <= i < entries.len() && entry_of(#[trigger] entries[i], address) == Some(
                        EntryV::Ip(#[trigger] l.ips[j]),
                    )
            &&& forall|j: int|
                0 <= j < l.nets.len() ==> exists|i: int|
                    0 <= i < entries.len() && entry_of(#[trigger] entries[i], address) == Some(
                        EntryV::Net((#[trigger] l.nets[j]).0, l.nets[j].1),
                    )
            &&& forall|j: int|
                0 <= j < l.ids.len() ==> exists|i: int|
                    0 <= i < entries.len() && entry_of(#[trigger] entries[i], address) == Some(
                        EntryV::Id(#[trigger] l.ids[j]),
                    )
        }),
    decreases entries.len(),
{
    let l = sorted_into(entries, address);
    if entries.len() > 0 {
        let d = entries.drop_last();
        let m = sorted_into(d, address);
        law_listed_as_written(d, address);
        let e = entry_of(entries.last(), address);
        let n = entries.len() - 1;
        assert forall|i: int| 0 <= i < entries.len() implies match entry_of(#[trigger] entries[i], address) {
            Some(EntryV::Ip(ip)) => l.ips.contains(ip),
            Some(EntryV::Net(ip, bits)) => l.nets.contains((ip, bits)),
            Some(EntryV::Id(id)) => l.ids.contains(id),
            None => true,
        } by {
            if i < n {
                assert(d[i] == entries[i]);
            }
            match entry_of(entries[i], address) {
                Some(EntryV::Ip(ip)) => {
                    let j = if i < n { m.ips.index_of(ip) } else { m.ips.len() as int };
                    assert(l.ips[j] == ip);
                },
                Some(EntryV::Net(ip, bits)) => {
                    let j = if i < n { m.nets.index_of((ip, bits)) } else { m.nets.len() as int };
                    assert(l.nets[j] == (ip, bits));
                },
                Some(EntryV::Id(id)) => {
                    let j = if i < n { m.ids.index_of(id) } else { m.ids.len() as int };
                    assert(l.ids[j] == id);
                },
                None => {},
            }
        }
        assert forall|j: int| 0 <= j < l.ips.len() implies exists|i: int|
            0 <= i < entries.len() && entry_of(#[trigger] entries[i], address) == Some(EntryV::Ip(#[trigger] l.ips[j])) by {
            if j < m.ips.len() {
                let i = choose|i: int| 0 <= i < d.len() && entry_of(#[trigger] d[i], address) == Some(EntryV::Ip(m.ips[j]));
                assert(entries[i] == d[i]);
            } else {
                assert(entry_of(entries[n], address) == Some(EntryV::Ip(l.ips[j])));
            }
        }
        assert forall|j: int| 0 <= j < l.nets.len() implies exists|i: int|
            0 <= i < entries.len() && entry_of(#[trigger] entries[i], address) == Some(
                EntryV::Net((#[trigger] l.nets[j]).0, l.nets[j].1),
            ) by {
            if j < m.nets.len() {
                let i = choose|i: int|
                    0 <= i < d.len() && entry_of(#[trigger] d[i], address) == Some(EntryV::Net(m.nets[j].0, m.nets[j].1));
                assert(entries[i] == d[i]);
            } else {
                assert(entry_of(entries[n], address) == Some(EntryV::Net(l.nets[j].0, l.nets[j].1)));
            }
        }
        assert forall|j: int| 0 <= j < l.ids.len() implies exists|i: int|
            0 <= i < entries.len() && entry_of(#[trigger] entries[i], address) == Some(EntryV::Id(#[trigger] l.ids[j])) by {
            if j < m.ids.len() {
                let i = choose|i: int| 0 <= i < d.len() && entry_of(#[trigger] d[i], address) == Some(EntryV::Id(m.ids[j]));
                assert(entries[i] == d[i]);
            } else {
                assert(entry_of(entries[n], address) == Some(EntryV::Id(l.ids[j])));
            }
        }
    }
}

/// Whoever an address, a network or a ClientID on the disallowed list stands
/// for is refused, wherever on the list it stands and whatever else is there.
pub proof fn law_disallowed_by_its_text(
    entries: Seq<Seq<char>>,
    address: spec_fn(Seq<char>) -> Option<Ip>,
    i: int,
    ip: Ip,
    id: Option<Seq<char>>,
)
    requires
        0 <= i < entries.len(),
    ensures
        ({
            let none = ListV { ips: Seq::empty(), nets: Seq::empty(), ids: Seq::empty() };
            let l = sorted_into(entries, address);
            match entry_of(entries[i], address) {
                Some(EntryV::Ip(a)) => a == ip ==> !permitted(none, l, ip, id),
                Some(EntryV::Net(net, bits)) => one_block(ip, net, bits) ==> !permitted(none, l, ip, id),
                Some(EntryV::Id(s)) => id == Some(s) ==> !permitted(none, l, ip, id),
                None => true,
            }
        }),
{
    law_listed_as_written(entries, address);
    let none = ListV { ips: Seq::empty(), nets: Seq::empty(), ids: Seq::empty() };
    let l = sorted_into(entries, address);
    let s = match id {
        Some(s) => s,
        None => Seq::empty(),
    };
    match entry_of(entries[i], address) {
        Some(EntryV::Ip(a)) => {
            assert(l.ips.contains(a));
            law_blocklist(none, l, ip, s);
        },
        Some(EntryV::Net(net, bits)) => {
            assert(l.nets.contains((net, bits)));
            let j = choose|j: int| 0 <= j < l.nets.len() && l.nets[j] == (net, bits);
            law_subnet_is_a_block(ip, net, bits);
            assert(one_block(ip, net, bits) ==> within(ip, l.nets[j].0, l.nets[j].1));
            law_blocklist(none, l, ip, s);
        },
        Some(EntryV::Id(t)) => {
            assert(l.ids.contains(t));
            law_blocklist(none, l, ip, s);
        },
        None => {},
    }
}

/// An entry that spells an address is that address. Otherwise, with an
/// address before its first slash and a number after it, it is that network,
/// or nothing where the family has fewer bits. Otherwise it is a ClientID,
/// kept as it is, if it can be one.
pub proof fn law_entry(head: Seq<char>, tail: Seq<char>, s: Seq<char>, address: spec_fn(Seq<char>) -> Option<Ip>)
    requires
        !head.contains('/'),
    ensures
        address(s) matches Some(ip) ==> entry_of(s, address) == Some(EntryV::Ip(ip)),
        ({
            let t = head + seq!['/'] + tail;
            address(t) is None ==> match (address(head), small_number(tail)) {
                (Some(net), Some(bits)) => entry_of(t, address) == if bits <= width(net) {
                    Some(EntryV::Net(net, bits))
                } else {
                    None
                },
                _ => entry_of(t, address) is None,
            }
        }),
        address(head) is None ==> entry_of(head, address) == if client_id(head) {
            Some(EntryV::Id(head))
        } else {
            None
        },
{
    let t = head + seq!['/'] + tail;
    law_first_place(t, '/');
    law_first_place(head, '/');
    let n = head.len() as int;
    assert(t[n] == '/');
    assert(first_at(t, '/') == n) by {
        let f = first_at(t, '/');
        if f < n {
            assert(head[f] == t[f]);
        }
    }
    assert(t.take(n) =~= head);
    assert(t.skip(n + 1) =~= tail);
    if client_id(t) {
        assert(t[n] == '/');
    }
    if first_at(head, '/') < head.len() {
        assert(head.contains(head[first_at(head, '/')]));
    }
}

/// A ClientID is one label of a domain name: one to sixty-three ASCII letters,
/// digits and hyphens, none of the hyphens at an end.
pub proof fn law_client_id(s: Seq<char>)
    ensures
        client_id(s) <==> {
            &&& s.len() >= 1
            &&& s.len() < 64
            &&& s.first() != '-'
            &&& s.last() != '-'
            &&& forall|i: int|
                0 <= i < s.len() ==> 'a' <= #[trigger] s[i] <= 'z' || 'A' <= s[i] <= 'Z' || '0' <= s[i] <= '9' || s[i] == '-'
        },
{
}

/// A number is read digit by digit, the first after an optional plus sign. It
/// is none where a character is no digit, or where it comes to more than
/// 255.
pub proof fn law_small_number(s: Seq<char>, c: char)
    ensures
        small_number(seq!['+'] + s) == if s.len() > 0 && s[0] == '+' {
            None
        } else {
            small_number(s)
        },
        small_number(Seq::empty()) is None,
        '0' <= c <= '9' ==> small_number(seq![c]) == Some((c as int - '0' as int) as u8),
        !('0' <= c <= '9') ==> small_number(s.push(c)) is None,
        '0' <= c <= '9' ==> match small_number(s) {
            Some(n) => if 10 * n + (c as int - '0' as int) <= 255 {
                small_number(s.push(c)) matches Some(m) && m == 10 * n + (c as int - '0' as int)
            } else {
                small_number(s.push(c)) is None
            },
            None => s.len() > 0 && s != seq!['+'] ==> small_number(s.push(c)) is None,
        },
{
    let plus = seq!['+'] + s;
    assert(plus.skip(1) =~= s);
    if s.len() > 0 && s[0] == '+' {
        assert(!digits(s)) by {
            assert(s[0] == '+');
        }
    }
    let d = if s.len() > 0 && s[0] == '+' { s.skip(1) } else { s };
    let p = s.push(c);
    let e = if p.len() > 0 && p[0] == '+' { p.skip(1) } else { p };
    assert(seq![c].drop_last() =~= Seq::<char>::empty());
    assert(seq![c].last() == c);
    assert(decimal(seq![c]) == c as int - '0' as int) by {
        reveal_with_fuel(decimal, 2);
    }
    if s.len() > 0 {
        assert(e =~= d.push(c));
        assert(e.drop_last() =~= d);
        assert(e.last() == c);
        assert(digits(e) == (digits(d) && '0' <= c <= '9')) by {
            if digits(d) && '0' <= c <= '9' {
                assert forall|i: int| 0 <= i < e.len() implies '0' <= #[trigger] e[i] && e[i] <= '9' by {
                    if i < d.len() {
                        assert(e[i] == d[i]);
                    }
                }
            }
            if digits(e) {
                assert forall|i: int| 0 <= i < d.len() implies '0' <= #[trigger] d[i] && d[i] <= '9' by {
                    assert(e[i] == d[i]);
                }
                assert('0' <= e[d.len() as int]);
            }
        }
        if digits(d) {
            crate::server::access::lemma_decimal_positive(d);
        }
        if d.len() == 0 {
            assert(s =~= seq!['+']);
        }
    } else {
        assert(p =~= seq![c]);
        if !('0' <= c <= '9') {
            assert(e.len() > 0 ==> e[0] == c);
        }
    }
}

/// Which addresses are local, octet by octet: 10/8, 172.16/12, 192.168/16,
/// 169.254/16, 127/8 and 100.64/10, and in IPv6 fd00::/8, fe80::/10 and ::1.
/// An IPv4 address written in IPv6 is judged as itself.
pub proof fn law_local(a: u32, b: u128)
    ensures
        inside_any(canonical(Ip::V4(a)), local_nets()) <==> {
            ||| a / 0x100_0000 == 10
            ||| a / 0x100_0000 == 172 && 16 <= (a / 0x1_0000) % 0x100 < 32
            ||| a / 0x1_0000 == 192 * 256 + 168
            ||| a / 0x1_0000 == 169 * 256 + 254
            ||| a / 0x100_0000 == 127
            ||| a / 0x100_0000 == 100 && 64 <= (a / 0x1_0000) % 0x100 < 128
        },
        b / 0x1_0000_0000 != 0xffff ==> (inside_any(canonical(Ip::V6(b)), local_nets()) <==> {
            ||| b / 0x100_0000_0000_0000_0000_0000_0000_0000 == 0xfd
            ||| 0xfe80 <= b / 0x1_0000_0000_0000_0000_0000_0000_0000 < 0xfec0
            ||| b == 1
        }),
        canonical(Ip::V6((0xffff_0000_0000 + a) as u128)) == Ip::V4(a),
        b / 0x1_0000_0000 != 0xffff ==> canonical(Ip::V6(b)) == Ip::V6(b),
{
    let ip = canonical(Ip::V4(a));
    let nets = local_nets();
    lemma_local_v4(a);
    assert(inside_any(ip, nets) ==> {
        ||| inside(ip, nets[0].0, nets[0].1)
        ||| inside(ip, nets[1].0, nets[1].1)
        ||| inside(ip, nets[2].0, nets[2].1)
        ||| inside(ip, nets[3].0, nets[3].1)
        ||| inside(ip, nets[4].0, nets[4].1)
        ||| inside(ip, nets[5].0, nets[5].1)
    });
    if b / 0x1_0000_0000 != 0xffff {
        let ip = Ip::V6(b);
        lemma_local_v6(b);
        assert(inside_any(ip, nets) ==> {
            ||| inside(ip, nets[6].0, nets[6].1)
            ||| inside(ip, nets[7].0, nets[7].1)
            ||| inside(ip, nets[8].0, nets[8].1)
        });
        if inside(ip, nets[6].0, nets[6].1) || inside(ip, nets[7].0, nets[7].1) || inside(ip, nets[8].0, nets[8].1) {
            assert(inside_any(ip, nets));
        }
    }
}

proof fn lemma_local_v4(a: u32)
    by (bit_vector)
    ensures
        (a >> 24u32 == 0x0a00_0000u32 >> 24u32) == (a / 0x100_0000 == 10),
        (a >> 20u32 == 0xac10_0000u32 >> 20u32) == (a / 0x100_0000 == 172 && 16 <= (a / 0x1_0000) % 0x100 && (a
            / 0x1_0000) % 0x100 < 32),
        (a >> 16u32 == 0xc0a8_0000u32 >> 16u32) == (a / 0x1_0000 == 192 * 256 + 168),
        (a >> 16u32 == 0xa9fe_0000u32 >> 16u32) == (a / 0x1_0000 == 169 * 256 + 254),
        (a >> 24u32 == 0x7f00_0000u32 >> 24u32) == (a / 0x100_0000 == 127),
        (a >> 22u32 == 0x6440_0000u32 >> 22u32) == (a / 0x100_0000 == 100 && 64 <= (a / 0x1_0000) % 0x100 && (a
            / 0x1_0000) % 0x100 < 128),
{
}

proof fn lemma_local_v6(b: u128)
    by (bit_vector)
    ensures
        (b >> 120u128 == 0xfd00_0000_0000_0000_0000_0000_0000_0000u128 >> 120u128) == (b
            / 0x100_0000_0000_0000_0000_0000_0000_0000 == 0xfd),
        (b >> 118u128 == 0xfe80_0000_0000_0000_0000_0000_0000_0000u128 >> 118u128) == (0xfe80 <= b
            / 0x1_0000_0000_0000_0000_0000_0000_0000 && b / 0x1_0000_0000_0000_0000_0000_0000_0000 < 0xfec0),
        (b >> 0u128 == 1u128 >> 0u128) == (b == 1),
{
}

} // verus!
