//! Who is shut out and for how long, in terms of what they did and when.

use vstd::prelude::*;

use crate::clients::{inside, inside_any};
use crate::ip::{canonical, Ip};
use crate::laws::access::{law_subnet_is_a_block, one_block};
use crate::probe::sweep::{next_sweep, swept, EVICT_TO, MAX_TRACKED, SWEEP_AT, SWEEP_EVERY};
use crate::probe::terms::{
    called, charged, clean_mark, exempts, held_against, is_banned, law_penalty_bounds, law_penalty_doubles,
    nth_penalty, on_this_network, rank_of, source_of, spares, terms_of, whole_secs, Config, Judged, Mark, Span,
    Terms,
};
use crate::probe::{
    after_charge, busy, charges, cleared, full, has_own_64, held, net_64, own_networks, scarce, slot_free, sweep_due,
    told_of, GuardV, Penalty,
};
use crate::quic::{after_verdict, slot_returned, ticket_returned, verdict_on, VerdictV};

verus! {

/// A span counts in whole seconds, begun ones among them, and stops at the
/// end of the clock.
pub proof fn law_whole_seconds(d: Span)
    ensures
        d.nanos == 0 && d.secs <= 0xffff_ffff ==> whole_secs(d) == d.secs,
        d.nanos > 0 && d.secs < 0xffff_ffff ==> whole_secs(d) == d.secs + 1,
        d.secs >= 0xffff_ffff ==> whole_secs(d) == 0xffff_ffff,
{
}

/// Each of the terms is its own setting, in whole seconds.
pub proof fn law_terms(cfg: Config)
    ensures
        terms_of(cfg).strikes == cfg.strikes,
        terms_of(cfg).window == whole_secs(cfg.window),
        terms_of(cfg).penalty == whole_secs(cfg.penalty),
        terms_of(cfg).max_penalty == whole_secs(cfg.max_penalty),
        terms_of(cfg).forgive == whole_secs(cfg.forgive),
{
}

/// Which addresses are of this network, octet by octet: 127/8, 10/8,
/// 172.16/12, 192.168/16, 169.254/16 and 0.0.0.0; ::1, ::, fc00::/7 and
/// fe80::/10; and an IPv4 one written in IPv6.
pub proof fn law_this_network(a: u32, b: u128)
    ensures
        on_this_network(Ip::V4(a)) <==> {
            ||| a / 0x100_0000 == 127
            ||| a / 0x100_0000 == 10
            ||| a / 0x100_0000 == 172 && 16 <= (a / 0x1_0000) % 0x100 < 32
            ||| a / 0x1_0000 == 192 * 256 + 168
            ||| a / 0x1_0000 == 169 * 256 + 254
            ||| a == 0
        },
        b / 0x1_0000_0000 != 0xffff ==> (on_this_network(Ip::V6(b)) <==> {
            ||| b <= 1
            ||| 0xfc <= b / 0x100_0000_0000_0000_0000_0000_0000_0000 < 0xfe
            ||| 0xfe80 <= b / 0x1_0000_0000_0000_0000_0000_0000_0000 < 0xfec0
        }),
{
}

/// The operator's own list spares an address in any case. The addresses of
/// this network, and of the networks named local, are spared where they are
/// to be. With no strikes to be had the guard is off.
pub proof fn law_spared(cfg: Config, ip: Ip, i: int)
    ensures
        0 <= i < cfg.allowlist@.len() && canonical(cfg.allowlist@[i]) == canonical(ip) ==> spares(cfg, ip),
        cfg.exempt_local && on_this_network(canonical(ip)) ==> spares(cfg, ip),
        cfg.exempt_local && 0 <= i < cfg.local_networks@.len() && one_block(
            canonical(ip),
            cfg.local_networks@[i].0,
            cfg.local_networks@[i].1,
        ) ==> spares(cfg, ip),
        spares(cfg, ip) ==> {
            ||| exists|k: int| 0 <= k < cfg.allowlist@.len() && canonical(#[trigger] cfg.allowlist@[k]) == canonical(ip)
            ||| cfg.exempt_local && on_this_network(canonical(ip))
            ||| cfg.exempt_local && exists|k: int|
                0 <= k < cfg.local_networks@.len() && one_block(
                    canonical(ip),
                    (#[trigger] cfg.local_networks@[k]).0,
                    cfg.local_networks@[k].1,
                )
        },
        cfg.strikes == 0 ==> exempts(cfg, ip),
        cfg.strikes > 0 ==> exempts(cfg, ip) == spares(cfg, ip),
{
    let c = canonical(ip);
    let nets = cfg.local_networks@;
    if 0 <= i < nets.len() {
        law_subnet_is_a_block(c, nets[i].0, nets[i].1);
        if one_block(c, nets[i].0, nets[i].1) {
            assert(inside(c, nets[i].0, nets[i].1));
            assert(inside_any(c, nets));
        }
    }
    if inside_any(c, nets) {
        let k = choose|k: int| 0 <= k < nets.len() && inside(c, (#[trigger] nets[k]).0, nets[k].1);
        law_subnet_is_a_block(c, nets[k].0, nets[k].1);
        assert(one_block(c, nets[k].0, nets[k].1));
    }
}

/// An IPv4 address is judged by itself, in whichever family it is written.
/// IPv6 addresses are judged together where they share their first 64 bits,
/// but in this host's own networks each by its last 64; and the three kinds
/// have nothing in common.
pub proof fn law_judged_as(cfg: Config, a: u32, b: u32, x: u128, y: u128)
    requires
        x / 0x1_0000_0000 != 0xffff,
        y / 0x1_0000_0000 != 0xffff,
    ensures
        (source_of(cfg, Ip::V4(a)) == source_of(cfg, Ip::V4(b))) == (a == b),
        source_of(cfg, Ip::V6((0xffff_0000_0000 + a) as u128)) == source_of(cfg, Ip::V4(a)),
        source_of(cfg, Ip::V4(a)) != source_of(cfg, Ip::V6(x)),
        ({
            let own_x = inside_any(Ip::V6(x), cfg.host_networks@);
            let own_y = inside_any(Ip::V6(y), cfg.host_networks@);
            &&& !own_x && !own_y ==> (source_of(cfg, Ip::V6(x)) == source_of(cfg, Ip::V6(y))) == (x
                / 0x1_0000_0000_0000_0000 == y / 0x1_0000_0000_0000_0000)
            &&& own_x && own_y ==> (source_of(cfg, Ip::V6(x)) == source_of(cfg, Ip::V6(y))) == (x
                % 0x1_0000_0000_0000_0000 == y % 0x1_0000_0000_0000_0000)
            &&& own_x != own_y ==> source_of(cfg, Ip::V6(x)) != source_of(cfg, Ip::V6(y))
        }),
        called(source_of(cfg, Ip::V4(a))) == Judged::Address(Ip::V4(a)),
        called(source_of(cfg, Ip::V6(x))) == if inside_any(Ip::V6(x), cfg.host_networks@) {
            Judged::InHostNetwork(Ip::V6(x % 0x1_0000_0000_0000_0000))
        } else {
            Judged::Network(Ip::V6((x - x % 0x1_0000_0000_0000_0000) as u128), 64)
        },
{
    assert(canonical(Ip::V6((0xffff_0000_0000 + a) as u128)) == Ip::V4(a));
}

/// What a strike does to a source that is not refused, one at a time. It is
/// counted with those of the same window, or begins a new one; and it is an
/// offence with which the number allowed is reached.
pub proof fn law_strike(m: Mark, now: u32, t: Terms)
    requires
        now >= m.until,
        m.strikes < u32::MAX,
    ensures
        ({
            let (after, shut_out) = charged(m, now, t, false);
            let in_window = t.window > 0 && now < m.first + t.window;
            let count = if in_window { m.strikes + 1 } else { 1int };
            &&& shut_out == (count >= t.strikes)
            &&& after.seen == now
            &&& after.first == if in_window { m.first } else { now }
            &&& !shut_out ==> after.strikes == count && after.until == m.until
            &&& shut_out ==> after.strikes == 0
        }),
{
}

/// One that is condemned has committed an offence with that alone.
pub proof fn law_condemned(m: Mark, now: u32, t: Terms)
    requires
        now >= m.until,
    ensures
        charged(m, now, t, true).1,
{
}

/// What an offence costs: the first penalty, twice that for the second, and
/// so on up to the longest; counted from now, and from one again once the
/// last has been served and forgiven.
pub proof fn law_offence(m: Mark, now: u32, t: Terms, condemned: bool)
    requires
        now >= m.until,
        charged(m, now, t, condemned).1,
    ensures
        ({
            let after = charged(m, now, t, condemned).0;
            let forgiven = now >= m.until + t.forgive && m.until + t.forgive <= u32::MAX;
            &&& m.offences > 0 && forgiven ==> after.offences == 1
            &&& m.offences == 0 ==> after.offences == 1
            &&& 0 < m.offences < u32::MAX && now < m.until + t.forgive && m.until + t.forgive <= u32::MAX
                ==> after.offences == m.offences + 1
            &&& now + nth_penalty(t, after.offences) <= u32::MAX ==> after.until == now + nth_penalty(t, after.offences)
            &&& now + nth_penalty(t, after.offences) > u32::MAX ==> after.until == u32::MAX
            &&& forall|later: u32| #[trigger] is_banned(after, later) == (later < after.until)
        }),
        nth_penalty(t, 1) == t.penalty,
        2 * t.penalty <= t.max_penalty ==> nth_penalty(t, 2) == 2 * t.penalty,
        4 * t.penalty <= t.max_penalty ==> nth_penalty(t, 3) == 4 * t.penalty,
        forall|n: u32| #[trigger] nth_penalty(t, n) <= t.max_penalty || nth_penalty(t, n) == t.penalty,
{
    law_penalty_bounds(t, 1);
    law_penalty_doubles(t, 1);
    law_penalty_doubles(t, 2);
    assert forall|n: u32| #[trigger] nth_penalty(t, n) <= t.max_penalty || nth_penalty(t, n) == t.penalty by {
        law_penalty_bounds(t, n);
    }
    let forgiven = m.offences > 0 && now >= crate::probe::terms::plus(m.until, t.forgive);
    let n: u32 = if forgiven { 1 } else if m.offences == u32::MAX { u32::MAX } else { (m.offences + 1) as u32 };
    law_penalty_bounds(t, n);
}

/// The mark of a source after it was struck at each of these times.
pub open spec fn struck(times: Seq<u32>, t: Terms) -> Mark
    decreases times.len(),
{
    if times.len() == 0 {
        clean_mark(0)
    } else if times.len() == 1 {
        charged(clean_mark(times[0]), times[0], t, false).0
    } else {
        charged(struck(times.drop_last(), t), times.last(), t, false).0
    }
}

/// A source that has done nothing before is let in for as long as it wastes
/// fewer connections within a window than are allowed, and is shut out, for
/// the first penalty, with the one that reaches the number.
pub proof fn law_shut_out_at_the_limit(times: Seq<u32>, t: Terms)
    requires
        0 < times.len() <= t.strikes,
        forall|i: int| 0 <= i < times.len() ==> times[0] <= #[trigger] times[i] < times[0] + t.window,
    ensures
        times.len() < t.strikes ==> {
            &&& struck(times, t).until == 0
            &&& struck(times, t).strikes == times.len()
            &&& struck(times, t).first == times[0]
            &&& struck(times, t).offences == 0
        },
        times.len() == t.strikes ==> {
            &&& struck(times, t).offences == 1
            &&& times.last() + t.penalty <= u32::MAX ==> struck(times, t).until == times.last() + t.penalty
        },
    decreases times.len(),
{
    law_penalty_bounds(t, 1);
    if times.len() > 1 {
        let d = times.drop_last();
        assert forall|i: int| 0 <= i < d.len() implies d[0] <= #[trigger] d[i] < d[0] + t.window by {
            assert(d[i] == times[i]);
        }
        law_shut_out_at_the_limit(d, t);
        assert(times[times.len() - 1] < times[0] + t.window);
    }
    assert(times[0] < times[0] + t.window);
}

/// A mark is kept for as long as it says anything: while it refuses, while
/// its window runs, and until its offences are forgiven.
pub proof fn law_kept_while_it_matters(m: Mark, now: u32, t: Terms)
    ensures
        now < m.until ==> held_against(m, now, t),
        m.strikes > 0 && now < m.first + t.window && t.window > 0 ==> held_against(m, now, t),
        m.offences > 0 && now < m.until + t.forgive && now < u32::MAX ==> held_against(m, now, t),
        now >= m.until && (m.strikes == 0 || now >= m.first + t.window) && (m.offences == 0 || now >= m.until + t.forgive)
            ==> !held_against(m, now, t),
        now < m.until ==> rank_of(m, now) > rank_of(Mark { until: 0, ..m }, now),
        m.offences > 0 && now >= m.until ==> rank_of(m, now) > rank_of(Mark { offences: 0, ..m }, now),
{
}

/// An answered query wipes what was held against its source, and only that;
/// one that is refused goes on being refused.
pub proof fn law_cleared(g: GuardV, ip: Ip, now: u32, other: (u8, u128))
    ensures
        ({
            let key = source_of(g.cfg, ip);
            let after = cleared(g, ip, now);
            &&& !exempts(g.cfg, ip) && !(g.marks.contains_key(key) && now < g.marks[key].until)
                ==> !after.marks.contains_key(key)
            &&& g.marks.contains_key(key) && now < g.marks[key].until ==> after == g
            &&& other != key ==> after.marks.contains_key(other) == g.marks.contains_key(other)
            &&& other != key && g.marks.contains_key(other) ==> after.marks[other] == g.marks[other]
            &&& after.live == g.live && after.open == g.open && after.handshakes == g.handshakes
        }),
{
}

/// A charge is held against the one source it is about, and against none that
/// is exempt; another source keeps its mark, but that a sweep may drop it.
pub proof fn law_charged_to(g: GuardV, after: GuardV, ip: Ip, now: u32, condemned: bool, other: (u8, u128))
    requires
        charges(g, after, ip, now, condemned),
        other != source_of(g.cfg, ip),
    ensures
        exempts(g.cfg, ip) ==> after == g,
        !exempts(g.cfg, ip) ==> after.marks.contains_key(source_of(g.cfg, ip)),
        after.marks.contains_key(other) ==> g.marks.contains_key(other) && after.marks[other] == g.marks[other],
        !exempts(g.cfg, ip) && !sweep_due(g, source_of(g.cfg, ip), now) ==> {
            let key = source_of(g.cfg, ip);
            let was = if g.marks.contains_key(key) { g.marks[key] } else { clean_mark(now) };
            &&& after.marks[key] == charged(was, now, terms_of(g.cfg), condemned).0
            &&& g.marks.contains_key(other) ==> after.marks.contains_key(other)
        },
        after.live == g.live && after.open == g.open && after.handshakes == g.handshakes,
{
    let key = source_of(g.cfg, ip);
    if !exempts(g.cfg, ip) && sweep_due(g, key, now) {
        let marks = choose|marks: Map<(u8, u128), Mark>| #[trigger]
            swept(g.marks, marks, now, terms_of(g.cfg)) && after == after_charge(g, marks, key, now, condemned);
        let kept = crate::probe::sweep::kept_marks(g.marks, now, terms_of(g.cfg));
        if after.marks.contains_key(other) {
            assert(marks.contains_key(other));
            assert(kept.contains_key(other));
        }
    }
}

/// When a table is swept: once it has grown to twice what the last sweep left,
/// between 16384 and 65536 sources, and every ten minutes.
pub proof fn law_swept_in_time(g: GuardV, key: (u8, u128), now: u32, len: nat)
    ensures
        now >= g.swept + 600 ==> sweep_due(g, key, now),
        g.marks.len() >= g.sweep_at && !g.marks.contains_key(key) ==> sweep_due(g, key, now),
        now < g.swept + 600 && (g.marks.len() < g.sweep_at || g.marks.contains_key(key)) ==> !sweep_due(g, key, now),
        len <= 8192 ==> next_sweep(len as int) == 16384,
        8192 <= len <= 32768 ==> next_sweep(len as int) == 2 * len,
        32768 <= len ==> next_sweep(len as int) == 65536,
        MAX_TRACKED == 65536 && 4 * EVICT_TO == 3 * MAX_TRACKED && SWEEP_AT == 16384 && SWEEP_EVERY == 600,
{
}

/// When there is no room: with as many connections open as may be, in all or
/// of one source. A limit of zero is none. Half the handshakes, and no more,
/// are for those that have proved nothing.
pub proof fn law_room(g: GuardV, key: (u8, u128))
    ensures
        full(g, key) <==> {
            ||| g.cfg.max_connections > 0 && g.open >= g.cfg.max_connections
            ||| g.cfg.max_per_source > 0 && g.live.contains_key(key) && g.live[key] >= g.cfg.max_per_source
        },
        g.cfg.strikes == 0 ==> slot_free(g) && !scarce(g),
        g.cfg.max_handshakes == 0 ==> slot_free(g) && !scarce(g),
        g.cfg.strikes > 0 && g.cfg.max_handshakes > 0 ==> {
            &&& slot_free(g) == (g.handshakes < g.cfg.max_handshakes)
            &&& scarce(g) == (g.handshakes + 1 > g.cfg.max_handshakes / 2)
        },
{
}

/// A refusal at a limit is counted, and told of at most once a minute, with
/// all that went untold before it.
pub proof fn law_told_of_refusals(g: GuardV, now: u32)
    requires
        now < u32::MAX - 60,
        g.warned <= u32::MAX - 60,
        g.refused_busy < u64::MAX,
        g.unwarned < u64::MAX,
    ensures
        busy(g, now).refused_busy == g.refused_busy + 1,
        g.warned == 0 || now + 1 >= g.warned + 60 ==> {
            &&& busy(g, now).due == Some((g.unwarned + 1) as u64)
            &&& busy(g, now).unwarned == 0
            &&& busy(g, now).warned == now + 1
        },
        g.warned > 0 && now + 1 < g.warned + 60 ==> {
            &&& busy(g, now).due == g.due
            &&& busy(g, now).unwarned == g.unwarned + 1
            &&& busy(g, now).warned == g.warned
        },
        busy(g, now).marks == g.marks && busy(g, now).live == g.live && busy(g, now).open == g.open,
        busy(g, now).handshakes == g.handshakes && busy(g, now).refused_banned == g.refused_banned,
{
}

/// What is done about a new QUIC connection. One that is shut out is ignored,
/// proved or not. One that has proved its address is refused where there is no
/// room for it, and let in otherwise, uncounted where it is exempt. One that
/// has proved nothing is let in to a handshake only while there is room and
/// half of the handshakes are free, and asked to prove itself otherwise.
pub proof fn law_connection(g: GuardV, ip: Ip, now: u32)
    ensures
        ({
            let key = source_of(g.cfg, ip);
            let exempt = exempts(g.cfg, ip);
            let shut_out = !exempt && g.marks.contains_key(key) && now < g.marks[key].until;
            let slots = g.cfg.strikes == 0 || g.cfg.max_handshakes == 0 || g.handshakes < g.cfg.max_handshakes;
            let half = g.cfg.strikes == 0 || g.cfg.max_handshakes == 0 || g.handshakes < g.cfg.max_handshakes / 2;
            &&& shut_out ==> verdict_on(g, ip, true, now) is Ignore && verdict_on(g, ip, false, now) is Ignore
            &&& exempt ==> verdict_on(g, ip, true, now) == VerdictV::Accept(false, Some(None))
            &&& !exempt && !shut_out && slots && !full(g, key) ==> verdict_on(g, ip, true, now) == VerdictV::Accept(
                true,
                Some(Some(key)),
            )
            &&& !exempt && !shut_out && !(slots && !full(g, key)) ==> verdict_on(g, ip, true, now) is Refuse
            &&& !shut_out && (exempt || !full(g, key)) && half && slots ==> verdict_on(g, ip, false, now)
                == VerdictV::Accept(true, None)
            &&& !shut_out && !((exempt || !full(g, key)) && half && slots) ==> verdict_on(g, ip, false, now) is Retry
        }),
{
}

/// What a connection took is given back when it ends: the guard is then as it
/// was before it came.
pub proof fn law_given_back(g: GuardV, ip: Ip, validated: bool, now: u32)
    requires
        held(g, source_of(g.cfg, ip)) < u32::MAX,
        forall|k: (u8, u128)| #[trigger] g.live.contains_key(k) ==> g.live[k] > 0,
    ensures
        verdict_on(g, ip, validated, now) matches VerdictV::Accept(slot, ticket) ==> ticket_returned(
            slot_returned(after_verdict(g, ip, validated, now), slot),
            match ticket {
                Some(t) => t,
                None => None,
            },
        ) == g,
        verdict_on(g, ip, validated, now) matches VerdictV::Accept(true, Some(Some(key))) ==> {
            let after = after_verdict(g, ip, validated, now);
            &&& held(after, key) == held(g, key) + 1
            &&& after.open == g.open + 1
            &&& after.handshakes == g.handshakes + 1
        },
        verdict_on(g, ip, validated, now) matches VerdictV::Accept(true, None) ==> {
            let after = after_verdict(g, ip, validated, now);
            &&& after.open == g.open
            &&& after.live == g.live
            &&& after.handshakes == g.handshakes + 1
        },
        verdict_on(g, ip, validated, now) is Retry ==> after_verdict(g, ip, validated, now) == g,
        verdict_on(g, ip, validated, now) is Ignore && g.refused_banned < u64::MAX ==> after_verdict(g, ip, validated, now)
            == (GuardV { refused_banned: (g.refused_banned + 1) as u64, ..g }),
{
    let key = source_of(g.cfg, ip);
    if let VerdictV::Accept(slot, ticket) = verdict_on(g, ip, validated, now) {
        let after = after_verdict(g, ip, validated, now);
        if let Some(Some(k)) = ticket {
            assert(k == key);
            let n = (held(g, key) + 1) as u32;
            if g.live.contains_key(key) {
                assert(g.live.insert(key, n).insert(key, g.live[key]) =~= g.live);
            } else {
                assert(g.live.insert(key, n).remove(key) =~= g.live);
            }
        }
    }
}

/// An address gives its host a network of its own where it is an IPv6 address
/// of the internet: not multicast, not of this network, not IPv4 in IPv6, and
/// not a relay's. That network is the /64 the address is in.
pub proof fn law_own_network(ip: Ip)
    ensures
        ip matches Ip::V6(a) ==> {
            &&& net_64(ip).1 == 64
            &&& net_64(ip).0 matches Ip::V6(n) && n % 0x1_0000_0000_0000_0000 == 0 && n / 0x1_0000_0000_0000_0000 == a
                / 0x1_0000_0000_0000_0000
            &&& a / 0x1_0000_0000_0000_0000_0000_0000_0000 == 0x2001 && (a / 0x1_0000_0000_0000_0000_0000_0000) % 0x1_0000 == 0
                ==> !has_own_64(ip)
            &&& a / 0x100_0000_0000_0000_0000_0000_0000_0000 == 0xff ==> !has_own_64(ip)
            &&& a / 0x1_0000_0000 == 0xffff ==> !has_own_64(ip)
            &&& on_this_network(ip) ==> !has_own_64(ip)
            &&& 0x2400 <= a / 0x1_0000_0000_0000_0000_0000_0000_0000 < 0x4000 ==> has_own_64(ip)
            &&& a / 0x1_0000_0000_0000_0000_0000_0000_0000 == 0x2001 && (a / 0x1_0000_0000_0000_0000_0000_0000) % 0x1_0000 != 0
                ==> has_own_64(ip)
        },
        ip is V4 ==> !has_own_64(ip),
{
}

/// The networks of a host are those that its addresses give it, all of them,
/// each once.
pub proof fn law_own_networks(addrs: Seq<Ip>)
    ensures
        forall|i: int| 0 <= i < addrs.len() && has_own_64(#[trigger] addrs[i]) ==> own_networks(addrs).contains(net_64(addrs[i])),
        own_networks(addrs).no_duplicates(),
        forall|j: int|
            0 <= j < own_networks(addrs).len() ==> exists|k: int|
                0 <= k < addrs.len() && has_own_64(#[trigger] addrs[k]) && net_64(addrs[k]) == #[trigger] own_networks(addrs)[j],
    decreases addrs.len(),
{
    if addrs.len() > 0 {
        let d = addrs.drop_last();
        law_own_networks(d);
        let before = own_networks(d);
        let all = own_networks(addrs);
        let last = addrs.last();
        assert forall|i: int| 0 <= i < addrs.len() && has_own_64(#[trigger] addrs[i]) implies all.contains(
            net_64(addrs[i]),
        ) by {
            if i < d.len() {
                assert(d[i] == addrs[i]);
                let at = before.index_of(net_64(addrs[i]));
                assert(all[at] == net_64(addrs[i]));
            } else if !before.contains(net_64(last)) {
                assert(all[all.len() - 1] == net_64(last));
            } else {
                let at = before.index_of(net_64(last));
                assert(all[at] == net_64(last));
            }
        }
        assert forall|j: int| 0 <= j < all.len() implies exists|k: int|
            0 <= k < addrs.len() && has_own_64(#[trigger] addrs[k]) && net_64(addrs[k]) == #[trigger] all[j] by {
            if j < before.len() {
                let k = choose|k: int| 0 <= k < d.len() && has_own_64(#[trigger] d[k]) && net_64(d[k]) == before[j];
                assert(addrs[k] == d[k]);
            } else {
                assert(addrs[addrs.len() - 1] == last);
            }
        }
    }
}

/// A penalty is told of where one was imposed, with the offence it is for and
/// how long it lasts; where nothing was imposed nothing is told.
pub proof fn law_told_of_penalty(g: GuardV, ip: Ip, now: u32, condemned: bool, p: Option<Penalty>)
    requires
        !exempts(g.cfg, ip),
        !sweep_due(g, source_of(g.cfg, ip), now),
        told_of(p, g, after_charge(g, g.marks, source_of(g.cfg, ip), now, condemned), ip),
    ensures
        ({
            let key = source_of(g.cfg, ip);
            let was = if g.marks.contains_key(key) { g.marks[key] } else { clean_mark(now) };
            let (mark, shut_out) = charged(was, now, terms_of(g.cfg), condemned);
            &&& p is Some == shut_out
            &&& p matches Some(x) ==> x.offence == mark.offences && x.seconds == nth_penalty(terms_of(g.cfg), mark.offences)
            &&& ({
                let after = after_charge(g, g.marks, key, now, condemned);
                &&& shut_out && g.penalties < u64::MAX ==> after.penalties == g.penalties + 1
                &&& shut_out && condemned && g.condemned < u64::MAX ==> after.condemned == g.condemned + 1
                &&& !shut_out ==> after.penalties == g.penalties
                &&& !(shut_out && condemned) ==> after.condemned == g.condemned
            })
        }),
{
}

} // verus!
