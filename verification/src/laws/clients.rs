//! Whose request one is, in terms of what the client is configured by.

use vstd::prelude::*;
use vstd::string::*;

use crate::clients::{inside_any, local_nets};
use crate::clients::persistent::{
    belongs, best, id_of, id_rank, identifies, lemma_best, lemma_best_at_most, mac_like, plain_mac, upstream_line,
    upstream_lines, upstreams_key, Asker, IdV, Persistent, PersistentSpec,
};
use crate::clients::runtime::{
    addr_key, changed, evicted_to, is_anchored, kept_of, law_addresses_are_told_apart, learned_keys, nobody, says_something,
    updated, worth_of, ChangeV, ClientV, SlotV, Source,
};
use crate::ip::{canonical, Ip};
use crate::laws::access::{law_subnet_is_a_block, one_block};
use crate::laws::text::{alike, law_alike, law_first_place, law_lower, same_letter};
use crate::multi::picked;
use crate::server::access::small_number;
use crate::text::{first_at, join, lower, strings, trimmed};

verus! {

/// An address on a client's list stands for the requests that come from it,
/// and for no others, whatever ClientID and whatever hardware address they
/// carry or do not carry.
pub proof fn law_address_identifies(
    text: Seq<char>,
    address: spec_fn(Seq<char>) -> Option<Ip>,
    a: Ip,
    b: Ip,
    client_id: Option<Seq<char>>,
    mac: Option<Seq<char>>,
)
    requires
        trimmed(text).len() > 0,
        address(trimmed(text)) == Some(a),
    ensures
        id_of(text, address) matches Some(id) && {
            &&& identifies(id, Asker { addr: Some(a), client_id, mac })
            &&& a != b ==> !identifies(id, Asker { addr: Some(b), client_id, mac })
            &&& !identifies(id, Asker { addr: None, client_id, mac })
        },
{
}

/// A subnet on a client's list stands for the requests from the addresses
/// that begin as it does, whatever else they carry.
pub proof fn law_subnet_identifies(
    head: Seq<char>,
    tail: Seq<char>,
    address: spec_fn(Seq<char>) -> Option<Ip>,
    a: Ip,
    client_id: Option<Seq<char>>,
    mac: Option<Seq<char>>,
)
    requires
        !head.contains('/'),
        trimmed(head + seq!['/'] + tail) == head + seq!['/'] + tail,
        address(head + seq!['/'] + tail) is None,
        address(head) is Some,
        small_number(tail) is Some,
    ensures
        id_of(head + seq!['/'] + tail, address) matches Some(id) && {
            &&& identifies(id, Asker { addr: Some(a), client_id, mac }) == one_block(a, address(head)->0, small_number(tail)->0)
            &&& !identifies(id, Asker { addr: None, client_id, mac })
        },
{
    let t = head + seq!['/'] + tail;
    law_first_place(t, '/');
    let n = head.len() as int;
    assert(t[n] == '/');
    assert(first_at(t, '/') == n) by {
        let f = first_at(t, '/');
        if f < n {
            assert(head[f] == t[f]);
        }
    }
    assert(t.take(n) =~= head);
    assert(t.skip(n + 1) =~= tail);
    law_subnet_is_a_block(a, address(head)->0, small_number(tail)->0);
}

/// Whether two characters are the same in a hardware address: the same letter
/// in either case, and either of the two separators.
pub open spec fn same_in_mac(x: char, y: char) -> bool {
    same_letter(x, y) || (x == '-' || x == ':') && (y == '-' || y == ':')
}

/// A hardware address on a client's list stands for the requests that carry
/// it, in either case and with either separator, whatever address they come
/// from; a request without one is not the client's by it.
pub proof fn law_mac_identifies(
    text: Seq<char>,
    address: spec_fn(Seq<char>) -> Option<Ip>,
    m: Seq<char>,
    addr: Option<Ip>,
    client_id: Option<Seq<char>>,
)
    requires
        trimmed(text) == text,
        !text.contains('/'),
        address(text) is None,
        text.len() == 17 || text.len() == 23,
        forall|i: int|
            #![trigger text[i]]
            0 <= i < text.len() ==> if i % 3 == 2 {
                text[i] == ':' || text[i] == '-'
            } else {
                '0' <= text[i] <= '9' || 'a' <= text[i] <= 'f' || 'A' <= text[i] <= 'F'
            },
    ensures
        id_of(text, address) matches Some(id) && {
            &&& identifies(id, Asker { addr, client_id, mac: Some(m) }) == (m.len() == text.len() && forall|i: int|
                0 <= i < m.len() ==> same_in_mac(#[trigger] m[i], text[i]))
            &&& !identifies(id, Asker { addr, client_id, mac: None })
        },
{
    law_first_place(text, '/');
    assert forall|i: int| 0 <= i < text.len() implies crate::clients::persistent::mac_char(#[trigger] text[i], i) by {}
    assert(mac_like(text));
    law_lower(text);
    law_lower(m);
    let p = plain_mac(m);
    let q = plain_mac(text);
    if p == q {
        assert(p.len() == q.len());
        assert forall|i: int| 0 <= i < m.len() implies same_in_mac(#[trigger] m[i], text[i]) by {
            assert(p[i] == q[i]);
            assert(lower(m)[i] == lower(m)[i]);
            assert(lower(text)[i] == lower(text)[i]);
        }
    }
    if m.len() == text.len() && forall|i: int| 0 <= i < m.len() ==> same_in_mac(#[trigger] m[i], text[i]) {
        assert forall|i: int| 0 <= i < m.len() implies p[i] == q[i] by {
            assert(same_in_mac(m[i], text[i]));
            assert(lower(m)[i] == lower(m)[i]);
            assert(lower(text)[i] == lower(text)[i]);
        }
        assert(p =~= q);
    }
}

/// What has the form of a hardware address and what has not: six or eight
/// pairs of hexadecimal digits with separators between them.
pub proof fn law_mac_form(s: Seq<char>, i: int)
    requires
        0 <= i < s.len(),
    ensures
        s.len() != 17 && s.len() != 23 ==> !mac_like(s),
        i % 3 == 2 && s[i] != ':' && s[i] != '-' ==> !mac_like(s),
        i % 3 != 2 && !('0' <= s[i] <= '9' || 'a' <= s[i] <= 'f' || 'A' <= s[i] <= 'F') ==> !mac_like(s),
{
    if mac_like(s) {
        assert(crate::clients::persistent::mac_char(s[i], i));
    }
}

/// Any other text on a client's list is a ClientID, which stands for the
/// requests that carry it, in either case, from whatever address.
pub proof fn law_name_identifies(
    text: Seq<char>,
    address: spec_fn(Seq<char>) -> Option<Ip>,
    c: Seq<char>,
    addr: Option<Ip>,
    mac: Option<Seq<char>>,
)
    requires
        trimmed(text) == text,
        text.len() > 0,
        !text.contains('/'),
        address(text) is None,
        !mac_like(text),
    ensures
        id_of(text, address) matches Some(id) && {
            &&& identifies(id, Asker { addr, client_id: Some(c), mac }) == alike(c, text)
            &&& !identifies(id, Asker { addr, client_id: None, mac })
        },
{
    law_first_place(text, '/');
    law_alike(c, text);
    law_lower(text);
    law_lower(c);
}

/// A text around which there is white space says the same as without, and one
/// that is nothing but white space identifies nobody.
pub proof fn law_id_is_trimmed(s: Seq<char>, t: Seq<char>, address: spec_fn(Seq<char>) -> Option<Ip>)
    requires
        trimmed(s) == trimmed(t),
    ensures
        id_of(s, address) == id_of(t, address),
        trimmed(s).len() == 0 <==> id_of(s, address) is None,
{
}

proof fn lemma_best_is_one(ids: Seq<IdV>, who: Asker)
    ensures
        best(ids, who) >= -1,
        best(ids, who) >= 0 ==> exists|j: int|
            0 <= j < ids.len() && identifies(#[trigger] ids[j], who) && id_rank(ids[j]) == best(ids, who),
    decreases ids.len(),
{
    if ids.len() > 0 {
        let d = ids.drop_last();
        lemma_best_is_one(d, who);
        if identifies(ids.last(), who) && id_rank(ids.last()) > best(d, who) {
            assert(ids[ids.len() - 1] == ids.last());
        } else if best(d, who) >= 0 {
            let j = choose|j: int| 0 <= j < d.len() && identifies(#[trigger] d[j], who) && id_rank(d[j]) == best(d, who);
            assert(ids[j] == d[j]);
        }
    }
}

proof fn lemma_top(ids: Seq<Seq<IdV>>, who: Asker, n: int) -> (t: int)
    requires
        0 < n <= ids.len(),
    ensures
        0 <= t < n,
        forall|j: int| 0 <= j < n ==> best(#[trigger] ids[j], who) <= best(ids[t], who),
        forall|j: int| t < j < n ==> best(#[trigger] ids[j], who) < best(ids[t], who),
    decreases n,
{
    if n == 1 {
        0
    } else {
        let t = lemma_top(ids, who, n - 1);
        if best(ids[n - 1], who) >= best(ids[t], who) {
            n - 1
        } else {
            t
        }
    }
}

/// A request is somebody's exactly where some identifier of some client
/// matches it, and then it is one client's: one of whose identifiers matches.
pub proof fn law_somebodys(ids: Seq<Seq<IdV>>, who: Asker, i: int, j: int)
    ensures
        0 <= i < ids.len() && 0 <= j < ids[i].len() && identifies(ids[i][j], who) ==> {
            &&& exists|k: int| belongs(ids, who, k)
            &&& best(ids[i], who) != -1
        },
        (forall|x: int, y: int|
            0 <= x < ids.len() && 0 <= y < ids[x].len() ==> !identifies(#[trigger] ids[x][y], who)) ==> forall|k: int|
            !belongs(ids, who, k),
        belongs(ids, who, i) ==> exists|y: int| 0 <= y < ids[i].len() && identifies(#[trigger] ids[i][y], who),
        belongs(ids, who, i) && belongs(ids, who, j) ==> i == j,
{
    if 0 <= i < ids.len() && 0 <= j < ids[i].len() && identifies(ids[i][j], who) {
        lemma_best(ids[i], who, j);
        let t = lemma_top(ids, who, ids.len() as int);
        assert(best(ids[i], who) <= best(ids[t], who));
        assert(belongs(ids, who, t));
    }
    if belongs(ids, who, i) {
        lemma_best_is_one(ids[i], who);
    }
    assert forall|k: int| belongs(ids, who, k) implies exists|x: int, y: int|
        0 <= x < ids.len() && 0 <= y < ids[x].len() && identifies(#[trigger] ids[x][y], who) by {
        lemma_best_is_one(ids[k], who);
        let y = choose|y: int| 0 <= y < ids[k].len() && identifies(#[trigger] ids[k][y], who);
        assert(identifies(ids[k][y], who));
    }
    if belongs(ids, who, i) && belongs(ids, who, j) {
        assert(best(ids[j], who) <= best(ids[i], who));
        assert(best(ids[i], who) <= best(ids[j], who));
    }
}

/// A client that is known by an address is always there to be found for a
/// request from it: whatever the request carries, it is some client's.
pub proof fn law_found_by_address(
    ids: Seq<Seq<IdV>>,
    i: int,
    j: int,
    a: Ip,
    client_id: Option<Seq<char>>,
    mac: Option<Seq<char>>,
)
    requires
        0 <= i < ids.len(),
        0 <= j < ids[i].len(),
        ids[i][j] == IdV::Addr(a),
    ensures
        exists|k: int| belongs(ids, Asker { addr: Some(a), client_id, mac }, k),
{
    law_somebodys(ids, Asker { addr: Some(a), client_id, mac }, i, j);
}

/// Among clients that match, the kinds of identifier decide: a ClientID over
/// a hardware address over an address over a subnet, a longer prefix over a
/// shorter; and where both match by the same, the later client has it.
pub proof fn law_whose(ids: Seq<Seq<IdV>>, who: Asker, a: int, b: int)
    requires
        0 <= a < ids.len(),
        0 <= b < ids.len(),
        ids[a].len() == 1 && ids[b].len() == 1 && ids.len() == 2,
        a != b,
        identifies(ids[a][0], who),
        identifies(ids[b][0], who),
    ensures
        (ids[a][0] is Named && !(ids[b][0] is Named)) ==> belongs(ids, who, a),
        (ids[a][0] is Mac && (ids[b][0] is Addr || ids[b][0] is Net)) ==> belongs(ids, who, a),
        (ids[a][0] is Addr && ids[b][0] is Net) ==> belongs(ids, who, a),
        (ids[a][0] is Net && ids[b][0] is Net && ids[a][0]->Net_1 > ids[b][0]->Net_1) ==> belongs(ids, who, a),
        (ids[a][0] == ids[b][0]) ==> belongs(
            ids,
            who,
            if a > b {
                a
            } else {
                b
            },
        ),
{
    lemma_best(ids[a], who, 0);
    lemma_best(ids[b], who, 0);
    lemma_best_at_most(ids[a], who, id_rank(ids[a][0]) as int);
    lemma_best_at_most(ids[b], who, id_rank(ids[b][0]) as int);
}

/// A client built from its configuration is what the configuration says: its
/// own services apply only where the global ones do not and it names some,
/// and its own safe search only where the global settings do not.
pub proof fn law_built(c: Persistent, spec: PersistentSpec, address: spec_fn(Seq<char>) -> Option<Ip>)
    requires
        c.is_of(spec, address),
    ensures
        spec.use_global_blocked_services ==> c.services is None,
        spec.blocked_services@.len() == 0 ==> c.services is None,
        !spec.use_global_blocked_services && spec.blocked_services@.len() > 0 ==> (c.services matches Some(s) && strings(s@)
            == strings(spec.blocked_services@)),
        c.own_safe_search != spec.use_global_settings,
        c.name@ == spec.name@,
        c.filtering_enabled == spec.filtering_enabled && c.use_global_settings == spec.use_global_settings,
        c.use_global_blocked_services == spec.use_global_blocked_services,
        c.ignore_querylog == spec.ignore_querylog && c.ignore_statistics == spec.ignore_statistics,
        strings(c.tags@) == strings(spec.tags@) && strings(c.upstreams@) == strings(spec.upstreams@),
        c.upstream_key is None == upstreams_key(strings(spec.upstreams@)) is None,
        c.upstream_key matches Some(k) ==> upstreams_key(strings(spec.upstreams@)) == Some(k@),
        forall|i: int|
            0 <= i < spec.ids@.len() ==> (id_of((#[trigger] spec.ids@[i])@, address) matches Some(id) ==> c.known_by().contains(
                id,
            )),
{
    let f = |s: Seq<char>| id_of(s, address);
    let all = strings(spec.ids@);
    assert forall|i: int| 0 <= i < spec.ids@.len() implies (id_of((#[trigger] spec.ids@[i])@, address) matches Some(id)
        ==> c.known_by().contains(id)) by {
        assert(all[i] == spec.ids@[i]@);
        lemma_picked_has(all, f, i);
    }
}

/// What an item is picked as is among what was picked.
pub proof fn lemma_picked_has<A, B>(s: Seq<A>, f: spec_fn(A) -> Option<B>, i: int)
    requires
        0 <= i < s.len(),
    ensures
        f(s[i]) matches Some(b) ==> picked(s, f).contains(b),
    decreases s.len(),
{
    if f(s[i]) is Some {
        let b = f(s[i])->0;
        let p = picked(s, f);
        let d = picked(s.drop_last(), f);
        if i < s.len() - 1 {
            assert(s.drop_last()[i] == s[i]);
            lemma_picked_has(s.drop_last(), f, i);
            let k = d.index_of(b);
            assert(p[k] == b);
        } else {
            assert(p[p.len() - 1] == b);
        }
    }
}

/// Upstreams are told apart by the lines that say something: a blank line or
/// a comment makes no difference, the white space around one none, and each
/// line that says something comes on after those before it.
pub proof fn law_upstreams(lines: Seq<Seq<char>>, l: Seq<char>)
    ensures
        upstreams_key(Seq::empty()) is None,
        trimmed(l).len() == 0 || trimmed(l)[0] == '#' ==> upstreams_key(lines.push(l)) == upstreams_key(lines),
        trimmed(l).len() > 0 && trimmed(l)[0] != '#' ==> upstreams_key(lines.push(l)) == Some(
            match upstreams_key(lines) {
                Some(k) => k + seq!['\n'] + trimmed(l),
                None => trimmed(l),
            },
        ),
{
    let f = |s: Seq<char>| upstream_line(s);
    let p = lines.push(l);
    assert(p.drop_last() =~= lines);
    assert(p.last() == l);
    let k = upstream_lines(lines);
    assert(k.push(trimmed(l)).drop_last() =~= k);
    if upstream_line(l) is Some {
        assert(upstream_lines(p) == k.push(trimmed(l)));
        assert(join(k.push(trimmed(l)), seq!['\n']) =~= if k.len() == 0 {
            trimmed(l)
        } else {
            join(k, seq!['\n']) + seq!['\n'] + trimmed(l)
        });
    } else {
        assert(upstream_lines(p) == k);
    }
}

/// The names that discovery brings are held in the order of how far they are
/// to be trusted: the hosts file, a lease, the neighbour table, a reverse
/// lookup, and a WHOIS record the least.
pub proof fn law_trust(c: ClientV, n: Seq<char>)
    requires
        c.name.len() > 0,
    ensures
        c.source == Some(Source::Hosts) ==> {
            &&& changed(c, ChangeV::Name(n, Source::Dhcp)) == c
            &&& changed(c, ChangeV::Name(n, Source::Arp)) == c
            &&& changed(c, ChangeV::Name(n, Source::Rdns)) == c
            &&& changed(c, ChangeV::Name(n, Source::Whois)) == c
        },
        c.source == Some(Source::Dhcp) ==> {
            &&& changed(c, ChangeV::Name(n, Source::Hosts)).name == n
            &&& changed(c, ChangeV::Name(n, Source::Arp)) == c
            &&& changed(c, ChangeV::Name(n, Source::Rdns)) == c
            &&& changed(c, ChangeV::Name(n, Source::Whois)) == c
        },
        c.source == Some(Source::Arp) ==> {
            &&& changed(c, ChangeV::Name(n, Source::Hosts)).name == n
            &&& changed(c, ChangeV::Name(n, Source::Dhcp)).name == n
            &&& changed(c, ChangeV::Name(n, Source::Rdns)) == c
            &&& changed(c, ChangeV::Name(n, Source::Whois)) == c
        },
        c.source == Some(Source::Rdns) ==> {
            &&& changed(c, ChangeV::Name(n, Source::Hosts)).name == n
            &&& changed(c, ChangeV::Name(n, Source::Dhcp)).name == n
            &&& changed(c, ChangeV::Name(n, Source::Arp)).name == n
            &&& changed(c, ChangeV::Name(n, Source::Whois)) == c
        },
        c.source == Some(Source::Whois) || c.source is None ==> {
            &&& changed(c, ChangeV::Name(n, Source::Hosts)).name == n
            &&& changed(c, ChangeV::Name(n, Source::Dhcp)).name == n
            &&& changed(c, ChangeV::Name(n, Source::Arp)).name == n
            &&& changed(c, ChangeV::Name(n, Source::Rdns)).name == n
        },
{
}

/// A name that replaces one of the same source, or comes where none was, is
/// taken with its source; each kind of discovery leaves the others alone.
pub proof fn law_discovery(c: ClientV, n: Seq<char>, s: Source, m: Seq<char>, w: Seq<(Seq<char>, Seq<char>)>)
    ensures
        c.name.len() == 0 || c.source == Some(s) || c.source is None ==> changed(c, ChangeV::Name(n, s)) == (ClientV {
            name: n,
            source: Some(s),
            mac: c.mac,
            whois: c.whois,
        }),
        changed(c, ChangeV::Name(n, s)).mac == c.mac,
        changed(c, ChangeV::Name(n, s)).whois == c.whois,
        changed(c, ChangeV::Name(n, s)).source == c.source || changed(c, ChangeV::Name(n, s)).source == Some(s),
        (changed(c, ChangeV::Name(n, s)).source == c.source || c.source != Some(s)) ==> (changed(
            c,
            ChangeV::Name(n, s),
        ).name == n || changed(c, ChangeV::Name(n, s)) == c),
        changed(c, ChangeV::Mac(m)) == (ClientV { name: c.name, source: c.source, mac: Some(m), whois: c.whois }),
        changed(c, ChangeV::Whois(w)) == (ClientV { name: c.name, source: c.source, mac: c.mac, whois: w }),
        says_something(changed(nobody(), ChangeV::Mac(m))),
        says_something(changed(nobody(), ChangeV::Name(n, s))) == (n.len() > 0),
        says_something(changed(nobody(), ChangeV::Whois(w))) == (w.len() > 0),
{
}

/// What this machine supplied is anchored: a hardware address, or a name out
/// of the hosts file, the neighbour table or a lease. What the network taught
/// is not.
pub proof fn law_anchored(c: ClientV)
    ensures
        c.mac is Some ==> is_anchored(c),
        c.source == Some(Source::Hosts) || c.source == Some(Source::Arp) || c.source == Some(Source::Dhcp) ==> is_anchored(c),
        c.mac is None && (c.source is None || c.source == Some(Source::Rdns) || c.source == Some(Source::Whois))
            ==> !is_anchored(c),
{
}

/// What is missed the most: a neighbour over a stranger, whatever either has
/// done; and of two of a kind, the one that came back ten minutes or more
/// after it was first seen and has been heard of within the day.
pub proof fn law_worth(a: Ip, b: Ip, first: u32, seen: u32, first2: u32, seen2: u32, now: u32)
    requires
        inside_any(canonical(a), local_nets()),
        !inside_any(canonical(b), local_nets()),
    ensures
        worth_of(a, first, seen, now) > worth_of(b, first2, seen2, now),
        (seen >= first + 600 && now < seen + 86_400) && !(seen2 >= first2 + 600 && now < seen2 + 86_400) ==> {
            &&& worth_of(a, first, seen, now) > worth_of(a, first2, seen2, now)
            &&& worth_of(b, first, seen, now) > worth_of(b, first2, seen2, now)
        },
        (seen >= first + 600 && now < seen + 86_400) == (seen2 >= first2 + 600 && now < seen2 + 86_400) ==> {
            &&& worth_of(a, first, seen, now) == worth_of(a, first2, seen2, now)
            &&& worth_of(b, first, seen, now) == worth_of(b, first2, seen2, now)
        },
{
}

/// When room is made, nothing goes that is worth more than something kept, and
/// of what is worth the same the longest unheard of goes first; what stays is
/// as it was, and exactly as much stays as was to be kept.
pub proof fn law_giving_up(
    before: Map<(u8, u128), SlotV>,
    after: Map<(u8, u128), SlotV>,
    keep: int,
    now: u32,
    gone: Ip,
    kept: Ip,
)
    requires
        evicted_to(before, after, keep, now),
        before.contains_key(addr_key(gone)),
        !after.contains_key(addr_key(gone)),
        after.contains_key(addr_key(kept)),
    ensures
        !is_anchored(before[addr_key(gone)].client),
        after[addr_key(kept)] == before[addr_key(kept)],
        !is_anchored(after[addr_key(kept)].client) ==> {
            let g = before[addr_key(gone)];
            let k = after[addr_key(kept)];
            &&& worth_of(gone, g.first, g.seen, now) <= worth_of(kept, k.first, k.seen, now)
            &&& worth_of(gone, g.first, g.seen, now) == worth_of(kept, k.first, k.seen, now) ==> g.seen <= k.seen
        },
        after.dom().filter(|x: (u8, u128)| !is_anchored(after[x].client)).len() == keep,
{
    law_addresses_are_told_apart(gone, addr_key(gone));
    law_addresses_are_told_apart(kept, addr_key(kept));
    assert(before.contains_key(addr_key(kept)));
    assert(after.dom().filter(|x: (u8, u128)| !is_anchored(after[x].client)) =~= learned_keys(after));
}

/// What a discovery does to the store. It changes the one entry it is about;
/// an entry that is there keeps its times, and a new one is as old as it is
/// heard of. With room, or from this machine, nothing else is touched.
pub proof fn law_discovered(
    before: Map<(u8, u128), SlotV>,
    after: Map<(u8, u128), SlotV>,
    cap: int,
    addr: Ip,
    ch: ChangeV,
    now: u32,
    other: (u8, u128),
)
    requires
        updated(before, after, cap, addr_key(addr), ch, now),
        other != addr_key(addr),
    ensures
        before.contains_key(addr_key(addr)) ==> {
            let was = before[addr_key(addr)];
            &&& after.contains_key(addr_key(addr))
            &&& after[addr_key(addr)].client == changed(was.client, ch)
            &&& after[addr_key(addr)].first == was.first
            &&& after[addr_key(addr)].seen == was.seen
            &&& after.contains_key(other) == before.contains_key(other)
            &&& before.contains_key(other) ==> after[other] == before[other]
        },
        !before.contains_key(addr_key(addr)) && !says_something(changed(nobody(), ch)) ==> after == before,
        !before.contains_key(addr_key(addr)) && says_something(changed(nobody(), ch)) ==> {
            &&& after.contains_key(addr_key(addr))
            &&& after[addr_key(addr)].client == changed(nobody(), ch)
            &&& after[addr_key(addr)].first == now
            &&& after[addr_key(addr)].seen == now
            &&& !before.contains_key(other) ==> !after.contains_key(other)
            &&& learned_keys(before).len() < cap || is_anchored(changed(nobody(), ch)) ==> {
                &&& after.contains_key(other) == before.contains_key(other)
                &&& before.contains_key(other) ==> after[other] == before[other]
            }
        },
{
    if !before.contains_key(addr_key(addr)) && !before.contains_key(other) {
        if after.contains_key(other) {
            assert(after.remove(addr_key(addr)).contains_key(other));
        }
    }
}

/// Making room frees a tenth of what the store may hold, and always at least
/// one place.
pub proof fn law_room(cap: int)
    requires
        cap >= 1,
    ensures
        0 <= kept_of(cap) < cap,
        cap >= 10 ==> 10 * (cap - kept_of(cap)) <= cap < 10 * (cap - kept_of(cap) + 1),
        cap < 10 ==> kept_of(cap) == cap - 1,
{
}

} // verus!
