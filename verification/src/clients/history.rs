//! What holds of a store of discovered clients, whatever is called on it.

use vstd::prelude::*;

use crate::clients::runtime::{
    ChangeV, SlotV, Source, addr_key, changed, coherent, is_anchored, kept_of, law_anchored_stays, law_stays_anchored,
    learned_keys, lemma_learned_insert, nobody, says_something, updated,
};
use crate::ip::Ip;
use crate::text::lower;

verus! {

/// A call that records something, or notes that an address was seen.
pub ghost enum CallV {
    SetName(Ip, Seq<char>, Source, u32),
    SetMac(Ip, Seq<char>, u32),
    SetWhois(Ip, Seq<(Seq<char>, Seq<char>)>, u32),
    Touch(Ip, u32),
}

/// Whether `after` is what a call makes of `before`.
pub open spec fn call_makes(
    before: Map<(u8, u128), SlotV>,
    after: Map<(u8, u128), SlotV>,
    cap: int,
    c: CallV,
) -> bool {
    match c {
        CallV::SetName(addr, name, source, now) => if name.len() == 0 {
            after == before
        } else {
            updated(before, after, cap, addr_key(addr), ChangeV::Name(name, source), now)
        },
        CallV::SetMac(addr, mac, now) => if mac.len() == 0 {
            after == before
        } else {
            updated(before, after, cap, addr_key(addr), ChangeV::Mac(lower(mac)), now)
        },
        CallV::SetWhois(addr, fields, now) => updated(
            before,
            after,
            cap,
            addr_key(addr),
            ChangeV::Whois(fields),
            now,
        ),
        CallV::Touch(addr, now) => {
            let k = addr_key(addr);
            after == if before.contains_key(k) && before[k].seen < now {
                before.insert(k, SlotV { seen: now, ..before[k] })
            } else {
                before
            }
        },
    }
}

/// The address a call is about.
pub open spec fn about(c: CallV) -> (u8, u128) {
    match c {
        CallV::SetName(addr, _, _, _) => addr_key(addr),
        CallV::SetMac(addr, _, _) => addr_key(addr),
        CallV::SetWhois(addr, _, _) => addr_key(addr),
        CallV::Touch(addr, _) => addr_key(addr),
    }
}

/// Whether a call has something to show for its address: a name, a hardware
/// address or WHOIS fields.
pub open spec fn brings(c: CallV) -> bool {
    match c {
        CallV::SetName(_, name, _, _) => name.len() > 0,
        CallV::SetMac(_, mac, _) => mac.len() > 0,
        CallV::SetWhois(_, fields, _) => fields.len() > 0,
        CallV::Touch(_, _) => false,
    }
}

/// Whether a store that began empty went through these states by these calls.
pub open spec fn went_through(states: Seq<Map<(u8, u128), SlotV>>, calls: Seq<CallV>, cap: int) -> bool {
    &&& states.len() == calls.len() + 1
    &&& states[0] == Map::<(u8, u128), SlotV>::empty()
    &&& forall|i: int| 0 <= i < calls.len() ==> call_makes(states[i], states[i + 1], cap, #[trigger] calls[i])
}

/// Whether a state is bounded and hangs together.
spec fn in_bounds(m: Map<(u8, u128), SlotV>, cap: int) -> bool {
    &&& m.dom().finite()
    &&& learned_keys(m).len() <= cap
    &&& forall|k: (u8, u128)| #[trigger] m.contains_key(k) ==> coherent(m[k].client)
}

/// Whether what this machine supplied to `a` is still so in `b`.
spec fn keeps_anchored(a: Map<(u8, u128), SlotV>, b: Map<(u8, u128), SlotV>) -> bool {
    forall|k: (u8, u128)| #[trigger]
        a.contains_key(k) && is_anchored(a[k].client) ==> b.contains_key(k) && is_anchored(b[k].client)
}

proof fn lemma_updated(
    before: Map<(u8, u128), SlotV>,
    after: Map<(u8, u128), SlotV>,
    cap: int,
    k: (u8, u128),
    ch: ChangeV,
    now: u32,
)
    requires
        cap >= 1,
        in_bounds(before, cap),
        updated(before, after, cap, k, ch, now),
        ch matches ChangeV::Name(n, _) ==> n.len() > 0,
    ensures
        in_bounds(after, cap),
        keeps_anchored(before, after),
{
    assert forall|held: (u8, u128)| #[trigger] before.contains_key(held) && is_anchored(before[held].client) implies after.contains_key(
        held,
    ) && is_anchored(after[held].client) by {
        law_anchored_stays(before, after, cap, k, ch, now, held);
        if held == k {
            law_stays_anchored(before[held].client, ch);
        }
    }
    if before.contains_key(k) {
        let s = SlotV { client: changed(before[k].client, ch), ..before[k] };
        lemma_learned_insert(before, k, s);
        if is_anchored(before[k].client) {
            law_stays_anchored(before[k].client, ch);
        }
    } else {
        let c = changed(nobody(), ch);
        let s = SlotV { client: c, first: now, seen: now };
        if says_something(c) {
            if !is_anchored(c) && learned_keys(before).len() >= cap {
                let mid = after.remove(k);
                assert(mid.dom().subset_of(before.dom()));
                vstd::set_lib::lemma_len_subset(mid.dom(), before.dom());
                assert(after =~= mid.insert(k, s));
                lemma_learned_insert(mid, k, s);
                assert forall|q: (u8, u128)| #[trigger] after.contains_key(q) implies coherent(after[q].client) by {
                    if q != k {
                        assert(mid.contains_key(q));
                        assert(before.contains_key(q) && before[q] == mid[q]);
                    }
                }
            } else {
                lemma_learned_insert(before, k, s);
            }
        }
    }
}

proof fn lemma_call(before: Map<(u8, u128), SlotV>, after: Map<(u8, u128), SlotV>, cap: int, c: CallV)
    requires
        cap >= 1,
        in_bounds(before, cap),
        call_makes(before, after, cap, c),
    ensures
        in_bounds(after, cap),
        keeps_anchored(before, after),
        brings(c) || before.contains_key(about(c)) ==> after.contains_key(about(c)),
{
    match c {
        CallV::SetName(addr, name, source, now) => {
            if name.len() > 0 {
                lemma_updated(before, after, cap, addr_key(addr), ChangeV::Name(name, source), now);
            }
        },
        CallV::SetMac(addr, mac, now) => {
            if mac.len() > 0 {
                lemma_updated(before, after, cap, addr_key(addr), ChangeV::Mac(lower(mac)), now);
            }
        },
        CallV::SetWhois(addr, fields, now) => {
            lemma_updated(before, after, cap, addr_key(addr), ChangeV::Whois(fields), now);
        },
        CallV::Touch(addr, now) => {
            let k = addr_key(addr);
            if before.contains_key(k) && before[k].seen < now {
                lemma_learned_insert(before, k, SlotV { seen: now, ..before[k] });
            }
        },
    }
}

proof fn lemma_went_through(states: Seq<Map<(u8, u128), SlotV>>, calls: Seq<CallV>, cap: int, from: int, to: int)
    requires
        cap >= 1,
        went_through(states, calls, cap),
        0 <= from <= to < states.len(),
    ensures
        in_bounds(states[from], cap),
        in_bounds(states[to], cap),
        keeps_anchored(states[from], states[to]),
    decreases to, from,
{
    if to > from {
        lemma_went_through(states, calls, cap, from, to - 1);
        assert(call_makes(states[to - 1], states[to], cap, calls[to - 1]));
        lemma_call(states[to - 1], states[to], cap, calls[to - 1]);
        assert forall|k: (u8, u128)| #[trigger] states[from].contains_key(k) && is_anchored(
            states[from][k].client,
        ) implies states[to].contains_key(k) && is_anchored(states[to][k].client) by {
            assert(states[to - 1].contains_key(k));
        }
    } else if to > 0 {
        lemma_went_through(states, calls, cap, 0, to - 1);
        assert(call_makes(states[to - 1], states[to], cap, calls[to - 1]));
        lemma_call(states[to - 1], states[to], cap, calls[to - 1]);
    } else {
        assert(learned_keys(states[0]) =~= Set::<(u8, u128)>::empty());
    }
}

/// Whatever is called on a store that began empty, in whatever order: the
/// network never teaches it more entries than its cap; what this machine
/// supplied is never given up nor forgotten to be such; and an address is known
/// right after a call that brings something for it, or that found it known.
pub proof fn law_store_over_time(
    states: Seq<Map<(u8, u128), SlotV>>,
    calls: Seq<CallV>,
    cap: int,
    from: int,
    to: int,
    k: (u8, u128),
)
    requires
        cap >= 1,
        went_through(states, calls, cap),
        0 <= from <= to < states.len(),
    ensures
        learned_keys(states[to]).len() <= cap,
        states[from].contains_key(k) && is_anchored(states[from][k].client) ==> states[to].contains_key(k) && is_anchored(
            states[to][k].client,
        ),
        to > 0 && (brings(calls[to - 1]) || states[to - 1].contains_key(about(calls[to - 1]))) ==> states[to].contains_key(
            about(calls[to - 1]),
        ),
{
    lemma_went_through(states, calls, cap, from, to);
    if to > 0 {
        lemma_went_through(states, calls, cap, to - 1, to - 1);
        assert(call_makes(states[to - 1], states[to], cap, calls[to - 1]));
        lemma_call(states[to - 1], states[to], cap, calls[to - 1]);
    }
}

} // verus!
