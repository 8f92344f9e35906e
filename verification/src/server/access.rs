//! Which clients may query this server.

use vstd::prelude::*;
use vstd::slice::slice_subrange;
use vstd::string::*;

use crate::asked::{answer, ask, settled};
use crate::ip::Ip;
use crate::text::{chars_of, find, first_at, string_of, strings};

verus! {

/// One entry of an access list: an address, a network or a ClientID.
#[derive(Clone, Debug, PartialEq, Eq)]
pub enum AccessEntry {
    /// One exact address.
    Ip(Ip),
    /// A network, as an address and a prefix length.
    Net(Ip, u8),
    /// A ClientID.
    Id(String),
}

/// An access-list entry, with its text as a sequence.
pub enum EntryV {
    Ip(Ip),
    Net(Ip, u8),
    Id(Seq<char>),
}

impl AccessEntry {
    /// The entry, with its text as a sequence.
    pub open spec fn view(&self) -> EntryV {
        match *self {
            AccessEntry::Ip(ip) => EntryV::Ip(ip),
            AccessEntry::Net(ip, bits) => EntryV::Net(ip, bits),
            AccessEntry::Id(s) => EntryV::Id(s@),
        }
    }
}

/// A letter or digit of ASCII.
pub open spec fn alphanumeric(c: char) -> bool {
    ('a' <= c && c <= 'z') || ('A' <= c && c <= 'Z') || ('0' <= c && c <= '9')
}

/// Whether a text is a usable ClientID: a single DNS label, of 1 to 63
/// letters, digits and hyphens, with no hyphen at either end.
pub open spec fn client_id(s: Seq<char>) -> bool {
    &&& 0 < s.len() <= 63
    &&& s[0] != '-'
    &&& s.last() != '-'
    &&& forall|i: int| 0 <= i < s.len() ==> alphanumeric(#[trigger] s[i]) || s[i] == '-'
}

/// Whether every character is a letter, a digit or a hyphen.
fn label_chars(c: &[char]) -> (r: bool)
    ensures
        r == (forall|i: int| 0 <= i < c@.len() ==> alphanumeric(#[trigger] c@[i]) || c@[i] == '-'),
{
    let mut i: usize = 0;
    while i < c.len()
        invariant
            i <= c@.len(),
            forall|k: int| 0 <= k < i ==> alphanumeric(#[trigger] c@[k]) || c@[k] == '-',
        decreases c@.len() - i,
    {
        let x = c[i];
        if !(('a' <= x && x <= 'z') || ('A' <= x && x <= 'Z') || ('0' <= x && x <= '9') || x == '-') {
            assert(!(alphanumeric(c@[i as int]) || c@[i as int] == '-'));
            return false;
        }
        i = i + 1;
    }
    true
}

/// Whether `c` is a usable ClientID.
pub(crate) fn valid_id(c: &[char]) -> (r: bool)
    ensures
        r == client_id(c@),
{
    let n: usize = c.len();
    n > 0 && n <= 63 && c[0] != '-' && c[n - 1] != '-' && label_chars(c)
}

/// Reports whether a string is a usable ClientID.
pub fn is_valid_client_id(s: &str) -> (r: bool)
    ensures
        r == client_id(s@),
{
    let c = chars_of(s);
    valid_id(c.as_slice())
}

/// Whether every character is a decimal digit.
pub open spec fn digits(s: Seq<char>) -> bool {
    forall|i: int| 0 <= i < s.len() ==> '0' <= #[trigger] s[i] && s[i] <= '9'
}

/// The number that decimal digits make.
pub open spec fn decimal(s: Seq<char>) -> int
    decreases s.len(),
{
    if s.len() == 0 {
        0
    } else {
        decimal(s.drop_last()) * 10 + (s.last() as int - '0' as int)
    }
}

/// The number below 256 that a text spells: decimal digits, at least one,
/// after an optional plus sign.
pub open spec fn small_number(s: Seq<char>) -> Option<u8> {
    let d = if s.len() > 0 && s[0] == '+' { s.skip(1) } else { s };
    if d.len() > 0 && digits(d) && decimal(d) <= 255 {
        Some(decimal(d) as u8)
    } else {
        None
    }
}

proof fn lemma_decimal_grows(s: Seq<char>, i: int)
    requires
        0 <= i <= s.len(),
        digits(s),
    ensures
        0 <= decimal(s.take(i)) <= decimal(s),
    decreases s.len() - i,
{
    lemma_decimal_positive(s.take(i));
    if i < s.len() {
        lemma_decimal_grows(s, i + 1);
        assert(s.take(i + 1).drop_last() =~= s.take(i));
        assert(s.take(i + 1).last() == s[i]);
    } else {
        assert(s.take(i) =~= s);
    }
}

pub(crate) proof fn lemma_decimal_positive(s: Seq<char>)
    requires
        digits(s),
    ensures
        0 <= decimal(s),
    decreases s.len(),
{
    if s.len() > 0 {
        assert('0' <= s[s.len() - 1]);
        assert forall|i: int| 0 <= i < s.len() - 1 implies '0' <= #[trigger] s.drop_last()[i] && s.drop_last()[i] <= '9' by {
            assert('0' <= s[i] && s[i] <= '9');
        }
        lemma_decimal_positive(s.drop_last());
    }
}

/// Reads a number below 256.
pub(crate) fn read_small(c: &[char]) -> (r: Option<u8>)
    ensures
        r == small_number(c@),
{
    let n: usize = c.len();
    let d = if n > 0 && c[0] == '+' {
        slice_subrange(c, 1, n)
    } else {
        c
    };
    assert(n > 0 && c@[0] == '+' ==> d@ =~= c@.skip(1));
    if d.len() == 0 || !all_digits(d) {
        return None;
    }
    let mut v: u32 = 0;
    let mut i: usize = 0;
    assert(d@.take(0) =~= Seq::<char>::empty());
    while i < d.len()
        invariant
            i <= d@.len(),
            digits(d@),
            v == decimal(d@.take(i as int)),
            v <= 255,
            r_for(c@, d@),
            d@.len() > 0,
        decreases d@.len() - i,
    {
        proof {
            assert(d@.take(i + 1).drop_last() =~= d@.take(i as int));
            assert(d@.take(i + 1).last() == d@[i as int]);
            assert('0' <= d@[i as int] && d@[i as int] <= '9');
            lemma_decimal_grows(d@, i + 1);
        }
        v = v * 10 + (d[i] as u32 - '0' as u32);
        if v > 255 {
            return None;
        }
        i = i + 1;
    }
    assert(d@.take(i as int) =~= d@);
    Some(v as u8)
}

/// Whether `d` is what is left of `s` after its sign.
spec fn r_for(s: Seq<char>, d: Seq<char>) -> bool {
    d == if s.len() > 0 && s[0] == '+' {
        s.skip(1)
    } else {
        s
    }
}

fn all_digits(c: &[char]) -> (r: bool)
    ensures
        r == digits(c@),
{
    let mut i: usize = 0;
    while i < c.len()
        invariant
            i <= c@.len(),
            forall|k: int| 0 <= k < i ==> '0' <= #[trigger] c@[k] && c@[k] <= '9',
        decreases c@.len() - i,
    {
        if !('0' <= c[i] && c[i] <= '9') {
            assert(!('0' <= c@[i as int] && c@[i as int] <= '9'));
            return false;
        }
        i = i + 1;
    }
    true
}

/// Which of the three forms a text is, where `address` says which address one
/// spells. An address comes first, then a network, then a ClientID. A prefix
/// too long for its family is none of them.
pub open spec fn entry_of(s: Seq<char>, address: spec_fn(Seq<char>) -> Option<Ip>) -> Option<EntryV> {
    let slash = first_at(s, '/');
    let addr = address(s.take(slash));
    let bits = small_number(s.skip(slash + 1));
    match address(s) {
        Some(ip) => Some(EntryV::Ip(ip)),
        None => if slash < s.len() && addr is Some && bits is Some {
            if bits->0 <= (if addr->0 is V4 {
                32int
            } else {
                128int
            }) {
                Some(EntryV::Net(addr->0, bits->0))
            } else {
                None
            }
        } else if client_id(s) {
            Some(EntryV::Id(s))
        } else {
            None
        },
    }
}

/// Classifies one access-list entry, or `None` when it is none of the three.
pub fn parse_access_entry<A: Fn(&str) -> Option<Ip>>(s: &str, address: &A) -> (r: Option<AccessEntry>)
    requires
        settled(*address),
    ensures
        match (r, entry_of(s@, |t: Seq<char>| answer(*address, t))) {
            (Some(e), Some(v)) => e@ == v,
            (None, None) => true,
            _ => false,
        },
{
    if let Some(ip) = ask(address, s) {
        return Some(AccessEntry::Ip(ip));
    }
    let c = chars_of(s);
    let n: usize = c.len();
    let slash = find(c.as_slice(), '/');
    if slash < n {
        let head = string_of(slice_subrange(c.as_slice(), 0, slash));
        assert(head@ =~= s@.take(slash as int));
        let rest = slice_subrange(c.as_slice(), slash + 1, n);
        assert(rest@ =~= s@.skip(slash + 1));
        if let Some(ip) = ask(address, head.as_str()) {
            if let Some(bits) = read_small(rest) {
                let width: u8 = if ip.is_ipv4() {
                    32
                } else {
                    128
                };
                if bits <= width {
                    return Some(AccessEntry::Net(ip, bits));
                }
                return None;
            }
        }
    }
    if valid_id(c.as_slice()) {
        return Some(AccessEntry::Id(s.to_owned()));
    }
    None
}

/// `v` with every bit below the top `bits` of a `width`-bit address zero.
pub open spec fn masked(v: u128, bits: u8, width: u32) -> u128 {
    if bits >= width {
        v
    } else if width - bits >= 128 {
        0
    } else {
        (v >> ((width - bits) as u128)) << ((width - bits) as u128)
    }
}

/// Zeroes every bit of `v` below the top `bits` of a `width`-bit address.
pub fn mask_bits(v: u128, bits: u8, width: u32) -> (r: u128)
    ensures
        r == masked(v, bits, width),
{
    if bits as u32 >= width {
        return v;
    }
    let d: u32 = width - bits as u32;
    if d >= 128 {
        return 0;
    }
    let d: u128 = d as u128;
    (v >> d) << d
}

/// Whether an address falls inside a network: of the same family, and the
/// same in the network's bits. Host bits in the network are ignored.
pub open spec fn within(ip: Ip, net: Ip, bits: u8) -> bool {
    match (ip, net) {
        (Ip::V4(a), Ip::V4(n)) => masked(a as u128, bits, 32) == masked(n as u128, bits, 32),
        (Ip::V6(a), Ip::V6(n)) => masked(a, bits, 128) == masked(n, bits, 128),
        _ => false,
    }
}

/// Reports whether `ip` falls inside the network `net/bits`.
pub fn in_net(ip: Ip, net: Ip, bits: u8) -> (r: bool)
    ensures
        r == within(ip, net, bits),
{
    match (ip, net) {
        (Ip::V4(a), Ip::V4(n)) => mask_bits(a as u128, bits, 32) == mask_bits(n as u128, bits, 32),
        (Ip::V6(a), Ip::V6(n)) => mask_bits(a, bits, 128) == mask_bits(n, bits, 128),
        _ => false,
    }
}

proof fn lemma_shift_back(a: u128, d: u128)
    by (bit_vector)
    requires
        d < 128,
    ensures
        ((a >> d) << d) >> d == a >> d,
{
}

proof fn lemma_shift_mask(a: u128, b: u128, d: u128)
    requires
        d < 128,
    ensures
        ((a >> d) << d == (b >> d) << d) == (a >> d == b >> d),
{
    lemma_shift_back(a, d);
    lemma_shift_back(b, d);
}

proof fn lemma_shift_narrow(a: u32, b: u32, d: u32)
    by (bit_vector)
    requires
        d < 32,
    ensures
        (((a as u128) >> (d as u128)) == ((b as u128) >> (d as u128))) == (a >> d == b >> d),
{
}

proof fn lemma_shift_all(a: u32)
    by (bit_vector)
    ensures
        ((a as u128) >> 32u128) << 32u128 == 0,
{
}

/// A network here and a subnet of a client are one notion: an address is in
/// the one where it is in the other, for every length the family has.
pub proof fn law_one_notion_of_network(ip: Ip, net: Ip, bits: u8)
    requires
        net is V4 ==> bits <= 32,
        net is V6 ==> bits <= 128,
    ensures
        within(ip, net, bits) == crate::clients::inside(ip, net, bits),
{
    match (ip, net) {
        (Ip::V4(a), Ip::V4(n)) => {
            let d = (32 - bits) as u32;
            if 0 < bits < 32 {
                lemma_shift_mask(a as u128, n as u128, d as u128);
                lemma_shift_narrow(a, n, d);
            } else if bits == 0 {
                lemma_shift_all(a);
                lemma_shift_all(n);
            } else {
                lemma_shift_narrow(a, n, 0);
                assert(a >> 0u32 == a && n >> 0u32 == n) by (bit_vector);
            }
        },
        (Ip::V6(a), Ip::V6(n)) => {
            let d = (128 - bits) as u128;
            if 0 < bits < 128 {
                lemma_shift_mask(a, n, d);
            } else if bits == 128 {
                assert(a >> 0u128 == a && n >> 0u128 == n) by (bit_vector);
            }
        },
        _ => {},
    }
}

/// One side of the access lists, sorted into the forms it accepts.
#[derive(Clone, Debug)]
pub struct AccessList {
    /// Exact addresses.
    ips: Vec<Ip>,
    /// Networks.
    nets: Vec<(Ip, u8)>,
    /// ClientIDs.
    ids: Vec<String>,
}

/// A side of the access lists, with texts as sequences.
#[verifier::ext_equal]
pub ghost struct ListV {
    pub ips: Seq<Ip>,
    pub nets: Seq<(Ip, u8)>,
    pub ids: Seq<Seq<char>>,
}

/// An access list with nothing in it.
pub open spec fn no_list() -> ListV {
    ListV { ips: Seq::empty(), nets: Seq::empty(), ids: Seq::empty() }
}

/// What the entries make, each in its form and in order. An entry that is
/// none of the three adds nothing.
pub open spec fn sorted_into(entries: Seq<Seq<char>>, address: spec_fn(Seq<char>) -> Option<Ip>) -> ListV
    decreases entries.len(),
{
    if entries.len() == 0 {
        no_list()
    } else {
        let l = sorted_into(entries.drop_last(), address);
        match entry_of(entries.last(), address) {
            Some(EntryV::Ip(ip)) => ListV { ips: l.ips.push(ip), ..l },
            Some(EntryV::Net(ip, bits)) => ListV { nets: l.nets.push((ip, bits)), ..l },
            Some(EntryV::Id(id)) => ListV { ids: l.ids.push(id), ..l },
            None => l,
        }
    }
}

/// Whether nothing at all is listed.
pub open spec fn lists_nothing(l: ListV) -> bool {
    l.ips.len() == 0 && l.nets.len() == 0 && l.ids.len() == 0
}

/// Whether an address is listed, by itself or by a network.
pub open spec fn lists_ip(l: ListV, ip: Ip) -> bool {
    l.ips.contains(ip) || exists|i: int| 0 <= i < l.nets.len() && within(ip, (#[trigger] l.nets[i]).0, l.nets[i].1)
}

/// Whether a ClientID is listed. None is never listed.
pub open spec fn lists_id(l: ListV, id: Option<Seq<char>>) -> bool {
    match id {
        Some(s) => l.ids.contains(s),
        None => false,
    }
}

impl AccessList {
    /// The list, with texts as sequences.
    pub closed spec fn view(&self) -> ListV {
        ListV { ips: self.ips@, nets: self.nets@, ids: strings(self.ids@) }
    }

    /// A list with nothing in it.
    pub fn none() -> (r: Self)
        ensures
            r@ == no_list(),
    {
        let r = AccessList { ips: Vec::new(), nets: Vec::new(), ids: Vec::new() };
        assert(r@ =~= no_list());
        r
    }

    /// Sorts configured entries into the three forms. An entry that is none
    /// of them is dropped.
    pub fn parse<A: Fn(&str) -> Option<Ip>>(entries: &[String], address: &A) -> (r: Self)
        requires
            settled(*address),
        ensures
            r@ == sorted_into(strings(entries@), |t: Seq<char>| answer(*address, t)),
    {
        let ghost f = |t: Seq<char>| answer(*address, t);
        let ghost es = strings(entries@);
        let mut out = Self::none();
        let mut i: usize = 0;
        assert(es.take(0) =~= Seq::<Seq<char>>::empty());
        while i < entries.len()
            invariant
                settled(*address),
                f == (|t: Seq<char>| answer(*address, t)),
                es == strings(entries@),
                i <= entries@.len(),
                out@ == sorted_into(es.take(i as int), f),
            decreases entries@.len() - i,
        {
            let ghost before = out@;
            proof {
                assert(es.take(i + 1).drop_last() =~= es.take(i as int));
                assert(es.take(i + 1).last() == entries@[i as int]@);
            }
            match parse_access_entry(entries[i].as_str(), address) {
                Some(AccessEntry::Ip(ip)) => {
                    out.ips.push(ip);
                },
                Some(AccessEntry::Net(ip, bits)) => {
                    out.nets.push((ip, bits));
                },
                Some(AccessEntry::Id(id)) => {
                    out.ids.push(id);
                    assert(strings(out.ids@) =~= before.ids.push(id@));
                },
                None => {},
            }
            assert(out@ =~= sorted_into(es.take(i + 1), f));
            i = i + 1;
        }
        assert(es.take(i as int) =~= es);
        out
    }

    /// Reports whether nothing at all is listed.
    pub fn is_empty(&self) -> (r: bool)
        ensures
            r == lists_nothing(self@),
    {
        self.ips.len() == 0 && self.nets.len() == 0 && self.ids.len() == 0
    }

    /// Reports whether an address is listed, by itself or by a network.
    fn has_ip(&self, ip: Ip) -> (r: bool)
        ensures
            r == lists_ip(self@, ip),
    {
        let mut i: usize = 0;
        while i < self.ips.len()
            invariant
                i <= self.ips@.len(),
                forall|k: int| 0 <= k < i ==> self.ips@[k] != ip,
            decreases self.ips@.len() - i,
        {
            if self.ips[i] == ip {
                assert(self@.ips.contains(ip));
                return true;
            }
            i = i + 1;
        }
        let mut i: usize = 0;
        while i < self.nets.len()
            invariant
                !self@.ips.contains(ip),
                i <= self.nets@.len(),
                forall|k: int| 0 <= k < i ==> !within(ip, (#[trigger] self.nets@[k]).0, self.nets@[k].1),
            decreases self.nets@.len() - i,
        {
            if in_net(ip, self.nets[i].0, self.nets[i].1) {
                assert(within(ip, self@.nets[i as int].0, self@.nets[i as int].1));
                return true;
            }
            i = i + 1;
        }
        false
    }

    /// Reports whether a ClientID is listed. A request that carries none
    /// matches nothing.
    fn has_id(&self, id: Option<&str>) -> (r: bool)
        ensures
            r == lists_id(
                self@,
                match id {
                    Some(s) => Some(s@),
                    None => None,
                },
            ),
    {
        let s = match id {
            None => {
                return false;
            },
            Some(s) => s,
        };
        let c = chars_of(s);
        let mut i: usize = 0;
        while i < self.ids.len()
            invariant
                c@ == s@,
                id == Some(s),
                i <= self.ids@.len(),
                forall|k: int| 0 <= k < i ==> (#[trigger] self.ids@[k])@ != s@,
            decreases self.ids@.len() - i,
        {
            let x = chars_of(self.ids[i].as_str());
            if crate::text::same(x.as_slice(), c.as_slice()) {
                assert(self@.ids[i as int] == s@);
                return true;
            }
            i = i + 1;
        }
        assert forall|k: int| 0 <= k < self@.ids.len() implies self@.ids[k] != s@ by {
            assert(self.ids@[k]@ != s@);
        }
        false
    }
}

/// Whether a client may query: in allowlist mode where its address or its
/// ClientID is listed, otherwise where neither is listed as disallowed.
pub open spec fn permitted(allowed: ListV, disallowed: ListV, ip: Ip, id: Option<Seq<char>>) -> bool {
    if !lists_nothing(allowed) {
        lists_ip(allowed, ip) || lists_id(allowed, id)
    } else {
        !lists_ip(disallowed, ip) && !lists_id(disallowed, id)
    }
}

/// With nothing listed, everyone may query.
pub proof fn law_no_lists_permit_everyone(ip: Ip, id: Option<Seq<char>>)
    ensures
        permitted(no_list(), no_list(), ip, id),
{
}

/// Which clients may query this server.
#[derive(Clone, Debug)]
pub struct Access {
    /// If anything is listed, only these clients may query.
    pub allowed: AccessList,
    /// These clients may not query.
    pub disallowed: AccessList,
}

impl Default for Access {
    fn default() -> (r: Self)
        ensures
            r.allowed@ == no_list(),
            r.disallowed@ == no_list(),
    {
        Access { allowed: AccessList::none(), disallowed: AccessList::none() }
    }
}

impl Access {
    /// Builds the access control from the two configured lists.
    pub fn new<A: Fn(&str) -> Option<Ip>>(allowed: &[String], disallowed: &[String], address: &A) -> (r: Self)
        requires
            settled(*address),
        ensures
            r.allowed@ == sorted_into(strings(allowed@), |t: Seq<char>| answer(*address, t)),
            r.disallowed@ == sorted_into(strings(disallowed@), |t: Seq<char>| answer(*address, t)),
    {
        Access { allowed: AccessList::parse(allowed, address), disallowed: AccessList::parse(disallowed, address) }
    }

    /// Reports whether a client may query.
    ///
    /// In allowlist mode a client is refused only when its address and its
    /// ClientID both are, in blocklist mode either one is enough.
    pub fn permits(&self, ip: Ip, client_id: Option<&str>) -> (r: bool)
        ensures
            r == permitted(
                self.allowed@,
                self.disallowed@,
                ip,
                match client_id {
                    Some(s) => Some(s@),
                    None => None,
                },
            ),
    {
        if !self.allowed.is_empty() {
            return self.allowed.has_ip(ip) || self.allowed.has_id(client_id);
        }
        !self.disallowed.has_ip(ip) && !self.disallowed.has_id(client_id)
    }
}

} // verus!
