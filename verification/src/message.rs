//! DNS messages, as plain values.

use vstd::prelude::*;

use crate::packed::all_records;

verus! {

/// The type of an address record.
pub const A: u16 = 1;

/// The type of a `CNAME` record.
pub const CNAME: u16 = 5;

/// The most bytes the labels of a name take, each behind its length.
pub const MAX_NAME: usize = 254;

/// The most bytes one label has.
pub const MAX_LABEL: u8 = 63;

/// Whether `w` is labels, each behind its length.
pub open spec fn labels_ok(w: Seq<u8>) -> bool
    decreases w.len(),
{
    w.len() == 0 || (0 < w[0] <= MAX_LABEL && w.len() > w[0] && labels_ok(w.skip(w[0] + 1)))
}

/// Whether `w` is a name: labels, each behind its length, without the root's
/// terminating zero.
pub open spec fn valid_name(w: Seq<u8>) -> bool {
    w.len() <= MAX_NAME && labels_ok(w)
}

/// A domain name, spelled as it was.
#[derive(Debug, PartialEq, Eq)]
pub struct Name {
    wire: Vec<u8>,
}

impl Name {
    /// The labels, each behind its length.
    pub closed spec fn view(&self) -> Seq<u8> {
        self.wire@
    }

    #[verifier::type_invariant]
    spec fn is_valid(self) -> bool {
        valid_name(self.wire@)
    }

    /// A name is valid.
    pub fn known(&self)
        ensures
            valid_name(self@),
    {
        proof {
            use_type_invariant(self);
        }
    }

    /// The name whose labels these bytes are, each behind its length.
    pub fn from_wire(wire: &[u8]) -> (r: Option<Self>)
        ensures
            match r {
                Some(n) => valid_name(wire@) && n@ == wire@,
                None => !valid_name(wire@),
            },
    {
        if wire.len() > MAX_NAME {
            return None;
        }
        if !are_labels(wire) {
            return None;
        }
        let mut v: Vec<u8> = Vec::new();
        v.extend_from_slice(wire);
        assert(v@ =~= wire@);
        Some(Name { wire: v })
    }

    /// The labels, each behind its length.
    pub fn wire(&self) -> (r: &[u8])
        ensures
            r@ == self@,
    {
        self.wire.as_slice()
    }

    /// The same name.
    pub fn copy(&self) -> (r: Self)
        ensures
            r@ == self@,
    {
        proof {
            use_type_invariant(self);
        }
        let mut v: Vec<u8> = Vec::new();
        v.extend_from_slice(self.wire.as_slice());
        assert(v@ =~= self.wire@);
        Name { wire: v }
    }

    /// Whether two names are spelled the same, case and all.
    pub fn eq_case(&self, other: &Name) -> (r: bool)
        ensures
            r == (self@ == other@),
    {
        same_bytes(self.wire.as_slice(), other.wire.as_slice())
    }
}

/// Whether `w` is labels, each behind its length.
fn are_labels(w: &[u8]) -> (r: bool)
    ensures
        r == labels_ok(w@),
{
    let n: usize = w.len();
    let mut i: usize = 0;
    assert(w@.skip(0) =~= w@);
    while i < n
        invariant
            i <= n,
            n == w@.len(),
            labels_ok(w@) == labels_ok(w@.skip(i as int)),
        decreases n - i,
    {
        let k: usize = w[i] as usize;
        assert(w@.skip(i as int)[0] == w@[i as int]);
        if k == 0 || k > MAX_LABEL as usize || n - i <= k {
            return false;
        }
        assert(w@.skip(i as int).skip(k + 1) =~= w@.skip(i + k + 1));
        i = i + k + 1;
    }
    true
}

/// Whether two byte strings are the same.
pub fn same_bytes(a: &[u8], b: &[u8]) -> (r: bool)
    ensures
        r == (a@ == b@),
{
    if a.len() != b.len() {
        return false;
    }
    let mut i: usize = 0;
    while i < a.len()
        invariant
            a@.len() == b@.len(),
            i <= a@.len(),
            forall|k: int| 0 <= k < i ==> a@[k] == b@[k],
        decreases a@.len() - i,
    {
        if a[i] != b[i] {
            return false;
        }
        i = i + 1;
    }
    assert(a@ =~= b@);
    true
}

/// A copy of some bytes.
pub fn copy_bytes(a: &[u8]) -> (r: Vec<u8>)
    ensures
        r@ == a@,
{
    let mut v: Vec<u8> = Vec::new();
    v.extend_from_slice(a);
    assert(v@ =~= a@);
    v
}

/// The header of a message, but for its counts.
#[derive(Clone, Copy, Debug, PartialEq, Eq, Structural)]
pub struct Metadata {
    pub id: u16,
    /// Whether it is a response.
    pub response: bool,
    pub op_code: u8,
    pub authoritative: bool,
    pub truncation: bool,
    pub recursion_desired: bool,
    pub recursion_available: bool,
    pub authentic_data: bool,
    pub checking_disabled: bool,
    /// The response code, with the high bits that an OPT record carries.
    pub response_code: u16,
}

/// A question.
#[derive(Debug, PartialEq, Eq)]
pub struct Query {
    pub name: Name,
    pub qtype: u16,
    pub qclass: u16,
}

/// A resource record, with its data in wire form.
#[derive(Debug, PartialEq, Eq)]
pub struct Record {
    pub name: Name,
    pub rtype: u16,
    pub class: u16,
    pub ttl: u32,
    pub data: Vec<u8>,
}

/// The part of an OPT record that is the same size in every response.
#[derive(Clone, Copy, Debug, PartialEq, Eq, Structural)]
pub struct OptHead {
    pub rcode_high: u8,
    pub version: u8,
    pub flags: u16,
    pub max_payload: u16,
}

/// An OPT record, with its options in wire form.
#[derive(Debug, PartialEq, Eq)]
pub struct Edns {
    pub head: OptHead,
    pub options: Vec<u8>,
}

/// A message.
#[derive(Debug, PartialEq, Eq)]
pub struct Message {
    pub metadata: Metadata,
    pub queries: Vec<Query>,
    pub answers: Vec<Record>,
    pub authorities: Vec<Record>,
    pub additionals: Vec<Record>,
    pub edns: Option<Edns>,
    /// Whether it carries a signature over the exchange.
    pub signed: bool,
}

/// A question, with its name as a sequence.
pub ghost struct QueryV {
    pub name: Seq<u8>,
    pub qtype: u16,
    pub qclass: u16,
}

/// A record, with its parts as sequences.
pub ghost struct RecordV {
    pub name: Seq<u8>,
    pub rtype: u16,
    pub class: u16,
    pub ttl: u32,
    pub data: Seq<u8>,
}

/// An OPT record, with its options as a sequence.
pub ghost struct EdnsV {
    pub head: OptHead,
    pub options: Seq<u8>,
}

/// A message, with its parts as sequences.
#[verifier::ext_equal]
pub ghost struct MessageV {
    pub metadata: Metadata,
    pub queries: Seq<QueryV>,
    pub answers: Seq<RecordV>,
    pub authorities: Seq<RecordV>,
    pub additionals: Seq<RecordV>,
    pub edns: Option<EdnsV>,
    pub signed: bool,
}

impl Query {
    pub open spec fn view(&self) -> QueryV {
        QueryV { name: self.name@, qtype: self.qtype, qclass: self.qclass }
    }
}

impl Record {
    pub open spec fn view(&self) -> RecordV {
        RecordV { name: self.name@, rtype: self.rtype, class: self.class, ttl: self.ttl, data: self.data@ }
    }
}

impl Edns {
    pub open spec fn view(&self) -> EdnsV {
        EdnsV { head: self.head, options: self.options@ }
    }
}

/// Questions, each with its name as a sequence.
pub open spec fn queries_of(q: Seq<Query>) -> Seq<QueryV> {
    q.map_values(|x: Query| x@)
}

/// Records, each with its parts as sequences.
pub open spec fn records_of(r: Seq<Record>) -> Seq<RecordV> {
    r.map_values(|x: Record| x@)
}

impl Message {
    pub open spec fn view(&self) -> MessageV {
        MessageV {
            metadata: self.metadata,
            queries: queries_of(self.queries@),
            answers: records_of(self.answers@),
            authorities: records_of(self.authorities@),
            additionals: records_of(self.additionals@),
            edns: match self.edns {
                Some(e) => Some(e@),
                None => None,
            },
            signed: self.signed,
        }
    }
}

/// A response as it is sent to whoever asks `req`: under the request's
/// identifier, with its questions as it spelled them and the two flags that a
/// response repeats, and without an OPT record where the request has none.
pub open spec fn readdressed(req: MessageV, m: MessageV) -> MessageV {
    MessageV {
        metadata: Metadata {
            id: req.metadata.id,
            recursion_desired: req.metadata.recursion_desired,
            checking_disabled: req.metadata.checking_disabled,
            ..m.metadata
        },
        queries: req.queries,
        edns: if req.edns is None {
            None
        } else {
            m.edns
        },
        ..m
    }
}

impl Query {
    /// The same question.
    pub fn copy(&self) -> (r: Self)
        ensures
            r@ == self@,
    {
        Query { name: self.name.copy(), qtype: self.qtype, qclass: self.qclass }
    }
}

/// Addresses a response to whoever asks `req`.
pub fn readdress(req: &Message, m: &mut Message)
    ensures
        final(m)@ == readdressed(req@, old(m)@),
{
    let mut queries: Vec<Query> = Vec::new();
    let n: usize = req.queries.len();
    let mut i: usize = 0;
    while i < n
        invariant
            i <= n,
            n == req.queries@.len(),
            queries@.len() == i,
            forall|k: int| 0 <= k < i ==> (#[trigger] queries@[k])@ == req.queries@[k]@,
        decreases n - i,
    {
        queries.push(req.queries[i].copy());
        i = i + 1;
    }
    assert(queries_of(queries@) =~= queries_of(req.queries@));
    m.metadata.id = req.metadata.id;
    m.metadata.recursion_desired = req.metadata.recursion_desired;
    m.metadata.checking_disabled = req.metadata.checking_disabled;
    m.queries = queries;
    if req.edns.is_none() {
        m.edns = None;
    }
    assert(m@ =~= readdressed(req@, old(m)@));
}

/// The least TTL of some records, where there are any.
pub open spec fn least_in(s: Seq<RecordV>) -> Option<u32>
    decreases s.len(),
{
    if s.len() == 0 {
        None
    } else {
        let last = s.last().ttl;
        match least_in(s.drop_last()) {
            Some(t) if t < last => Some(t),
            _ => Some(last),
        }
    }
}

/// The least TTL is one that a record carries, and none carries a lesser.
/// There is none only where there are no records.
pub proof fn law_least_ttl(s: Seq<RecordV>)
    ensures
        match least_in(s) {
            None => s.len() == 0,
            Some(t) => (exists|i: int| 0 <= i < s.len() && (#[trigger] s[i]).ttl == t) && forall|i: int|
                0 <= i < s.len() ==> t <= (#[trigger] s[i]).ttl,
        },
    decreases s.len(),
{
    if s.len() > 0 {
        let d = s.drop_last();
        law_least_ttl(d);
        assert forall|i: int| 0 <= i < s.len() implies least_in(s)->0 <= (#[trigger] s[i]).ttl by {
            if i < d.len() {
                assert(d[i] == s[i]);
            }
        }
        if least_in(s) == Some(s.last().ttl) {
            assert(s[s.len() - 1].ttl == s.last().ttl);
        } else {
            let i = choose|i: int| 0 <= i < d.len() && (#[trigger] d[i]).ttl == least_in(d)->0;
            assert(s[i] == d[i]);
        }
    }
}

/// The least TTL of what was seen and of one more section.
fn least_with(seen: Option<u32>, s: &Vec<Record>, Ghost(before): Ghost<Seq<RecordV>>) -> (r: Option<u32>)
    requires
        seen == least_in(before),
    ensures
        r == least_in(before + records_of(s@)),
{
    let n: usize = s.len();
    let mut least = seen;
    let mut i: usize = 0;
    assert(before + records_of(s@).take(0) =~= before);
    while i < n
        invariant
            i <= n,
            n == s@.len(),
            least == least_in(before + records_of(s@).take(i as int)),
        decreases n - i,
    {
        let ttl: u32 = s[i].ttl;
        proof {
            let now = before + records_of(s@).take(i + 1);
            assert(now.drop_last() =~= before + records_of(s@).take(i as int));
            assert(now.last() == s@[i as int]@);
        }
        least = match least {
            Some(t) if t < ttl => Some(t),
            _ => Some(ttl),
        };
        i = i + 1;
    }
    assert(records_of(s@).take(n as int) =~= records_of(s@));
    least
}

/// The least TTL that the records of a message carry, or `None` where it has
/// no records at all.
pub fn least_ttl(m: &Message) -> (r: Option<u32>)
    ensures
        r == least_in(all_records(m@)),
{
    let none: Option<u32> = None;
    let a = least_with(none, &m.answers, Ghost(Seq::empty()));
    assert(Seq::<RecordV>::empty() + m@.answers =~= m@.answers);
    let b = least_with(a, &m.authorities, Ghost(m@.answers));
    least_with(b, &m.additionals, Ghost(m@.answers + m@.authorities))
}

/// Whether every name in a message is valid.
pub open spec fn names_valid(m: MessageV) -> bool {
    &&& forall|i: int| 0 <= i < m.queries.len() ==> valid_name(#[trigger] m.queries[i].name)
    &&& owners_valid(m.answers)
    &&& owners_valid(m.authorities)
    &&& owners_valid(m.additionals)
}

/// Whether every owner in a section is a valid name.
pub open spec fn owners_valid(s: Seq<RecordV>) -> bool {
    forall|i: int| 0 <= i < s.len() ==> valid_name(#[trigger] s[i].name)
}

} // verus!
