//! The key identifying a cached response.

use std::sync::Arc;

use vstd::prelude::*;
use vstd::string::*;
use vstd::utf8::*;

use crate::message::{Message, MessageV};
use crate::packed::{be16, be32};

verus! {

/// Shares a vector's items, by the standard library's `From<Vec<T>>` for
/// `Arc<[T]>`: the same items, in the same order.
#[verifier::external_body]
fn shared(v: Vec<u8>) -> (r: Arc<[u8]>)
    ensures
        r@ == v@,
{
    Arc::from(v)
}

/// The key identifying a cached response.
#[derive(Clone, Debug, PartialEq, Eq)]
pub struct Key {
    /// The question name, lowercased, in wire form: each label behind its
    /// length, without the root's terminating zero.
    pub name: Arc<[u8]>,
    /// The question type.
    pub qtype: u16,
    /// The question class.
    pub qclass: u16,
    /// Whether the query asked for DNSSEC records.
    pub dnssec_ok: bool,
    /// Which upstreams answered, when they were not the global ones. Boxed,
    /// because few keys have any.
    pub upstreams: Option<Box<String>>,
}

/// A key, with its parts as sequences.
pub ghost struct KeyV {
    pub name: Seq<u8>,
    pub qtype: u16,
    pub qclass: u16,
    pub dnssec_ok: bool,
    pub upstreams: Option<Seq<char>>,
}

/// A byte, in lower case where it is an ASCII letter.
pub open spec fn lower_byte(b: u8) -> u8 {
    if 65 <= b <= 90 {
        (b + 32) as u8
    } else {
        b
    }
}

/// Bytes, in lower case.
pub open spec fn lower_bytes(s: Seq<u8>) -> Seq<u8> {
    s.map_values(|b: u8| lower_byte(b))
}

/// Eight bytes, the highest first.
pub open spec fn be64(n: int) -> Seq<u8> {
    be32(n / 0x1_0000_0000) + be32(n % 0x1_0000_0000)
}

/// Whether a request asks for DNSSEC records: by the header's
/// authentic-data bit, or by the highest flag of an OPT record.
pub open spec fn asks_dnssec(m: MessageV) -> bool {
    m.metadata.authentic_data || (m.edns matches Some(e) && e.head.flags >= 0x8000)
}

/// Reports whether a request asks for DNSSEC records.
pub fn wants_dnssec(req: &Message) -> (r: bool)
    ensures
        r == asks_dnssec(req@),
{
    if req.metadata.authentic_data {
        return true;
    }
    match &req.edns {
        Some(e) => e.head.flags >= 0x8000,
        None => false,
    }
}

/// A key as bytes.
pub open spec fn key_bytes(k: KeyV) -> Seq<u8> {
    be16(k.qtype as int) + be16(k.qclass as int) + seq![
        if k.dnssec_ok {
            1u8
        } else {
            0u8
        },
        if k.upstreams is Some {
            1u8
        } else {
            0u8
        },
    ] + be64(k.name.len() as int) + k.name + (match k.upstreams {
        Some(u) => encode_utf8(u),
        None => Seq::empty(),
    })
}

impl Key {
    /// The key, with its parts as sequences.
    pub open spec fn view(&self) -> KeyV {
        KeyV {
            name: self.name@,
            qtype: self.qtype,
            qclass: self.qclass,
            dnssec_ok: self.dnssec_ok,
            upstreams: match self.upstreams {
                Some(u) => Some(u@),
                None => None,
            },
        }
    }

    /// Derives a cache key from a request, or `None` when it has no question.
    pub fn from_request(req: &Message) -> (r: Option<Self>)
        ensures
            match r {
                Some(k) => req@.queries.len() > 0 && k@ == (KeyV {
                    name: lower_bytes(req@.queries[0].name),
                    qtype: req@.queries[0].qtype,
                    qclass: req@.queries[0].qclass,
                    dnssec_ok: asks_dnssec(req@),
                    upstreams: None,
                }),
                None => req@.queries.len() == 0,
            },
    {
        if req.queries.len() == 0 {
            return None;
        }
        let q = &req.queries[0];
        assert(q@ == req@.queries[0]);
        let w = q.name.wire();
        let mut name: Vec<u8> = Vec::new();
        let mut i: usize = 0;
        while i < w.len()
            invariant
                i <= w@.len(),
                name@ =~= lower_bytes(w@.take(i as int)),
            decreases w@.len() - i,
        {
            let b: u8 = w[i];
            name.push(
                if 65 <= b && b <= 90 {
                    b + 32
                } else {
                    b
                },
            );
            i = i + 1;
        }
        assert(w@.take(i as int) =~= w@);
        Some(Key { name: shared(name), qtype: q.qtype, qclass: q.qclass, dnssec_ok: wants_dnssec(req), upstreams: None })
    }

    /// Scopes the key to a client's own upstreams.
    pub fn for_upstreams(self, upstreams: Option<String>) -> (r: Self)
        ensures
            r@ == (KeyV {
                upstreams: match upstreams {
                    Some(u) => Some(u@),
                    None => None,
                },
                ..self@
            }),
    {
        let upstreams = match upstreams {
            Some(u) => Some(Box::new(u)),
            None => None,
        };
        Key { name: self.name, qtype: self.qtype, qclass: self.qclass, dnssec_ok: self.dnssec_ok, upstreams }
    }

    /// The key as bytes.
    pub(crate) fn bytes(&self) -> (r: Vec<u8>)
        ensures
            r@ == key_bytes(self@),
    {
        let mut out: Vec<u8> = Vec::new();
        let n: u64 = self.name.len() as u64;
        push16(&mut out, self.qtype);
        push16(&mut out, self.qclass);
        out.push(
            if self.dnssec_ok {
                1
            } else {
                0
            },
        );
        out.push(
            if self.upstreams.is_some() {
                1
            } else {
                0
            },
        );
        let ghost head = be16(self.qtype as int) + be16(self.qclass as int) + seq![
            if self.dnssec_ok {
                1u8
            } else {
                0u8
            },
            if self.upstreams is Some {
                1u8
            } else {
                0u8
            },
        ];
        assert(out@ =~= head);
        let hi: u32 = (n / 0x1_0000_0000) as u32;
        let lo: u32 = (n % 0x1_0000_0000) as u32;
        push32(&mut out, hi);
        push32(&mut out, lo);
        assert(out@ =~= head + be64(n as int));
        out.extend_from_slice(&*self.name);
        assert(out@ =~= head + be64(n as int) + self.name@);
        match &self.upstreams {
            Some(u) => {
                out.extend_from_slice(u.as_str().as_bytes());
            },
            None => {},
        }
        assert(out@ =~= key_bytes(self@));
        out
    }
}

fn push16(out: &mut Vec<u8>, n: u16)
    ensures
        final(out)@ == old(out)@ + be16(n as int),
{
    out.push((n / 256) as u8);
    out.push((n % 256) as u8);
    assert(out@ =~= old(out)@ + be16(n as int));
}

fn push32(out: &mut Vec<u8>, n: u32)
    ensures
        final(out)@ == old(out)@ + be32(n as int),
{
    push16(out, (n / 65536) as u16);
    push16(out, (n % 65536) as u16);
    proof {
        assert(be32(n as int).take(2) =~= be16(n as int / 65536));
        assert(be32(n as int).skip(2) =~= be16(n as int % 65536));
        assert(out@ =~= old(out)@ + be32(n as int));
    }
}

proof fn lemma_parts(k: KeyV)
    ensures
        key_bytes(k).len() >= 14 + k.name.len(),
        key_bytes(k).subrange(0, 2) == be16(k.qtype as int),
        key_bytes(k).subrange(2, 4) == be16(k.qclass as int),
        key_bytes(k)[4] == if k.dnssec_ok {
            1u8
        } else {
            0u8
        },
        key_bytes(k)[5] == if k.upstreams is Some {
            1u8
        } else {
            0u8
        },
        key_bytes(k).subrange(6, 10) == be32(k.name.len() as int / 0x1_0000_0000),
        key_bytes(k).subrange(10, 14) == be32(k.name.len() as int % 0x1_0000_0000),
        key_bytes(k).subrange(14, 14 + k.name.len() as int) == k.name,
        k.upstreams matches Some(u) ==> key_bytes(k).skip(14 + k.name.len() as int) == encode_utf8(u),
{
    let x = key_bytes(k);
    assert(x.subrange(0, 2) =~= be16(k.qtype as int));
    assert(x.subrange(2, 4) =~= be16(k.qclass as int));
    assert(x.subrange(6, 10) =~= be32(k.name.len() as int / 0x1_0000_0000));
    assert(x.subrange(10, 14) =~= be32(k.name.len() as int % 0x1_0000_0000));
    assert(x.subrange(14, 14 + k.name.len() as int) =~= k.name);
    if let Some(u) = k.upstreams {
        assert(x.skip(14 + k.name.len() as int) =~= encode_utf8(u));
    }
}

proof fn lemma_be16(n: int, m: int)
    requires
        0 <= n < 0x1_0000,
        0 <= m < 0x1_0000,
        be16(n) == be16(m),
    ensures
        n == m,
{
    let x = be16(n);
    let y = be16(m);
    assert(x[0] == (n / 256 % 256) as u8 && x[1] == (n % 256) as u8);
    assert(y[0] == (m / 256 % 256) as u8 && y[1] == (m % 256) as u8);
}

proof fn lemma_be32(n: int, m: int)
    requires
        0 <= n < 0x1_0000_0000,
        0 <= m < 0x1_0000_0000,
        be32(n) == be32(m),
    ensures
        n == m,
{
    assert(be32(n).take(2) =~= be16(n / 65536));
    assert(be32(n).skip(2) =~= be16(n % 65536));
    assert(be32(m).take(2) =~= be16(m / 65536));
    assert(be32(m).skip(2) =~= be16(m % 65536));
    lemma_be16(n / 65536, m / 65536);
    lemma_be16(n % 65536, m % 65536);
}

/// Keys that differ are told apart: in name, type, class, the DNSSEC bit or
/// the upstreams.
pub proof fn law_keys_are_told_apart(a: KeyV, b: KeyV)
    requires
        key_bytes(a) == key_bytes(b),
        a.name.len() <= u64::MAX,
        b.name.len() <= u64::MAX,
    ensures
        a == b,
{
    lemma_parts(a);
    lemma_parts(b);
    let n = a.name.len() as int;
    let m = b.name.len() as int;
    lemma_be16(a.qtype as int, b.qtype as int);
    lemma_be16(a.qclass as int, b.qclass as int);
    lemma_be32(n / 0x1_0000_0000, m / 0x1_0000_0000);
    lemma_be32(n % 0x1_0000_0000, m % 0x1_0000_0000);
    assert(n == m);
    if a.upstreams is Some {
        crate::utf::lemma_encode_injective(a.upstreams->0, b.upstreams->0);
    }
}

} // verus!
