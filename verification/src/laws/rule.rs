//! What the lines of a filter list stand for.

use vstd::prelude::*;
use vstd::string::*;

use crate::laws::text::{alike, law_alike, law_first_place, law_lower, law_parts_are_found, law_splitting};
use crate::rule::parse::{
    anchor_of, cosmetic, domain_chars, host_address, host_names, inert, network_of, no_rule, opens_regex, options_at, options_of,
    outcome, pattern_of, rcode, regex_ended, rewrite_of, rr_type, split_body, str_list, text_view, type_list, with_option, ErrorV, Known,
    ParseError, PatternFacts, PatternV, Rule,
};
use crate::multi::picked;
use crate::rule::parse::{after_address, first_space, host_name, space_marks};
use crate::rule::{no_options, unrestricted, OptionsV, RewriteV};
use crate::text::{
    begins, escaped, first_at, has_text, is_ascii_space, marks, strip_back, join, lemma_split_front,
    lemma_split_none, lower, split, split_bare, trimmed,
};

verus! {

proof fn lemma_code_words()
    ensures
        lower("NOERROR"@).len() == 7 && lower("NOERROR"@)[0] == 'n' && lower("NOERROR"@)[1] == 'o' && lower("NOERROR"@)[2] == 'e' && lower("NOERROR"@)[3] == 'r' && lower("NOERROR"@)[4] == 'r' && lower("NOERROR"@)[5] == 'o' && lower("NOERROR"@)[6] == 'r',
        lower("FORMERR"@).len() == 7 && lower("FORMERR"@)[0] == 'f' && lower("FORMERR"@)[1] == 'o' && lower("FORMERR"@)[2] == 'r' && lower("FORMERR"@)[3] == 'm' && lower("FORMERR"@)[4] == 'e' && lower("FORMERR"@)[5] == 'r' && lower("FORMERR"@)[6] == 'r',
        lower("SERVFAIL"@).len() == 8 && lower("SERVFAIL"@)[0] == 's' && lower("SERVFAIL"@)[1] == 'e' && lower("SERVFAIL"@)[2] == 'r' && lower("SERVFAIL"@)[3] == 'v' && lower("SERVFAIL"@)[4] == 'f' && lower("SERVFAIL"@)[5] == 'a' && lower("SERVFAIL"@)[6] == 'i' && lower("SERVFAIL"@)[7] == 'l',
        lower("NXDOMAIN"@).len() == 8 && lower("NXDOMAIN"@)[0] == 'n' && lower("NXDOMAIN"@)[1] == 'x' && lower("NXDOMAIN"@)[2] == 'd' && lower("NXDOMAIN"@)[3] == 'o' && lower("NXDOMAIN"@)[4] == 'm' && lower("NXDOMAIN"@)[5] == 'a' && lower("NXDOMAIN"@)[6] == 'i' && lower("NXDOMAIN"@)[7] == 'n',
        lower("NOTIMP"@).len() == 6 && lower("NOTIMP"@)[0] == 'n' && lower("NOTIMP"@)[1] == 'o' && lower("NOTIMP"@)[2] == 't' && lower("NOTIMP"@)[3] == 'i' && lower("NOTIMP"@)[4] == 'm' && lower("NOTIMP"@)[5] == 'p',
        lower("REFUSED"@).len() == 7 && lower("REFUSED"@)[0] == 'r' && lower("REFUSED"@)[1] == 'e' && lower("REFUSED"@)[2] == 'f' && lower("REFUSED"@)[3] == 'u' && lower("REFUSED"@)[4] == 's' && lower("REFUSED"@)[5] == 'e' && lower("REFUSED"@)[6] == 'd',
{
    reveal_strlit("NOERROR");
    law_lower("NOERROR"@);
    reveal_strlit("FORMERR");
    law_lower("FORMERR"@);
    reveal_strlit("SERVFAIL");
    law_lower("SERVFAIL"@);
    reveal_strlit("NXDOMAIN");
    law_lower("NXDOMAIN"@);
    reveal_strlit("NOTIMP");
    law_lower("NOTIMP"@);
    reveal_strlit("REFUSED");
    law_lower("REFUSED"@);
}

/// The numbers of the response codes, by name, whatever the case of its letters.
pub proof fn law_codes_by_name(s: Seq<char>)
    ensures
        alike(s, "NOERROR"@) ==> rcode(s) == Some(0u16),
        alike(s, "FORMERR"@) ==> rcode(s) == Some(1u16),
        alike(s, "SERVFAIL"@) ==> rcode(s) == Some(2u16),
        alike(s, "NXDOMAIN"@) ==> rcode(s) == Some(3u16),
        alike(s, "NOTIMP"@) ==> rcode(s) == Some(4u16),
        alike(s, "REFUSED"@) ==> rcode(s) == Some(5u16),
        !alike(s, "NOERROR"@) && !alike(s, "FORMERR"@) && !alike(s, "SERVFAIL"@) && !alike(s, "NXDOMAIN"@) && !alike(s, "NOTIMP"@) && !alike(s, "REFUSED"@) ==> rcode(s) is None,
{
    lemma_code_words();
    law_alike(s, "NOERROR"@);
    law_alike(s, "FORMERR"@);
    law_alike(s, "SERVFAIL"@);
    law_alike(s, "NXDOMAIN"@);
    law_alike(s, "NOTIMP"@);
    law_alike(s, "REFUSED"@);
}

proof fn lemma_type_words()
    ensures
        lower("A"@).len() == 1 && lower("A"@)[0] == 'a',
        lower("NS"@).len() == 2 && lower("NS"@)[0] == 'n' && lower("NS"@)[1] == 's',
        lower("CNAME"@).len() == 5 && lower("CNAME"@)[0] == 'c' && lower("CNAME"@)[1] == 'n' && lower("CNAME"@)[2] == 'a' && lower("CNAME"@)[3] == 'm' && lower("CNAME"@)[4] == 'e',
        lower("SOA"@).len() == 3 && lower("SOA"@)[0] == 's' && lower("SOA"@)[1] == 'o' && lower("SOA"@)[2] == 'a',
        lower("PTR"@).len() == 3 && lower("PTR"@)[0] == 'p' && lower("PTR"@)[1] == 't' && lower("PTR"@)[2] == 'r',
        lower("HINFO"@).len() == 5 && lower("HINFO"@)[0] == 'h' && lower("HINFO"@)[1] == 'i' && lower("HINFO"@)[2] == 'n' && lower("HINFO"@)[3] == 'f' && lower("HINFO"@)[4] == 'o',
        lower("MX"@).len() == 2 && lower("MX"@)[0] == 'm' && lower("MX"@)[1] == 'x',
        lower("TXT"@).len() == 3 && lower("TXT"@)[0] == 't' && lower("TXT"@)[1] == 'x' && lower("TXT"@)[2] == 't',
        lower("AAAA"@).len() == 4 && lower("AAAA"@)[0] == 'a' && lower("AAAA"@)[1] == 'a' && lower("AAAA"@)[2] == 'a' && lower("AAAA"@)[3] == 'a',
        lower("SRV"@).len() == 3 && lower("SRV"@)[0] == 's' && lower("SRV"@)[1] == 'r' && lower("SRV"@)[2] == 'v',
        lower("NAPTR"@).len() == 5 && lower("NAPTR"@)[0] == 'n' && lower("NAPTR"@)[1] == 'a' && lower("NAPTR"@)[2] == 'p' && lower("NAPTR"@)[3] == 't' && lower("NAPTR"@)[4] == 'r',
        lower("DS"@).len() == 2 && lower("DS"@)[0] == 'd' && lower("DS"@)[1] == 's',
        lower("SSHFP"@).len() == 5 && lower("SSHFP"@)[0] == 's' && lower("SSHFP"@)[1] == 's' && lower("SSHFP"@)[2] == 'h' && lower("SSHFP"@)[3] == 'f' && lower("SSHFP"@)[4] == 'p',
        lower("RRSIG"@).len() == 5 && lower("RRSIG"@)[0] == 'r' && lower("RRSIG"@)[1] == 'r' && lower("RRSIG"@)[2] == 's' && lower("RRSIG"@)[3] == 'i' && lower("RRSIG"@)[4] == 'g',
        lower("NSEC"@).len() == 4 && lower("NSEC"@)[0] == 'n' && lower("NSEC"@)[1] == 's' && lower("NSEC"@)[2] == 'e' && lower("NSEC"@)[3] == 'c',
        lower("DNSKEY"@).len() == 6 && lower("DNSKEY"@)[0] == 'd' && lower("DNSKEY"@)[1] == 'n' && lower("DNSKEY"@)[2] == 's' && lower("DNSKEY"@)[3] == 'k' && lower("DNSKEY"@)[4] == 'e' && lower("DNSKEY"@)[5] == 'y',
        lower("TLSA"@).len() == 4 && lower("TLSA"@)[0] == 't' && lower("TLSA"@)[1] == 'l' && lower("TLSA"@)[2] == 's' && lower("TLSA"@)[3] == 'a',
        lower("SVCB"@).len() == 4 && lower("SVCB"@)[0] == 's' && lower("SVCB"@)[1] == 'v' && lower("SVCB"@)[2] == 'c' && lower("SVCB"@)[3] == 'b',
        lower("HTTPS"@).len() == 5 && lower("HTTPS"@)[0] == 'h' && lower("HTTPS"@)[1] == 't' && lower("HTTPS"@)[2] == 't' && lower("HTTPS"@)[3] == 'p' && lower("HTTPS"@)[4] == 's',
        lower("CAA"@).len() == 3 && lower("CAA"@)[0] == 'c' && lower("CAA"@)[1] == 'a' && lower("CAA"@)[2] == 'a',
        lower("ANY"@).len() == 3 && lower("ANY"@)[0] == 'a' && lower("ANY"@)[1] == 'n' && lower("ANY"@)[2] == 'y',
{
    reveal_strlit("A");
    law_lower("A"@);
    reveal_strlit("NS");
    law_lower("NS"@);
    reveal_strlit("CNAME");
    law_lower("CNAME"@);
    reveal_strlit("SOA");
    law_lower("SOA"@);
    reveal_strlit("PTR");
    law_lower("PTR"@);
    reveal_strlit("HINFO");
    law_lower("HINFO"@);
    reveal_strlit("MX");
    law_lower("MX"@);
    reveal_strlit("TXT");
    law_lower("TXT"@);
    reveal_strlit("AAAA");
    law_lower("AAAA"@);
    reveal_strlit("SRV");
    law_lower("SRV"@);
    reveal_strlit("NAPTR");
    law_lower("NAPTR"@);
    reveal_strlit("DS");
    law_lower("DS"@);
    reveal_strlit("SSHFP");
    law_lower("SSHFP"@);
    reveal_strlit("RRSIG");
    law_lower("RRSIG"@);
    reveal_strlit("NSEC");
    law_lower("NSEC"@);
    reveal_strlit("DNSKEY");
    law_lower("DNSKEY"@);
    reveal_strlit("TLSA");
    law_lower("TLSA"@);
    reveal_strlit("SVCB");
    law_lower("SVCB"@);
    reveal_strlit("HTTPS");
    law_lower("HTTPS"@);
    reveal_strlit("CAA");
    law_lower("CAA"@);
    reveal_strlit("ANY");
    law_lower("ANY"@);
}

/// The numbers of the record types, by name, whatever the case of its letters.
pub proof fn law_types_by_name(s: Seq<char>)
    ensures
        alike(s, "A"@) ==> rr_type(s) == Some(1u16),
        alike(s, "NS"@) ==> rr_type(s) == Some(2u16),
        alike(s, "CNAME"@) ==> rr_type(s) == Some(5u16),
        alike(s, "SOA"@) ==> rr_type(s) == Some(6u16),
        alike(s, "PTR"@) ==> rr_type(s) == Some(12u16),
        alike(s, "HINFO"@) ==> rr_type(s) == Some(13u16),
        alike(s, "MX"@) ==> rr_type(s) == Some(15u16),
        alike(s, "TXT"@) ==> rr_type(s) == Some(16u16),
        alike(s, "AAAA"@) ==> rr_type(s) == Some(28u16),
        alike(s, "SRV"@) ==> rr_type(s) == Some(33u16),
        alike(s, "NAPTR"@) ==> rr_type(s) == Some(35u16),
        alike(s, "DS"@) ==> rr_type(s) == Some(43u16),
        alike(s, "SSHFP"@) ==> rr_type(s) == Some(44u16),
        alike(s, "RRSIG"@) ==> rr_type(s) == Some(46u16),
        alike(s, "NSEC"@) ==> rr_type(s) == Some(47u16),
        alike(s, "DNSKEY"@) ==> rr_type(s) == Some(48u16),
        alike(s, "TLSA"@) ==> rr_type(s) == Some(52u16),
        alike(s, "SVCB"@) ==> rr_type(s) == Some(64u16),
        alike(s, "HTTPS"@) ==> rr_type(s) == Some(65u16),
        alike(s, "CAA"@) ==> rr_type(s) == Some(257u16),
        alike(s, "ANY"@) ==> rr_type(s) == Some(255u16),
        !alike(s, "A"@) && !alike(s, "NS"@) && !alike(s, "CNAME"@) && !alike(s, "SOA"@) && !alike(s, "PTR"@) && !alike(s, "HINFO"@) && !alike(s, "MX"@) && !alike(s, "TXT"@) && !alike(s, "AAAA"@) && !alike(s, "SRV"@) && !alike(s, "NAPTR"@) && !alike(s, "DS"@) && !alike(s, "SSHFP"@) && !alike(s, "RRSIG"@) && !alike(s, "NSEC"@) && !alike(s, "DNSKEY"@) && !alike(s, "TLSA"@) && !alike(s, "SVCB"@) && !alike(s, "HTTPS"@) && !alike(s, "CAA"@) && !alike(s, "ANY"@) ==> rr_type(s) is None,
{
    lemma_type_words();
    law_alike(s, "A"@);
    law_alike(s, "NS"@);
    law_alike(s, "CNAME"@);
    law_alike(s, "SOA"@);
    law_alike(s, "PTR"@);
    law_alike(s, "HINFO"@);
    law_alike(s, "MX"@);
    law_alike(s, "TXT"@);
    law_alike(s, "AAAA"@);
    law_alike(s, "SRV"@);
    law_alike(s, "NAPTR"@);
    law_alike(s, "DS"@);
    law_alike(s, "SSHFP"@);
    law_alike(s, "RRSIG"@);
    law_alike(s, "NSEC"@);
    law_alike(s, "DNSKEY"@);
    law_alike(s, "TLSA"@);
    law_alike(s, "SVCB"@);
    law_alike(s, "HTTPS"@);
    law_alike(s, "CAA"@);
    law_alike(s, "ANY"@);
}

/// The short and the full form of a response code are one rewrite: a code's
/// name alone, with a type behind it, and with a type and a value behind that
/// stand for its number, where that is not success. Success with nothing or
/// only a type behind it is success, and so is no value at all.
pub proof fn law_short_and_full_code(s: Seq<char>, t: Seq<char>, v: Seq<char>, k: Known)
    requires
        !s.contains(';'),
        !t.contains(';'),
        !v.contains(';'),
    ensures
        alike(s, "NXDOMAIN"@) ==> rewrite_of(s, k) == Ok::<RewriteV, Seq<char>>(RewriteV::RCode(3)),
        alike(s, "REFUSED"@) ==> rewrite_of(s, k) == Ok::<RewriteV, Seq<char>>(RewriteV::RCode(5)),
        alike(s, "SERVFAIL"@) ==> rewrite_of(s, k) == Ok::<RewriteV, Seq<char>>(RewriteV::RCode(2)),
        alike(s, "NOTIMP"@) ==> rewrite_of(s, k) == Ok::<RewriteV, Seq<char>>(RewriteV::RCode(4)),
        alike(s, "FORMERR"@) ==> rewrite_of(s, k) == Ok::<RewriteV, Seq<char>>(RewriteV::RCode(1)),
        alike(s, "NOERROR"@) ==> rewrite_of(s, k) == Ok::<RewriteV, Seq<char>>(RewriteV::RCode(0)),
        rewrite_of(Seq::empty(), k) == Ok::<RewriteV, Seq<char>>(RewriteV::RCode(0)),
        rcode(s) is Some ==> rewrite_of(s, k) == Ok::<RewriteV, Seq<char>>(RewriteV::RCode(rcode(s)->0)),
        rcode(s) is Some ==> rewrite_of(s + seq![';'] + t, k) == rewrite_of(s, k),
        rcode(s) is Some && !alike(s, "NOERROR"@) ==> rewrite_of(s + seq![';'] + (t + seq![';'] + v), k) == rewrite_of(
            s,
            k,
        ),
        rcode(s) is None ==> rewrite_of(s + seq![';'] + t, k) is Err,
        rcode(s) is None ==> rewrite_of(s + seq![';'] + (t + seq![';'] + v), k) is Err,
{
    law_codes_by_name(s);
    lemma_code_words();
    lemma_split_none(s, ';');
    lemma_split_none(t, ';');
    lemma_split_none(v, ';');
    lemma_split_front(s, ';', t);
    lemma_split_front(t, ';', v);
    lemma_split_front(s, ';', t + seq![';'] + v);
    assert(split(s + seq![';'] + t, ';') =~= seq![s, t]);
    assert(split(s + seq![';'] + (t + seq![';'] + v), ';') =~= seq![s, t, v]);
    law_alike(s, "NOERROR"@);
    if s.len() == 0 {
        law_lower(s);
        assert(rcode(s) is None) by {
            law_alike(s, "FORMERR"@);
            law_alike(s, "SERVFAIL"@);
            law_alike(s, "NXDOMAIN"@);
            law_alike(s, "NOTIMP"@);
            law_alike(s, "REFUSED"@);
        }
    }
}

/// The full form of success: an address type takes an address, a canonical
/// name its name in lower case, and any other type its text as it stands. A
/// type without a number, or an address type without an address, is refused.
pub proof fn law_full_record(s: Seq<char>, t: Seq<char>, v: Seq<char>, k: Known)
    requires
        alike(s, "NOERROR"@),
        !s.contains(';'),
        !t.contains(';'),
        !v.contains(';'),
    ensures
        ({
            let r = rewrite_of(s + seq![';'] + (t + seq![';'] + v), k);
            &&& (alike(t, "A"@) || alike(t, "AAAA"@)) ==> match (k.address)(v) {
                Some(ip) => r == Ok::<RewriteV, Seq<char>>(RewriteV::Addr(ip)),
                None => r is Err,
            }
            &&& alike(t, "CNAME"@) ==> r == Ok::<RewriteV, Seq<char>>(RewriteV::CName(lower(v)))
            &&& !alike(t, "A"@) && !alike(t, "AAAA"@) && !alike(t, "CNAME"@) ==> match rr_type(t) {
                Some(n) => r == Ok::<RewriteV, Seq<char>>(RewriteV::Record(n, v)),
                None => r is Err,
            }
            &&& alike(t, "MX"@) ==> r == Ok::<RewriteV, Seq<char>>(RewriteV::Record(15, v))
            &&& alike(t, "TXT"@) ==> r == Ok::<RewriteV, Seq<char>>(RewriteV::Record(16, v))
            &&& alike(t, "HTTPS"@) ==> r == Ok::<RewriteV, Seq<char>>(RewriteV::Record(65, v))
        }),
{
    law_codes_by_name(s);
    law_types_by_name(t);
    lemma_type_words();
    law_alike(t, "A"@);
    law_alike(t, "AAAA"@);
    law_alike(t, "CNAME"@);
    law_alike(t, "MX"@);
    law_alike(t, "TXT"@);
    law_alike(t, "HTTPS"@);
    lemma_split_none(t, ';');
    lemma_split_none(v, ';');
    lemma_split_front(t, ';', v);
    lemma_split_front(s, ';', t + seq![';'] + v);
    assert(split(s + seq![';'] + (t + seq![';'] + v), ';') =~= seq![s, t, v]);
}

/// The shorthand: what is no response code is an address where it spells one,
/// and else a name, in lower case, where it is a valid one. Anything else is
/// refused, and so is what has more than three parts.
pub proof fn law_shorthand(s: Seq<char>, a: Seq<char>, b: Seq<char>, c: Seq<char>, rest: Seq<char>, k: Known)
    requires
        s.len() > 0,
        !s.contains(';'),
        rcode(s) is None,
        !a.contains(';'),
        !b.contains(';'),
        !c.contains(';'),
    ensures
        (k.address)(s) matches Some(ip) ==> rewrite_of(s, k) == Ok::<RewriteV, Seq<char>>(RewriteV::Addr(ip)),
        (k.address)(s) is None && (k.valid)(s) ==> rewrite_of(s, k) == Ok::<RewriteV, Seq<char>>(
            RewriteV::CName(lower(s)),
        ),
        (k.address)(s) is None && !(k.valid)(s) ==> rewrite_of(s, k) is Err,
        rewrite_of(a + seq![';'] + (b + seq![';'] + (c + seq![';'] + rest)), k) is Err,
{
    lemma_split_none(s, ';');
    lemma_split_front(c, ';', rest);
    lemma_split_front(b, ';', c + seq![';'] + rest);
    lemma_split_front(a, ';', b + seq![';'] + (c + seq![';'] + rest));
    crate::text::law_split_join(rest, ';');
    assert(split(a + seq![';'] + (b + seq![';'] + (c + seq![';'] + rest)), ';').len() >= 4);
}

/// Whether some part of a list reads `v` once it is trimmed.
pub open spec fn some_part(parts: Seq<Seq<char>>, v: Seq<char>) -> bool {
    exists|i: int| 0 <= i < parts.len() && trimmed(#[trigger] parts[i]) == v
}

proof fn lemma_some_part_push(parts: Seq<Seq<char>>, v: Seq<char>)
    requires
        parts.len() > 0,
    ensures
        some_part(parts, v) <==> some_part(parts.drop_last(), v) || trimmed(parts.last()) == v,
{
    let d = parts.drop_last();
    if some_part(d, v) {
        let i = choose|i: int| 0 <= i < d.len() && trimmed(#[trigger] d[i]) == v;
        assert(trimmed(parts[i]) == v);
    }
    if some_part(parts, v) {
        let i = choose|i: int| 0 <= i < parts.len() && trimmed(#[trigger] parts[i]) == v;
        if i < d.len() {
            assert(trimmed(d[i]) == v);
        }
    }
    assert(parts[parts.len() - 1] == parts.last());
}

proof fn lemma_pushed<A>(s: Seq<A>, x: A, v: A)
    ensures
        s.push(x).contains(v) <==> s.contains(v) || x == v,
{
    let t = s.push(x);
    if s.contains(v) {
        let i = s.index_of(v);
        assert(t[i] == v);
    }
    assert(t[s.len() as int] == x);
    if t.contains(v) {
        let i = t.index_of(v);
        if i < s.len() {
            assert(s[i] == v);
        }
    }
}

/// A list of values: those written plainly are included, those written behind
/// a `~` are excluded, and nothing else is in it. Empty parts say nothing.
pub proof fn law_value_list(parts: Seq<Seq<char>>, v: Seq<char>)
    ensures
        str_list(parts).included.contains(v) <==> v.len() > 0 && v[0] != '~' && some_part(parts, v),
        str_list(parts).excluded.contains(v) <==> some_part(parts, seq!['~'] + v),
    decreases parts.len(),
{
    if parts.len() > 0 {
        let d = parts.drop_last();
        law_value_list(d, v);
        lemma_some_part_push(parts, v);
        lemma_some_part_push(parts, seq!['~'] + v);
        let l = str_list(d);
        let x = trimmed(parts.last());
        if x.len() > 0 {
            lemma_pushed(l.excluded, x.skip(1), v);
            lemma_pushed(l.included, x, v);
            assert((seq!['~'] + v)[0] == '~');
            assert((seq!['~'] + v).skip(1) =~= v);
            if x[0] == '~' {
                assert(seq!['~'] + x.skip(1) =~= x);
            }
        }
    }
}

/// A list of record types: the numbers of those written plainly are included,
/// of those behind a `~` excluded, and a name without a number refuses the
/// whole list.
pub proof fn law_type_list(parts: Seq<Seq<char>>, n: u16)
    ensures
        match type_list(parts) {
            Ok(l) => {
                &&& l.included.contains(n) <==> exists|i: int|
                    0 <= i < parts.len() && {
                        let v = trimmed(#[trigger] parts[i]);
                        v.len() > 0 && v[0] != '~' && rr_type(v) == Some(n)
                    }
                &&& l.excluded.contains(n) <==> exists|i: int|
                    0 <= i < parts.len() && {
                        let v = trimmed(#[trigger] parts[i]);
                        v.len() > 0 && v[0] == '~' && rr_type(v.skip(1)) == Some(n)
                    }
                &&& forall|i: int|
                    0 <= i < parts.len() ==> {
                        let v = trimmed(#[trigger] parts[i]);
                        v.len() == 0 || rr_type(if v[0] == '~' { v.skip(1) } else { v }) is Some
                    }
            },
            Err(name) => exists|i: int|
                0 <= i < parts.len() && {
                    let v = trimmed(#[trigger] parts[i]);
                    v.len() > 0 && name == (if v[0] == '~' { v.skip(1) } else { v }) && rr_type(name) is None
                },
        },
    decreases parts.len(),
{
    if parts.len() > 0 {
        let d = parts.drop_last();
        law_type_list(d, n);
        let last = parts.len() - 1;
        let v = trimmed(parts[last]);
        assert(parts.last() == parts[last]);
        assert forall|i: int| 0 <= i < d.len() implies d[i] == #[trigger] parts[i] by {}
        match type_list(d) {
            Err(name) => {
                let i = choose|i: int|
                    0 <= i < d.len() && {
                        let v = trimmed(#[trigger] d[i]);
                        v.len() > 0 && name == (if v[0] == '~' { v.skip(1) } else { v }) && rr_type(name) is None
                    };
                assert(parts[i] == d[i]);
            },
            Ok(l) => {
                if v.len() > 0 {
                    let name = if v[0] == '~' { v.skip(1) } else { v };
                    match rr_type(name) {
                        None => {},
                        Some(t) => {
                            lemma_pushed(l.excluded, t, n);
                            lemma_pushed(l.included, t, n);
                        },
                    }
                }
                if l.included.contains(n) {
                    let i = choose|i: int|
                        0 <= i < d.len() && {
                            let v = trimmed(#[trigger] d[i]);
                            v.len() > 0 && v[0] != '~' && rr_type(v) == Some(n)
                        };
                    assert(parts[i] == d[i]);
                }
                if l.excluded.contains(n) {
                    let i = choose|i: int|
                        0 <= i < d.len() && {
                            let v = trimmed(#[trigger] d[i]);
                            v.len() > 0 && v[0] == '~' && rr_type(v.skip(1)) == Some(n)
                        };
                    assert(parts[i] == d[i]);
                }
                match type_list(parts) {
                    Ok(m) => {
                        if exists|i: int|
                            0 <= i < parts.len() && {
                                let v = trimmed(#[trigger] parts[i]);
                                v.len() > 0 && v[0] != '~' && rr_type(v) == Some(n)
                            } {
                            let i = choose|i: int|
                                0 <= i < parts.len() && {
                                    let v = trimmed(#[trigger] parts[i]);
                                    v.len() > 0 && v[0] != '~' && rr_type(v) == Some(n)
                                };
                            if i < last {
                                assert(d[i] == parts[i]);
                            }
                        }
                        if exists|i: int|
                            0 <= i < parts.len() && {
                                let v = trimmed(#[trigger] parts[i]);
                                v.len() > 0 && v[0] == '~' && rr_type(v.skip(1)) == Some(n)
                            } {
                            let i = choose|i: int|
                                0 <= i < parts.len() && {
                                    let v = trimmed(#[trigger] parts[i]);
                                    v.len() > 0 && v[0] == '~' && rr_type(v.skip(1)) == Some(n)
                                };
                            if i < last {
                                assert(d[i] == parts[i]);
                            }
                        }
                    },
                    Err(_) => {},
                }
            },
        }
    }
}

/// A modifier's name is what stands before its `=`, and its value what stands
/// behind it.
proof fn lemma_named(name: Seq<char>, v: Seq<char>)
    requires
        !name.contains('='),
    ensures
        ({
            let part = name + seq!['='] + v;
            &&& first_at(part, '=') == name.len()
            &&& part.take(name.len() as int) == name
            &&& part.skip(name.len() as int + 1) == v
            &&& part.len() > name.len()
        }),
        first_at(name, '=') == name.len(),
        name.take(name.len() as int) == name,
{
    let part = name + seq!['='] + v;
    law_first_place(part, '=');
    law_first_place(name, '=');
    let n = name.len() as int;
    assert(part[n] == '=');
    assert forall|i: int| 0 <= i < n implies part[i] != '=' by {
        assert(name.contains(name[i]));
    }
    assert(part.take(n) =~= name);
    assert(part.skip(n + 1) =~= v);
    assert(name.take(n) =~= name);
}

proof fn lemma_modifier_words()
    ensures
        "important"@.len() == 9 && "badfilter"@.len() == 9 && "dnstype"@.len() == 7 && "client"@.len() == 6,
        "ctag"@.len() == 4 && "denyallow"@.len() == 9 && "dnsrewrite"@.len() == 10,
        "important"@[0] == 'i' && "badfilter"@[0] == 'b' && "denyallow"@[0] == 'd',
        !"important"@.contains('='),
        !"badfilter"@.contains('='),
        !"dnstype"@.contains('='),
        !"client"@.contains('='),
        !"ctag"@.contains('='),
        !"denyallow"@.contains('='),
        !"dnsrewrite"@.contains('='),
{
    reveal_strlit("important");
    reveal_strlit("badfilter");
    reveal_strlit("dnstype");
    reveal_strlit("client");
    reveal_strlit("ctag");
    reveal_strlit("denyallow");
    reveal_strlit("dnsrewrite");
}

/// Each modifier sets what it is for and leaves the others as they were. One
/// that is there without a value has an empty one, an empty one says nothing,
/// and one of another name is refused by that name, unless it is one that
/// means nothing to DNS.
pub proof fn law_each_modifier(o: OptionsV, v: Seq<char>, k: Known)
    ensures
        with_option(o, Seq::empty(), k) == Ok::<OptionsV, ErrorV>(o),
        with_option(o, "important"@, k) == Ok::<OptionsV, ErrorV>(OptionsV { important: true, ..o }),
        with_option(o, "badfilter"@, k) == Ok::<OptionsV, ErrorV>(OptionsV { badfilter: true, ..o }),
        with_option(o, "client"@ + seq!['='] + v, k) == Ok::<OptionsV, ErrorV>(
            OptionsV { client: Some(str_list(split(v, '|'))), ..o },
        ),
        with_option(o, "ctag"@ + seq!['='] + v, k) == Ok::<OptionsV, ErrorV>(
            OptionsV { ctag: Some(str_list(split(v, '|'))), ..o },
        ),
        match type_list(split(v, '|')) {
            Ok(l) => with_option(o, "dnstype"@ + seq!['='] + v, k) == Ok::<OptionsV, ErrorV>(
                OptionsV { dnstype: Some(l), ..o },
            ),
            Err(n) => with_option(o, "dnstype"@ + seq!['='] + v, k) == Err::<OptionsV, ErrorV>(
                ErrorV::Invalid("unknown dns type "@ + crate::text::quoted_text(n)),
            ),
        },
        match rewrite_of(v, k) {
            Ok(w) => with_option(o, "dnsrewrite"@ + seq!['='] + v, k) == Ok::<OptionsV, ErrorV>(
                OptionsV { dnsrewrite: Some(w), ..o },
            ),
            Err(m) => with_option(o, "dnsrewrite"@ + seq!['='] + v, k) == Err::<OptionsV, ErrorV>(ErrorV::Invalid(m)),
        },
        with_option(o, "dnsrewrite"@, k) == Ok::<OptionsV, ErrorV>(
            OptionsV { dnsrewrite: Some(RewriteV::RCode(0)), ..o },
        ),
        with_option(o, "denyallow"@ + seq!['='] + v, k) matches Ok(p) && p == (OptionsV { denyallow: p.denyallow, ..o })
            && forall|d: Seq<char>| #[trigger]
            p.denyallow.contains(d) <==> d.len() > 0 && exists|i: int|
                0 <= i < split(v, '|').len() && lower(#[trigger] split(v, '|')[i]) == d,
{
    lemma_modifier_words();
    lemma_named("important"@, v);
    lemma_named("badfilter"@, v);
    lemma_named("client"@, v);
    lemma_named("ctag"@, v);
    lemma_named("dnstype"@, v);
    lemma_named("dnsrewrite"@, v);
    lemma_named("denyallow"@, v);
    assert("important"@.take(9) =~= "important"@);
    assert("badfilter"@.take(9) =~= "badfilter"@);
    let parts = split(v, '|');
    assert forall|d: Seq<char>| #[trigger] crate::rule::parse::deny_list(v).contains(d) <==> d.len() > 0 && exists|i: int|
        0 <= i < parts.len() && lower(#[trigger] parts[i]) == d by {
        lemma_denied(parts, d);
    }
}

proof fn lemma_denied(parts: Seq<Seq<char>>, d: Seq<char>)
    ensures
        crate::multi::picked(parts, |v: Seq<char>| if v.len() == 0 { None } else { Some(lower(v)) }).contains(d) <==> d.len()
            > 0 && exists|i: int| 0 <= i < parts.len() && lower(#[trigger] parts[i]) == d,
    decreases parts.len(),
{
    let f = |v: Seq<char>| if v.len() == 0 { None } else { Some(lower(v)) };
    if parts.len() > 0 {
        let less = parts.drop_last();
        let last = parts.len() - 1;
        lemma_denied(less, d);
        law_lower(parts[last]);
        lemma_pushed(crate::multi::picked(less, f), lower(parts[last]), d);
        if exists|i: int| 0 <= i < less.len() && lower(#[trigger] less[i]) == d {
            let i = choose|i: int| 0 <= i < less.len() && lower(#[trigger] less[i]) == d;
            assert(lower(parts[i]) == d);
        }
        if exists|i: int| 0 <= i < parts.len() && lower(#[trigger] parts[i]) == d {
            let i = choose|i: int| 0 <= i < parts.len() && lower(#[trigger] parts[i]) == d;
            if i < last {
                assert(lower(less[i]) == d);
            }
        }
    }
}

/// A name that is none of the modifiers is refused by that name, with or
/// without a value.
pub proof fn law_unknown_modifier(o: OptionsV, name: Seq<char>, v: Seq<char>, k: Known)
    requires
        name.len() > 0,
        !name.contains('='),
        name != "important"@,
        name != "badfilter"@,
        name != "dnstype"@,
        name != "client"@,
        name != "ctag"@,
        name != "denyallow"@,
        name != "dnsrewrite"@,
    ensures
        inert(name) ==> with_option(o, name, k) == Ok::<OptionsV, ErrorV>(o),
        inert(name) ==> with_option(o, name + seq!['='] + v, k) == Ok::<OptionsV, ErrorV>(o),
        !inert(name) ==> with_option(o, name, k) == Err::<OptionsV, ErrorV>(ErrorV::UnsupportedModifier(name)),
        !inert(name) ==> with_option(o, name + seq!['='] + v, k) == Err::<OptionsV, ErrorV>(
            ErrorV::UnsupportedModifier(name),
        ),
        inert(name) <==> {
            ||| name == "domain"@ || name == "app"@ || name == "network"@ || name == "method"@ || name == "to"@
            ||| name == "third-party"@ || name == "~third-party"@ || name == "3p"@ || name == "~3p"@
            ||| name == "first-party"@ || name == "~first-party"@
            ||| name == "popup"@ || name == "document"@ || name == "doc"@ || name == "all"@
            ||| name == "extension"@ || name == "~extension"@
        },
{
    lemma_named(name, v);
}

/// Modifiers are taken one after the other, each without the white space
/// around it, and the first that is refused refuses them all.
pub proof fn law_modifiers_in_turn(parts: Seq<Seq<char>>, p: Seq<char>, k: Known)
    ensures
        options_of(Seq::empty(), k) == Ok::<OptionsV, ErrorV>(no_options()),
        options_of(parts, k) matches Err(e) ==> options_of(parts.push(p), k) == Err::<OptionsV, ErrorV>(e),
        options_of(parts, k) matches Ok(o) ==> options_of(parts.push(p), k) == with_option(o, trimmed(p), k),
        ({
            let o = no_options();
            &&& !o.important && !o.badfilter && o.dnstype is None && o.client is None && o.ctag is None
            &&& o.denyallow.len() == 0 && o.dnsrewrite is None
        }),
{
    assert(parts.push(p).drop_last() =~= parts);
}

proof fn lemma_unescaped(s: Seq<char>, i: int)
    requires
        i > 0 ==> s[i - 1] != '\\',
    ensures
        !escaped(s, i),
{
}

proof fn lemma_options_none(s: Seq<char>, upto: int)
    requires
        0 <= upto <= s.len(),
        forall|i: int| 0 <= i < upto ==> !crate::rule::parse::can_begin_options(s, i),
    ensures
        options_at(s, upto) == -1,
    decreases upto,
{
    if upto > 0 {
        assert(!crate::rule::parse::can_begin_options(s, upto - 1));
        lemma_options_none(s, upto - 1);
    }
}

proof fn lemma_options_here(s: Seq<char>, at: int, upto: int)
    requires
        0 <= at < upto <= s.len(),
        crate::rule::parse::can_begin_options(s, at),
        forall|i: int| at < i < upto ==> s[i] != '$',
    ensures
        options_at(s, upto) == at,
    decreases upto,
{
    if upto - 1 != at {
        assert(s[upto - 1] != '$');
        lemma_options_here(s, at, upto - 1);
    }
}

/// Modifiers begin behind the last `$`: a pattern and modifiers with one
/// between them come apart there, whether the pattern is a plain one or an
/// expression between slashes.
pub proof fn law_modifiers_begin(p: Seq<char>, m: Seq<char>, k: Known)
    requires
        !p.contains('\\'),
        !m.contains('$'),
        p.len() > 0 && p[0] == '/' ==> p.len() > 1 && p.last() == '/',
    ensures
        split_body(p + seq!['$'] + m, k) == match options_of(split_bare(m, ','), k) {
            Ok(o) => Ok::<(Seq<char>, OptionsV), ErrorV>((p, o)),
            Err(e) => Err(e),
        },
{
    let s = p + seq!['$'] + m;
    let n = p.len() as int;
    assert(s[n] == '$');
    if n > 0 {
        assert(p.contains(p[n - 1]));
        assert(s[n - 1] == p[n - 1]);
    }
    lemma_unescaped(s, n);
    if crate::rule::parse::opens_regex(s) {
        if n > 0 {
            assert(p[0] == s[0]);
            assert(s[n - 1] == '/');
            assert(p.contains(p[n - 2]));
            assert(s[n - 2] == p[n - 2]);
            lemma_unescaped(s, n - 1);
            assert(0 < n - 1 < n);
            assert(crate::rule::parse::regex_ended(s, n));
        }
    }
    assert forall|i: int| n < i < s.len() implies s[i] != '$' by {
        assert(m.contains(m[i - n - 1]));
        assert(s[i] == m[i - n - 1]);
    }
    lemma_options_here(s, n, s.len() as int);
    assert(s.take(n) =~= p);
    assert(s.skip(n + 1) =~= m);
}

/// A body without a `$`, one whose `$` stands behind a backslash, and an
/// expression between slashes whose `$` stands inside it have no modifiers.
pub proof fn law_no_modifiers(s: Seq<char>, a: Seq<char>, b: Seq<char>, k: Known)
    requires
        !s.contains('$'),
        !a.contains('\\') && !a.contains('$') && !b.contains('$'),
        !a.contains('/') && !b.contains('/') && !b.contains('\\'),
    ensures
        split_body(s, k) == Ok::<(Seq<char>, OptionsV), ErrorV>((s, no_options())),
        split_body(a + seq!['\\', '$'] + b, k) == Ok::<(Seq<char>, OptionsV), ErrorV>(
            (a + seq!['\\', '$'] + b, no_options()),
        ),
        split_body(seq!['/'] + a + seq!['$'] + b + seq!['/'], k) == Ok::<(Seq<char>, OptionsV), ErrorV>(
            (seq!['/'] + a + seq!['$'] + b + seq!['/'], no_options()),
        ),
{
    assert forall|i: int| 0 <= i < s.len() implies !crate::rule::parse::can_begin_options(s, i) by {
        assert(s.contains(s[i]));
    }
    lemma_options_none(s, s.len() as int);
    let e = a + seq!['\\', '$'] + b;
    let n = a.len() as int;
    assert(e[n] == '\\');
    assert(e[n + 1] == '$');
    if n > 0 {
        assert(a.contains(a[n - 1]));
        assert(e[n - 1] == a[n - 1]);
    }
    lemma_unescaped(e, n);
    assert(escaped(e, n + 1));
    assert forall|i: int| 0 <= i < e.len() implies !crate::rule::parse::can_begin_options(e, i) by {
        if i < n {
            assert(a.contains(a[i]));
        } else if i > n + 1 {
            assert(b.contains(b[i - n - 2]));
            assert(e[i] == b[i - n - 2]);
        }
    }
    lemma_options_none(e, e.len() as int);
    let r = seq!['/'] + a + seq!['$'] + b + seq!['/'];
    assert(r[0] == '/');
    assert(r[r.len() - 1] == '/');
    assert forall|i: int| 0 <= i < r.len() implies !crate::rule::parse::can_begin_options(r, i) by {
        if r[i] == '$' {
            assert(i < r.len() - 1);
            assert forall|j: int| 0 < j < i implies r[j] != '/' by {
                if j <= n {
                    assert(a.contains(a[j - 1]));
                    assert(r[j] == a[j - 1]);
                } else if j > n + 1 {
                    assert(b.contains(b[j - n - 2]));
                    assert(r[j] == b[j - n - 2]);
                }
            }
        }
    }
    lemma_options_none(r, r.len() as int);
}

/// A domain between two bars and a caret.
pub open spec fn barred(d: Seq<char>) -> Seq<char> {
    seq!['|', '|'] + d + seq!['^']
}

/// `||domain^` is anchored to its domain, in lower case, and nothing else is
/// anchored: not without both bars, nor without the caret.
pub proof fn law_anchored(d: Seq<char>, s: Seq<char>, k: Known)
    requires
        d.len() > 0,
        domain_chars(d),
        (k.valid)(d),
    ensures
        anchor_of(barred(d), k) == Some(lower(d)),
        anchor_of(s, k) is Some ==> exists|x: Seq<char>|
            x.len() > 0 && (k.valid)(x) && s == #[trigger] barred(x) && anchor_of(s, k) == Some(
                lower(x),
            ),
        forall|i: int|
            0 <= i < d.len() ==> ('a' <= #[trigger] d[i] <= 'z' || 'A' <= d[i] <= 'Z' || '0' <= d[i] <= '9' || d[i] == '.' || d[i]
                == '-' || d[i] == '_'),
{
    let t = barred(d);
    assert(t.subrange(2, t.len() - 1) =~= d);
    assert(t[0] == '|' && t[1] == '|' && t.last() == '^');
    if anchor_of(s, k) is Some {
        let x = s.subrange(2, s.len() - 1);
        assert(s =~= barred(x));
    }
}

/// An exception is the rule that stands behind its `@@`, as an exception.
pub proof fn law_exception(t: Seq<char>, k: Known, facts: spec_fn(Seq<char>) -> PatternFacts)
    requires
        !begins(t, "@@"@),
    ensures
        match network_of(t, k, facts) {
            Ok(p) => !p.allowlist && (network_of("@@"@ + t, k, facts) matches Ok(e) && e.allowlist && e.opts == p.opts
                && e.pattern == p.pattern && e.shortcut == p.shortcut),
            Err(e) => network_of("@@"@ + t, k, facts) is Err,
        },
{
    law_parts_are_found(Seq::empty(), "@@"@, t);
    reveal_strlit("@@");
    assert(("@@"@ + t).skip(2) =~= t);
}

/// What a pattern comes to: one that matches every name is found through no
/// index, `||domain^` through its domain, and any other is the expression that
/// it stands for, matched against what that is for. Only a handwritten
/// expression can be refused, where it does not compile.
pub proof fn law_pattern(s: Seq<char>, k: Known, f: PatternFacts)
    ensures
        f.matches_all ==> (pattern_of(s, k, f) matches Ok(p) && p.0 is Any && p.1 is None),
        !f.matches_all && anchor_of(s, k) is Some ==> (pattern_of(s, k, f) matches Ok(p) && p.0 is DomainAnchor && p.1
            == anchor_of(s, k)),
        !f.matches_all && anchor_of(s, k) is None && !f.handwritten ==> (pattern_of(s, k, f) matches Ok(p) && p.0
            == PatternV::Rx(f.source@, f.target, false)),
        !f.matches_all && anchor_of(s, k) is None && f.handwritten ==> (pattern_of(s, k, f) is Ok <==> crate::rule::pool::refusal(
            f.source@,
        ) is None),
        pattern_of(s, k, f) matches Ok(p) ==> (p.0 matches PatternV::Rx(src, target, built) ==> src == f.source@ && target
            == f.target && built == f.handwritten),
{
}

/// A rule of one pattern and its modifiers: they are taken apart at the `$`,
/// the pattern is what it comes to, and a domain is what it is found through
/// where the pattern is anchored.
pub proof fn law_rule_with_modifiers(p: Seq<char>, m: Seq<char>, k: Known, facts: spec_fn(Seq<char>) -> PatternFacts)
    requires
        !p.contains('\\'),
        !m.contains('$'),
        p.len() > 0 && p[0] == '/' ==> p.len() > 1 && p.last() == '/',
        !begins(p + seq!['$'] + m, "@@"@),
    ensures
        network_of(p + seq!['$'] + m, k, facts) matches Ok(r) ==> {
            &&& options_of(split_bare(m, ','), k) == Ok::<OptionsV, ErrorV>(r.opts)
            &&& pattern_of(p, k, facts(p)) matches Ok(w) && r.pattern == w.0 && (w.0 is DomainAnchor ==> r.shortcut == w.1) && (
            !(w.0 is DomainAnchor) ==> r.shortcut == text_view(facts(p).shortcut))
            &&& !r.allowlist
        },
        options_of(split_bare(m, ','), k) is Ok && pattern_of(p, k, facts(p)) is Ok ==> network_of(
            p + seq!['$'] + m,
            k,
            facts,
        ) is Ok,
        options_of(split_bare(m, ','), k) matches Err(e) ==> network_of(p + seq!['$'] + m, k, facts) == Err::<crate::rule::parse::ParsedV, ErrorV>(e),
{
    law_modifiers_begin(p, m, k);
}

/// A rule without a `$` is its pattern, with no modifiers.
pub proof fn law_plain_rule(p: Seq<char>, k: Known, facts: spec_fn(Seq<char>) -> PatternFacts)
    requires
        !p.contains('$'),
        !begins(p, "@@"@),
    ensures
        match pattern_of(p, k, facts(p)) {
            Ok(w) => network_of(p, k, facts) matches Ok(r) && r.opts == no_options() && r.pattern == w.0 && !r.allowlist && (
            w.0 is DomainAnchor ==> r.shortcut == w.1) && (!(w.0 is DomainAnchor) ==> r.shortcut == text_view(
                facts(p).shortcut,
            )),
            Err(_) => network_of(p, k, facts) is Err,
        },
{
    law_no_modifiers(p, Seq::empty(), Seq::empty(), k);
}

proof fn lemma_first_space(a: Seq<char>, rest: Seq<char>)
    requires
        forall|i: int| 0 <= i < a.len() ==> !is_ascii_space(#[trigger] a[i]),
        rest.len() > 0 ==> is_ascii_space(rest[0]),
    ensures
        first_space(a + rest) == a.len(),
    decreases a.len(),
{
    let t = a + rest;
    if a.len() > 0 {
        assert(t[0] == a[0]);
        assert(t.drop_first() =~= a.drop_first() + rest);
        assert forall|i: int| 0 <= i < a.drop_first().len() implies !is_ascii_space(#[trigger] a.drop_first()[i]) by {
            assert(!is_ascii_space(a[i + 1]));
        }
        lemma_first_space(a.drop_first(), rest);
    } else {
        assert(t =~= rest);
    }
}

/// Whether a text can be a name on a hosts line: it is something, holds no
/// white space and no comment, and ends in no dot.
pub open spec fn host_word(w: Seq<char>) -> bool {
    &&& w.len() > 0
    &&& w.last() != '.'
    &&& forall|i: int| 0 <= i < w.len() ==> !is_ascii_space(#[trigger] w[i]) && w[i] != '#'
}

proof fn lemma_joined_words(names: Seq<Seq<char>>)
    requires
        forall|i: int| 0 <= i < names.len() ==> host_word(#[trigger] names[i]),
    ensures
        ({
            let s = join(names, seq![' ']);
            forall|i: int| 0 <= i < s.len() ==> #[trigger] s[i] != '#' && (is_ascii_space(s[i]) ==> s[i] == ' ')
        }),
    decreases names.len(),
{
    let s = join(names, seq![' ']);
    if names.len() == 1 {
        assert(host_word(names[0]));
    } else if names.len() > 1 {
        let d = names.drop_last();
        assert forall|i: int| 0 <= i < d.len() implies host_word(#[trigger] d[i]) by {
            assert(host_word(names[i]));
        }
        lemma_joined_words(d);
        let head = join(d, seq![' ']);
        let w = names.last();
        assert(host_word(names[names.len() - 1]));
        assert forall|i: int| 0 <= i < s.len() implies #[trigger] s[i] != '#' && (is_ascii_space(s[i]) ==> s[i] == ' ') by {
            if i < head.len() {
                assert(s[i] == head[i]);
            } else if i > head.len() {
                assert(s[i] == w[i - head.len() - 1]);
            }
        }
    }
}

proof fn lemma_host_names(parts: Seq<Seq<char>>, valid: spec_fn(Seq<char>) -> bool, n: Seq<char>)
    requires
        forall|i: int| 0 <= i < parts.len() ==> (#[trigger] parts[i]).len() == 0 || host_word(parts[i]),
    ensures
        picked(parts, |w: Seq<char>| host_name(w, valid)).contains(n) <==> n.len() > 0 && valid(n) && exists|i: int|
            0 <= i < parts.len() && lower(#[trigger] parts[i]) == n,
    decreases parts.len(),
{
    if parts.len() > 0 {
        let d = parts.drop_last();
        let last = parts.len() - 1;
        let w = parts[last];
        assert forall|i: int| 0 <= i < d.len() implies (#[trigger] d[i]).len() == 0 || host_word(d[i]) by {
            assert(d[i] == parts[i]);
        }
        lemma_host_names(d, valid, n);
        law_lower(w);
        assert(w.len() == 0 || host_word(w));
        assert(strip_back(w, '.') == w);
        lemma_pushed(picked(d, |w: Seq<char>| host_name(w, valid)), lower(w), n);
        if exists|i: int| 0 <= i < d.len() && lower(#[trigger] d[i]) == n {
            let i = choose|i: int| 0 <= i < d.len() && lower(#[trigger] d[i]) == n;
            assert(lower(parts[i]) == n);
        }
        if exists|i: int| 0 <= i < parts.len() && lower(#[trigger] parts[i]) == n {
            let i = choose|i: int| 0 <= i < parts.len() && lower(#[trigger] parts[i]) == n;
            if i < last {
                assert(lower(d[i]) == n);
            }
        }
    }
}

/// A hosts line: an address, a blank and names. It covers the valid ones, in
/// lower case, and nothing else; it is one only where it covers some; its
/// address is what its first word spells; and a comment behind it changes
/// nothing.
pub proof fn law_hosts_line(a: Seq<char>, names: Seq<Seq<char>>, comment: Seq<char>, k: Known)
    requires
        forall|i: int| 0 <= i < a.len() ==> !is_ascii_space(#[trigger] a[i]),
        names.len() > 0,
        forall|i: int| 0 <= i < names.len() ==> host_word(#[trigger] names[i]),
    ensures
        ({
            let t = a + seq![' '] + join(names, seq![' ']);
            let c = t + seq![' ', '#'] + comment;
            &&& forall|n: Seq<char>| #[trigger]
                host_names(t, k.valid).contains(n) <==> n.len() > 0 && (k.valid)(n) && exists|i: int|
                    0 <= i < names.len() && lower(#[trigger] names[i]) == n
            &&& host_address(t, k) == if exists|i: int|
                0 <= i < names.len() && (k.valid)(lower(#[trigger] names[i])) {
                (k.address)(a)
            } else {
                None
            }
            &&& host_names(c, k.valid) == host_names(t, k.valid)
            &&& host_address(c, k) == host_address(t, k)
        }),
        host_address(a, k) is None,
{
    let body = join(names, seq![' ']);
    let t = a + seq![' '] + body;
    let c = t + seq![' ', '#'] + comment;
    let blank = seq![' '];
    assert(t =~= a + (blank + body));
    assert(c =~= a + (blank + body + seq![' ', '#'] + comment));
    lemma_first_space(a, blank + body);
    lemma_first_space(a, blank + body + seq![' ', '#'] + comment);
    assert(a + Seq::<char>::empty() =~= a);
    lemma_first_space(a, Seq::empty());
    lemma_joined_words(names);
    let n = a.len() as int;
    assert(t.skip(n + 1) =~= body);
    assert(t.take(n) =~= a);
    assert(c.take(n) =~= a);
    let tail = body + seq![' ', '#'] + comment;
    assert(c.skip(n + 1) =~= tail);
    law_first_place(body, '#');
    assert(!body.contains('#'));
    assert(body.take(body.len() as int) =~= body);
    assert(after_address(t) == body);
    law_first_place(tail, '#');
    assert(tail[body.len() as int + 1] == '#');
    assert forall|i: int| 0 <= i < body.len() + 1 implies tail[i] != '#' by {
        if i < body.len() {
            assert(tail[i] == body[i]);
        }
    }
    let cut = body + seq![' '];
    assert(tail.take(body.len() as int + 1) =~= cut);
    assert(after_address(c) == cut);
    assert forall|i: int| 0 <= i < names.len() implies !(#[trigger] names[i]).contains(' ') by {
        assert(host_word(names[i]));
        if names[i].contains(' ') {
            let j = names[i].index_of(' ');
            assert(!is_ascii_space(names[i][j]));
        }
    }
    law_splitting(body, ' ', names);
    assert(space_marks(body) =~= marks(body, ' '));
    assert(space_marks(cut) =~= marks(cut, ' '));
    let empty = Seq::<char>::empty();
    assert(cut =~= body + seq![' '] + empty);
    crate::text::lemma_split_concat(body, ' ', empty);
    lemma_split_none(empty, ' ');
    let f = |w: Seq<char>| host_name(w, k.valid);
    assert(split(cut, ' ') =~= names.push(empty));
    assert(names.push(empty).drop_last() =~= names);
    assert(strip_back(empty, '.') == empty);
    law_lower(empty);
    assert(f(empty) is None);
    assert(picked(names.push(empty), f) == picked(names, f));
    assert forall|x: Seq<char>| #[trigger] host_names(t, k.valid).contains(x) <==> x.len() > 0 && (k.valid)(x)
        && exists|i: int| 0 <= i < names.len() && lower(#[trigger] names[i]) == x by {
        lemma_host_names(names, k.valid, x);
    }
    if exists|i: int| 0 <= i < names.len() && (k.valid)(lower(#[trigger] names[i])) {
        let i = choose|i: int| 0 <= i < names.len() && (k.valid)(lower(#[trigger] names[i]));
        law_lower(names[i]);
        assert(host_word(names[i]));
        assert(host_names(t, k.valid).contains(lower(names[i])));
    } else if host_names(t, k.valid).len() > 0 {
        let x = host_names(t, k.valid)[0];
        assert(host_names(t, k.valid).contains(x));
    }
}

/// Which lines are no rules: blank ones, and comments, which begin with `!` or
/// with a `#` and a blank, or are a `#` alone.
pub proof fn law_comments(t: Seq<char>)
    ensures
        no_rule(Seq::empty()),
        no_rule(seq!['!'] + t),
        no_rule(seq!['#', ' '] + t),
        no_rule(seq!['#']),
        no_rule(t) ==> t.len() == 0 || t[0] == '!' || t[0] == '#',
        t.len() > 1 && t[0] == '#' && t[1] != ' ' ==> !no_rule(t),
        t.len() > 0 && t[0] != '!' && t[0] != '#' ==> !no_rule(t),
{
    reveal_strlit("# ");
    reveal_strlit("#");
    assert((seq!['#', ' '] + t).take(2) =~= "# "@);
    assert(seq!['#'] =~= "#"@);
    if begins(t, "# "@) {
        assert(t.take(2)[0] == t[0]);
        assert(t.take(2)[1] == t[1]);
    }
}

/// Which lines are of the cosmetic family: those in which one of its four
/// separators stands, wherever that is. A line without a `#` is never one.
pub proof fn law_cosmetic(a: Seq<char>, b: Seq<char>, s: Seq<char>)
    ensures
        cosmetic(a + "##"@ + b),
        cosmetic(a + "#@#"@ + b),
        cosmetic(a + "#%#"@ + b),
        cosmetic(a + "#$#"@ + b),
        !s.contains('#') ==> !cosmetic(s),
{
    law_parts_are_found(a, "##"@, b);
    law_parts_are_found(a, "#@#"@, b);
    law_parts_are_found(a, "#%#"@, b);
    law_parts_are_found(a, "#$#"@, b);
    reveal_strlit("##");
    reveal_strlit("#@#");
    reveal_strlit("#%#");
    reveal_strlit("#$#");
    if cosmetic(s) && !s.contains('#') {
        lemma_has_hash(s, "##"@);
        lemma_has_hash(s, "#@#"@);
        lemma_has_hash(s, "#%#"@);
        lemma_has_hash(s, "#$#"@);
    }
}

proof fn lemma_has_hash(s: Seq<char>, p: Seq<char>)
    requires
        p.len() > 0,
        p[0] == '#',
        !s.contains('#'),
    ensures
        !has_text(s, p),
{
    if has_text(s, p) {
        let i = choose|i: int| 0 <= i <= s.len() && begins(#[trigger] s.skip(i), p);
        assert(s.skip(i).take(p.len() as int)[0] == p[0]);
        assert(s[i] == '#');
    }
}

/// The characters of a domain are the ASCII letters and digits, the dot, the
/// hyphen and the underscore, each of them and no other.
pub proof fn law_domain_chars(s: Seq<char>, c: char)
    ensures
        domain_chars(Seq::empty()),
        domain_chars(s.push(c)) <==> domain_chars(s) && ('a' <= c <= 'z' || 'A' <= c <= 'Z' || '0' <= c <= '9' || c == '.' || c
            == '-' || c == '_'),
{
    let t = s.push(c);
    assert(t[s.len() as int] == c);
    if domain_chars(t) {
        assert forall|i: int| 0 <= i < s.len() implies crate::rule::parse::domain_char(#[trigger] s[i]) by {
            assert(t[i] == s[i]);
        }
    }
    if domain_chars(s) && crate::rule::parse::domain_char(c) {
        assert forall|i: int| 0 <= i < t.len() implies crate::rule::parse::domain_char(#[trigger] t[i]) by {
            if i < s.len() {
                assert(t[i] == s[i]);
            }
        }
    }
}

/// A rule is unrestricted while it has none of the modifiers that say when it
/// applies; whether it is important, or taken back, is no restriction.
pub proof fn law_unrestricted(o: OptionsV)
    ensures
        o.dnstype is Some ==> !unrestricted(o),
        o.client is Some ==> !unrestricted(o),
        o.ctag is Some ==> !unrestricted(o),
        o.denyallow.len() > 0 ==> !unrestricted(o),
        o.dnsrewrite is Some ==> !unrestricted(o),
        unrestricted(OptionsV { important: o.important, badfilter: o.badfilter, ..no_options() }),
{
}

/// A comment or a blank line is told apart from a cosmetic rule, and both from
/// a rule that is refused.
pub proof fn law_no_rule_says_why(
    r: Result<Rule, ParseError>,
    line: Seq<char>,
    list_id: i64,
    k: Known,
    facts: spec_fn(Seq<char>) -> PatternFacts,
)
    requires
        outcome(r, line, list_id, k, facts),
    ensures
        no_rule(trimmed(line)) ==> (r matches Err(e) && e@ is NotARule),
        !no_rule(trimmed(line)) && cosmetic(trimmed(line)) ==> (r matches Err(e) && e@ is Cosmetic),
        !no_rule(trimmed(line)) && !cosmetic(trimmed(line)) ==> match host_address(trimmed(line), k) {
            Some(ip) => r matches Ok(Rule::Host(h)) && h.addr() == ip && h.text@ == trimmed(line) && h.list_id == list_id,
            None => network_of(trimmed(line), k, facts) is Ok == r is Ok && (r is Ok ==> r matches Ok(Rule::Network(_))),
        },
{
}

/// A pattern opens a regular expression with a slash that something follows,
/// and the next slash that is not escaped closes it.
pub proof fn law_regex_opens(t: Seq<char>, c: char, i: int)
    ensures
        opens_regex(seq!['/'] + t) == (t.len() > 0),
        c != '/' ==> !opens_regex(seq![c] + t),
        c != '/' ==> regex_ended(seq![c] + t, i),
        t.len() > 0 && 0 < i <= t.len() && t[i - 1] == '/' && !escaped(seq!['/'] + t, i) ==> regex_ended(seq!['/'] + t, i + 1),
        t.len() > 0 && !t.contains('/') && i <= t.len() + 1 ==> !regex_ended(seq!['/'] + t, i),
{
    let s = seq!['/'] + t;
    if 0 < i <= t.len() {
        assert(s[i] == t[i - 1]);
    }
    if !t.contains('/') {
        assert forall|j: int| 0 < j < s.len() implies #[trigger] s[j] != '/' by {
            assert(t.contains(t[j - 1]));
        }
    }
}

} // verus!
