//! Parsing of filter-list lines.

use vstd::prelude::*;
use vstd::slice::slice_subrange;

use crate::asked::{answer, ask, settled};
use crate::ip::Ip;
use crate::multi::picked;
use crate::rule::pool::{compile, refusal, LazyRegex};
use crate::rule::{
    no_options, unrestricted, DnsRewrite, NetworkRule, Options, OptionsV, Pattern, RewriteV, StrList, StrListV, Target,
    TypeList, TypeListV,
};
use crate::text::{
    ascii_space, begins, boxed, chars_of, contains, cut_up, escaped, find, first_at, has_text, is_ascii_space, joined,
    lower, lower_char, lowered, pieces, quoted, quoted_text, reads_as, same_but_case, same_folded, split, split_at_each,
    split_bare, split_unescaped, starts_with, string_of, strings, strip_back, texts, trim, trimmed, without_back,
};

verus! {

/// Why a rule could not be parsed.
#[derive(Debug, PartialEq, Eq)]
pub enum ParseError {
    /// The line is blank or a comment and carries no rule.
    NotARule,
    /// The line is a cosmetic rule, which DNS filtering ignores.
    Cosmetic,
    /// The rule's syntax is invalid.
    Invalid(String),
    /// The rule uses a modifier this engine does not implement.
    UnsupportedModifier(String),
}

/// A parse error, with texts as sequences.
pub enum ErrorV {
    NotARule,
    Cosmetic,
    Invalid(Seq<char>),
    UnsupportedModifier(Seq<char>),
}

/// What the error says.
pub open spec fn error_text(e: ErrorV) -> Seq<char> {
    match e {
        ErrorV::NotARule => "not a rule"@,
        ErrorV::Cosmetic => "cosmetic rules are not applicable to DNS"@,
        ErrorV::Invalid(m) => "invalid rule: "@ + m,
        ErrorV::UnsupportedModifier(m) => "unsupported modifier: "@ + m,
    }
}

impl ParseError {
    /// The error, with texts as sequences.
    pub open spec fn view(&self) -> ErrorV {
        match *self {
            ParseError::NotARule => ErrorV::NotARule,
            ParseError::Cosmetic => ErrorV::Cosmetic,
            ParseError::Invalid(m) => ErrorV::Invalid(m@),
            ParseError::UnsupportedModifier(m) => ErrorV::UnsupportedModifier(m@),
        }
    }

    /// What the error says.
    pub fn message(&self) -> (r: String)
        ensures
            r@ == error_text(self@),
    {
        match self {
            ParseError::NotARule => "not a rule".to_owned(),
            ParseError::Cosmetic => "cosmetic rules are not applicable to DNS".to_owned(),
            ParseError::Invalid(m) => joined("invalid rule: ", m.as_str()),
            ParseError::UnsupportedModifier(m) => joined("unsupported modifier: ", m.as_str()),
        }
    }
}

/// `before` and then `s` in quotes.
fn complaint(before: &str, s: &[char]) -> (r: String)
    ensures
        r@ == before@ + quoted_text(s@),
{
    let t = string_of(s);
    joined(before, quoted(t.as_str()).as_str())
}

/// The code of a record type's name.
pub open spec fn rr_type(s: Seq<char>) -> Option<u16> {
    if same_folded(s, "A"@) {
        Some(1)
    } else if same_folded(s, "NS"@) {
        Some(2)
    } else if same_folded(s, "CNAME"@) {
        Some(5)
    } else if same_folded(s, "SOA"@) {
        Some(6)
    } else if same_folded(s, "PTR"@) {
        Some(12)
    } else if same_folded(s, "HINFO"@) {
        Some(13)
    } else if same_folded(s, "MX"@) {
        Some(15)
    } else if same_folded(s, "TXT"@) {
        Some(16)
    } else if same_folded(s, "AAAA"@) {
        Some(28)
    } else if same_folded(s, "SRV"@) {
        Some(33)
    } else if same_folded(s, "NAPTR"@) {
        Some(35)
    } else if same_folded(s, "DS"@) {
        Some(43)
    } else if same_folded(s, "SSHFP"@) {
        Some(44)
    } else if same_folded(s, "RRSIG"@) {
        Some(46)
    } else if same_folded(s, "NSEC"@) {
        Some(47)
    } else if same_folded(s, "DNSKEY"@) {
        Some(48)
    } else if same_folded(s, "TLSA"@) {
        Some(52)
    } else if same_folded(s, "SVCB"@) {
        Some(64)
    } else if same_folded(s, "HTTPS"@) {
        Some(65)
    } else if same_folded(s, "CAA"@) {
        Some(257)
    } else if same_folded(s, "ANY"@) {
        Some(255)
    } else {
        None
    }
}

/// Whether `c` spells `lit`, but for case.
fn spells(c: &[char], lit: &str) -> (r: bool)
    ensures
        r == same_folded(c@, lit@),
{
    let l = chars_of(lit);
    same_but_case(c, l.as_slice())
}

/// Maps a record type name to its numeric code.
pub fn rr_type_from_str(s: &str) -> (r: Option<u16>)
    ensures
        r == rr_type(s@),
{
    let c = chars_of(s);
    type_code(c.as_slice())
}

fn type_code(c: &[char]) -> (r: Option<u16>)
    ensures
        r == rr_type(c@),
{
    if spells(c, "A") {
        Some(1)
    } else if spells(c, "NS") {
        Some(2)
    } else if spells(c, "CNAME") {
        Some(5)
    } else if spells(c, "SOA") {
        Some(6)
    } else if spells(c, "PTR") {
        Some(12)
    } else if spells(c, "HINFO") {
        Some(13)
    } else if spells(c, "MX") {
        Some(15)
    } else if spells(c, "TXT") {
        Some(16)
    } else if spells(c, "AAAA") {
        Some(28)
    } else if spells(c, "SRV") {
        Some(33)
    } else if spells(c, "NAPTR") {
        Some(35)
    } else if spells(c, "DS") {
        Some(43)
    } else if spells(c, "SSHFP") {
        Some(44)
    } else if spells(c, "RRSIG") {
        Some(46)
    } else if spells(c, "NSEC") {
        Some(47)
    } else if spells(c, "DNSKEY") {
        Some(48)
    } else if spells(c, "TLSA") {
        Some(52)
    } else if spells(c, "SVCB") {
        Some(64)
    } else if spells(c, "HTTPS") {
        Some(65)
    } else if spells(c, "CAA") {
        Some(257)
    } else if spells(c, "ANY") {
        Some(255)
    } else {
        None
    }
}

/// The value of a response code's name.
pub open spec fn rcode(s: Seq<char>) -> Option<u16> {
    if same_folded(s, "NOERROR"@) {
        Some(0)
    } else if same_folded(s, "FORMERR"@) {
        Some(1)
    } else if same_folded(s, "SERVFAIL"@) {
        Some(2)
    } else if same_folded(s, "NXDOMAIN"@) {
        Some(3)
    } else if same_folded(s, "NOTIMP"@) {
        Some(4)
    } else if same_folded(s, "REFUSED"@) {
        Some(5)
    } else {
        None
    }
}

/// Maps a response code name to its numeric value.
pub fn rcode_from_str(s: &str) -> (r: Option<u16>)
    ensures
        r == rcode(s@),
{
    let c = chars_of(s);
    code_of(c.as_slice())
}

fn code_of(c: &[char]) -> (r: Option<u16>)
    ensures
        r == rcode(c@),
{
    if spells(c, "NOERROR") {
        Some(0)
    } else if spells(c, "FORMERR") {
        Some(1)
    } else if spells(c, "SERVFAIL") {
        Some(2)
    } else if spells(c, "NXDOMAIN") {
        Some(3)
    } else if spells(c, "NOTIMP") {
        Some(4)
    } else if spells(c, "REFUSED") {
        Some(5)
    } else {
        None
    }
}

/// The list that `|`-separated values make: each trimmed, empty ones left
/// out, one with a `~` before it excluded.
pub open spec fn str_list(parts: Seq<Seq<char>>) -> StrListV
    decreases parts.len(),
{
    if parts.len() == 0 {
        StrListV { included: Seq::empty(), excluded: Seq::empty() }
    } else {
        let l = str_list(parts.drop_last());
        let v = trimmed(parts.last());
        if v.len() == 0 {
            l
        } else if v[0] == '~' {
            StrListV { excluded: l.excluded.push(v.skip(1)), ..l }
        } else {
            StrListV { included: l.included.push(v), ..l }
        }
    }
}

/// Parses a `|`-separated list of possibly negated values.
pub fn parse_str_list(s: &str) -> (r: StrList)
    ensures
        r@ == str_list(split(s@, '|')),
{
    let c = chars_of(s);
    values_of(c.as_slice())
}

fn values_of(s: &[char]) -> (r: StrList)
    ensures
        r@ == str_list(split(s@, '|')),
{
    let mut l = StrList { included: Vec::new(), excluded: Vec::new() };
    let parts = split_at_each(s, '|');
    let ghost ps = texts(parts@);
    let mut i: usize = 0;
    assert(l@ =~= str_list(ps.take(0)));
    while i < parts.len()
        invariant
            i <= parts@.len(),
            ps == texts(parts@),
            l@ == str_list(ps.take(i as int)),
        decreases parts@.len() - i,
    {
        let v = trim(parts[i]);
        let ghost before = l@;
        let n: usize = v.len();
        proof {
            assert(ps.take(i + 1).drop_last() =~= ps.take(i as int));
            assert(ps.take(i + 1).last() == parts@[i as int]@);
        }
        if n > 0 {
            if v[0] == '~' {
                let neg = string_of(slice_subrange(v, 1, n));
                assert(neg@ =~= v@.skip(1));
                l.excluded.push(neg);
                assert(l@ =~= StrListV { excluded: before.excluded.push(v@.skip(1)), ..before });
            } else {
                l.included.push(string_of(v));
                assert(l@ =~= StrListV { included: before.included.push(v@), ..before });
            }
        }
        i = i + 1;
    }
    assert(ps.take(i as int) =~= ps);
    l
}

/// The list that `|`-separated record types make, or the first that is none.
pub open spec fn type_list(parts: Seq<Seq<char>>) -> Result<TypeListV, Seq<char>>
    decreases parts.len(),
{
    if parts.len() == 0 {
        Ok(TypeListV { included: Seq::empty(), excluded: Seq::empty() })
    } else {
        match type_list(parts.drop_last()) {
            Err(e) => Err(e),
            Ok(l) => {
                let v = trimmed(parts.last());
                if v.len() == 0 {
                    Ok(l)
                } else {
                    let neg = v[0] == '~';
                    let name = if neg { v.skip(1) } else { v };
                    match rr_type(name) {
                        None => Err(name),
                        Some(t) => if neg {
                            Ok(TypeListV { excluded: l.excluded.push(t), ..l })
                        } else {
                            Ok(TypeListV { included: l.included.push(t), ..l })
                        },
                    }
                }
            },
        }
    }
}

/// Whether `r` is what parsing gives, with an unknown record type named in
/// the error.
pub open spec fn type_list_outcome(r: Result<TypeList, ParseError>, want: Result<TypeListV, Seq<char>>) -> bool {
    match (r, want) {
        (Ok(l), Ok(w)) => l@ == w,
        (Err(e), Err(name)) => e@ == ErrorV::Invalid("unknown dns type "@ + quoted_text(name)),
        _ => false,
    }
}

proof fn lemma_type_list_error(parts: Seq<Seq<char>>, i: int)
    requires
        0 <= i <= parts.len(),
        type_list(parts.take(i)) is Err,
    ensures
        type_list(parts) == type_list(parts.take(i)),
    decreases parts.len() - i,
{
    if i < parts.len() {
        assert(parts.take(i + 1).drop_last() =~= parts.take(i));
        lemma_type_list_error(parts, i + 1);
    } else {
        assert(parts.take(i) =~= parts);
    }
}

/// Parses a `|`-separated list of possibly negated record types.
pub fn parse_type_list(s: &str) -> (r: Result<TypeList, ParseError>)
    ensures
        type_list_outcome(r, type_list(split(s@, '|'))),
{
    let c = chars_of(s);
    types_of(c.as_slice())
}

fn types_of(s: &[char]) -> (r: Result<TypeList, ParseError>)
    ensures
        type_list_outcome(r, type_list(split(s@, '|'))),
{
    let mut l = TypeList { included: Vec::new(), excluded: Vec::new() };
    let parts = split_at_each(s, '|');
    let ghost ps = texts(parts@);
    let mut i: usize = 0;
    assert(type_list(ps.take(0)) == Ok::<TypeListV, Seq<char>>(l@));
    while i < parts.len()
        invariant
            i <= parts@.len(),
            ps == texts(parts@),
            ps == split(s@, '|'),
            type_list(ps.take(i as int)) == Ok::<TypeListV, Seq<char>>(l@),
        decreases parts@.len() - i,
    {
        let v = trim(parts[i]);
        let n: usize = v.len();
        proof {
            assert(ps.take(i + 1).drop_last() =~= ps.take(i as int));
            assert(ps.take(i + 1).last() == parts@[i as int]@);
        }
        if n > 0 {
            let neg = v[0] == '~';
            let name = if neg {
                slice_subrange(v, 1, n)
            } else {
                v
            };
            assert(neg ==> name@ =~= v@.skip(1));
            match type_code(name) {
                None => {
                    proof {
                        assert(type_list(ps.take(i + 1)) == Err::<TypeListV, Seq<char>>(name@));
                        lemma_type_list_error(ps, i + 1);
                    }
                    return Err(ParseError::Invalid(complaint("unknown dns type ", name)));
                },
                Some(t) => {
                    if neg {
                        l.excluded.push(t);
                    } else {
                        l.included.push(t);
                    }
                },
            }
        }
        i = i + 1;
    }
    assert(ps.take(i as int) =~= ps);
    Ok(l)
}

/// What a caller knows of texts: whether one is a valid name, and which
/// address it spells.
pub ghost struct Known {
    pub valid: spec_fn(Seq<char>) -> bool,
    pub address: spec_fn(Seq<char>) -> Option<Ip>,
}

/// What `valid` and `address` say of texts.
pub open spec fn known<V: Fn(&str) -> bool, A: Fn(&str) -> Option<Ip>>(valid: V, address: A) -> Known {
    Known { valid: |s: Seq<char>| answer(valid, s), address: |s: Seq<char>| answer(address, s) }
}

/// The response that a `$dnsrewrite` value stands for, or what is wrong with
/// it.
///
/// The shorthand forms are a response code's name, an address and a domain
/// name; the full form is a code, a record type and a value, of which only
/// `NOERROR` looks past the code. No value at all is `NOERROR`.
pub open spec fn rewrite_of(s: Seq<char>, k: Known) -> Result<RewriteV, Seq<char>> {
    let parts = split(s, ';');
    if s.len() == 0 {
        Ok(RewriteV::RCode(0))
    } else if parts.len() == 1 {
        match rcode(s) {
            Some(c) => Ok(RewriteV::RCode(c)),
            None => match (k.address)(s) {
                Some(a) => Ok(RewriteV::Addr(a)),
                None => if (k.valid)(s) {
                    Ok(RewriteV::CName(lower(s)))
                } else {
                    Err("bad dnsrewrite value "@ + quoted_text(s))
                },
            },
        }
    } else if parts.len() == 2 {
        match rcode(parts[0]) {
            Some(c) => Ok(RewriteV::RCode(c)),
            None => Err("bad rcode "@ + quoted_text(parts[0])),
        }
    } else if parts.len() == 3 {
        match rcode(parts[0]) {
            None => Err("bad rcode "@ + quoted_text(parts[0])),
            Some(c) => if c != 0 {
                Ok(RewriteV::RCode(c))
            } else {
                match rr_type(parts[1]) {
                    None => Err("bad type "@ + quoted_text(parts[1])),
                    Some(t) => if t == 1 || t == 28 {
                        match (k.address)(parts[2]) {
                            Some(a) => Ok(RewriteV::Addr(a)),
                            None => Err("bad address "@ + quoted_text(parts[2])),
                        }
                    } else if t == 5 {
                        Ok(RewriteV::CName(lower(parts[2])))
                    } else {
                        Ok(RewriteV::Record(t, parts[2]))
                    },
                }
            },
        }
    } else {
        Err("bad dnsrewrite "@ + quoted_text(s))
    }
}

/// Whether `r` is what parsing gives.
pub open spec fn rewrite_outcome(r: Result<DnsRewrite, ParseError>, want: Result<RewriteV, Seq<char>>) -> bool {
    match (r, want) {
        (Ok(w), Ok(v)) => w@ == v,
        (Err(e), Err(m)) => e@ == ErrorV::Invalid(m),
        _ => false,
    }
}

proof fn lemma_single_piece(s: Seq<char>, sep: char)
    requires
        split(s, sep).len() == 1,
    ensures
        split(s, sep)[0] == s,
{
    crate::text::law_split_join(s, sep);
}

/// Parses a `$dnsrewrite` value.
pub fn parse_dnsrewrite<V: Fn(&str) -> bool, A: Fn(&str) -> Option<Ip>>(
    s: &[char],
    valid: &V,
    address: &A,
) -> (r: Result<DnsRewrite, ParseError>)
    requires
        settled(*valid),
        settled(*address),
    ensures
        rewrite_outcome(r, rewrite_of(s@, known(*valid, *address))),
{
    if s.len() == 0 {
        return Ok(DnsRewrite::RCode(0));
    }
    let parts = split_at_each(s, ';');
    let ghost ps = texts(parts@);
    proof {
        crate::text::law_split_join(s@, ';');
        if parts@.len() == 1 {
            lemma_single_piece(s@, ';');
        }
    }
    if parts.len() == 1 {
        let one = parts[0];
        assert(ps[0] == one@);
        if let Some(rc) = code_of(one) {
            return Ok(DnsRewrite::RCode(rc));
        }
        let text = string_of(one);
        if let Some(ip) = ask(address, text.as_str()) {
            return Ok(DnsRewrite::Addr(ip));
        }
        if ask(valid, text.as_str()) {
            return Ok(DnsRewrite::CName(string_of(lowered(one).as_slice())));
        }
        return Err(ParseError::Invalid(complaint("bad dnsrewrite value ", one)));
    }
    if parts.len() == 2 || parts.len() == 3 {
        assert(ps[0] == parts@[0]@);
        let rc = match code_of(parts[0]) {
            None => {
                return Err(ParseError::Invalid(complaint("bad rcode ", parts[0])));
            },
            Some(rc) => rc,
        };
        if rc != 0 || parts.len() == 2 {
            return Ok(DnsRewrite::RCode(rc));
        }
        assert(ps[1] == parts@[1]@);
        assert(ps[2] == parts@[2]@);
        let t = match type_code(parts[1]) {
            None => {
                return Err(ParseError::Invalid(complaint("bad type ", parts[1])));
            },
            Some(t) => t,
        };
        let value = parts[2];
        if t == 1 || t == 28 {
            let text = string_of(value);
            return match ask(address, text.as_str()) {
                Some(ip) => Ok(DnsRewrite::Addr(ip)),
                None => Err(ParseError::Invalid(complaint("bad address ", value))),
            };
        }
        if t == 5 {
            return Ok(DnsRewrite::CName(string_of(lowered(value).as_slice())));
        }
        return Ok(DnsRewrite::Record { rtype: t, value: string_of(value) });
    }
    Err(ParseError::Invalid(complaint("bad dnsrewrite ", s)))
}

/// Whether a text is of digits and dots alone, as that of an IPv4 address is.
pub open spec fn dotted(s: Seq<char>) -> bool {
    s.len() > 0 && forall|i: int| 0 <= i < s.len() ==> '0' <= #[trigger] s[i] <= '9' || s[i] == '.'
}

proof fn lemma_dotted_is_no_word(s: Seq<char>, w: Seq<char>)
    requires
        dotted(s),
        w.len() > 0,
        'A' <= w[0] <= 'Z',
    ensures
        !same_folded(s, w),
{
    if lower(s) == lower(w) {
        assert(lower(s)[0] == lower_char(s[0]));
        assert(lower(w)[0] == lower_char(w[0]));
    }
}

/// The shorthand and the full form of an IPv4 address are one rewrite: the
/// address, and the same after a code and a type, stand for the same response.
pub proof fn law_short_and_full_address(ip: Seq<char>, k: Known)
    requires
        dotted(ip),
        (k.address)(ip) is Some,
    ensures
        rewrite_of(ip, k) == Ok::<RewriteV, Seq<char>>(RewriteV::Addr((k.address)(ip)->0)),
        rewrite_of("NOERROR;A;"@ + ip, k) == rewrite_of(ip, k),
{
    reveal_strlit("NOERROR;A;");
    reveal_strlit("NOERROR");
    reveal_strlit("FORMERR");
    reveal_strlit("SERVFAIL");
    reveal_strlit("NXDOMAIN");
    reveal_strlit("NOTIMP");
    reveal_strlit("REFUSED");
    reveal_strlit("A");
    lemma_dotted_is_no_word(ip, "NOERROR"@);
    lemma_dotted_is_no_word(ip, "FORMERR"@);
    lemma_dotted_is_no_word(ip, "SERVFAIL"@);
    lemma_dotted_is_no_word(ip, "NXDOMAIN"@);
    lemma_dotted_is_no_word(ip, "NOTIMP"@);
    lemma_dotted_is_no_word(ip, "REFUSED"@);
    assert(!ip.contains(';'));
    crate::text::lemma_split_none(ip, ';');
    let rest = "A"@ + seq![';'] + ip;
    let full = "NOERROR;A;"@ + ip;
    assert(!"NOERROR"@.contains(';'));
    assert(!"A"@.contains(';'));
    assert(full =~= "NOERROR"@ + seq![';'] + rest);
    crate::text::lemma_split_front("NOERROR"@, ';', rest);
    crate::text::lemma_split_front("A"@, ';', ip);
    assert(split(full, ';') =~= seq!["NOERROR"@, "A"@, ip]);
    assert(rcode("NOERROR"@) == Some(0u16));
    assert(rr_type("A"@) == Some(1u16));
}

/// Modifiers that mean something to HTTP filtering and nothing to DNS.
pub open spec fn inert(name: Seq<char>) -> bool {
    ||| name == "domain"@
    ||| name == "third-party"@
    ||| name == "~third-party"@
    ||| name == "3p"@
    ||| name == "~3p"@
    ||| name == "first-party"@
    ||| name == "~first-party"@
    ||| name == "app"@
    ||| name == "network"@
    ||| name == "popup"@
    ||| name == "document"@
    ||| name == "doc"@
    ||| name == "all"@
    ||| name == "method"@
    ||| name == "to"@
    ||| name == "extension"@
    ||| name == "~extension"@
}

fn is_inert(name: &[char]) -> (r: bool)
    ensures
        r == inert(name@),
{
    reads_as(name, "domain") || reads_as(name, "third-party") || reads_as(name, "~third-party") || reads_as(name, "3p") || reads_as(name, "~3p")
        || reads_as(name, "first-party") || reads_as(name, "~first-party") || reads_as(name, "app") || reads_as(name, "network") || reads_as(
        name,
        "popup",
    ) || reads_as(name, "document") || reads_as(name, "doc") || reads_as(name, "all") || reads_as(name, "method") || reads_as(name, "to") || reads_as(
        name,
        "extension",
    ) || reads_as(name, "~extension")
}

/// The domains of a `$denyallow` value: in lower case, empty ones left out.
pub open spec fn deny_list(value: Seq<char>) -> Seq<Seq<char>> {
    picked(split(value, '|'), |v: Seq<char>| if v.len() == 0 { None } else { Some(lower(v)) })
}

fn denied(value: &[char]) -> (r: Vec<String>)
    ensures
        strings(r@) == deny_list(value@),
{
    let f: Ghost<spec_fn(Seq<char>) -> Option<Seq<char>>> = Ghost(
        |v: Seq<char>| if v.len() == 0 { None } else { Some(lower(v)) },
    );
    let mut out: Vec<String> = Vec::new();
    let parts = split_at_each(value, '|');
    let ghost ps = texts(parts@);
    let mut i: usize = 0;
    assert(strings(out@) =~= picked(ps.take(0), f@));
    while i < parts.len()
        invariant
            i <= parts@.len(),
            ps == texts(parts@),
            f@ == (|v: Seq<char>| if v.len() == 0 { None } else { Some(lower(v)) }),
            strings(out@) == picked(ps.take(i as int), f@),
        decreases parts@.len() - i,
    {
        let ghost before = out@;
        proof {
            assert(ps.take(i + 1).drop_last() =~= ps.take(i as int));
            assert(ps.take(i + 1).last() == parts@[i as int]@);
        }
        if parts[i].len() > 0 {
            out.push(string_of(lowered(parts[i]).as_slice()));
            assert(strings(out@) =~= strings(before).push(lower(parts@[i as int]@)));
        }
        i = i + 1;
    }
    assert(ps.take(i as int) =~= ps);
    out
}

/// What the modifier `part` makes of `o`.
pub open spec fn with_option(o: OptionsV, part: Seq<char>, k: Known) -> Result<OptionsV, ErrorV> {
    let eq = first_at(part, '=');
    let name = part.take(eq);
    let value = if eq < part.len() { part.skip(eq + 1) } else { Seq::empty() };
    if part.len() == 0 {
        Ok(o)
    } else if name == "important"@ {
        Ok(OptionsV { important: true, ..o })
    } else if name == "badfilter"@ {
        Ok(OptionsV { badfilter: true, ..o })
    } else if name == "dnstype"@ {
        match type_list(split(value, '|')) {
            Ok(l) => Ok(OptionsV { dnstype: Some(l), ..o }),
            Err(n) => Err(ErrorV::Invalid("unknown dns type "@ + quoted_text(n))),
        }
    } else if name == "client"@ {
        Ok(OptionsV { client: Some(str_list(split(value, '|'))), ..o })
    } else if name == "ctag"@ {
        Ok(OptionsV { ctag: Some(str_list(split(value, '|'))), ..o })
    } else if name == "denyallow"@ {
        Ok(OptionsV { denyallow: deny_list(value), ..o })
    } else if name == "dnsrewrite"@ {
        match rewrite_of(value, k) {
            Ok(w) => Ok(OptionsV { dnsrewrite: Some(w), ..o }),
            Err(m) => Err(ErrorV::Invalid(m)),
        }
    } else if inert(name) {
        Ok(o)
    } else {
        Err(ErrorV::UnsupportedModifier(name))
    }
}

/// The modifiers that `parts` make, one after the other, or the first error.
pub open spec fn options_of(parts: Seq<Seq<char>>, k: Known) -> Result<OptionsV, ErrorV>
    decreases parts.len(),
{
    if parts.len() == 0 {
        Ok(no_options())
    } else {
        match options_of(parts.drop_last(), k) {
            Err(e) => Err(e),
            Ok(o) => with_option(o, trimmed(parts.last()), k),
        }
    }
}

/// Whether `r` is what parsing modifiers gives.
pub open spec fn options_outcome(r: Result<Options, ParseError>, want: Result<OptionsV, ErrorV>) -> bool {
    match (r, want) {
        (Ok(o), Ok(w)) => o@ == w,
        (Err(e), Err(m)) => e@ == m,
        _ => false,
    }
}

proof fn lemma_options_error(parts: Seq<Seq<char>>, k: Known, i: int)
    requires
        0 <= i <= parts.len(),
        options_of(parts.take(i), k) is Err,
    ensures
        options_of(parts, k) == options_of(parts.take(i), k),
    decreases parts.len() - i,
{
    if i < parts.len() {
        assert(parts.take(i + 1).drop_last() =~= parts.take(i));
        lemma_options_error(parts, k, i + 1);
    } else {
        assert(parts.take(i) =~= parts);
    }
}

/// Takes the modifier `part` into `o`.
fn take_option<V: Fn(&str) -> bool, A: Fn(&str) -> Option<Ip>>(
    o: &mut Options,
    part: &[char],
    valid: &V,
    address: &A,
) -> (r: Result<(), ParseError>)
    requires
        settled(*valid),
        settled(*address),
    ensures
        match (r, with_option(old(o)@, part@, known(*valid, *address))) {
            (Ok(_), Ok(w)) => final(o)@ == w,
            (Err(e), Err(m)) => e@ == m,
            _ => false,
        },
{
    let n: usize = part.len();
    if n == 0 {
        return Ok(());
    }
    let eq = find(part, '=');
    let name = slice_subrange(part, 0, eq);
    let value = if eq < n {
        slice_subrange(part, eq + 1, n)
    } else {
        slice_subrange(part, n, n)
    };
    proof {
        assert(name@ =~= part@.take(eq as int));
        if eq < n {
            assert(value@ =~= part@.skip(eq + 1));
        } else {
            assert(value@ =~= Seq::<char>::empty());
        }
    }
    if reads_as(name, "important") {
        o.important = true;
        assert(o@ =~= OptionsV { important: true, ..old(o)@ });
    } else if reads_as(name, "badfilter") {
        o.badfilter = true;
        assert(o@ =~= OptionsV { badfilter: true, ..old(o)@ });
    } else if reads_as(name, "dnstype") {
        match types_of(value) {
            Ok(l) => {
                o.dnstype = Some(l);
                assert(o@ =~= OptionsV { dnstype: Some(l@), ..old(o)@ });
            },
            Err(e) => {
                return Err(e);
            },
        }
    } else if reads_as(name, "client") {
        let l = values_of(value);
        o.client = Some(l);
        assert(o@ =~= OptionsV { client: Some(l@), ..old(o)@ });
    } else if reads_as(name, "ctag") {
        let l = values_of(value);
        o.ctag = Some(l);
        assert(o@ =~= OptionsV { ctag: Some(l@), ..old(o)@ });
    } else if reads_as(name, "denyallow") {
        o.denyallow = denied(value);
        assert(o@ =~= OptionsV { denyallow: deny_list(value@), ..old(o)@ });
    } else if reads_as(name, "dnsrewrite") {
        match parse_dnsrewrite(value, valid, address) {
            Ok(w) => {
                o.dnsrewrite = Some(w);
                assert(o@ =~= OptionsV { dnsrewrite: Some(w@), ..old(o)@ });
            },
            Err(e) => {
                return Err(e);
            },
        }
    } else if !is_inert(name) {
        return Err(ParseError::UnsupportedModifier(string_of(name)));
    }
    Ok(())
}

/// Parses a comma-separated modifier list.
pub fn parse_options<V: Fn(&str) -> bool, A: Fn(&str) -> Option<Ip>>(
    s: &[char],
    valid: &V,
    address: &A,
) -> (r: Result<Options, ParseError>)
    requires
        settled(*valid),
        settled(*address),
    ensures
        options_outcome(r, options_of(split_bare(s@, ','), known(*valid, *address))),
{
    let ghost k = known(*valid, *address);
    let mut o = Options::default();
    let parts = split_unescaped(s, ',');
    let ghost ps = texts(parts@);
    let mut i: usize = 0;
    while i < parts.len()
        invariant
            settled(*valid),
            settled(*address),
            k == known(*valid, *address),
            i <= parts@.len(),
            ps == texts(parts@),
            ps == split_bare(s@, ','),
            options_of(ps.take(i as int), k) == Ok::<OptionsV, ErrorV>(o@),
        decreases parts@.len() - i,
    {
        let part = trim(parts[i]);
        proof {
            assert(ps.take(i + 1).drop_last() =~= ps.take(i as int));
            assert(ps.take(i + 1).last() == parts@[i as int]@);
        }
        match take_option(&mut o, part, valid, address) {
            Ok(_) => {},
            Err(e) => {
                proof {
                    assert(options_of(ps.take(i + 1), k) == Err::<OptionsV, ErrorV>(e@));
                    lemma_options_error(ps, k, i + 1);
                }
                return Err(e);
            },
        }
        i = i + 1;
    }
    assert(ps.take(i as int) =~= ps);
    Ok(o)
}

/// Whether the pattern begins a `/regex/`.
pub open spec fn opens_regex(s: Seq<char>) -> bool {
    s.len() > 1 && s[0] == '/'
}

/// Whether a `/` before `i` has ended the `/regex/` that `s` begins.
pub open spec fn regex_ended(s: Seq<char>, i: int) -> bool {
    !opens_regex(s) || exists|j: int| 0 < j < i && #[trigger] s[j] == '/' && !escaped(s, j)
}

/// Whether a `$` at `i` can begin the modifiers: one that is neither escaped
/// nor inside a `/regex/`.
pub open spec fn can_begin_options(s: Seq<char>, i: int) -> bool {
    0 <= i < s.len() && s[i] == '$' && !escaped(s, i) && regex_ended(s, i)
}

/// Where the modifiers begin: at the last such `$` before `upto`, or -1.
pub open spec fn options_at(s: Seq<char>, upto: int) -> int
    decreases upto,
{
    if upto <= 0 {
        -1
    } else if can_begin_options(s, upto - 1) {
        upto - 1
    } else {
        options_at(s, upto - 1)
    }
}

/// Where the modifiers begin, if anywhere.
fn find_options(s: &[char]) -> (r: Option<usize>)
    ensures
        match r {
            Some(i) => i < s@.len() && i == options_at(s@, s@.len() as int),
            None => options_at(s@, s@.len() as int) == -1,
        },
{
    let n: usize = s.len();
    let in_regex = n > 1 && s[0] == '/';
    let mut closed = !in_regex;
    let mut esc = false;
    let mut found: Option<usize> = None;
    let mut i: usize = 0;
    while i < n
        invariant
            n == s@.len(),
            i <= n,
            in_regex == opens_regex(s@),
            closed == regex_ended(s@, i as int),
            esc == escaped(s@, i as int),
            match found {
                Some(f) => f < i && f == options_at(s@, i as int),
                None => options_at(s@, i as int) == -1,
            },
        decreases n - i,
    {
        let x = s[i];
        let ghost was = closed;
        if !esc {
            if x == '/' && in_regex && i > 0 {
                closed = true;
            } else if x == '$' && closed {
                found = Some(i);
            }
        }
        proof {
            if closed && !was {
                assert(s@[i as int] == '/' && !escaped(s@, i as int));
            }
            assert(closed == regex_ended(s@, i + 1)) by {
                if regex_ended(s@, i + 1) && opens_regex(s@) {
                    let j = choose|j: int| 0 < j < i + 1 && #[trigger] s@[j] == '/' && !escaped(s@, j);
                    if j < i {
                        assert(regex_ended(s@, i as int));
                    }
                }
            }
        }
        esc = x == '\\' && !esc;
        i = i + 1;
    }
    found
}

/// Splits a rule body into its pattern and its parsed modifiers.
///
/// The `$` that introduces modifiers is the last unescaped one that is not
/// inside a `/regex/` pattern.
pub fn split_options<'a, V: Fn(&str) -> bool, A: Fn(&str) -> Option<Ip>>(
    s: &'a [char],
    valid: &V,
    address: &A,
) -> (r: Result<(&'a [char], Options), ParseError>)
    requires
        settled(*valid),
        settled(*address),
    ensures
        match (r, split_body(s@, known(*valid, *address))) {
            (Ok(p), Ok(w)) => p.0@ == w.0 && p.1@ == w.1,
            (Err(e), Err(m)) => e@ == m,
            _ => false,
        },
{
    let n: usize = s.len();
    match find_options(s) {
        None => Ok((s, Options::default())),
        Some(i) => {
            let rest = slice_subrange(s, i + 1, n);
            assert(rest@ =~= s@.skip(i + 1));
            let head = slice_subrange(s, 0, i);
            assert(head@ =~= s@.take(i as int));
            match parse_options(rest, valid, address) {
                Ok(o) => Ok((head, o)),
                Err(e) => Err(e),
            }
        },
    }
}

/// A rule body's pattern and modifiers.
pub open spec fn split_body(s: Seq<char>, k: Known) -> Result<(Seq<char>, OptionsV), ErrorV> {
    let i = options_at(s, s.len() as int);
    if i < 0 {
        Ok((s, no_options()))
    } else {
        match options_of(split_bare(s.skip(i + 1), ','), k) {
            Ok(o) => Ok((s.take(i), o)),
            Err(e) => Err(e),
        }
    }
}

/// Whether every character may stand in a domain that a rule is anchored to.
pub open spec fn domain_chars(s: Seq<char>) -> bool {
    forall|i: int| 0 <= i < s.len() ==> domain_char(#[trigger] s[i])
}

/// A letter or digit of ASCII, a dot, a hyphen or an underscore.
pub open spec fn domain_char(c: char) -> bool {
    ('a' <= c && c <= 'z') || ('A' <= c && c <= 'Z') || ('0' <= c && c <= '9') || c == '.' || c == '-' || c == '_'
}

/// The domain of a `||domain^` pattern, if `s` is exactly that shape.
pub open spec fn anchor_of(s: Seq<char>, k: Known) -> Option<Seq<char>> {
    let dom = s.subrange(2, s.len() - 1);
    if s.len() > 3 && s[0] == '|' && s[1] == '|' && s.last() == '^' && (k.valid)(dom) && domain_chars(dom) {
        Some(lower(dom))
    } else {
        None
    }
}

/// Returns the domain of a `||domain^` pattern, if `s` is exactly that shape.
///
/// The trailing `^` is required: without it the pattern is a prefix match,
/// which a suffix walk would get wrong.
pub fn domain_anchor_of<V: Fn(&str) -> bool, A: Fn(&str) -> Option<Ip>>(
    s: &[char],
    valid: &V,
    address: &A,
) -> (r: Option<String>)
    requires
        settled(*valid),
    ensures
        match (r, anchor_of(s@, known(*valid, *address))) {
            (Some(d), Some(w)) => d@ == w,
            (None, None) => true,
            _ => false,
        },
{
    let n: usize = s.len();
    if n <= 3 || s[0] != '|' || s[1] != '|' || s[n - 1] != '^' {
        return None;
    }
    let dom = slice_subrange(s, 2, n - 1);
    let text = string_of(dom);
    if !ask(valid, text.as_str()) {
        return None;
    }
    if !may_be_domain(dom) {
        return None;
    }
    Some(string_of(lowered(dom).as_slice()))
}

/// Whether every character may stand in a domain that a rule is anchored to.
fn may_be_domain(dom: &[char]) -> (r: bool)
    ensures
        r == domain_chars(dom@),
{
    let mut i: usize = 0;
    while i < dom.len()
        invariant
            i <= dom@.len(),
            forall|k: int| 0 <= k < i ==> domain_char(#[trigger] dom@[k]),
        decreases dom@.len() - i,
    {
        let c = dom[i];
        if !(('a' <= c && c <= 'z') || ('A' <= c && c <= 'Z') || ('0' <= c && c <= '9') || c == '.' || c == '-' || c
            == '_') {
            assert(!domain_char(dom@[i as int]));
            return false;
        }
        i = i + 1;
    }
    true
}

/// What a caller knows of a pattern.
pub struct PatternFacts {
    /// Whether the pattern matches every hostname.
    pub matches_all: bool,
    /// The source of the expression that the pattern stands for.
    pub source: String,
    /// Whether the pattern is an expression written by hand.
    pub handwritten: bool,
    /// What the expression is matched against.
    pub target: Target,
    /// The longest literal run in the pattern, if it is long enough to index.
    pub shortcut: Option<String>,
}

/// A parsed pattern.
#[verifier::ext_equal]
pub enum PatternV {
    DomainAnchor,
    Any,
    /// The source, what it is matched against, and whether it is built.
    Rx(Seq<char>, Target, bool),
}

impl Pattern {
    /// The pattern, with its expression as a source.
    pub open spec fn view(&self) -> PatternV {
        match *self {
            Pattern::DomainAnchor => PatternV::DomainAnchor,
            Pattern::Any => PatternV::Any,
            Pattern::Rx { re, target } => PatternV::Rx(re.text(), target, re.built()),
        }
    }

    /// Whether the expression agrees with its source, and is built only where
    /// it is to stay so.
    pub open spec fn wf(&self) -> bool {
        match *self {
            Pattern::Rx { re, target } => re.wf() && re.built() == re.kept(),
            _ => true,
        }
    }
}

/// The pattern that `s` stands for, and the domain to index it under.
///
/// An expression written by hand is compiled, and refused where it will not
/// compile; any other is left for its first use.
pub open spec fn pattern_of(s: Seq<char>, k: Known, f: PatternFacts) -> Result<(PatternV, Option<Seq<char>>), Seq<char>> {
    if f.matches_all {
        Ok((PatternV::Any, None))
    } else if anchor_of(s, k) is Some {
        Ok((PatternV::DomainAnchor, anchor_of(s, k)))
    } else if f.handwritten {
        match refusal(f.source@) {
            None => Ok((PatternV::Rx(f.source@, f.target, true), None)),
            Some(m) => Err(
                "pattern "@ + quoted_text(s) + " -> "@ + quoted_text(f.source@) + ": "@ + m,
            ),
        }
    } else {
        Ok((PatternV::Rx(f.source@, f.target, false), None))
    }
}

/// What an optional string reads.
pub open spec fn text_view(s: Option<String>) -> Option<Seq<char>> {
    match s {
        Some(t) => Some(t@),
        None => None,
    }
}

/// Parses a rule's pattern, returning it and the domain to index it under.
pub fn parse_pattern<V: Fn(&str) -> bool, A: Fn(&str) -> Option<Ip>>(
    s: &[char],
    facts: &PatternFacts,
    valid: &V,
    address: &A,
) -> (r: Result<(Pattern, Option<String>), ParseError>)
    requires
        settled(*valid),
    ensures
        match (r, pattern_of(s@, known(*valid, *address), *facts)) {
            (Ok(p), Ok(w)) => p.0.wf() && p.0@ == w.0 && text_view(p.1) == w.1,
            (Err(e), Err(m)) => e@ == ErrorV::Invalid(m),
            _ => false,
        },
{
    if facts.matches_all {
        return Ok((Pattern::Any, None));
    }
    if let Some(dom) = domain_anchor_of(s, valid, address) {
        return Ok((Pattern::DomainAnchor, Some(dom)));
    }
    if !facts.handwritten {
        let re = LazyRegex::new(facts.source.clone());
        return Ok((Pattern::Rx { re, target: facts.target }, None));
    }
    match compile(facts.source.as_str()) {
        Ok(re) => {
            let lazy = LazyRegex::compiled(facts.source.clone(), re);
            Ok((Pattern::Rx { re: lazy, target: facts.target }, None))
        },
        Err(m) => {
            let head = complaint("pattern ", s);
            let head = joined(head.as_str(), " -> ");
            let head = joined(head.as_str(), quoted(facts.source.as_str()).as_str());
            let head = joined(head.as_str(), ": ");
            Err(ParseError::Invalid(joined(head.as_str(), m.as_str())))
        },
    }
}

/// A network rule, the prefilter shortcut of its pattern and its expression.
///
/// Only the index needs the shortcut and only the pool the expression, so
/// they are kept beside the rule rather than inside it.
pub struct ParsedNetwork {
    /// The rule itself.
    pub rule: NetworkRule,
    /// The domain of an anchored rule, or the longest literal run in the
    /// pattern, if it is long enough to index.
    pub shortcut: Option<String>,
    /// The expression, for a pattern that needs one.
    pub expr: Option<LazyRegex>,
}

/// What parsing a network rule comes to.
#[verifier::ext_equal]
pub struct ParsedV {
    pub allowlist: bool,
    pub opts: OptionsV,
    pub pattern: PatternV,
    pub shortcut: Option<Seq<char>>,
}

impl ParsedNetwork {
    /// The pattern's kind and expression.
    pub open spec fn pattern(&self) -> PatternV {
        match self.rule@.kind {
            crate::rule::Kind::Anchor => PatternV::DomainAnchor,
            crate::rule::Kind::Any => PatternV::Any,
            crate::rule::Kind::Rx(target) => match self.expr {
                Some(re) => PatternV::Rx(re.text(), target, re.built()),
                None => PatternV::Any,
            },
        }
    }

    /// The rule as parsed.
    pub open spec fn view(&self) -> ParsedV {
        ParsedV {
            allowlist: self.rule@.allowlist,
            opts: self.rule@.opts,
            pattern: self.pattern(),
            shortcut: text_view(self.shortcut),
        }
    }

    /// Whether an expression is there exactly where the pattern needs one,
    /// and a block of modifiers exactly where some modifier is set.
    pub open spec fn wf(&self) -> bool {
        &&& (self.rule@.kind is Rx) == (self.expr is Some)
        &&& match self.expr {
            Some(re) => re.wf() && re.built() == re.kept(),
            None => true,
        }
        &&& self.rule.carries() == !bare(self.rule@.opts)
    }
}

/// Whether no modifier is set.
pub open spec fn bare(o: OptionsV) -> bool {
    unrestricted(o) && !o.important && !o.badfilter
}

/// What a network rule's text stands for, where `facts` says of a pattern
/// what the caller knows of it.
pub open spec fn network_of(t: Seq<char>, k: Known, facts: spec_fn(Seq<char>) -> PatternFacts) -> Result<ParsedV, ErrorV> {
    let allowlist = begins(t, "@@"@);
    let s = if allowlist { t.skip(2) } else { t };
    match split_body(s, k) {
        Err(e) => Err(e),
        Ok((body, opts)) => match pattern_of(body, k, facts(body)) {
            Err(m) => Err(ErrorV::Invalid(m)),
            Ok((pattern, domain)) => Ok(
                ParsedV {
                    allowlist,
                    opts,
                    pattern,
                    shortcut: if pattern is DomainAnchor {
                        domain
                    } else {
                        text_view(facts(body).shortcut)
                    },
                },
            ),
        },
    }
}

/// Whether `r` is what parsing a network rule gives.
pub open spec fn network_outcome(r: Result<ParsedNetwork, ParseError>, want: Result<ParsedV, ErrorV>) -> bool {
    match (r, want) {
        (Ok(n), Ok(w)) => n.wf() && n@ == w,
        (Err(e), Err(m)) => e@ == m,
        _ => false,
    }
}

/// What `facts` says of patterns.
pub open spec fn told<P: Fn(&str) -> PatternFacts>(facts: P) -> spec_fn(Seq<char>) -> PatternFacts {
    |s: Seq<char>| answer(facts, s)
}

proof fn lemma_bare(o: OptionsV)
    requires
        bare(o),
    ensures
        o == no_options(),
{
    assert(o =~= no_options());
}

/// Parses an adblock-style rule.
pub fn parse_network_rule<V: Fn(&str) -> bool, A: Fn(&str) -> Option<Ip>, P: Fn(&str) -> PatternFacts>(
    t: &[char],
    valid: &V,
    address: &A,
    facts: &P,
) -> (r: Result<ParsedNetwork, ParseError>)
    requires
        settled(*valid),
        settled(*address),
        settled(*facts),
    ensures
        network_outcome(r, network_of(t@, known(*valid, *address), told(*facts))),
{
    proof {
        reveal_strlit("@@");
    }
    let allowlist = starts_with(t, "@@");
    let n: usize = t.len();
    let s = if allowlist {
        slice_subrange(t, 2, n)
    } else {
        t
    };
    assert(allowlist ==> s@ =~= t@.skip(2));
    let (body, opts) = match split_options(s, valid, address) {
        Ok(p) => p,
        Err(e) => {
            return Err(e);
        },
    };
    let text = string_of(body);
    let f = ask(facts, text.as_str());
    let (pattern, domain) = match parse_pattern(body, &f, valid, address) {
        Ok(p) => p,
        Err(e) => {
            return Err(e);
        },
    };
    let anchored = match &pattern {
        Pattern::DomainAnchor => true,
        _ => false,
    };
    let shortcut = if anchored {
        domain
    } else {
        f.shortcut
    };
    let plain = opts.is_plain() && !opts.important && !opts.badfilter;
    let ghost ov = opts@;
    let boxed: Option<Box<Options>> = if plain {
        proof {
            lemma_bare(ov);
        }
        None
    } else {
        Some(Box::new(opts))
    };
    let (rule, expr) = NetworkRule::new(pattern, boxed, allowlist);
    Ok(ParsedNetwork { rule, shortcut, expr })
}

/// A hosts-file entry: an address and the names it resolves.
///
/// The names are not stored: they are the line's own words, and
/// [`HostRule::hostnames`] reads them back out of the text.
#[derive(Debug, PartialEq, Eq)]
pub struct HostRule {
    /// The original rule text.
    pub text: Box<str>,
    /// The list this rule came from.
    pub list_id: i64,
    /// The upper half of the address the names resolve to.
    pub high: u64,
    /// Its lower half.
    pub low: u64,
    /// Whether it is an IPv6 address.
    pub v6: bool,
}

/// The position of the first ASCII white space, or the length.
pub open spec fn first_space(s: Seq<char>) -> int
    decreases s.len(),
{
    if s.len() == 0 || is_ascii_space(s[0]) {
        0
    } else {
        1 + first_space(s.drop_first())
    }
}

fn find_space(s: &[char]) -> (r: usize)
    ensures
        r <= s@.len(),
        r == first_space(s@),
{
    let mut i: usize = 0;
    assert(s@.skip(0) =~= s@);
    while i < s.len() && !ascii_space(s[i])
        invariant
            i <= s@.len(),
            first_space(s@) == i + first_space(s@.skip(i as int)),
        decreases s@.len() - i,
    {
        assert(s@.skip(i as int).drop_first() =~= s@.skip(i + 1));
        i = i + 1;
    }
    i
}

/// Which characters of `s` are ASCII white space.
pub open spec fn space_marks(s: Seq<char>) -> Seq<bool> {
    s.map_values(|c: char| is_ascii_space(c))
}

/// What follows the address on a hosts line, up to a comment.
pub open spec fn after_address(t: Seq<char>) -> Seq<char> {
    let i = first_space(t);
    let rest = if i < t.len() { t.skip(i + 1) } else { Seq::empty() };
    rest.take(first_at(rest, '#'))
}

/// The name that a word of a hosts line stands for: in lower case and without
/// the dots after it, where that is something and a valid name.
pub open spec fn host_name(w: Seq<char>, valid: spec_fn(Seq<char>) -> bool) -> Option<Seq<char>> {
    let n = lower(strip_back(w, '.'));
    if n.len() > 0 && valid(n) {
        Some(n)
    } else {
        None
    }
}

/// The valid names on a hosts line.
pub open spec fn host_names(t: Seq<char>, valid: spec_fn(Seq<char>) -> bool) -> Seq<Seq<char>> {
    let rest = after_address(t);
    picked(pieces(rest, space_marks(rest)), |w: Seq<char>| host_name(w, valid))
}

/// The valid names on a hosts line, lowercased and without a trailing dot.
///
/// One definition, used to parse the line and to read it back, so the two
/// cannot drift.
fn hostnames_of<V: Fn(&str) -> bool>(t: &[char], valid: &V) -> (r: Vec<String>)
    requires
        settled(*valid),
    ensures
        strings(r@) == host_names(t@, |s: Seq<char>| answer(*valid, s)),
{
    let ghost says = |s: Seq<char>| answer(*valid, s);
    let ghost f = |w: Seq<char>| host_name(w, says);
    let n: usize = t.len();
    let i = find_space(t);
    let rest = if i < n {
        slice_subrange(t, i + 1, n)
    } else {
        slice_subrange(t, n, n)
    };
    proof {
        if i < n {
            assert(rest@ =~= t@.skip(i + 1));
        } else {
            assert(rest@ =~= Seq::<char>::empty());
        }
    }
    let hash = find(rest, '#');
    let body = slice_subrange(rest, 0, hash);
    assert(body@ =~= after_address(t@));
    let mut cut: Vec<bool> = Vec::new();
    let mut j: usize = 0;
    while j < body.len()
        invariant
            j <= body@.len(),
            cut@ =~= space_marks(body@.take(j as int)),
        decreases body@.len() - j,
    {
        cut.push(ascii_space(body[j]));
        j = j + 1;
    }
    assert(body@.take(j as int) =~= body@);
    let words = cut_up(body, &cut);
    let ghost ws = texts(words@);
    let mut out: Vec<String> = Vec::new();
    let mut k: usize = 0;
    assert(strings(out@) =~= picked(ws.take(0), f));
    while k < words.len()
        invariant
            settled(*valid),
            k <= words@.len(),
            ws == texts(words@),
            says == (|s: Seq<char>| answer(*valid, s)),
            f == (|w: Seq<char>| host_name(w, says)),
            strings(out@) == picked(ws.take(k as int), f),
        decreases words@.len() - k,
    {
        let ghost before = out@;
        proof {
            assert(ws.take(k + 1).drop_last() =~= ws.take(k as int));
            assert(ws.take(k + 1).last() == words@[k as int]@);
        }
        let name = string_of(lowered(without_back(words[k], '.')).as_slice());
        if !name.as_str().is_empty() && ask(valid, name.as_str()) {
            out.push(name);
            assert(strings(out@) =~= strings(before).push(name@));
        }
        k = k + 1;
    }
    assert(ws.take(k as int) =~= ws);
    out
}

impl HostRule {
    /// The address the names resolve to.
    pub open spec fn addr(&self) -> Ip {
        if self.v6 {
            Ip::V6((self.high * 0x1_0000_0000_0000_0000 + self.low) as u128)
        } else {
            Ip::V4(self.low as u32)
        }
    }

    /// An entry of these parts.
    fn of(text: String, ip: Ip, list_id: i64) -> (r: Self)
        ensures
            r.text@ == text@,
            r.addr() == ip,
            r.list_id == list_id,
    {
        let text = boxed(text);
        match ip {
            Ip::V4(a) => HostRule { text, list_id, high: 0, low: a as u64, v6: false },
            Ip::V6(a) => {
                let high = (a / 0x1_0000_0000_0000_0000) as u64;
                let low = (a % 0x1_0000_0000_0000_0000) as u64;
                HostRule { text, list_id, high, low, v6: true }
            },
        }
    }

    /// The address the names resolve to.
    pub fn ip(&self) -> (r: Ip)
        ensures
            r == self.addr(),
    {
        if self.v6 {
            Ip::V6(self.high as u128 * 0x1_0000_0000_0000_0000 + self.low as u128)
        } else {
            Ip::V4(self.low as u32)
        }
    }

    /// The names this entry covers, in the form the index files them under.
    pub fn hostnames<V: Fn(&str) -> bool>(&self, valid: &V) -> (r: Vec<String>)
        requires
            settled(*valid),
        ensures
            strings(r@) == host_names(self.text@, |s: Seq<char>| answer(*valid, s)),
    {
        let c = chars_of(&self.text);
        hostnames_of(c.as_slice(), valid)
    }

    /// Reports whether this entry blocks rather than rewrites, i.e. whether
    /// the address is unspecified.
    pub fn is_blocking(&self) -> (r: bool)
        ensures
            r == (self.addr() == Ip::V4(0) || self.addr() == Ip::V6(0)),
    {
        self.ip().is_unspecified()
    }
}

/// The address of a hosts line, where `t` is one: an address, white space,
/// and at least one valid name.
pub open spec fn host_address(t: Seq<char>, k: Known) -> Option<Ip> {
    let i = first_space(t);
    if i < t.len() && host_names(t, k.valid).len() > 0 {
        (k.address)(t.take(i))
    } else {
        None
    }
}

/// Parses a hosts-file line, returning `None` if it is not one.
pub fn parse_host_rule<V: Fn(&str) -> bool, A: Fn(&str) -> Option<Ip>>(
    t: &[char],
    list_id: i64,
    valid: &V,
    address: &A,
) -> (r: Option<HostRule>)
    requires
        settled(*valid),
        settled(*address),
    ensures
        match (r, host_address(t@, known(*valid, *address))) {
            (Some(h), Some(ip)) => h.addr() == ip && h.text@ == t@ && h.list_id == list_id,
            (None, None) => true,
            _ => false,
        },
{
    let i = find_space(t);
    if i == t.len() {
        return None;
    }
    let first = string_of(slice_subrange(t, 0, i));
    assert(first@ =~= t@.take(i as int));
    let ip = match ask(address, first.as_str()) {
        Some(ip) => ip,
        None => {
            return None;
        },
    };
    let names = hostnames_of(t, valid);
    assert(strings(names@).len() == names@.len());
    if names.len() == 0 {
        return None;
    }
    Some(HostRule::of(string_of(t), ip, list_id))
}

/// A parsed rule.
pub enum Rule {
    /// A hosts-file entry.
    Host(HostRule),
    /// An adblock-style rule, with what the indexes will consume.
    Network(Box<ParsedNetwork>),
}

/// Whether a trimmed line is blank or a comment.
pub open spec fn no_rule(t: Seq<char>) -> bool {
    t.len() == 0 || t[0] == '!' || begins(t, "# "@) || t == "#"@
}

/// Whether a line carries a separator of the cosmetic family.
pub open spec fn cosmetic(t: Seq<char>) -> bool {
    has_text(t, "##"@) || has_text(t, "#@#"@) || has_text(t, "#%#"@) || has_text(t, "#$#"@)
}

/// Whether `r` is what parsing `line` gives.
pub open spec fn outcome(
    r: Result<Rule, ParseError>,
    line: Seq<char>,
    list_id: i64,
    k: Known,
    facts: spec_fn(Seq<char>) -> PatternFacts,
) -> bool {
    let t = trimmed(line);
    if no_rule(t) {
        r matches Err(e) && e@ == ErrorV::NotARule
    } else if cosmetic(t) {
        r matches Err(e) && e@ == ErrorV::Cosmetic
    } else {
        match host_address(t, k) {
            Some(ip) => r matches Ok(Rule::Host(h)) && h.addr() == ip && h.text@ == t && h.list_id == list_id,
            None => match (r, network_of(t, k, facts)) {
                (Ok(Rule::Network(n)), Ok(w)) => (*n).wf() && (*n)@ == w,
                (Err(e), Err(m)) => e@ == m,
                _ => false,
            },
        }
    }
}

/// Parses one line of a filter list.
pub fn parse<V: Fn(&str) -> bool, A: Fn(&str) -> Option<Ip>, P: Fn(&str) -> PatternFacts>(
    line: &str,
    list_id: i64,
    valid: &V,
    address: &A,
    facts: &P,
) -> (r: Result<Rule, ParseError>)
    requires
        settled(*valid),
        settled(*address),
        settled(*facts),
    ensures
        outcome(r, line@, list_id, known(*valid, *address), told(*facts)),
{
    let c = chars_of(line);
    let t = trim(c.as_slice());
    if t.len() == 0 || t[0] == '!' || starts_with(t, "# ") || reads_as(t, "#") {
        return Err(ParseError::NotARule);
    }
    if contains(t, "##") || contains(t, "#@#") || contains(t, "#%#") || contains(t, "#$#") {
        return Err(ParseError::Cosmetic);
    }
    if let Some(h) = parse_host_rule(t, list_id, valid, address) {
        return Ok(Rule::Host(h));
    }
    match parse_network_rule(t, valid, address, facts) {
        Ok(n) => Ok(Rule::Network(Box::new(n))),
        Err(e) => Err(e),
    }
}

} // verus!
