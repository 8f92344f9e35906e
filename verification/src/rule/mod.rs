//! Filtering rules.
//!
//! Two families matter for DNS filtering: host rules, the hosts-file form
//! (`0.0.0.0 ads.example.com`), and network rules, the adblock form
//! (`||ads.example.com^$important`). Network rules are matched against the
//! pseudo-URL `http://<hostname>`.

pub mod parse;
pub mod pool;

use vstd::prelude::*;

use crate::ip::Ip;
use crate::text::{chars_of, same_but_case, same_folded, strings};

verus! {

/// What an expression is matched against.
#[derive(Clone, Copy, Debug, PartialEq, Eq, Structural)]
pub enum Target {
    /// The pseudo-URL.
    Url,
    /// The bare hostname.
    Hostname,
}

/// The response a `$dnsrewrite` rule synthesises.
#[derive(Clone, Debug, PartialEq)]
pub enum DnsRewrite {
    /// Answer with this response code and no records.
    RCode(u16),
    /// Answer with this address.
    Addr(Ip),
    /// Answer with this canonical name, then resolve it.
    CName(String),
    /// Answer with an arbitrary record of the given type.
    Record {
        /// The record type.
        rtype: u16,
        /// The record's textual value.
        value: String,
    },
}

/// A response to synthesise, with texts as sequences.
pub enum RewriteV {
    RCode(u16),
    Addr(Ip),
    CName(Seq<char>),
    Record(u16, Seq<char>),
}

impl DnsRewrite {
    /// The response with its texts as sequences.
    pub open spec fn view(&self) -> RewriteV {
        match *self {
            DnsRewrite::RCode(c) => RewriteV::RCode(c),
            DnsRewrite::Addr(a) => RewriteV::Addr(a),
            DnsRewrite::CName(n) => RewriteV::CName(n@),
            DnsRewrite::Record { rtype, value } => RewriteV::Record(rtype, value@),
        }
    }

    /// Whether two responses are the same.
    pub fn same(&self, other: &DnsRewrite) -> (r: bool)
        ensures
            r == (self@ == other@),
    {
        match (self, other) {
            (DnsRewrite::RCode(a), DnsRewrite::RCode(b)) => *a == *b,
            (DnsRewrite::Addr(a), DnsRewrite::Addr(b)) => *a == *b,
            (DnsRewrite::CName(a), DnsRewrite::CName(b)) => *a == *b,
            (DnsRewrite::Record { rtype: a, value: v }, DnsRewrite::Record { rtype: b, value: w }) => *a == *b && *v
                == *w,
            _ => false,
        }
    }

    /// A copy.
    pub fn copy(&self) -> (r: DnsRewrite)
        ensures
            r@ == self@,
    {
        match self {
            DnsRewrite::RCode(a) => DnsRewrite::RCode(*a),
            DnsRewrite::Addr(a) => DnsRewrite::Addr(*a),
            DnsRewrite::CName(a) => DnsRewrite::CName(a.clone()),
            DnsRewrite::Record { rtype, value } => DnsRewrite::Record { rtype: *rtype, value: value.clone() },
        }
    }
}

/// A list of values that may be negated individually.
#[derive(Clone, Debug, PartialEq, Eq)]
pub struct StrList {
    /// Values that must match.
    pub included: Vec<String>,
    /// Values that must not match.
    pub excluded: Vec<String>,
}

/// A list of values, as sequences.
#[verifier::ext_equal]
pub struct StrListV {
    pub included: Seq<Seq<char>>,
    pub excluded: Seq<Seq<char>>,
}

/// Whether `v` is among `values`, but for the case of ASCII letters.
pub open spec fn lists(values: Seq<Seq<char>>, v: Seq<char>) -> bool {
    exists|i: int| 0 <= i < values.len() && same_folded(#[trigger] values[i], v)
}

/// Whether `v` satisfies the list: it is not excluded, and it is included or
/// nothing is.
pub open spec fn satisfies(l: StrListV, v: Seq<char>) -> bool {
    !lists(l.excluded, v) && (l.included.len() == 0 || lists(l.included, v))
}

/// Whether any of `vs` satisfies the list.
pub open spec fn satisfied_by(l: StrListV, vs: Seq<Seq<char>>) -> bool {
    exists|i: int| 0 <= i < vs.len() && satisfies(l, #[trigger] vs[i])
}

/// Whether `v` is among `values`.
pub(crate) fn listed(values: &Vec<String>, v: &str) -> (r: bool)
    ensures
        r == lists(strings(values@), v@),
{
    let c = chars_of(v);
    let mut i: usize = 0;
    while i < values.len()
        invariant
            i <= values@.len(),
            c@ == v@,
            forall|k: int| 0 <= k < i ==> !same_folded(#[trigger] strings(values@)[k], v@),
        decreases values@.len() - i,
    {
        let w = chars_of(values[i].as_str());
        assert(strings(values@)[i as int] == w@);
        if same_but_case(w.as_slice(), c.as_slice()) {
            return true;
        }
        i = i + 1;
    }
    false
}

impl StrList {
    /// The list, as sequences.
    pub open spec fn view(&self) -> StrListV {
        StrListV { included: strings(self.included@), excluded: strings(self.excluded@) }
    }

    /// Reports whether `v` satisfies the list.
    pub fn matches(&self, v: &str) -> (r: bool)
        ensures
            r == satisfies(self@, v@),
    {
        if listed(&self.excluded, v) {
            return false;
        }
        if self.included.len() == 0 {
            return true;
        }
        listed(&self.included, v)
    }

    /// Reports whether any of `vs` satisfies the list.
    pub fn matches_any(&self, vs: &[String]) -> (r: bool)
        ensures
            r == satisfied_by(self@, strings(vs@)),
    {
        let mut i: usize = 0;
        while i < vs.len()
            invariant
                i <= vs@.len(),
                forall|k: int| 0 <= k < i ==> !satisfies(self@, #[trigger] strings(vs@)[k]),
            decreases vs@.len() - i,
        {
            assert(strings(vs@)[i as int] == vs@[i as int]@);
            if self.matches(vs[i].as_str()) {
                return true;
            }
            i = i + 1;
        }
        false
    }
}

/// A list of DNS record types that may be negated.
#[derive(Clone, Debug, PartialEq, Eq)]
pub struct TypeList {
    /// Types that must match.
    pub included: Vec<u16>,
    /// Types that must not match.
    pub excluded: Vec<u16>,
}

/// A list of record types, as sequences.
#[verifier::ext_equal]
pub struct TypeListV {
    pub included: Seq<u16>,
    pub excluded: Seq<u16>,
}

/// Whether `t` satisfies the list: it is not excluded, and it is included or
/// nothing is.
pub open spec fn allows_type(l: TypeListV, t: u16) -> bool {
    !l.excluded.contains(t) && (l.included.len() == 0 || l.included.contains(t))
}

fn has_type(types: &Vec<u16>, t: u16) -> (r: bool)
    ensures
        r == types@.contains(t),
{
    let mut i: usize = 0;
    while i < types.len()
        invariant
            i <= types@.len(),
            forall|k: int| 0 <= k < i ==> types@[k] != t,
        decreases types@.len() - i,
    {
        if types[i] == t {
            return true;
        }
        i = i + 1;
    }
    false
}

impl TypeList {
    /// The list, as sequences.
    pub open spec fn view(&self) -> TypeListV {
        TypeListV { included: self.included@, excluded: self.excluded@ }
    }

    /// Reports whether query type `t` satisfies the list.
    pub fn matches(&self, t: u16) -> (r: bool)
        ensures
            r == allows_type(self@, t),
    {
        if has_type(&self.excluded, t) {
            return false;
        }
        if self.included.len() == 0 {
            return true;
        }
        has_type(&self.included, t)
    }
}

/// The modifiers a network rule may carry.
#[derive(Clone, Debug)]
pub struct Options {
    /// `$important`: outranks exception rules.
    pub important: bool,
    /// `$badfilter`: disables the otherwise-identical rule.
    pub badfilter: bool,
    /// `$dnstype=A|AAAA`: the query types this rule applies to.
    pub dnstype: Option<TypeList>,
    /// `$client=...`: the clients this rule applies to.
    pub client: Option<StrList>,
    /// `$ctag=...`: the client tags this rule applies to.
    pub ctag: Option<StrList>,
    /// `$denyallow=...`: domains this rule must not block.
    pub denyallow: Vec<String>,
    /// `$dnsrewrite=...`: the response to synthesise.
    pub dnsrewrite: Option<DnsRewrite>,
}

/// Modifiers, with texts as sequences.
#[verifier::ext_equal]
pub struct OptionsV {
    pub important: bool,
    pub badfilter: bool,
    pub dnstype: Option<TypeListV>,
    pub client: Option<StrListV>,
    pub ctag: Option<StrListV>,
    pub denyallow: Seq<Seq<char>>,
    pub dnsrewrite: Option<RewriteV>,
}

/// No modifiers at all.
pub open spec fn no_options() -> OptionsV {
    OptionsV {
        important: false,
        badfilter: false,
        dnstype: None,
        client: None,
        ctag: None,
        denyallow: Seq::empty(),
        dnsrewrite: None,
    }
}

/// Whether no modifier restricts which requests the rule applies to.
pub open spec fn unrestricted(o: OptionsV) -> bool {
    o.dnstype is None && o.client is None && o.ctag is None && o.denyallow.len() == 0 && o.dnsrewrite is None
}

impl Options {
    /// The modifiers, with texts as sequences.
    pub open spec fn view(&self) -> OptionsV {
        OptionsV {
            important: self.important,
            badfilter: self.badfilter,
            dnstype: match self.dnstype {
                Some(l) => Some(l@),
                None => None,
            },
            client: match self.client {
                Some(l) => Some(l@),
                None => None,
            },
            ctag: match self.ctag {
                Some(l) => Some(l@),
                None => None,
            },
            denyallow: strings(self.denyallow@),
            dnsrewrite: match self.dnsrewrite {
                Some(w) => Some(w@),
                None => None,
            },
        }
    }

    /// Reports whether no modifier restricts which requests the rule applies
    /// to.
    pub fn is_plain(&self) -> (r: bool)
        ensures
            r == unrestricted(self@),
    {
        self.dnstype.is_none() && self.client.is_none() && self.ctag.is_none() && self.denyallow.len() == 0
            && self.dnsrewrite.is_none()
    }
}

impl Default for Options {
    fn default() -> (r: Self)
        ensures
            r@ == no_options(),
    {
        let r = Options {
            important: false,
            badfilter: false,
            dnstype: None,
            client: None,
            ctag: None,
            denyallow: Vec::new(),
            dnsrewrite: None,
        };
        assert(strings(r.denyallow@) =~= Seq::empty());
        r
    }
}

/// The kind of a rule's pattern.
#[derive(Clone, Copy, Debug, PartialEq, Eq, Structural)]
pub enum Kind {
    /// `||domain^`: the domain itself and any subdomain.
    Anchor,
    /// Matches every hostname.
    Any,
    /// An expression, and what it is matched against.
    Rx(Target),
}

/// What a rule matches against.
#[derive(Clone, Copy, Debug, PartialEq, Eq, Structural)]
pub enum PatternRef {
    /// `||domain^`, which reaching through the domain index already proves.
    DomainAnchor,
    /// Any other pattern, as an expression built on first use.
    Rx {
        /// The expression's number.
        expr: usize,
        /// What the expression is matched against.
        target: Target,
    },
    /// Matches every hostname.
    Any,
}

/// The matchable part of a network rule, as the parser hands it over.
pub enum Pattern {
    /// `||domain^`.
    DomainAnchor,
    /// Any other pattern, as an expression built on first use.
    Rx {
        /// The expression.
        re: pool::LazyRegex,
        /// What the expression is matched against.
        target: Target,
    },
    /// Matches every hostname.
    Any,
}

/// An adblock-style rule.
///
/// The modifiers live behind a `Box`, because almost no rule has any, and the
/// expression stands in a pool: here is only its number.
#[derive(Clone, Debug)]
pub struct NetworkRule {
    /// The modifiers attached to the rule, if it has any.
    pub opts: Option<Box<Options>>,
    /// The expression's number, for a pattern that needs one.
    expr: usize,
    /// The pattern's kind and target.
    kind: Kind,
    /// Whether the rule is an exception.
    exception: bool,
}

/// A network rule, with texts as sequences.
#[verifier::ext_equal]
pub struct NetworkV {
    pub kind: Kind,
    pub expr: usize,
    pub opts: OptionsV,
    pub allowlist: bool,
}

/// One for a modifier that is there.
pub open spec fn one(b: bool) -> int {
    if b {
        1
    } else {
        0
    }
}

/// How many dedicated specifiers a rule carries.
pub open spec fn specifiers(o: OptionsV) -> int {
    one(o.important) + one(o.badfilter) + one(o.dnstype is Some) + one(o.client is Some) + one(o.ctag is Some) + one(
        o.denyallow.len() > 0,
    ) + one(o.dnsrewrite is Some)
}

/// The kind that a pattern makes.
pub open spec fn kind_of(p: Pattern) -> Kind {
    match p {
        Pattern::DomainAnchor => Kind::Anchor,
        Pattern::Any => Kind::Any,
        Pattern::Rx { re, target } => Kind::Rx(target),
    }
}

impl NetworkRule {
    /// Reports whether the rule carries a block of modifiers.
    pub fn has_opts(&self) -> (r: bool)
        ensures
            r == self.carries(),
    {
        self.opts.is_some()
    }

    /// The rule, with texts as sequences. A rule without modifiers is one
    /// with none set.
    pub closed spec fn view(&self) -> NetworkV {
        NetworkV {
            kind: self.kind,
            expr: self.expr,
            opts: match self.opts {
                Some(o) => (*o)@,
                None => no_options(),
            },
            allowlist: self.exception,
        }
    }

    /// Whether the rule carries a block of modifiers.
    pub closed spec fn carries(&self) -> bool {
        self.opts is Some
    }

    /// Builds a rule from the parts the parser produces, and hands back the
    /// expression, which the rule is to be given the number of.
    pub fn new(pattern: Pattern, opts: Option<Box<Options>>, allowlist: bool) -> (r: (Self, Option<pool::LazyRegex>))
        ensures
            r.0@ == (NetworkV {
                kind: kind_of(pattern),
                expr: 0,
                opts: match opts {
                    Some(o) => (*o)@,
                    None => no_options(),
                },
                allowlist,
            }),
            r.0.carries() == (opts is Some),
            match pattern {
                Pattern::Rx { re, target } => r.1 == Some(re),
                _ => r.1 is None,
            },
    {
        match pattern {
            Pattern::DomainAnchor => (
                NetworkRule { opts, expr: 0, kind: Kind::Anchor, exception: allowlist },
                None,
            ),
            Pattern::Any => (NetworkRule { opts, expr: 0, kind: Kind::Any, exception: allowlist }, None),
            Pattern::Rx { re, target } => (
                NetworkRule { opts, expr: 0, kind: Kind::Rx(target), exception: allowlist },
                Some(re),
            ),
        }
    }

    /// Gives the rule the number of its expression.
    pub fn set_expr(&mut self, expr: usize)
        ensures
            final(self)@ == (NetworkV { expr, ..old(self)@ }),
            final(self).carries() == old(self).carries(),
    {
        self.expr = expr;
    }

    /// What the rule matches against.
    pub fn pattern(&self) -> (r: PatternRef)
        ensures
            r == match self@.kind {
                Kind::Anchor => PatternRef::DomainAnchor,
                Kind::Any => PatternRef::Any,
                Kind::Rx(target) => PatternRef::Rx { expr: self@.expr, target },
            },
    {
        match self.kind {
            Kind::Anchor => PatternRef::DomainAnchor,
            Kind::Any => PatternRef::Any,
            Kind::Rx(target) => PatternRef::Rx { expr: self.expr, target },
        }
    }

    /// Whether this is an exception (`@@`) rule.
    pub fn allowlist(&self) -> (r: bool)
        ensures
            r == self@.allowlist,
    {
        self.exception
    }

    /// The rule's modifiers, if it carries any.
    pub fn opts(&self) -> (r: Option<&Options>)
        ensures
            match r {
                Some(o) => self@.opts == o@,
                None => self@.opts == no_options(),
            },
    {
        match &self.opts {
            Some(o) => Some(&**o),
            None => None,
        }
    }

    /// Whether the rule has the `$important` modifier.
    pub fn important(&self) -> (r: bool)
        ensures
            r == self@.opts.important,
    {
        match self.opts() {
            Some(o) => o.important,
            None => false,
        }
    }

    /// Whether the rule has the `$badfilter` modifier.
    pub fn badfilter(&self) -> (r: bool)
        ensures
            r == self@.opts.badfilter,
    {
        match self.opts() {
            Some(o) => o.badfilter,
            None => false,
        }
    }

    /// The rule's `$dnsrewrite` value, if it has one.
    pub fn dnsrewrite(&self) -> (r: Option<&DnsRewrite>)
        ensures
            match r {
                Some(w) => self@.opts.dnsrewrite == Some(w@),
                None => self@.opts.dnsrewrite is None,
            },
    {
        match self.opts() {
            Some(o) => o.dnsrewrite.as_ref(),
            None => None,
        }
    }

    /// Counts the rule's dedicated specifiers.
    pub fn specificity(&self) -> (r: usize)
        ensures
            r == specifiers(self@.opts),
    {
        match self.opts() {
            None => 0,
            Some(o) => {
                let mut n: usize = 0;
                if o.important {
                    n = n + 1;
                }
                if o.badfilter {
                    n = n + 1;
                }
                if o.dnstype.is_some() {
                    n = n + 1;
                }
                if o.client.is_some() {
                    n = n + 1;
                }
                if o.ctag.is_some() {
                    n = n + 1;
                }
                if o.denyallow.len() > 0 {
                    n = n + 1;
                }
                if o.dnsrewrite.is_some() {
                    n = n + 1;
                }
                n
            },
        }
    }
}

} // verus!
