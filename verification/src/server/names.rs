//! The name a client connects under, and the ClientID in it.

use vstd::prelude::*;
use vstd::slice::slice_subrange;
use vstd::string::*;

use crate::server::access::{client_id, valid_id};
use crate::text::{
    chars_of, find, joined, lower, lowered, quoted, quoted_text, same, string_of, strip_back, without_back,
};

verus! {

/// The name this server answers encrypted queries under, and whether a
/// client has to use it.
#[derive(Clone, Debug)]
pub struct ServerName {
    /// The server name, or empty when encryption is off.
    name: String,
    /// Whether the server name is checked strictly.
    strict: bool,
}

/// Why the server name a client connected with is refused.
#[derive(Clone, Debug, PartialEq, Eq)]
pub enum ServerNameError {
    /// Strict checking is on, and the name is neither the server's own nor
    /// one label below it.
    Mismatch {
        /// What the client sent, empty when it sent nothing.
        sent: String,
        /// The configured server name.
        host: String,
    },
    /// The label below the server's name is not a usable ClientID.
    InvalidClientId(String),
}

/// Why a server name is refused, with texts as sequences.
pub enum NameErrorV {
    Mismatch(Seq<char>, Seq<char>),
    InvalidClientId(Seq<char>),
}

impl ServerNameError {
    /// The error, with texts as sequences.
    pub open spec fn view(&self) -> NameErrorV {
        match *self {
            ServerNameError::Mismatch { sent, host } => NameErrorV::Mismatch(sent@, host@),
            ServerNameError::InvalidClientId(id) => NameErrorV::InvalidClientId(id@),
        }
    }

    /// The error in words.
    pub fn message(&self) -> (r: String)
        ensures
            r@ == match self@ {
                NameErrorV::Mismatch(sent, host) => "client server name "@ + quoted_text(sent)
                    + " doesn't match host server name "@ + quoted_text(host),
                NameErrorV::InvalidClientId(id) => "invalid clientid "@ + quoted_text(id),
            },
    {
        match self {
            ServerNameError::Mismatch { sent, host } => {
                let q = quoted(sent.as_str());
                let a = joined("client server name ", q.as_str());
                let b = joined(a.as_str(), " doesn't match host server name ");
                let q = quoted(host.as_str());
                joined(b.as_str(), q.as_str())
            },
            ServerNameError::InvalidClientId(id) => {
                let q = quoted(id.as_str());
                joined("invalid clientid ", q.as_str())
            },
        }
    }
}

/// A host name as it is compared: without dots after it, in lower case.
pub open spec fn plain_name(s: Seq<char>) -> Seq<char> {
    lower(strip_back(s, '.'))
}

/// The one label that stands directly below `host` in `sent`, if `sent` is a
/// label, a dot and `host`.
pub open spec fn label_below(sent: Seq<char>, host: Seq<char>) -> Option<Seq<char>> {
    let n = sent.len() - host.len() - 1;
    if n > 0 && sent.skip(n) == seq!['.'] + host && !sent.take(n).contains('.') {
        Some(sent.take(n))
    } else {
        None
    }
}

/// What the name `sent` says of its client, where the server's own is `host`.
///
/// With no server name nothing is read and nothing is refused. The server's
/// own name carries no ClientID. The label directly below it is the ClientID
/// and is refused where it is not a valid one. Any other name carries none,
/// and is refused under a strict check.
pub open spec fn named(host: Seq<char>, sent: Option<Seq<char>>, strict: bool) -> Result<
    Option<Seq<char>>,
    NameErrorV,
> {
    let raw = match sent {
        Some(s) => s,
        None => Seq::<char>::empty(),
    };
    if host.len() == 0 || plain_name(raw) == plain_name(host) {
        Ok(None)
    } else {
        match label_below(plain_name(raw), plain_name(host)) {
            Some(id) => if client_id(id) {
                Ok(Some(id))
            } else {
                Err(NameErrorV::InvalidClientId(id))
            },
            None => if strict {
                Err(NameErrorV::Mismatch(raw, host))
            } else {
                Ok(None)
            },
        }
    }
}

/// A sent name, as a sequence.
pub open spec fn sent_text(s: Option<&str>) -> Option<Seq<char>> {
    match s {
        Some(t) => Some(t@),
        None => None,
    }
}

/// Whether a result is the one that a spec gives.
pub open spec fn same_reading(
    r: Result<Option<String>, ServerNameError>,
    v: Result<Option<Seq<char>>, NameErrorV>,
) -> bool {
    match (r, v) {
        (Ok(Some(id)), Ok(Some(s))) => id@ == s,
        (Ok(None), Ok(None)) => true,
        (Err(e), Err(x)) => e@ == x,
        _ => false,
    }
}

/// A lookup of the label below `host` in `sent`.
fn find_label(sent: &[char], host: &[char]) -> (r: Option<usize>)
    ensures
        match r {
            Some(n) => n <= sent@.len() && label_below(sent@, host@) == Some(sent@.take(n as int)),
            None => label_below(sent@, host@) is None,
        },
{
    let m: usize = sent.len();
    if m <= host.len() || m - host.len() < 2 {
        return None;
    }
    let n: usize = m - host.len() - 1;
    if sent[n] != '.' {
        assert(sent@.skip(n as int)[0] == sent@[n as int]);
        assert((seq!['.'] + host@)[0] == '.');
        return None;
    }
    let tail = slice_subrange(sent, n + 1, m);
    let head = slice_subrange(sent, 0, n);
    assert(head@ =~= sent@.take(n as int));
    assert(sent@.skip(n as int) =~= seq!['.'] + tail@);
    assert((seq!['.'] + host@).skip(1) =~= host@);
    assert((seq!['.'] + tail@).skip(1) =~= tail@);
    if !same(tail, host) {
        return None;
    }
    if find(head, '.') < n {
        assert(head@.contains('.'));
        return None;
    }
    Some(n)
}

/// Reads a ClientID from the server name a client connected with, or refuses
/// the name.
pub fn client_id_from_server_name(host: &str, sent: Option<&str>, strict: bool) -> (r: Result<
    Option<String>,
    ServerNameError,
>)
    ensures
        same_reading(r, named(host@, sent_text(sent), strict)),
{
    let h = chars_of(host);
    if h.len() == 0 {
        return Ok(None);
    }
    let raw = match sent {
        Some(s) => chars_of(s),
        None => Vec::new(),
    };
    assert(raw@ =~= match sent_text(sent) {
        Some(s) => s,
        None => Seq::<char>::empty(),
    });
    let got = lowered(without_back(raw.as_slice(), '.'));
    let own = lowered(without_back(h.as_slice(), '.'));
    if same(got.as_slice(), own.as_slice()) {
        return Ok(None);
    }
    match find_label(got.as_slice(), own.as_slice()) {
        None => if !strict {
            Ok(None)
        } else {
            Err(ServerNameError::Mismatch { sent: string_of(raw.as_slice()), host: host.to_owned() })
        },
        Some(n) => {
            let id = slice_subrange(got.as_slice(), 0, n);
            assert(id@ =~= got@.take(n as int));
            if !valid_id(id) {
                return Err(ServerNameError::InvalidClientId(string_of(id)));
            }
            Ok(Some(string_of(id)))
        },
    }
}

/// Extracts a ClientID from the name a client asked for, refusing nothing.
///
/// Only the label directly below the server's own name counts, and the name
/// itself carries no identifier.
pub fn client_id_from_sni(sni: &str, server_name: &str) -> (r: Option<String>)
    ensures
        match (r, named(server_name@, Some(sni@), false)) {
            (Some(id), Ok(Some(s))) => id@ == s,
            (Some(_), _) => false,
            (None, Ok(Some(_))) => false,
            (None, _) => true,
        },
{
    match client_id_from_server_name(server_name, Some(sni), false) {
        Ok(r) => r,
        Err(_) => None,
    }
}

impl Default for ServerName {
    fn default() -> (r: Self)
        ensures
            r.host() == Seq::<char>::empty(),
            !r.is_strict(),
    {
        ServerName { name: String::new(), strict: false }
    }
}

impl ServerName {
    /// The configured name.
    pub closed spec fn host(&self) -> Seq<char> {
        self.name@
    }

    /// Whether a client has to use it.
    pub closed spec fn is_strict(&self) -> bool {
        self.strict
    }

    /// Sets the name encrypted clients connect to, and whether they must.
    pub fn set_server_name(&mut self, name: &str, strict: bool)
        ensures
            final(self).host() == name@,
            final(self).is_strict() == strict,
    {
        self.name = name.to_owned();
        self.strict = strict;
    }

    /// Reads a ClientID from the server name an encrypted client connected
    /// with, or refuses the name.
    pub fn client_id_for(&self, sent: Option<&str>) -> (r: Result<Option<String>, ServerNameError>)
        ensures
            same_reading(r, named(self.host(), sent_text(sent), self.is_strict())),
    {
        client_id_from_server_name(self.name.as_str(), sent, self.strict)
    }
}

proof fn lemma_lower_lower(s: Seq<char>)
    ensures
        lower(lower(s)) == lower(s),
{
    assert(lower(lower(s)) =~= lower(s));
}

proof fn lemma_strip_lower(s: Seq<char>)
    ensures
        strip_back(lower(s), '.') == lower(strip_back(s, '.')),
    decreases s.len(),
{
    if s.len() > 0 {
        assert(lower(s).drop_last() =~= lower(s.drop_last()));
        lemma_strip_lower(s.drop_last());
    }
}

/// Case does not matter in either name: the same names in lower case read the
/// same, but that a refusal quotes a name as it was sent.
pub proof fn law_case_is_ignored(host: Seq<char>, sent: Seq<char>, strict: bool)
    ensures
        named(lower(host), Some(lower(sent)), strict) is Ok == named(host, Some(sent), strict) is Ok,
        named(host, Some(sent), strict) is Ok ==> named(lower(host), Some(lower(sent)), strict) == named(
            host,
            Some(sent),
            strict,
        ),
{
    lemma_strip_lower(host);
    lemma_strip_lower(sent);
    lemma_lower_lower(strip_back(host, '.'));
    lemma_lower_lower(strip_back(sent, '.'));
}

/// A name read as a ClientID is a valid one, in lower case, and comes only
/// from one label directly below the server's name.
pub proof fn law_id_is_one_label_below(host: Seq<char>, sent: Option<Seq<char>>, strict: bool)
    ensures
        named(host, sent, strict) matches Ok(Some(id)) ==> client_id(id) && sent is Some && plain_name(sent->0) == id
            + seq!['.'] + plain_name(host) && lower(id) == id,
{
    if let Ok(Some(id)) = named(host, sent, strict) {
        let raw = match sent {
            Some(s) => s,
            None => Seq::<char>::empty(),
        };
        let p = plain_name(raw);
        let n = p.len() - plain_name(host).len() - 1;
        assert(sent is Some) by {
            if sent is None {
                assert(strip_back(Seq::<char>::empty(), '.') =~= Seq::<char>::empty());
                assert(p.len() == 0);
            }
        }
        assert(p =~= p.take(n) + p.skip(n));
        assert(p =~= id + seq!['.'] + plain_name(host));
        lemma_lower_lower(strip_back(raw, '.'));
        assert(lower(id) =~= id) by {
            assert forall|i: int| 0 <= i < id.len() implies lower(id)[i] == id[i] by {
                assert(lower(p)[i] == p[i]);
            }
        }
    }
}

/// What a strict check lets through, a lenient one reads the same.
pub proof fn law_strict_only_refuses(host: Seq<char>, sent: Option<Seq<char>>)
    ensures
        named(host, sent, true) is Ok ==> named(host, sent, true) == named(host, sent, false),
{
}

} // verus!
