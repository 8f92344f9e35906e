//! Rules, the indexes they go into and the verdicts they come to.

use std::mem::size_of;

use sift::engine::report::OVERHEAD;
use sift::engine::set::Request;
use sift::engine::words::canonical_text;
use sift::engine::{Engine, MatchResult, Reason};
use sift::ip::Ip;
use sift::lists::{
    count_rules, is_remote, local_list_path, Fetched, FilterYaml, List, Manager, RefreshError, Store, Touched,
    BLOCKED_SERVICE_LIST_ID, CUSTOM_LIST_ID, ETC_HOSTS_LIST_ID,
};
use sift::rule::parse::{
    parse, parse_str_list, parse_type_list, rcode_from_str, rr_type_from_str, HostRule, ParseError, ParsedNetwork,
    PatternFacts, Rule,
};
use sift::rule::pool::{LazyRegex, Pool, HARD_CEILING, MAX_COMPILED};
use sift::rule::{DnsRewrite, NetworkRule, Options, PatternRef, Target};

const A: u16 = 1;
const AAAA: u16 = 28;
const TXT: u16 = 16;

/// Whether a text is a hostname: labels of letters, digits, hyphens and
/// underscores.
fn valid(s: &str) -> bool {
    !s.is_empty()
        && s.len() <= 253
        && s.split('.').all(|l| {
            !l.is_empty() && l.len() <= 63 && l.bytes().all(|b| b.is_ascii_alphanumeric() || b == b'-' || b == b'_')
        })
}

/// What an adblock-style pattern means.
fn facts(p: &str) -> PatternFacts {
    if p.len() > 2 && p.starts_with('/') && p.ends_with('/') {
        return PatternFacts {
            matches_all: false,
            source: format!("(?i){}", &p[1..p.len() - 1]),
            handwritten: true,
            target: Target::Hostname,
            shortcut: None,
        };
    }
    let (mut source, mut body, target) = if let Some(rest) = p.strip_prefix("||") {
        ("(?i)^(?:http|https|ws|wss)://(?:[a-z0-9-_.]+\\.)?".to_string(), rest, Target::Url)
    } else if let Some(rest) = p.strip_prefix('|') {
        ("(?i)^".to_string(), rest, if rest.contains("://") { Target::Url } else { Target::Hostname })
    } else {
        ("(?i)".to_string(), p, Target::Url)
    };
    let ends = body.ends_with('|');
    if ends {
        body = &body[..body.len() - 1];
    }
    for c in body.chars() {
        match c {
            '*' => source.push_str(".*"),
            '^' => source.push_str("(?:[^ a-zA-Z0-9.%_-]|$)"),
            c if c.is_ascii_alphanumeric() => source.push(c),
            c if c.is_ascii() => {
                source.push('\\');
                source.push(c);
            }
            c => source.push(c),
        }
    }
    if ends {
        source.push('$');
    }
    let run = body
        .split(|c: char| !(c.is_ascii_alphanumeric() || c == '.' || c == '-' || c == '_'))
        .filter(|r| r.len() >= 3 && *r != "http" && *r != "https")
        .fold("", |a, b| if b.len() > a.len() { b } else { a });
    PatternFacts {
        matches_all: body.chars().all(|c| c == '*') && target == Target::Url,
        source,
        handwritten: false,
        target,
        shortcut: if run.is_empty() { None } else { Some(run.to_ascii_lowercase()) },
    }
}

/// Parses a line of list 1.
fn line(s: &str) -> Result<Rule, ParseError> {
    parse(s, 1, &valid, &address, &facts)
}

/// Why a line is no rule.
fn refused(s: &str) -> ParseError {
    match line(s) {
        Ok(_) => panic!("{s:?} should be refused"),
        Err(e) => e,
    }
}

fn parsed(s: &str) -> ParsedNetwork {
    match line(s) {
        Ok(Rule::Network(n)) => *n,
        _ => panic!("expected a network rule"),
    }
}

fn net(s: &str) -> NetworkRule {
    parsed(s).rule
}

/// The modifiers of a rule that is expected to carry some.
fn opts(s: &str) -> Options {
    *net(s).opts.expect("rule should carry modifiers")
}

fn host(s: &str) -> HostRule {
    match line(s) {
        Ok(Rule::Host(h)) => h,
        _ => panic!("expected a host rule"),
    }
}

fn lists(all: &[(i64, &str)]) -> Vec<(i64, String)> {
    all.iter().map(|(id, text)| (*id, text.to_string())).collect()
}

/// The engine of these blocklists and allowlists.
fn built(block: &[(i64, &str)], allow: &[(i64, &str)]) -> Engine {
    Engine::build(lists(block), lists(allow), &valid, &address, &facts)
}

/// The engine of one blocklist.
fn engine(block: &str) -> Engine {
    built(&[(1, block)], &[])
}

fn req(host: &str, qtype: u16) -> Request<'_> {
    Request { hostname: host, qtype, client_ip: None, client_name: None, client_tags: &[] }
}

fn ask(e: &mut Engine, host: &str) -> MatchResult {
    e.match_request(&req(host, A))
}

/// Reads an address as text: dotted decimals, or groups in hexadecimal.
fn address(s: &str) -> Option<Ip> {
    if s.contains(':') {
        v6(s).map(Ip::V6)
    } else {
        v4(s).map(Ip::V4)
    }
}

/// Reads four decimals between dots, none with a leading zero.
fn v4(s: &str) -> Option<u32> {
    let parts: Vec<&str> = s.split('.').collect();
    if parts.len() != 4 {
        return None;
    }
    let mut n: u32 = 0;
    for p in parts {
        if p.is_empty() || p.len() > 3 || (p.len() > 1 && p.starts_with('0')) {
            return None;
        }
        if !p.bytes().all(|b| b.is_ascii_digit()) {
            return None;
        }
        let b: u32 = p.parse().ok()?;
        if b > 255 {
            return None;
        }
        n = n * 256 + b;
    }
    Some(n)
}

/// Reads groups between colons, the last maybe an IPv4 address.
fn groups(s: &str) -> Option<Vec<u16>> {
    let mut out: Vec<u16> = Vec::new();
    if s.is_empty() {
        return Some(out);
    }
    let parts: Vec<&str> = s.split(':').collect();
    for (i, p) in parts.iter().enumerate() {
        if p.contains('.') && i + 1 == parts.len() {
            let a = v4(p)?;
            out.push((a >> 16) as u16);
            out.push((a & 0xffff) as u16);
        } else {
            if p.is_empty() || p.len() > 4 {
                return None;
            }
            out.push(u16::from_str_radix(p, 16).ok()?);
        }
    }
    Some(out)
}

/// Reads eight groups in hexadecimal, with at most one `::`.
fn v6(s: &str) -> Option<u128> {
    let all: Vec<u16> = match s.split_once("::") {
        Some((a, b)) => {
            let (a, b) = (groups(a)?, groups(b)?);
            if a.len() + b.len() > 7 {
                return None;
            }
            let mut all = a.clone();
            all.extend(std::iter::repeat(0u16).take(8 - a.len() - b.len()));
            all.extend(b);
            all
        }
        None => groups(s)?,
    };
    if all.len() != 8 {
        return None;
    }
    Some(all.iter().fold(0u128, |n, g| n << 16 | u128::from(*g)))
}

// Rules.

#[test]
fn an_expression_is_not_built_until_something_needs_it() {
    let n = parsed("/ads/banner");
    assert!(matches!(n.rule.pattern(), PatternRef::Rx { .. }), "expected an expression pattern");

    let mut pool = Pool::new();
    let re = pool.insert(n.expr.expect("an expression"));
    assert!(!pool.is_built(re), "the automaton was built at parse time");
    assert!(pool.is_match(re, "http://example.com/ads/banner.png"));
    assert!(pool.is_built(re), "the automaton should now be cached");
}

#[test]
fn only_so_many_expressions_are_kept_built() {
    let mut pool = Pool::new();
    let held: Vec<usize> = (0..MAX_COMPILED + 64)
        .map(|i| pool.insert(LazyRegex::new(format!("(?i)ads{i}\\.example\\.com"))))
        .collect();

    for (i, re) in held.iter().enumerate() {
        assert!(pool.is_match(*re, &format!("ads{i}.example.com")), "rule {i}");
    }

    let built = held.iter().filter(|r| pool.is_built(**r)).count();
    assert!(built <= MAX_COMPILED, "more expressions are being held than the ceiling allows");
    assert!(
        pool.compiled_count() <= HARD_CEILING,
        "the reported count is past even the hard ceiling: {}",
        pool.compiled_count()
    );
    assert!(pool.compiled_count() >= built, "the reported count misses expressions that are built");
    assert!(!pool.is_built(held[0]), "the oldest expression should have been dropped");

    // Dropping one costs nothing but building it again when it is next
    // needed, and the verdict is the same either way.
    assert!(pool.is_match(held[0], "ads0.example.com"));
    assert!(!pool.is_match(held[0], "ads1.example.com"));
    assert!(pool.is_built(held[0]));
}

#[test]
fn an_expression_still_being_used_is_not_the_one_dropped() {
    let mut pool = Pool::new();
    let hot = pool.insert(LazyRegex::new(r"(?i)hot\.example\.com".to_string()));
    assert!(pool.is_match(hot, "hot.example.com"));

    for i in 0..MAX_COMPILED + 64 {
        let cold = pool.insert(LazyRegex::new(format!(r"(?i)cold{i}\.example\.com")));
        assert!(pool.is_match(cold, &format!("cold{i}.example.com")));
        // Reaching it again is what earns it the second chance.
        assert!(pool.is_match(hot, "hot.example.com"));
    }

    assert!(pool.is_built(hot), "an expression in constant use should not have been dropped");
}

#[test]
fn constant_use_cannot_pass_the_hard_ceiling() {
    let mut pool = Pool::new();
    let held: Vec<usize> = (0..HARD_CEILING + 2)
        .map(|i| pool.insert(LazyRegex::new(format!("x{i}y"))))
        .collect();

    // Each is used before it is dropped, so that it comes back marked.
    for part in [&held[..MAX_COMPILED], &held[MAX_COMPILED..]] {
        for id in part {
            pool.is_match(*id, "z");
            pool.is_match(*id, "z");
        }
        pool.drop_compiled();
    }

    for i in 0..held.len() {
        assert!(pool.is_match(held[i], &format!("x{i}y")));
        // Reaching every one again earns them all the second chance.
        if i + 1 >= MAX_COMPILED {
            for j in 0..=i {
                if pool.is_built(held[j]) {
                    pool.is_match(held[j], "z");
                }
            }
        }
        assert!(pool.compiled_count() <= HARD_CEILING);
        if i < HARD_CEILING {
            assert_eq!(pool.compiled_count(), i + 1);
        }
    }

    // Past the hard ceiling the oldest go, used or not.
    assert_eq!(pool.compiled_count(), HARD_CEILING);
    assert!(!pool.is_built(held[0]));
}

#[test]
fn a_handwritten_regex_is_still_rejected_at_load() {
    assert!(line("/[unclosed/").is_err());

    // A valid one is compiled there and then.
    let n = parsed("/^ads?\\./");
    assert!(matches!(n.rule.pattern(), PatternRef::Rx { .. }), "expected an expression pattern");
    assert!(n.expr.expect("an expression").is_built(), "a handwritten regex compiles at load");
}

#[test]
fn a_refused_expression_is_named_with_its_reason() {
    let ParseError::Invalid(m) = refused("/[unclosed/") else {
        panic!("an invalid rule");
    };
    assert!(m.starts_with("pattern \"/[unclosed/\" -> \"(?i)[unclosed\": "), "{m}");
    assert!(m.contains("unclosed character class"), "{m}");
    assert!(refused("/[unclosed/").message().starts_with("invalid rule: pattern "));
}

#[test]
fn dropping_what_is_built_leaves_what_is_kept() {
    let mut pool = Pool::new();
    let lazy = pool.insert(LazyRegex::new("lazy".to_string()));
    let kept = pool.insert(parsed("/^ads?\\./").expr.expect("an expression"));
    assert!(pool.is_match(lazy, "a lazy dog"));
    assert_eq!(pool.compiled_count(), 1);

    pool.drop_compiled();
    assert_eq!(pool.compiled_count(), 0);
    assert!(!pool.is_built(lazy));
    assert!(pool.is_built(kept));
    assert!(pool.is_match(lazy, "a lazy dog"));
    assert!(pool.is_match(kept, "ad.example"));
    assert!(!pool.is_match(kept, "example.ad"));
}

#[test]
fn skips_comments_and_blanks() {
    for s in ["", "   ", "! comment", "# comment", "#"] {
        assert_eq!(refused(s), ParseError::NotARule, "for {s:?}");
    }
    assert_eq!(refused("").message(), "not a rule");
}

#[test]
fn skips_cosmetic_rules() {
    for s in ["example.org##.ad", "example.org#@#.ad", "example.org#%#//scriptlet()"] {
        assert_eq!(refused(s), ParseError::Cosmetic, "for {s:?}");
    }
    assert_eq!(refused("example.org##.ad").message(), "cosmetic rules are not applicable to DNS");
}

#[test]
fn parses_hosts_lines() {
    let h = host("0.0.0.0 ads.example.com");
    assert_eq!(h.ip(), Ip::V4(0));
    assert_eq!(h.hostnames(&valid), ["ads.example.com"]);
    assert!(h.is_blocking());

    // Multiple names and a trailing comment.
    let h = host("127.0.0.1 a.example.com b.example.com # local");
    assert_eq!(h.hostnames(&valid), ["a.example.com", "b.example.com"]);

    // A non-unspecified address rewrites rather than blocks.
    let h = host("192.168.1.5 nas.lan");
    assert!(!h.is_blocking());

    // IPv6 hosts entries. `::` is a null answer; `::1` is a rewrite to
    // loopback, so only the former counts as blocking.
    assert!(host(":: ads.example.com").is_blocking());
    assert!(!host("::1 localhost").is_blocking());
}

#[test]
fn a_hosts_line_keeps_its_whole_address() {
    assert_eq!(host("192.168.1.5 nas.lan").ip(), Ip::V4(0xc0a8_0105));
    assert_eq!(
        host("2001:db8::42 nas.lan").ip(),
        Ip::V6(0x2001_0db8_0000_0000_0000_0000_0000_0042)
    );
    assert_eq!(host("2001:db8::42 nas.lan").list_id, 1);
    assert_eq!(&*host("  2001:db8::42 nas.lan ").text, "2001:db8::42 nas.lan");
}

#[test]
fn recognises_the_domain_anchor_fast_path() {
    for (rule, want) in [
        ("||example.org^", "example.org"),
        ("||sub.example.org^", "sub.example.org"),
        ("||a-b_c.example.org^", "a-b_c.example.org"),
    ] {
        let n = parsed(rule);
        assert!(matches!(n.rule.pattern(), PatternRef::DomainAnchor), "{rule} should use the fast path");
        // The domain becomes the index key.
        assert_eq!(n.shortcut.as_deref(), Some(want), "for {rule}");
    }
}

#[test]
fn patterns_that_are_not_plain_domains_compile_to_a_regex() {
    for rule in ["||example.org/path", "||exa*ple.org^", "|http://example.org"] {
        assert!(matches!(net(rule).pattern(), PatternRef::Rx { .. }), "{rule} should compile to a regex");
    }
}

#[test]
fn a_domain_anchor_without_a_separator_is_not_the_fast_path() {
    // `||example.org` is a prefix match, so it must not use the suffix walk.
    assert!(matches!(net("||example.org").pattern(), PatternRef::Rx { .. }));
    assert!(matches!(net("||example.org^").pattern(), PatternRef::DomainAnchor));
}

#[test]
fn parses_allowlist_marker() {
    assert!(net("@@||example.org^").allowlist());
    assert!(!net("||example.org^").allowlist());
}

#[test]
fn parses_modifiers() {
    assert!(net("||example.org^$important").important());
    assert!(net("||example.org^$badfilter").badfilter());

    let t = opts("||example.org^$dnstype=A|AAAA").dnstype.unwrap();
    assert_eq!(t.included, [1, 28]);

    assert_eq!(opts("||example.org^$dnstype=~TXT").dnstype.unwrap().excluded, [16]);

    let c = opts("||example.org^$client=192.168.1.1|~Laptop").client.unwrap();
    assert_eq!(c.included, ["192.168.1.1"]);
    assert_eq!(c.excluded, ["Laptop"]);

    assert_eq!(opts("||example.org^$denyallow=good.example.org").denyallow, ["good.example.org"]);
    assert_eq!(opts("||example.org^$ctag=device_phone").ctag.unwrap().included, ["device_phone"]);

    // A rule with no modifiers must not allocate an options block at all.
    assert!(net("||example.org^").opts.is_none());
}

#[test]
fn parses_dnsrewrite_forms() {
    let cases: [(&str, DnsRewrite); 5] = [
        ("||a^$dnsrewrite=1.2.3.4", DnsRewrite::Addr(Ip::V4(0x0102_0304))),
        ("||a^$dnsrewrite=example.net", DnsRewrite::CName("example.net".into())),
        ("||a^$dnsrewrite=REFUSED", DnsRewrite::RCode(5)),
        ("||a^$dnsrewrite=NXDOMAIN", DnsRewrite::RCode(3)),
        ("||a^$dnsrewrite=NOERROR;A;5.6.7.8", DnsRewrite::Addr(Ip::V4(0x0506_0708))),
    ];
    for (rule, want) in cases {
        assert_eq!(net(rule).dnsrewrite().cloned(), Some(want), "for {rule}");
    }
}

#[test]
fn parses_regex_rules() {
    assert!(matches!(net("/^ads?\\./").pattern(), PatternRef::Rx { .. }));
    assert!(line("/[unclosed/").is_err());
}

#[test]
fn rejects_unknown_modifiers() {
    assert!(matches!(
        refused("||example.org^$nosuchmodifier"),
        ParseError::UnsupportedModifier(_)
    ));
    assert_eq!(
        refused("||example.org^$nosuchmodifier").message(),
        "unsupported modifier: nosuchmodifier"
    );
}

#[test]
fn ignores_http_only_modifiers() {
    // These are meaningless for DNS but must not invalidate the rule.
    for r in ["||example.org^$third-party", "||example.org^$document"] {
        assert!(line(r).is_ok(), "{r} should parse");
    }
}

#[test]
fn str_list_matching() {
    let l = parse_str_list("a|b|~c");
    assert!(l.matches("a"));
    assert!(l.matches("B"));
    assert!(!l.matches("c"));
    assert!(!l.matches("d"));

    let only_neg = parse_str_list("~c");
    assert!(only_neg.matches("a"));
    assert!(!only_neg.matches("c"));
}

// Sizes.

#[test]
fn a_network_rule_stays_small() {
    assert!(
        size_of::<NetworkRule>() <= 24,
        "NetworkRule grew to {} bytes; at 2.2M rules that is ~{} MB, twice \
         that while a rebuild holds two engines",
        size_of::<NetworkRule>(),
        size_of::<NetworkRule>() * 2_200_000 / 1_048_576
    );
}

#[test]
fn the_pattern_costs_the_rule_one_byte() {
    assert!(
        size_of::<NetworkRule>()
            <= size_of::<Option<std::sync::Arc<()>>>() + size_of::<Option<Box<Options>>>() + 8,
        "the rule grew past a pointer, a pointer and a byte: {} bytes",
        size_of::<NetworkRule>()
    );
}

#[test]
fn modifiers_are_not_stored_inline() {
    // Options is large, which is exactly why it must live behind a pointer.
    assert!(
        size_of::<Options>() > size_of::<NetworkRule>(),
        "this test is only meaningful while Options is the larger type"
    );
    assert!(
        size_of::<Option<Box<Options>>>() == 8,
        "the modifiers must cost one pointer when absent"
    );
}

#[test]
fn a_rule_without_modifiers_allocates_no_options() {
    assert!(parsed("||ads.example.com^").rule.opts.is_none(), "a plain rule must carry no options block");
}

#[test]
fn a_host_rule_stays_small() {
    assert!(
        size_of::<HostRule>() <= 48,
        "HostRule grew to {} bytes; at 147,175 rules that is ~{} MB",
        size_of::<HostRule>(),
        size_of::<HostRule>() * 147_175 / 1_048_576
    );
}

// The engine.

#[test]
fn a_list_beginning_with_a_byte_order_mark_still_builds() {
    let mut e = engine("\u{feff}[Adblock Plus 3.13]\n||ads.example.com^\n");

    assert_eq!(ask(&mut e, "ads.example.com").reason, Reason::FilteredBlockList);
    assert_eq!(ask(&mut e, "example.org").reason, Reason::NotFilteredNotFound);
}

#[test]
fn blocks_via_the_domain_anchor_fast_path() {
    let mut e = engine("||ads.example.com^\n");
    assert_eq!(ask(&mut e, "ads.example.com").reason, Reason::FilteredBlockList);
    assert_eq!(ask(&mut e, "x.ads.example.com").reason, Reason::FilteredBlockList);
    assert_eq!(ask(&mut e, "example.com").reason, Reason::NotFilteredNotFound);
    assert_eq!(ask(&mut e, "notads.example.com").reason, Reason::NotFilteredNotFound);
}

#[test]
fn hosts_rules_block_and_carry_their_address() {
    let mut e = engine("0.0.0.0 ads.example.com\n");
    let r = ask(&mut e, "ads.example.com");
    assert_eq!(r.reason, Reason::FilteredBlockList);
    assert_eq!(r.rules[0].ip, Some(Ip::V4(0)));

    // Hosts rules are exact: subdomains are not covered.
    assert_eq!(ask(&mut e, "x.ads.example.com").reason, Reason::NotFilteredNotFound);
}

#[test]
fn hosts_rules_select_by_address_family() {
    let mut e = engine("0.0.0.0 a.example.com\n:: a.example.com\n");
    let v4 = e.match_request(&req("a.example.com", A));
    assert_eq!(v4.rules.len(), 1);
    assert!(v4.rules[0].ip.unwrap().is_ipv4());

    let v6 = e.match_request(&req("a.example.com", AAAA));
    assert_eq!(v6.rules.len(), 1);
    assert!(v6.rules[0].ip.unwrap().is_ipv6());
}

#[test]
fn exception_rules_beat_blocking_rules() {
    let mut e = engine("||example.com^\n@@||good.example.com^\n");
    assert_eq!(ask(&mut e, "bad.example.com").reason, Reason::FilteredBlockList);
    assert_eq!(ask(&mut e, "good.example.com").reason, Reason::NotFilteredAllowList);
}

#[test]
fn important_beats_an_exception() {
    let mut e = engine("||example.com^$important\n@@||example.com^\n");
    assert_eq!(ask(&mut e, "example.com").reason, Reason::FilteredBlockList);
}

#[test]
fn important_exception_beats_important_block() {
    let mut e = engine("||example.com^$important\n@@||example.com^$important\n");
    assert_eq!(ask(&mut e, "example.com").reason, Reason::NotFilteredAllowList);
}

#[test]
fn a_separate_allowlist_short_circuits() {
    let mut e = built(&[(1, "||example.com^")], &[(2, "||example.com^")]);
    let r = ask(&mut e, "example.com");
    assert_eq!(r.reason, Reason::NotFilteredAllowList);
    assert_eq!(r.rules[0].list_id, 2);
}

#[test]
fn badfilter_cancels_the_matching_rule() {
    let mut e = engine("||example.com^\n||example.com^$badfilter\n");
    assert_eq!(ask(&mut e, "example.com").reason, Reason::NotFilteredNotFound);
}

#[test]
fn dnstype_restricts_the_rule() {
    let mut e = engine("||example.com^$dnstype=AAAA\n");
    assert_eq!(e.match_request(&req("example.com", AAAA)).reason, Reason::FilteredBlockList);
    assert_eq!(e.match_request(&req("example.com", A)).reason, Reason::NotFilteredNotFound);
    assert_eq!(e.match_request(&req("example.com", TXT)).reason, Reason::NotFilteredNotFound);
}

#[test]
fn denyallow_exempts_listed_domains() {
    let mut e = engine("||example.com^$denyallow=good.example.com\n");
    assert_eq!(ask(&mut e, "bad.example.com").reason, Reason::FilteredBlockList);
    assert_eq!(ask(&mut e, "good.example.com").reason, Reason::NotFilteredNotFound);
}

#[test]
fn client_modifier_restricts_by_name_and_address() {
    let mut e = engine("||example.com^$client=192.168.1.5\n");

    let mut r = req("example.com", A);
    r.client_ip = Some("192.168.1.5");
    assert_eq!(e.match_request(&r).reason, Reason::FilteredBlockList);

    let mut r = req("example.com", A);
    r.client_ip = Some("192.168.1.6");
    assert_eq!(e.match_request(&r).reason, Reason::NotFilteredNotFound);
}

#[test]
fn an_excluded_client_is_known_by_its_name_or_its_address() {
    let mut e = engine("||example.com^$client=~Laptop\n");
    let mut r = req("example.com", A);
    r.client_name = Some("Laptop");
    r.client_ip = Some("192.168.1.5");
    assert_eq!(e.match_request(&r).reason, Reason::NotFilteredNotFound);
    r.client_name = Some("Phone");
    assert_eq!(e.match_request(&r).reason, Reason::FilteredBlockList);

    let mut e = engine("||example.com^$client=~192.168.1.5\n");
    assert_eq!(e.match_request(&r).reason, Reason::NotFilteredNotFound);
    r.client_ip = Some("192.168.1.6");
    assert_eq!(e.match_request(&r).reason, Reason::FilteredBlockList);
}

#[test]
fn one_value_that_satisfies_a_list_is_enough() {
    let l = opts("||example.org^$ctag=a|~c").ctag.unwrap();
    let values = |v: &[&str]| v.iter().map(|s| s.to_string()).collect::<Vec<String>>();
    assert!(l.matches_any(&values(&["a", "c"])));
    assert!(l.matches_any(&values(&["c", "a"])));
    assert!(!l.matches_any(&values(&["c"])));
    assert!(!l.matches_any(&values(&[])));
}

#[test]
fn ctag_modifier_restricts_by_tag() {
    let mut e = engine("||example.com^$ctag=device_phone\n");
    let tags = vec!["device_phone".to_string()];
    let mut r = req("example.com", A);
    r.client_tags = &tags;
    assert_eq!(e.match_request(&r).reason, Reason::FilteredBlockList);

    let other = vec!["device_pc".to_string()];
    let mut r = req("example.com", A);
    r.client_tags = &other;
    assert_eq!(e.match_request(&r).reason, Reason::NotFilteredNotFound);
}

#[test]
fn dnsrewrite_reports_a_rewrite() {
    let mut e = engine("||example.com^$dnsrewrite=1.2.3.4\n");
    let r = ask(&mut e, "example.com");
    assert_eq!(r.reason, Reason::RewrittenRule);
    assert_eq!(r.rewrites, vec![DnsRewrite::Addr(Ip::V4(0x0102_0304))]);
}

#[test]
fn regex_rules_match_against_the_hostname() {
    // For DNS, a `/regex/` pattern is applied to the bare hostname.
    let mut e = engine("/^ads[0-9]+\\./\n");
    assert_eq!(ask(&mut e, "ads123.example.com").reason, Reason::FilteredBlockList);
    assert_eq!(ask(&mut e, "example.com").reason, Reason::NotFilteredNotFound);
    assert_eq!(ask(&mut e, "x.ads123.example.com").reason, Reason::NotFilteredNotFound);
}

#[test]
fn a_left_anchored_bare_pattern_pins_to_the_hostname() {
    // `|foo.` anchors to the hostname start, not to `http://`.
    let mut e = engine("|load.gtm.\n");
    assert_eq!(ask(&mut e, "load.gtm.example.co.uk").reason, Reason::FilteredBlockList);
    assert_eq!(ask(&mut e, "x.load.gtm.example.co.uk").reason, Reason::NotFilteredNotFound);
}

#[test]
fn wildcard_text_rules_match() {
    let mut e = engine("||ad*.example.com^\n");
    assert_eq!(ask(&mut e, "ads.example.com").reason, Reason::FilteredBlockList);
    assert_eq!(ask(&mut e, "news.example.com").reason, Reason::NotFilteredNotFound);
}

#[test]
fn comments_and_blank_lines_are_skipped() {
    let e = engine("! a comment\n\n||example.com^\n# another\n");
    assert_eq!(e.len(), 1);
}

#[test]
fn empty_engine_matches_nothing() {
    let mut e = built(&[], &[]);
    assert!(e.is_empty());
    assert_eq!(ask(&mut e, "example.com").reason, Reason::NotFilteredNotFound);
}

#[test]
fn rules_needing_an_expression_load_as_cheaply_as_plain_ones() {
    // Wildcards force the expression path. Measured as a ratio against the
    // same number of plain rules rather than against a wall clock.
    let n: usize = 60_000;

    let plain: String = (0..n).map(|i| format!("||ads{i}.example.com^\n")).collect();
    let with_expressions: String = (0..n).map(|i| format!("||ads{i}.example.com^*track\n")).collect();

    let build = |list: &str| {
        let start = std::time::Instant::now();
        let engine = engine(list);

        (engine, start.elapsed())
    };

    let (plain_engine, plain_time) = build(&plain);
    let (engine, elapsed) = build(&with_expressions);

    assert_eq!(plain_engine.len(), n, "the baseline should have loaded");
    assert_eq!(engine.len(), n, "every rule should have loaded");

    let ratio = elapsed.as_secs_f64() / plain_time.as_secs_f64().max(1e-6);
    assert!(
        ratio < 10.0,
        "{n} expression rules took {elapsed:?} against {plain_time:?} for the \
         same number of plain ones ({ratio:.1}x); they are being compiled at \
         load rather than on first use"
    );
}

#[test]
fn the_earlier_rule_wins_however_the_lists_are_split() {
    let rules = [
        "||example.com^",
        "||a.example.com^$important",
        "@@||b.example.com^",
        "||b.example.com^$important",
        "||example.com^$client=10.0.0.1",
        "/^c[0-9]\\./",
        "0.0.0.0 d.example.net",
        "||tra*ker.example.net^",
    ];
    let mut one = engine(&rules.join("\n"));
    let split: Vec<(i64, &str)> = rules.iter().enumerate().map(|(i, r)| (i as i64 + 1, *r)).collect();
    let mut many = built(&split, &[]);

    assert_eq!(one.len(), many.len());
    for host in [
        "example.com",
        "a.example.com",
        "b.example.com",
        "c1.example.com",
        "c1.example.net",
        "d.example.net",
        "tracker.example.net",
        "nowhere.example",
    ] {
        let a = ask(&mut one, host);
        let b = ask(&mut many, host);
        assert_eq!(a.reason, b.reason, "{host}");
        let texts = |m: &MatchResult| m.rules.iter().map(|r| r.text.clone()).collect::<Vec<_>>();
        assert_eq!(texts(&a), texts(&b), "{host}");
        assert_eq!(a.matched(), a.reason != Reason::NotFilteredNotFound, "{host}");
    }
    assert_eq!(ask(&mut one, "example.com").rules[0].text, "||example.com^");
    assert_eq!(ask(&mut many, "b.example.com").rules[0].list_id, 4);
}

#[test]
fn a_longer_rule_with_more_modifiers_is_the_more_specific_one() {
    let plain = net("||example.com^");
    let one = net("||example.com^$client=10.0.0.1");
    assert_eq!(plain.specificity(), 0);
    assert_eq!(one.specificity(), 1);

    let mut e = engine("||example.com^\n||example.com^$dnstype=A\n");
    assert_eq!(ask(&mut e, "example.com").rules[0].text, "||example.com^$dnstype=A");
}

#[test]
fn the_footprint_counts_what_was_loaded() {
    let e = built(
        &[(1, "||example.com^\n0.0.0.0 ads.example.net\n/ads/banner\n")],
        &[(2, "||good.example^\n")],
    );
    let (block, allow) = e.footprint(&valid);
    assert_eq!((block.net_rules, allow.net_rules), (2, 1));
    assert_eq!(block.net_structs, 2 * size_of::<NetworkRule>());
    assert_eq!(allow.net_structs, size_of::<NetworkRule>());
    assert_eq!((block.host_rules, allow.host_rules), (1, 0));
    assert_eq!((block.domain_entries, allow.domain_entries), (1, 1));
    assert_eq!(block.host_structs, size_of::<HostRule>());
    assert_eq!(allow.host_structs, 0);
    assert!(block.total > allow.total);
    assert!(!e.block.is_empty() && !e.allow.is_empty());
    assert!(built(&[(1, "! nothing\n")], &[]).block.is_empty());
    assert_eq!((block.host_entries, allow.host_entries), (1, 0));
    assert_eq!(block.host_keys, "ads.example.net".len() + OVERHEAD);
    assert_eq!(block.host_spill, 0, "one rule is kept inline");
    assert_eq!((block.patterns, allow.patterns), (1, 0));
    assert_eq!(allow.shortcuts, 0);
    assert_eq!(block.badfilter, 0);
}

#[test]
fn a_name_of_two_hosts_rules_takes_a_run() {
    let e = engine("0.0.0.0 a.example b.example\n:: a.example\n||x.example^$badfilter\n");
    let (block, _) = e.footprint(&valid);
    assert_eq!(block.host_entries, 2);
    assert_eq!(block.host_spill, 2 * 4 + OVERHEAD);
    assert_eq!(block.badfilter, "||x.example^".len() + OVERHEAD);
}

#[test]
fn rewrites_are_reported_in_the_order_their_literals_are_met() {
    // By position, and the long literal before the short one.
    let m = check_host(
        "ads.banners.example",
        &["example$dnsrewrite=3.3.3.3", "ads$dnsrewrite=2.2.2.2", "ads.bann$dnsrewrite=1.1.1.1"],
    );
    assert_eq!(
        cited(&m),
        ["ads.bann$dnsrewrite=1.1.1.1", "ads$dnsrewrite=2.2.2.2", "example$dnsrewrite=3.3.3.3"]
    );
}

#[test]
fn no_blocklist_changes_what_is_allowed() {
    let rules = "||example.com^$important\n||example.com^$dnsrewrite=1.2.3.4\n0.0.0.0 example.com\n";
    let mut one = built(&[(1, rules)], &[(2, "||example.com^")]);
    let mut other = built(&[(1, "")], &[(2, "||example.com^")]);
    let (a, b) = (ask(&mut one, "example.com"), ask(&mut other, "example.com"));
    assert_eq!((a.reason, b.reason), (Reason::NotFilteredAllowList, Reason::NotFilteredAllowList));
    assert_eq!(a.rules, b.rules);
    assert_eq!(a.rules[0].list_id, 2);
    assert!(a.rewrites.is_empty() && b.rewrites.is_empty());
}

// Rewrites and their exceptions.

/// What `a.example` matches under one list of rules.
fn check(rules: &[&str]) -> MatchResult {
    ask(&mut engine(&rules.join("\n")), "a.example")
}

/// What a host matches under one list of rules.
fn check_host(host: &str, rules: &[&str]) -> MatchResult {
    ask(&mut engine(&rules.join("\n")), host)
}

/// The texts of the rules the match reports, in order.
fn cited(m: &MatchResult) -> Vec<&str> {
    m.rules.iter().map(|r| r.text.as_str()).collect()
}

#[test]
fn an_exception_with_no_value_removes_every_rewrite() {
    let m = check(&["||a.example^$dnsrewrite=1.2.3.4", "@@||a.example^$dnsrewrite"]);

    assert_eq!(m.reason, Reason::NotFilteredNotFound);
    assert!(m.rules.is_empty(), "{:?}", cited(&m));
    assert!(m.rewrites.is_empty());
}

#[test]
fn an_exception_naming_the_same_value_removes_it() {
    let m = check(&["||a.example^$dnsrewrite=1.2.3.4", "@@||a.example^$dnsrewrite=1.2.3.4"]);

    assert_eq!(m.reason, Reason::NotFilteredNotFound);
    assert!(m.rules.is_empty(), "{:?}", cited(&m));
}

#[test]
fn an_exception_naming_a_value_leaves_the_others() {
    let m = check(&[
        "||a.example^$dnsrewrite=1.2.3.4",
        "||a.example^$dnsrewrite=5.6.7.8",
        "@@||a.example^$dnsrewrite=1.2.3.4",
    ]);

    assert_eq!(m.reason, Reason::RewrittenRule);
    assert_eq!(cited(&m), ["||a.example^$dnsrewrite=5.6.7.8"]);
    assert_eq!(m.rewrites, vec![DnsRewrite::Addr(Ip::V4(0x0506_0708))]);
}

#[test]
fn an_ordinary_exception_leaves_an_important_rewrite() {
    for exception in ["@@||a.example^$dnsrewrite", "@@||a.example^$dnsrewrite=1.2.3.4"] {
        let m = check(&["||a.example^$dnsrewrite=1.2.3.4,important", exception]);

        assert_eq!(m.reason, Reason::RewrittenRule, "{exception}");
        assert_eq!(cited(&m), ["||a.example^$dnsrewrite=1.2.3.4,important"], "{exception}");
    }
}

#[test]
fn an_important_exception_takes_an_important_rewrite_too() {
    for exception in [
        "@@||a.example^$dnsrewrite,important",
        "@@||a.example^$dnsrewrite=1.2.3.4,important",
    ] {
        let m = check(&["||a.example^$dnsrewrite=1.2.3.4,important", exception]);

        assert_eq!(m.reason, Reason::NotFilteredNotFound, "{exception}");
        assert!(m.rules.is_empty(), "{exception}: {:?}", cited(&m));
    }
}

#[test]
fn an_exception_is_never_a_rewrite_of_its_own() {
    let m = check(&["@@||a.example^$dnsrewrite=1.2.3.4"]);

    assert_eq!(m.reason, Reason::NotFilteredNotFound);
    assert!(m.rules.is_empty(), "{:?}", cited(&m));
}

#[test]
fn an_exception_with_no_value_matches_a_rewrite_of_any_value() {
    // `=NOERROR` parses to the same thing as no value at all, so it removes
    // an address rewrite rather than only the rewrites that answer NOERROR.
    let m = check(&["||a.example^$dnsrewrite=1.2.3.4", "@@||a.example^$dnsrewrite=NOERROR"]);

    assert_eq!(m.reason, Reason::NotFilteredNotFound);
    assert!(m.rules.is_empty(), "{:?}", cited(&m));
}

#[test]
fn an_exception_matches_the_parsed_value_not_the_text() {
    // `=1.2.3.4` and `=NOERROR;A;1.2.3.4` are the same rewrite written two
    // ways, and the exception removes it.
    let m = check(&["||a.example^$dnsrewrite=NOERROR;A;1.2.3.4", "@@||a.example^$dnsrewrite=1.2.3.4"]);

    assert_eq!(m.reason, Reason::NotFilteredNotFound);
    assert!(m.rules.is_empty(), "{:?}", cited(&m));
}

#[test]
fn an_exception_removes_a_cname_rewrite_by_value() {
    let m = check(&["||a.example^$dnsrewrite=b.example", "@@||a.example^$dnsrewrite=b.example"]);

    assert_eq!(m.reason, Reason::NotFilteredNotFound);
    assert!(m.rules.is_empty(), "{:?}", cited(&m));
}

#[test]
fn an_exception_only_has_to_match_the_host() {
    // A broader pattern excepts a narrower rewrite; a different host does
    // not.
    let broader = check(&["||a.example^$dnsrewrite=1.2.3.4", "@@||example^$dnsrewrite"]);
    assert_eq!(broader.reason, Reason::NotFilteredNotFound);

    let elsewhere = check(&["||a.example^$dnsrewrite=1.2.3.4", "@@||other.example^$dnsrewrite"]);
    assert_eq!(elsewhere.reason, Reason::RewrittenRule);
    assert_eq!(cited(&elsewhere), ["||a.example^$dnsrewrite=1.2.3.4"]);
}

#[test]
fn a_plain_allowlist_rule_does_not_stop_a_rewrite() {
    // Only a `$dnsrewrite` exception excepts a rewrite: a bare `@@||a.example^`
    // leaves it alone.
    let m = check(&["||a.example^$dnsrewrite=1.2.3.4", "@@||a.example^"]);

    assert_eq!(m.reason, Reason::RewrittenRule);
    assert_eq!(cited(&m), ["||a.example^$dnsrewrite=1.2.3.4"]);
}

#[test]
fn a_rewrite_of_the_host_to_itself_is_dropped() {
    let m = check(&["||a.example^$dnsrewrite=a.example"]);

    assert_eq!(m.reason, Reason::NotFilteredNotFound);
    assert!(m.rules.is_empty(), "{:?}", cited(&m));

    // A CNAME to anywhere else is still a rewrite.
    let other = check(&["||a.example^$dnsrewrite=b.example"]);
    assert_eq!(other.reason, Reason::RewrittenRule);
    assert_eq!(other.rewrites, vec![DnsRewrite::CName("b.example".to_string())]);
}

#[test]
fn a_rewrite_with_no_value_is_a_rewrite() {
    // `$dnsrewrite`, `$dnsrewrite=` and `$dnsrewrite=NOERROR` all report a
    // rewrite and answer NOERROR with nothing in it.
    for rule in [
        "||a.example^$dnsrewrite",
        "||a.example^$dnsrewrite=",
        "||a.example^$dnsrewrite=NOERROR",
    ] {
        let m = check(&[rule]);

        assert_eq!(m.reason, Reason::RewrittenRule, "{rule}");
        assert_eq!(cited(&m), [rule], "{rule}");
        assert_eq!(m.rewrites, vec![DnsRewrite::RCode(0)], "{rule}");
    }
}

#[test]
fn a_noerror_rewrite_does_not_cancel_an_address_beside_it() {
    let m = check(&["||a.example^$dnsrewrite=1.2.3.4", "||a.example^$dnsrewrite=NOERROR"]);

    assert_eq!(m.reason, Reason::RewrittenRule);
    assert_eq!(
        cited(&m),
        ["||a.example^$dnsrewrite=1.2.3.4", "||a.example^$dnsrewrite=NOERROR"]
    );
}

// Filter lists.

fn cfg(id: i64, enabled: bool) -> FilterYaml {
    FilterYaml {
        enabled,
        url: format!("https://example.invalid/{id}.txt"),
        name: format!("list {id}"),
        id,
    }
}

/// A manager of these lists, each with its contents in memory.
fn manager(block: &[(FilterYaml, &str)], allow: &[(FilterYaml, &str)], user: &[&str]) -> Manager {
    let configs = |v: &[(FilterYaml, &str)]| v.iter().map(|(f, _)| f.clone()).collect::<Vec<_>>();
    let user: Vec<String> = user.iter().map(|s| s.to_string()).collect();
    let mut m = Manager::from_config(&configs(block), &configs(allow), &user);
    for (f, text) in block.iter().chain(allow) {
        m.find_mut(f.id).expect("a list").loaded(text, Some(0));
    }
    m
}

fn engine_of(m: &Manager) -> Engine {
    m.build_engine(&valid, &address, &facts).expect("small enough")
}

#[test]
fn counts_rules_ignoring_comments_and_blanks() {
    let text = "! a comment\n\n||a.com^\n# another\n||b.com^\n";
    assert_eq!(count_rules(text), 2);
}

#[test]
fn loads_list_contents_from_disk() {
    let m = manager(&[(cfg(1, true), "||ads.example.com^\n! note\n")], &[], &[]);
    assert_eq!(m.blocklists[0].rules_count, 1);
    assert!(m.blocklists[0].last_updated.is_some());
    assert_eq!(m.rules_count(), 1);
}

#[test]
fn a_list_that_came_back_the_same_is_not_written_again() {
    // Rewriting every list on every refresh cycle is megabytes of writes for
    // nothing.
    let text = "||ads.example.com^\n";
    let mut m = manager(&[(cfg(1, true), text)], &[], &[]);
    let before = m.blocklists[0].last_updated;

    assert_eq!(m.fetched(1, text, 5), Ok(Store::Touch));
    let got = Manager::touched(Touched::Done).unwrap().unwrap();

    assert_eq!(got, Fetched::Unchanged);
    assert!(!got.changed());
    assert!(m.blocklists[0].last_updated > before, "but it is no longer due");
    assert_eq!(m.blocklists[0].text, text);
}

#[test]
fn a_list_whose_contents_differ_is_written() {
    let mut m = manager(&[(cfg(1, true), "||old.example.com^\n")], &[], &[]);

    assert_eq!(m.fetched(1, "||new.example.com^\n! note\n", 5), Ok(Store::Write));
    let got = m.store(1, "||new.example.com^\n! note\n").unwrap();

    assert_eq!(got, Fetched::Written { rules: 1 });
    assert!(got.changed());
    assert_eq!(m.blocklists[0].text, "||new.example.com^\n! note\n");
    assert_eq!(m.blocklists[0].last_updated, Some(5));
}

#[test]
fn a_list_with_no_file_yet_is_written_even_if_it_matches() {
    // The in-memory text of a list that has never been fetched is empty, and
    // so is a download that failed to produce anything; there is nothing on
    // disk to touch, so it has to be written.
    let mut m = Manager::from_config(&[cfg(1, true)], &[], &[]);

    assert_eq!(m.fetched(1, "", 5), Ok(Store::Touch));
    assert_eq!(Manager::touched(Touched::Missing), Ok(None));
    assert_eq!(m.store(1, ""), Ok(Fetched::Written { rules: 0 }));
}

#[test]
fn a_refresh_that_fails_says_why() {
    let mut m = Manager::default();
    assert_eq!(m.fetched(7, "", 0), Err(RefreshError::NotFound(7)));
    assert_eq!(m.store(-7, "").unwrap_err().message(), "no filter list with id -7");
    let e = Manager::touched(Touched::Failed("denied".to_string())).unwrap_err();
    assert_eq!(e.message(), "filter list i/o: denied");
    assert_eq!(RefreshError::Download("refused".to_string()).message(), "downloading: refused");
}

#[test]
fn builds_an_engine_from_enabled_lists_only() {
    let m = manager(
        &[(cfg(1, true), "||on.example.com^\n"), (cfg(2, false), "||off.example.com^\n")],
        &[],
        &[],
    );
    let mut e = engine_of(&m);

    assert_eq!(ask(&mut e, "on.example.com").reason, Reason::FilteredBlockList);
    assert_eq!(ask(&mut e, "off.example.com").reason, Reason::NotFilteredNotFound);
    assert_eq!(m.enabled_ids(), [1]);
}

#[test]
fn user_rules_are_applied_under_the_custom_list_id() {
    let m = manager(&[], &[], &["||custom.example.com^"]);
    let r = ask(&mut engine_of(&m), "custom.example.com");

    assert_eq!(r.reason, Reason::FilteredBlockList);
    assert_eq!(r.rules[0].list_id, CUSTOM_LIST_ID);
}

#[test]
fn allowlists_short_circuit_blocklists() {
    let m = manager(&[(cfg(1, true), "||example.com^\n")], &[(cfg(10, true), "||example.com^\n")], &[]);
    let r = ask(&mut engine_of(&m), "example.com");

    assert_eq!(r.reason, Reason::NotFilteredAllowList);
}

#[test]
fn identifiers_do_not_collide() {
    let m = manager(&[(cfg(1, true), ""), (cfg(7, true), "")], &[(cfg(9, true), "")], &[]);
    assert_eq!(m.next_id(), 10);
    assert_eq!(Manager::default().next_id(), 1);
}

#[test]
fn local_list_paths_cannot_escape_the_data_directory() {
    assert!(local_list_path("/data", "/data/userfilters", "../../etc/passwd").is_err());
    assert!(local_list_path("/data", "/data/userfilters", "mylist.txt").is_ok());
}

#[test]
fn a_local_list_is_found_below_the_data_directory() {
    let found = |url: &str| local_list_path("/data", "/data/userfilters", url);
    assert_eq!(found("mylist.txt"), Ok("/data/userfilters/mylist.txt".to_string()));
    assert_eq!(found("file:///data/my.txt"), Ok("/data/my.txt".to_string()));
    assert!(matches!(found("/etc/passwd"), Err(RefreshError::Io(_))));
    assert!(matches!(found("file:///etc/passwd"), Err(RefreshError::Io(_))));
    assert!(matches!(found("/database/my.txt"), Err(RefreshError::Io(_))), "a directory of a longer name");
    assert_eq!(
        found("a/../b").unwrap_err().message(),
        "filter list i/o: path \"a/../b\" escapes the data directory"
    );
    assert!(is_remote("https://example.com/a.txt"));
    assert!(is_remote("http://example.com/a.txt"));
    assert!(!is_remote("file:///data/my.txt"));
}

#[test]
fn blocked_services_get_their_own_engine() {
    // They are kept out of the main engine so a schedule can pause them per
    // request without rebuilding anything.
    let mut m = manager(&[], &[], &[]);
    m.set_blocked_services("||youtube.com^\n".to_string());

    assert_eq!(
        ask(&mut engine_of(&m), "www.youtube.com").reason,
        Reason::NotFilteredNotFound,
        "the main engine must not carry the service rules"
    );

    let mut e = m
        .build_services_engine(&valid, &address, &facts)
        .expect("a selected service must compile");
    let r = ask(&mut e, "www.youtube.com");

    assert_eq!(r.reason, Reason::FilteredBlockList);
    assert_eq!(
        r.rules[0].list_id, BLOCKED_SERVICE_LIST_ID,
        "the match must be attributed to the blocked-services list"
    );

    // And nothing is built once the service is deselected.
    m.set_blocked_services(String::new());
    assert!(m.build_services_engine(&valid, &address, &facts).is_none());
    assert_eq!(ask(&mut engine_of(&m), "www.youtube.com").reason, Reason::NotFilteredNotFound);
}

#[test]
fn hosts_file_entries_are_applied() {
    let mut m = manager(&[], &[], &[]);
    m.set_hosts("192.168.1.5 nas.lan\n# a comment\n".into());

    let r = ask(&mut engine_of(&m), "nas.lan");

    assert_eq!(r.rules[0].list_id, ETC_HOSTS_LIST_ID);
    assert_eq!(r.rules[0].ip, Some(Ip::V4(0xc0a8_0105)));
}

#[test]
fn round_trips_through_the_config_representation() {
    let f = cfg(3, true);
    let l = List::from_config(&f, false);
    let back = l.to_config();
    assert_eq!(back.id, f.id);
    assert_eq!(back.url, f.url);
    assert_eq!(back.name, f.name);
    assert_eq!(back.enabled, f.enabled);
}

#[test]
fn staleness_is_per_list_and_survives_a_restart() {
    // A list is due by its own age, not by how long the server has run.
    let hour: i128 = 3_600_000_000_000;
    let now: i128 = 1_700_000_000_000_000_000;
    let list = |id: i64, enabled: bool, updated: Option<i128>| {
        let mut l = List::from_config(&cfg(id, enabled), false);
        l.last_updated = updated;
        l
    };
    let mut m = Manager::default();
    m.blocklists = vec![
        list(1, true, None),
        list(2, true, Some(now - hour)),
        list(3, true, Some(now - 48 * hour)),
        list(4, false, None),
    ];

    // Never-fetched and long-stale are due; the recent one is not, and a
    // disabled list is never downloaded.
    assert_eq!(m.stale_ids(24 * hour, now), vec![1, 3]);

    // To the nanosecond, and an interval past the end of time never passes.
    assert_eq!(m.stale_ids(hour, now), vec![1, 2, 3]);
    assert_eq!(m.stale_ids(hour + 1, now), vec![1, 3]);
    assert_eq!(m.url_of(3).as_deref(), Some("https://example.invalid/3.txt"));
    assert!(m.find(9).is_none());
}

#[test]
fn record_types_and_response_codes_are_named_in_any_case() {
    assert_eq!(rr_type_from_str("A"), Some(1));
    assert_eq!(rr_type_from_str("aaaa"), Some(28));
    assert_eq!(rr_type_from_str("Https"), Some(65));
    assert_eq!(rr_type_from_str("caa"), Some(257));
    assert_eq!(rr_type_from_str("TYPE65"), None);
    assert_eq!(rr_type_from_str(""), None);

    assert_eq!(rcode_from_str("noerror"), Some(0));
    assert_eq!(rcode_from_str("NXDOMAIN"), Some(3));
    assert_eq!(rcode_from_str("refused"), Some(5));
    assert_eq!(rcode_from_str("BADVERS"), None);

    let l = parse_type_list("A|~aaaa").unwrap();
    assert_eq!((l.included.as_slice(), l.excluded.as_slice()), ([1].as_slice(), [28].as_slice()));
    assert!(l.matches(A) && !l.matches(AAAA) && !l.matches(TXT));
    assert!(parse_type_list("A|NOPE").is_err());
}

#[test]
fn the_same_rules_split_across_lists_answer_the_same_way() {
    // The earlier list must win a priority tie, exactly as the earlier line
    // does within one list: the verdicts and the cited rules do not move.
    let lines: Vec<String> = (0..3_000u32)
        .map(|i| {
            let d = i * 7 % 600;
            match i % 8 {
                0 => format!("||d{d}.example^"),
                1 => format!("@@||d{d}.example^"),
                2 => format!("||d{d}.example^$important"),
                3 => format!("||d{d}.example^$dnstype=A"),
                4 => format!("ads{}.track", d % 40),
                5 => format!("0.0.0.0 d{d}.example"),
                6 => format!("||example^$denyallow=d{d}.example"),
                _ => format!("! note {i}"),
            }
        })
        .collect();
    let mut one = engine(&lines.join("\n"));

    let chunks: Vec<(i64, String)> = lines
        .chunks(lines.len().div_ceil(64))
        .enumerate()
        .map(|(i, c)| (i as i64 + 1, c.join("\n")))
        .collect();
    let split: Vec<(i64, &str)> = chunks.iter().map(|(i, c)| (*i, c.as_str())).collect();
    let mut many = built(&split, &[]);

    assert_eq!(one.len(), many.len(), "the same rules, differently grouped");

    let mut blocked = 0;
    for i in 0..700 {
        for host in [format!("d{i}.example"), format!("x.ads{i}.track.d{i}.example"), format!("d{i}.test")] {
            let a = ask(&mut one, &host);
            let b = ask(&mut many, &host);

            assert_eq!(a.reason, b.reason, "{host}");
            assert_eq!(cited(&a), cited(&b), "{host}: cited rules differ");
            if a.reason == Reason::FilteredBlockList {
                blocked += 1;
            }
        }
    }
    assert!(blocked > 500, "{blocked}");
}

#[test]
fn badfilter_may_stand_anywhere_among_the_modifiers() {
    for bad in [
        "||a.example^$badfilter,important,dnstype=A",
        "||a.example^$important,badfilter,dnstype=A",
        "||a.example^$important,dnstype=A,badfilter",
    ] {
        assert_eq!(canonical_text(bad), "||a.example^$important,dnstype=A");
        let m = check(&["||a.example^$important,dnstype=A", bad]);
        assert_eq!(m.reason, Reason::NotFilteredNotFound, "{bad}");
    }
    assert_eq!(canonical_text("||a.example^$badfilter"), "||a.example^");
    assert_eq!(canonical_text("||a.example^"), "||a.example^");
}
