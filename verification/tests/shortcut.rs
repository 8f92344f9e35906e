//! The index of literals that rules need.

use sift::shortcut::{
    gate_bit, long_gate_bit, short_key, windows, ShortcutIndex, GATE_WORDS, LONG_GATE_WORDS, MIN_SHORTCUT_LEN,
};

fn index(patterns: &[(&str, &[u32])]) -> ShortcutIndex {
    ShortcutIndex::build(
        patterns
            .iter()
            .map(|(p, r)| ((*p).to_string(), r.to_vec()))
            .collect(),
    )
}

fn found(i: &ShortcutIndex, host: &str) -> Vec<u32> {
    i.find(host.as_bytes())
}

#[test]
fn finds_a_pattern_wherever_it_sits() {
    let i = index(&[("tracker.example", &[7])]);
    for host in [
        "tracker.example",
        "tracker.example.com",
        "www.tracker.example",
        "a.tracker.example.b",
    ] {
        assert_eq!(found(&i, host), [7], "{host}");
    }
    assert!(found(&i, "tracker.examplf").is_empty());
    assert!(found(&i, "example").is_empty());
}

#[test]
fn finds_patterns_shorter_than_a_window() {
    let i = index(&[("ads", &[1]), ("ww4.", &[2]), ("cdn-a", &[3])]);
    assert_eq!(found(&i, "ads.example"), [1]);
    assert_eq!(found(&i, "ww4.example"), [2]);
    assert_eq!(found(&i, "xcdn-ab"), [3]);
    assert_eq!(found(&i, "ad.example"), &[] as &[u32]);
    // A short one is first looked for by its first three bytes, so a host
    // that shares them without the rest must not be reported.
    assert_eq!(found(&i, "ww5.example"), &[] as &[u32]);
}

#[test]
fn a_pattern_inside_http_is_reported_for_every_host_exactly_once() {
    // `|http://ads.` has the shortcut `http`, which every `http://<host>`
    // contains; a host that also contains it must not double up.
    let i = index(&[("http", &[4]), ("ttp", &[5])]);
    assert_eq!(found(&i, "example.com"), [4, 5]);
    assert_eq!(found(&i, "httpbin.org"), [4, 5]);
    assert_eq!(found(&i, "a"), [4, 5]);
}

#[test]
fn a_pattern_occurring_twice_is_reported_once() {
    let i = index(&[("ads.ads.", &[1]), ("ads", &[2])]);
    assert_eq!(found(&i, "ads.ads.ads.ads.com"), [1, 2]);
}

#[test]
fn several_rules_under_one_pattern_keep_load_order() {
    let i = index(&[("tracker.example", &[9, 3, 5])]);
    assert_eq!(found(&i, "x.tracker.example"), [9, 3, 5]);
}

#[test]
fn an_empty_index_answers_nothing_for_any_host() {
    let i = ShortcutIndex::build(Vec::new());
    assert!(i.is_empty());
    for host in ["", "a", "ab", "abc", "example.com"] {
        assert!(found(&i, host).is_empty(), "{host:?}");
    }
    // Only long patterns, then only short ones: the other table is empty.
    let i = index(&[("tracker.example", &[1])]);
    assert!(found(&i, "ads.com").is_empty());
    assert!(found(&i, "ab").is_empty());
    let i = index(&[("ads", &[1])]);
    assert!(found(&i, "tracker.example").is_empty());
}

#[test]
fn a_pattern_longer_than_the_text_limit_is_still_found() {
    let long = "a".repeat(300) + ".example";
    let i = index(&[(long.as_str(), &[1])]);
    assert_eq!(found(&i, &long), [1]);
    // Its first 255 bytes are what is kept, so a host with only those is
    // a candidate too — a superset, which the rule's own pattern settles.
    assert_eq!(found(&i, &"a".repeat(255)), [1]);
    assert!(found(&i, &"a".repeat(254)).is_empty());
}

/// A generator of words.
struct Gen(u64);
impl Gen {
    fn next(&mut self, n: usize) -> usize {
        self.0 ^= self.0 << 13;
        self.0 ^= self.0 >> 7;
        self.0 ^= self.0 << 17;
        (self.0 % n as u64) as usize
    }

    fn word(&mut self, len: usize) -> String {
        let alphabet = b"ab.-";
        (0..len)
            .map(|_| char::from(alphabet[self.next(alphabet.len())]))
            .collect()
    }
}

#[test]
fn agrees_with_brute_force_on_a_dense_alphabet() {
    // A tiny alphabet makes windows collide and patterns overlap, which
    // is where a hash index goes wrong if it is going to.
    let mut g = Gen(0x2545_F491_4F6C_DD1D);

    let mut patterns: Vec<(String, Vec<u32>)> = Vec::new();
    for r in 0..400u32 {
        let len = MIN_SHORTCUT_LEN + g.next(12);
        let text = g.word(len);
        match patterns.iter_mut().find(|(t, _)| *t == text) {
            Some((_, rules)) => rules.push(r),
            None => patterns.push((text, vec![r])),
        }
    }
    let i = ShortcutIndex::build(patterns.clone());

    for _ in 0..2_000 {
        let len = 1 + g.next(30);
        let host = g.word(len);
        let mut want: Vec<u32> = patterns
            .iter()
            .filter(|(t, _)| host.contains(t.as_str()) || "http".contains(t.as_str()))
            .flat_map(|(_, r)| r.iter().copied())
            .collect();
        want.sort_unstable();
        let mut got = found(&i, &host);
        got.sort_unstable();
        assert_eq!(got, want, "for host {host:?}");
    }
}

#[test]
fn reports_its_size() {
    let i = index(&[("tracker.example", &[1]), ("ads", &[2, 3])]);
    assert_eq!(i.len(), 2);
    assert!(!i.is_empty());
    assert!(i.footprint() > 0);
}

#[test]
fn the_bits_over_the_windows_are_settled() {
    assert_eq!(windows(b"example.com").len(), 4);
    assert!(windows(b"short").is_empty());
    assert_eq!(windows(b"abcdefgh"), [u64::from_le_bytes(*b"abcdefgh")]);
    assert!(long_gate_bit(u64::MAX) < LONG_GATE_WORDS * 64);
    assert!(gate_bit(b"abc", 0) < GATE_WORDS * 64);
    assert_eq!(gate_bit(b"xabc", 1), gate_bit(b"abc", 0));
    assert_eq!(short_key(b"xabc", 1), short_key(b"abc", 0));
    assert_ne!(short_key(b"abd", 0), short_key(b"abc", 0));
}

#[test]
fn a_query_reads_a_line_for_each_position() {
    let i = index(&[("tracker.example", &[1]), ("ads", &[2])]);
    let (long_lines, short_lines, read_long, read_short, hits) = i.debug_stats(b"ads.com");
    assert!(long_lines > 0 && short_lines > 0);
    assert_eq!(read_long, 0, "no window fits");
    assert!(read_short >= 5, "five positions have three bytes");
    assert_eq!(hits, 1, "and one of them is filed");
}

#[test]
fn the_order_of_arrival_changes_nothing() {
    let a: [(&str, &[u32]); 5] =
        [("tracker.example", &[1]), ("ads", &[2, 3]), ("ads.ads.", &[4]), ("http", &[5]), ("banner-ads.", &[6])];
    let mut b = a;
    b.reverse();
    let (x, y) = (index(&a), index(&b));
    assert_eq!((x.len(), x.footprint()), (y.len(), y.footprint()));
    for host in ["ads.ads.example", "banner-ads.tracker.example", "example.com", "tracker.example.ads"] {
        assert_eq!(found(&x, host), found(&y, host), "{host}");
        assert_eq!(x.debug_stats(host.as_bytes()), y.debug_stats(host.as_bytes()), "{host}");
    }
}

#[test]
fn hits_come_by_position_and_long_before_short() {
    let i = index(&[("zzz", &[1]), ("aaa", &[2]), ("mmmmmmmmm", &[3]), ("mmm", &[4])]);
    assert_eq!(found(&i, "mmmmmmmmm.zzz.aaa"), [3, 4, 1, 2]);
    assert_eq!(found(&i, "aaa.mmmmmmmmm.zzz"), [2, 3, 4, 1]);
}

#[test]
fn the_footprint_is_the_sum_of_its_parts() {
    // Two lines of eight slots each, twelve bytes a slot.
    let short = index(&[("ads", &[2])]);
    assert_eq!(short.footprint(), GATE_WORDS * 8 + 16 * 12 + (6 + 3));
    let long = index(&[("tracker.example", &[1, 7])]);
    assert_eq!(long.footprint(), LONG_GATE_WORDS * 8 + 16 * 12 + (6 + 15) + 3 * 4);
    assert_eq!(index(&[("http", &[1, 2])]).footprint(), 8);
}

#[test]
fn a_table_is_at_most_two_thirds_full() {
    let lines = |n: usize| {
        let texts: Vec<String> = (0..n).map(|k| format!("literal-{k:04}")).collect();
        let rules: Vec<(&str, &[u32])> = texts.iter().map(|t| (t.as_str(), &[1u32] as &[u32])).collect();
        index(&rules).debug_stats(b"").0
    };
    assert_eq!(lines(10), 2);
    assert_eq!(lines(11), 4);
    assert_eq!(lines(15), 4);
    assert_eq!(lines(21), 4);
    assert_eq!(lines(22), 8);
}
