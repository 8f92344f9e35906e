//! The query log.

use sift::querylog::tail::{read_past, read_tail, Tail, CHUNK};
use sift::querylog::{
    first_entry_secs, first_time, is_ignored, rotate_if_due, Config, Entry, Pushed, QueryLog, RECENT_CAP,
};

fn entry(host: &str) -> Entry {
    Entry {
        question_host: host.to_string(),
        line: format!("{{\"T\":\"2026-09-14T17:41:53.85+07:00\",\"QH\":\"{host}\"}}\n"),
    }
}

/// Reads a line that [`entry`] wrote.
fn parse(line: &str) -> Option<Entry> {
    let (_, rest) = line.split_once("\"QH\":\"")?;
    let (host, _) = rest.split_once('"')?;
    Some(Entry { question_host: host.to_string(), line: format!("{line}\n") })
}

/// Reads the two times that the tests write.
fn seconds(s: &str) -> Option<i64> {
    match s {
        "2020-01-01T00:00:00Z" => Some(1_577_836_800),
        "1970-01-01T00:00:10Z" => Some(10),
        _ => None,
    }
}

/// Reads a page of a log that has these two files behind it.
fn read(l: &QueryLog, offset: usize, limit: usize, current: &str, rotated: &str) -> Vec<Entry> {
    let mut reading = l.read(offset, limit);
    for file in [current, rotated] {
        if let Some((offset, limit)) = reading.next() {
            let (entries, passed) = read_past(file.as_bytes(), offset, limit, &parse);
            reading.feed(entries, passed);
        }
    }
    reading.into_entries()
}

/// A file of the records of these hosts.
fn file(hosts: &[&str]) -> String {
    hosts.iter().map(|h| entry(h).line).collect()
}

fn hosts(entries: &[Entry]) -> Vec<&str> {
    entries.iter().map(|e| e.question_host.as_str()).collect()
}

#[test]
fn buffers_then_flushes_to_disk() {
    let mut l = QueryLog::new(Config { size_memory: 3, ..Config::default() });

    assert!(!l.push(entry("a.com")).flush);
    assert!(!l.push(entry("b.com")).flush, "should not write before the buffer fills");
    assert_eq!(l.buffered(), 2);

    assert_eq!(l.push(entry("c.com")), Pushed { accepted: true, flush: true });
    let written = l.flush();
    assert_eq!(l.buffered(), 0, "the buffer should have flushed");
    assert_eq!(hosts(&written), ["a.com", "b.com", "c.com"]);
}

#[test]
fn a_disabled_log_records_nothing() {
    let mut l = QueryLog::new(Config { enabled: false, ..Config::default() });
    assert!(!l.push(entry("a.com")).accepted);
    assert!(read(&l, 0, 10, "", "").is_empty());
}

#[test]
fn memory_only_mode_keeps_entries_off_disk() {
    let mut l = QueryLog::new(Config { file_enabled: false, size_memory: 1, ..Config::default() });
    assert_eq!(l.push(entry("a.com")), Pushed { accepted: true, flush: false });
    assert!(l.flush().is_empty());
    assert_eq!(read(&l, 0, 10, "", "").len(), 1, "but it is still readable by the API");
}

#[test]
fn ignored_hosts_are_dropped() {
    let cfg = Config {
        ignored: vec!["ads.example.com".into()],
        ignored_enabled: true,
        ..Config::default()
    };
    assert!(is_ignored(&cfg, "ads.example.com"));
    let mut l = QueryLog::new(cfg);

    assert!(!l.push(entry("ads.example.com")).accepted);
    assert!(!l.push(entry("sub.ads.example.com")).accepted, "subdomains are covered too");
    assert!(l.push(entry("other.com")).accepted);
}

#[test]
fn the_root_domain_ignores_everything() {
    let mut l = QueryLog::new(Config {
        ignored: vec![".".into()],
        ignored_enabled: true,
        ..Config::default()
    });
    assert!(!l.push(entry("anything.com")).accepted);
}

#[test]
fn ignoring_is_off_unless_enabled() {
    let mut l = QueryLog::new(Config {
        ignored: vec!["ads.example.com".into()],
        ignored_enabled: false,
        ..Config::default()
    });
    assert!(l.push(entry("ads.example.com")).accepted);
}

#[test]
fn reads_newest_first() {
    let mut l = QueryLog::new(Config { size_memory: 1000, ..Config::default() });
    for h in ["first.com", "second.com", "third.com"] {
        l.push(entry(h));
    }

    let got = read(&l, 0, 10, "", "");
    assert_eq!(got[0].question_host, "third.com");
    assert_eq!(got[2].question_host, "first.com");
}

#[test]
fn paging_skips_with_the_offset() {
    let mut l = QueryLog::new(Config { size_memory: 1000, ..Config::default() });
    for i in 0..10 {
        l.push(entry(&format!("h{i}.com")));
    }

    let page = read(&l, 2, 3, "", "");
    assert_eq!(page.len(), 3);
    assert_eq!(page[0].question_host, "h7.com");
}

#[test]
fn a_page_past_memory_goes_on_in_the_files() {
    let mut l = QueryLog::new(Config::default());
    for i in 0..10 {
        l.push(entry(&format!("h{i}.com")));
    }
    assert_eq!(l.recent(), 10);
    assert_eq!(l.read(4, 20).next(), Some((0, 14)));
    assert_eq!(l.read(14, 20).next(), Some((4, 20)));
    assert_eq!(l.read(0, 10).next(), None);

    let (current, rotated) = (file(&["c0.com", "c1.com", "c2.com"]), file(&["r0.com", "r1.com"]));
    assert_eq!(hosts(&read(&l, 9, 5, &current, &rotated)), ["h0.com", "c2.com", "c1.com", "c0.com", "r1.com"]);
    assert_eq!(hosts(&read(&l, 10, 4, &current, &rotated)), ["c2.com", "c1.com", "c0.com", "r1.com"]);
    assert_eq!(hosts(&read(&l, 8, 2, &current, &rotated)), ["h1.com", "h0.com"]);
    assert_eq!(hosts(&read(&l, 14, 9, &current, &rotated)), ["r0.com"]);
}

#[test]
fn a_page_is_read_from_the_files_when_memory_is_cold() {
    let l = QueryLog::new(Config::default());
    let (current, rotated) = (file(&["c0.com", "c1.com", "c2.com"]), file(&["r0.com", "r1.com"]));
    assert_eq!(hosts(&read(&l, 0, 4, &current, &rotated)), ["c2.com", "c1.com", "c0.com", "r1.com"]);
    assert_eq!(hosts(&read(&l, 1, 10, &current, &rotated)), ["c1.com", "c0.com", "r1.com", "r0.com"]);
    assert_eq!(hosts(&read(&l, 4, 10, &current, &rotated)), ["r0.com"]);
    assert_eq!(hosts(&read(&l, 0, 2, &current, &rotated)), ["c2.com", "c1.com"]);
    assert!(read(&l, 0, 0, &current, &rotated).is_empty());
}

#[test]
fn an_entry_recorded_once_is_read_once() {
    let mut l = QueryLog::new(Config { size_memory: 1, ..Config::default() });
    assert!(l.push(entry("e.com")).flush);
    let written: String = l.flush().into_iter().map(|e| e.line).collect();
    assert_eq!(hosts(&read(&l, 0, 10, &written, "")), ["e.com"]);

    // Older records of the file follow, and so do those of the rotated one.
    let current = file(&["a.com", "b.com"]) + &written;
    let rotated = file(&["r.com"]);
    assert_eq!(hosts(&read(&l, 0, 10, &current, &rotated)), ["e.com", "b.com", "a.com", "r.com"]);
    assert_eq!(hosts(&read(&l, 2, 10, &current, &rotated)), ["a.com", "r.com"]);

    // What is kept off the files is not looked for there.
    l.set_config(Config { file_enabled: false, ..Config::default() });
    l.push(entry("m.com"));
    assert_eq!(hosts(&read(&l, 0, 10, &current, &rotated)), ["m.com", "e.com", "b.com", "a.com", "r.com"]);
}

#[test]
fn what_memory_gave_is_taken_off_the_limit_once() {
    let mut l = QueryLog::new(Config { size_memory: 1000, ..Config::default() });
    l.push(entry("m.com"));
    let old: Vec<String> = (0..20).map(|i| format!("h{i}.com")).collect();
    let current = file(&old.iter().map(String::as_str).collect::<Vec<_>>());
    let got = read(&l, 0, 10, &current, "");
    assert_eq!(got.len(), 10);
    assert_eq!(got[0].question_host, "m.com");
    assert_eq!(got[9].question_host, "h11.com");
}

#[test]
fn rotation_is_due_once_the_oldest_entry_is_older_than_the_interval() {
    let head = b"{\"T\":\"2020-01-01T00:00:00Z\",\"QH\":\"old.com\"}\n";
    let oldest = first_entry_secs(head, &seconds);
    assert_eq!(oldest, Some(1_577_836_800));
    assert!(rotate_if_due(oldest, 86_400, 1_789_000_000));
}

#[test]
fn a_log_inside_its_interval_is_left_alone() {
    // The decision is the first record's own timestamp, not the file's: a
    // log being appended to was modified moments ago, so a modification time
    // would never come due.
    let head = b"{\"T\":\"2020-01-01T00:00:00Z\",\"QH\":\"old.com\"}\n";
    let oldest = first_entry_secs(head, &seconds);
    let century = 100 * 365 * 86_400;
    assert!(!rotate_if_due(oldest, century, 1_789_000_000));
}

#[test]
fn a_log_that_does_not_exist_is_not_due() {
    assert!(!rotate_if_due(None, 1, 1_789_000_000));
}

#[test]
fn a_log_is_due_from_the_second_its_interval_ends() {
    assert!(rotate_if_due(Some(10), 5, 15));
    assert!(!rotate_if_due(Some(10), 5, 14));
    assert!(rotate_if_due(Some(i64::MAX), i64::MAX, i64::MAX), "the sum stops at the last second");
}

#[test]
fn the_first_time_is_read_out_of_whatever_bytes_there_are() {
    assert_eq!(first_time("{\"T\":\"1970-01-01T00:00:10Z\"}").as_deref(), Some("1970-01-01T00:00:10Z"));
    assert_eq!(first_time("{\"X\":\"y\"}"), None);
    // Bytes that are not text do not hide the time before them.
    assert_eq!(first_entry_secs(b"{\"T\":\"1970-01-01T00:00:10Z\",\"QH\":\"\xff\xfe", &seconds), Some(10));
    assert_eq!(first_entry_secs(b"\xff\"T\":\"1970-01-01T00:00:10Z\"", &seconds), Some(10));
    assert_eq!(first_entry_secs(b"", &seconds), None);
}

#[test]
fn clearing_removes_both_files_and_the_buffer() {
    let mut l = QueryLog::new(Config { size_memory: 100, ..Config::default() });
    l.push(entry("a.com"));
    l.push(entry("b.com"));

    l.clear();
    assert_eq!((l.buffered(), l.recent()), (0, 0));
    assert!(read(&l, 0, 10, "", "").is_empty());
}

#[test]
fn memory_holds_only_so_many() {
    let mut l = QueryLog::new(Config { size_memory: 1, ..Config::default() });
    for i in 0..RECENT_CAP + 5 {
        if l.push(entry(&format!("h{i}.com"))).flush {
            l.flush();
        }
    }
    assert_eq!(l.recent(), RECENT_CAP);
    assert_eq!(read(&l, 0, 1, "", "")[0].question_host, format!("h{}.com", RECENT_CAP + 4));
    assert_eq!(read(&l, RECENT_CAP - 1, 1, "", "")[0].question_host, "h5.com");

    l.set_config(Config { enabled: false, ..Config::default() });
    assert!(!l.config().enabled);
    assert_eq!(entry("a.com").copy(), entry("a.com"));
}

#[test]
fn reads_from_disk_when_memory_is_cold() {
    // A file as a previous run would have left it.
    let mut text = String::new();
    for i in 0..2500 {
        text.push_str(&entry(&format!("h{i}.com")).line);
    }

    let got = read_tail(text.as_bytes(), 0, 5, &parse);
    assert_eq!(got.len(), 5);
    assert_eq!(got[0].question_host, "h2499.com", "newest first");
    assert_eq!(got[4].question_host, "h2495.com");
}

#[test]
fn reading_a_missing_file_is_not_an_error() {
    assert!(read_tail(b"", 0, 10, &parse).is_empty());
}

#[test]
fn entries_written_are_readable_by_the_parser() {
    let mut l = QueryLog::new(Config { size_memory: 1, ..Config::default() });
    let e = entry("example.com");
    assert!(l.push(e.copy()).flush);
    let file: String = l.flush().into_iter().map(|e| e.line).collect();

    let back = read_tail(file.as_bytes(), 0, 1, &parse);
    assert_eq!(back.len(), 1);
    assert_eq!(back[0], e);
}

#[test]
fn a_file_read_in_chunks_reads_as_a_whole() {
    let mut text = String::new();
    for i in 0..3000 {
        text.push_str(&entry(&format!("host-{i}.example.com")).line);
    }
    let file = text.as_bytes();
    assert!(file.len() > 2 * CHUNK as usize, "several chunks");

    let mut t = Tail::new(file.len() as u64, 1500, 3);
    let mut chunks = 0;
    while let Some((start, len)) = t.next_chunk() {
        let at = start as usize;
        t.feed(file[at..at + len as usize].to_vec(), &parse);
        chunks += 1;
    }
    assert!(chunks >= 2);
    let got = t.into_entries();
    assert_eq!(
        hosts(&got),
        ["host-1499.example.com", "host-1498.example.com", "host-1497.example.com"]
    );
    assert_eq!(got, read_tail(file, 1500, 3, &parse));
}

#[test]
fn lines_that_do_not_parse_are_passed_over() {
    let mut file: Vec<u8> = Vec::new();
    file.extend(entry("a.com").line.as_bytes());
    file.extend(b"not a record\n\n");
    file.extend(b"\xff\xfe\"QH\":\"no text\"\n");
    file.extend(entry("b.com").line.as_bytes());
    // The last line has no end yet.
    file.extend(b"{\"QH\":\"c.com\"}");

    let got = read_tail(&file, 0, 10, &parse);
    assert_eq!(hosts(&got), ["c.com", "b.com", "a.com"]);
}

#[test]
fn one_line_longer_than_a_chunk_is_read_whole() {
    let long = "x".repeat(3 * CHUNK as usize);
    let file = format!("{}{}", entry("a.com").line, entry(&long).line);
    let got = read_tail(file.as_bytes(), 0, 10, &parse);
    assert_eq!(got.len(), 2);
    assert_eq!(got[0].question_host.len(), long.len());
    assert_eq!(got[1].question_host, "a.com");
}
