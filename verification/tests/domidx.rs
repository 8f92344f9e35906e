//! The index from domain to rules.

use sift::domidx::DomainIndex;

fn idx(pairs: &[(&str, u32)]) -> DomainIndex {
    DomainIndex::build(
        pairs
            .iter()
            .map(|(k, v)| (DomainIndex::hash(k), *v))
            .collect(),
    )
}

#[test]
fn finds_a_single_rule() {
    let i = idx(&[("example.com", 7)]);
    assert_eq!(i.get("example.com", |_| true), &[7]);
    assert_eq!(i.get("other.com", |_| true), &[] as &[u32]);
    assert_eq!(i.len(), 1);
}

#[test]
fn keeps_every_rule_for_one_domain_in_order() {
    // Rules are considered in the order the lists were read, and the
    // tie-break between two rules naming the same domain depends on it.
    let i = idx(&[
        ("example.com", 1),
        ("other.com", 2),
        ("example.com", 5),
        ("example.com", 3),
    ]);
    assert_eq!(i.get("example.com", |_| true), &[1, 5, 3]);
    assert_eq!(i.get("other.com", |_| true), &[2]);
    assert_eq!(i.len(), 2);
}

#[test]
fn a_rejected_verification_is_a_miss() {
    // No key strings are stored, so a hash collision would otherwise be
    // indistinguishable from a real hit.
    let i = idx(&[("example.com", 7)]);
    assert_eq!(i.get("example.com", |_| false), &[] as &[u32]);
}

#[test]
fn survives_a_full_table_and_many_collisions() {
    let pairs: Vec<(String, u32)> = (0..5_000u32)
        .map(|n| (format!("host{n}.example.com"), n))
        .collect();
    let i = DomainIndex::build(
        pairs
            .iter()
            .map(|(k, v)| (DomainIndex::hash(k), *v))
            .collect(),
    );

    assert_eq!(i.len(), 5_000);
    for (k, v) in &pairs {
        assert_eq!(i.get(k, |_| true), &[*v], "{k}");
    }
    assert!(i.get("absent.example.com", |_| true).is_empty());
}

#[test]
fn runs_and_singles_survive_a_table_that_has_to_probe() {
    // The build packs a domain named once into its slot and a domain
    // named more than once into a spill run, and fills the table in hash
    // order rather than arrival order, so a slot is often reached by
    // probing past another. This mixes the two shapes, repeats out of
    // index order, and checks every key against what arrived.
    let mut pairs: Vec<(String, u32)> = Vec::new();
    let mut idx = 0u32;
    for n in 0..3_000u32 {
        let key = format!("host{n}.example.com");
        // Every third domain is named three times, the rest once, and
        // the repeats are pushed with descending indices so index order
        // and arrival order cannot be confused.
        let times = if n % 3 == 0 { 3 } else { 1 };
        for _ in 0..times {
            idx += 7;
            pairs.push((key.clone(), 1_000_000 - idx));
        }
    }

    let i = DomainIndex::build(
        pairs
            .iter()
            .map(|(k, v)| (DomainIndex::hash(k), *v))
            .collect(),
    );

    assert_eq!(i.len(), 3_000);
    for n in 0..3_000u32 {
        let key = format!("host{n}.example.com");
        let want: Vec<u32> = pairs
            .iter()
            .filter(|(k, _)| *k == key)
            .map(|(_, v)| *v)
            .collect();

        assert_eq!(i.get(&key, |_| true), want.as_slice(), "{key}");
    }

    assert!(i.get("absent.example.com", |_| true).is_empty());
}

#[test]
fn an_empty_index_answers_nothing() {
    let i = DomainIndex::build(Vec::new());
    assert!(i.is_empty());
    assert!(i.get("example.com", |_| true).is_empty());
}

#[test]
fn the_hash_of_a_name_is_settled() {
    // One multiplication per byte, the halves folded, and the low bit set.
    let k: u64 = 0x517c_c1b7_2722_0a95;
    let mut h: u64 = 0xcbf2_9ce4_8422_2325;
    for b in *b"example.com" {
        h = (h ^ u64::from(b)).wrapping_mul(k);
    }
    h ^= h >> 32;
    assert_eq!(DomainIndex::hash("example.com"), h | 1);
    assert_eq!(DomainIndex::hash("") & 1, 1);
}

#[test]
fn the_table_is_sized_by_its_domains() {
    let i = idx(&[("a.example", 1), ("a.example", 2), ("b.example", 3)]);
    assert_eq!(i.capacity(), 1024);
    // Twelve bytes a slot, and a run of two behind its length.
    assert_eq!(i.footprint(), 1024 * 12 + 3 * 4);
    assert_eq!(idx(&[]).capacity(), 0);

    // Seven tenths of 1024 is 716.8, and one slot stays free.
    let names: Vec<String> = (0..716u32).map(|n| format!("{n}.example")).collect();
    let pairs: Vec<(&str, u32)> = names.iter().map(|n| (n.as_str(), 1)).collect();
    assert_eq!(idx(&pairs[..715]).capacity(), 1024);
    assert_eq!(idx(&pairs).capacity(), 2048);
}
