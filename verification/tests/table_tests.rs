use kmer_subtract::sampler::keep;
use kmer_subtract::table::FrequencyTable;

#[test]
fn sampler_keeps_by_residue() {
    assert!(keep(10, 9, 1));
    assert!(!keep(10, 9, 0));
    assert!(keep(18, 9, 0));
    // A modulus of 1 with residue 0 disables sampling.
    assert!(keep(0, 1, 0));
    assert!(keep(12345, 1, 0));
}

#[test]
fn sampler_is_consistent_across_collections() {
    // The decision depends only on the key and the pair: both scans see it
    // identically.
    for key in [0u64, 1, 7, 9, 10, 81, 12345] {
        let in_source_scan = keep(key, 9, 0);
        let in_subtract_scan = keep(key, 9, 0);
        assert_eq!(in_source_scan, in_subtract_scan);
        assert_eq!(in_source_scan, key % 9 == 0);
    }
}

#[test]
fn count_record_counts_canonical_keys() {
    // ACGTA, k=2: canonical keys 1, 6, 1, 12.
    let mut t = FrequencyTable::new();
    t.count_record(b"ACGTA", 2, 1, 0);
    assert_eq!(t.lookup(1), 2);
    assert_eq!(t.lookup(6), 1);
    assert_eq!(t.lookup(12), 1);
    // GT appears only through its canonical form 1.
    assert_eq!(t.lookup(11), 0);
    assert_eq!(t.num_keys(), 3);
}

#[test]
fn counting_is_commutative_over_record_order() {
    let a = b"ACGTA".to_vec();
    let b = b"GGCCA".to_vec();
    let c = b"TTACG".to_vec();
    let t1 = FrequencyTable::count_all(&vec![a.clone(), b.clone(), c.clone()], 2, 1, 0);
    let t2 = FrequencyTable::count_all(&vec![c, a, b], 2, 1, 0);
    for key in 0u64..16 {
        assert_eq!(t1.lookup(key), t2.lookup(key));
    }
}

#[test]
fn counting_is_commutative_over_partitions() {
    // One pass over both records equals two tables never merged: compare a
    // single run against the same records split differently.
    let a = b"ACGTACGT".to_vec();
    let b = b"TTTTAAAA".to_vec();
    let together = FrequencyTable::count_all(&vec![a.clone(), b.clone()], 3, 1, 0);
    let mut split = FrequencyTable::new();
    split.count_records(&vec![b], 3, 1, 0);
    split.count_records(&vec![a], 3, 1, 0);
    for key in 0u64..64 {
        assert_eq!(together.lookup(key), split.lookup(key));
    }
}

#[test]
fn counts_saturate_at_the_cap() {
    let mut t = FrequencyTable::new();
    for _ in 0..70000 {
        t.increment(5);
    }
    assert_eq!(t.lookup(5), 65535);
    t.increment(5);
    assert_eq!(t.lookup(5), 65535);
}

#[test]
fn sampled_out_keys_are_never_counted() {
    // AC packs to 1 and canonicalizes to 1; 1 % 9 == 1, so with modulus 9
    // and residue 0 the key must not appear in either table's counted set.
    let mut source = FrequencyTable::new();
    let mut subtract = FrequencyTable::new();
    source.count_record(b"AC", 2, 9, 0);
    subtract.count_record(b"AC", 2, 9, 0);
    assert_eq!(source.lookup(1), 0);
    assert_eq!(subtract.lookup(1), 0);
    assert_eq!(source.num_keys(), 0);
    assert_eq!(subtract.num_keys(), 0);
    // AA packs to 0; 0 % 9 == 0, so it is counted.
    source.count_record(b"AA", 2, 9, 0);
    assert_eq!(source.lookup(0), 1);
}
