use kmer_subtract::kmer::decode;
use kmer_subtract::select::select;
use kmer_subtract::table::FrequencyTable;

fn table_with(key: u64, count: usize) -> FrequencyTable {
    let mut t = FrequencyTable::new();
    for _ in 0..count {
        t.increment(key);
    }
    t
}

#[test]
fn emits_key_above_all_three_thresholds() {
    // 21 x A packs to key 0; source count 10, subtract count 2.
    let key = 0u64;
    let source = table_with(key, 10);
    let subtract = table_with(key, 2);
    let out = select(&source, &subtract, 5, 3, 5);
    assert_eq!(out, vec![(key, 10, 2)]);
    let rendered = String::from_utf8(decode(key, 21)).unwrap();
    let line = format!("{}\t{}\t{}", rendered, out[0].1, out[0].2);
    assert_eq!(line, "AAAAAAAAAAAAAAAAAAAAA\t10\t2");
}

#[test]
fn subtract_count_above_bound_suppresses_emission() {
    let key = 0u64;
    let source = table_with(key, 10);
    let subtract = table_with(key, 4);
    let out = select(&source, &subtract, 5, 3, 5);
    assert!(out.is_empty());
}

#[test]
fn source_count_below_minimum_suppresses_emission() {
    let key = 0u64;
    let source = table_with(key, 3);
    for subtract_count in [0usize, 1, 2, 10] {
        let subtract = table_with(key, subtract_count);
        let out = select(&source, &subtract, 5, 0, 0);
        assert!(out.is_empty());
    }
}

#[test]
fn zero_threshold_and_max_bound_admit_by_source_count_alone() {
    // With difference_threshold 0 and max_subtract_count at the cap, every
    // key with source count >= min_source_count is emitted, whatever its
    // subtract count.
    let mut source = FrequencyTable::new();
    for _ in 0..5 {
        source.increment(7);
    }
    for _ in 0..4 {
        source.increment(11);
    }
    let subtract = table_with(7, 9999);
    let out = select(&source, &subtract, 5, 65535, 0);
    assert_eq!(out, vec![(7, 5, 9999)]);
}

#[test]
fn difference_floors_at_zero_instead_of_underflowing() {
    // Subtract count far above the source count: no underflow, no panic;
    // the key passes a zero threshold and fails a positive one.
    let key = 42u64;
    let source = table_with(key, 5);
    let subtract = table_with(key, 60000);
    let admitted = select(&source, &subtract, 1, 65535, 0);
    assert_eq!(admitted, vec![(key, 5, 60000)]);
    let rejected = select(&source, &subtract, 1, 65535, 1);
    assert!(rejected.is_empty());
}

#[test]
fn selection_is_idempotent() {
    let mut source = FrequencyTable::new();
    let mut subtract = FrequencyTable::new();
    source.count_record(b"ACGTACGTAC", 3, 1, 0);
    source.count_record(b"TTTGGG", 3, 1, 0);
    subtract.count_record(b"ACGTT", 3, 1, 0);
    let first = select(&source, &subtract, 1, 2, 0);
    let second = select(&source, &subtract, 1, 2, 0);
    assert_eq!(first, second);
}

#[test]
fn emission_preserves_table_key_order() {
    let mut source = FrequencyTable::new();
    source.increment(9);
    source.increment(3);
    source.increment(3);
    let subtract = FrequencyTable::new();
    let out = select(&source, &subtract, 1, 0, 0);
    assert_eq!(out, vec![(9, 1, 0), (3, 2, 0)]);
}
