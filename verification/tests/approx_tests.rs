use kmer_subtract::approx::select_approx;
use kmer_subtract::approx::ApproximateFrequencyTable;
use kmer_subtract::approx::VisitedFilter;

#[test]
fn estimate_counts_inserted_keys() {
    // A single counter slot and a single hash make the estimate exact.
    let mut t = ApproximateFrequencyTable::new(1, 6, 1);
    assert_eq!(t.estimate(99), 0);
    for _ in 0..5 {
        t.insert(99);
    }
    assert!(t.estimate(99) >= 5);
    assert_eq!(t.estimate(99), 5);
}

#[test]
fn estimate_saturates_at_the_slot_cap() {
    // Two bits per slot cap the counters at 3.
    let mut t = ApproximateFrequencyTable::new(1, 2, 1);
    for _ in 0..10 {
        t.insert(7);
    }
    assert_eq!(t.estimate(7), 3);
}

#[test]
fn visited_filter_never_forgets_an_inserted_key() {
    let mut v = VisitedFilter::new(256, 2);
    assert!(!v.contains(5));
    v.insert(5);
    assert!(v.contains(5));
    v.insert(9);
    assert!(v.contains(5) && v.contains(9));
}

#[test]
fn approximate_selection_emits_a_qualifying_kmer() {
    // The 21 x A k-mer packs to key 0: seen 10 times in the source, twice in
    // the subtract collection.
    let record = vec![b'A'; 21];
    let mut source = ApproximateFrequencyTable::new(1, 6, 1);
    for _ in 0..10 {
        source.count_record(&record, 21, 1, 0);
    }
    let mut subtract = ApproximateFrequencyTable::new(1, 6, 1);
    for _ in 0..2 {
        subtract.count_record(&record, 21, 1, 0);
    }
    let mut visited = VisitedFilter::new(256, 2);
    let out = select_approx(
        &vec![record],
        &source,
        &subtract,
        &mut visited,
        21,
        1,
        0,
        5,
        3,
        5,
    );
    assert_eq!(out, vec![(0, 10, 2)]);
}

#[test]
fn approximate_selection_visits_each_key_once() {
    // AAAAA holds four overlapping AA windows, all key 0: the membership
    // filter deduplicates them, so the key is emitted once.
    let record = b"AAAAA".to_vec();
    let mut source = ApproximateFrequencyTable::new(1, 6, 1);
    source.count_record(&record, 2, 1, 0);
    let subtract = ApproximateFrequencyTable::new(1, 6, 1);
    let mut visited = VisitedFilter::new(256, 2);
    let out = select_approx(
        &vec![record],
        &source,
        &subtract,
        &mut visited,
        2,
        1,
        0,
        1,
        0,
        0,
    );
    assert_eq!(out, vec![(0, 4, 0)]);
}

#[test]
fn approximate_counting_respects_the_sampler() {
    // AC canonicalizes to key 1; 1 % 9 == 1, so with modulus 9 and residue 0
    // the occurrence never reaches the counting filter.
    let mut t = ApproximateFrequencyTable::new(1, 6, 1);
    t.count_record(b"AC", 2, 9, 0);
    assert_eq!(t.estimate(1), 0);
    // AA is key 0; 0 % 9 == 0, so it is counted.
    t.count_record(b"AA", 2, 9, 0);
    assert_eq!(t.estimate(0), 1);
}

#[test]
fn approximate_selection_respects_the_sampler() {
    // The only k-mer of the record is dropped by the sampler, so nothing is
    // emitted however generous the thresholds.
    let record = b"AC".to_vec();
    let mut source = ApproximateFrequencyTable::new(1, 6, 1);
    for _ in 0..10 {
        source.count_record(&record, 2, 9, 0);
    }
    let subtract = ApproximateFrequencyTable::new(1, 6, 1);
    let mut visited = VisitedFilter::new(256, 2);
    let out = select_approx(
        &vec![record],
        &source,
        &subtract,
        &mut visited,
        2,
        9,
        0,
        1,
        65535,
        0,
    );
    assert!(out.is_empty());
}
