//! Approximate counting: the fixed-memory alternative to the exact tables.
//!
//! When the key space would not fit in memory, counts are kept in a counting
//! Bloom filter: estimates may overestimate through hash collisions but,
//! below the per-slot saturation cap, never underestimate the number of
//! insertions of a key (one-sided error).  The sampler gates this strategy
//! exactly as it gates the exact one, so both count the same key subspace.
//! The selection pass streams the source records once more and visits each
//! retained canonical k-mer at most once, gated by a deduplicating
//! membership filter whose false positives can only suppress an emission,
//! never fabricate one.
//!
//! Both filters come from the `bloom` crate and are trusted at their
//! interface; everything around them is verified for every value the filters
//! can return.

use vstd::prelude::*;

use vstd::arithmetic::power2::pow2;
use vstd::multiset::Multiset;

use bloom::ASMS;

use crate::kmer::kmer_pairs;
use crate::kmer::kmers_of;
use crate::sampler::keep;
use crate::sampler::keeps;
use crate::sampler::sampled_events;
use crate::select::passes_threshold;
use crate::select::selected;
use crate::table::record_events;
use crate::table::records_events;

verus! {

/// bloom's standard Bloom filter, held opaquely: Verus sees nothing inside a
/// value of it.
#[verifier::external_type_specification]
#[verifier::external_body]
#[verifier::reject_recursive_types(R)]
#[verifier::reject_recursive_types(S)]
pub struct ExBloomFilter<R, S>(bloom::BloomFilter<R, S>);

/// bloom's counting Bloom filter, held opaquely.
#[verifier::external_type_specification]
#[verifier::external_body]
#[verifier::reject_recursive_types(R)]
#[verifier::reject_recursive_types(S)]
pub struct ExCountingBloomFilter<R, S>(bloom::CountingBloomFilter<R, S>);

/// The set of keys ever inserted into a membership filter.
pub uninterp spec fn filter_members(f: bloom::BloomFilter) -> Set<u64>;

/// The number of bit slots a membership filter was created with; its methods
/// reduce a hash modulo this number, so it must be positive.
pub uninterp spec fn filter_slots(f: bloom::BloomFilter) -> nat;

/// The multiset of keys ever inserted into a counting filter.
pub uninterp spec fn counter_entries(f: bloom::CountingBloomFilter) -> Multiset<u64>;

/// The per-slot saturation cap a counting filter was created with.
pub uninterp spec fn counter_cap(f: bloom::CountingBloomFilter) -> u32;

/// The number of counter slots a counting filter was created with; its
/// methods reduce a hash modulo this number, so it must be positive.
pub uninterp spec fn counter_slots(f: bloom::CountingBloomFilter) -> nat;

/// Relies on bloom::BloomFilter::with_size: a fresh filter of `num_bits` bit
/// slots has no bits set, so nothing is a member yet.
#[verifier::external_body]
fn new_bloom_filter(num_bits: usize, num_hashes: u32) -> (f: bloom::BloomFilter)
    requires
        num_bits >= 1,
    ensures
        filter_members(f) == Set::<u64>::empty(),
        filter_slots(f) == num_bits,
{
    bloom::BloomFilter::with_size(num_bits, num_hashes)
}

/// Relies on bloom::BloomFilter::insert of the ASMS trait: it sets the key's
/// hash bits and clears none, so the key joins the member set.
#[verifier::external_body]
fn bloom_filter_insert(f: &mut bloom::BloomFilter, key: u64)
    requires
        filter_slots(*old(f)) >= 1,
    ensures
        filter_members(*final(f)) == filter_members(*old(f)).insert(key),
        filter_slots(*final(f)) == filter_slots(*old(f)),
{
    let _ = f.insert(&key);
}

/// Relies on bloom::BloomFilter::contains of the ASMS trait: a Bloom filter
/// can report false positives but no false negatives, so a member is always
/// reported present.  Of a non-member nothing is promised.
#[verifier::external_body]
fn bloom_filter_contains(f: &bloom::BloomFilter, key: u64) -> (r: bool)
    requires
        filter_slots(*f) >= 1,
    ensures
        filter_members(*f).contains(key) ==> r,
{
    f.contains(&key)
}

/// Relies on bloom::CountingBloomFilter::with_size: fresh counters are all
/// zero, and each of the `num_entries` slots holds `bits_per_entry` bits, so
/// it saturates at 2^bits_per_entry - 1.  The slot count times the bits per
/// slot is the backing bit-vector length and must not overflow.
#[verifier::external_body]
fn new_counting_filter(num_entries: usize, bits_per_entry: usize, num_hashes: u32) -> (f:
    bloom::CountingBloomFilter)
    requires
        num_entries >= 1,
        1 <= bits_per_entry <= 31,
        (num_entries as int) * (bits_per_entry as int) <= usize::MAX as int,
    ensures
        counter_entries(f) == Multiset::<u64>::empty(),
        counter_slots(f) == num_entries,
        counter_cap(f) as nat == pow2(bits_per_entry as nat) - 1,
{
    bloom::CountingBloomFilter::with_size(num_entries, bits_per_entry, num_hashes)
}

/// Relies on bloom::CountingBloomFilter::insert of the ASMS trait: each of
/// the key's counters below the cap is incremented and none is decremented,
/// so the key joins the entry multiset.
#[verifier::external_body]
fn counting_filter_insert(f: &mut bloom::CountingBloomFilter, key: u64)
    requires
        counter_slots(*old(f)) >= 1,
    ensures
        counter_entries(*final(f)) == counter_entries(*old(f)).insert(key),
        counter_slots(*final(f)) == counter_slots(*old(f)),
        counter_cap(*final(f)) == counter_cap(*old(f)),
{
    let _ = f.insert(&key);
}

/// Relies on bloom::CountingBloomFilter::estimate_count: the minimum of the
/// key's counters, each of which has been incremented on every insertion of
/// the key unless already at the cap, so the estimate is at least the number
/// of insertions or at least the cap.
#[verifier::external_body]
fn counting_filter_estimate(f: &bloom::CountingBloomFilter, key: u64) -> (r: u32)
    requires
        counter_slots(*f) >= 1,
    ensures
        r as nat >= counter_entries(*f).count(key) || r >= counter_cap(*f),
{
    f.estimate_count(&key)
}

/// The canonical keys of a window enumeration, in window order.
pub open spec fn window_canonicals(pairs: Seq<(u64, u64)>) -> Seq<u64> {
    pairs.map_values(|p: (u64, u64)| p.1)
}

/// The canonical keys of a run of records, record by record.
pub open spec fn records_canonicals(rs: Seq<Seq<u8>>, k: nat) -> Seq<u64>
    decreases rs.len(),
{
    if rs.len() == 0 {
        Seq::empty()
    } else {
        records_canonicals(rs.drop_last(), k) + window_canonicals(kmer_pairs(rs.last(), k))
    }
}

/// A canonical key of one record of a run is a canonical key of the run.
proof fn lemma_records_canonicals_contains(rs: Seq<Seq<u8>>, k: nat, i: int, x: u64)
    requires
        0 <= i < rs.len(),
        window_canonicals(kmer_pairs(rs[i], k)).contains(x),
    ensures
        records_canonicals(rs, k).contains(x),
    decreases rs.len(),
{
    let t = rs.drop_last();
    let front = records_canonicals(t, k);
    let back = window_canonicals(kmer_pairs(rs.last(), k));
    if i == rs.len() - 1 {
        let j = choose|j: int| 0 <= j < back.len() && back[j] == x;
        assert((front + back)[front.len() + j] == x);
    } else {
        lemma_records_canonicals_contains(t, k, i, x);
        let j = choose|j: int| 0 <= j < front.len() && front[j] == x;
        assert((front + back)[j] == x);
    }
}

/// Fixed-memory approximate frequency table: a counting Bloom filter whose
/// estimates may overestimate through collisions but, below the saturation
/// cap, never underestimate the number of insertions of a key.
pub struct ApproximateFrequencyTable {
    filter: bloom::CountingBloomFilter,
}

impl ApproximateFrequencyTable {
    /// The multiset of keys inserted so far.
    pub closed spec fn entries(self) -> Multiset<u64> {
        counter_entries(self.filter)
    }

    /// The saturation cap of each counter slot.
    pub closed spec fn cap(self) -> u32 {
        counter_cap(self.filter)
    }

    /// Internal consistency: at least one counter slot exists.
    pub closed spec fn wf(self) -> bool {
        counter_slots(self.filter) >= 1
    }

    /// A fresh table: nothing inserted, counters of `bits_per_entry` bits.
    pub fn new(num_entries: usize, bits_per_entry: usize, num_hashes: u32) -> (t: Self)
        requires
            num_entries >= 1,
            1 <= bits_per_entry <= 31,
            (num_entries as int) * (bits_per_entry as int) <= usize::MAX as int,
        ensures
            t.wf(),
            t.entries() == Multiset::<u64>::empty(),
            t.cap() as nat == pow2(bits_per_entry as nat) - 1,
    {
        ApproximateFrequencyTable {
            filter: new_counting_filter(num_entries, bits_per_entry, num_hashes),
        }
    }

    /// Record one occurrence of `key`.
    pub fn insert(&mut self, key: u64)
        requires
            old(self).wf(),
        ensures
            final(self).wf(),
            final(self).entries() == old(self).entries().insert(key),
            final(self).cap() == old(self).cap(),
    {
        counting_filter_insert(&mut self.filter, key);
    }

    /// Estimate how often `key` was inserted: one-sided, at least the true
    /// number of insertions unless the counters saturated at the cap.
    pub fn estimate(&self, key: u64) -> (c: u32)
        requires
            self.wf(),
        ensures
            c as nat >= self.entries().count(key) || c >= self.cap(),
    {
        counting_filter_estimate(&self.filter, key)
    }

    /// Count one record: the canonical key of every valid window that the
    /// sampler retains is inserted once per occurrence, exactly as in the
    /// exact strategy — both tables observe the same sampled key subspace.
    pub fn count_record(&mut self, bases: &[u8], k: usize, modulus: u64, residue: u64)
        requires
            old(self).wf(),
            1 <= k <= 32,
            modulus >= 1,
        ensures
            final(self).wf(),
            final(self).cap() == old(self).cap(),
            final(self).entries() == old(self).entries().add(
                record_events(bases@, k as nat, modulus, residue).to_multiset(),
            ),
    {
        broadcast use vstd::seq_lib::group_to_multiset_ensures;
        broadcast use vstd::multiset::group_multiset_axioms;

        let pairs = kmers_of(bases, k);
        let ghost all = kmer_pairs(bases@, k as nat);
        let n = pairs.len();
        let mut j: usize = 0;
        proof {
            assert(sampled_events(all.take(0), modulus, residue) =~= Seq::<u64>::empty());
            assert(Seq::<u64>::empty().to_multiset() =~= Multiset::<u64>::empty());
            assert(old(self).entries().add(Multiset::<u64>::empty()) =~= old(self).entries());
        }
        while j < n
            invariant
                self.wf(),
                self.cap() == old(self).cap(),
                modulus >= 1,
                pairs@ == all,
                n == all.len(),
                j <= n,
                self.entries() == old(self).entries().add(
                    sampled_events(all.take(j as int), modulus, residue).to_multiset(),
                ),
            decreases n - j,
        {
            let (_, canon) = pairs[j];
            let ghost prefix = sampled_events(all.take(j as int), modulus, residue);
            proof {
                assert(all.take(j + 1).drop_last() =~= all.take(j as int));
                assert(all.take(j + 1).last() == all[j as int]);
            }
            if keep(canon, modulus, residue) {
                proof {
                    assert(sampled_events(all.take(j + 1), modulus, residue) == prefix.push(
                        canon,
                    ));
                    vstd::seq_lib::to_multiset_build(prefix, canon);
                    assert(old(self).entries().add(prefix.to_multiset().insert(canon)) =~= old(
                        self,
                    ).entries().add(prefix.to_multiset()).insert(canon));
                }
                self.insert(canon);
                proof {
                    assert(self.entries() == old(self).entries().add(
                        sampled_events(all.take(j + 1), modulus, residue).to_multiset(),
                    ));
                }
            } else {
                proof {
                    assert(sampled_events(all.take(j + 1), modulus, residue) == prefix);
                }
            }
            j = j + 1;
        }
        proof {
            assert(all.take(n as int) =~= all);
        }
    }

    /// Count a run of records: every record's retained canonical window keys
    /// are inserted, record by record, under the same sampling pair as the
    /// exact strategy.
    pub fn count_records(&mut self, records: &Vec<Vec<u8>>, k: usize, modulus: u64, residue: u64)
        requires
            old(self).wf(),
            1 <= k <= 32,
            modulus >= 1,
        ensures
            final(self).wf(),
            final(self).cap() == old(self).cap(),
            final(self).entries() == old(self).entries().add(
                records_events(
                    records@.map_values(|v: Vec<u8>| v@),
                    k as nat,
                    modulus,
                    residue,
                ).to_multiset(),
            ),
    {
        broadcast use vstd::seq_lib::group_to_multiset_ensures;
        broadcast use vstd::multiset::group_multiset_axioms;

        let ghost rs = records@.map_values(|v: Vec<u8>| v@);
        let n = records.len();
        let mut i: usize = 0;
        proof {
            assert(records_events(rs.take(0), k as nat, modulus, residue) =~= Seq::<u64>::empty());
            assert(Seq::<u64>::empty().to_multiset() =~= Multiset::<u64>::empty());
            assert(old(self).entries().add(Multiset::<u64>::empty()) =~= old(self).entries());
        }
        while i < n
            invariant
                self.wf(),
                self.cap() == old(self).cap(),
                1 <= k <= 32,
                modulus >= 1,
                rs == records@.map_values(|v: Vec<u8>| v@),
                n == records@.len(),
                i <= n,
                self.entries() == old(self).entries().add(
                    records_events(rs.take(i as int), k as nat, modulus, residue).to_multiset(),
                ),
            decreases n - i,
        {
            self.count_record(records[i].as_slice(), k, modulus, residue);
            proof {
                assert(rs.take(i + 1).drop_last() =~= rs.take(i as int));
                assert(rs.take(i + 1).last() == rs[i as int]);
                vstd::seq_lib::lemma_multiset_commutative(
                    records_events(rs.take(i as int), k as nat, modulus, residue),
                    record_events(rs[i as int], k as nat, modulus, residue),
                );
                assert(old(self).entries().add(
                    records_events(rs.take(i as int), k as nat, modulus, residue).to_multiset()
                        .add(record_events(rs[i as int], k as nat, modulus, residue).to_multiset()),
                ) =~= old(self).entries().add(
                    records_events(rs.take(i as int), k as nat, modulus, residue).to_multiset(),
                ).add(record_events(rs[i as int], k as nat, modulus, residue).to_multiset()));
            }
            i = i + 1;
        }
        proof {
            assert(rs.take(n as int) =~= rs);
        }
    }
}

/// Deduplicating membership filter: gates the selection scan so each
/// canonical k-mer is considered at most once.  A false positive can only
/// suppress a consideration, never repeat one.
pub struct VisitedFilter {
    filter: bloom::BloomFilter,
}

impl VisitedFilter {
    /// The keys inserted so far.
    pub closed spec fn members(self) -> Set<u64> {
        filter_members(self.filter)
    }

    /// Internal consistency: at least one bit slot exists.
    pub closed spec fn wf(self) -> bool {
        filter_slots(self.filter) >= 1
    }

    /// A fresh filter: nothing is a member.
    pub fn new(num_bits: usize, num_hashes: u32) -> (t: Self)
        requires
            num_bits >= 1,
        ensures
            t.wf(),
            t.members() == Set::<u64>::empty(),
    {
        VisitedFilter { filter: new_bloom_filter(num_bits, num_hashes) }
    }

    /// Mark `key` seen.
    pub fn insert(&mut self, key: u64)
        requires
            old(self).wf(),
        ensures
            final(self).wf(),
            final(self).members() == old(self).members().insert(key),
    {
        bloom_filter_insert(&mut self.filter, key);
    }

    /// Was `key` seen?  One-sided: a key that was inserted is always
    /// reported seen; an unseen key may, rarely, be misreported seen.
    pub fn contains(&self, key: u64) -> (r: bool)
        requires
            self.wf(),
        ensures
            self.members().contains(key) ==> r,
    {
        bloom_filter_contains(&self.filter, key)
    }
}

/// Approximate differential selection: stream the source records once more,
/// visit each canonical k-mer at most once (gated by the membership filter),
/// estimate both counts, and emit the triples the threshold rule selects.
///
/// Whatever values the filters return: every emitted triple passes the
/// threshold rule on its two counts, every emitted key is a canonical k-mer
/// key of the records that the sampler retains, no key is emitted twice,
/// and the membership filter only grows.
pub fn select_approx(
    records: &Vec<Vec<u8>>,
    source: &ApproximateFrequencyTable,
    subtract: &ApproximateFrequencyTable,
    visited: &mut VisitedFilter,
    k: usize,
    modulus: u64,
    residue: u64,
    min_source_count: u32,
    max_subtract_count: u32,
    difference_threshold: u32,
) -> (r: Vec<(u64, u32, u32)>)
    requires
        source.wf(),
        subtract.wf(),
        old(visited).wf(),
        1 <= k <= 32,
        modulus >= 1,
    ensures
        final(visited).wf(),
        forall|i: int|
            0 <= i < r@.len() ==> selected(
                #[trigger] r@[i].1 as int,
                r@[i].2 as int,
                min_source_count as int,
                max_subtract_count as int,
                difference_threshold as int,
            ),
        forall|i: int, j: int| 0 <= i < j < r@.len() ==> r@[i].0 != r@[j].0,
        forall|i: int|
            0 <= i < r@.len() ==> records_canonicals(
                records@.map_values(|v: Vec<u8>| v@),
                k as nat,
            ).contains(#[trigger] r@[i].0),
        forall|i: int| 0 <= i < r@.len() ==> keeps(#[trigger] r@[i].0, modulus, residue),
        forall|key: u64|
            old(visited).members().contains(key) ==> final(visited).members().contains(key),
{
    let ghost rs = records@.map_values(|v: Vec<u8>| v@);
    let mut r: Vec<(u64, u32, u32)> = Vec::new();
    let n = records.len();
    let mut i: usize = 0;
    while i < n
        invariant
            source.wf(),
            subtract.wf(),
            visited.wf(),
            1 <= k <= 32,
            rs == records@.map_values(|v: Vec<u8>| v@),
            n == records@.len(),
            i <= n,
            modulus >= 1,
            forall|a: int|
                0 <= a < r@.len() ==> selected(
                    #[trigger] r@[a].1 as int,
                    r@[a].2 as int,
                    min_source_count as int,
                    max_subtract_count as int,
                    difference_threshold as int,
                ),
            forall|a: int, b: int| 0 <= a < b < r@.len() ==> r@[a].0 != r@[b].0,
            forall|a: int| 0 <= a < r@.len() ==> visited.members().contains(#[trigger] r@[a].0),
            forall|a: int|
                0 <= a < r@.len() ==> records_canonicals(rs, k as nat).contains(
                    #[trigger] r@[a].0,
                ),
            forall|a: int| 0 <= a < r@.len() ==> keeps(#[trigger] r@[a].0, modulus, residue),
            forall|key: u64|
                old(visited).members().contains(key) ==> visited.members().contains(key),
        decreases n - i,
    {
        let pairs = kmers_of(records[i].as_slice(), k);
        let ghost all = kmer_pairs(rs[i as int], k as nat);
        let m = pairs.len();
        let mut j: usize = 0;
        while j < m
            invariant
                source.wf(),
                subtract.wf(),
                visited.wf(),
                1 <= k <= 32,
                rs == records@.map_values(|v: Vec<u8>| v@),
                0 <= i < n == records@.len(),
                pairs@ == all,
                all == kmer_pairs(rs[i as int], k as nat),
                m == all.len(),
                j <= m,
                modulus >= 1,
                forall|a: int|
                    0 <= a < r@.len() ==> selected(
                        #[trigger] r@[a].1 as int,
                        r@[a].2 as int,
                        min_source_count as int,
                        max_subtract_count as int,
                        difference_threshold as int,
                    ),
                forall|a: int, b: int| 0 <= a < b < r@.len() ==> r@[a].0 != r@[b].0,
                forall|a: int|
                    0 <= a < r@.len() ==> visited.members().contains(#[trigger] r@[a].0),
                forall|a: int|
                    0 <= a < r@.len() ==> records_canonicals(rs, k as nat).contains(
                        #[trigger] r@[a].0,
                    ),
                forall|a: int| 0 <= a < r@.len() ==> keeps(#[trigger] r@[a].0, modulus, residue),
                forall|key: u64|
                    old(visited).members().contains(key) ==> visited.members().contains(key),
            decreases m - j,
        {
            let (_, canon) = pairs[j];
            if keep(canon, modulus, residue) && !visited.contains(canon) {
                visited.insert(canon);
                let source_count = source.estimate(canon);
                let subtract_count = subtract.estimate(canon);
                if passes_threshold(
                    source_count,
                    subtract_count,
                    min_source_count,
                    max_subtract_count,
                    difference_threshold,
                ) {
                    proof {
                        assert(window_canonicals(all).contains(canon)) by {
                            assert(window_canonicals(all)[j as int] == canon);
                        }
                        lemma_records_canonicals_contains(rs, k as nat, i as int, canon);
                    }
                    r.push((canon, source_count, subtract_count));
                }
            }
            j = j + 1;
        }
        i = i + 1;
    }
    r
}

} // verus!
