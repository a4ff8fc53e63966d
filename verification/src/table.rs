//! Exact per-key frequency tables.
//!
//! A `FrequencyTable` maps canonical k-mer keys to saturating 16-bit counts.
//! One table is built per input collection by a streaming pass over its
//! records: every valid k-mer window is canonicalized, handed to the sampler,
//! and, if retained, its count is incremented, saturating at 65535.  Keys
//! absent from the table have count zero.  The final counts depend only on
//! how often each key was retained, never on record order.

use vstd::prelude::*;

use std::collections::HashMap;

use crate::kmer::kmer_pairs;
use crate::kmer::kmers_of;
use crate::sampler::keep;
use crate::sampler::keeps;
use crate::sampler::sampled_events;

verus! {

broadcast use
    vstd::std_specs::hash::group_hash_axioms,
    vstd::seq_lib::group_to_multiset_ensures,
    vstd::multiset::group_multiset_axioms,
;

/// The largest representable count: counters stick there instead of wrapping.
pub const COUNT_CAP: u16 = 65535;

/// One more observation on a saturating count.
pub open spec fn sat_inc(c: u16) -> u16 {
    if c == COUNT_CAP {
        COUNT_CAP
    } else {
        (c + 1) as u16
    }
}

/// `n` more observations on a saturating count.
pub open spec fn sat_add(c: u16, n: nat) -> u16 {
    if c + n > COUNT_CAP {
        COUNT_CAP
    } else {
        (c + n) as u16
    }
}

/// Saturation never lets a count pass the cap.
pub proof fn lemma_count_saturates(c: u16, n: nat)
    ensures
        sat_add(c, n) <= COUNT_CAP,
{
}

/// Observations arrive one at a time.
pub proof fn lemma_sat_add_step(c: u16, n: nat)
    ensures
        sat_inc(sat_add(c, n)) == sat_add(c, n + 1),
{
}

/// Observation batches combine.
pub proof fn lemma_sat_add_assoc(c: u16, n1: nat, n2: nat)
    ensures
        sat_add(sat_add(c, n1), n2) == sat_add(c, n1 + n2),
{
}

/// The sampled canonical keys of one record, in window order: the canonical
/// key of every valid window that the sampler retains.
pub open spec fn record_events(s: Seq<u8>, k: nat, modulus: u64, residue: u64) -> Seq<u64> {
    sampled_events(kmer_pairs(s, k), modulus, residue)
}

/// The sampled canonical keys of a run of records, record by record.
pub open spec fn records_events(rs: Seq<Seq<u8>>, k: nat, modulus: u64, residue: u64) -> Seq<u64>
    decreases rs.len(),
{
    if rs.len() == 0 {
        Seq::empty()
    } else {
        records_events(rs.drop_last(), k, modulus, residue) + record_events(
            rs.last(),
            k,
            modulus,
            residue,
        )
    }
}

/// A key the sampler drops never enters a record's counted events.
pub proof fn lemma_unsampled_key_uncounted(
    s: Seq<u8>,
    k: nat,
    modulus: u64,
    residue: u64,
    key: u64,
)
    requires
        !keeps(key, modulus, residue),
    ensures
        record_events(s, k, modulus, residue).to_multiset().count(key) == 0,
{
    let events = record_events(s, k, modulus, residue);
    if events.to_multiset().count(key) > 0 {
        assert(events.contains(key));
        crate::sampler::lemma_sampler_consistency(kmer_pairs(s, k), modulus, residue, key);
    }
}

/// A key the sampler drops never enters a whole run's counted events, so it
/// stays at count zero in any table built with that sampling pair.
pub proof fn lemma_unsampled_key_uncounted_records(
    rs: Seq<Seq<u8>>,
    k: nat,
    modulus: u64,
    residue: u64,
    key: u64,
)
    requires
        !keeps(key, modulus, residue),
    ensures
        records_events(rs, k, modulus, residue).to_multiset().count(key) == 0,
        sat_add(0u16, records_events(rs, k, modulus, residue).to_multiset().count(key)) == 0,
    decreases rs.len(),
{
    if rs.len() == 0 {
        assert(records_events(rs, k, modulus, residue) =~= Seq::<u64>::empty());
        if Seq::<u64>::empty().to_multiset().count(key) > 0 {
            assert(Seq::<u64>::empty().contains(key));
        }
    } else {
        lemma_unsampled_key_uncounted_records(rs.drop_last(), k, modulus, residue, key);
        lemma_unsampled_key_uncounted(rs.last(), k, modulus, residue, key);
        vstd::seq_lib::lemma_multiset_commutative(
            records_events(rs.drop_last(), k, modulus, residue),
            record_events(rs.last(), k, modulus, residue),
        );
    }
}

/// Taking one record out of a run: as multisets, the run's events are the
/// remaining records' events plus that record's events.
proof fn lemma_records_events_remove(rs: Seq<Seq<u8>>, j: int, k: nat, modulus: u64, residue: u64)
    requires
        0 <= j < rs.len(),
    ensures
        records_events(rs, k, modulus, residue).to_multiset() == records_events(
            rs.remove(j),
            k,
            modulus,
            residue,
        ).to_multiset().add(record_events(rs[j], k, modulus, residue).to_multiset()),
    decreases rs.len(),
{
    let t = rs.drop_last();
    let rlast = record_events(rs.last(), k, modulus, residue);
    vstd::seq_lib::lemma_multiset_commutative(
        records_events(t, k, modulus, residue),
        rlast,
    );
    if j == rs.len() - 1 {
        assert(rs.remove(j) =~= t);
    } else {
        lemma_records_events_remove(t, j, k, modulus, residue);
        assert(rs.remove(j).drop_last() =~= t.remove(j));
        assert(rs.remove(j).last() == rs.last());
        let x = records_events(t.remove(j), k, modulus, residue).to_multiset();
        let rj = record_events(rs[j], k, modulus, residue).to_multiset();
        vstd::seq_lib::lemma_multiset_commutative(
            records_events(t.remove(j), k, modulus, residue),
            rlast,
        );
        assert(records_events(rs, k, modulus, residue).to_multiset() == x.add(rj).add(
            rlast.to_multiset(),
        ));
        assert(x.add(rj).add(rlast.to_multiset()) =~= x.add(rlast.to_multiset()).add(rj));
    }
}

/// Counting is commutative: two runs holding the same records as a multiset
/// (any order, any partition into files) produce the same event multiset,
/// hence identical final counts.
pub proof fn lemma_counting_commutative(
    rs1: Seq<Seq<u8>>,
    rs2: Seq<Seq<u8>>,
    k: nat,
    modulus: u64,
    residue: u64,
)
    requires
        rs1.to_multiset() == rs2.to_multiset(),
    ensures
        records_events(rs1, k, modulus, residue).to_multiset() == records_events(
            rs2,
            k,
            modulus,
            residue,
        ).to_multiset(),
    decreases rs1.len(),
{
    vstd::seq_lib::to_multiset_len(rs1);
    vstd::seq_lib::to_multiset_len(rs2);
    if rs1.len() == 0 {
        assert(rs2.len() == 0);
        assert(records_events(rs1, k, modulus, residue) =~= records_events(
            rs2,
            k,
            modulus,
            residue,
        ));
    } else {
        let x = rs1.last();
        assert(rs1.contains(x));
        vstd::seq_lib::to_multiset_contains(rs1, x);
        vstd::seq_lib::to_multiset_contains(rs2, x);
        assert(rs2.contains(x));
        let j = rs2.index_of(x);
        assert(0 <= j < rs2.len() && rs2[j] == x);
        assert(rs1.drop_last() =~= rs1.remove(rs1.len() - 1));
        vstd::seq_lib::to_multiset_remove(rs1, rs1.len() - 1);
        vstd::seq_lib::to_multiset_remove(rs2, j);
        assert(rs1.drop_last().to_multiset() == rs2.remove(j).to_multiset());
        lemma_counting_commutative(rs1.drop_last(), rs2.remove(j), k, modulus, residue);
        lemma_records_events_remove(rs2, j, k, modulus, residue);
        vstd::seq_lib::lemma_multiset_commutative(
            records_events(rs1.drop_last(), k, modulus, residue),
            record_events(x, k, modulus, residue),
        );
    }
}

/// Counting is commutative, stated on tables: two tables accumulated from
/// empty over runs that hold the same records as a multiset agree on every
/// key's count.
pub proof fn lemma_counting_commutative_tables(
    t1: FrequencyTable,
    t2: FrequencyTable,
    rs1: Seq<Seq<u8>>,
    rs2: Seq<Seq<u8>>,
    k: nat,
    modulus: u64,
    residue: u64,
)
    requires
        rs1.to_multiset() == rs2.to_multiset(),
        forall|key: u64| #[trigger]
            t1.count_of(key) == sat_add(
                0u16,
                records_events(rs1, k, modulus, residue).to_multiset().count(key),
            ),
        forall|key: u64| #[trigger]
            t2.count_of(key) == sat_add(
                0u16,
                records_events(rs2, k, modulus, residue).to_multiset().count(key),
            ),
    ensures
        forall|key: u64| #[trigger] t1.count_of(key) == t2.count_of(key),
{
    lemma_counting_commutative(rs1, rs2, k, modulus, residue);
}

/// A key-to-count table with saturating counts, plus the key list in
/// first-insertion order for deterministic iteration.
pub struct FrequencyTable {
    counts: HashMap<u64, u16>,
    keys: Vec<u64>,
}

impl FrequencyTable {
    /// The key-to-count map: keys absent from it have count zero.
    pub closed spec fn counts(self) -> Map<u64, u16> {
        self.counts@
    }

    /// The keys present, once each, in first-insertion order.
    pub closed spec fn key_seq(self) -> Seq<u64> {
        self.keys@
    }

    /// The count of `key`, zero when absent.
    pub open spec fn count_of(self, key: u64) -> u16 {
        if self.counts().contains_key(key) {
            self.counts()[key]
        } else {
            0u16
        }
    }

    /// Internal consistency: the key list holds exactly the map's keys, once
    /// each, and every present key has been observed at least once.
    pub closed spec fn wf(self) -> bool {
        &&& self.keys@.no_duplicates()
        &&& forall|key: u64|
            #[trigger] self.counts@.contains_key(key) <==> self.keys@.contains(key)
        &&& forall|key: u64| #[trigger] self.counts@.contains_key(key) ==> self.counts@[key] >= 1
    }

    /// A key is listed exactly when its count is positive.
    pub proof fn lemma_key_listed(self, key: u64)
        requires
            self.wf(),
        ensures
            self.key_seq().contains(key) <==> self.count_of(key) > 0,
    {
    }

    /// The key list holds each key at most once, so iterating it — as the
    /// selector does — visits each key exactly once.
    pub proof fn lemma_keys_no_duplicates(self)
        requires
            self.wf(),
        ensures
            self.key_seq().no_duplicates(),
    {
    }

    /// An empty table: every key has count zero.
    pub fn new() -> (t: Self)
        ensures
            t.wf(),
            t.key_seq() == Seq::<u64>::empty(),
            forall|key: u64| t.count_of(key) == 0,
    {
        let t = FrequencyTable { counts: HashMap::new(), keys: Vec::new() };
        proof {
            assert(forall|key: u64| !t.counts@.contains_key(key));
        }
        t
    }

    /// One more observation of `key`: its count rises by one, saturating at
    /// the cap; no other key changes.  A new key is appended to the key list.
    pub fn increment(&mut self, key: u64)
        requires
            old(self).wf(),
        ensures
            final(self).wf(),
            final(self).count_of(key) == sat_inc(old(self).count_of(key)),
            forall|k2: u64| k2 != key ==> final(self).count_of(k2) == old(self).count_of(k2),
            final(self).key_seq() == if old(self).key_seq().contains(key) {
                old(self).key_seq()
            } else {
                old(self).key_seq().push(key)
            },
    {
        let cur: Option<u16> = match self.counts.get(&key) {
            Some(c) => Some(*c),
            None => None,
        };
        match cur {
            Some(c) => {
                proof {
                    assert(self.counts@.contains_key(key));
                    assert(self.keys@.contains(key));
                }
                if c < COUNT_CAP {
                    self.counts.insert(key, c + 1);
                    proof {
                        assert forall|k2: u64| #[trigger]
                            self.counts@.contains_key(k2) <==> self.keys@.contains(k2) by {
                            assert(self.counts@.contains_key(k2) <==> (k2 == key || old(
                                self,
                            ).counts@.contains_key(k2)));
                        }
                    }
                }
            },
            None => {
                proof {
                    assert(!self.counts@.contains_key(key));
                    assert(!self.keys@.contains(key));
                }
                self.counts.insert(key, 1);
                self.keys.push(key);
                proof {
                    assert forall|k2: u64| #[trigger]
                        self.counts@.contains_key(k2) <==> self.keys@.contains(k2) by {
                        assert(self.counts@.contains_key(k2) <==> (k2 == key || old(
                            self,
                        ).counts@.contains_key(k2)));
                        assert(self.keys@ == old(self).keys@.push(key));
                        if self.keys@.contains(k2) && k2 != key {
                            let i = choose|i: int|
                                0 <= i < self.keys@.len() && self.keys@[i] == k2;
                            assert(old(self).keys@[i] == k2);
                        }
                        if old(self).keys@.contains(k2) {
                            let i = choose|i: int|
                                0 <= i < old(self).keys@.len() && old(self).keys@[i] == k2;
                            assert(self.keys@[i] == k2);
                        }
                        if k2 == key {
                            assert(self.keys@.last() == key);
                        }
                    }
                    assert(self.keys@.no_duplicates()) by {
                        let s = self.keys@;
                        let t = old(self).keys@;
                        assert forall|i: int, j: int|
                            0 <= i < s.len() && 0 <= j < s.len() && i != j implies s[i]
                            != s[j] by {
                            if i < t.len() && j < t.len() {
                                assert(t[i] == s[i] && t[j] == s[j]);
                            } else if i == t.len() {
                                assert(s[i] == key && s[j] == t[j]);
                                assert(!t.contains(key));
                            } else {
                                assert(s[j] == key && s[i] == t[i]);
                                assert(!t.contains(key));
                            }
                        }
                    }
                }
            },
        }
    }

    /// Look a key up: its saturating count, zero when the key was never
    /// retained.
    pub fn lookup(&self, key: u64) -> (c: u16)
        requires
            self.wf(),
        ensures
            c == self.count_of(key),
    {
        match self.counts.get(&key) {
            Some(c) => *c,
            None => 0,
        }
    }

    /// How many distinct keys the table holds.
    pub fn num_keys(&self) -> (n: usize)
        requires
            self.wf(),
        ensures
            n == self.key_seq().len(),
    {
        self.keys.len()
    }

    /// The key at position `i` of the first-insertion order.
    pub fn key_at(&self, i: usize) -> (key: u64)
        requires
            self.wf(),
            i < self.key_seq().len(),
        ensures
            key == self.key_seq()[i as int],
    {
        self.keys[i]
    }

    /// Count one record: every valid window's canonical key that the sampler
    /// retains raises its count by one, saturating at the cap.  The final
    /// count of each key adds the key's number of retained occurrences in
    /// this record to its previous count.
    pub fn count_record(&mut self, bases: &[u8], k: usize, modulus: u64, residue: u64)
        requires
            old(self).wf(),
            1 <= k <= 32,
            modulus >= 1,
        ensures
            final(self).wf(),
            forall|key: u64|
                final(self).count_of(key) == sat_add(
                    old(self).count_of(key),
                    record_events(bases@, k as nat, modulus, residue).to_multiset().count(key),
                ),
    {
        let pairs = kmers_of(bases, k);
        let ghost all = kmer_pairs(bases@, k as nat);
        let n = pairs.len();
        let mut j: usize = 0;
        proof {
            assert(all.take(0) =~= Seq::<(u64, u64)>::empty());
        }
        while j < n
            invariant
                self.wf(),
                modulus >= 1,
                pairs@ == all,
                n == all.len(),
                j <= n,
                forall|key: u64|
                    self.count_of(key) == sat_add(
                        old(self).count_of(key),
                        sampled_events(all.take(j as int), modulus, residue).to_multiset().count(
                            key,
                        ),
                    ),
            decreases n - j,
        {
            let (_, canon) = pairs[j];
            let ghost before = sampled_events(all.take(j as int), modulus, residue);
            proof {
                assert(all.take(j + 1).drop_last() =~= all.take(j as int));
                assert(all.take(j + 1).last() == all[j as int]);
            }
            if keep(canon, modulus, residue) {
                proof {
                    assert(sampled_events(all.take(j + 1), modulus, residue) == before.push(
                        canon,
                    ));
                    assert(before.push(canon).to_multiset() =~= before.to_multiset().insert(
                        canon,
                    ));
                }
                self.increment(canon);
                proof {
                    assert forall|key: u64|
                        self.count_of(key) == sat_add(
                            old(self).count_of(key),
                            sampled_events(all.take(j + 1), modulus, residue).to_multiset().count(
                                key,
                            ),
                        ) by {
                        if key == canon {
                            lemma_sat_add_step(
                                old(self).count_of(key),
                                before.to_multiset().count(key),
                            );
                        }
                    }
                }
            } else {
                proof {
                    assert(sampled_events(all.take(j + 1), modulus, residue) == before);
                }
            }
            j = j + 1;
        }
        proof {
            assert(all.take(n as int) =~= all);
        }
    }

    /// Build a table from a run of records in one streaming pass: each key's
    /// count is its number of retained occurrences over all records,
    /// saturating at the cap.
    pub fn count_all(records: &Vec<Vec<u8>>, k: usize, modulus: u64, residue: u64) -> (t: Self)
        requires
            1 <= k <= 32,
            modulus >= 1,
        ensures
            t.wf(),
            forall|key: u64|
                #[trigger] t.count_of(key) == sat_add(
                    0u16,
                    records_events(
                        records@.map_values(|v: Vec<u8>| v@),
                        k as nat,
                        modulus,
                        residue,
                    ).to_multiset().count(key),
                ),
    {
        let mut t = FrequencyTable::new();
        t.count_records(records, k, modulus, residue);
        t
    }

    /// Count a run of records: the final count of each key adds the key's
    /// total number of retained occurrences over all records to its previous
    /// count.
    pub fn count_records(&mut self, records: &Vec<Vec<u8>>, k: usize, modulus: u64, residue: u64)
        requires
            old(self).wf(),
            1 <= k <= 32,
            modulus >= 1,
        ensures
            final(self).wf(),
            forall|key: u64|
                final(self).count_of(key) == sat_add(
                    old(self).count_of(key),
                    records_events(
                        records@.map_values(|v: Vec<u8>| v@),
                        k as nat,
                        modulus,
                        residue,
                    ).to_multiset().count(key),
                ),
    {
        let ghost rs = records@.map_values(|v: Vec<u8>| v@);
        let n = records.len();
        let mut i: usize = 0;
        proof {
            assert(rs.take(0) =~= Seq::<Seq<u8>>::empty());
        }
        while i < n
            invariant
                self.wf(),
                1 <= k <= 32,
                modulus >= 1,
                rs == records@.map_values(|v: Vec<u8>| v@),
                n == records@.len(),
                i <= n,
                forall|key: u64|
                    self.count_of(key) == sat_add(
                        old(self).count_of(key),
                        records_events(rs.take(i as int), k as nat, modulus, residue).to_multiset()
                            .count(key),
                    ),
            decreases n - i,
        {
            let ghost prefix = records_events(rs.take(i as int), k as nat, modulus, residue);
            let ghost here = record_events(rs[i as int], k as nat, modulus, residue);
            let ghost mid = *self;
            self.count_record(records[i].as_slice(), k, modulus, residue);
            proof {
                assert(rs.take(i + 1).drop_last() =~= rs.take(i as int));
                assert(rs.take(i + 1).last() == rs[i as int]);
                assert(records_events(rs.take(i + 1), k as nat, modulus, residue) == prefix
                    + here);
                vstd::seq_lib::lemma_multiset_commutative(prefix, here);
                assert forall|key: u64|
                    self.count_of(key) == sat_add(
                        old(self).count_of(key),
                        records_events(rs.take(i + 1), k as nat, modulus, residue).to_multiset()
                            .count(key),
                    ) by {
                    lemma_sat_add_assoc(
                        old(self).count_of(key),
                        prefix.to_multiset().count(key),
                        here.to_multiset().count(key),
                    );
                    assert(mid.count_of(key) == sat_add(
                        old(self).count_of(key),
                        prefix.to_multiset().count(key),
                    ));
                    assert(self.count_of(key) == sat_add(
                        mid.count_of(key),
                        here.to_multiset().count(key),
                    ));
                }
            }
            i = i + 1;
        }
        proof {
            assert(rs.take(n as int) =~= rs);
        }
    }
}

} // verus!
