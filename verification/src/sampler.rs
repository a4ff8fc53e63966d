//! Deterministic key-space subsampling.
//!
//! To bound the working set on high-coverage inputs, a canonical key is
//! retained exactly when its value modulo a fixed `modulus` equals a fixed
//! `residue`.  The rule is a pure function of the key and the pair, so the
//! source scan and the subtract scan retain exactly the same key subspace and
//! their tables stay comparable.  A modulus of 1 with residue 0 disables
//! sampling.

use vstd::prelude::*;

verus! {

/// A canonical key is retained exactly when its value modulo `modulus` equals
/// `residue`.
pub open spec fn keeps(key: u64, modulus: u64, residue: u64) -> bool
    recommends
        modulus >= 1,
{
    key % modulus == residue
}

/// Decide whether the sampler retains `key` under the `(modulus, residue)`
/// pair.
pub fn keep(key: u64, modulus: u64, residue: u64) -> (r: bool)
    requires
        modulus >= 1,
    ensures
        r == keeps(key, modulus, residue),
{
    key % modulus == residue
}

/// The canonical keys the sampler lets through, out of a window enumeration
/// as `kmer_pairs` produces it: the second component of each pair, in order,
/// keeping only keys the sampler retains.
pub open spec fn sampled_events(pairs: Seq<(u64, u64)>, modulus: u64, residue: u64) -> Seq<u64>
    decreases pairs.len(),
{
    if pairs.len() == 0 {
        Seq::empty()
    } else {
        let rest = sampled_events(pairs.drop_last(), modulus, residue);
        if keeps(pairs.last().1, modulus, residue) {
            rest.push(pairs.last().1)
        } else {
            rest
        }
    }
}

/// Sampling consistency: whether a canonical key enters the counted stream
/// depends only on the key and the `(modulus, residue)` pair, never on which
/// collection is being scanned.  A key occurs among the sampled events of a
/// window enumeration exactly when it occurs among the canonical keys at all
/// and the sampler keeps it.
pub proof fn lemma_sampler_consistency(
    pairs: Seq<(u64, u64)>,
    modulus: u64,
    residue: u64,
    key: u64,
)
    ensures
        sampled_events(pairs, modulus, residue).contains(key) <==> ((exists|j: int|
            0 <= j < pairs.len() && #[trigger] pairs[j].1 == key) && keeps(key, modulus, residue)),
    decreases pairs.len(),
{
    if pairs.len() > 0 {
        let t = pairs.drop_last();
        lemma_sampler_consistency(t, modulus, residue, key);
        let rest = sampled_events(t, modulus, residue);
        if keeps(pairs.last().1, modulus, residue) {
            assert forall|x: u64| rest.push(pairs.last().1).contains(x) implies (rest.contains(x)
                || x == pairs.last().1) by {
                let j = choose|j: int|
                    0 <= j < rest.push(pairs.last().1).len() && rest.push(pairs.last().1)[j] == x;
                if j < rest.len() {
                    assert(rest[j] == x);
                }
            }
            if rest.push(pairs.last().1).contains(key) {
                if rest.contains(key) {
                    let j = choose|j: int| 0 <= j < t.len() && #[trigger] t[j].1 == key;
                    assert(pairs[j].1 == key);
                } else {
                    assert(pairs[pairs.len() - 1].1 == key);
                }
            }
            if (exists|j: int| 0 <= j < pairs.len() && #[trigger] pairs[j].1 == key) && keeps(
                key,
                modulus,
                residue,
            ) {
                let j = choose|j: int| 0 <= j < pairs.len() && #[trigger] pairs[j].1 == key;
                if j < pairs.len() - 1 {
                    assert(t[j].1 == key);
                    assert(rest.contains(key));
                    let i = choose|i: int| 0 <= i < rest.len() && rest[i] == key;
                    assert(rest.push(pairs.last().1)[i] == key);
                } else {
                    assert(rest.push(pairs.last().1).last() == key);
                }
            }
        } else {
            if rest.contains(key) {
                let j = choose|j: int| 0 <= j < t.len() && #[trigger] t[j].1 == key;
                assert(pairs[j].1 == key);
            }
            if (exists|j: int| 0 <= j < pairs.len() && #[trigger] pairs[j].1 == key) && keeps(
                key,
                modulus,
                residue,
            ) {
                let j = choose|j: int| 0 <= j < pairs.len() && #[trigger] pairs[j].1 == key;
                assert(j < pairs.len() - 1);
                assert(t[j].1 == key);
            }
        }
    }
}

} // verus!
