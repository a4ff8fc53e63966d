//! Canonical k-mer differential counting.
//!
//! The library encodes fixed-length DNA subsequences (k-mers) into 2-bit-packed
//! 64-bit keys, canonicalizes them so that a k-mer and its reverse complement
//! count as one entity, optionally subsamples the key space by a modulus /
//! residue rule, accumulates saturating per-key counts over many records, and
//! selects keys whose source count exceeds their subtract count by the
//! configured thresholds.
//!
//! Counting comes in two strategies: exact tables (`table::FrequencyTable`)
//! and, for key spaces that would not fit in memory, an approximate
//! fixed-memory table over a counting Bloom filter
//! (`approx::ApproximateFrequencyTable`).  Selection over exact tables is
//! `select::select`; over approximate tables, `approx::select_approx`.

pub mod approx;
pub mod kmer;
pub mod params;
pub mod sampler;
pub mod select;
pub mod table;
