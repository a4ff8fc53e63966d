//! Run parameters and their validation.
//!
//! The parameters are validated once, before any record is read, and then
//! passed explicitly into every component; no component reads configuration
//! through ambient state.  A bad parameter is a fatal configuration error.

use vstd::prelude::*;

verus! {

/// The run parameters of the engine.
#[derive(Debug, Clone, Copy, PartialEq, Eq, Structural)]
pub struct Params {
    /// The k-mer length, 1 to 32.
    pub k: usize,
    /// A key is emitted only when its source count reaches this.
    pub min_source_count: u16,
    /// A key is emitted only when its subtract count does not exceed this.
    pub max_subtract_count: u16,
    /// A key is emitted only when source minus subtract count (floored at
    /// zero) reaches this.
    pub difference_threshold: u16,
    /// The sampling modulus; 1 disables sampling.
    pub modulus: u64,
    /// The sampling residue, below the modulus.
    pub residue: u64,
}

/// A configuration error, reported before any scanning begins.
#[derive(Debug, Clone, Copy, PartialEq, Eq, Structural)]
pub enum ConfigError {
    /// The k-mer length lies outside 1 to 32.
    KOutOfRange,
    /// The sampling modulus is zero.
    ZeroModulus,
    /// The sampling residue does not lie below the modulus.
    ResidueOutOfRange,
}

impl Params {
    /// The combinations the engine accepts.
    pub open spec fn valid(self) -> bool {
        &&& 1 <= self.k <= 32
        &&& self.modulus >= 1
        &&& self.residue < self.modulus
    }

    /// Validate and build the parameters: `Ok` exactly when the k-mer length
    /// lies in 1 to 32, the modulus is positive and the residue lies below
    /// it; otherwise the error of the first rule that fails, in that order.
    pub fn new(
        k: usize,
        min_source_count: u16,
        max_subtract_count: u16,
        difference_threshold: u16,
        modulus: u64,
        residue: u64,
    ) -> (r: Result<Params, ConfigError>)
        ensures
            match r {
                Ok(p) => {
                    &&& p.valid()
                    &&& p.k == k
                    &&& p.min_source_count == min_source_count
                    &&& p.max_subtract_count == max_subtract_count
                    &&& p.difference_threshold == difference_threshold
                    &&& p.modulus == modulus
                    &&& p.residue == residue
                },
                Err(e) => {
                    &&& !(1 <= k <= 32 && modulus >= 1 && residue < modulus)
                    &&& (e == ConfigError::KOutOfRange <==> !(1 <= k <= 32))
                    &&& (e == ConfigError::ZeroModulus <==> (1 <= k <= 32 && modulus == 0))
                    &&& (e == ConfigError::ResidueOutOfRange <==> (1 <= k <= 32 && modulus >= 1
                        && residue >= modulus))
                },
            },
    {
        if k < 1 || k > 32 {
            Err(ConfigError::KOutOfRange)
        } else if modulus == 0 {
            Err(ConfigError::ZeroModulus)
        } else if residue >= modulus {
            Err(ConfigError::ResidueOutOfRange)
        } else {
            Ok(
                Params {
                    k,
                    min_source_count,
                    max_subtract_count,
                    difference_threshold,
                    modulus,
                    residue,
                },
            )
        }
    }

    /// The default parameters: k-mer length 21, minimum source count 5,
    /// maximum subtract count 0, difference threshold 0, sampling modulus 9,
    /// residue 0.
    pub fn defaults() -> (p: Params)
        ensures
            p.valid(),
            p.k == 21,
            p.min_source_count == 5,
            p.max_subtract_count == 0,
            p.difference_threshold == 0,
            p.modulus == 9,
            p.residue == 0,
    {
        Params {
            k: 21,
            min_source_count: 5,
            max_subtract_count: 0,
            difference_threshold: 0,
            modulus: 9,
            residue: 0,
        }
    }
}

} // verus!
