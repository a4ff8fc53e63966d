use kmer_subtract::params::ConfigError;
use kmer_subtract::params::Params;

#[test]
fn defaults_match_the_documented_values() {
    let p = Params::defaults();
    assert_eq!(p.k, 21);
    assert_eq!(p.min_source_count, 5);
    assert_eq!(p.max_subtract_count, 0);
    assert_eq!(p.difference_threshold, 0);
    assert_eq!(p.modulus, 9);
    assert_eq!(p.residue, 0);
}

#[test]
fn valid_parameters_are_accepted() {
    let p = Params::new(21, 5, 0, 0, 9, 0).unwrap();
    assert_eq!(p.k, 21);
    assert_eq!(p.min_source_count, 5);
    assert_eq!(p.max_subtract_count, 0);
    assert_eq!(p.difference_threshold, 0);
    assert_eq!(p.modulus, 9);
    assert_eq!(p.residue, 0);
    assert!(Params::new(1, 0, 0, 0, 1, 0).is_ok());
    assert!(Params::new(32, 0, 0, 0, 1, 0).is_ok());
}

#[test]
fn k_outside_one_to_thirty_two_is_rejected() {
    assert_eq!(Params::new(0, 5, 0, 0, 9, 0), Err(ConfigError::KOutOfRange));
    assert_eq!(Params::new(33, 5, 0, 0, 9, 0), Err(ConfigError::KOutOfRange));
}

#[test]
fn zero_modulus_is_rejected() {
    assert_eq!(Params::new(21, 5, 0, 0, 0, 0), Err(ConfigError::ZeroModulus));
}

#[test]
fn residue_at_or_above_modulus_is_rejected() {
    assert_eq!(Params::new(21, 5, 0, 0, 9, 9), Err(ConfigError::ResidueOutOfRange));
    assert_eq!(Params::new(21, 5, 0, 0, 9, 100), Err(ConfigError::ResidueOutOfRange));
}
