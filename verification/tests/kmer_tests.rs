use kmer_subtract::kmer::canonical;
use kmer_subtract::kmer::decode;
use kmer_subtract::kmer::encode;
use kmer_subtract::kmer::key_in_range;
use kmer_subtract::kmer::kmers_of;
use kmer_subtract::kmer::reverse_complement;

#[test]
fn encode_packs_two_bits_per_base() {
    // A=0, C=1, G=2, T=3, first base most significant.
    assert_eq!(encode(b"A"), Some(0));
    assert_eq!(encode(b"C"), Some(1));
    assert_eq!(encode(b"G"), Some(2));
    assert_eq!(encode(b"T"), Some(3));
    assert_eq!(encode(b"ACGT"), Some(27));
    assert_eq!(encode(b"AACG"), Some(6));
}

#[test]
fn encode_rejects_invalid_symbols() {
    assert_eq!(encode(b"ACNG"), None);
    assert_eq!(encode(b"acgt"), None);
    assert_eq!(encode(b"ACG-"), None);
}

#[test]
fn encode_is_injective_on_small_kmers() {
    // No two distinct 2-mers over {A,C,G,T} collide.
    let bases = [b'A', b'C', b'G', b'T'];
    let mut keys = Vec::new();
    for &a in bases.iter() {
        for &b in bases.iter() {
            let key = encode(&[a, b]).unwrap();
            assert!(!keys.contains(&key));
            keys.push(key);
        }
    }
    assert_eq!(keys.len(), 16);
}

#[test]
fn reverse_complement_reverses_and_complements() {
    // AACG -> CGTT
    let key = encode(b"AACG").unwrap();
    let rc = encode(b"CGTT").unwrap();
    assert_eq!(reverse_complement(key, 4), rc);
    assert_eq!(reverse_complement(rc, 4), key);
}

#[test]
fn canonical_is_min_of_both_strands() {
    let key = encode(b"AACG").unwrap();
    let rc = encode(b"CGTT").unwrap();
    assert_eq!(canonical(key, 4), key);
    assert_eq!(canonical(rc, 4), key);
}

#[test]
fn canonical_agrees_for_kmer_and_its_reverse_complement() {
    // canonical(x) == canonical(reverse_complement(x)) on concrete k-mers.
    for bases in [&b"AACG"[..], &b"ACGT"[..], &b"TTTT"[..], &b"GATC"[..]] {
        let key = encode(bases).unwrap();
        let rc = reverse_complement(key, bases.len());
        assert_eq!(canonical(key, bases.len()), canonical(rc, bases.len()));
    }
}

#[test]
fn palindromic_kmer_is_its_own_reverse_complement() {
    // ACGT reversed and complemented is ACGT again; min is well defined.
    let key = encode(b"ACGT").unwrap();
    assert_eq!(reverse_complement(key, 4), key);
    assert_eq!(canonical(key, 4), key);
}

#[test]
fn decode_inverts_encode() {
    let key = encode(b"ACGT").unwrap();
    assert_eq!(decode(key, 4), b"ACGT".to_vec());
    assert_eq!(decode(0, 21), vec![b'A'; 21]);
    let key = encode(b"GATTACA").unwrap();
    assert_eq!(encode(&decode(key, 7)).unwrap(), key);
}

#[test]
fn kmers_of_enumerates_windows_in_order() {
    // ACGTA, k=2: AC=1, CG=6, GT=11, TA=12; canonicals 1, 6, 1, 12.
    let pairs = kmers_of(b"ACGTA", 2);
    assert_eq!(pairs, vec![(1, 1), (6, 6), (11, 1), (12, 12)]);
}

#[test]
fn kmers_of_skips_windows_with_invalid_bases() {
    let pairs = kmers_of(b"ACNGT", 2);
    assert_eq!(pairs, vec![(1, 1), (11, 1)]);
}

#[test]
fn kmers_of_short_sequence_is_empty() {
    assert!(kmers_of(b"AC", 3).is_empty());
    assert!(kmers_of(b"", 1).is_empty());
}

#[test]
fn reverse_complement_at_the_width_limits() {
    // k = 1: A complements to T.
    assert_eq!(reverse_complement(0, 1), 3);
    // k = 32: 32 x A complements to 32 x T, the full 64-bit key.
    assert_eq!(reverse_complement(0, 32), u64::MAX);
    assert_eq!(canonical(u64::MAX, 32), 0);
}

#[test]
fn key_in_range_checks_the_key_width() {
    assert!(key_in_range(15, 2));
    assert!(!key_in_range(16, 2));
    assert!(key_in_range(0, 1));
    assert!(key_in_range(u64::MAX, 32));
    assert!(!key_in_range(u64::MAX, 31));
}
