//! 2-bit packing of fixed-length DNA subsequences (k-mers) into 64-bit keys,
//! reverse complement and canonical form at the key level, and enumeration of
//! the overlapping k-mer windows of a longer sequence.
//!
//! A base sequence of length `k` (1 <= k <= 32) over the uppercase alphabet
//! {A, C, G, T} is packed two bits per base, first base in the most
//! significant position, with A = 0, C = 1, G = 2, T = 3.  The canonical form
//! of a key is the smaller of the key and the key of the reverse-complement
//! sequence, so that a k-mer and its reverse complement count as one entity.

use vstd::prelude::*;

verus! {

/// The ASCII code of uppercase A.
pub const BASE_A: u8 = 65;

/// The ASCII code of uppercase C.
pub const BASE_C: u8 = 67;

/// The ASCII code of uppercase G.
pub const BASE_G: u8 = 71;

/// The ASCII code of uppercase T.
pub const BASE_T: u8 = 84;

/// 4 to the power `k`: the number of distinct base sequences of length `k`,
/// and the exclusive upper bound of their packed keys.
pub open spec fn pow4(k: nat) -> nat
    decreases k,
{
    if k == 0 {
        1
    } else {
        4 * pow4((k - 1) as nat)
    }
}

/// The bases the encoder accepts: uppercase A, C, G, T.  Anything else
/// (ambiguity codes, lowercase) invalidates the window that contains it.
pub open spec fn is_base(b: u8) -> bool {
    b == BASE_A || b == BASE_C || b == BASE_G || b == BASE_T
}

/// The 2-bit code of a base.
pub open spec fn base_code(b: u8) -> nat
    recommends
        is_base(b),
{
    if b == BASE_A {
        0
    } else if b == BASE_C {
        1
    } else if b == BASE_G {
        2
    } else {
        3
    }
}

/// The base written for a 2-bit code.
pub open spec fn code_base(c: nat) -> u8
    recommends
        c < 4,
{
    if c == 0 {
        BASE_A
    } else if c == 1 {
        BASE_C
    } else if c == 2 {
        BASE_G
    } else {
        BASE_T
    }
}

/// The Watson-Crick complement of a base.
pub open spec fn complement_base(b: u8) -> u8
    recommends
        is_base(b),
{
    if b == BASE_A {
        BASE_T
    } else if b == BASE_C {
        BASE_G
    } else if b == BASE_G {
        BASE_C
    } else {
        BASE_A
    }
}

/// Every symbol of `s` is a valid base.
pub open spec fn valid_kmer(s: Seq<u8>) -> bool {
    forall|i: int| 0 <= i < s.len() ==> is_base(#[trigger] s[i])
}

/// The packed key of a base sequence: two bits per base, first base most
/// significant.
pub open spec fn encoded(s: Seq<u8>) -> nat
    recommends
        valid_kmer(s),
    decreases s.len(),
{
    if s.len() == 0 {
        0
    } else {
        encoded(s.drop_last()) * 4 + base_code(s.last())
    }
}

/// The reverse complement of `s`: complemented bases in reverse order.
pub open spec fn rc_seq(s: Seq<u8>) -> Seq<u8> {
    Seq::new(s.len(), |i: int| complement_base(s[s.len() - 1 - i]))
}

/// The key of the reverse complement, computed on the key alone: the low base
/// is complemented and moved to the most significant position, and so on.
pub open spec fn rc_of(key: nat, k: nat) -> nat
    recommends
        key < pow4(k),
    decreases k,
{
    if k == 0 {
        0
    } else {
        ((3 - key % 4) as nat) * pow4((k - 1) as nat) + rc_of(key / 4, (k - 1) as nat)
    }
}

/// The canonical form of a key: the smaller of the key and its reverse
/// complement.  A k-mer and its reverse complement share this value.
pub open spec fn canonical_of(key: nat, k: nat) -> nat
    recommends
        key < pow4(k),
{
    if rc_of(key, k) < key {
        rc_of(key, k)
    } else {
        key
    }
}

pub proof fn lemma_pow4_pos(k: nat)
    ensures
        pow4(k) >= 1,
    decreases k,
{
    if k > 0 {
        lemma_pow4_pos((k - 1) as nat);
    }
}

pub proof fn lemma_pow4_monotone(a: nat, b: nat)
    requires
        a <= b,
    ensures
        pow4(a) <= pow4(b),
    decreases b,
{
    if a < b {
        lemma_pow4_monotone(a, (b - 1) as nat);
    }
}

pub proof fn lemma_pow4_32()
    ensures
        pow4(32) == 0x1_0000_0000_0000_0000,
{
    reveal_with_fuel(pow4, 33);
}

/// A packed key is below `pow4` of the sequence length.
pub proof fn lemma_encoded_bound(s: Seq<u8>)
    ensures
        encoded(s) < pow4(s.len()),
    decreases s.len(),
{
    if s.len() > 0 {
        lemma_encoded_bound(s.drop_last());
    }
}

/// The reverse complement of a key in range stays in range.
pub proof fn lemma_rc_of_bound(key: nat, k: nat)
    requires
        key < pow4(k),
    ensures
        rc_of(key, k) < pow4(k),
    decreases k,
{
    if k >= 1 {
        let p = pow4((k - 1) as nat);
        let d = (3 - key % 4) as nat;
        lemma_pow4_pos((k - 1) as nat);
        assert(key / 4 < p) by (nonlinear_arith)
            requires
                key < 4 * p,
                p >= 1,
        ;
        lemma_rc_of_bound(key / 4, (k - 1) as nat);
        assert(d <= 3);
        assert(d * p <= 3 * p) by (nonlinear_arith)
            requires
                d <= 3,
                p >= 0,
        ;
    }
}

/// Peeling the most significant base: the reverse complement of
/// `c * 4^(k-1) + rest` appends the complement of `c` at the low end.
proof fn lemma_rc_of_high(c: nat, rest: nat, k: nat)
    requires
        c < 4,
        k >= 1,
        rest < pow4((k - 1) as nat),
    ensures
        rc_of(c * pow4((k - 1) as nat) + rest, k) == rc_of(rest, (k - 1) as nat) * 4 + 3 - c,
    decreases k,
{
    vstd::arithmetic::div_mod::lemma_fundamental_div_mod((c * pow4((k - 1) as nat)
        + rest) as int, 4);
    if k == 1 {
        assert(pow4(0) == 1);
        assert(rest == 0);
        assert(c * 1 == c) by (nonlinear_arith);
        lemma_small_mod_div(c);
        assert(rc_of(c, 1) == ((3 - c % 4) as nat) * pow4(0) + rc_of(c / 4, 0));
        assert(((3 - c) as nat) * 1 == 3 - c) by (nonlinear_arith)
            requires
                c < 4,
        ;
    } else {
        let q = pow4((k - 2) as nat);
        let p = pow4((k - 1) as nat);
        let v = c * p + rest;
        lemma_pow4_pos((k - 2) as nat);
        assert(p == 4 * q);
        vstd::arithmetic::div_mod::lemma_fundamental_div_mod(rest as int, 4);
        assert(v == 4 * (c * q + rest / 4) + rest % 4) by (nonlinear_arith)
            requires
                v == c * (4 * q) + rest,
                rest == 4 * (rest / 4) + rest % 4,
        ;
        assert(rest % 4 < 4) by (nonlinear_arith);
        vstd::arithmetic::div_mod::lemma_fundamental_div_mod_converse_div(
            v as int,
            4,
            (c * q + rest / 4) as int,
            (rest % 4) as int,
        );
        vstd::arithmetic::div_mod::lemma_fundamental_div_mod_converse_mod(
            v as int,
            4,
            (c * q + rest / 4) as int,
            (rest % 4) as int,
        );
        assert(v / 4 == c * q + rest / 4);
        assert(v % 4 == rest % 4);
        assert(rest / 4 < q) by (nonlinear_arith)
            requires
                rest < 4 * q,
                q >= 1,
        ;
        lemma_rc_of_high(c, rest / 4, (k - 1) as nat);
        assert(rc_of(v, k) == ((3 - rest % 4) as nat) * p + rc_of(rest / 4, (k - 2) as nat) * 4 + 3
            - c);
        assert(rc_of(rest, (k - 1) as nat) == ((3 - rest % 4) as nat) * q + rc_of(
            rest / 4,
            (k - 2) as nat,
        ));
        assert((((3 - rest % 4) as nat) * q + rc_of(rest / 4, (k - 2) as nat)) * 4 == ((3 - rest
            % 4) as nat) * (4 * q) + rc_of(rest / 4, (k - 2) as nat) * 4) by (nonlinear_arith);
    }
}

/// `x % 4 == x` and `x / 4 == 0` for a single base code.
proof fn lemma_small_mod_div(x: nat)
    requires
        x < 4,
    ensures
        x % 4 == x,
        x / 4 == 0,
{
    vstd::arithmetic::div_mod::lemma_fundamental_div_mod_converse_div(x as int, 4, 0, x as int);
    vstd::arithmetic::div_mod::lemma_fundamental_div_mod_converse_mod(x as int, 4, 0, x as int);
}

/// Taking the reverse complement twice gives the original key back.
pub proof fn lemma_rc_involution(key: nat, k: nat)
    requires
        key < pow4(k),
    ensures
        rc_of(rc_of(key, k), k) == key,
    decreases k,
{
    if k >= 1 {
        let p = pow4((k - 1) as nat);
        let c0 = key % 4;
        let e = key / 4;
        lemma_pow4_pos((k - 1) as nat);
        assert(key / 4 < p) by (nonlinear_arith)
            requires
                key < 4 * p,
                p >= 1,
        ;
        assert(key % 4 < 4) by (nonlinear_arith);
        lemma_rc_of_bound(e, (k - 1) as nat);
        let re = rc_of(e, (k - 1) as nat);
        assert(rc_of(key, k) == ((3 - c0) as nat) * p + re);
        lemma_rc_of_high((3 - c0) as nat, re, k);
        lemma_rc_involution(e, (k - 1) as nat);
        vstd::arithmetic::div_mod::lemma_fundamental_div_mod(key as int, 4);
    }
}

/// A k-mer and its reverse complement canonicalize to the same key.
pub proof fn lemma_canonical_rc(key: nat, k: nat)
    requires
        key < pow4(k),
    ensures
        canonical_of(rc_of(key, k), k) == canonical_of(key, k),
{
    lemma_rc_involution(key, k);
}

/// The key of a sequence with one base prepended.
proof fn lemma_encoded_prepend(c: u8, s: Seq<u8>)
    ensures
        encoded(seq![c] + s) == base_code(c) * pow4(s.len()) + encoded(s),
    decreases s.len(),
{
    if s.len() == 0 {
        assert(seq![c] + s =~= seq![c]);
        assert((seq![c]).drop_last() =~= Seq::<u8>::empty());
        assert((seq![c]).len() == 1);
        assert((seq![c]).last() == c);
        assert(encoded(Seq::<u8>::empty()) == 0);
        assert(encoded(seq![c]) == encoded((seq![c]).drop_last()) * 4 + base_code((seq![c]).last()));
        assert(encoded(seq![c]) == base_code(c));
        assert(base_code(c) * 1 == base_code(c)) by (nonlinear_arith);
    } else {
        let t = s.drop_last();
        assert((seq![c] + s).drop_last() =~= seq![c] + t);
        assert((seq![c] + s).last() == s.last());
        lemma_encoded_prepend(c, t);
        let p = pow4(t.len());
        assert((base_code(c) * p + encoded(t)) * 4 == base_code(c) * (4 * p) + encoded(t) * 4)
            by (nonlinear_arith);
        assert(pow4(s.len()) == 4 * p);
    }
}

/// The key of the reverse complement sequence is the key-level reverse
/// complement: the two computations agree.
pub proof fn lemma_encoded_rc_seq(s: Seq<u8>)
    requires
        valid_kmer(s),
    ensures
        encoded(rc_seq(s)) == rc_of(encoded(s), s.len()),
    decreases s.len(),
{
    if s.len() == 0 {
        assert(rc_seq(s) =~= Seq::<u8>::empty());
    } else {
        let t = s.drop_last();
        let b = s.last();
        assert(is_base(b));
        assert(rc_seq(s) =~= seq![complement_base(b)] + rc_seq(t)) by {
            assert forall|i: int| 0 <= i < s.len() implies rc_seq(s)[i] == (seq![
                complement_base(b),
            ] + rc_seq(t))[i] by {
                if i > 0 {
                    assert(rc_seq(t)[i - 1] == complement_base(t[t.len() - 1 - (i - 1)]));
                    assert(t[s.len() - 1 - i] == s[s.len() - 1 - i]);
                }
            }
        }
        lemma_encoded_prepend(complement_base(b), rc_seq(t));
        lemma_encoded_rc_seq(t);
        assert(base_code(complement_base(b)) == 3 - base_code(b));
        let e = encoded(s);
        vstd::arithmetic::div_mod::lemma_fundamental_div_mod_converse_div(
            e as int,
            4,
            encoded(t) as int,
            base_code(b) as int,
        );
        vstd::arithmetic::div_mod::lemma_fundamental_div_mod_converse_mod(
            e as int,
            4,
            encoded(t) as int,
            base_code(b) as int,
        );
        assert(e / 4 == encoded(t));
        assert(e % 4 == base_code(b));
        assert(rc_of(e, s.len()) == ((3 - base_code(b)) as nat) * pow4(t.len()) + rc_of(
            encoded(t),
            t.len(),
        ));
    }
}

/// Packing is injective: two valid k-mers of one length with the same key are
/// the same sequence.
pub proof fn lemma_encode_injective(s1: Seq<u8>, s2: Seq<u8>)
    requires
        valid_kmer(s1),
        valid_kmer(s2),
        s1.len() == s2.len() <= 32,
        encoded(s1) == encoded(s2),
    ensures
        s1 == s2,
    decreases s1.len(),
{
    if s1.len() == 0 {
        assert(s1 =~= s2);
    } else {
        let b1 = s1.last();
        let b2 = s2.last();
        assert(is_base(b1) && is_base(b2));
        vstd::arithmetic::div_mod::lemma_fundamental_div_mod_converse_div(
            encoded(s1) as int,
            4,
            encoded(s1.drop_last()) as int,
            base_code(b1) as int,
        );
        vstd::arithmetic::div_mod::lemma_fundamental_div_mod_converse_mod(
            encoded(s1) as int,
            4,
            encoded(s1.drop_last()) as int,
            base_code(b1) as int,
        );
        vstd::arithmetic::div_mod::lemma_fundamental_div_mod_converse_div(
            encoded(s2) as int,
            4,
            encoded(s2.drop_last()) as int,
            base_code(b2) as int,
        );
        vstd::arithmetic::div_mod::lemma_fundamental_div_mod_converse_mod(
            encoded(s2) as int,
            4,
            encoded(s2.drop_last()) as int,
            base_code(b2) as int,
        );
        assert(base_code(b1) == base_code(b2));
        assert(b1 == b2);
        lemma_encode_injective(s1.drop_last(), s2.drop_last());
        assert(s1 =~= s1.drop_last().push(b1));
        assert(s2 =~= s2.drop_last().push(b2));
    }
}

/// The base sequence whose key is `key`: digits of `key` base 4, written as
/// bases, most significant first.
pub open spec fn decoded(key: nat, k: nat) -> Seq<u8>
    recommends
        key < pow4(k),
    decreases k,
{
    if k == 0 {
        Seq::empty()
    } else {
        decoded(key / 4, (k - 1) as nat).push(code_base(key % 4))
    }
}

/// Decoding inverts packing: the decoded sequence is a valid k-mer with the
/// original key.
pub proof fn lemma_decoded_props(key: nat, k: nat)
    requires
        key < pow4(k),
    ensures
        decoded(key, k).len() == k,
        valid_kmer(decoded(key, k)),
        encoded(decoded(key, k)) == key,
    decreases k,
{
    if k >= 1 {
        let p = pow4((k - 1) as nat);
        lemma_pow4_pos((k - 1) as nat);
        assert(key / 4 < p) by (nonlinear_arith)
            requires
                key < 4 * p,
                p >= 1,
        ;
        assert(key % 4 < 4) by (nonlinear_arith);
        lemma_decoded_props(key / 4, (k - 1) as nat);
        let d = decoded(key / 4, (k - 1) as nat);
        let c = code_base(key % 4);
        assert(d.push(c).drop_last() =~= d);
        assert(d.push(c).last() == c);
        assert(base_code(code_base(key % 4)) == key % 4);
        vstd::arithmetic::div_mod::lemma_fundamental_div_mod(key as int, 4);
        assert(forall|i: int|
            0 <= i < d.push(c).len() ==> is_base(#[trigger] d.push(c)[i]));
    }
}

/// Write the k-mer packed in `key` as uppercase bases, first base first: the
/// unique valid sequence that packs back to `key`.
pub fn decode(key: u64, k: usize) -> (r: Vec<u8>)
    requires
        k <= 32,
        (key as nat) < pow4(k as nat),
    ensures
        r@ == decoded(key as nat, k as nat),
        r@.len() == k,
        valid_kmer(r@),
        encoded(r@) == key as nat,
    decreases k,
{
    proof {
        lemma_decoded_props(key as nat, k as nat);
    }
    if k == 0 {
        Vec::new()
    } else {
        proof {
            lemma_pow4_pos((k - 1) as nat);
            assert((key as nat) / 4 < pow4((k - 1) as nat)) by (nonlinear_arith)
                requires
                    (key as nat) < 4 * pow4((k - 1) as nat),
                    pow4((k - 1) as nat) >= 1,
            ;
        }
        let mut v = decode(key / 4, k - 1);
        let c: u8 = match key % 4 {
            0 => BASE_A,
            1 => BASE_C,
            2 => BASE_G,
            _ => BASE_T,
        };
        v.push(c);
        v
    }
}

/// Pack a base sequence of length 1 to 32 into a key.  Returns `None` exactly
/// when some symbol is not an uppercase A, C, G or T; such windows are skipped
/// by the callers.
pub fn encode(bases: &[u8]) -> (r: Option<u64>)
    requires
        1 <= bases@.len() <= 32,
    ensures
        match r {
            Some(key) => {
                &&& valid_kmer(bases@)
                &&& key as nat == encoded(bases@)
                &&& (key as nat) < pow4(bases@.len())
            },
            None => !valid_kmer(bases@),
        },
{
    let n: usize = bases.len();
    let mut acc: u64 = 0;
    let mut i: usize = 0;
    while i < n
        invariant
            i <= n == bases@.len() <= 32,
            forall|j: int| 0 <= j < i ==> is_base(#[trigger] bases@[j]),
            acc as nat == encoded(bases@.take(i as int)),
            (acc as nat) < pow4(i as nat),
        decreases n - i,
    {
        let b: u8 = bases[i];
        let c: u64 = if b == BASE_A {
            0
        } else if b == BASE_C {
            1
        } else if b == BASE_G {
            2
        } else if b == BASE_T {
            3
        } else {
            return None;
        };
        proof {
            assert(bases@.take(i + 1).drop_last() =~= bases@.take(i as int));
            assert(bases@.take(i + 1).last() == bases@[i as int]);
            lemma_pow4_monotone((i + 1) as nat, 32);
            lemma_pow4_32();
        }
        acc = acc * 4 + c;
        i = i + 1;
    }
    proof {
        assert(bases@.take(n as int) =~= bases@);
    }
    Some(acc)
}

/// Does `key` pack a k-mer of length `k`?  True exactly when `key` lies
/// below 4^k; for `k == 32` every 64-bit value does.
pub fn key_in_range(key: u64, k: usize) -> (r: bool)
    requires
        k <= 32,
    ensures
        r == ((key as nat) < pow4(k as nat)),
{
    if k == 32 {
        proof {
            lemma_pow4_32();
        }
        true
    } else {
        let mut p: u64 = 1;
        let mut i: usize = 0;
        while i < k
            invariant
                i <= k <= 31,
                p as nat == pow4(i as nat),
            decreases k - i,
        {
            proof {
                lemma_pow4_monotone((i + 1) as nat, 31);
                reveal_with_fuel(pow4, 32);
            }
            p = p * 4;
            i = i + 1;
        }
        key < p
    }
}

/// Compute the key of the reverse complement of the k-mer packed in `key`.
pub fn reverse_complement(key: u64, k: usize) -> (r: u64)
    requires
        k <= 32,
        (key as nat) < pow4(k as nat),
    ensures
        r as nat == rc_of(key as nat, k as nat),
        (r as nat) < pow4(k as nat),
{
    let mut result: u64 = 0;
    let mut rest: u64 = key;
    let mut i: usize = 0;
    while i < k
        invariant
            i <= k <= 32,
            (rest as nat) < pow4((k - i) as nat),
            (result as nat) < pow4(i as nat),
            rc_of(key as nat, k as nat) == (result as nat) * pow4((k - i) as nat) + rc_of(
                rest as nat,
                (k - i) as nat,
            ),
        decreases k - i,
    {
        let d: u64 = 3 - (rest % 4);
        proof {
            let res0 = result as nat;
            let dd = d as nat;
            let p = pow4((k - i - 1) as nat);
            lemma_pow4_pos((k - i - 1) as nat);
            assert(pow4((k - i) as nat) == 4 * p);
            assert((res0 * 4 + dd) * p == res0 * (4 * p) + dd * p) by (nonlinear_arith);
            assert((rest as nat) / 4 < p) by (nonlinear_arith)
                requires
                    (rest as nat) < 4 * p,
                    p >= 1,
            ;
            lemma_pow4_monotone((i + 1) as nat, 32);
            lemma_pow4_32();
        }
        result = result * 4 + d;
        rest = rest / 4;
        i = i + 1;
    }
    proof {
        assert(rc_of(rest as nat, 0) == 0);
        assert(pow4(0) == 1);
        assert((result as nat) * 1 == result as nat);
    }
    result
}

/// The canonical form of `key`: the smaller of `key` and its reverse
/// complement.
pub fn canonical(key: u64, k: usize) -> (r: u64)
    requires
        k <= 32,
        (key as nat) < pow4(k as nat),
    ensures
        r as nat == canonical_of(key as nat, k as nat),
        r <= key,
{
    let rc = reverse_complement(key, k);
    if rc < key {
        rc
    } else {
        key
    }
}

/// A valid k-mer and its reverse complement canonicalize to one key, so the
/// strand a sequence was read from does not matter to counting.
pub proof fn lemma_canonical_strand_invariant(s: Seq<u8>)
    requires
        valid_kmer(s),
        1 <= s.len() <= 32,
    ensures
        valid_kmer(rc_seq(s)),
        canonical_of(encoded(rc_seq(s)), s.len()) == canonical_of(encoded(s), s.len()),
{
    assert forall|i: int| 0 <= i < rc_seq(s).len() implies is_base(#[trigger] rc_seq(s)[i]) by {
        assert(is_base(s[s.len() - 1 - i]));
    }
    lemma_encoded_rc_seq(s);
    lemma_encoded_bound(s);
    lemma_canonical_rc(encoded(s), s.len());
}

/// The k-mer windows of `s` from position `i` on: for each valid window, the
/// pair of its key and its canonical key, in window order.  Windows holding an
/// invalid symbol are skipped.
pub open spec fn kmer_pairs_from(s: Seq<u8>, k: nat, i: nat) -> Seq<(u64, u64)>
    decreases s.len() + k - i,
{
    if k == 0 || i + k > s.len() {
        Seq::empty()
    } else {
        let w = s.subrange(i as int, (i + k) as int);
        let rest = kmer_pairs_from(s, k, (i + 1) as nat);
        if valid_kmer(w) {
            seq![((encoded(w) as u64), (canonical_of(encoded(w), k) as u64))] + rest
        } else {
            rest
        }
    }
}

/// All k-mer windows of `s`: `(key, canonical key)` of every valid window, in
/// order.  There are `s.len() - k + 1` windows at most; invalid ones are
/// skipped.
pub open spec fn kmer_pairs(s: Seq<u8>, k: nat) -> Seq<(u64, u64)> {
    kmer_pairs_from(s, k, 0)
}

proof fn lemma_kmer_pairs_from_len(s: Seq<u8>, k: nat, i: nat)
    requires
        valid_kmer(s),
        k >= 1,
    ensures
        kmer_pairs_from(s, k, i).len() == if i + k <= s.len() {
            s.len() + 1 - k - i
        } else {
            0
        },
    decreases s.len() + k - i,
{
    if i + k <= s.len() {
        let w = s.subrange(i as int, (i + k) as int);
        assert forall|j: int| 0 <= j < w.len() implies is_base(#[trigger] w[j]) by {
            assert(is_base(s[i + j]));
        }
        lemma_kmer_pairs_from_len(s, k, (i + 1) as nat);
    }
}

/// On a sequence of valid bases nothing is skipped: there are exactly
/// `len - k + 1` windows (none when the sequence is shorter than `k`).
pub proof fn lemma_kmer_pairs_len(s: Seq<u8>, k: nat)
    requires
        valid_kmer(s),
        k >= 1,
    ensures
        kmer_pairs(s, k).len() == if s.len() >= k {
            s.len() + 1 - k
        } else {
            0
        },
{
    lemma_kmer_pairs_from_len(s, k, 0);
}

/// Enumerate the k-mer windows of `bases`: for every window of length `k`
/// whose symbols are all valid bases, the pair of its key and its canonical
/// key, in window order.
pub fn kmers_of(bases: &[u8], k: usize) -> (r: Vec<(u64, u64)>)
    requires
        1 <= k <= 32,
    ensures
        r@ == kmer_pairs(bases@, k as nat),
{
    let n: usize = bases.len();
    let mut r: Vec<(u64, u64)> = Vec::new();
    if n < k {
        proof {
            assert(kmer_pairs(bases@, k as nat) =~= r@);
        }
        return r;
    }
    let last: usize = n - k;
    let mut i: usize = 0;
    while i <= last
        invariant
            1 <= k <= 32,
            n == bases@.len(),
            k <= n,
            last == n - k,
            i <= last + 1,
            kmer_pairs(bases@, k as nat) == r@ + kmer_pairs_from(bases@, k as nat, i as nat),
        decreases last + 1 - i,
    {
        let w = vstd::slice::slice_subrange(bases, i, i + k);
        let ghost wseq = bases@.subrange(i as int, (i + k) as int);
        match encode(w) {
            Some(key) => {
                let canon = canonical(key, k);
                proof {
                    lemma_pow4_monotone(k as nat, 32);
                    lemma_pow4_32();
                    let pair = ((encoded(wseq) as u64), (canonical_of(encoded(wseq), k as nat)
                        as u64));
                    assert(key == encoded(wseq) as u64);
                    assert(canonical_of(encoded(wseq), k as nat) < pow4(k as nat)) by {
                        lemma_rc_of_bound(encoded(wseq), k as nat);
                    }
                    assert(canon == canonical_of(encoded(wseq), k as nat) as u64);
                    assert(kmer_pairs_from(bases@, k as nat, i as nat) == seq![pair]
                        + kmer_pairs_from(bases@, k as nat, (i + 1) as nat));
                    assert(r@ + (seq![pair] + kmer_pairs_from(bases@, k as nat, (i + 1) as nat))
                        =~= r@.push(pair) + kmer_pairs_from(bases@, k as nat, (i + 1) as nat));
                }
                r.push((key, canon));
            },
            None => {
                proof {
                    assert(kmer_pairs_from(bases@, k as nat, i as nat) == kmer_pairs_from(
                        bases@,
                        k as nat,
                        (i + 1) as nat,
                    ));
                }
            },
        }
        i = i + 1;
    }
    proof {
        assert(kmer_pairs_from(bases@, k as nat, i as nat) =~= Seq::<(u64, u64)>::empty());
        assert(r@ + Seq::<(u64, u64)>::empty() =~= r@);
    }
    r
}

} // verus!
