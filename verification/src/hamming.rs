//! Hamming distances: between byte strings, counted in bits, and between
//! texts, counted in characters.

use vstd::prelude::*;
use vstd::std_specs::iter::IteratorSpec;
use vstd::string::*;

verus! {

/// The number of bits set in a byte.
pub open spec fn bit_count(b: u8) -> nat {
    ((b & 1) + ((b >> 1) & 1) + ((b >> 2) & 1) + ((b >> 3) & 1) + ((b >> 4) & 1) + ((b >> 5) & 1)
        + ((b >> 6) & 1) + ((b >> 7) & 1)) as nat
}

/// The number of bits in which the first `n` bytes of `a` and of `b` differ.
pub open spec fn differing_bits(a: Seq<u8>, b: Seq<u8>, n: nat) -> nat
    decreases n,
{
    if n == 0 {
        0
    } else {
        differing_bits(a, b, (n - 1) as nat) + bit_count(a[n - 1] ^ b[n - 1])
    }
}

/// The length up to which two sequences can be compared position by position.
pub open spec fn common_len(a: nat, b: nat) -> nat {
    if a <= b {
        a
    } else {
        b
    }
}

/// The bit-level Hamming distance: the sum, over the positions that both
/// sequences have, of the bits set in the XOR of the two bytes there. What
/// the longer sequence has beyond the shorter one is not compared.
pub open spec fn hamming_bits(a: Seq<u8>, b: Seq<u8>) -> nat {
    differing_bits(a, b, common_len(a.len(), b.len()))
}

/// The number of positions among the first `n` at which `a` and `b` hold
/// different characters.
pub open spec fn differing_chars(a: Seq<char>, b: Seq<char>, n: nat) -> nat
    decreases n,
{
    if n == 0 {
        0
    } else {
        differing_chars(a, b, (n - 1) as nat) + if a[n - 1] != b[n - 1] {
            1nat
        } else {
            0nat
        }
    }
}

/// The character-level Hamming distance, over the positions that both
/// texts have.
pub open spec fn hamming_chars(a: Seq<char>, b: Seq<char>) -> nat {
    differing_chars(a, b, common_len(a.len(), b.len()))
}

/// A byte has at most eight bits set.
pub proof fn lemma_bit_count_bound(b: u8)
    ensures
        bit_count(b) <= 8,
{
    assert((b & 1) + ((b >> 1) & 1) + ((b >> 2) & 1) + ((b >> 3) & 1) + ((b >> 4) & 1) + ((b >> 5)
        & 1) + ((b >> 6) & 1) + ((b >> 7) & 1) <= 8) by (bit_vector);
}

/// The distance grows with the number of positions compared, by at most
/// eight bits a position.
pub proof fn lemma_differing_bits_bounds(a: Seq<u8>, b: Seq<u8>, m: nat, n: nat)
    requires
        m <= n,
    ensures
        differing_bits(a, b, m) <= differing_bits(a, b, n),
        differing_bits(a, b, n) <= differing_bits(a, b, m) + 8 * (n - m),
    decreases n,
{
    if m < n {
        lemma_differing_bits_bounds(a, b, m, (n - 1) as nat);
        lemma_bit_count_bound(a[n - 1] ^ b[n - 1]);
    }
}

/// Two sequences differ in at most eight bits for each position compared.
pub proof fn lemma_hamming_bits_bound(a: Seq<u8>, b: Seq<u8>)
    ensures
        hamming_bits(a, b) <= 8 * common_len(a.len(), b.len()),
{
    lemma_differing_bits_bounds(a, b, 0, common_len(a.len(), b.len()));
}

/// Counts the bits set in a byte.
pub fn count_bits(b: u8) -> (count: u32)
    ensures
        count == bit_count(b),
        count <= 8,
{
    let b0: u8 = b & 1;
    let b1: u8 = (b >> 1) & 1;
    let b2: u8 = (b >> 2) & 1;
    let b3: u8 = (b >> 3) & 1;
    let b4: u8 = (b >> 4) & 1;
    let b5: u8 = (b >> 5) & 1;
    let b6: u8 = (b >> 6) & 1;
    let b7: u8 = (b >> 7) & 1;
    assert(b0 <= 1 && b1 <= 1 && b2 <= 1 && b3 <= 1 && b4 <= 1 && b5 <= 1 && b6 <= 1 && b7 <= 1)
        by (bit_vector)
        requires
            b0 == b & 1,
            b1 == (b >> 1) & 1,
            b2 == (b >> 2) & 1,
            b3 == (b >> 3) & 1,
            b4 == (b >> 4) & 1,
            b5 == (b >> 5) & 1,
            b6 == (b >> 6) & 1,
            b7 == (b >> 7) & 1,
    ;
    (b0 + b1 + b2 + b3 + b4 + b5 + b6 + b7) as u32
}

/// The bit-level distance between two byte strings, with room for any
/// length that memory can hold.
pub(crate) fn hamming_total(s1: &[u8], s2: &[u8]) -> (distance: u128)
    ensures
        distance == hamming_bits(s1@, s2@),
        distance <= 8 * common_len(s1@.len(), s2@.len()),
{
    let n = if s1.len() <= s2.len() {
        s1.len()
    } else {
        s2.len()
    };
    let mut distance: u128 = 0;
    let mut i: usize = 0;
    while i < n
        invariant
            i <= n,
            n == common_len(s1@.len(), s2@.len()),
            distance == differing_bits(s1@, s2@, i as nat),
            distance <= 8 * i,
        decreases n - i,
    {
        distance += count_bits(s1[i] ^ s2[i]) as u128;
        i += 1;
    }
    distance
}

/// The bit-level Hamming distance between two byte strings.
///
/// Strings of unequal length are compared up to the end of the shorter
/// one. The distance has to fit the result type, which it does whenever
/// the shorter string holds no more than `u32::MAX / 8` bytes.
pub fn hamming_distance_bit(s1: &[u8], s2: &[u8]) -> (distance: u32)
    requires
        hamming_bits(s1@, s2@) <= u32::MAX,
    ensures
        distance == hamming_bits(s1@, s2@),
{
    hamming_total(s1, s2) as u32
}

/// The character-level Hamming distance between two texts: the number of
/// positions at which they hold different characters, up to the end of the
/// shorter text.
pub fn hamming_distance_char(s1: &str, s2: &str) -> (distance: usize)
    ensures
        distance == hamming_chars(s1@, s2@),
{
    broadcast use group_string_axioms;

    let bound = s1.as_bytes().len();
    proof {
        crate::text::lemma_utf8_len(s1@);
    }
    let mut first = s1.chars();
    let mut second = s2.chars();
    let mut distance: usize = 0;
    let ghost mut seen: nat = 0;
    loop
        invariant_except_break
            first.remaining() == s1@.skip(seen as int),
            second.remaining() == s2@.skip(seen as int),
        invariant
            seen <= s1@.len(),
            seen <= s2@.len(),
            s1@.len() <= bound,
            distance == differing_chars(s1@, s2@, seen),
            distance <= seen,
        ensures
            seen == common_len(s1@.len(), s2@.len()),
            distance == differing_chars(s1@, s2@, seen),
        decreases s1@.len() - seen,
    {
        let a = first.next();
        if a.is_none() {
            break;
        }
        let b = second.next();
        if b.is_none() {
            break;
        }
        if a.unwrap() != b.unwrap() {
            distance += 1;
        }
        proof {
            assert(s1@.skip(seen as int).drop_first() =~= s1@.skip(seen as int + 1));
            assert(s2@.skip(seen as int).drop_first() =~= s2@.skip(seen as int + 1));
            seen = seen + 1;
        }
    }
    distance
}

} // verus!
