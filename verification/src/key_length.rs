//! Estimating the length of a repeating XOR key from ciphertext alone.
//!
//! For a key length `l` the ciphertext is cut into blocks of `2 * l`
//! bytes, and the two halves of every full block are compared bit by bit.
//! Where `l` is the period of the key, the key cancels out of that
//! comparison, and the halves differ in fewer bits than elsewhere. The
//! estimate is the length whose halves differ least per byte compared.

use crate::errors::CrypError;
use crate::hamming::{hamming_bits, hamming_total};
use vstd::prelude::*;
use vstd::slice::slice_subrange;

verus! {

/// A key length that can be ranked: at least one, within the requested
/// range, and short enough for the ciphertext to hold one full block.
pub open spec fn is_candidate(len: nat, min_guess: int, max_guess: int, l: int) -> bool {
    &&& 1 <= l
    &&& min_guess <= l <= max_guess
    &&& 2 * l <= len
}

/// The number of full blocks of `2 * l` bytes in `len` bytes.
pub open spec fn full_blocks(len: nat, l: int) -> int {
    (len as int) / (2 * l)
}

/// The bits in which the two halves of block `j` differ.
pub open spec fn block_distance(data: Seq<u8>, l: int, j: int) -> nat {
    hamming_bits(
        data.subrange(2 * l * j, 2 * l * j + l),
        data.subrange(2 * l * j + l, 2 * l * j + 2 * l),
    )
}

/// The sum of the distances of the first `blocks` blocks.
pub open spec fn blocks_distance(data: Seq<u8>, l: int, blocks: nat) -> nat
    decreases blocks,
{
    if blocks == 0 {
        0
    } else {
        blocks_distance(data, l, (blocks - 1) as nat) + block_distance(data, l, blocks - 1)
    }
}

/// The sum of the distances of all full blocks for key length `l`.
pub open spec fn distance_sum(data: Seq<u8>, l: int) -> int {
    blocks_distance(data, l, full_blocks(data.len(), l) as nat) as int
}

/// The number of byte pairs compared for key length `l`: `l` for every
/// full block.
pub open spec fn bytes_compared(len: nat, l: int) -> int {
    l * full_blocks(len, l)
}

/// The average normalized distance of key length `l` is the fraction
/// `distance_sum / bytes_compared`: the mean, over the full blocks, of
/// the block's distance divided by `l`. This says that the average of `a`
/// is strictly below that of `b`.
pub open spec fn average_below(data: Seq<u8>, a: int, b: int) -> bool {
    distance_sum(data, a) * bytes_compared(data.len(), b) < distance_sum(data, b) * bytes_compared(
        data.len(),
        a,
    )
}

/// The order in which candidates are ranked: by average, and among equal
/// averages by length. `a` comes before `b`, or is `b`.
pub open spec fn ranks_before(data: Seq<u8>, a: int, b: int) -> bool {
    average_below(data, a, b) || (!average_below(data, b, a) && a <= b)
}

/// The fraction `t_a / d_a` is strictly below `t_b / d_b`.
pub open spec fn fraction_below(t_a: int, d_a: int, t_b: int, d_b: int) -> bool {
    t_a * d_b < t_b * d_a
}

/// A candidate has at least one full block, and its blocks fit the data.
proof fn lemma_candidate_blocks(len: nat, l: int)
    requires
        1 <= l,
        2 * l <= len,
    ensures
        1 <= full_blocks(len, l),
        2 * l * full_blocks(len, l) <= len,
        len < 2 * l * (full_blocks(len, l) + 1),
        1 <= bytes_compared(len, l),
        2 * bytes_compared(len, l) <= len,
{
    let d = 2 * l;
    let n = len as int;
    let q = n / d;
    assert(d * q <= n < d * (q + 1) && q >= 1) by (nonlinear_arith)
        requires
            q == n / d,
            d >= 2,
            n >= d,
    ;
    assert(2 * l * q == d * q && l * q >= 1 && 2 * (l * q) == d * q && 2 * l * (q + 1) == d * (q
        + 1)) by (nonlinear_arith)
        requires
            d == 2 * l,
            l >= 1,
            q >= 1,
    ;
}

/// Where `j` blocks fit and a further one does not, `j` is the number of
/// full blocks.
proof fn lemma_blocks_found(len: nat, l: int, j: int)
    requires
        1 <= l,
        0 <= j,
        2 * l * j <= len,
        len - 2 * l * j < 2 * l,
    ensures
        j == full_blocks(len, l),
{
    let d = 2 * l;
    let n = len as int;
    assert(n / d == j) by (nonlinear_arith)
        requires
            d >= 2,
            0 <= j,
            d * j <= n,
            n - d * j < d,
    ;
}

/// Fractions with positive denominators are ordered transitively.
proof fn lemma_fraction_order(t_a: int, d_a: int, t_b: int, d_b: int, t_c: int, d_c: int)
    requires
        d_a > 0,
        d_b > 0,
        d_c > 0,
        0 <= t_a,
        0 <= t_b,
        0 <= t_c,
        fraction_below(t_a, d_a, t_b, d_b),
        !fraction_below(t_c, d_c, t_b, d_b),
    ensures
        fraction_below(t_a, d_a, t_c, d_c),
{
    assert(t_a * d_b * d_c < t_b * d_a * d_c) by (nonlinear_arith)
        requires
            t_a * d_b < t_b * d_a,
            d_c > 0,
    ;
    assert(t_b * d_c * d_a <= t_c * d_b * d_a) by (nonlinear_arith)
        requires
            t_b * d_c <= t_c * d_b,
            d_a > 0,
    ;
    assert(t_b * d_a * d_c == t_b * d_c * d_a) by (nonlinear_arith);
    assert(t_a * d_b * d_c == (t_a * d_c) * d_b) by (nonlinear_arith);
    assert(t_c * d_b * d_a == (t_c * d_a) * d_b) by (nonlinear_arith);
    assert(t_a * d_c < t_c * d_a) by (nonlinear_arith)
        requires
            (t_a * d_c) * d_b < (t_c * d_a) * d_b,
            d_b > 0,
    ;
}

/// Whether `t_a / d_a` is strictly below `t_b / d_b`, decided without a
/// product that could leave the machine's range: first by the whole
/// parts, then by the remainders.
pub fn fraction_is_below(t_a: u128, d_a: usize, t_b: u128, d_b: usize) -> (below: bool)
    requires
        d_a >= 1,
        d_b >= 1,
    ensures
        below == fraction_below(t_a as int, d_a as int, t_b as int, d_b as int),
{
    let wide_a: u128 = d_a as u128;
    let wide_b: u128 = d_b as u128;
    let q_a: u128 = t_a / wide_a;
    let r_a: u128 = t_a % wide_a;
    let q_b: u128 = t_b / wide_b;
    let r_b: u128 = t_b % wide_b;
    assert(t_a == q_a * wide_a + r_a && r_a < wide_a) by (nonlinear_arith)
        requires
            q_a == t_a / wide_a,
            r_a == t_a % wide_a,
            wide_a >= 1,
    ;
    assert(t_b == q_b * wide_b + r_b && r_b < wide_b) by (nonlinear_arith)
        requires
            q_b == t_b / wide_b,
            r_b == t_b % wide_b,
            wide_b >= 1,
    ;
    assert(r_a * wide_b < wide_a * wide_b && r_b * wide_a < wide_a * wide_b && wide_a * wide_b
        <= 0xffff_ffff_ffff_ffff * 0xffff_ffff_ffff_ffff) by (nonlinear_arith)
        requires
            r_a < wide_a,
            r_b < wide_b,
            1 <= wide_a <= 0xffff_ffff_ffff_ffff,
            1 <= wide_b <= 0xffff_ffff_ffff_ffff,
    ;
    let below = if q_a != q_b {
        q_a < q_b
    } else {
        r_a * wide_b < r_b * wide_a
    };
    proof {
        let p = wide_a * wide_b;
        let x = r_a * wide_b;
        let y = r_b * wide_a;
        assert(t_a * wide_b == q_a * p + x && t_b * wide_a == q_b * p + y) by (nonlinear_arith)
            requires
                t_a == q_a * wide_a + r_a,
                t_b == q_b * wide_b + r_b,
                p == wide_a * wide_b,
                x == r_a * wide_b,
                y == r_b * wide_a,
        ;
        if q_a < q_b {
            assert(q_a * p + p <= q_b * p) by (nonlinear_arith)
                requires
                    q_a + 1 <= q_b,
                    p >= 0,
            ;
        } else if q_b < q_a {
            assert(q_b * p + p <= q_a * p) by (nonlinear_arith)
                requires
                    q_b + 1 <= q_a,
                    p >= 0,
            ;
        }
    }
    below
}

/// Adds up, over all full blocks for key length `l`, the bits in which
/// the halves of the block differ.
pub fn block_distances(data: &[u8], l: usize) -> (total: u128)
    requires
        1 <= l,
        2 * l <= data@.len(),
    ensures
        total == distance_sum(data@, l as int),
        total <= 8 * bytes_compared(data@.len(), l as int),
{
    let len: usize = data.len();
    let width: usize = 2 * l;
    let mut total: u128 = 0;
    let mut start: usize = 0;
    let ghost mut j: int = 0;
    proof {
        lemma_candidate_blocks(data@.len(), l as int);
    }
    while len - start >= width
        invariant
            len == data@.len(),
            1 <= l,
            width == 2 * l,
            0 <= j,
            start == 2 * l * j,
            start <= data@.len(),
            total == blocks_distance(data@, l as int, j as nat),
            total <= 8 * (l * j),
            2 * (l * j) == start,
        decreases data@.len() - start,
    {
        let left = slice_subrange(data, start, start + l);
        let right = slice_subrange(data, start + l, start + width);
        let distance = hamming_total(left, right);
        proof {
            assert(distance == block_distance(data@, l as int, j));
            assert(2 * l * (j + 1) == start + width && l * (j + 1) == l * j + l)
                by (nonlinear_arith)
                requires
                    start == 2 * l * j,
                    width == 2 * l,
            ;
        }
        total += distance;
        start += width;
        proof {
            j = j + 1;
        }
    }
    proof {
        lemma_blocks_found(data@.len(), l as int, j);
    }
    total
}

/// Estimates the length of the key behind a repeating-key XOR ciphertext.
///
/// Every length in `min_guess..=max_guess` for which `data` holds at least
/// one full block of twice that length is a candidate; lengths below one
/// are none. The candidate whose block halves differ in the fewest bits
/// per byte wins, and among candidates that tie exactly, the shortest.
/// Without any candidate the result is `InsufficientData`.
pub fn xor_guess_key_len(data: &[u8], min_guess: usize, max_guess: usize) -> (result: Result<
    usize,
    CrypError,
>)
    ensures
        result is Ok <==> exists|l: int| #[trigger]
            is_candidate(data@.len(), min_guess as int, max_guess as int, l),
        result matches Ok(best) ==> {
            &&& is_candidate(data@.len(), min_guess as int, max_guess as int, best as int)
            &&& forall|l: int| #[trigger]
                is_candidate(data@.len(), min_guess as int, max_guess as int, l) ==> ranks_before(
                    data@,
                    best as int,
                    l,
                )
        },
        result is Err ==> result == Err::<usize, CrypError>(CrypError::InsufficientData),
        data@.len() < 2 * min_guess ==> result is Err,
{
    let half: usize = data.len() / 2;
    let lowest: usize = if min_guess < 1 {
        1
    } else {
        min_guess
    };
    if lowest > max_guess || lowest > half {
        return Err(CrypError::InsufficientData);
    }
    let highest: usize = if max_guess < half {
        max_guess
    } else {
        half
    };
    assert(is_candidate(data@.len(), min_guess as int, max_guess as int, lowest as int));
    proof {
        lemma_candidate_blocks(data@.len(), lowest as int);
    }
    let mut best: usize = lowest;
    let mut best_total: u128 = block_distances(data, lowest);
    let mut best_bytes: usize = lowest * (data.len() / (2 * lowest));
    let mut l: usize = lowest;
    while l < highest
        invariant
            1 <= lowest <= best <= l <= highest,
            highest <= half,
            half == data@.len() / 2,
            best_total == distance_sum(data@, best as int),
            best_bytes == bytes_compared(data@.len(), best as int),
            best_bytes >= 1,
            forall|m: int| lowest <= m <= l ==> #[trigger] ranks_before(data@, best as int, m),
        decreases highest - l,
    {
        l += 1;
        proof {
            lemma_candidate_blocks(data@.len(), l as int);
        }
        let total: u128 = block_distances(data, l);
        let bytes: usize = l * (data.len() / (2 * l));
        if fraction_is_below(total, bytes, best_total, best_bytes) {
            proof {
                assert forall|m: int| lowest <= m <= l implies #[trigger] ranks_before(
                    data@,
                    l as int,
                    m,
                ) by {
                    if m < l {
                        assert(ranks_before(data@, best as int, m));
                        lemma_candidate_blocks(data@.len(), m);
                        lemma_fraction_order(
                            total as int,
                            bytes as int,
                            best_total as int,
                            best_bytes as int,
                            distance_sum(data@, m),
                            bytes_compared(data@.len(), m),
                        );
                    }
                }
            }
            best = l;
            best_total = total;
            best_bytes = bytes;
        }
    }
    Ok(best)
}

/// Only one candidate comes before all the others: the estimate is
/// determined by the ciphertext and the range alone.
pub proof fn lemma_key_length_unique(
    data: Seq<u8>,
    min_guess: int,
    max_guess: int,
    first: int,
    second: int,
)
    requires
        is_candidate(data.len(), min_guess, max_guess, first),
        is_candidate(data.len(), min_guess, max_guess, second),
        forall|l: int| #[trigger]
            is_candidate(data.len(), min_guess, max_guess, l) ==> ranks_before(data, first, l),
        forall|l: int| #[trigger]
            is_candidate(data.len(), min_guess, max_guess, l) ==> ranks_before(data, second, l),
    ensures
        first == second,
{
    assert(ranks_before(data, first, second));
    assert(ranks_before(data, second, first));
}

} // verus!
