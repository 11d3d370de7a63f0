//! Recovering a repeating XOR key of known length from ciphertext alone.
//!
//! Under a key of length `l`, the bytes at positions `p`, `p + l`,
//! `p + 2 * l`, ... were all XORed with key byte `p`. Each key byte is
//! found on its own: it is the printable byte that turns its column into
//! the text with the highest score.

use crate::text::{
    lemma_score_order_at_equal_length, plausible_count, score_below, score_text, TextScore,
};
use crate::xor::{xor_one_byte, xor_with_byte};
use vstd::prelude::*;

verus! {

/// The number of bytes of a text of `len` bytes that meet key byte `p`
/// of a key of `key_size` bytes.
pub open spec fn column_len(len: nat, key_size: int, p: int) -> nat {
    if key_size > 0 && 0 <= p < len {
        ((len - p + key_size - 1) / key_size) as nat
    } else {
        0
    }
}

/// The column of key position `p`: the bytes of `data` at `p`,
/// `p + key_size`, `p + 2 * key_size`, ..., in that order.
pub open spec fn column(data: Seq<u8>, key_size: int, p: int) -> Seq<u8> {
    Seq::new(column_len(data.len(), key_size, p), |t: int| data[p + t * key_size])
}

/// A byte that is tried as a key byte: printable ASCII.
pub open spec fn is_printable(c: u8) -> bool {
    32 <= c <= 126
}

/// `c` is the key byte chosen for a column: among the printable bytes it
/// gives the decrypted column the highest score, and among those that
/// give the highest score it is the largest.
pub open spec fn is_best_key_byte(column: Seq<u8>, c: u8) -> bool {
    &&& is_printable(c)
    &&& forall|d: u8| #[trigger]
        is_printable(d) ==> {
            ||| score_below(xor_with_byte(column, d), xor_with_byte(column, c))
            ||| (!score_below(xor_with_byte(column, c), xor_with_byte(column, d)) && d <= c)
        }
}

/// The number of steps of `key_size` that lead from `p` to the last byte
/// of the column.
proof fn lemma_column_len(len: nat, key_size: int, p: int, t: int)
    requires
        key_size > 0,
        0 <= p,
        1 <= t,
        p + (t - 1) * key_size < len <= p + t * key_size,
    ensures
        column_len(len, key_size, p) == t,
{
    let n = len - p + key_size - 1;
    assert(p < len) by (nonlinear_arith)
        requires
            p + (t - 1) * key_size < len,
            t >= 1,
            key_size > 0,
    ;
    assert(n / key_size == t) by (nonlinear_arith)
        requires
            key_size > 0,
            n == len - p + key_size - 1,
            p + (t - 1) * key_size < len <= p + t * key_size,
    ;
}

/// Collects the column of key position `p`. A key without bytes has no
/// columns, and a position past the data has an empty one.
pub fn column_of(data: &[u8], key_size: usize, p: usize) -> (bytes: Vec<u8>)
    ensures
        bytes@ == column(data@, key_size as int, p as int),
{
    let len: usize = data.len();
    let mut bytes: Vec<u8> = Vec::new();
    if key_size == 0 || p >= len {
        assert(bytes@ =~= column(data@, key_size as int, p as int));
        return bytes;
    }
    let mut index: usize = p;
    let ghost mut t: int = 0;
    loop
        invariant_except_break
            index < len,
            index == p + t * key_size,
        invariant
            len == data@.len(),
            key_size > 0,
            p < len,
            0 <= t,
            bytes@.len() == t,
            forall|i: int| 0 <= i < t ==> bytes@[i] == data@[p + i * key_size],
        ensures
            column_len(len as nat, key_size as int, p as int) == t,
        decreases len - index,
    {
        bytes.push(data[index]);
        proof {
            assert(p + (t + 1) * key_size == index + key_size) by (nonlinear_arith)
                requires
                    index == p + t * key_size,
            ;
            t = t + 1;
        }
        if len - index <= key_size {
            proof {
                assert((t - 1) * key_size == t * key_size - key_size) by (nonlinear_arith);
                lemma_column_len(len as nat, key_size as int, p as int, t);
            }
            break;
        }
        index += key_size;
    }
    assert(bytes@ =~= column(data@, key_size as int, p as int));
    bytes
}

/// Finds the key byte of one column: the printable byte under which the
/// column scores highest, and the largest such byte where several do.
pub fn best_key_byte(column: &[u8]) -> (best: u8)
    ensures
        is_best_key_byte(column@, best),
{
    let mut best: u8 = 32;
    let first = xor_one_byte(column, best);
    let mut best_score: TextScore = score_text(first.as_slice());
    let mut c: u8 = 32;
    while c < 126
        invariant
            32 <= best <= c <= 126,
            best_score.plausible == plausible_count(xor_with_byte(column@, best)),
            best_score.total == column@.len(),
            forall|d: u8|
                32 <= d <= c ==> {
                    let tried = plausible_count(#[trigger] xor_with_byte(column@, d));
                    tried < best_score.plausible || (tried == best_score.plausible && d <= best)
                },
        decreases 126 - c,
    {
        c += 1;
        let decrypted = xor_one_byte(column, c);
        let score = score_text(decrypted.as_slice());
        proof {
            lemma_score_order_at_equal_length(
                xor_with_byte(column@, c),
                xor_with_byte(column@, best),
            );
        }
        if !score.is_below(&best_score) {
            best = c;
            best_score = score;
        }
    }
    proof {
        assert forall|d: u8| #[trigger] is_printable(d) implies {
            ||| score_below(xor_with_byte(column@, d), xor_with_byte(column@, best))
            ||| (!score_below(xor_with_byte(column@, best), xor_with_byte(column@, d)) && d
                <= best)
        } by {
            let tried = plausible_count(xor_with_byte(column@, d));
            lemma_score_order_at_equal_length(
                xor_with_byte(column@, d),
                xor_with_byte(column@, best),
            );
            lemma_score_order_at_equal_length(
                xor_with_byte(column@, best),
                xor_with_byte(column@, d),
            );
        }
    }
    best
}

/// Recovers the key of a repeating-key XOR cipher from the ciphertext and
/// the key's length.
///
/// Byte `p` of the result is the key byte chosen for column `p`, whatever
/// the column holds: a column without bytes scores zero under every byte,
/// and the largest printable byte is chosen for it.
pub fn xor_guess_key(data: &[u8], key_size: usize) -> (key: Vec<u8>)
    ensures
        key@.len() == key_size,
        forall|p: int|
            0 <= p < key_size ==> is_best_key_byte(
                column(data@, key_size as int, p),
                #[trigger] key@[p],
            ),
{
    let mut key: Vec<u8> = Vec::new();
    let mut p: usize = 0;
    while p < key_size
        invariant
            p <= key_size,
            key@.len() == p,
            forall|i: int|
                0 <= i < p ==> is_best_key_byte(
                    column(data@, key_size as int, i),
                    #[trigger] key@[i],
                ),
        decreases key_size - p,
    {
        let bytes = column_of(data, key_size, p);
        let chosen = best_key_byte(bytes.as_slice());
        key.push(chosen);
        p += 1;
    }
    key
}

/// Only one byte is the best key byte of a column: the choice is
/// determined by the column alone.
pub proof fn lemma_best_key_byte_unique(column: Seq<u8>, c1: u8, c2: u8)
    requires
        is_best_key_byte(column, c1),
        is_best_key_byte(column, c2),
    ensures
        c1 == c2,
{
    assert(is_printable(c1) && is_printable(c2));
}

/// The best key byte of a column without bytes is the largest printable
/// byte, `~`.
pub proof fn lemma_best_key_byte_of_empty(c: u8)
    ensures
        is_best_key_byte(Seq::<u8>::empty(), c) <==> c == 126,
{
    let empty = Seq::<u8>::empty();
    assert forall|d: u8| xor_with_byte(empty, d) =~= empty by {}
    assert(plausible_count(empty) == 0);
    if is_best_key_byte(empty, c) {
        assert(is_printable(126u8));
        assert(xor_with_byte(empty, 126u8) == empty);
        assert(xor_with_byte(empty, c) == empty);
    }
    if c == 126 {
        assert forall|d: u8| #[trigger] is_printable(d) implies {
            ||| score_below(xor_with_byte(empty, d), xor_with_byte(empty, c))
            ||| (!score_below(xor_with_byte(empty, c), xor_with_byte(empty, d)) && d <= c)
        } by {
            assert(xor_with_byte(empty, d) == empty);
            assert(xor_with_byte(empty, c) == empty);
        }
    }
}

} // verus!
