//! XOR of byte strings: against an equally long key, against one byte, and
//! against a key that repeats.

use crate::errors::CrypError;
use vstd::prelude::*;

verus! {

/// Byte `i` of the result is `data[i] ^ key[i]`; the result is as long as `data`.
pub open spec fn xor_pairwise(data: Seq<u8>, key: Seq<u8>) -> Seq<u8> {
    Seq::new(data.len(), |i: int| data[i] ^ key[i])
}

/// Every byte of `data` XORed with the same byte `key`.
pub open spec fn xor_with_byte(data: Seq<u8>, key: u8) -> Seq<u8> {
    Seq::new(data.len(), |i: int| data[i] ^ key)
}

/// Byte `i` of `data` XORed with byte `i mod key.len()` of `key`.
pub open spec fn xor_cyclic(data: Seq<u8>, key: Seq<u8>) -> Seq<u8> {
    Seq::new(data.len(), |i: int| data[i] ^ key[i % (key.len() as int)])
}

/// XORing twice with the same byte gives the byte back.
pub proof fn lemma_xor_byte_cancels(a: u8, b: u8)
    ensures
        (a ^ b) ^ b == a,
{
    assert((a ^ b) ^ b == a) by (bit_vector);
}

/// Fixed-length XOR of `data` with a key of the same length.
///
/// Fails with `LengthMismatch` exactly when the two lengths differ.
pub fn xor_fixed(data: &[u8], key: &[u8]) -> (result: Result<Vec<u8>, CrypError>)
    ensures
        data@.len() != key@.len() <==> result == Err::<Vec<u8>, CrypError>(
            CrypError::LengthMismatch,
        ),
        data@.len() == key@.len() <==> result is Ok,
        result matches Ok(xored) ==> xored@ == xor_pairwise(data@, key@),
{
    if data.len() != key.len() {
        return Err(CrypError::LengthMismatch);
    }
    let mut xored: Vec<u8> = Vec::new();
    let mut i: usize = 0;
    while i < data.len()
        invariant
            i <= data@.len(),
            data@.len() == key@.len(),
            xored@.len() == i,
            forall|j: int| 0 <= j < i ==> xored@[j] == data@[j] ^ key@[j],
        decreases data@.len() - i,
    {
        xored.push(data[i] ^ key[i]);
        i += 1;
    }
    assert(xored@ =~= xor_pairwise(data@, key@));
    Ok(xored)
}

/// XOR of every byte of `data` with the single byte `key`.
pub fn xor_one_byte(data: &[u8], key: u8) -> (xored: Vec<u8>)
    ensures
        xored@ == xor_with_byte(data@, key),
{
    let mut xored: Vec<u8> = Vec::new();
    let mut i: usize = 0;
    while i < data.len()
        invariant
            i <= data@.len(),
            xored@.len() == i,
            forall|j: int| 0 <= j < i ==> xored@[j] == data@[j] ^ key,
        decreases data@.len() - i,
    {
        xored.push(data[i] ^ key);
        i += 1;
    }
    assert(xored@ =~= xor_with_byte(data@, key));
    xored
}

/// Repeating-key XOR: the key is applied cyclically along `data`.
///
/// A key is needed as soon as there is a byte to transform.
pub fn xor_repeating(data: &[u8], key: &[u8]) -> (xored: Vec<u8>)
    requires
        data@.len() > 0 ==> key@.len() > 0,
    ensures
        xored@ == xor_cyclic(data@, key@),
{
    let mut xored: Vec<u8> = Vec::new();
    let mut i: usize = 0;
    while i < data.len()
        invariant
            i <= data@.len(),
            data@.len() > 0 ==> key@.len() > 0,
            xored@.len() == i,
            forall|j: int| 0 <= j < i ==> xored@[j] == data@[j] ^ key@[j % (key@.len() as int)],
        decreases data@.len() - i,
    {
        xored.push(data[i] ^ key[i % key.len()]);
        i += 1;
    }
    assert(xored@ =~= xor_cyclic(data@, key@));
    xored
}

/// Fixed-length XOR is an involution: applying the same key of the same
/// length twice restores the data.
pub proof fn lemma_xor_fixed_involution(data: Seq<u8>, key: Seq<u8>)
    requires
        data.len() == key.len(),
    ensures
        xor_pairwise(xor_pairwise(data, key), key) == data,
{
    let once = xor_pairwise(data, key);
    assert forall|i: int| 0 <= i < data.len() implies xor_pairwise(once, key)[i] == data[i] by {
        lemma_xor_byte_cancels(data[i], key[i]);
    }
    assert(xor_pairwise(once, key) =~= data);
}

/// XOR with one byte is an involution.
pub proof fn lemma_xor_one_byte_involution(data: Seq<u8>, key: u8)
    ensures
        xor_with_byte(xor_with_byte(data, key), key) == data,
{
    let once = xor_with_byte(data, key);
    assert forall|i: int| 0 <= i < data.len() implies xor_with_byte(once, key)[i] == data[i] by {
        lemma_xor_byte_cancels(data[i], key);
    }
    assert(xor_with_byte(once, key) =~= data);
}

/// Repeating-key XOR is an involution for every non-empty key: encrypting
/// and decrypting are the same operation.
pub proof fn lemma_xor_repeating_involution(data: Seq<u8>, key: Seq<u8>)
    requires
        key.len() > 0,
    ensures
        xor_cyclic(xor_cyclic(data, key), key) == data,
{
    let once = xor_cyclic(data, key);
    assert forall|i: int| 0 <= i < data.len() implies xor_cyclic(once, key)[i] == data[i] by {
        lemma_xor_byte_cancels(data[i], key[i % (key.len() as int)]);
    }
    assert(xor_cyclic(once, key) =~= data);
}

} // verus!
