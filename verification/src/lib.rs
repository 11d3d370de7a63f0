//! A small toolkit for classical cryptanalysis: hexadecimal and Base64
//! codecs, XOR transformations, a plaintext-likelihood score, and the
//! recovery of a repeating-key XOR key from ciphertext alone.

pub mod base64;
pub mod errors;
pub mod hamming;
pub mod hex;
pub mod key_length;
pub mod key_recovery;
pub mod strings;
pub mod text;
pub mod xor;

pub use crate::base64::{base64_decode, base64_encode, collect_six_bits};
pub use crate::errors::CrypError;
pub use crate::hamming::{count_bits, hamming_distance_bit, hamming_distance_char};
pub use crate::hex::{bytes_to_hexstr, hexstr_to_bytes, validate_hexstr};
pub use crate::key_length::{block_distances, fraction_is_below, xor_guess_key_len};
pub use crate::key_recovery::{best_key_byte, column_of, xor_guess_key};
pub use crate::text::{
    analyze_string, character_frequency, is_valid_str, is_valid_text, score_text, TextProfile, TextScore,
};
pub use crate::xor::{xor_fixed, xor_one_byte, xor_repeating};
