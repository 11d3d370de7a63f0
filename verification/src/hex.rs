//! Hexadecimal text: two digits per byte, high nibble first.

use crate::errors::CrypError;
use vstd::prelude::*;
use vstd::string::*;
use vstd::utf8::is_ascii_chars;

verus! {

/// The value of a hexadecimal digit, in either case; `None` for any other character.
pub open spec fn hex_digit_value(c: char) -> Option<u8> {
    if '0' <= c <= '9' {
        Some((c as u8 - 48) as u8)
    } else if 'a' <= c <= 'f' {
        Some((c as u8 - 87) as u8)
    } else if 'A' <= c <= 'F' {
        Some((c as u8 - 55) as u8)
    } else {
        None
    }
}

/// The lower-case digit that stands for a value below 16.
pub open spec fn hex_digit(value: u8) -> char {
    if value < 10 {
        (value + 48) as u8 as char
    } else {
        (value + 87) as u8 as char
    }
}

/// The hexadecimal text of `bytes`: character `2i` is the high nibble of
/// byte `i`, character `2i + 1` its low nibble, both in lower case.
pub open spec fn hex_text(bytes: Seq<u8>) -> Seq<char> {
    Seq::new(
        2 * bytes.len(),
        |k: int|
            if k % 2 == 0 {
                hex_digit(bytes[k / 2] >> 4)
            } else {
                hex_digit(bytes[k / 2] & 15)
            },
    )
}

/// Text that decodes: an even number of characters, each a hexadecimal digit.
pub open spec fn is_hex_text(text: Seq<char>) -> bool {
    &&& text.len() % 2 == 0
    &&& forall|k: int| 0 <= k < text.len() ==> (#[trigger] hex_digit_value(text[k])) is Some
}

/// The bytes that well-formed hexadecimal text stands for.
pub open spec fn hex_bytes(text: Seq<char>) -> Seq<u8> {
    Seq::new(
        text.len() / 2,
        |i: int|
            (hex_digit_value(text[2 * i]).unwrap() * 16 + hex_digit_value(
                text[2 * i + 1],
            ).unwrap()) as u8,
    )
}

fn hex_digit_of(value: u8) -> (c: char)
    requires
        value < 16,
    ensures
        c == hex_digit(value),
{
    if value < 10 {
        (value + 48) as char
    } else {
        (value + 87) as char
    }
}

fn hex_value_of(b: u8) -> (value: Option<u8>)
    requires
        b < 128,
    ensures
        value == hex_digit_value(b as char),
        value matches Some(v) ==> v < 16,
{
    if 48 <= b && b <= 57 {
        Some(b - 48)
    } else if 97 <= b && b <= 102 {
        Some(b - 87)
    } else if 65 <= b && b <= 70 {
        Some(b - 55)
    } else {
        None
    }
}

/// Accepts text whose length in bytes is even, the first thing a
/// hexadecimal string must satisfy.
pub fn validate_hexstr(hexstr: &str) -> (result: Result<(), CrypError>)
    ensures
        result is Ok <==> hexstr.spec_bytes().len() % 2 == 0,
        result is Err ==> result == Err::<(), CrypError>(CrypError::InvalidEncoding),
{
    if hexstr.as_bytes().len() % 2 != 0 {
        return Err(CrypError::InvalidEncoding);
    }
    Ok(())
}

/// Decodes hexadecimal text into the bytes it stands for.
///
/// Succeeds exactly on text of even length made of the digits `0-9`, `a-f`
/// and `A-F`; everything else is `InvalidEncoding`.
pub fn hexstr_to_bytes(hexstr: &str) -> (result: Result<Vec<u8>, CrypError>)
    ensures
        result is Ok <==> is_hex_text(hexstr@),
        result matches Ok(bytes) ==> bytes@ == hex_bytes(hexstr@),
        result is Err ==> result == Err::<Vec<u8>, CrypError>(CrypError::InvalidEncoding),
{
    if !hexstr.is_ascii() {
        proof {
            let k = choose|k: int|
                0 <= k < hexstr@.len() && !('\0' <= #[trigger] hexstr@[k] <= '\u{7f}');
            assert(hex_digit_value(hexstr@[k]) is None);
        }
        return Err(CrypError::InvalidEncoding);
    }
    proof {
        broadcast use is_ascii_spec_bytes;

    }
    match validate_hexstr(hexstr) {
        Err(e) => {
            return Err(e);
        },
        Ok(_) => {},
    }
    let text = hexstr.as_bytes();
    let mut bytes: Vec<u8> = Vec::new();
    let mut i: usize = 0;
    while i < text.len()
        invariant
            i <= text@.len(),
            i % 2 == 0,
            text@.len() % 2 == 0,
            text@.len() == hexstr@.len(),
            forall|k: int| 0 <= k < text@.len() ==> text@[k] == hexstr@[k] as u8,
            is_ascii_chars(hexstr@),
            forall|k: int| 0 <= k < i ==> (#[trigger] hex_digit_value(hexstr@[k])) is Some,
            bytes@.len() == i / 2,
            forall|j: int| 0 <= j < bytes@.len() ==> bytes@[j] == hex_bytes(hexstr@)[j],
        decreases text@.len() - i,
    {
        let high = hex_value_of(text[i]);
        let low = hex_value_of(text[i + 1]);
        assert(text@[i as int] as char == hexstr@[i as int]);
        assert(text@[i + 1] as char == hexstr@[i + 1]);
        match (high, low) {
            (Some(h), Some(l)) => {
                bytes.push(h * 16 + l);
            },
            _ => {
                return Err(CrypError::InvalidEncoding);
            },
        }
        i += 2;
    }
    assert(bytes@ =~= hex_bytes(hexstr@));
    Ok(bytes)
}

/// Encodes bytes as lower-case hexadecimal text, two digits per byte.
pub fn bytes_to_hexstr(data: &[u8]) -> (hexstr: String)
    ensures
        hexstr@ == hex_text(data@),
{
    let mut hexstr = String::new();
    let mut i: usize = 0;
    while i < data.len()
        invariant
            i <= data@.len(),
            hexstr@.len() == 2 * i,
            forall|k: int| 0 <= k < 2 * i ==> hexstr@[k] == hex_text(data@)[k],
        decreases data@.len() - i,
    {
        let byte = data[i];
        assert(byte >> 4 < 16 && byte & 15 < 16) by (bit_vector);
        hexstr.push(hex_digit_of(byte >> 4));
        hexstr.push(hex_digit_of(byte & 15));
        i += 1;
    }
    assert(hexstr@ =~= hex_text(data@));
    hexstr
}

/// The two digits written for a byte read back as that byte.
proof fn lemma_hex_byte_round_trip(byte: u8)
    ensures
        hex_digit_value(hex_digit(byte >> 4)) == Some(byte >> 4),
        hex_digit_value(hex_digit(byte & 15)) == Some(byte & 15),
        (byte >> 4) * 16 + (byte & 15) == byte,
{
    assert(byte >> 4 < 16 && byte & 15 < 16 && (byte >> 4) * 16 + (byte & 15) == byte)
        by (bit_vector);
}

/// Decoding undoes encoding: the hexadecimal text of any bytes is
/// well formed and decodes to those bytes.
pub proof fn lemma_hex_round_trip(bytes: Seq<u8>)
    ensures
        is_hex_text(hex_text(bytes)),
        hex_bytes(hex_text(bytes)) == bytes,
{
    let text = hex_text(bytes);
    assert forall|k: int| 0 <= k < text.len() implies (#[trigger] hex_digit_value(
        text[k],
    )) is Some by {
        lemma_hex_byte_round_trip(bytes[k / 2]);
    }
    assert forall|i: int| 0 <= i < bytes.len() implies hex_bytes(text)[i] == bytes[i] by {
        lemma_hex_byte_round_trip(bytes[i]);
        assert(text[2 * i] == hex_digit(bytes[i] >> 4));
        assert(text[2 * i + 1] == hex_digit(bytes[i] & 15));
    }
    assert(hex_bytes(text) =~= bytes);
}

} // verus!
