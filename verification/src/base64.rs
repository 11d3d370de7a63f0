//! Base64 with the standard alphabet and `=` padding.
//!
//! Three bytes are written as four characters of six bits each. A final
//! group of one or two bytes is filled with zero bits and closed with two
//! or one `=`.

use crate::errors::CrypError;
use vstd::prelude::*;
use vstd::string::*;
use vstd::utf8::is_ascii_chars;

verus! {

/// The character that stands for a six-bit value: `A-Z`, `a-z`, `0-9`, `+`, `/`.
pub open spec fn base64_char(value: u8) -> char {
    if value < 26 {
        (value + 65) as u8 as char
    } else if value < 52 {
        (value + 71) as u8 as char
    } else if value < 62 {
        (value - 4) as u8 as char
    } else if value == 62 {
        '+'
    } else {
        '/'
    }
}

/// The six-bit value of a character of the alphabet; `None` for every
/// other character, the padding character `=` included.
pub open spec fn base64_value(c: char) -> Option<u8> {
    if 'A' <= c <= 'Z' {
        Some((c as u8 - 65) as u8)
    } else if 'a' <= c <= 'z' {
        Some((c as u8 - 71) as u8)
    } else if '0' <= c <= '9' {
        Some((c as u8 + 4) as u8)
    } else if c == '+' {
        Some(62u8)
    } else if c == '/' {
        Some(63u8)
    } else {
        None
    }
}

/// Byte `i` of `data`, and zero past its end.
pub open spec fn byte_or_zero(data: Seq<u8>, i: int) -> u8 {
    if 0 <= i < data.len() {
        data[i]
    } else {
        0
    }
}

/// The `k`-th group of six bits of `data`, read as one string of bits and
/// continued with zeros.
pub open spec fn sextet(data: Seq<u8>, k: int) -> u8 {
    let first = 3 * (k / 4);
    if k % 4 == 0 {
        byte_or_zero(data, first) >> 2
    } else if k % 4 == 1 {
        ((byte_or_zero(data, first) & 3) << 4) | (byte_or_zero(data, first + 1) >> 4)
    } else if k % 4 == 2 {
        ((byte_or_zero(data, first + 1) & 15) << 2) | (byte_or_zero(data, first + 2) >> 6)
    } else {
        byte_or_zero(data, first + 2) & 63
    }
}

/// The Base64 text of `data`: four characters for every three bytes begun.
/// Character `k` encodes the `k`-th sextet as long as that sextet holds a
/// bit of `data`; the characters after it are padding.
pub open spec fn base64_text(data: Seq<u8>) -> Seq<char> {
    Seq::new(
        4 * ((data.len() + 2) / 3),
        |k: int|
            if 3 * k < 4 * data.len() {
                base64_char(sextet(data, k))
            } else {
                '='
            },
    )
}

/// How many `=` close the text: two, one or none. More than two are never
/// counted as padding.
pub open spec fn base64_padding(text: Seq<char>) -> int {
    if text.len() >= 2 && text[text.len() - 1] == '=' && text[text.len() - 2] == '=' {
        2
    } else if text.len() >= 1 && text[text.len() - 1] == '=' {
        1
    } else {
        0
    }
}

/// Text that decodes: its length is a multiple of four, and every
/// character before the closing padding belongs to the alphabet.
pub open spec fn is_base64_text(text: Seq<char>) -> bool {
    &&& text.len() % 4 == 0
    &&& forall|k: int|
        0 <= k < text.len() - base64_padding(text) ==> (#[trigger] base64_value(text[k])) is Some
}

/// The six-bit value at position `k` of the text, zero for padding.
pub open spec fn sextet_of_text(text: Seq<char>, k: int) -> u8 {
    match base64_value(text[k]) {
        Some(value) => value,
        None => 0,
    }
}

/// Byte `j` of what the text stands for.
pub open spec fn octet(text: Seq<char>, j: int) -> u8 {
    let first = 4 * (j / 3);
    if j % 3 == 0 {
        (sextet_of_text(text, first) << 2) | (sextet_of_text(text, first + 1) >> 4)
    } else if j % 3 == 1 {
        ((sextet_of_text(text, first + 1) & 15) << 4) | (sextet_of_text(text, first + 2) >> 2)
    } else {
        ((sextet_of_text(text, first + 2) & 3) << 6) | sextet_of_text(text, first + 3)
    }
}

/// The bytes that well-formed Base64 text stands for: three for every four
/// characters, less one for each padding character. Bits of the last
/// character that reach past the last byte are ignored.
pub open spec fn base64_bytes(text: Seq<char>) -> Seq<u8> {
    Seq::new((3 * (text.len() / 4) - base64_padding(text)) as nat, |j: int| octet(text, j))
}

/// The six bits that start `offset` bits into the two bytes `from`, the
/// first byte being the more significant.
pub open spec fn six_bits_at(from: (u8, u8), offset: u8) -> u8 {
    (((((from.0 as u16) << 8) | (from.1 as u16)) >> ((10 - offset) as u16)) & 63) as u8
}

/// Cuts six bits out of a pair of bytes, starting `offset` bits from the top.
pub fn collect_six_bits(from: (u8, u8), offset: u8) -> (bits: u8)
    requires
        offset <= 10,
    ensures
        bits == six_bits_at(from, offset),
        bits < 64,
{
    let high: u8 = from.0;
    let low: u8 = from.1;
    let combined: u16 = ((high as u16) << 8) | (low as u16);
    let bits: u8 = ((combined & (0b1111110000000000u16 >> offset)) >> (10 - offset)) as u8;
    assert(bits == (((((high as u16) << 8) | (low as u16)) >> ((10 - offset) as u16)) & 63) as u8
        && bits < 64) by (bit_vector)
        requires
            offset <= 10,
            combined == ((high as u16) << 8) | (low as u16),
            bits == ((combined & (0b1111110000000000u16 >> offset)) >> ((10 - offset) as u8)) as u8,
    ;
    bits
}

fn base64_char_of(value: u8) -> (c: char)
    requires
        value < 64,
    ensures
        c == base64_char(value),
{
    if value < 26 {
        (value + 65) as char
    } else if value < 52 {
        (value + 71) as char
    } else if value < 62 {
        (value - 4) as char
    } else if value == 62 {
        '+'
    } else {
        '/'
    }
}

fn base64_value_of(b: u8) -> (value: Option<u8>)
    requires
        b < 128,
    ensures
        value == base64_value(b as char),
        value matches Some(v) ==> v < 64,
{
    if 65 <= b && b <= 90 {
        Some(b - 65)
    } else if 97 <= b && b <= 122 {
        Some(b - 71)
    } else if 48 <= b && b <= 57 {
        Some(b + 4)
    } else if b == 43 {
        Some(62)
    } else if b == 47 {
        Some(63)
    } else {
        None
    }
}

/// How the six bits cut at each offset relate to the bytes they come from.
proof fn lemma_six_bits(high: u8, low: u8)
    ensures
        six_bits_at((high, low), 0) == high >> 2,
        six_bits_at((high, low), 6) == ((high & 3) << 4) | (low >> 4),
        six_bits_at((high, low), 4) == ((high & 15) << 2) | (low >> 6),
        six_bits_at((high, low), 2) == high & 63,
{
    assert((((((high as u16) << 8) | (low as u16)) >> 10u16) & 63) as u8 == high >> 2)
        by (bit_vector);
    assert((((((high as u16) << 8) | (low as u16)) >> 4u16) & 63) as u8 == ((high & 3) << 4) | (low
        >> 4)) by (bit_vector);
    assert((((((high as u16) << 8) | (low as u16)) >> 6u16) & 63) as u8 == ((high & 15) << 2) | (low
        >> 6)) by (bit_vector);
    assert((((((high as u16) << 8) | (low as u16)) >> 8u16) & 63) as u8 == high & 63)
        by (bit_vector);
}

/// Encodes bytes as Base64 text with `=` padding.
pub fn base64_encode(data: &[u8]) -> (encoded: String)
    ensures
        encoded@ == base64_text(data@),
{
    let mut encoded = String::new();
    let mut index: usize = 0;
    let mut offset: u8 = 0;
    let ghost mut count: int = 0;
    while index < data.len()
        invariant
            index <= data@.len(),
            offset == 0 || offset == 2 || offset == 4 || offset == 6,
            8 * index + offset == 6 * count,
            0 <= count,
            encoded@.len() == count,
            index == data@.len() ==> 3 * count >= 4 * data@.len(),
            3 * count < 4 * data@.len() + 3,
            forall|k: int| 0 <= k < count ==> encoded@[k] == base64_text(data@)[k],
        decreases 4 * (data@.len() - index) + 4 - offset / 2,
    {
        let lower = data[index];
        let upper = if index + 1 == data.len() {
            0u8
        } else {
            data[index + 1]
        };
        let bits = collect_six_bits((lower, upper), offset);
        proof {
            lemma_six_bits(lower, upper);
            assert(upper == byte_or_zero(data@, index + 1));
            assert(lower == byte_or_zero(data@, index as int));
            if offset == 2 {
                assert(count % 4 == 3 && 3 * (count / 4) + 2 == index);
            } else if offset == 4 {
                assert(count % 4 == 2 && 3 * (count / 4) + 1 == index);
            } else if offset == 6 {
                assert(count % 4 == 1 && 3 * (count / 4) == index);
            } else {
                assert(count % 4 == 0 && 3 * (count / 4) == index);
            }
            assert(bits == sextet(data@, count));
            assert(3 * count < 4 * data@.len());
        }
        encoded.push(base64_char_of(bits));
        if offset >= 2 {
            offset -= 2;
            index += 1;
        } else {
            offset += 6;
        }
        proof {
            count = count + 1;
        }
    }
    let padding: usize = if data.len() % 3 == 1 {
        2
    } else if data.len() % 3 == 2 {
        1
    } else {
        0
    };
    let mut written: usize = 0;
    while written < padding
        invariant
            written <= padding <= 2,
            (data@.len() % 3 == 1 && padding == 2) || (data@.len() % 3 == 2 && padding == 1) || (
            data@.len() % 3 == 0 && padding == 0),
            3 * count >= 4 * data@.len(),
            3 * count < 4 * data@.len() + 3,
            encoded@.len() == count + written,
            forall|k: int| 0 <= k < count + written ==> encoded@[k] == base64_text(data@)[k],
        decreases padding - written,
    {
        encoded.push('=');
        written += 1;
    }
    assert(encoded@ =~= base64_text(data@));
    encoded
}

/// Decodes Base64 text into the bytes it stands for.
///
/// Succeeds exactly on text whose length is a multiple of four and whose
/// characters all belong to the alphabet, but for one or two `=` at the
/// very end. Everything else is `InvalidEncoding`.
pub fn base64_decode(data: &str) -> (result: Result<Vec<u8>, CrypError>)
    ensures
        result is Ok <==> is_base64_text(data@),
        result matches Ok(bytes) ==> bytes@ == base64_bytes(data@),
        result is Err ==> result == Err::<Vec<u8>, CrypError>(CrypError::InvalidEncoding),
{
    if !data.is_ascii() {
        proof {
            let k = choose|k: int|
                0 <= k < data@.len() && !('\0' <= #[trigger] data@[k] <= '\u{7f}');
            assert(base64_value(data@[k]) is None);
            assert(data@[k] != '=');
        }
        return Err(CrypError::InvalidEncoding);
    }
    proof {
        broadcast use is_ascii_spec_bytes;

    }
    let text = data.as_bytes();
    let n = text.len();
    if n % 4 != 0 {
        return Err(CrypError::InvalidEncoding);
    }
    let padding: usize = if n >= 2 && text[n - 1] == 61 && text[n - 2] == 61 {
        2
    } else if n >= 1 && text[n - 1] == 61 {
        1
    } else {
        0
    };
    assert(padding == base64_padding(data@)) by {
        if n >= 1 {
            assert(text@[n - 1] as char == data@[n - 1]);
        }
        if n >= 2 {
            assert(text@[n - 2] as char == data@[n - 2]);
        }
    }
    let body = n - padding;
    let mut bytes: Vec<u8> = Vec::new();
    let mut i: usize = 0;
    while i < n
        invariant
            i <= n,
            i % 4 == 0,
            n % 4 == 0,
            n == text@.len(),
            text@.len() == data@.len(),
            padding == base64_padding(data@),
            body == n - padding,
            is_ascii_chars(data@),
            forall|k: int| 0 <= k < text@.len() ==> text@[k] == data@[k] as u8,
            forall|k: int| 0 <= k < i && k < body ==> (#[trigger] base64_value(data@[k])) is Some,
            i < n ==> bytes@.len() == 3 * (i / 4),
            i == n ==> bytes@.len() == 3 * (n / 4) - padding,
            forall|j: int| 0 <= j < bytes@.len() ==> bytes@[j] == octet(data@, j),
        decreases n - i,
    {
        assert(text@[i as int] as char == data@[i as int]);
        assert(text@[i + 1] as char == data@[i + 1]);
        assert(text@[i + 2] as char == data@[i + 2]);
        assert(text@[i + 3] as char == data@[i + 3]);
        let first = base64_value_of(text[i]);
        let second = base64_value_of(text[i + 1]);
        let third = base64_value_of(text[i + 2]);
        let fourth = base64_value_of(text[i + 3]);
        let (v0, v1) = match (first, second) {
            (Some(v0), Some(v1)) => (v0, v1),
            _ => {
                return Err(CrypError::InvalidEncoding);
            },
        };
        let ghost produced = bytes@.len() as int;
        assert(produced / 3 == i / 4 && produced % 3 == 0);
        bytes.push((v0 << 2) | (v1 >> 4));
        let mut v2: u8 = 0;
        if i + 2 < body {
            match third {
                Some(v) => {
                    v2 = v;
                },
                None => {
                    return Err(CrypError::InvalidEncoding);
                },
            }
            assert((produced + 1) / 3 == i / 4 && (produced + 1) % 3 == 1);
            bytes.push(((v1 & 15) << 4) | (v2 >> 2));
        }
        if i + 3 < body {
            match fourth {
                Some(v3) => {
                    assert((produced + 2) / 3 == i / 4 && (produced + 2) % 3 == 2);
                    bytes.push(((v2 & 3) << 6) | v3);
                },
                None => {
                    return Err(CrypError::InvalidEncoding);
                },
            }
        }
        i += 4;
    }
    assert(bytes@ =~= base64_bytes(data@));
    Ok(bytes)
}

/// Every sextet is below 64, and its character reads back as its value.
proof fn lemma_sextet_reads_back(data: Seq<u8>, k: int)
    ensures
        sextet(data, k) < 64,
        base64_value(base64_char(sextet(data, k))) == Some(sextet(data, k)),
        base64_char(sextet(data, k)) != '=',
{
    let first = 3 * (k / 4);
    let b0 = byte_or_zero(data, first);
    let b1 = byte_or_zero(data, first + 1);
    let b2 = byte_or_zero(data, first + 2);
    assert(b0 >> 2 < 64) by (bit_vector);
    assert(((b0 & 3) << 4) | (b1 >> 4) < 64) by (bit_vector);
    assert(((b1 & 15) << 2) | (b2 >> 6) < 64) by (bit_vector);
    assert(b2 & 63 < 64) by (bit_vector);
}

/// Four sextets cut from three bytes put those bytes together again.
proof fn lemma_group_round_trip(b0: u8, b1: u8, b2: u8)
    ensures
        ((b0 >> 2) << 2) | ((((b0 & 3) << 4) | (b1 >> 4)) >> 4) == b0,
        (((((b0 & 3) << 4) | (b1 >> 4)) & 15) << 4) | ((((b1 & 15) << 2) | (b2 >> 6)) >> 2) == b1,
        (((((b1 & 15) << 2) | (b2 >> 6)) & 3) << 6) | (b2 & 63) == b2,
{
    assert(((b0 >> 2) << 2) | ((((b0 & 3) << 4) | (b1 >> 4)) >> 4) == b0) by (bit_vector);
    assert((((((b0 & 3) << 4) | (b1 >> 4)) & 15) << 4) | ((((b1 & 15) << 2) | (b2 >> 6)) >> 2)
        == b1) by (bit_vector);
    assert((((((b1 & 15) << 2) | (b2 >> 6)) & 3) << 6) | (b2 & 63) == b2) by (bit_vector);
}

/// Decoding undoes encoding: the Base64 text of any bytes is well formed
/// and decodes to those bytes.
pub proof fn lemma_base64_round_trip(data: Seq<u8>)
    ensures
        is_base64_text(base64_text(data)),
        base64_bytes(base64_text(data)) == data,
{
    let text = base64_text(data);
    let n = data.len() as int;
    let groups = (n + 2) / 3;
    assert(text.len() == 4 * groups);
    assert forall|k: int| 0 <= k < text.len() && 3 * k < 4 * n implies text[k] != '='
        && base64_value(text[k]) == Some(sextet(data, k)) by {
        lemma_sextet_reads_back(data, k);
    }
    let padding = base64_padding(text);
    if n % 3 == 1 {
        assert(text[text.len() - 1] == '=');
        assert(text[text.len() - 2] == '=');
        assert(padding == 2);
    } else if n % 3 == 2 {
        assert(text[text.len() - 1] == '=');
        assert(3 * (text.len() - 2) < 4 * n);
        assert(text[text.len() - 2] != '=');
        assert(padding == 1);
    } else {
        if n > 0 {
            assert(3 * (text.len() - 1) < 4 * n);
            assert(text[text.len() - 1] != '=');
        }
        assert(padding == 0);
    }
    assert(3 * (text.len() / 4) - padding == n);
    assert forall|k: int| 0 <= k < text.len() - padding implies (#[trigger] base64_value(
        text[k],
    )) is Some by {
        assert(3 * k < 4 * n);
    }
    assert forall|j: int| 0 <= j < n implies octet(text, j) == data[j] by {
        let q = j / 3;
        let b0 = byte_or_zero(data, 3 * q);
        let b1 = byte_or_zero(data, 3 * q + 1);
        let b2 = byte_or_zero(data, 3 * q + 2);
        lemma_group_round_trip(b0, b1, b2);
        assert((4 * q) / 4 == q && (4 * q) % 4 == 0);
        assert((4 * q + 1) / 4 == q && (4 * q + 1) % 4 == 1);
        assert((4 * q + 2) / 4 == q && (4 * q + 2) % 4 == 2);
        assert((4 * q + 3) / 4 == q && (4 * q + 3) % 4 == 3);
        assert(sextet(data, 4 * q) == b0 >> 2);
        assert(sextet(data, 4 * q + 1) == ((b0 & 3) << 4) | (b1 >> 4));
        assert(sextet(data, 4 * q + 2) == ((b1 & 15) << 2) | (b2 >> 6));
        assert(sextet(data, 4 * q + 3) == b2 & 63);
        if j % 3 == 0 {
            assert(sextet_of_text(text, 4 * q) == sextet(data, 4 * q));
            assert(sextet_of_text(text, 4 * q + 1) == sextet(data, 4 * q + 1));
        } else if j % 3 == 1 {
            assert(sextet_of_text(text, 4 * q + 1) == sextet(data, 4 * q + 1));
            assert(sextet_of_text(text, 4 * q + 2) == sextet(data, 4 * q + 2));
        } else {
            assert(sextet_of_text(text, 4 * q + 2) == sextet(data, 4 * q + 2));
            assert(sextet_of_text(text, 4 * q + 3) == sextet(data, 4 * q + 3));
        }
    }
    assert(base64_bytes(text) =~= data);
}

} // verus!
