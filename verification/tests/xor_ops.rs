use cryp::{bytes_to_hexstr, hexstr_to_bytes, xor_fixed, xor_one_byte, xor_repeating, CrypError};

#[test]
fn xor_fixed_of_four_bytes() {
    let data = vec![0x1c, 0x01, 0x11, 0x00];
    let key = vec![0x1f, 0x01, 0x01, 0x00];
    assert_eq!(xor_fixed(&data, &key), Ok(vec![0x03, 0x00, 0x10, 0x00]));
}

#[test]
fn xor_fixed_known_vector() {
    let a = hexstr_to_bytes("1c0111001f010100061a024b53535009181c").unwrap();
    let b = hexstr_to_bytes("686974207468652062756c6c277320657965").unwrap();
    let xored = xor_fixed(&a, &b).unwrap();
    assert_eq!(bytes_to_hexstr(&xored), "746865206b696420646f6e277420706c6179");
    assert_eq!(xored, b"the kid don't play".to_vec());
}

#[test]
fn xor_fixed_rejects_unequal_lengths() {
    assert_eq!(xor_fixed(&[1, 2, 3], &[1, 2]), Err(CrypError::LengthMismatch));
    assert_eq!(xor_fixed(&[], &[0]), Err(CrypError::LengthMismatch));
    assert_eq!(xor_fixed(&[0], &[]), Err(CrypError::LengthMismatch));
}

#[test]
fn xor_fixed_of_nothing() {
    assert_eq!(xor_fixed(&[], &[]), Ok(vec![]));
}

#[test]
fn xor_fixed_twice_restores_the_data() {
    let data: Vec<u8> = (0..=255u8).collect();
    let key: Vec<u8> = (0..=255u8).map(|b| b.wrapping_mul(7).wrapping_add(3)).collect();
    let once = xor_fixed(&data, &key).unwrap();
    assert_ne!(once, data);
    assert_eq!(xor_fixed(&once, &key), Ok(data));
}

#[test]
fn xor_one_byte_of_hello() {
    assert_eq!(xor_one_byte(b"Hello", 42), vec![0x62, 0x4f, 0x46, 0x46, 0x45]);
    assert_eq!(xor_one_byte(b"Hello", 0), b"Hello".to_vec());
    assert_eq!(xor_one_byte(&[], 42), Vec::<u8>::new());
}

#[test]
fn xor_one_byte_twice_restores_the_data() {
    let data: Vec<u8> = (0..=255u8).collect();
    for key in [0u8, 1, 0x20, 0x7f, 0x80, 0xff] {
        assert_eq!(xor_one_byte(&xor_one_byte(&data, key), key), data);
    }
}

#[test]
fn xor_repeating_known_vector() {
    let s = "Burning 'em, if you ain't quick and nimble\nI go crazy when I hear a cymbal";
    let result = xor_repeating(s.as_bytes(), "ICE".as_bytes());
    assert_eq!(
        bytes_to_hexstr(&result),
        "0b3637272a2b2e63622c2e69692a23693a2a3c6324202d623d63343c2a26226324272765272a282b2f20430a652e2c652a3124333a653e2b2027630c692b20283165286326302e27282f"
    );
}

#[test]
fn xor_repeating_cycles_through_the_key() {
    assert_eq!(
        xor_repeating(&[0, 0, 0, 0, 0, 0, 0], &[1, 2, 3]),
        vec![1, 2, 3, 1, 2, 3, 1]
    );
    assert_eq!(xor_repeating(&[0xff, 0xff], &[1, 2, 3]), vec![0xfe, 0xfd]);
    assert_eq!(xor_repeating(&[5, 6, 7], &[5]), vec![0, 3, 2]);
}

#[test]
fn xor_repeating_of_nothing() {
    assert_eq!(xor_repeating(&[], &[1, 2, 3]), Vec::<u8>::new());
    assert_eq!(xor_repeating(&[], &[]), Vec::<u8>::new());
}

#[test]
fn xor_repeating_twice_restores_the_data() {
    let data: Vec<u8> = (0..=255u8).rev().collect();
    for key in [&b"ICE"[..], &b"k"[..], &b"a longer key than usual"[..], &[0u8, 255, 128][..]] {
        let once = xor_repeating(&data, key);
        assert_eq!(once.len(), data.len());
        assert_eq!(xor_repeating(&once, key), data);
    }
}

#[test]
fn xor_repeating_with_a_key_as_long_as_the_data_is_xor_fixed() {
    let data = b"attack at dawn";
    let key = b"qwertyuiopasdf";
    assert_eq!(Ok(xor_repeating(data, key)), xor_fixed(data, key));
}
