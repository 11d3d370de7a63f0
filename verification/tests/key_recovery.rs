use cryp::{best_key_byte, column_of, xor_guess_key, xor_repeating};

#[test]
fn columns_take_every_nth_byte() {
    let data = [10, 11, 12, 13, 14, 15, 16, 17];
    assert_eq!(column_of(&data, 3, 0), vec![10, 13, 16]);
    assert_eq!(column_of(&data, 3, 1), vec![11, 14, 17]);
    assert_eq!(column_of(&data, 3, 2), vec![12, 15]);
    assert_eq!(column_of(&data, 1, 0), data.to_vec());
    assert_eq!(column_of(&data, 8, 7), vec![17]);
    assert_eq!(column_of(&data, 100, 3), vec![13]);
}

#[test]
fn columns_past_the_data_are_empty() {
    let data = [10, 11, 12];
    assert_eq!(column_of(&data, 5, 3), Vec::<u8>::new());
    assert_eq!(column_of(&data, 5, 4), Vec::<u8>::new());
    assert_eq!(column_of(&[], 1, 0), Vec::<u8>::new());
    assert_eq!(column_of(&data, 0, 0), Vec::<u8>::new());
}

#[test]
fn columns_near_the_top_of_the_range_do_not_overflow() {
    let data = [10, 11, 12];
    assert_eq!(column_of(&data, usize::MAX, 1), vec![11]);
    assert_eq!(column_of(&data, usize::MAX, usize::MAX), Vec::<u8>::new());
}

#[test]
fn the_key_byte_of_an_empty_column_is_the_largest_printable() {
    assert_eq!(best_key_byte(&[]), b'~');
}

#[test]
fn ties_go_to_the_largest_byte() {
    // Under a key byte c the byte 0 becomes c itself, so every letter,
    // digit and the space score alike; `z` is the largest of them.
    assert_eq!(best_key_byte(&[0]), b'z');
    // A byte that no printable key byte turns into a letter, a digit or a
    // space: all score zero.
    assert_eq!(best_key_byte(&[0x80]), b'~');
}

#[test]
fn the_key_byte_with_the_highest_score_wins() {
    // "A B" under the key byte `X`: only `X` gives three plausible bytes.
    assert_eq!(best_key_byte(&[0x41 ^ 0x58, 0x20 ^ 0x58, 0x42 ^ 0x58]), b'X');
}

#[test]
fn key_of_no_length_is_empty() {
    assert_eq!(xor_guess_key(b"anything", 0), Vec::<u8>::new());
    assert_eq!(xor_guess_key(b"", 0), Vec::<u8>::new());
}

#[test]
fn key_longer_than_the_data_is_filled_with_the_fallback() {
    assert_eq!(xor_guess_key(b"", 2), b"~~".to_vec());
    assert_eq!(xor_guess_key(&[0], 3), b"z~~".to_vec());
}

#[test]
fn key_of_one_byte_over_one_byte() {
    assert_eq!(xor_guess_key(&[0], 1), b"z".to_vec());
}

#[test]
fn key_of_two_bytes_is_recovered_in_order() {
    let plain = b"attack at dawn and hold the bridge until noon";
    let cipher = xor_repeating(plain, b"Zq");
    assert_eq!(xor_guess_key(&cipher, 2), b"Zq".to_vec());
    let swapped = xor_repeating(plain, b"qZ");
    assert_eq!(xor_guess_key(&swapped, 2), b"qZ".to_vec());
}

#[test]
fn key_has_the_requested_length() {
    let cipher = xor_repeating(b"some text that is long enough for a few columns", b"key");
    for size in 0..60 {
        let key = xor_guess_key(&cipher, size);
        assert_eq!(key.len(), size);
        assert!(key.iter().all(|b| (32..=126).contains(b)));
    }
}
