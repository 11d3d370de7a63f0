use cryp::{count_bits, hamming_distance_bit, hamming_distance_char};

#[test]
fn hamming_bits_known_vector() {
    assert_eq!(hamming_distance_bit(b"this is a test", b"wokka wokka!!!"), 37);
}

#[test]
fn hamming_bits_of_one_changed_letter() {
    assert_eq!(hamming_distance_bit(b"hello", b"h3llo"), 4);
}

#[test]
fn hamming_bits_of_two_sentences() {
    assert_eq!(hamming_distance_bit(b"We started dancing", b"We stopped dancing"), 5);
}

#[test]
fn hamming_bits_of_equal_strings_is_zero() {
    assert_eq!(hamming_distance_bit(b"same", b"same"), 0);
    assert_eq!(hamming_distance_bit(b"", b""), 0);
}

#[test]
fn hamming_bits_of_opposite_bytes() {
    assert_eq!(hamming_distance_bit(&[0x00, 0xff, 0x0f], &[0xff, 0x00, 0xf0]), 24);
}

#[test]
fn hamming_bits_stops_at_the_shorter_string() {
    assert_eq!(hamming_distance_bit(&[0xff, 0xff, 0xff], &[0x00]), 8);
    assert_eq!(hamming_distance_bit(&[0x00], &[0xff, 0xff, 0xff]), 8);
    assert_eq!(hamming_distance_bit(b"anything", b""), 0);
}

#[test]
fn hamming_bits_is_symmetric() {
    let a = b"this is a test";
    let b = b"wokka wokka!!!";
    assert_eq!(hamming_distance_bit(a, b), hamming_distance_bit(b, a));
}

#[test]
fn bits_of_a_byte_are_counted() {
    assert_eq!(count_bits(0), 0);
    assert_eq!(count_bits(1), 1);
    assert_eq!(count_bits(0x80), 1);
    assert_eq!(count_bits(0x56), 4);
    assert_eq!(count_bits(0xff), 8);
    for b in 0..=255u8 {
        assert_eq!(count_bits(b), b.count_ones());
    }
}

#[test]
fn hamming_chars_of_one_changed_letter() {
    assert_eq!(hamming_distance_char("hello", "h3llo"), 1);
}

#[test]
fn hamming_chars_of_two_sentences() {
    assert_eq!(hamming_distance_char("We started dancing", "We stopped dancing"), 3);
}

#[test]
fn hamming_chars_stops_at_the_shorter_text() {
    assert_eq!(hamming_distance_char("abc", "abd-and-more"), 1);
    assert_eq!(hamming_distance_char("abcdef", "abc"), 0);
    assert_eq!(hamming_distance_char("", "abc"), 0);
    assert_eq!(hamming_distance_char("", ""), 0);
}

#[test]
fn hamming_chars_counts_characters_not_bytes() {
    assert_eq!(hamming_distance_char("héllo", "hello"), 1);
    assert_eq!(hamming_distance_char("ünïcödé", "unicode"), 4);
    assert_eq!(hamming_distance_char("日本語", "日本人"), 1);
}
