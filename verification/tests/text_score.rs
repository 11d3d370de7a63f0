use cryp::{
    analyze_string, character_frequency, is_valid_str, is_valid_text, score_text, TextProfile,
    TextScore,
};

#[test]
fn score_of_nothing_is_zero() {
    let score = score_text(&[]);
    assert_eq!(score, TextScore { plausible: 0, total: 0 });
    assert_eq!(score.percent(), 0);
}

#[test]
fn score_of_a_greeting() {
    let score = score_text(b"Hello, world!");
    assert_eq!(score, TextScore { plausible: 11, total: 13 });
    assert_eq!(score.percent(), 84);
    assert!(score.percent() > 50);
}

#[test]
fn score_counts_letters_digits_and_spaces() {
    assert_eq!(score_text(b"azAZ09 ").plausible, 7);
    assert_eq!(score_text(b"azAZ09 ").percent(), 100);
    assert_eq!(score_text(b"`{@[/:\t\n\x00\x7f\x80\xff").plausible, 0);
    assert_eq!(score_text(b"`{@[/:\t\n\x00\x7f\x80\xff").percent(), 0);
}

#[test]
fn score_rounds_down_to_whole_percent() {
    assert_eq!(score_text(b"ab!").percent(), 66);
    assert_eq!(score_text(b"a!!").percent(), 33);
    assert_eq!(score_text(b"a!").percent(), 50);
    assert_eq!(score_text(b"aaaaaa!").percent(), 85);
}

#[test]
fn scores_compare_as_fractions() {
    let half = score_text(b"a!");
    let two_thirds = score_text(b"ab!");
    let other_half = score_text(b"ab!!");
    let nothing = score_text(b"");
    let none = score_text(b"!!!");
    assert!(half.is_below(&two_thirds));
    assert!(!two_thirds.is_below(&half));
    assert!(!half.is_below(&other_half));
    assert!(!other_half.is_below(&half));
    assert!(nothing.is_below(&half));
    assert!(!nothing.is_below(&none));
    assert!(!none.is_below(&nothing));
    assert!(!half.is_below(&half));
}

#[test]
fn scores_that_differ_by_less_than_a_percent_compare() {
    let a = score_text(&[b"a".repeat(200), b"!".repeat(100)].concat());
    let b = score_text(&[b"a".repeat(201), b"!".repeat(99)].concat());
    assert_eq!(a.percent(), 66);
    assert_eq!(b.percent(), 67);
    let c = score_text(&[b"a".repeat(2000), b"!".repeat(1000)].concat());
    let d = score_text(&[b"a".repeat(2001), b"!".repeat(999)].concat());
    assert_eq!(c.percent(), d.percent());
    assert!(c.is_below(&d));
    assert!(!d.is_below(&c));
}

#[test]
fn plain_words_pass_for_english() {
    assert!(is_valid_text(b"hello world"));
    assert!(is_valid_text(b"aaaaaaaaaaaaaaaaaaaaa!"));
    assert!(is_valid_text(b"aaaaaaa bb"));
}

#[test]
fn nothing_does_not_pass_for_english() {
    assert!(!is_valid_text(b""));
    assert!(!is_valid_str(""));
}

#[test]
fn the_thresholds_are_inclusive() {
    // 7 letters, 2 spaces and 1 symbol out of 10: each share sits on its limit.
    assert!(is_valid_text(b"aaaaaaa!  "));
    assert!(is_valid_str("aaaaaaa!  "));
    // One letter less, or one space or one symbol more, and it fails.
    assert!(!is_valid_text(b"aaaaaa!!  "));
    assert!(!is_valid_text(b"aaaaaaa   "));
    assert!(!is_valid_text(b"aaaaaaab!!"));
}

#[test]
fn digits_and_punctuation_are_symbols() {
    assert!(!is_valid_text(b"1234567890"));
    assert!(!is_valid_text(b"Hello, World!"));
}

#[test]
fn bytes_that_are_not_text_count_three_times() {
    // Twenty letters and one byte that is no UTF-8: the byte is replaced by
    // a character of three bytes, which makes 3 symbols out of 23.
    assert!(!is_valid_text(b"aaaaaaaaaaaaaaaaaaaa\xff"));
    // The same with a symbol of one byte passes.
    assert!(is_valid_text(b"aaaaaaaaaaaaaaaaaaaa!"));
    assert!(!is_valid_text(b"\xff"));
}

#[test]
fn bytes_are_classified_as_the_text_they_encode() {
    for text in ["hello world", "", "Hello, World!", "aaaaaaa!  ", "aaaaaaaaaé", "a b c d e f"] {
        assert_eq!(is_valid_text(text.as_bytes()), is_valid_str(text));
    }
}

#[test]
fn wide_characters_weigh_by_their_bytes() {
    // Nine letters and one letter with an accent, which is no ASCII letter
    // and takes two bytes: 9 letters out of 11 bytes, 2 bytes of symbols.
    assert!(!is_valid_str("aaaaaaaaaé"));
    // Two ideographic spaces of three bytes each after 37 letters: 2 spaces
    // and 4 further bytes out of 43.
    assert!(is_valid_str("aaaaaaaaaaaaaaaaaaaaaaaaaaaaaaaaaaaaa\u{3000}\u{3000}"));
}

#[test]
fn a_text_is_profiled() {
    assert_eq!(
        analyze_string("Hello, World!\n"),
        TextProfile { letters: 10, spaces: 2, total: 14 }
    );
    assert_eq!(analyze_string(""), TextProfile { letters: 0, spaces: 0, total: 0 });
    assert_eq!(
        analyze_string("é\u{a0}z"),
        TextProfile { letters: 1, spaces: 1, total: 5 }
    );
}

#[test]
fn a_profile_passes_or_fails_the_thresholds() {
    assert!(TextProfile { letters: 7, spaces: 2, total: 10 }.is_valid());
    assert!(TextProfile { letters: 10, spaces: 0, total: 10 }.is_valid());
    assert!(!TextProfile { letters: 6, spaces: 2, total: 10 }.is_valid());
    assert!(!TextProfile { letters: 7, spaces: 3, total: 10 }.is_valid());
    assert!(!TextProfile { letters: 7, spaces: 1, total: 10 }.is_valid());
    assert!(!TextProfile { letters: 0, spaces: 0, total: 0 }.is_valid());
}

#[test]
fn every_character_is_classed_as_the_standard_library_does() {
    let mut buffer = [0u8; 4];
    for code in 0..=0x10ffffu32 {
        if let Some(c) = char::from_u32(code) {
            let profile = analyze_string(c.encode_utf8(&mut buffer));
            assert_eq!(profile.letters, usize::from(c.is_ascii_alphabetic()));
            assert_eq!(profile.spaces, usize::from(c.is_whitespace()));
            assert_eq!(profile.total, c.len_utf8());
        }
    }
}

#[test]
fn letters_are_counted_without_regard_to_case() {
    let freq = character_frequency(b"Hello, World!");
    assert_eq!(freq.len(), 7);
    assert_eq!(freq.get(&b'h'), Some(&1));
    assert_eq!(freq.get(&b'e'), Some(&1));
    assert_eq!(freq.get(&b'l'), Some(&3));
    assert_eq!(freq.get(&b'o'), Some(&2));
    assert_eq!(freq.get(&b'w'), Some(&1));
    assert_eq!(freq.get(&b'r'), Some(&1));
    assert_eq!(freq.get(&b'd'), Some(&1));
    assert_eq!(freq.get(&b'H'), None);
    assert_eq!(freq.get(&b','), None);
}

#[test]
fn bytes_that_are_no_letters_are_not_counted() {
    assert!(character_frequency(b"").is_empty());
    assert!(character_frequency(b"0123 ,.;!?@[`{\x00\xff\xc1\xe1").is_empty());
}

#[test]
fn every_letter_is_counted_in_both_cases() {
    let freq = character_frequency(b"The Quick Brown Fox Jumps Over The Lazy Dog zzZ");
    assert_eq!(freq.len(), 26);
    assert_eq!(freq.get(&b't'), Some(&2));
    assert_eq!(freq.get(&b'o'), Some(&4));
    assert_eq!(freq.get(&b'z'), Some(&4));
    assert_eq!(freq.get(&b'e'), Some(&3));
    let total: usize = freq.values().sum();
    assert_eq!(total, 38);
}
