//! How much a byte string looks like English text: a numeric score, a
//! stricter yes-or-no classifier, and the frequencies of letters.

use std::collections::HashMap;
use vstd::prelude::*;
use vstd::std_specs::hash::group_hash_axioms;
use vstd::std_specs::iter::IteratorSpec;
use vstd::string::*;
use vstd::utf8::{decode_utf8, encode_utf8, valid_utf8};

verus! {

/// A byte that counts towards the score: an ASCII letter, an ASCII digit
/// or the space.
pub open spec fn is_plausible_byte(b: u8) -> bool {
    (48 <= b <= 57) || (65 <= b <= 90) || (97 <= b <= 122) || b == 32
}

/// The number of plausible bytes in `data`.
pub open spec fn plausible_count(data: Seq<u8>) -> nat
    decreases data.len(),
{
    if data.len() == 0 {
        0
    } else {
        plausible_count(data.drop_last()) + if is_plausible_byte(data.last()) {
            1nat
        } else {
            0nat
        }
    }
}

/// The score of a byte string is the fraction `score_numerator /
/// score_denominator`: a hundred times the share of plausible bytes.
pub open spec fn score_numerator(data: Seq<u8>) -> int {
    100 * (plausible_count(data) as int)
}

/// The denominator of the score: the length, and one for the empty string,
/// whose score is thereby zero.
pub open spec fn score_denominator(data: Seq<u8>) -> int {
    if data.len() == 0 {
        1
    } else {
        data.len() as int
    }
}

/// The score of `a` is strictly lower than the score of `b`.
pub open spec fn score_below(a: Seq<u8>, b: Seq<u8>) -> bool {
    score_numerator(a) * score_denominator(b) < score_numerator(b) * score_denominator(a)
}

/// The score of a byte string, kept exact: `plausible` bytes out of `total`.
#[derive(Clone, Copy, Debug, PartialEq, Eq, Structural)]
pub struct TextScore {
    /// How many bytes are ASCII letters, ASCII digits or spaces.
    pub plausible: usize,
    /// How many bytes were scored.
    pub total: usize,
}

impl TextScore {
    /// A hundred times the number of plausible bytes.
    pub open spec fn numerator(self) -> int {
        100 * (self.plausible as int)
    }

    /// The number of bytes scored, and one where none was.
    pub open spec fn denominator(self) -> int {
        if self.total == 0 {
            1
        } else {
            self.total as int
        }
    }

    /// This score is strictly lower than `other`.
    pub open spec fn below(self, other: TextScore) -> bool {
        self.numerator() * other.denominator() < other.numerator() * self.denominator()
    }

    /// A score as scoring produces it: no more plausible bytes than bytes.
    pub open spec fn wf(self) -> bool {
        self.plausible <= self.total
    }

    /// The whole part of the score: `100 * plausible / total` rounded
    /// down, and zero where nothing was scored.
    pub fn percent(&self) -> (whole: usize)
        requires
            self.wf(),
        ensures
            whole == self.numerator() / self.denominator(),
            whole <= 100,
    {
        if self.total == 0 {
            return 0;
        }
        let wide: u128 = 100 * (self.plausible as u128);
        let whole: u128 = wide / (self.total as u128);
        assert(whole <= 100) by (nonlinear_arith)
            requires
                whole == wide / (self.total as u128),
                wide <= 100 * self.total,
                self.total >= 1,
        ;
        whole as usize
    }

    /// Whether this score is strictly lower than `other`, compared as
    /// fractions.
    pub fn is_below(&self, other: &TextScore) -> (lower: bool)
        ensures
            lower == self.below(*other),
    {
        let own_total: u128 = if self.total == 0 {
            1
        } else {
            self.total as u128
        };
        let other_total: u128 = if other.total == 0 {
            1
        } else {
            other.total as u128
        };
        assert((self.plausible as u128) * other_total <= 0xffff_ffff_ffff_ffff
            * 0xffff_ffff_ffff_ffff) by (nonlinear_arith)
            requires
                self.plausible <= 0xffff_ffff_ffff_ffff,
                other_total <= 0xffff_ffff_ffff_ffff,
        ;
        assert((other.plausible as u128) * own_total <= 0xffff_ffff_ffff_ffff
            * 0xffff_ffff_ffff_ffff) by (nonlinear_arith)
            requires
                other.plausible <= 0xffff_ffff_ffff_ffff,
                own_total <= 0xffff_ffff_ffff_ffff,
        ;
        let left: u128 = (self.plausible as u128) * other_total;
        let right: u128 = (other.plausible as u128) * own_total;
        assert((left < right) == (100 * self.plausible * other_total < 100 * other.plausible
            * own_total)) by (nonlinear_arith)
            requires
                left == self.plausible * other_total,
                right == other.plausible * own_total,
        ;
        left < right
    }
}

/// Scores a byte string: the share of its bytes that are ASCII letters,
/// ASCII digits or spaces, as a fraction of a hundred. The empty string
/// scores zero.
pub fn score_text(data: &[u8]) -> (score: TextScore)
    ensures
        score.plausible == plausible_count(data@),
        score.total == data@.len(),
        score.numerator() == score_numerator(data@),
        score.denominator() == score_denominator(data@),
        score.wf(),
        data@.len() == 0 ==> score.numerator() == 0,
{
    let mut plausible: usize = 0;
    let mut i: usize = 0;
    while i < data.len()
        invariant
            i <= data@.len(),
            plausible == plausible_count(data@.take(i as int)),
            plausible <= i,
        decreases data@.len() - i,
    {
        assert(data@.take(i + 1).drop_last() =~= data@.take(i as int));
        let b = data[i];
        if (48 <= b && b <= 57) || (65 <= b && b <= 90) || (97 <= b && b <= 122) || b == 32 {
            plausible += 1;
        }
        i += 1;
    }
    assert(data@.take(data@.len() as int) =~= data@);
    TextScore { plausible, total: data.len() }
}

/// A score lies between zero and a hundred.
pub proof fn lemma_score_range(data: Seq<u8>)
    ensures
        0 <= score_numerator(data) <= 100 * score_denominator(data),
        plausible_count(data) <= data.len(),
    decreases data.len(),
{
    if data.len() > 0 {
        lemma_score_range(data.drop_last());
    }
}

/// Among byte strings of one length the score orders as the number of
/// plausible bytes does.
pub proof fn lemma_score_order_at_equal_length(a: Seq<u8>, b: Seq<u8>)
    requires
        a.len() == b.len(),
    ensures
        score_below(a, b) <==> plausible_count(a) < plausible_count(b),
{
    let d = score_denominator(a);
    let x = plausible_count(a) as int;
    let y = plausible_count(b) as int;
    assert((100 * x * d < 100 * y * d) <==> x < y) by (nonlinear_arith)
        requires
            d >= 1,
    ;
}

/// Every character takes at least one byte in UTF-8.
pub proof fn lemma_utf8_len(chars: Seq<char>)
    ensures
        chars.len() <= encode_utf8(chars).len(),
    decreases chars.len(),
{
    if chars.len() > 0 {
        lemma_utf8_len(chars.drop_first());
    }
}

/// An ASCII letter, in either case.
pub open spec fn is_letter_char(c: char) -> bool {
    ('a' <= c <= 'z') || ('A' <= c <= 'Z')
}

/// A character with the Unicode property `White_Space`.
pub open spec fn is_whitespace_char(c: char) -> bool {
    let v = c as u32;
    (0x09 <= v <= 0x0d) || v == 0x20 || v == 0x85 || v == 0xa0 || v == 0x1680 || (0x2000 <= v
        <= 0x200a) || v == 0x2028 || v == 0x2029 || v == 0x202f || v == 0x205f || v == 0x3000
}

/// The number of ASCII letters in `text`.
pub open spec fn letter_count(text: Seq<char>) -> nat
    decreases text.len(),
{
    if text.len() == 0 {
        0
    } else {
        letter_count(text.drop_last()) + if is_letter_char(text.last()) {
            1nat
        } else {
            0nat
        }
    }
}

/// The number of whitespace characters in `text`.
pub open spec fn whitespace_count(text: Seq<char>) -> nat
    decreases text.len(),
{
    if text.len() == 0 {
        0
    } else {
        whitespace_count(text.drop_last()) + if is_whitespace_char(text.last()) {
            1nat
        } else {
            0nat
        }
    }
}

/// What the classifier looks at in a text: how many letters and how many
/// whitespace characters it holds, and how many bytes it takes in UTF-8.
#[derive(Clone, Copy, Debug, PartialEq, Eq, Structural)]
pub struct TextProfile {
    /// The number of ASCII letters.
    pub letters: usize,
    /// The number of whitespace characters.
    pub spaces: usize,
    /// The length of the text in bytes.
    pub total: usize,
}

impl TextProfile {
    /// The thresholds of the classifier, on shares of `total`: letters make up
    /// at least 70 %, whitespace at most 20 %, and everything else at most
    /// 10 %. An empty text has no shares and does not pass.
    pub open spec fn passes(self) -> bool {
        &&& self.total > 0
        &&& 10 * self.letters >= 7 * self.total
        &&& 10 * self.spaces <= 2 * self.total
        &&& 10 * (self.total - self.letters - self.spaces) <= self.total
    }

    /// Applies the thresholds of the classifier.
    pub fn is_valid(&self) -> (valid: bool)
        ensures
            valid == self.passes(),
    {
        let letters: u128 = self.letters as u128;
        let spaces: u128 = self.spaces as u128;
        let total: u128 = self.total as u128;
        total > 0 && 10 * letters >= 7 * total && 10 * spaces <= 2 * total && 9 * total <= 10 * (
        letters + spaces)
    }
}

/// Whether a text passes for English: see [`TextProfile::passes`].
pub open spec fn looks_like_english(text: Seq<char>) -> bool {
    let total = encode_utf8(text).len();
    &&& total > 0
    &&& 10 * letter_count(text) >= 7 * total
    &&& 10 * whitespace_count(text) <= 2 * total
    &&& 10 * (total - letter_count(text) - whitespace_count(text)) <= total
}

fn is_letter(c: char) -> (letter: bool)
    ensures
        letter == is_letter_char(c),
{
    (c >= 'a' && c <= 'z') || (c >= 'A' && c <= 'Z')
}

fn is_whitespace(c: char) -> (space: bool)
    ensures
        space == is_whitespace_char(c),
{
    let v: u32 = c as u32;
    (0x09 <= v && v <= 0x0d) || v == 0x20 || v == 0x85 || v == 0xa0 || v == 0x1680 || (0x2000 <= v
        && v <= 0x200a) || v == 0x2028 || v == 0x2029 || v == 0x202f || v == 0x205f || v == 0x3000
}

/// Counts the letters and the whitespace of a text, and its bytes.
pub fn analyze_string(s: &str) -> (profile: TextProfile)
    ensures
        profile.letters == letter_count(s@),
        profile.spaces == whitespace_count(s@),
        profile.total == encode_utf8(s@).len(),
        profile.passes() == looks_like_english(s@),
{
    broadcast use group_string_axioms;

    let total = s.as_bytes().len();
    proof {
        lemma_utf8_len(s@);
    }
    let mut chars = s.chars();
    let mut letters: usize = 0;
    let mut spaces: usize = 0;
    let ghost mut seen: nat = 0;
    loop
        invariant_except_break
            chars.remaining() == s@.skip(seen as int),
        invariant
            seen <= s@.len() <= total,
            letters == letter_count(s@.take(seen as int)),
            spaces == whitespace_count(s@.take(seen as int)),
            letters <= seen,
            spaces <= seen,
        ensures
            seen == s@.len(),
            letters == letter_count(s@.take(seen as int)),
            spaces == whitespace_count(s@.take(seen as int)),
        decreases s@.len() - seen,
    {
        let next = chars.next();
        if next.is_none() {
            break;
        }
        let c = next.unwrap();
        proof {
            assert(s@.skip(seen as int).drop_first() =~= s@.skip(seen as int + 1));
            assert(s@.take(seen as int + 1).drop_last() =~= s@.take(seen as int));
            assert(s@.take(seen as int + 1).last() == c);
        }
        if is_letter(c) {
            letters += 1;
        }
        if is_whitespace(c) {
            spaces += 1;
        }
        proof {
            seen = seen + 1;
        }
    }
    assert(s@.take(s@.len() as int) =~= s@);
    TextProfile { letters, spaces, total }
}

/// Whether a text passes for English: at least 70 % letters, at most 20 %
/// whitespace and at most 10 % anything else, each as a share of the
/// text's length in bytes.
pub fn is_valid_str(text: &str) -> (valid: bool)
    ensures
        valid == looks_like_english(text@),
{
    analyze_string(text).is_valid()
}

/// The text that `String::from_utf8_lossy` makes of a byte string: the
/// bytes decoded as UTF-8, with U+FFFD in place of what does not decode.
pub uninterp spec fn utf8_lossy(bytes: Seq<u8>) -> Seq<char>;

/// Calls `String::from_utf8_lossy`. The text it returns depends on the
/// bytes alone and is named `utf8_lossy`; bytes that are valid UTF-8 come
/// back as the text they encode, unchanged.
#[verifier::external_body]
fn decode_lossy(bytes: &[u8]) -> (text: String)
    ensures
        text@ == utf8_lossy(bytes@),
        valid_utf8(bytes@) ==> text@ == decode_utf8(bytes@),
{
    String::from_utf8_lossy(bytes).into_owned()
}

/// Whether a byte string, read as text, passes for English.
///
/// The bytes are decoded leniently, so that bytes which are no valid
/// UTF-8 count as symbols; the text is then classified by
/// [`is_valid_str`].
pub fn is_valid_text(s: &[u8]) -> (valid: bool)
    ensures
        valid == looks_like_english(utf8_lossy(s@)),
        valid_utf8(s@) ==> valid == looks_like_english(decode_utf8(s@)),
{
    let text = decode_lossy(s);
    is_valid_str(text.as_str())
}

/// The lower-case form of an ASCII letter; any other byte is itself.
pub open spec fn lower_case(b: u8) -> u8 {
    if 65 <= b <= 90 {
        (b + 32) as u8
    } else {
        b
    }
}

/// An ASCII lower-case letter.
pub open spec fn is_lower_letter(b: u8) -> bool {
    97 <= b <= 122
}

/// How often `letter` occurs in `data`, in either case.
pub open spec fn occurrences(data: Seq<u8>, letter: u8) -> nat
    decreases data.len(),
{
    if data.len() == 0 {
        0
    } else {
        occurrences(data.drop_last(), letter) + if lower_case(data.last()) == letter {
            1nat
        } else {
            0nat
        }
    }
}

/// A letter occurs at most once for each byte.
pub proof fn lemma_occurrences_bound(data: Seq<u8>, letter: u8)
    ensures
        occurrences(data, letter) <= data.len(),
    decreases data.len(),
{
    if data.len() > 0 {
        lemma_occurrences_bound(data.drop_last(), letter);
    }
}

/// Counts the ASCII letters of `data` without regard to case.
///
/// The result maps each lower-case letter that occurs, in either case, to
/// the number of its occurrences, and holds no other key. Bytes that are
/// no ASCII letters are passed over.
pub fn character_frequency(data: &[u8]) -> (freq: HashMap<u8, usize>)
    ensures
        forall|letter: u8| #[trigger]
            freq@.contains_key(letter) <==> is_lower_letter(letter) && occurrences(data@, letter)
                > 0,
        forall|letter: u8| #[trigger]
            freq@.contains_key(letter) ==> freq@[letter] == occurrences(data@, letter),
{
    broadcast use group_hash_axioms;

    let mut freq: HashMap<u8, usize> = HashMap::new();
    let mut i: usize = 0;
    while i < data.len()
        invariant
            i <= data@.len(),
            forall|letter: u8| #[trigger]
                freq@.contains_key(letter) <==> is_lower_letter(letter) && occurrences(
                    data@.take(i as int),
                    letter,
                ) > 0,
            forall|letter: u8| #[trigger]
                freq@.contains_key(letter) ==> freq@[letter] == occurrences(
                    data@.take(i as int),
                    letter,
                ),
        decreases data@.len() - i,
    {
        assert(data@.take(i + 1).drop_last() =~= data@.take(i as int));
        let byte = data[i];
        let lower: u8 = if 65 <= byte && byte <= 90 {
            byte + 32
        } else {
            byte
        };
        if 97 <= lower && lower <= 122 {
            let seen: usize = match freq.get(&lower) {
                Some(count) => *count,
                None => 0,
            };
            proof {
                lemma_occurrences_bound(data@.take(i as int), lower);
            }
            freq.insert(lower, seen + 1);
        }
        i += 1;
    }
    assert(data@.take(data@.len() as int) =~= data@);
    freq
}

} // verus!
