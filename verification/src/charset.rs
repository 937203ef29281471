//! The fixed character tables, the classes they define, and the alphabet
//! that a configuration allows.

use vstd::prelude::*;
use crate::config::{Config, Settings};

verus! {

/// `a` to `z`.
pub const LOWERCASE: [u8; 26] = [
    97, 98, 99, 100, 101, 102, 103, 104, 105, 106, 107, 108, 109,
    110, 111, 112, 113, 114, 115, 116, 117, 118, 119, 120, 121, 122,
];

/// `A` to `Z`.
pub const UPPERCASE: [u8; 26] = [
    65, 66, 67, 68, 69, 70, 71, 72, 73, 74, 75, 76, 77,
    78, 79, 80, 81, 82, 83, 84, 85, 86, 87, 88, 89, 90,
];

/// `0` to `9`.
pub const NUMERALS: [u8; 10] = [48, 49, 50, 51, 52, 53, 54, 55, 56, 57];

/// The 32 punctuation characters of ASCII, in code order.
pub const SYMBOLS: [u8; 32] = [
    33, 34, 35, 36, 37, 38, 39, 40, 41, 42, 43, 44, 45, 46, 47,
    58, 59, 60, 61, 62, 63, 64,
    91, 92, 93, 94, 95, 96,
    123, 124, 125, 126,
];

/// `aeiouyAEIOUY`.
pub const VOWELS: [u8; 12] = [97, 101, 105, 111, 117, 121, 65, 69, 73, 79, 85, 89];

/// `B8G6I1l0OQDS5Z2`: characters that are easily taken for another.
pub const AMBIGUOUS: [u8; 15] = [66, 56, 71, 54, 73, 49, 108, 48, 79, 81, 68, 83, 53, 90, 50];

/// `bcdfghjklmnpqrstvwxz` followed by `BCDFGHJKLMNPQRSTVWXZ`.
pub const CONSONANTS: [u8; 40] = [
    98, 99, 100, 102, 103, 104, 106, 107, 108, 109,
    110, 112, 113, 114, 115, 116, 118, 119, 120, 122,
    66, 67, 68, 70, 71, 72, 74, 75, 76, 77,
    78, 80, 81, 82, 83, 84, 86, 87, 88, 90,
];

/// `bcdfghjklmnpqrstvwxz`.
pub const CONSONANTS_LOWER: [u8; 20] = [
    98, 99, 100, 102, 103, 104, 106, 107, 108, 109,
    110, 112, 113, 114, 115, 116, 118, 119, 120, 122,
];

/// `aeiouy`.
pub const VOWELS_LOWER: [u8; 6] = [97, 101, 105, 111, 117, 121];

/// A lowercase letter of ASCII.
pub open spec fn is_lower(b: u8) -> bool {
    'a' as u8 <= b <= 'z' as u8
}

/// An uppercase letter of ASCII.
pub open spec fn is_upper(b: u8) -> bool {
    'A' as u8 <= b <= 'Z' as u8
}

/// A decimal digit.
pub open spec fn is_digit(b: u8) -> bool {
    '0' as u8 <= b <= '9' as u8
}

/// A punctuation character of ASCII.
pub open spec fn is_symbol(b: u8) -> bool {
    ||| '!' as u8 <= b <= '/' as u8
    ||| ':' as u8 <= b <= '@' as u8
    ||| '[' as u8 <= b <= '`' as u8
    ||| '{' as u8 <= b <= '~' as u8
}

/// One of `VOWELS`.
pub open spec fn is_vowel(b: u8) -> bool {
    VOWELS@.contains(b)
}

/// One of `AMBIGUOUS`.
pub open spec fn is_ambiguous(b: u8) -> bool {
    AMBIGUOUS@.contains(b)
}

/// One of `CONSONANTS`.
pub open spec fn is_consonant(b: u8) -> bool {
    CONSONANTS@.contains(b)
}

/// Whether `b` occurs in `list`.
pub fn contains_byte(list: &[u8], b: u8) -> (r: bool)
    ensures
        r == list@.contains(b),
{
    let mut i: usize = 0;
    while i < list.len()
        invariant
            i <= list@.len(),
            forall|j: int| 0 <= j < i ==> list@[j] != b,
        decreases list@.len() - i,
    {
        if list[i] == b {
            return true;
        }
        i += 1;
    }
    false
}

/// Whether `b` is an uppercase letter.
pub fn is_upper_byte(b: u8) -> (r: bool)
    ensures
        r == is_upper(b),
{
    65 <= b && b <= 90
}

/// Whether `b` is a decimal digit.
pub fn is_digit_byte(b: u8) -> (r: bool)
    ensures
        r == is_digit(b),
{
    48 <= b && b <= 57
}

/// Whether `b` is a punctuation character.
pub fn is_symbol_byte(b: u8) -> (r: bool)
    ensures
        r == is_symbol(b),
        r == SYMBOLS@.contains(b),
{
    proof {
        lemma_class_tables();
    }
    contains_byte(&SYMBOLS, b)
}

/// The byte is barred from being sampled: it is on the user's exclusion
/// list, or it is ambiguous while ambiguous characters are excluded.
pub open spec fn rejected(cfg: Settings, b: u8) -> bool {
    cfg.excludes(b) || (cfg.ambiguous && is_ambiguous(b))
}

/// The byte passes every exclusion rule that is in force.
pub open spec fn admitted(cfg: Settings, b: u8) -> bool {
    !rejected(cfg, b) && !(cfg.no_vowels && is_vowel(b))
}

/// The classes that take part in the alphabet, one after the other, before
/// any exclusion: lowercase always, then uppercase, digits and symbols as
/// far as each is enabled.
pub open spec fn enabled_classes(cfg: Settings) -> Seq<u8> {
    LOWERCASE@ + (if cfg.wants_upper() {
        UPPERCASE@
    } else {
        Seq::empty()
    }) + (if cfg.wants_digit() {
        NUMERALS@
    } else {
        Seq::empty()
    }) + (if cfg.wants_symbol() {
        SYMBOLS@
    } else {
        Seq::empty()
    })
}

/// The alphabet of a configuration: the enabled classes in order, without
/// the bytes that an exclusion rule bars.
pub open spec fn charset(cfg: Settings) -> Seq<u8> {
    enabled_classes(cfg).filter(|b: u8| admitted(cfg, b))
}

/// Whether the byte is on the user's exclusion list.
pub fn is_excluded(config: &Config, b: u8) -> (r: bool)
    ensures
        r == config@.excludes(b),
{
    match &config.remove_chars {
        Some(list) => contains_byte(list.as_slice(), b),
        None => false,
    }
}

/// Whether the byte is barred from being sampled.
pub fn is_rejected(config: &Config, b: u8) -> (r: bool)
    ensures
        r == rejected(config@, b),
{
    is_excluded(config, b) || (config.ambiguous && contains_byte(&AMBIGUOUS, b))
}

/// Whether the byte passes every exclusion rule that is in force.
pub fn is_admitted(config: &Config, b: u8) -> (r: bool)
    ensures
        r == admitted(config@, b),
{
    !is_rejected(config, b) && !(config.no_vowels && contains_byte(&VOWELS, b))
}

/// Builds the alphabet that uniform sampling draws from.
///
/// The result may be empty, when the exclusions bar every candidate.
pub fn build_charset(config: &Config) -> (r: Vec<u8>)
    ensures
        r@ == charset(config@),
        forall|i: int| 0 <= i < r@.len() ==> admitted(config@, #[trigger] r@[i]),
        forall|b: u8| r@.contains(b) <==> enabled_classes(config@).contains(b) && admitted(config@, b),
{
    let mut pool: Vec<u8> = Vec::new();
    pool.extend_from_slice(&LOWERCASE);
    if config.wants_upper() {
        pool.extend_from_slice(&UPPERCASE);
    }
    if config.wants_digit() {
        pool.extend_from_slice(&NUMERALS);
    }
    if config.symbols {
        pool.extend_from_slice(&SYMBOLS);
    }
    assert(pool@ =~= enabled_classes(config@));
    let ghost keep = |b: u8| admitted(config@, b);
    let mut out: Vec<u8> = Vec::new();
    let mut i: usize = 0;
    while i < pool.len()
        invariant
            i <= pool@.len(),
            keep == |b: u8| admitted(config@, b),
            out@ == pool@.take(i as int).filter(keep),
        decreases pool@.len() - i,
    {
        let b = pool[i];
        proof {
            assert(pool@.take(i + 1) =~= pool@.take(i as int).push(b));
            pool@.take(i as int).lemma_filter_push(b, keep);
        }
        if is_admitted(config, b) {
            out.push(b);
        }
        i += 1;
    }
    proof {
        assert(pool@.take(i as int) =~= pool@);
        lemma_charset_members(config@);
    }
    out
}

/// Every byte of the alphabet passes every exclusion rule, and the
/// alphabet holds exactly the admitted bytes of the enabled classes: no
/// byte of the exclusion list, no ambiguous byte where those are excluded,
/// no vowel where those are excluded.
pub proof fn lemma_charset_members(cfg: Settings)
    ensures
        forall|i: int| 0 <= i < charset(cfg).len() ==> admitted(cfg, #[trigger] charset(cfg)[i]),
        forall|b: u8| charset(cfg).contains(b) <==> enabled_classes(cfg).contains(b) && admitted(cfg, b),
        forall|b: u8| charset(cfg).contains(b) ==> !cfg.excludes(b),
        forall|b: u8| charset(cfg).contains(b) && cfg.ambiguous ==> !is_ambiguous(b),
        forall|b: u8| charset(cfg).contains(b) && cfg.no_vowels ==> !is_vowel(b),
{
    let keep = |b: u8| admitted(cfg, b);
    let all = enabled_classes(cfg);
    assert forall|i: int| 0 <= i < charset(cfg).len() implies admitted(cfg, #[trigger] charset(cfg)[i]) by {
        all.lemma_filter_pred(keep, i);
    }
    assert forall|b: u8| charset(cfg).contains(b) <==> all.contains(b) && admitted(cfg, b) by {
        if charset(cfg).contains(b) {
            let i = choose|i: int| 0 <= i < charset(cfg).len() && charset(cfg)[i] == b;
            all.lemma_filter_pred(keep, i);
            all.lemma_filter_contains_rev(keep, b);
        }
        if all.contains(b) && admitted(cfg, b) {
            let i = choose|i: int| 0 <= i < all.len() && all[i] == b;
            all.lemma_filter_contains(keep, i);
        }
    }
}

/// The entry of `alphabet` that a random byte selects: the one at the
/// byte's value modulo the alphabet's size.
pub open spec fn pick(alphabet: Seq<u8>, byte: u8) -> u8 {
    alphabet[(byte as int) % (alphabet.len() as int)]
}

/// Selects the entry of `alphabet` that `byte` stands for.
pub fn pick_byte(alphabet: &[u8], byte: u8) -> (r: u8)
    requires
        alphabet@.len() > 0,
    ensures
        r == pick(alphabet@, byte),
        alphabet@.contains(r),
{
    let index = (byte as usize) % alphabet.len();
    alphabet[index]
}

/// Every byte of the class tables is an ASCII character of its class.
pub proof fn lemma_class_tables()
    ensures
        forall|b: u8| #[trigger] LOWERCASE@.contains(b) <==> is_lower(b),
        forall|b: u8| #[trigger] UPPERCASE@.contains(b) <==> is_upper(b),
        forall|b: u8| #[trigger] NUMERALS@.contains(b) <==> is_digit(b),
        forall|b: u8| #[trigger] SYMBOLS@.contains(b) <==> is_symbol(b),
{
    assert forall|b: u8| #[trigger] LOWERCASE@.contains(b) <==> is_lower(b) by {
        if is_lower(b) {
            assert(LOWERCASE@[b - 97] == b);
        }
    }
    assert forall|b: u8| #[trigger] UPPERCASE@.contains(b) <==> is_upper(b) by {
        if is_upper(b) {
            assert(UPPERCASE@[b - 65] == b);
        }
    }
    assert forall|b: u8| #[trigger] NUMERALS@.contains(b) <==> is_digit(b) by {
        if is_digit(b) {
            assert(NUMERALS@[b - 48] == b);
        }
    }
    assert forall|b: u8| #[trigger] SYMBOLS@.contains(b) <==> is_symbol(b) by {
        if is_symbol(b) {
            let k: int = if b <= 47 {
                b - 33
            } else if b <= 64 {
                b - 58 + 15
            } else if b <= 96 {
                b - 91 + 22
            } else {
                b - 123 + 28
            };
            assert(SYMBOLS@[k] == b);
        }
    }
}

/// The tables of the pronounceable pattern: consonants and vowels are
/// letters, no consonant is a vowel, and the lowercase tables are the
/// lowercase parts of the full ones.
pub proof fn lemma_pattern_tables()
    ensures
        forall|b: u8| #[trigger] CONSONANTS@.contains(b) ==> (is_lower(b) || is_upper(b)) && !is_vowel(b),
        forall|b: u8| #[trigger] VOWELS@.contains(b) ==> is_lower(b) || is_upper(b),
        forall|b: u8| #[trigger] CONSONANTS_LOWER@.contains(b) <==> CONSONANTS@.contains(b) && is_lower(b),
        forall|b: u8| #[trigger] VOWELS_LOWER@.contains(b) <==> VOWELS@.contains(b) && is_lower(b),
{
    assert forall|b: u8| #[trigger] CONSONANTS_LOWER@.contains(b) <==> CONSONANTS@.contains(b) && is_lower(b) by {
        if CONSONANTS_LOWER@.contains(b) {
            let j = choose|j: int| 0 <= j < 20 && CONSONANTS_LOWER@[j] == b;
            assert(CONSONANTS@[j] == b);
        }
        if CONSONANTS@.contains(b) && is_lower(b) {
            let j = choose|j: int| 0 <= j < 40 && CONSONANTS@[j] == b;
            assert(CONSONANTS_LOWER@[j] == b);
        }
    }
    assert forall|b: u8| #[trigger] VOWELS_LOWER@.contains(b) <==> VOWELS@.contains(b) && is_lower(b) by {
        if VOWELS_LOWER@.contains(b) {
            let j = choose|j: int| 0 <= j < 6 && VOWELS_LOWER@[j] == b;
            assert(VOWELS@[j] == b);
        }
        if VOWELS@.contains(b) && is_lower(b) {
            let j = choose|j: int| 0 <= j < 12 && VOWELS@[j] == b;
            assert(VOWELS_LOWER@[j] == b);
        }
    }
}

/// Every byte of the alphabet belongs to a class that is enabled.
pub proof fn lemma_charset_classes(cfg: Settings)
    ensures
        forall|b: u8| #[trigger]
            charset(cfg).contains(b) ==> {
                ||| is_lower(b)
                ||| cfg.wants_upper() && is_upper(b)
                ||| cfg.wants_digit() && is_digit(b)
                ||| cfg.wants_symbol() && is_symbol(b)
            },
{
    lemma_class_tables();
    lemma_charset_members(cfg);
    assert forall|b: u8| #[trigger] charset(cfg).contains(b) implies {
        ||| is_lower(b)
        ||| cfg.wants_upper() && is_upper(b)
        ||| cfg.wants_digit() && is_digit(b)
        ||| cfg.wants_symbol() && is_symbol(b)
    } by {
        let all = enabled_classes(cfg);
        assert(all.contains(b));
        let i = choose|i: int| 0 <= i < all.len() && all[i] == b;
        let upper = if cfg.wants_upper() { UPPERCASE@ } else { Seq::empty() };
        let digit = if cfg.wants_digit() { NUMERALS@ } else { Seq::empty() };
        let symbol = if cfg.wants_symbol() { SYMBOLS@ } else { Seq::empty() };
        if i < 26 {
            assert(LOWERCASE@[i] == b);
        } else if i < 26 + upper.len() {
            assert(upper[i - 26] == b);
        } else if i < 26 + upper.len() + digit.len() {
            assert(digit[i - 26 - upper.len()] == b);
        } else {
            assert(symbol[i - 26 - upper.len() - digit.len()] == b);
        }
    }
}

} // verus!
