use pwgen::{
    build_charset, Config, AMBIGUOUS, CONSONANTS, CONSONANTS_LOWER, LOWERCASE, NUMERALS, SYMBOLS,
    UPPERCASE, VOWELS, VOWELS_LOWER,
};

fn test_config() -> Config {
    Config {
        pw_length: 8,
        num_pw: 1,
        capitalize: true,
        no_capitalize: false,
        numerals: true,
        no_numerals: false,
        symbols: false,
        remove_chars: None,
        secure: false,
        ambiguous: false,
        columns: false,
        no_vowels: false,
        help: false,
    }
}

#[test]
fn test_build_charset_default() {
    let config = Config::default();
    let charset = build_charset(&config);

    assert!(charset.contains(&b'a'));
    assert!(charset.contains(&b'A'));
    assert!(charset.contains(&b'1'));
    assert!(!charset.contains(&b'!'));
}

#[test]
fn test_build_charset_no_capitalize() {
    let mut config = test_config();
    config.no_capitalize = true;
    let charset = build_charset(&config);

    assert!(charset.contains(&b'a'));
    assert!(!charset.contains(&b'A'));
}

#[test]
fn test_build_charset_no_numerals() {
    let mut config = test_config();
    config.no_numerals = true;
    let charset = build_charset(&config);

    assert!(!charset.iter().any(|&c| c.is_ascii_digit()));
}

#[test]
fn test_build_charset_symbols() {
    let mut config = test_config();
    config.symbols = true;
    let charset = build_charset(&config);

    assert!(charset.contains(&b'!'));
    assert!(charset.contains(&b'@'));
}

#[test]
fn test_build_charset_ambiguous() {
    let mut config = test_config();
    config.ambiguous = true;
    let charset = build_charset(&config);

    assert!(!charset.contains(&b'0'));
    assert!(!charset.contains(&b'O'));
    assert!(!charset.contains(&b'1'));
    assert!(!charset.contains(&b'l'));
}

#[test]
fn test_build_charset_no_vowels() {
    let mut config = test_config();
    config.no_vowels = true;
    let charset = build_charset(&config);

    assert!(!charset.contains(&b'a'));
    assert!(!charset.contains(&b'e'));
    assert!(!charset.contains(&b'i'));
    assert!(!charset.contains(&b'o'));
    assert!(!charset.contains(&b'u'));
    assert!(!charset.contains(&b'A'));
    assert!(!charset.contains(&b'E'));
    assert!(!charset.contains(&b'I'));
    assert!(!charset.contains(&b'O'));
    assert!(!charset.contains(&b'U'));
}

#[test]
fn test_build_charset_remove_chars() {
    let mut config = test_config();
    config.remove_chars = Some(b"aeiouAEIOU".to_vec());
    let charset = build_charset(&config);

    assert!(!charset.contains(&b'a'));
    assert!(!charset.contains(&b'A'));
}

#[test]
fn test_charset_constants() {
    assert!(!LOWERCASE.is_empty());
    assert!(!UPPERCASE.is_empty());
    assert!(!NUMERALS.is_empty());
    assert!(!SYMBOLS.is_empty());
    assert!(!VOWELS.is_empty());
    assert!(!AMBIGUOUS.is_empty());
    assert!(!CONSONANTS.is_empty());
    assert!(!CONSONANTS_LOWER.is_empty());
    assert!(!VOWELS_LOWER.is_empty());
}

#[test]
fn tables_spell_their_characters() {
    assert_eq!(&LOWERCASE[..], b"abcdefghijklmnopqrstuvwxyz");
    assert_eq!(&UPPERCASE[..], b"ABCDEFGHIJKLMNOPQRSTUVWXYZ");
    assert_eq!(&NUMERALS[..], b"0123456789");
    assert_eq!(&SYMBOLS[..], b"!\"#$%&'()*+,-./:;<=>?@[\\]^_`{|}~");
    assert_eq!(&VOWELS[..], b"aeiouyAEIOUY");
    assert_eq!(&AMBIGUOUS[..], b"B8G6I1l0OQDS5Z2");
    assert_eq!(&CONSONANTS[..], b"bcdfghjklmnpqrstvwxzBCDFGHJKLMNPQRSTVWXZ");
    assert_eq!(&CONSONANTS_LOWER[..], b"bcdfghjklmnpqrstvwxz");
    assert_eq!(&VOWELS_LOWER[..], b"aeiouy");
}

#[test]
fn charset_keeps_class_order() {
    let mut config = test_config();
    config.symbols = true;
    let charset = build_charset(&config);
    let mut expected = Vec::new();
    expected.extend_from_slice(&LOWERCASE);
    expected.extend_from_slice(&UPPERCASE);
    expected.extend_from_slice(&NUMERALS);
    expected.extend_from_slice(&SYMBOLS);
    assert_eq!(charset, expected);
}

#[test]
fn charset_forbid_wins_over_require() {
    let mut config = test_config();
    config.capitalize = true;
    config.no_capitalize = true;
    config.numerals = true;
    config.no_numerals = true;
    assert_eq!(build_charset(&config), LOWERCASE.to_vec());
}

#[test]
fn charset_applies_every_exclusion() {
    let mut config = test_config();
    config.ambiguous = true;
    config.no_vowels = true;
    config.remove_chars = Some(b"bcd9".to_vec());
    let charset = build_charset(&config);
    assert_eq!(String::from_utf8(charset).unwrap(), "fghjkmnpqrstvwxzCFHJKLMNPRTVWX347");
}

#[test]
fn charset_may_be_empty() {
    let mut config = test_config();
    config.no_capitalize = true;
    config.no_numerals = true;
    config.remove_chars = Some(LOWERCASE.to_vec());
    assert!(build_charset(&config).is_empty());
}
