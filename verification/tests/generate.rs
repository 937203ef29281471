use pwgen::{
    apply_requirements, entropy_budget, generate_memorable_password, generate_password,
    generate_passwords, generate_secure_password, inject_class, sample_position, CharClass,
    Config, EntropySource, EntropyUnavailable, AMBIGUOUS, CONSONANTS, RETRY_CEILING, SYMBOLS,
    VOWELS,
};

fn test_config() -> Config {
    Config {
        pw_length: 8,
        num_pw: 1,
        capitalize: true,
        no_capitalize: false,
        numerals: true,
        no_numerals: false,
        symbols: false,
        remove_chars: None,
        secure: false,
        ambiguous: false,
        columns: false,
        no_vowels: false,
        help: false,
    }
}

#[test]
fn test_generate_secure_password() -> Result<(), EntropyUnavailable> {
    let config = test_config();
    let mut mock_rng = EntropySource::new(vec![0, 1, 2, 3, 4, 5, 6, 7]);

    let password = generate_secure_password(8, &config, &mut mock_rng)?;

    assert_eq!(password.len(), 8);
    Ok(())
}

#[test]
fn test_generate_memorable_password_pattern() -> Result<(), EntropyUnavailable> {
    let config = test_config();
    let mut mock_rng = EntropySource::new(vec![0, 0, 0, 0, 0, 0, 0, 0, 0, 0, 0, 0]);

    let password = generate_memorable_password(8, &config, &mut mock_rng)?;

    assert_eq!(password.len(), 8);
    Ok(())
}

#[test]
fn test_generate_memorable_password_no_capitalize() -> Result<(), EntropyUnavailable> {
    let mut config = test_config();
    config.no_capitalize = true;
    let mut mock_rng = EntropySource::new(vec![0, 0, 1, 1, 2, 2, 3, 3, 0, 0]);

    let password = generate_memorable_password(8, &config, &mut mock_rng)?;

    assert!(!password.chars().any(|c| c.is_uppercase()));
    Ok(())
}

#[test]
fn test_generate_password_no_vowels() -> Result<(), EntropyUnavailable> {
    let mut config = test_config();
    config.no_vowels = true;
    let mut mock_rng = EntropySource::new(vec![0, 1, 2, 3, 4, 5, 6, 7, 8, 9]);

    let password = generate_memorable_password(10, &config, &mut mock_rng)?;

    assert_eq!(password.len(), 10);
    let vowels = "aeiouyAEIOUY";
    assert!(!password.chars().any(|c| vowels.contains(c)));
    Ok(())
}

#[test]
fn test_apply_requirements_adds_capital() -> Result<(), EntropyUnavailable> {
    let mut config = test_config();
    config.no_numerals = true;
    let mut mock_rng = EntropySource::new(vec![0, 0]);

    let password = b"abcdefgh".to_vec();
    let result = apply_requirements(password, &config, &mut mock_rng)?;

    assert!(result.chars().any(|c| c.is_uppercase()));
    Ok(())
}

#[test]
fn test_apply_requirements_adds_numeral() -> Result<(), EntropyUnavailable> {
    let config = test_config();
    let mut mock_rng = EntropySource::new(vec![0, 0, 0, 0, 0, 0]);

    let password = b"abcdefgh".to_vec();
    let result = apply_requirements(password, &config, &mut mock_rng)?;

    assert!(result.chars().any(|c| c.is_ascii_digit()));
    Ok(())
}

#[test]
fn test_apply_requirements_adds_symbol() -> Result<(), EntropyUnavailable> {
    let mut config = test_config();
    config.symbols = true;
    let mut mock_rng = EntropySource::new(vec![0, 0, 0, 0, 0, 0]);

    let password = b"abcdefgh".to_vec();
    let result = apply_requirements(password, &config, &mut mock_rng)?;

    assert!(result.chars().any(|c| SYMBOLS.contains(&(c as u8))));
    Ok(())
}

#[test]
fn secure_password_is_picked_modulo_alphabet_size() {
    let config = test_config();
    // The alphabet has 62 entries: a-z, A-Z, 0-9.
    let mut rng = EntropySource::new(vec![0, 25, 26, 51, 52, 61, 62, 255]);
    let password = generate_secure_password(8, &config, &mut rng).unwrap();
    // 62 % 62 = 0 and 255 % 62 = 7.
    assert_eq!(password, "azAZ09ah");
    assert_eq!(rng.remaining(), 0);
}

#[test]
fn secure_password_leaves_what_it_does_not_draw() {
    let config = test_config();
    let mut rng = EntropySource::new(vec![1, 2, 3, 4, 5]);
    let password = generate_secure_password(3, &config, &mut rng).unwrap();
    assert_eq!(password, "bcd");
    assert_eq!(rng.remaining(), 2);
    assert_eq!(rng.next_byte(), Ok(4));
}

#[test]
fn secure_password_of_length_zero_is_empty() {
    let config = test_config();
    let mut rng = EntropySource::new(vec![]);
    assert_eq!(generate_secure_password(0, &config, &mut rng), Ok(String::new()));
}

#[test]
fn secure_password_fails_when_entropy_runs_out() {
    let config = test_config();
    let mut rng = EntropySource::new(vec![0, 1, 2]);
    assert_eq!(generate_secure_password(4, &config, &mut rng), Err(EntropyUnavailable));
    assert_eq!(rng.remaining(), 0);
}

#[test]
fn secure_password_falls_back_on_empty_alphabet() {
    let mut config = test_config();
    config.no_capitalize = true;
    config.no_numerals = true;
    config.remove_chars = Some(b"abcdefghijklmnopqrstuvwxyz".to_vec());
    let mut rng = EntropySource::new(vec![9, 9]);
    let password = generate_secure_password(5, &config, &mut rng).unwrap();
    assert_eq!(password, "aaaaa");
    assert_eq!(rng.remaining(), 2);
}

#[test]
fn secure_password_without_excluded_vowels() {
    let mut config = test_config();
    config.secure = true;
    config.remove_chars = Some(b"aeiouAEIOU".to_vec());
    for length in [1usize, 8, 40] {
        config.pw_length = length;
        config.num_pw = 7;
        let bytes: Vec<u8> = (0..20_000u32).map(|i| (i * 37 + 11) as u8).collect();
        let mut rng = EntropySource::new(bytes);
        let passwords = generate_passwords(&config, &mut rng).unwrap();
        assert_eq!(passwords.len(), 7);
        for password in passwords {
            assert_eq!(password.len(), length);
            assert!(!password.chars().any(|c| "aeiouAEIOU".contains(c)));
        }
    }
}

#[test]
fn memorable_password_alternates_consonant_and_vowel() {
    let config = test_config();
    let mut rng = EntropySource::new(vec![0, 0, 1, 1, 20, 6, 39, 11, 40, 12]);
    let password = generate_memorable_password(10, &config, &mut rng).unwrap();
    // 40 % 40 = 0 and 12 % 12 = 0.
    assert_eq!(password, "baceBAZYba");
    for (i, c) in password.bytes().enumerate() {
        if i % 2 == 0 {
            assert!(CONSONANTS.contains(&c));
        } else {
            assert!(VOWELS.contains(&c));
        }
    }
    assert_eq!(rng.remaining(), 0);
}

#[test]
fn memorable_password_lowercase_tables() {
    let mut config = test_config();
    config.no_capitalize = true;
    let mut rng = EntropySource::new(vec![0, 0, 1, 1, 2, 2, 3, 3, 0, 0]);
    let password = generate_memorable_password(8, &config, &mut rng).unwrap();
    assert_eq!(password, "bacedifo");
    assert_eq!(rng.remaining(), 2);
}

#[test]
fn memorable_password_retries_rejected_candidates() {
    let mut config = test_config();
    config.remove_chars = Some(b"ba".to_vec());
    // 'b' is rejected twice, then 'c'; 'a' is rejected once, then 'e'.
    let mut rng = EntropySource::new(vec![0, 0, 1, 0, 1]);
    let password = generate_memorable_password(2, &config, &mut rng).unwrap();
    assert_eq!(password, "ce");
    assert_eq!(rng.remaining(), 0);
}

#[test]
fn memorable_password_without_ambiguous_characters() {
    let mut config = test_config();
    config.ambiguous = true;
    let bytes: Vec<u8> = (0..4_000u32).map(|i| (i * 7 + 3) as u8).collect();
    let mut rng = EntropySource::new(bytes);
    for _ in 0..20 {
        let password = generate_password(&config, &mut rng).unwrap();
        assert_eq!(password.len(), 8);
        assert!(!password.bytes().any(|c| AMBIGUOUS.contains(&c)));
    }
}

#[test]
fn sample_position_accepts_after_retry_ceiling() {
    let mut config = test_config();
    config.remove_chars = Some(b"b".to_vec());
    let draws = RETRY_CEILING + 1;
    let mut rng = EntropySource::new(vec![0; draws + 3]);
    assert_eq!(sample_position(&CONSONANTS, &config, &mut rng), Ok(b'b'));
    assert_eq!(rng.remaining(), 3);
}

#[test]
fn sample_position_fails_before_retry_ceiling() {
    let mut config = test_config();
    config.remove_chars = Some(b"b".to_vec());
    let mut rng = EntropySource::new(vec![0; RETRY_CEILING]);
    assert_eq!(sample_position(&CONSONANTS, &config, &mut rng), Err(EntropyUnavailable));
    assert_eq!(rng.remaining(), 0);
}

#[test]
fn sample_position_takes_first_accepted_candidate() {
    let mut config = test_config();
    config.ambiguous = true;
    // 'l' (index 8) and 'B' (index 20) are ambiguous, 'k' (index 7) is not.
    let mut rng = EntropySource::new(vec![8, 20, 7, 1]);
    assert_eq!(sample_position(&CONSONANTS, &config, &mut rng), Ok(b'k'));
    assert_eq!(rng.remaining(), 1);
}

#[test]
fn memorable_password_fails_when_entropy_runs_out() {
    let config = test_config();
    let mut rng = EntropySource::new(vec![0, 0, 0]);
    assert_eq!(generate_memorable_password(4, &config, &mut rng), Err(EntropyUnavailable));
    assert_eq!(rng.remaining(), 0);
}

#[test]
fn requirements_position_is_taken_modulo_length() {
    let mut config = test_config();
    config.symbols = true;
    // uppercase 'C' at 3, digit '4' at 10 % 8 = 2, symbol '#' at 7.
    let mut rng = EntropySource::new(vec![2, 3, 4, 10, 2, 7]);
    let result = apply_requirements(b"abcdefgh".to_vec(), &config, &mut rng).unwrap();
    assert_eq!(result, "ab4Cefg#");
    assert_eq!(rng.remaining(), 0);
}

#[test]
fn requirements_later_step_may_overwrite_earlier_one() {
    let config = test_config();
    let mut rng = EntropySource::new(vec![0, 0, 0, 0]);
    let result = apply_requirements(b"a".to_vec(), &config, &mut rng).unwrap();
    assert_eq!(result, "0");
}

#[test]
fn requirements_leave_compliant_password_alone() {
    let mut config = test_config();
    config.symbols = true;
    let mut rng = EntropySource::new(vec![1, 2, 3]);
    let result = apply_requirements(b"aB3$efgh".to_vec(), &config, &mut rng).unwrap();
    assert_eq!(result, "aB3$efgh");
    assert_eq!(rng.remaining(), 3);
    let again = apply_requirements(result.into_bytes(), &config, &mut rng).unwrap();
    assert_eq!(again, "aB3$efgh");
    assert_eq!(rng.remaining(), 3);
}

#[test]
fn requirements_skip_wholly_excluded_class() {
    let mut config = test_config();
    config.no_capitalize = true;
    config.remove_chars = Some(b"0123456789".to_vec());
    let mut rng = EntropySource::new(vec![]);
    let result = apply_requirements(b"abcdefgh".to_vec(), &config, &mut rng).unwrap();
    assert_eq!(result, "abcdefgh");
}

#[test]
fn requirements_filter_the_injected_class() {
    let mut config = test_config();
    config.ambiguous = true;
    config.symbols = true;
    config.remove_chars = Some(b"AC!".to_vec());
    // uppercase pool starts "EFH", digit pool is "3479", symbol pool starts "\"#".
    let mut rng = EntropySource::new(vec![0, 0, 1, 1, 0, 2]);
    let result = apply_requirements(b"abcdefgh".to_vec(), &config, &mut rng).unwrap();
    assert_eq!(result, "E4\"defgh");
}

#[test]
fn requirements_never_add_forbidden_uppercase() {
    let mut config = test_config();
    config.no_capitalize = true;
    config.symbols = true;
    let mut rng = EntropySource::new(vec![5, 1, 6, 2]);
    let result = apply_requirements(b"abcdefgh".to_vec(), &config, &mut rng).unwrap();
    assert_eq!(result, "a5'defgh");
    assert!(!result.chars().any(|c| c.is_uppercase()));
}

#[test]
fn requirements_fail_when_entropy_runs_out() {
    let config = test_config();
    let mut rng = EntropySource::new(vec![0, 0, 0]);
    assert_eq!(
        apply_requirements(b"abcdefgh".to_vec(), &config, &mut rng),
        Err(EntropyUnavailable)
    );
    assert_eq!(rng.remaining(), 0);
}

#[test]
fn inject_class_overwrites_one_position() {
    let config = test_config();
    let mut password = b"abcdefgh".to_vec();
    let mut rng = EntropySource::new(vec![27, 13]);
    assert_eq!(inject_class(&mut password, CharClass::Upper, &config, &mut rng), Ok(()));
    // 27 % 26 = 1 and 13 % 8 = 5.
    assert_eq!(password, b"abcdeBgh".to_vec());
    let mut rng = EntropySource::new(vec![]);
    assert_eq!(inject_class(&mut password, CharClass::Upper, &config, &mut rng), Ok(()));
    assert_eq!(inject_class(&mut password, CharClass::Symbol, &config, &mut rng), Ok(()));
    assert_eq!(
        inject_class(&mut password, CharClass::Digit, &config, &mut rng),
        Err(EntropyUnavailable)
    );
}

#[test]
fn default_run_gives_pattern_then_required_classes() {
    let config = test_config();
    let bytes = vec![0, 0, 1, 1, 2, 2, 3, 3, 0, 0, 0, 1];
    let mut rng = EntropySource::new(bytes.clone());
    let pattern = generate_memorable_password(8, &config, &mut rng).unwrap();
    assert_eq!(pattern, "bacedifo");

    let mut rng = EntropySource::new(bytes);
    let passwords = generate_passwords(&config, &mut rng).unwrap();
    assert_eq!(passwords, vec!["A0cedifo".to_string()]);
    assert_eq!(passwords[0].len(), 8);
    assert!(passwords[0].chars().any(|c| c.is_ascii_uppercase()));
    assert!(passwords[0].chars().any(|c| c.is_ascii_digit()));
}

#[test]
fn secure_run_injects_required_classes() {
    let mut config = test_config();
    config.secure = true;
    config.pw_length = 4;
    let mut rng = EntropySource::new(vec![0, 1, 2, 3, 25, 2, 9, 3]);
    let password = generate_password(&config, &mut rng).unwrap();
    assert_eq!(password, "abZ9");
}

#[test]
fn run_draws_passwords_from_one_stream() {
    let mut config = test_config();
    config.no_capitalize = true;
    config.no_numerals = true;
    config.pw_length = 2;
    config.num_pw = 3;
    let mut rng = EntropySource::new(vec![0, 0, 1, 1, 2, 2, 7]);
    let passwords = generate_passwords(&config, &mut rng).unwrap();
    assert_eq!(passwords, vec!["ba".to_string(), "ce".to_string(), "di".to_string()]);
    assert_eq!(rng.remaining(), 1);
}

#[test]
fn run_of_no_passwords_draws_nothing() {
    let mut config = test_config();
    config.num_pw = 0;
    let mut rng = EntropySource::new(vec![1, 2, 3]);
    assert_eq!(generate_passwords(&config, &mut rng), Ok(Vec::new()));
    assert_eq!(rng.remaining(), 3);
}

#[test]
fn run_fails_as_a_whole_when_entropy_runs_out() {
    let mut config = test_config();
    config.no_capitalize = true;
    config.no_numerals = true;
    config.pw_length = 2;
    config.num_pw = 3;
    let mut rng = EntropySource::new(vec![0, 0, 1, 1, 2]);
    assert_eq!(generate_passwords(&config, &mut rng), Err(EntropyUnavailable));
}

#[test]
fn entropy_budget_covers_retries_and_injection() {
    let config = test_config();
    assert_eq!(entropy_budget(&config), Some(8 * 101 + 6));
    let mut config = test_config();
    config.pw_length = usize::MAX / 2;
    assert_eq!(entropy_budget(&config), None);
}

#[test]
fn entropy_budget_is_enough_for_the_worst_stream() {
    let mut config = test_config();
    config.pw_length = 3;
    config.symbols = true;
    config.remove_chars = Some(b"ba".to_vec());
    let budget = entropy_budget(&config).unwrap();
    let mut rng = EntropySource::new(vec![0; budget]);
    let password = generate_password(&config, &mut rng).unwrap();
    assert_eq!(password, "!ab");
    assert_eq!(rng.remaining(), 0);
}

#[test]
fn entropy_source_hands_out_bytes_in_order() {
    let mut rng = EntropySource::new(vec![7, 8]);
    assert_eq!(rng.remaining(), 2);
    assert_eq!(rng.next_byte(), Ok(7));
    rng.supply(&[9, 10]);
    assert_eq!(rng.remaining(), 3);
    assert_eq!(rng.next_byte(), Ok(8));
    assert_eq!(rng.next_byte(), Ok(9));
    assert_eq!(rng.next_byte(), Ok(10));
    assert_eq!(rng.next_byte(), Err(EntropyUnavailable));
    assert_eq!(rng.remaining(), 0);
}

#[test]
fn secure_password_without_forbidden_uppercase() {
    let mut config = test_config();
    config.no_capitalize = true;
    let bytes: Vec<u8> = (0..=255u8).collect();
    let mut rng = EntropySource::new(bytes);
    let password = generate_secure_password(256, &config, &mut rng).unwrap();
    assert_eq!(password.len(), 256);
    assert!(!password.chars().any(|c| c.is_ascii_uppercase()));
    // The alphabet has 36 entries: a-z, 0-9.
    assert_eq!(&password[..40], "abcdefghijklmnopqrstuvwxyz0123456789abcd");
}

#[test]
fn generators_give_the_requested_length() {
    let config = test_config();
    for length in [0usize, 1, 2, 7, 8, 33] {
        let mut rng = EntropySource::new(vec![3; length]);
        let secure = generate_secure_password(length, &config, &mut rng).unwrap();
        assert_eq!(secure.len(), length);
        let mut rng = EntropySource::new(vec![3; length]);
        let memorable = generate_memorable_password(length, &config, &mut rng).unwrap();
        assert_eq!(memorable.len(), length);
    }
}

#[test]
fn requirements_leave_compliant_password_alone_without_entropy() {
    let mut config = test_config();
    config.symbols = true;
    let mut rng = EntropySource::new(vec![]);
    assert_eq!(
        apply_requirements(b"Z9~".to_vec(), &config, &mut rng),
        Ok("Z9~".to_string())
    );
    assert_eq!(rng.remaining(), 0);
}

#[test]
fn requirements_accept_empty_password_when_nothing_is_required() {
    let mut config = test_config();
    config.no_capitalize = true;
    config.no_numerals = true;
    let mut rng = EntropySource::new(vec![4, 5]);
    assert_eq!(apply_requirements(Vec::new(), &config, &mut rng), Ok(String::new()));
    assert_eq!(rng.remaining(), 2);
}
