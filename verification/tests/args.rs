use pwgen::{parse_args_from_vec, parse_number, ArgError, Config, DEFAULT_COUNT, DEFAULT_LENGTH};

fn parse(args: &[&str]) -> Result<Config, ArgError> {
    parse_args_from_vec(args.iter().map(|s| s.to_string()).collect())
}

#[test]
fn test_parse_args_default() {
    let args = vec!["pwgen".to_string()];
    let config = parse_args_from_vec(args).unwrap();

    assert_eq!(config.pw_length, DEFAULT_LENGTH);
    assert_eq!(config.num_pw, DEFAULT_COUNT);
    assert!(config.capitalize);
    assert!(config.numerals);
}

#[test]
fn test_parse_args_with_length() {
    let args = vec!["pwgen".to_string(), "12".to_string()];
    let config = parse_args_from_vec(args).unwrap();

    assert_eq!(config.pw_length, 12);
    assert_eq!(config.num_pw, DEFAULT_COUNT);
}

#[test]
fn test_parse_args_with_length_and_count() {
    let args = vec!["pwgen".to_string(), "12".to_string(), "5".to_string()];
    let config = parse_args_from_vec(args).unwrap();

    assert_eq!(config.pw_length, 12);
    assert_eq!(config.num_pw, 5);
}

#[test]
fn test_parse_args_options() {
    let args = vec![
        "pwgen".to_string(),
        "-A".to_string(),
        "-0".to_string(),
        "-y".to_string(),
        "-s".to_string(),
        "-B".to_string(),
        "-v".to_string(),
        "-1".to_string(),
    ];
    let config = parse_args_from_vec(args).unwrap();

    assert!(config.no_capitalize);
    assert!(config.no_numerals);
    assert!(config.symbols);
    assert!(config.secure);
    assert!(config.ambiguous);
    assert!(config.no_vowels);
    assert!(!config.columns);
}

#[test]
fn test_parse_args_remove_chars() {
    let args = vec!["pwgen".to_string(), "-r".to_string(), "abc".to_string()];
    let config = parse_args_from_vec(args).unwrap();

    assert_eq!(config.remove_chars, Some(b"abc".to_vec()));
}

#[test]
fn default_config_values() {
    let config = Config::default();
    assert_eq!(config.pw_length, 8);
    assert_eq!(config.num_pw, 160);
    assert!(config.capitalize);
    assert!(!config.no_capitalize);
    assert!(config.numerals);
    assert!(!config.no_numerals);
    assert!(!config.symbols);
    assert_eq!(config.remove_chars, None);
    assert!(!config.secure);
    assert!(!config.ambiguous);
    assert!(config.columns);
    assert!(!config.no_vowels);
    assert!(!config.help);
}

#[test]
fn parse_empty_argument_list() {
    let config = parse_args_from_vec(Vec::new()).unwrap();
    assert_eq!(config.pw_length, DEFAULT_LENGTH);
    assert_eq!(config.num_pw, DEFAULT_COUNT);
}

#[test]
fn parse_long_options() {
    let config = parse(&[
        "pwgen",
        "--capitalize",
        "--no-capitalize",
        "--numerals",
        "--no-numerals",
        "--symbols",
        "--secure",
        "--ambiguous",
        "--no-vowels",
        "--help",
    ])
    .unwrap();
    assert!(config.capitalize);
    assert!(config.no_capitalize);
    assert!(config.numerals);
    assert!(config.no_numerals);
    assert!(config.symbols);
    assert!(config.secure);
    assert!(config.ambiguous);
    assert!(config.no_vowels);
    assert!(config.help);
    assert!(config.columns);
}

#[test]
fn parse_short_options() {
    let config = parse(&["pwgen", "-c", "-n", "-h", "-1", "-C"]).unwrap();
    assert!(config.capitalize);
    assert!(config.numerals);
    assert!(config.help);
    assert!(config.columns);
    assert!(!config.secure);
}

#[test]
fn parse_program_name_is_not_read() {
    let config = parse(&["--bogus", "9"]).unwrap();
    assert_eq!(config.pw_length, 9);
}

#[test]
fn parse_remove_chars_forms() {
    assert_eq!(parse(&["pwgen", "-rxyz"]).unwrap().remove_chars, Some(b"xyz".to_vec()));
    assert_eq!(parse(&["pwgen", "-r=x"]).unwrap().remove_chars, Some(b"=x".to_vec()));
    assert_eq!(
        parse(&["pwgen", "--remove-chars=a=b"]).unwrap().remove_chars,
        Some(b"a=b".to_vec())
    );
    assert_eq!(parse(&["pwgen", "--remove-chars="]).unwrap().remove_chars, Some(Vec::new()));
    assert_eq!(
        parse(&["pwgen", "--remove-chars", "-s"]).unwrap().remove_chars,
        Some(b"-s".to_vec())
    );
    assert!(!parse(&["pwgen", "--remove-chars", "-s"]).unwrap().secure);
    assert_eq!(
        parse(&["pwgen", "--remove-charsq", "01"]).unwrap().remove_chars,
        Some(b"01".to_vec())
    );
    assert_eq!(
        parse(&["pwgen", "-r", "ab", "-r", "cd"]).unwrap().remove_chars,
        Some(b"cd".to_vec())
    );
    assert_eq!(
        parse(&["pwgen", "-r\u{e9}"]).unwrap().remove_chars,
        Some("\u{e9}".as_bytes().to_vec())
    );
}

#[test]
fn parse_remove_chars_then_positional() {
    let config = parse(&["pwgen", "-r", "ab", "10", "3"]).unwrap();
    assert_eq!(config.remove_chars, Some(b"ab".to_vec()));
    assert_eq!(config.pw_length, 10);
    assert_eq!(config.num_pw, 3);
}

#[test]
fn parse_missing_remove_chars() {
    assert_eq!(parse(&["pwgen", "-r"]).unwrap_err(), ArgError::MissingRemoveChars);
    assert_eq!(parse(&["pwgen", "-s", "--remove-chars"]).unwrap_err(), ArgError::MissingRemoveChars);
}

#[test]
fn parse_unknown_option() {
    assert_eq!(parse(&["pwgen", "-x"]).unwrap_err(), ArgError::UnknownOption(1));
    assert_eq!(parse(&["pwgen", "12", "--wrong", "-q"]).unwrap_err(), ArgError::UnknownOption(2));
    assert_eq!(parse(&["pwgen", "-5"]).unwrap_err(), ArgError::UnknownOption(1));
    assert_eq!(parse(&["pwgen", "-"]).unwrap_err(), ArgError::UnknownOption(1));
    assert_eq!(parse(&["pwgen", "-cs"]).unwrap_err(), ArgError::UnknownOption(1));
}

#[test]
fn parse_too_many_arguments() {
    assert_eq!(parse(&["pwgen", "1", "2", "3"]).unwrap_err(), ArgError::TooManyArguments);
    assert_eq!(parse(&["pwgen", "1", "2", "3", "-x"]).unwrap_err(), ArgError::UnknownOption(4));
}

#[test]
fn parse_positional_that_is_no_number_is_refused() {
    assert_eq!(parse(&["pwgen", "abc"]).unwrap_err(), ArgError::InvalidNumber(1));
    assert_eq!(parse(&["pwgen", "abc", "7"]).unwrap_err(), ArgError::InvalidNumber(1));
    assert_eq!(parse(&["pwgen", "11", ""]).unwrap_err(), ArgError::InvalidNumber(2));
    assert_eq!(parse(&["pwgen", "-s", "11", "-B", "x7"]).unwrap_err(), ArgError::InvalidNumber(4));
    assert_eq!(
        parse(&["pwgen", "99999999999999999999999999"]).unwrap_err(),
        ArgError::InvalidNumber(1)
    );
    assert_eq!(parse(&["pwgen", "abc", "def"]).unwrap_err(), ArgError::InvalidNumber(1));
    assert_eq!(parse(&["pwgen", "a", "b", "c"]).unwrap_err(), ArgError::TooManyArguments);
}

#[test]
fn parse_refuses_length_zero() {
    assert_eq!(parse(&["pwgen", "0"]).unwrap_err(), ArgError::ZeroLength(1));
    assert_eq!(parse(&["pwgen", "-y", "+00", "3"]).unwrap_err(), ArgError::ZeroLength(2));
    assert_eq!(parse(&["pwgen", "0", "x"]).unwrap_err(), ArgError::ZeroLength(1));
}

#[test]
fn parse_accepts_count_zero() {
    let config = parse(&["pwgen", "1", "0"]).unwrap();
    assert_eq!(config.pw_length, 1);
    assert_eq!(config.num_pw, 0);
    let config = parse(&["pwgen", "+12", "+5"]).unwrap();
    assert_eq!(config.pw_length, 12);
    assert_eq!(config.num_pw, 5);
}

#[test]
fn parse_number_reads_decimal() {
    assert_eq!(parse_number(b"0"), Some(0));
    assert_eq!(parse_number(b"12"), Some(12));
    assert_eq!(parse_number(b"+12"), Some(12));
    assert_eq!(parse_number(b"007"), Some(7));
    assert_eq!(parse_number(usize::MAX.to_string().as_bytes()), Some(usize::MAX));
}

#[test]
fn parse_number_refuses_what_is_no_number() {
    assert_eq!(parse_number(b""), None);
    assert_eq!(parse_number(b"+"), None);
    assert_eq!(parse_number(b"-1"), None);
    assert_eq!(parse_number(b"++1"), None);
    assert_eq!(parse_number(b"1+"), None);
    assert_eq!(parse_number(b" 1"), None);
    assert_eq!(parse_number(b"1 "), None);
    assert_eq!(parse_number(b"1_000"), None);
    assert_eq!(parse_number(b"12a"), None);
    assert_eq!(parse_number(b"0x10"), None);
    let beyond = format!("{}0", usize::MAX);
    assert_eq!(parse_number(beyond.as_bytes()), None);
    let next = (usize::MAX as u128 + 1).to_string();
    assert_eq!(parse_number(next.as_bytes()), None);
}

#[test]
fn parse_number_agrees_with_std() {
    for text in ["", "+", "5", "+5", "-5", "05", "5a", "18446744073709551615", "18446744073709551616", "٣"] {
        assert_eq!(parse_number(text.as_bytes()), text.parse::<usize>().ok());
    }
}
