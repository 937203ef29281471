//! The settings of one generation run and their mathematical model.

use vstd::prelude::*;

verus! {

/// Length of a password when none is given.
pub const DEFAULT_LENGTH: usize = 8;

/// Number of passwords when none is given.
pub const DEFAULT_COUNT: usize = 160;

/// The settings of one generation run.
///
/// `capitalize`/`no_capitalize` and `numerals`/`no_numerals` come in
/// pairs; where both of a pair are set, the `no_` flag wins.
#[derive(Debug, Clone)]
pub struct Config {
    /// Length of each password.
    pub pw_length: usize,
    /// Number of passwords.
    pub num_pw: usize,
    /// Ask for an uppercase letter in each password.
    pub capitalize: bool,
    /// Allow no uppercase letter.
    pub no_capitalize: bool,
    /// Ask for a digit in each password.
    pub numerals: bool,
    /// Allow no digit.
    pub no_numerals: bool,
    /// Ask for a symbol in each password.
    pub symbols: bool,
    /// Bytes that no password may be sampled from.
    pub remove_chars: Option<Vec<u8>>,
    /// Sample uniformly from the whole alphabet, without a pattern.
    pub secure: bool,
    /// Exclude the characters that are easily taken for another.
    pub ambiguous: bool,
    /// Show the passwords in columns.
    pub columns: bool,
    /// Exclude vowels.
    pub no_vowels: bool,
    /// Show the usage text and generate nothing.
    pub help: bool,
}

/// What a `Config` holds, as plain mathematical values.
pub ghost struct Settings {
    pub pw_length: nat,
    pub num_pw: nat,
    pub capitalize: bool,
    pub no_capitalize: bool,
    pub numerals: bool,
    pub no_numerals: bool,
    pub symbols: bool,
    pub remove_chars: Option<Seq<u8>>,
    pub secure: bool,
    pub ambiguous: bool,
    pub columns: bool,
    pub no_vowels: bool,
    pub help: bool,
}

impl View for Config {
    type V = Settings;

    open spec fn view(&self) -> Settings {
        Settings {
            pw_length: self.pw_length as nat,
            num_pw: self.num_pw as nat,
            capitalize: self.capitalize,
            no_capitalize: self.no_capitalize,
            numerals: self.numerals,
            no_numerals: self.no_numerals,
            symbols: self.symbols,
            remove_chars: match self.remove_chars {
                Some(v) => Some(v@),
                None => None,
            },
            secure: self.secure,
            ambiguous: self.ambiguous,
            columns: self.columns,
            no_vowels: self.no_vowels,
            help: self.help,
        }
    }
}

impl Settings {
    /// The settings of a run started without any argument.
    pub open spec fn initial() -> Settings {
        Settings {
            pw_length: DEFAULT_LENGTH as nat,
            num_pw: DEFAULT_COUNT as nat,
            capitalize: true,
            no_capitalize: false,
            numerals: true,
            no_numerals: false,
            symbols: false,
            remove_chars: None,
            secure: false,
            ambiguous: false,
            columns: true,
            no_vowels: false,
            help: false,
        }
    }

    /// Uppercase letters are asked for and not forbidden.
    pub open spec fn wants_upper(self) -> bool {
        self.capitalize && !self.no_capitalize
    }

    /// Digits are asked for and not forbidden.
    pub open spec fn wants_digit(self) -> bool {
        self.numerals && !self.no_numerals
    }

    /// Symbols are asked for.
    pub open spec fn wants_symbol(self) -> bool {
        self.symbols
    }

    /// The byte is on the user's exclusion list.
    pub open spec fn excludes(self, b: u8) -> bool {
        self.remove_chars matches Some(list) && list.contains(b)
    }
}

impl Default for Config {
    /// The configuration of a run started without any argument.
    fn default() -> (r: Config)
        ensures
            r@ == Settings::initial(),
    {
        Config {
            pw_length: DEFAULT_LENGTH,
            num_pw: DEFAULT_COUNT,
            capitalize: true,
            no_capitalize: false,
            numerals: true,
            no_numerals: false,
            symbols: false,
            remove_chars: None,
            secure: false,
            ambiguous: false,
            columns: true,
            no_vowels: false,
            help: false,
        }
    }
}

impl Config {
    /// Uppercase letters are asked for and not forbidden.
    pub fn wants_upper(&self) -> (r: bool)
        ensures
            r == self@.wants_upper(),
    {
        self.capitalize && !self.no_capitalize
    }

    /// Digits are asked for and not forbidden.
    pub fn wants_digit(&self) -> (r: bool)
        ensures
            r == self@.wants_digit(),
    {
        self.numerals && !self.no_numerals
    }
}

} // verus!
