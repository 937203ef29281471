//! Password generation from a stream of random bytes: alphabets, the uniform
//! and the pronounceable generator, the injection of required character
//! classes, and the command line and output layout around them.

pub mod args;
pub mod charset;
pub mod config;
pub mod enforce;
pub mod entropy;
pub mod generate;
pub mod layout;
pub mod pattern;
pub mod text;
pub mod uniform;

pub use crate::args::{parse_args_from_vec, parse_number, ArgError};
pub use crate::charset::{
    build_charset, AMBIGUOUS, CONSONANTS, CONSONANTS_LOWER, LOWERCASE, NUMERALS, SYMBOLS,
    UPPERCASE, VOWELS, VOWELS_LOWER,
};
pub use crate::config::{Config, DEFAULT_COUNT, DEFAULT_LENGTH};
pub use crate::enforce::{apply_requirements, inject_class, CharClass};
pub use crate::entropy::{EntropySource, EntropyUnavailable};
pub use crate::generate::{entropy_budget, generate_password, generate_passwords};
pub use crate::layout::{layout_passwords, COLUMNS};
pub use crate::pattern::{generate_memorable_password, sample_position, RETRY_CEILING};
pub use crate::uniform::generate_secure_password;
