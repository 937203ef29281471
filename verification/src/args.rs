//! The command line: from the list of arguments to a configuration.

use vstd::prelude::*;
use vstd::string::*;
use vstd::utf8::encode_utf8;
use crate::charset::is_digit;
use crate::config::{Config, Settings, DEFAULT_LENGTH};

verus! {

/// Why a list of arguments is refused.
#[derive(Debug, Clone, Copy, PartialEq, Eq, Structural)]
pub enum ArgError {
    /// The option that takes the characters to remove is the last
    /// argument and carries none itself.
    MissingRemoveChars,
    /// The argument at this index starts with `-` and is no known option.
    UnknownOption(usize),
    /// More than two arguments are no option.
    TooManyArguments,
    /// The argument at this index stands where a number is due and is
    /// none, or denotes one beyond the machine's word.
    InvalidNumber(usize),
    /// The argument at this index gives the password length as zero.
    ZeroLength(usize),
}

/// The bytes of each argument, in order.
pub open spec fn arg_bytes(args: Seq<String>) -> Seq<Seq<u8>> {
    Seq::new(args.len(), |i: int| encode_utf8(args[i]@))
}

/// The argument spells `name`.
pub open spec fn spells(arg: Seq<u8>, name: Seq<char>) -> bool {
    arg == encode_utf8(name)
}

/// The argument starts with `name`.
pub open spec fn starts_with(arg: Seq<u8>, name: Seq<char>) -> bool {
    encode_utf8(name).is_prefix_of(arg)
}

/// The place of the first `b` in `s`, where there is one.
pub open spec fn first_position(s: Seq<u8>, b: u8) -> int {
    choose|i: int| 0 <= i < s.len() && s[i] == b && forall|j: int| 0 <= j < i ==> s[j] != b
}

/// The number that a run of decimal digits denotes.
pub open spec fn decimal(digits: Seq<u8>) -> nat
    decreases digits.len(),
{
    if digits.len() == 0 {
        0
    } else {
        (decimal(digits.drop_last()) * 10 + (digits.last() - '0' as u8)) as nat
    }
}

/// Every byte is a decimal digit.
pub open spec fn all_digits(s: Seq<u8>) -> bool {
    forall|i: int| 0 <= i < s.len() ==> is_digit(#[trigger] s[i])
}

/// The text without the `+` that may stand at its head.
pub open spec fn unsigned_part(text: Seq<u8>) -> Seq<u8> {
    if text.len() > 0 && text[0] == '+' as u8 {
        text.skip(1)
    } else {
        text
    }
}

/// The value of a decimal number: an optional `+`, then one digit or
/// more and nothing else, denoting a number that fits the machine's word.
pub open spec fn number(text: Seq<u8>) -> Option<usize> {
    let digits = unsigned_part(text);
    if digits.len() > 0 && all_digits(digits) && decimal(digits) <= usize::MAX {
        Some(decimal(digits) as usize)
    } else {
        None
    }
}

/// The configuration after one of the options that take no value, or
/// `None` where the argument is none of them.
pub open spec fn switched(cfg: Settings, arg: Seq<u8>) -> Option<Settings> {
    if spells(arg, "-c"@) || spells(arg, "--capitalize"@) {
        Some(Settings { capitalize: true, ..cfg })
    } else if spells(arg, "-A"@) || spells(arg, "--no-capitalize"@) {
        Some(Settings { no_capitalize: true, ..cfg })
    } else if spells(arg, "-n"@) || spells(arg, "--numerals"@) {
        Some(Settings { numerals: true, ..cfg })
    } else if spells(arg, "-0"@) || spells(arg, "--no-numerals"@) {
        Some(Settings { no_numerals: true, ..cfg })
    } else if spells(arg, "-y"@) || spells(arg, "--symbols"@) {
        Some(Settings { symbols: true, ..cfg })
    } else if spells(arg, "-s"@) || spells(arg, "--secure"@) {
        Some(Settings { secure: true, ..cfg })
    } else if spells(arg, "-B"@) || spells(arg, "--ambiguous"@) {
        Some(Settings { ambiguous: true, ..cfg })
    } else if spells(arg, "-C"@) {
        Some(Settings { columns: true, ..cfg })
    } else if spells(arg, "-1"@) {
        Some(Settings { columns: false, ..cfg })
    } else if spells(arg, "-v"@) || spells(arg, "--no-vowels"@) {
        Some(Settings { no_vowels: true, ..cfg })
    } else if spells(arg, "-h"@) || spells(arg, "--help"@) {
        Some(Settings { help: true, ..cfg })
    } else {
        None
    }
}

/// The argument is the option that names the characters to remove.
pub open spec fn is_remove_option(arg: Seq<u8>) -> bool {
    starts_with(arg, "-r"@) || starts_with(arg, "--remove-chars"@)
}

/// What a scan has gathered: the configuration so far and the indexes
/// of the arguments that are no option.
pub ghost struct Scan {
    pub cfg: Settings,
    pub positional: Seq<usize>,
}

/// The characters to remove that the option at index `at` names, and the
/// index of the argument behind it: the characters stand behind `-r`, or
/// behind the option's first `=`, or else are the next argument whole.
pub open spec fn removal(args: Seq<Seq<u8>>, at: nat) -> Result<(Seq<u8>, nat), ArgError> {
    let arg = args[at as int];
    if starts_with(arg, "-r"@) && arg.len() > 2 {
        Ok((arg.skip(2), at + 1))
    } else if arg.contains('=' as u8) {
        Ok((arg.skip(first_position(arg, '=' as u8) + 1), at + 1))
    } else if at + 1 < args.len() {
        Ok((args[at as int + 1], at + 2))
    } else {
        Err(ArgError::MissingRemoveChars)
    }
}

/// What the argument at index `at` makes of the scan, and the index of
/// the argument to read next.
///
/// An option that takes no value sets its flag. The option for the
/// characters to remove records them. Any other argument that does not
/// start with `-` is kept as positional; one that does is refused.
pub open spec fn step(args: Seq<Seq<u8>>, at: nat, state: Scan) -> Result<(nat, Scan), ArgError> {
    let arg = args[at as int];
    match switched(state.cfg, arg) {
        Some(cfg) => Ok((at + 1, Scan { cfg, ..state })),
        None => if is_remove_option(arg) {
            match removal(args, at) {
                Ok((chars, next)) => Ok(
                    (next, Scan { cfg: Settings { remove_chars: Some(chars), ..state.cfg }, ..state }),
                ),
                Err(e) => Err(e),
            }
        } else if !(arg.len() > 0 && arg[0] == '-' as u8) {
            Ok((at + 1, Scan { positional: state.positional.push(at as usize), ..state }))
        } else {
            Err(ArgError::UnknownOption(at as usize))
        },
    }
}

/// The scan of the arguments from index `at` on, one step after the
/// other until the arguments end or one is refused.
pub open spec fn scan(args: Seq<Seq<u8>>, at: nat, state: Scan) -> Result<Scan, ArgError>
    decreases args.len() - at,
{
    if at >= args.len() {
        Ok(state)
    } else {
        match step(args, at, state) {
            Ok((next, after)) => if next > at {
                scan(args, next, after)
            } else {
                Ok(after)
            },
            Err(e) => Err(e),
        }
    }
}

/// The password length that the argument at index `at` gives: a number
/// that is not zero.
pub open spec fn length_at(args: Seq<Seq<u8>>, at: usize) -> Result<usize, ArgError> {
    match number(args[at as int]) {
        None => Err(ArgError::InvalidNumber(at)),
        Some(n) => if n == 0 {
            Err(ArgError::ZeroLength(at))
        } else {
            Ok(n)
        },
    }
}

/// The number of passwords that the argument at index `at` gives.
pub open spec fn count_at(args: Seq<Seq<u8>>, at: usize) -> Result<usize, ArgError> {
    match number(args[at as int]) {
        None => Err(ArgError::InvalidNumber(at)),
        Some(n) => Ok(n),
    }
}

/// The configuration that a finished scan stands for. More than two
/// positional arguments are refused. The first gives the length and the
/// second the count; one that is there and does not give its number is
/// refused, the first before the second.
pub open spec fn settled(args: Seq<Seq<u8>>, state: Scan) -> Result<Settings, ArgError> {
    if state.positional.len() == 0 {
        Ok(state.cfg)
    } else if state.positional.len() > 2 {
        Err(ArgError::TooManyArguments)
    } else {
        match length_at(args, state.positional[0]) {
            Err(e) => Err(e),
            Ok(length) => if state.positional.len() == 1 {
                Ok(Settings { pw_length: length as nat, ..state.cfg })
            } else {
                match count_at(args, state.positional[1]) {
                    Err(e) => Err(e),
                    Ok(count) => Ok(
                        Settings { pw_length: length as nat, num_pw: count as nat, ..state.cfg },
                    ),
                }
            },
        }
    }
}

/// The configuration that a list of arguments stands for. The first
/// argument is the program's name and is not read.
pub open spec fn parsed(args: Seq<Seq<u8>>) -> Result<Settings, ArgError> {
    match scan(args, 1, Scan { cfg: Settings::initial(), positional: Seq::empty() }) {
        Ok(state) => settled(args, state),
        Err(e) => Err(e),
    }
}

/// Whether two runs of bytes are the same.
pub fn same_bytes(a: &[u8], b: &[u8]) -> (r: bool)
    ensures
        r == (a@ == b@),
{
    if a.len() != b.len() {
        return false;
    }
    let mut i: usize = 0;
    while i < a.len()
        invariant
            a@.len() == b@.len(),
            i <= a@.len(),
            forall|j: int| 0 <= j < i ==> a@[j] == b@[j],
        decreases a@.len() - i,
    {
        if a[i] != b[i] {
            return false;
        }
        i += 1;
    }
    assert(a@ =~= b@);
    true
}

/// Whether `text` starts with `prefix`.
pub fn has_prefix(text: &[u8], prefix: &[u8]) -> (r: bool)
    ensures
        r == prefix@.is_prefix_of(text@),
{
    if text.len() < prefix.len() {
        return false;
    }
    let mut i: usize = 0;
    while i < prefix.len()
        invariant
            prefix@.len() <= text@.len(),
            i <= prefix@.len(),
            forall|j: int| 0 <= j < i ==> text@[j] == prefix@[j],
        decreases prefix@.len() - i,
    {
        if text[i] != prefix[i] {
            assert(text@.subrange(0, prefix@.len() as int)[i as int] != prefix@[i as int]);
            return false;
        }
        i += 1;
    }
    assert(text@.subrange(0, prefix@.len() as int) =~= prefix@);
    true
}

/// Finds the first `b` in `text`.
pub fn find_byte(text: &[u8], b: u8) -> (r: Option<usize>)
    ensures
        r is Some <==> text@.contains(b),
        r matches Some(i) ==> i == first_position(text@, b) && i < text.len(),
{
    let mut i: usize = 0;
    while i < text.len()
        invariant
            i <= text@.len(),
            forall|j: int| 0 <= j < i ==> text@[j] != b,
        decreases text@.len() - i,
    {
        if text[i] == b {
            proof {
                let at = first_position(text@, b);
                assert(0 <= at < text@.len() && text@[at] == b && forall|j: int|
                    0 <= j < at ==> text@[j] != b);
            }
            return Some(i);
        }
        i += 1;
    }
    None
}

/// The number that the head of a run of digits denotes is no greater than
/// the number that the whole run denotes.
pub proof fn lemma_decimal_grows(digits: Seq<u8>, k: int)
    requires
        0 <= k <= digits.len(),
        all_digits(digits),
    ensures
        decimal(digits.take(k)) <= decimal(digits),
    decreases digits.len(),
{
    if k == digits.len() {
        assert(digits.take(k) =~= digits);
    } else {
        let front = digits.drop_last();
        lemma_decimal_grows(front, k);
        assert(front.take(k) =~= digits.take(k));
        assert(is_digit(digits.last()));
    }
}

/// Reads a decimal number: an optional `+`, then digits only. Text that
/// is no such number, or denotes one beyond the machine's word, gives
/// `None`.
pub fn parse_number(text: &[u8]) -> (r: Option<usize>)
    ensures
        r == number(text@),
{
    let start: usize = if text.len() > 0 && text[0] == 43 {
        1
    } else {
        0
    };
    let ghost digits = text@.skip(start as int);
    assert(digits =~= unsigned_part(text@));
    if start >= text.len() {
        return None;
    }
    let mut value: usize = 0;
    let mut i: usize = start;
    assert(digits.take(0) =~= Seq::<u8>::empty());
    while i < text.len()
        invariant
            start <= i <= text@.len(),
            digits == text@.skip(start as int),
            digits == unsigned_part(text@),
            forall|j: int| 0 <= j < i - start ==> is_digit(#[trigger] digits[j]),
            value == decimal(digits.take(i - start)),
        decreases text@.len() - i,
    {
        let b = text[i];
        assert(b == digits[i - start]);
        if !(48 <= b && b <= 57) {
            return None;
        }
        proof {
            assert(digits.take(i - start + 1).drop_last() =~= digits.take(i - start));
            assert(digits.take(i - start + 1).last() == b);
            if all_digits(digits) {
                lemma_decimal_grows(digits, i - start + 1);
            }
        }
        let scaled = match value.checked_mul(10) {
            Some(v) => v,
            None => {
                return None;
            },
        };
        value = match scaled.checked_add((b - 48) as usize) {
            Some(v) => v,
            None => {
                return None;
            },
        };
        i += 1;
    }
    assert(digits.take(i - start) =~= digits);
    Some(value)
}

/// Copies the bytes of `text` from index `from` on.
pub fn bytes_from(text: &[u8], from: usize) -> (r: Vec<u8>)
    requires
        from <= text@.len(),
    ensures
        r@ == text@.skip(from as int),
{
    let mut out: Vec<u8> = Vec::new();
    let mut i: usize = from;
    while i < text.len()
        invariant
            from <= i <= text@.len(),
            out@ == text@.subrange(from as int, i as int),
        decreases text@.len() - i,
    {
        out.push(text[i]);
        i += 1;
        assert(out@ =~= text@.subrange(from as int, i as int));
    }
    assert(out@ =~= text@.skip(from as int));
    out
}

/// Whether `arg` spells `name`.
pub fn is_named(arg: &[u8], name: &str) -> (r: bool)
    ensures
        r == spells(arg@, name@),
{
    same_bytes(arg, name.as_bytes())
}

/// Sets the flag of an option that takes no value. Returns whether `arg`
/// is such an option.
pub fn apply_switch(config: &mut Config, arg: &[u8]) -> (r: bool)
    ensures
        match switched(old(config)@, arg@) {
            Some(cfg) => r && final(config)@ == cfg,
            None => !r && final(config)@ == old(config)@,
        },
{
    if is_named(arg, "-c") || is_named(arg, "--capitalize") {
        config.capitalize = true;
    } else if is_named(arg, "-A") || is_named(arg, "--no-capitalize") {
        config.no_capitalize = true;
    } else if is_named(arg, "-n") || is_named(arg, "--numerals") {
        config.numerals = true;
    } else if is_named(arg, "-0") || is_named(arg, "--no-numerals") {
        config.no_numerals = true;
    } else if is_named(arg, "-y") || is_named(arg, "--symbols") {
        config.symbols = true;
    } else if is_named(arg, "-s") || is_named(arg, "--secure") {
        config.secure = true;
    } else if is_named(arg, "-B") || is_named(arg, "--ambiguous") {
        config.ambiguous = true;
    } else if is_named(arg, "-C") {
        config.columns = true;
    } else if is_named(arg, "-1") {
        config.columns = false;
    } else if is_named(arg, "-v") || is_named(arg, "--no-vowels") {
        config.no_vowels = true;
    } else if is_named(arg, "-h") || is_named(arg, "--help") {
        config.help = true;
    } else {
        return false;
    }
    true
}

/// Reads the characters to remove that the option at index `at` names.
/// Returns them with the index of the argument behind them.
pub fn take_removal(args: &Vec<String>, at: usize) -> (r: Result<(Vec<u8>, usize), ArgError>)
    requires
        at < args.len(),
    ensures
        match removal(arg_bytes(args@), at as nat) {
            Ok((chars, next)) => r matches Ok((c, n)) && c@ == chars && n == next && at < n
                <= args@.len(),
            Err(e) => r matches Err(x) && x == e,
        },
{
    let arg = args[at].as_str().as_bytes();
    assert(arg@ == arg_bytes(args@)[at as int]);
    if has_prefix(arg, "-r".as_bytes()) && arg.len() > 2 {
        Ok((bytes_from(arg, 2), at + 1))
    } else if let Some(place) = find_byte(arg, 61) {
        Ok((bytes_from(arg, place + 1), at + 1))
    } else if at + 1 < args.len() {
        let next = args[at + 1].as_str().as_bytes();
        assert(next@ == arg_bytes(args@)[at + 1]);
        assert(next@.skip(0) =~= next@);
        Ok((bytes_from(next, 0), at + 2))
    } else {
        Err(ArgError::MissingRemoveChars)
    }
}

/// Reads the argument at index `at` into the configuration and the list
/// of positional arguments. Returns the index of the argument to read
/// next.
pub fn take_argument(
    args: &Vec<String>,
    at: usize,
    config: &mut Config,
    positional: &mut Vec<usize>,
) -> (r: Result<usize, ArgError>)
    requires
        at < args.len(),
    ensures
        match step(
            arg_bytes(args@),
            at as nat,
            Scan { cfg: old(config)@, positional: old(positional)@ },
        ) {
            Ok((next, after)) => r matches Ok(n) && n == next && at < n <= args@.len()
                && final(config)@ == after.cfg && final(positional)@ == after.positional,
            Err(e) => r matches Err(x) && x == e,
        },
        r is Ok ==> final(config).pw_length == old(config).pw_length && final(config).num_pw == old(
            config,
        ).num_pw,
        r is Ok ==> final(positional)@ == old(positional)@ || final(positional)@ == old(
            positional,
        )@.push(at),
{
    let arg = args[at].as_str().as_bytes();
    assert(arg@ == arg_bytes(args@)[at as int]);
    if apply_switch(config, arg) {
        Ok(at + 1)
    } else if has_prefix(arg, "-r".as_bytes()) || has_prefix(arg, "--remove-chars".as_bytes()) {
        match take_removal(args, at) {
            Ok((chars, next)) => {
                config.remove_chars = Some(chars);
                Ok(next)
            },
            Err(e) => Err(e),
        }
    } else if !(arg.len() > 0 && arg[0] == 45) {
        positional.push(at);
        Ok(at + 1)
    } else {
        Err(ArgError::UnknownOption(at))
    }
}

/// Reads the password length from the argument at index `at`.
pub fn read_length(args: &Vec<String>, at: usize) -> (r: Result<usize, ArgError>)
    requires
        at < args.len(),
    ensures
        r == length_at(arg_bytes(args@), at),
{
    let text = args[at].as_str().as_bytes();
    assert(text@ == arg_bytes(args@)[at as int]);
    match parse_number(text) {
        None => Err(ArgError::InvalidNumber(at)),
        Some(n) => if n == 0 {
            Err(ArgError::ZeroLength(at))
        } else {
            Ok(n)
        },
    }
}

/// Reads the number of passwords from the argument at index `at`.
pub fn read_count(args: &Vec<String>, at: usize) -> (r: Result<usize, ArgError>)
    requires
        at < args.len(),
    ensures
        r == count_at(arg_bytes(args@), at),
{
    let text = args[at].as_str().as_bytes();
    assert(text@ == arg_bytes(args@)[at as int]);
    match parse_number(text) {
        None => Err(ArgError::InvalidNumber(at)),
        Some(n) => Ok(n),
    }
}

/// Reads the command line into a configuration.
///
/// The first argument is the program's name and is not read. Of the
/// arguments that are no option, the first gives the password length and
/// the second the number of passwords. Each has to be a decimal number,
/// and the length more than zero: a configuration that comes back has a
/// positive length.
pub fn parse_args_from_vec(args: Vec<String>) -> (r: Result<Config, ArgError>)
    ensures
        match parsed(arg_bytes(args@)) {
            Ok(cfg) => r matches Ok(c) && c@ == cfg,
            Err(e) => r matches Err(x) && x == e,
        },
        r matches Ok(c) ==> c.pw_length >= 1,
{
    let mut config = Config::default();
    let mut positional: Vec<usize> = Vec::new();
    let ghost argv = arg_bytes(args@);
    let ghost start = Scan { cfg: Settings::initial(), positional: Seq::empty() };
    let mut i: usize = 1;
    while i < args.len()
        invariant
            1 <= i,
            argv == arg_bytes(args@),
            start == (Scan { cfg: Settings::initial(), positional: Seq::empty() }),
            scan(argv, i as nat, Scan { cfg: config@, positional: positional@ }) == scan(
                argv,
                1,
                start,
            ),
            config.pw_length == DEFAULT_LENGTH,
            forall|k: int| 0 <= k < positional@.len() ==> #[trigger] positional@[k] < args.len(),
        decreases args@.len() - i,
    {
        let ghost before = Scan { cfg: config@, positional: positional@ };
        match take_argument(&args, i, &mut config, &mut positional) {
            Ok(next) => {
                i = next;
            },
            Err(e) => {
                assert(scan(argv, i as nat, before) == Err::<Scan, ArgError>(e));
                return Err(e);
            },
        }
    }
    let ghost state = Scan { cfg: config@, positional: positional@ };
    assert(scan(argv, 1, start) == Ok::<Scan, ArgError>(state));
    if positional.len() == 0 {
        return Ok(config);
    }
    if positional.len() > 2 {
        return Err(ArgError::TooManyArguments);
    }
    config.pw_length = match read_length(&args, positional[0]) {
        Ok(n) => n,
        Err(e) => {
            return Err(e);
        },
    };
    if positional.len() == 2 {
        config.num_pw = match read_count(&args, positional[1]) {
            Ok(n) => n,
            Err(e) => {
                return Err(e);
            },
        };
    }
    Ok(config)
}

} // verus!
