//! Injection of the required character classes into a filled password.

use vstd::prelude::*;
use crate::charset::{
    is_digit, is_digit_byte, is_excluded, is_rejected, is_symbol, is_symbol_byte,
    is_upper, is_upper_byte, lemma_class_tables, pick, pick_byte, rejected, NUMERALS, SYMBOLS, UPPERCASE,
};
use crate::config::{Config, Settings};
use crate::entropy::{EntropySource, EntropyUnavailable};
use crate::text::{ascii_text, is_ascii_bytes, text_of_ascii};

verus! {

/// A character class whose presence a configuration may require.
#[derive(Debug, Clone, Copy, PartialEq, Eq, Structural)]
pub enum CharClass {
    Upper,
    Digit,
    Symbol,
}

/// The byte belongs to the class.
pub open spec fn in_class(class: CharClass, b: u8) -> bool {
    match class {
        CharClass::Upper => is_upper(b),
        CharClass::Digit => is_digit(b),
        CharClass::Symbol => is_symbol(b),
    }
}

/// The password holds at least one byte of the class.
pub open spec fn has_class(password: Seq<u8>, class: CharClass) -> bool {
    exists|i: int| 0 <= i < password.len() && in_class(class, #[trigger] password[i])
}

/// The configuration asks for the class to be present.
pub open spec fn required(cfg: Settings, class: CharClass) -> bool {
    match class {
        CharClass::Upper => cfg.wants_upper(),
        CharClass::Digit => cfg.wants_digit(),
        CharClass::Symbol => cfg.wants_symbol(),
    }
}

/// All bytes of the class, in table order.
pub open spec fn class_table(class: CharClass) -> Seq<u8> {
    match class {
        CharClass::Upper => UPPERCASE@,
        CharClass::Digit => NUMERALS@,
        CharClass::Symbol => SYMBOLS@,
    }
}

/// The byte may be injected for the class: it is not on the exclusion
/// list and, for letters and digits, not ambiguous where ambiguous
/// characters are excluded. Symbols are not held to the ambiguity rule.
pub open spec fn injectable(cfg: Settings, class: CharClass, b: u8) -> bool {
    match class {
        CharClass::Symbol => !cfg.excludes(b),
        _ => !rejected(cfg, b),
    }
}

/// The bytes of the class that may be injected, in table order.
pub open spec fn class_pool(cfg: Settings, class: CharClass) -> Seq<u8> {
    class_table(class).filter(|b: u8| injectable(cfg, class, b))
}

/// The step for `class` overwrites a byte of `password`: the class is
/// required, absent from the password, and not wholly excluded.
pub open spec fn injects(password: Seq<u8>, cfg: Settings, class: CharClass) -> bool {
    required(cfg, class) && !has_class(password, class) && class_pool(cfg, class).len() > 0
}

/// The position that the step for one class overwrites, given the bytes
/// it draws.
pub open spec fn target(password: Seq<u8>, pending: Seq<u8>) -> int {
    (pending[1] as int) % (password.len() as int)
}

/// One step of enforcement: the password after the step and the number
/// of bytes drawn, or `None` where the supply ends before both draws.
///
/// A step that injects draws two bytes: the first selects the character
/// from the class's pool, the second the position to overwrite.
pub open spec fn enforce_class(
    password: Seq<u8>,
    cfg: Settings,
    class: CharClass,
    pending: Seq<u8>,
) -> Option<(Seq<u8>, nat)> {
    if !injects(password, cfg, class) {
        Some((password, 0nat))
    } else if pending.len() < 2 {
        None
    } else {
        Some(
            (
                password.update(target(password, pending), pick(class_pool(cfg, class), pending[0])),
                2nat,
            ),
        )
    }
}

/// Password and number of bytes drawn after the step for uppercase.
pub open spec fn after_upper(password: Seq<u8>, cfg: Settings, pending: Seq<u8>) -> Option<
    (Seq<u8>, nat),
> {
    enforce_class(password, cfg, CharClass::Upper, pending)
}

/// Password and number of bytes drawn after the steps for uppercase and
/// digit.
pub open spec fn after_digit(password: Seq<u8>, cfg: Settings, pending: Seq<u8>) -> Option<
    (Seq<u8>, nat),
> {
    match after_upper(password, cfg, pending) {
        None => None,
        Some((upper_done, n1)) => match enforce_class(upper_done, cfg, CharClass::Digit, pending.skip(n1 as int)) {
            None => None,
            Some((digit_done, n2)) => Some((digit_done, n1 + n2)),
        },
    }
}

/// Enforcement as a whole: the steps for uppercase, digit and symbol, in
/// this order, each on what the step before left of password and supply.
/// The result is the final password and the number of bytes drawn, or
/// `None` where the supply ends before a draw.
pub open spec fn enforce(password: Seq<u8>, cfg: Settings, pending: Seq<u8>) -> Option<
    (Seq<u8>, nat),
> {
    match after_digit(password, cfg, pending) {
        None => None,
        Some((digit_done, n2)) => match enforce_class(digit_done, cfg, CharClass::Symbol, pending.skip(n2 as int)) {
            None => None,
            Some((symbol_done, n3)) => Some((symbol_done, n2 + n3)),
        },
    }
}

/// Enforcement has a position to overwrite wherever it needs one: the
/// password is not empty, or no step injects into it.
pub open spec fn enforceable(password: Seq<u8>, cfg: Settings) -> bool {
    password.len() >= 1 || forall|class: CharClass| !injects(password, cfg, class)
}

/// Every required class is present in the password.
pub open spec fn compliant(password: Seq<u8>, cfg: Settings) -> bool {
    forall|class: CharClass| required(cfg, class) ==> has_class(password, class)
}

/// The step for `class` overwrites the only byte of class `kept` that the
/// password holds.
pub open spec fn displaces(
    password: Seq<u8>,
    cfg: Settings,
    class: CharClass,
    kept: CharClass,
    pending: Seq<u8>,
) -> bool {
    &&& injects(password, cfg, class)
    &&& pending.len() >= 2
    &&& forall|i: int|
        0 <= i < password.len() && in_class(kept, #[trigger] password[i]) ==> i == target(
            password,
            pending,
        )
}

/// Whether the byte belongs to the class.
pub fn is_in_class(class: CharClass, b: u8) -> (r: bool)
    ensures
        r == in_class(class, b),
{
    match class {
        CharClass::Upper => is_upper_byte(b),
        CharClass::Digit => is_digit_byte(b),
        CharClass::Symbol => is_symbol_byte(b),
    }
}

/// Whether the password holds at least one byte of the class.
pub fn contains_class(password: &[u8], class: CharClass) -> (r: bool)
    ensures
        r == has_class(password@, class),
{
    let mut i: usize = 0;
    while i < password.len()
        invariant
            i <= password@.len(),
            forall|j: int| 0 <= j < i ==> !in_class(class, #[trigger] password@[j]),
        decreases password@.len() - i,
    {
        if is_in_class(class, password[i]) {
            return true;
        }
        i += 1;
    }
    false
}

/// Whether the configuration asks for the class to be present.
pub fn is_required(config: &Config, class: CharClass) -> (r: bool)
    ensures
        r == required(config@, class),
{
    match class {
        CharClass::Upper => config.wants_upper(),
        CharClass::Digit => config.wants_digit(),
        CharClass::Symbol => config.symbols,
    }
}

/// Whether the byte may be injected for the class.
pub fn is_injectable(config: &Config, class: CharClass, b: u8) -> (r: bool)
    ensures
        r == injectable(config@, class, b),
{
    match class {
        CharClass::Symbol => !is_excluded(config, b),
        _ => !is_rejected(config, b),
    }
}

/// Builds the pool of bytes that may be injected for the class.
pub fn build_class_pool(config: &Config, class: CharClass) -> (r: Vec<u8>)
    ensures
        r@ == class_pool(config@, class),
{
    let mut table: Vec<u8> = Vec::new();
    match class {
        CharClass::Upper => table.extend_from_slice(&UPPERCASE),
        CharClass::Digit => table.extend_from_slice(&NUMERALS),
        CharClass::Symbol => table.extend_from_slice(&SYMBOLS),
    }
    assert(table@ =~= class_table(class));
    let ghost keep = |b: u8| injectable(config@, class, b);
    let mut pool: Vec<u8> = Vec::new();
    let mut i: usize = 0;
    while i < table.len()
        invariant
            i <= table@.len(),
            keep == |b: u8| injectable(config@, class, b),
            pool@ == table@.take(i as int).filter(keep),
        decreases table@.len() - i,
    {
        let b = table[i];
        proof {
            assert(table@.take(i + 1) =~= table@.take(i as int).push(b));
            table@.take(i as int).lemma_filter_push(b, keep);
        }
        if is_injectable(config, class, b) {
            pool.push(b);
        }
        i += 1;
    }
    assert(table@.take(i as int) =~= table@);
    pool
}

/// Every byte of a class's pool belongs to the class and may be injected.
pub proof fn lemma_pool_members(cfg: Settings, class: CharClass)
    ensures
        forall|b: u8| #[trigger]
            class_pool(cfg, class).contains(b) ==> in_class(class, b) && injectable(cfg, class, b)
                && b < 128,
{
    let keep = |b: u8| injectable(cfg, class, b);
    let table = class_table(class);
    lemma_class_tables();
    assert forall|b: u8| #[trigger] class_pool(cfg, class).contains(b) implies in_class(class, b)
        && injectable(cfg, class, b) && b < 128 by {
        let i = choose|i: int| 0 <= i < class_pool(cfg, class).len() && class_pool(cfg, class)[i] == b;
        table.lemma_filter_pred(keep, i);
        table.lemma_filter_contains_rev(keep, b);
    }
}

/// Performs the step for one class: where the class is required, absent
/// and not wholly excluded, overwrites one byte of the password with a
/// byte of the class.
pub fn inject_class(
    password: &mut Vec<u8>,
    class: CharClass,
    config: &Config,
    rng: &mut EntropySource,
) -> (r: Result<(), EntropyUnavailable>)
    requires
        old(password)@.len() >= 1 || !injects(old(password)@, config@, class),
    ensures
        final(password)@.len() == old(password)@.len(),
        match enforce_class(old(password)@, config@, class, old(rng)@) {
            Some((p, n)) => r is Ok && final(password)@ == p && final(rng)@ == old(rng)@.skip(
                n as int,
            ),
            None => r is Err && final(password)@ == old(password)@ && final(rng)@.len() == 0,
        },
{
    if !is_required(config, class) || contains_class(password.as_slice(), class) {
        return Ok(());
    }
    let pool = build_class_pool(config, class);
    if pool.len() == 0 {
        return Ok(());
    }
    let first = match rng.next_byte() {
        Ok(b) => b,
        Err(e) => {
            return Err(e);
        },
    };
    let letter = pick_byte(pool.as_slice(), first);
    let second = match rng.next_byte() {
        Ok(b) => b,
        Err(e) => {
            return Err(e);
        },
    };
    let position = (second as usize) % password.len();
    password.set(position, letter);
    proof {
        assert(old(rng)@.skip(1).skip(1) =~= old(rng)@.skip(2));
    }
    Ok(())
}

/// Makes sure that the password holds each required character class.
///
/// The steps for uppercase, digit and symbol run in this order. A step is
/// skipped where its class is not required, is already present, or has no
/// byte left that the exclusions allow; otherwise it draws two bytes and
/// overwrites one position. A later step may overwrite what an earlier
/// one injected. A password that already holds every required class
/// comes back as it is, and nothing is drawn.
///
/// An empty password has no position to overwrite: it is admitted only
/// where no step would inject.
pub fn apply_requirements(password: Vec<u8>, config: &Config, rng: &mut EntropySource) -> (r:
    Result<String, EntropyUnavailable>)
    requires
        enforceable(password@, config@),
        is_ascii_bytes(password@),
    ensures
        match enforce(password@, config@, old(rng)@) {
            Some((p, n)) => r matches Ok(s) && s@ == ascii_text(p) && s@.len() == password@.len()
                && final(rng)@ == old(rng)@.skip(n as int),
            None => r is Err && final(rng)@.len() == 0,
        },
        compliant(password@, config@) ==> (r matches Ok(s) && s@ == ascii_text(password@))
            && final(rng)@ == old(rng)@,
{
    let mut result = password;
    let ghost given = result@;
    let ghost s0 = rng@;
    proof {
        lemma_enforce_shape(given, config@, s0);
        lemma_enforce_class_keeps_ascii(given, config@, CharClass::Upper, s0);
        if compliant(given, config@) {
            law_compliant_untouched(given, config@, s0);
            assert(s0.skip(0) =~= s0);
        }
    }
    match inject_class(&mut result, CharClass::Upper, config, rng) {
        Ok(()) => {},
        Err(e) => {
            return Err(e);
        },
    }
    let ghost upper_done = result@;
    let ghost s1 = rng@;
    proof {
        lemma_enforce_class_keeps_ascii(upper_done, config@, CharClass::Digit, s1);
    }
    match inject_class(&mut result, CharClass::Digit, config, rng) {
        Ok(()) => {},
        Err(e) => {
            return Err(e);
        },
    }
    let ghost digit_done = result@;
    let ghost s2 = rng@;
    proof {
        lemma_enforce_class_keeps_ascii(digit_done, config@, CharClass::Symbol, s2);
    }
    match inject_class(&mut result, CharClass::Symbol, config, rng) {
        Ok(()) => {},
        Err(e) => {
            return Err(e);
        },
    }
    proof {
        let n1 = enforce_class(given, config@, CharClass::Upper, s0).unwrap().1;
        let n2 = enforce_class(upper_done, config@, CharClass::Digit, s1).unwrap().1;
        let n3 = enforce_class(digit_done, config@, CharClass::Symbol, s2).unwrap().1;
        assert(s0.skip(n1 as int).skip(n2 as int) =~= s0.skip((n1 + n2) as int));
        assert(s0.skip((n1 + n2) as int).skip(n3 as int) =~= s0.skip((n1 + n2 + n3) as int));
        assert(s1 == s0.skip(n1 as int));
        assert(s2 == s0.skip((n1 + n2) as int));
    }
    Ok(text_of_ascii(result))
}

/// A step of enforcement leaves the length as it is and ASCII bytes ASCII.
pub proof fn lemma_enforce_class_keeps_ascii(
    password: Seq<u8>,
    cfg: Settings,
    class: CharClass,
    pending: Seq<u8>,
)
    requires
        password.len() >= 1 || !injects(password, cfg, class),
    ensures
        enforce_class(password, cfg, class, pending) matches Some((p, n)) ==> p.len()
            == password.len() && (is_ascii_bytes(password) ==> is_ascii_bytes(p)),
{
    if let Some((p, n)) = enforce_class(password, cfg, class, pending) {
        if injects(password, cfg, class) {
            let pool = class_pool(cfg, class);
            let letter = pick(pool, pending[0]);
            assert(pool.contains(letter));
            lemma_pool_members(cfg, class);
            if is_ascii_bytes(password) {
                assert forall|i: int| 0 <= i < p.len() implies #[trigger] p[i] < 128 by {
                    if i != target(password, pending) {
                        assert(p[i] == password[i]);
                    }
                }
            }
        }
    }
}

/// The three classes have no byte in common.
pub proof fn lemma_classes_disjoint(a: CharClass, b: CharClass, byte: u8)
    requires
        a != b,
        in_class(a, byte),
    ensures
        !in_class(b, byte),
{
}

/// The step for a class, where it is required and its pool is not empty,
/// leaves a password that holds the class.
pub proof fn lemma_step_establishes(
    password: Seq<u8>,
    cfg: Settings,
    class: CharClass,
    pending: Seq<u8>,
)
    requires
        password.len() >= 1 || !injects(password, cfg, class),
        required(cfg, class),
        class_pool(cfg, class).len() > 0,
    ensures
        enforce_class(password, cfg, class, pending) matches Some((p, n)) ==> has_class(p, class),
{
    if let Some((p, n)) = enforce_class(password, cfg, class, pending) {
        if injects(password, cfg, class) {
            let pool = class_pool(cfg, class);
            let letter = pick(pool, pending[0]);
            assert(pool.contains(letter));
            lemma_pool_members(cfg, class);
            let t = target(password, pending);
            assert(in_class(class, p[t]));
        }
    }
}

/// The step for one class takes another class away from the password
/// exactly when it overwrites the only byte of that class.
pub proof fn lemma_step_keeps_other(
    password: Seq<u8>,
    cfg: Settings,
    class: CharClass,
    kept: CharClass,
    pending: Seq<u8>,
)
    requires
        password.len() >= 1 || !injects(password, cfg, class),
        class != kept,
    ensures
        enforce_class(password, cfg, class, pending) matches Some((p, n)) ==> (has_class(p, kept)
            <==> has_class(password, kept) && !displaces(password, cfg, class, kept, pending)),
{
    if let Some((p, n)) = enforce_class(password, cfg, class, pending) {
        if injects(password, cfg, class) {
            let pool = class_pool(cfg, class);
            let letter = pick(pool, pending[0]);
            let t = target(password, pending);
            assert(pool.contains(letter));
            lemma_pool_members(cfg, class);
            lemma_classes_disjoint(class, kept, letter);
            assert(!in_class(kept, p[t]));
            if has_class(p, kept) {
                let i = choose|i: int| 0 <= i < p.len() && in_class(kept, #[trigger] p[i]);
                assert(i != t);
                assert(in_class(kept, password[i]));
            }
            if has_class(password, kept) && !displaces(password, cfg, class, kept, pending) {
                let i = choose|i: int|
                    0 <= i < password.len() && in_class(kept, #[trigger] password[i]) && i != t;
                assert(in_class(kept, p[i]));
            }
        }
    }
}

/// Where symbols are required and not wholly excluded, the enforced
/// password holds a symbol.
pub proof fn law_symbol_present(password: Seq<u8>, cfg: Settings, pending: Seq<u8>)
    requires
        enforceable(password, cfg),
        cfg.wants_symbol(),
        class_pool(cfg, CharClass::Symbol).len() > 0,
    ensures
        enforce(password, cfg, pending) matches Some((p, n)) ==> has_class(p, CharClass::Symbol),
{
    lemma_enforce_shape(password, cfg, pending);
    if let Some((digit_done, n2)) = after_digit(password, cfg, pending) {
        lemma_step_establishes(digit_done, cfg, CharClass::Symbol, pending.skip(n2 as int));
    }
}

/// Where digits are required and not wholly excluded, the enforced
/// password holds a digit, unless the step for symbols overwrote the only
/// one.
pub proof fn law_digit_present(password: Seq<u8>, cfg: Settings, pending: Seq<u8>)
    requires
        enforceable(password, cfg),
        cfg.wants_digit(),
        class_pool(cfg, CharClass::Digit).len() > 0,
    ensures
        enforce(password, cfg, pending) matches Some((p, n)) ==> (has_class(p, CharClass::Digit)
            <==> !displaces(
            after_digit(password, cfg, pending).unwrap().0,
            cfg,
            CharClass::Symbol,
            CharClass::Digit,
            pending.skip(after_digit(password, cfg, pending).unwrap().1 as int),
        )),
{
    lemma_enforce_shape(password, cfg, pending);
    if let Some((upper_done, n1)) = after_upper(password, cfg, pending) {
        lemma_step_establishes(upper_done, cfg, CharClass::Digit, pending.skip(n1 as int));
        if let Some((digit_done, n2)) = after_digit(password, cfg, pending) {
            lemma_step_keeps_other(
                digit_done,
                cfg,
                CharClass::Symbol,
                CharClass::Digit,
                pending.skip(n2 as int),
            );
        }
    }
}

/// Where uppercase letters are required and not wholly excluded, the
/// enforced password holds one, unless the step for digits or the step for
/// symbols overwrote the only one.
pub proof fn law_upper_present(password: Seq<u8>, cfg: Settings, pending: Seq<u8>)
    requires
        enforceable(password, cfg),
        cfg.wants_upper(),
        class_pool(cfg, CharClass::Upper).len() > 0,
    ensures
        enforce(password, cfg, pending) matches Some((p, n)) ==> (has_class(p, CharClass::Upper)
            <==> !displaces(
            after_upper(password, cfg, pending).unwrap().0,
            cfg,
            CharClass::Digit,
            CharClass::Upper,
            pending.skip(after_upper(password, cfg, pending).unwrap().1 as int),
        ) && !displaces(
            after_digit(password, cfg, pending).unwrap().0,
            cfg,
            CharClass::Symbol,
            CharClass::Upper,
            pending.skip(after_digit(password, cfg, pending).unwrap().1 as int),
        )),
{
    lemma_enforce_shape(password, cfg, pending);
    lemma_step_establishes(password, cfg, CharClass::Upper, pending);
    if let Some((upper_done, n1)) = after_upper(password, cfg, pending) {
        lemma_step_keeps_other(upper_done, cfg, CharClass::Digit, CharClass::Upper, pending.skip(n1 as int));
        if let Some((digit_done, n2)) = after_digit(password, cfg, pending) {
            lemma_step_keeps_other(
                digit_done,
                cfg,
                CharClass::Symbol,
                CharClass::Upper,
                pending.skip(n2 as int),
            );
        }
    }
}

/// Enforcement keeps the length, keeps ASCII bytes ASCII, and draws at
/// most six bytes, none beyond the end of the supply. A supply of six
/// bytes is always enough.
pub proof fn lemma_enforce_shape(password: Seq<u8>, cfg: Settings, pending: Seq<u8>)
    requires
        enforceable(password, cfg),
    ensures
        after_upper(password, cfg, pending) matches Some((p, n)) ==> p.len() == password.len() && n
            <= 2 && n <= pending.len(),
        after_digit(password, cfg, pending) matches Some((p, n)) ==> p.len() == password.len() && n
            <= 4 && n <= pending.len(),
        enforce(password, cfg, pending) matches Some((p, n)) ==> p.len() == password.len() && n
            <= 6 && n <= pending.len() && (is_ascii_bytes(password) ==> is_ascii_bytes(p)),
        pending.len() >= 6 ==> enforce(password, cfg, pending) is Some,
{
    lemma_enforce_class_keeps_ascii(password, cfg, CharClass::Upper, pending);
    if let Some((upper_done, n1)) = after_upper(password, cfg, pending) {
        lemma_enforce_class_keeps_ascii(upper_done, cfg, CharClass::Digit, pending.skip(n1 as int));
        if let Some((digit_done, n2)) = after_digit(password, cfg, pending) {
            lemma_enforce_class_keeps_ascii(digit_done, cfg, CharClass::Symbol, pending.skip(n2 as int));
        }
    }
}

/// Enforcement of a password that already holds every required class
/// changes nothing and draws nothing.
pub proof fn law_compliant_untouched(password: Seq<u8>, cfg: Settings, pending: Seq<u8>)
    requires
        compliant(password, cfg),
    ensures
        enforce(password, cfg, pending) == Some((password, 0nat)),
{
    assert(required(cfg, CharClass::Upper) ==> has_class(password, CharClass::Upper));
    assert(required(cfg, CharClass::Digit) ==> has_class(password, CharClass::Digit));
    assert(required(cfg, CharClass::Symbol) ==> has_class(password, CharClass::Symbol));
    assert(pending.skip(0) =~= pending);
}

/// Where uppercase letters are forbidden, enforcement brings none into a
/// password that has none.
pub proof fn law_forbidden_upper_stays_out(password: Seq<u8>, cfg: Settings, pending: Seq<u8>)
    requires
        enforceable(password, cfg),
        cfg.no_capitalize,
        !has_class(password, CharClass::Upper),
    ensures
        enforce(password, cfg, pending) matches Some((p, n)) ==> !has_class(p, CharClass::Upper),
{
    lemma_enforce_shape(password, cfg, pending);
    assert(pending.skip(0) =~= pending);
    lemma_step_keeps_other(password, cfg, CharClass::Digit, CharClass::Upper, pending);
    if let Some((digit_done, n2)) = after_digit(password, cfg, pending) {
        lemma_step_keeps_other(digit_done, cfg, CharClass::Symbol, CharClass::Upper, pending.skip(n2 as int));
    }
}

/// Enforcement never writes a barred byte: each byte of the enforced
/// password either stood at its place before, or is neither on the
/// exclusion list nor, where those are excluded, ambiguous.
pub proof fn law_injection_respects_exclusions(password: Seq<u8>, cfg: Settings, pending: Seq<u8>)
    requires
        enforceable(password, cfg),
    ensures
        enforce(password, cfg, pending) matches Some((p, n)) ==> forall|i: int|
            0 <= i < p.len() ==> #[trigger] p[i] == password[i] || !rejected(cfg, p[i]),
{
    lemma_enforce_shape(password, cfg, pending);
    lemma_step_writes_allowed(password, cfg, CharClass::Upper, pending);
    if let Some((upper_done, n1)) = after_upper(password, cfg, pending) {
        lemma_step_writes_allowed(upper_done, cfg, CharClass::Digit, pending.skip(n1 as int));
        if let Some((digit_done, n2)) = after_digit(password, cfg, pending) {
            lemma_step_writes_allowed(digit_done, cfg, CharClass::Symbol, pending.skip(n2 as int));
        }
    }
}

/// A step changes at most one byte, and only to a byte that may be
/// injected for its class.
pub proof fn lemma_step_writes_allowed(
    password: Seq<u8>,
    cfg: Settings,
    class: CharClass,
    pending: Seq<u8>,
)
    requires
        password.len() >= 1 || !injects(password, cfg, class),
    ensures
        enforce_class(password, cfg, class, pending) matches Some((p, n)) ==> forall|i: int|
            0 <= i < p.len() ==> #[trigger] p[i] == password[i] || (in_class(class, p[i])
                && injectable(cfg, class, p[i]) && !rejected(cfg, p[i])),
{
    if let Some((p, n)) = enforce_class(password, cfg, class, pending) {
        if injects(password, cfg, class) {
            let pool = class_pool(cfg, class);
            assert(pool.contains(pick(pool, pending[0])));
            lemma_pool_members(cfg, class);
        }
    }
}

} // verus!
