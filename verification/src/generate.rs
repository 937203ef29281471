//! One password from generator to enforcement, and a run of them.

use vstd::prelude::*;
use vstd::string::*;
use crate::charset::{charset, is_consonant, is_vowel, rejected, NUMERALS, UPPERCASE};
use crate::config::{Config, Settings};
use crate::enforce::{
    after_digit, after_upper, apply_requirements, class_pool, displaces, enforce, has_class,
    injectable, law_digit_present, law_forbidden_upper_stays_out,
    law_injection_respects_exclusions, law_symbol_present, law_upper_present,
    lemma_enforce_shape, CharClass,
};
use crate::entropy::{EntropySource, EntropyUnavailable};
use crate::pattern::{
    generate_memorable_password, lemma_memorable_shape, lemma_pattern_shape, memorable,
    RETRY_CEILING,
};
use crate::text::{ascii_text, is_ascii_bytes, lemma_ascii_encoding};
use crate::uniform::{generate_secure_password, lemma_uniform_shape, uniform};

verus! {

/// The password as the configured generator fills it, before enforcement:
/// sampled uniformly in secure mode, pronounceable otherwise.
pub open spec fn filled(cfg: Settings, pending: Seq<u8>) -> Option<(Seq<u8>, nat)> {
    if cfg.secure {
        uniform(cfg.pw_length, cfg, pending)
    } else {
        memorable(cfg.pw_length, cfg, pending)
    }
}

/// One finished password and the number of bytes drawn for it: the
/// generator's password after enforcement, which draws from what the
/// generator left of the supply.
pub open spec fn finished(cfg: Settings, pending: Seq<u8>) -> Option<(Seq<u8>, nat)> {
    match filled(cfg, pending) {
        None => None,
        Some((p, n)) => match enforce(p, cfg, pending.skip(n as int)) {
            None => None,
            Some((q, m)) => Some((q, n + m)),
        },
    }
}

/// The first `count` passwords of a run and the number of bytes drawn for
/// them. Each password draws from what the one before left of the supply.
pub open spec fn batch(count: nat, cfg: Settings, pending: Seq<u8>) -> Option<(Seq<Seq<u8>>, nat)>
    decreases count,
{
    if count == 0 {
        Some((Seq::empty(), 0nat))
    } else {
        match batch((count - 1) as nat, cfg, pending) {
            None => None,
            Some((done, n)) => match finished(cfg, pending.skip(n as int)) {
                None => None,
                Some((p, m)) => Some((done.push(p), n + m)),
            },
        }
    }
}

/// The greatest number of bytes that one password can draw: for each
/// position as many as the retry ceiling allows, and two for each of the
/// three steps of enforcement.
pub open spec fn draw_bound(cfg: Settings) -> nat {
    (cfg.pw_length * (RETRY_CEILING + 1) + 6) as nat
}

/// What holds of every finished password: it has the configured length
/// and is ASCII, and it drew no more than `draw_bound` bytes. A supply of
/// `draw_bound` bytes is always enough.
pub proof fn lemma_finished_shape(cfg: Settings, pending: Seq<u8>)
    requires
        cfg.pw_length >= 1,
    ensures
        filled(cfg, pending) matches Some((p, n)) ==> p.len() == cfg.pw_length && is_ascii_bytes(p)
            && n <= pending.len() && n <= cfg.pw_length * (RETRY_CEILING + 1),
        finished(cfg, pending) matches Some((q, m)) ==> q.len() == cfg.pw_length && is_ascii_bytes(
            q,
        ) && m <= pending.len() && m <= draw_bound(cfg),
        pending.len() >= draw_bound(cfg) ==> finished(cfg, pending) is Some,
{
    let length = cfg.pw_length;
    lemma_uniform_shape(length, cfg, pending);
    lemma_memorable_shape(length, cfg, pending);
    lemma_pattern_shape(length, cfg, pending);
    assert(length * (RETRY_CEILING + 1) >= length) by (nonlinear_arith);
    if let Some((p, n)) = filled(cfg, pending) {
        lemma_enforce_shape(p, cfg, pending.skip(n as int));
    }
}

/// Where uppercase letters are forbidden, no password holds one, neither
/// as the generator fills it nor after enforcement.
pub proof fn law_forbidden_upper_absent(cfg: Settings, pending: Seq<u8>)
    requires
        cfg.pw_length >= 1,
        cfg.no_capitalize,
    ensures
        filled(cfg, pending) matches Some((p, n)) ==> !has_class(p, CharClass::Upper),
        finished(cfg, pending) matches Some((q, m)) ==> !has_class(q, CharClass::Upper),
{
    lemma_uniform_shape(cfg.pw_length, cfg, pending);
    lemma_memorable_shape(cfg.pw_length, cfg, pending);
    if let Some((p, n)) = filled(cfg, pending) {
        law_forbidden_upper_stays_out(p, cfg, pending.skip(n as int));
    }
}

/// In secure mode, unless the exclusions leave no alphabet, no byte of a
/// finished password is on the exclusion list or, where those are
/// excluded, ambiguous.
pub proof fn law_secure_respects_exclusions(cfg: Settings, pending: Seq<u8>)
    requires
        cfg.pw_length >= 1,
        cfg.secure,
        charset(cfg).len() > 0,
    ensures
        finished(cfg, pending) matches Some((q, m)) ==> forall|i: int|
            0 <= i < q.len() ==> !rejected(cfg, #[trigger] q[i]),
{
    lemma_uniform_shape(cfg.pw_length, cfg, pending);
    if let Some((p, n)) = filled(cfg, pending) {
        law_injection_respects_exclusions(p, cfg, pending.skip(n as int));
        lemma_enforce_shape(p, cfg, pending.skip(n as int));
    }
}

/// What holds of every run: it gives as many passwords as were asked
/// for, each of the configured length and ASCII.
pub proof fn lemma_batch_shape(count: nat, cfg: Settings, pending: Seq<u8>)
    requires
        cfg.pw_length >= 1,
    ensures
        batch(count, cfg, pending) matches Some((ps, n)) ==> ps.len() == count && n
            <= pending.len() && forall|i: int|
            0 <= i < ps.len() ==> (#[trigger] ps[i]).len() == cfg.pw_length && is_ascii_bytes(ps[i]),
    decreases count,
{
    if count > 0 {
        lemma_batch_shape((count - 1) as nat, cfg, pending);
        if let Some((done, n)) = batch((count - 1) as nat, cfg, pending) {
            lemma_finished_shape(cfg, pending.skip(n as int));
        }
    }
}

/// A supply of `draw_bound` bytes for each password is enough for a
/// whole run, and the run draws no more than that.
pub proof fn lemma_batch_supply(count: nat, cfg: Settings, pending: Seq<u8>)
    requires
        cfg.pw_length >= 1,
        pending.len() >= count * draw_bound(cfg),
    ensures
        batch(count, cfg, pending) matches Some((ps, n)) && n <= count * draw_bound(cfg),
    decreases count,
{
    if count > 0 {
        let before = (count - 1) as nat;
        assert(count * draw_bound(cfg) == before * draw_bound(cfg) + draw_bound(cfg))
            by (nonlinear_arith)
            requires
                before == count - 1,
        ;
        lemma_batch_supply(before, cfg, pending);
        let (done, n) = batch(before, cfg, pending).unwrap();
        lemma_finished_shape(cfg, pending.skip(n as int));
    }
}

/// The required classes in a finished password. Where its class is
/// required and not wholly excluded, the password holds a symbol; it
/// holds a digit unless the step for symbols overwrote the only one; and
/// it holds an uppercase letter unless the step for digits or the step
/// for symbols overwrote the only one.
pub proof fn law_finished_classes(cfg: Settings, pending: Seq<u8>)
    requires
        cfg.pw_length >= 1,
    ensures
        finished(cfg, pending) matches Some((q, m)) ==> ({
            let (p, n) = filled(cfg, pending).unwrap();
            let rest = pending.skip(n as int);
            let (upper_done, upper_drawn) = after_upper(p, cfg, rest).unwrap();
            let (digit_done, digit_drawn) = after_digit(p, cfg, rest).unwrap();
            &&& cfg.wants_symbol() && class_pool(cfg, CharClass::Symbol).len() > 0 ==> has_class(
                q,
                CharClass::Symbol,
            )
            &&& cfg.wants_digit() && class_pool(cfg, CharClass::Digit).len() > 0 ==> (has_class(
                q,
                CharClass::Digit,
            ) <==> !displaces(
                digit_done,
                cfg,
                CharClass::Symbol,
                CharClass::Digit,
                rest.skip(digit_drawn as int),
            ))
            &&& cfg.wants_upper() && class_pool(cfg, CharClass::Upper).len() > 0 ==> (has_class(
                q,
                CharClass::Upper,
            ) <==> !displaces(
                upper_done,
                cfg,
                CharClass::Digit,
                CharClass::Upper,
                rest.skip(upper_drawn as int),
            ) && !displaces(
                digit_done,
                cfg,
                CharClass::Symbol,
                CharClass::Upper,
                rest.skip(digit_drawn as int),
            ))
        }),
{
    lemma_finished_shape(cfg, pending);
    if let Some((p, n)) = filled(cfg, pending) {
        let rest = pending.skip(n as int);
        if cfg.wants_symbol() && class_pool(cfg, CharClass::Symbol).len() > 0 {
            law_symbol_present(p, cfg, rest);
        }
        if cfg.wants_digit() && class_pool(cfg, CharClass::Digit).len() > 0 {
            law_digit_present(p, cfg, rest);
        }
        if cfg.wants_upper() && class_pool(cfg, CharClass::Upper).len() > 0 {
            law_upper_present(p, cfg, rest);
        }
    }
}

/// The settings of a pronounceable run that asks for an uppercase letter
/// and a digit, for no symbol, and excludes nothing.
pub open spec fn plain_pattern_run(cfg: Settings) -> bool {
    &&& cfg.wants_upper()
    &&& cfg.wants_digit()
    &&& !cfg.wants_symbol()
    &&& cfg.remove_chars is None
    &&& !cfg.ambiguous
    &&& !cfg.no_vowels
    &&& !cfg.secure
}

/// A password of a run with the settings above: before enforcement
/// consonants stand at its even positions and vowels at its odd ones;
/// after enforcement it has the configured length and holds a digit, and
/// it holds an uppercase letter unless the step for digits overwrote the
/// only one.
pub proof fn law_plain_pattern_run(cfg: Settings, pending: Seq<u8>)
    requires
        cfg.pw_length >= 1,
        plain_pattern_run(cfg),
    ensures
        finished(cfg, pending) matches Some((q, m)) ==> ({
            let (p, n) = filled(cfg, pending).unwrap();
            let rest = pending.skip(n as int);
            let (upper_done, upper_drawn) = after_upper(p, cfg, rest).unwrap();
            &&& forall|i: int| 0 <= i < p.len() && i % 2 == 0 ==> is_consonant(#[trigger] p[i])
            &&& forall|i: int| 0 <= i < p.len() && i % 2 == 1 ==> is_vowel(#[trigger] p[i])
            &&& q.len() == cfg.pw_length
            &&& has_class(q, CharClass::Digit)
            &&& has_class(q, CharClass::Upper) <==> !displaces(
                upper_done,
                cfg,
                CharClass::Digit,
                CharClass::Upper,
                rest.skip(upper_drawn as int),
            )
        }),
{
    lemma_finished_shape(cfg, pending);
    lemma_pattern_shape(cfg.pw_length, cfg, pending);
    law_finished_classes(cfg, pending);
    let keep_upper = |b: u8| injectable(cfg, CharClass::Upper, b);
    let keep_digit = |b: u8| injectable(cfg, CharClass::Digit, b);
    assert(keep_upper(UPPERCASE@[0]));
    UPPERCASE@.lemma_filter_contains(keep_upper, 0);
    assert(keep_digit(NUMERALS@[0]));
    NUMERALS@.lemma_filter_contains(keep_digit, 0);
    if let Some((p, n)) = filled(cfg, pending) {
        lemma_enforce_shape(p, cfg, pending.skip(n as int));
    }
}

/// Generates one password: fills it with the configured generator, then
/// injects the required character classes.
pub fn generate_password(config: &Config, rng: &mut EntropySource) -> (r: Result<
    String,
    EntropyUnavailable,
>)
    requires
        config.pw_length >= 1,
    ensures
        match finished(config@, old(rng)@) {
            Some((p, n)) => r matches Ok(s) && s@ == ascii_text(p) && s@.len() == config.pw_length
                && final(rng)@ == old(rng)@.skip(n as int),
            None => r is Err && final(rng)@.len() == 0,
        },
{
    proof {
        lemma_finished_shape(config@, rng@);
    }
    let generated = if config.secure {
        generate_secure_password(config.pw_length, config, rng)
    } else {
        generate_memorable_password(config.pw_length, config, rng)
    };
    let text = match generated {
        Ok(s) => s,
        Err(e) => {
            return Err(e);
        },
    };
    let bytes = text.as_str().as_bytes_vec();
    proof {
        let (p, n) = filled(config@, old(rng)@).unwrap();
        lemma_ascii_encoding(p);
        assert(bytes@ == p);
        let rest = old(rng)@.skip(n as int);
        if let Some((q, m)) = enforce(p, config@, rest) {
            assert(rest.skip(m as int) =~= old(rng)@.skip((n + m) as int));
        }
    }
    apply_requirements(bytes, config, rng)
}

/// A run that cannot be completed for some count cannot be completed for
/// a greater one.
pub proof fn lemma_batch_fails_on(fewer: nat, count: nat, cfg: Settings, pending: Seq<u8>)
    requires
        fewer <= count,
        batch(fewer, cfg, pending) is None,
    ensures
        batch(count, cfg, pending) is None,
    decreases count,
{
    if fewer < count {
        lemma_batch_fails_on(fewer, (count - 1) as nat, cfg, pending);
    }
}

/// Generates the configured number of passwords, one after the other
/// from the same supply. A failing draw ends the run: no password is
/// returned then.
pub fn generate_passwords(config: &Config, rng: &mut EntropySource) -> (r: Result<
    Vec<String>,
    EntropyUnavailable,
>)
    requires
        config.pw_length >= 1,
    ensures
        match batch(config.num_pw as nat, config@, old(rng)@) {
            Some((ps, n)) => r matches Ok(v) && v@.len() == config.num_pw && (forall|i: int|
                0 <= i < v@.len() ==> (#[trigger] v@[i])@ == ascii_text(ps[i])) && final(rng)@
                == old(rng)@.skip(n as int),
            None => r is Err && final(rng)@.len() == 0,
        },
{
    let mut passwords: Vec<String> = Vec::new();
    let ghost mut drawn: nat = 0;
    let ghost mut done: Seq<Seq<u8>> = Seq::empty();
    let mut i: usize = 0;
    assert(rng@.skip(0) =~= rng@);
    while i < config.num_pw
        invariant
            i <= config.num_pw,
            config.pw_length >= 1,
            rng@ == old(rng)@.skip(drawn as int),
            drawn <= old(rng)@.len(),
            batch(i as nat, config@, old(rng)@) == Some((done, drawn)),
            passwords@.len() == i,
            done.len() == i,
            forall|j: int| 0 <= j < i ==> (#[trigger] passwords@[j])@ == ascii_text(done[j]),
        decreases config.num_pw - i,
    {
        proof {
            lemma_finished_shape(config@, rng@);
        }
        match generate_password(config, rng) {
            Ok(s) => {
                proof {
                    let (p, m) = finished(config@, old(rng)@.skip(drawn as int)).unwrap();
                    assert(old(rng)@.skip(drawn as int).skip(m as int) =~= old(rng)@.skip(
                        (drawn + m) as int,
                    ));
                    done = done.push(p);
                    drawn = drawn + m;
                }
                passwords.push(s);
            },
            Err(e) => {
                proof {
                    assert(batch((i + 1) as nat, config@, old(rng)@) is None);
                    lemma_batch_fails_on((i + 1) as nat, config.num_pw as nat, config@, old(rng)@);
                }
                return Err(e);
            },
        }
        i += 1;
    }
    Ok(passwords)
}

/// The number of bytes that is enough for one password whatever is drawn,
/// or `None` where that number does not fit the machine's word.
pub fn entropy_budget(config: &Config) -> (r: Option<usize>)
    ensures
        match r {
            Some(b) => b == draw_bound(config@),
            None => draw_bound(config@) > usize::MAX,
        },
{
    match config.pw_length.checked_mul(RETRY_CEILING + 1) {
        Some(draws) => draws.checked_add(6),
        None => None,
    }
}

} // verus!
