//! The pronounceable generator: consonants and vowels in turn, each
//! position sampled again while the candidate is excluded, up to a fixed
//! number of retries.

use vstd::prelude::*;
use crate::charset::{
    is_consonant, is_rejected, is_upper, is_vowel, lemma_pattern_tables, pick,
    pick_byte, rejected, CONSONANTS, CONSONANTS_LOWER, VOWELS, VOWELS_LOWER,
};
use crate::config::{Config, Settings};
use crate::entropy::{EntropySource, EntropyUnavailable};
use crate::text::{ascii_text, is_ascii_bytes, text_of_ascii};
use crate::uniform::{generate_secure_password, lemma_uniform_shape, uniform};

verus! {

/// The number of rejected candidates after which a position takes the
/// next candidate whatever it is.
pub const RETRY_CEILING: usize = 100;

/// The table that a position samples from: consonants at even positions,
/// vowels at odd ones, lowercase only where uppercase is forbidden.
pub open spec fn slot_alphabet(cfg: Settings, position: nat) -> Seq<u8> {
    if position % 2 == 0 {
        if cfg.no_capitalize {
            CONSONANTS_LOWER@
        } else {
            CONSONANTS@
        }
    } else {
        if cfg.no_capitalize {
            VOWELS_LOWER@
        } else {
            VOWELS@
        }
    }
}

/// The number of draws at the head of `pending` whose candidates are all
/// rejected.
pub open spec fn rejected_run(alphabet: Seq<u8>, cfg: Settings, pending: Seq<u8>) -> nat
    decreases pending.len(),
{
    if pending.len() > 0 && rejected(cfg, pick(alphabet, pending[0])) {
        1 + rejected_run(alphabet, cfg, pending.skip(1))
    } else {
        0
    }
}

/// The byte that one position settles on and the number of draws it
/// takes, or `None` where the supply ends first.
///
/// The position takes the first candidate that is not rejected; after
/// `RETRY_CEILING` rejected candidates it takes the next one as it comes.
pub open spec fn settle(alphabet: Seq<u8>, cfg: Settings, pending: Seq<u8>) -> Option<(u8, nat)> {
    let run = rejected_run(alphabet, cfg, pending);
    let k = if run < RETRY_CEILING {
        run
    } else {
        RETRY_CEILING as nat
    };
    if k < pending.len() {
        Some((pick(alphabet, pending[k as int]), k + 1))
    } else {
        None
    }
}

/// The first `length` positions of the pattern and the number of bytes
/// drawn for them, or `None` where the supply ends first.
pub open spec fn pattern(length: nat, cfg: Settings, pending: Seq<u8>) -> Option<(Seq<u8>, nat)>
    decreases length,
{
    if length == 0 {
        Some((Seq::empty(), 0nat))
    } else {
        match pattern((length - 1) as nat, cfg, pending) {
            None => None,
            Some((p, n)) => match settle(
                slot_alphabet(cfg, (length - 1) as nat),
                cfg,
                pending.skip(n as int),
            ) {
                None => None,
                Some((c, k)) => Some((p.push(c), n + k)),
            },
        }
    }
}

/// The pronounceable password and the number of bytes drawn for it. Where
/// vowels are excluded no pattern is attempted, and the password is the
/// uniformly sampled one.
pub open spec fn memorable(length: nat, cfg: Settings, pending: Seq<u8>) -> Option<(Seq<u8>, nat)> {
    if cfg.no_vowels {
        uniform(length, cfg, pending)
    } else {
        pattern(length, cfg, pending)
    }
}

/// How `rejected_run` relates to a run of rejected candidates that is
/// known to stand at the head of the supply.
pub proof fn lemma_rejected_run(alphabet: Seq<u8>, cfg: Settings, pending: Seq<u8>, n: nat)
    requires
        n <= pending.len(),
        forall|j: int| 0 <= j < n ==> rejected(cfg, pick(alphabet, #[trigger] pending[j])),
    ensures
        rejected_run(alphabet, cfg, pending) >= n,
        n == pending.len() ==> rejected_run(alphabet, cfg, pending) == n,
        n < pending.len() && !rejected(cfg, pick(alphabet, pending[n as int])) ==> rejected_run(
            alphabet,
            cfg,
            pending,
        ) == n,
    decreases n,
{
    if n > 0 {
        let rest = pending.skip(1);
        assert forall|j: int| 0 <= j < n - 1 implies rejected(
            cfg,
            pick(alphabet, #[trigger] rest[j]),
        ) by {
            assert(rest[j] == pending[j + 1]);
        }
        lemma_rejected_run(alphabet, cfg, rest, (n - 1) as nat);
        assert(rejected(cfg, pick(alphabet, pending[0])));
        if n < pending.len() {
            assert(rest[n - 1] == pending[n as int]);
        }
    }
}

/// The candidates before the one that a position settles on are all
/// rejected.
pub proof fn lemma_rejected_run_all(alphabet: Seq<u8>, cfg: Settings, pending: Seq<u8>)
    ensures
        rejected_run(alphabet, cfg, pending) <= pending.len(),
        forall|j: int|
            0 <= j < rejected_run(alphabet, cfg, pending) ==> rejected(
                cfg,
                pick(alphabet, #[trigger] pending[j]),
            ),
        rejected_run(alphabet, cfg, pending) < pending.len() ==> !rejected(
            cfg,
            pick(alphabet, pending[rejected_run(alphabet, cfg, pending) as int]),
        ),
    decreases pending.len(),
{
    if pending.len() > 0 && rejected(cfg, pick(alphabet, pending[0])) {
        let rest = pending.skip(1);
        lemma_rejected_run_all(alphabet, cfg, rest);
        assert forall|j: int| 0 <= j < rejected_run(alphabet, cfg, pending) implies rejected(
            cfg,
            pick(alphabet, #[trigger] pending[j]),
        ) by {
            if j > 0 {
                assert(rest[j - 1] == pending[j]);
            }
        }
        if rejected_run(alphabet, cfg, pending) < pending.len() {
            assert(rest[rejected_run(alphabet, cfg, rest) as int] == pending[rejected_run(
                alphabet,
                cfg,
                pending,
            ) as int]);
        }
    }
}

/// What holds of the byte a position settles on: it comes from the
/// position's table; it takes at most `RETRY_CEILING + 1` draws, and it is
/// not rejected unless it took that many. A supply of that many bytes is
/// always enough.
pub proof fn lemma_settle(alphabet: Seq<u8>, cfg: Settings, pending: Seq<u8>)
    requires
        alphabet.len() > 0,
    ensures
        settle(alphabet, cfg, pending) matches Some((c, k)) ==> {
            &&& alphabet.contains(c)
            &&& 1 <= k <= RETRY_CEILING + 1
            &&& k <= pending.len()
            &&& k <= RETRY_CEILING ==> !rejected(cfg, c)
        },
        pending.len() > RETRY_CEILING ==> settle(alphabet, cfg, pending) is Some,
{
    lemma_rejected_run_all(alphabet, cfg, pending);
    if let Some((c, k)) = settle(alphabet, cfg, pending) {
        let at = (pending[k - 1] as int) % (alphabet.len() as int);
        assert(alphabet[at] == c);
    }
}

/// Samples one position: draws candidates from `alphabet` until one is
/// not rejected, and takes candidate number `RETRY_CEILING + 1` as it
/// comes.
pub fn sample_position(alphabet: &[u8], config: &Config, rng: &mut EntropySource) -> (r: Result<
    u8,
    EntropyUnavailable,
>)
    requires
        alphabet@.len() > 0,
    ensures
        match settle(alphabet@, config@, old(rng)@) {
            Some((c, k)) => r == Ok::<u8, EntropyUnavailable>(c) && final(rng)@ == old(rng)@.skip(
                k as int,
            ),
            None => r is Err && final(rng)@.len() == 0,
        },
{
    let mut attempts: usize = 0;
    assert(rng@.skip(0) =~= rng@);
    loop
        invariant
            alphabet@.len() > 0,
            attempts <= RETRY_CEILING,
            attempts <= old(rng)@.len(),
            rng@ == old(rng)@.skip(attempts as int),
            forall|j: int|
                0 <= j < attempts ==> rejected(config@, pick(alphabet@, #[trigger] old(rng)@[j])),
        decreases RETRY_CEILING - attempts,
    {
        proof {
            lemma_rejected_run(alphabet@, config@, old(rng)@, attempts as nat);
        }
        let byte = match rng.next_byte() {
            Ok(b) => b,
            Err(e) => {
                return Err(e);
            },
        };
        assert(byte == old(rng)@[attempts as int]);
        assert(rng@ =~= old(rng)@.skip(attempts + 1));
        let candidate = pick_byte(alphabet, byte);
        if is_rejected(config, candidate) {
            if attempts >= RETRY_CEILING {
                proof {
                    lemma_rejected_run(alphabet@, config@, old(rng)@, (attempts + 1) as nat);
                }
                return Ok(candidate);
            }
            attempts += 1;
        } else {
            return Ok(candidate);
        }
    }
}

/// A pattern that cannot be completed for some length cannot be completed
/// for a greater one.
pub proof fn lemma_pattern_fails_on(shorter: nat, length: nat, cfg: Settings, pending: Seq<u8>)
    requires
        shorter <= length,
        pattern(shorter, cfg, pending) is None,
    ensures
        pattern(length, cfg, pending) is None,
    decreases length,
{
    if shorter < length {
        lemma_pattern_fails_on(shorter, (length - 1) as nat, cfg, pending);
    }
}

/// Generates a pronounceable password of `length` bytes: a consonant at
/// each even position and a vowel at each odd one, each sampled until the
/// candidate is neither on the exclusion list nor, where those are
/// excluded, ambiguous. After `RETRY_CEILING` rejected candidates a
/// position takes the next one whatever it is.
///
/// Where vowels are excluded no pattern is attempted: the password is
/// sampled uniformly from the configuration's alphabet.
///
/// The password is not yet held to the required character classes: that
/// is the work of `apply_requirements`.
pub fn generate_memorable_password(length: usize, config: &Config, rng: &mut EntropySource) -> (r:
    Result<String, EntropyUnavailable>)
    ensures
        match memorable(length as nat, config@, old(rng)@) {
            Some((p, n)) => r matches Ok(s) && s@ == ascii_text(p) && s@.len() == length
                && final(rng)@ == old(rng)@.skip(n as int),
            None => r is Err && final(rng)@.len() == 0,
        },
{
    if config.no_vowels {
        return generate_secure_password(length, config, rng);
    }
    let mut password: Vec<u8> = Vec::new();
    let ghost mut drawn: nat = 0;
    let mut i: usize = 0;
    assert(rng@.skip(0) =~= rng@);
    while i < length
        invariant
            i <= length,
            !config@.no_vowels,
            drawn <= old(rng)@.len(),
            rng@ == old(rng)@.skip(drawn as int),
            pattern(i as nat, config@, old(rng)@) == Some((password@, drawn)),
        decreases length - i,
    {
        let sampled = if i % 2 == 0 {
            if config.no_capitalize {
                sample_position(&CONSONANTS_LOWER, config, rng)
            } else {
                sample_position(&CONSONANTS, config, rng)
            }
        } else {
            if config.no_capitalize {
                sample_position(&VOWELS_LOWER, config, rng)
            } else {
                sample_position(&VOWELS, config, rng)
            }
        };
        proof {
            lemma_settle(slot_alphabet(config@, i as nat), config@, old(rng)@.skip(drawn as int));
        }
        match sampled {
            Ok(c) => {
                password.push(c);
                proof {
                    let k = settle(
                        slot_alphabet(config@, i as nat),
                        config@,
                        old(rng)@.skip(drawn as int),
                    ).unwrap().1;
                    assert(old(rng)@.skip(drawn as int).skip(k as int) =~= old(rng)@.skip(
                        (drawn + k) as int,
                    ));
                    drawn = drawn + k;
                }
            },
            Err(e) => {
                proof {
                    assert(pattern((i + 1) as nat, config@, old(rng)@) is None);
                    lemma_pattern_fails_on((i + 1) as nat, length as nat, config@, old(rng)@);
                }
                return Err(e);
            },
        }
        i += 1;
    }
    proof {
        lemma_pattern_shape(length as nat, config@, old(rng)@);
    }
    Ok(text_of_ascii(password))
}

/// The pattern up to a position is the head of the pattern up to any later
/// one, and draws no more bytes.
pub proof fn lemma_pattern_prefix(shorter: nat, length: nat, cfg: Settings, pending: Seq<u8>)
    requires
        shorter <= length,
        pattern(length, cfg, pending) is Some,
    ensures
        pattern(shorter, cfg, pending) matches Some((q, m)) && {
            let (p, n) = pattern(length, cfg, pending).unwrap();
            q == p.take(shorter as int) && m <= n && q.len() == shorter
        },
    decreases length,
{
    let (p, n) = pattern(length, cfg, pending).unwrap();
    if length == 0 {
        assert(p.take(0) =~= p);
    } else if shorter == length {
        lemma_pattern_prefix((length - 1) as nat, (length - 1) as nat, cfg, pending);
        assert(p.take(length as int) =~= p);
    } else {
        lemma_pattern_prefix(shorter, (length - 1) as nat, cfg, pending);
        let (longer, n1) = pattern((length - 1) as nat, cfg, pending).unwrap();
        lemma_pattern_prefix((length - 1) as nat, (length - 1) as nat, cfg, pending);
        assert(longer.take(shorter as int) =~= p.take(shorter as int));
    }
}

/// What holds of every pattern: it has the requested length and is ASCII;
/// the byte at each position comes from the position's table, so that
/// consonants stand at the even positions and vowels at the odd ones, and
/// no uppercase letter occurs where those are forbidden. It draws at most
/// `RETRY_CEILING + 1` bytes for each position, and a supply of that many
/// for each position is always enough.
pub proof fn lemma_pattern_shape(length: nat, cfg: Settings, pending: Seq<u8>)
    ensures
        pattern(length, cfg, pending) matches Some((p, n)) ==> {
            &&& p.len() == length
            &&& length <= n <= pending.len()
            &&& n <= length * (RETRY_CEILING + 1)
            &&& is_ascii_bytes(p)
            &&& forall|i: int|
                0 <= i < p.len() ==> slot_alphabet(cfg, i as nat).contains(#[trigger] p[i])
            &&& forall|i: int| 0 <= i < p.len() && i % 2 == 0 ==> is_consonant(#[trigger] p[i])
            &&& forall|i: int| 0 <= i < p.len() && i % 2 == 1 ==> is_vowel(#[trigger] p[i])
            &&& cfg.no_capitalize ==> forall|i: int| 0 <= i < p.len() ==> !is_upper(#[trigger] p[i])
        },
        pending.len() >= length * (RETRY_CEILING + 1) ==> pattern(length, cfg, pending) is Some,
    decreases length,
{
    lemma_pattern_tables();
    if length > 0 {
        let before = (length - 1) as nat;
        lemma_pattern_shape(before, cfg, pending);
        assert(length * (RETRY_CEILING + 1) == before * (RETRY_CEILING + 1) + (RETRY_CEILING + 1))
            by (nonlinear_arith)
            requires
                before == length - 1,
        ;
        if let Some((head, n0)) = pattern(before, cfg, pending) {
            let alphabet = slot_alphabet(cfg, before);
            lemma_settle(alphabet, cfg, pending.skip(n0 as int));
            if let Some((p, n)) = pattern(length, cfg, pending) {
                assert forall|i: int| 0 <= i < p.len() implies slot_alphabet(
                    cfg,
                    i as nat,
                ).contains(#[trigger] p[i]) by {
                    if i < before {
                        assert(p[i] == head[i]);
                    }
                }
                assert forall|i: int| 0 <= i < p.len() implies #[trigger] p[i] < 128 by {
                    assert(slot_alphabet(cfg, i as nat).contains(p[i]));
                }
                assert forall|i: int| 0 <= i < p.len() && i % 2 == 0 implies is_consonant(
                    #[trigger] p[i],
                ) by {
                    assert(slot_alphabet(cfg, i as nat).contains(p[i]));
                }
                assert forall|i: int| 0 <= i < p.len() && i % 2 == 1 implies is_vowel(
                    #[trigger] p[i],
                ) by {
                    assert(slot_alphabet(cfg, i as nat).contains(p[i]));
                }
                if cfg.no_capitalize {
                    assert forall|i: int| 0 <= i < p.len() implies !is_upper(#[trigger] p[i]) by {
                        assert(slot_alphabet(cfg, i as nat).contains(p[i]));
                    }
                }
            }
        }
    }
}

/// The byte at a position is neither on the exclusion list nor, where
/// those are excluded, ambiguous, unless the position ran into the retry
/// ceiling, that is, took `RETRY_CEILING + 1` draws.
pub proof fn law_pattern_respects_exclusions(
    length: nat,
    cfg: Settings,
    pending: Seq<u8>,
    position: nat,
)
    requires
        position < length,
        pattern(length, cfg, pending) is Some,
    ensures
        pattern(position, cfg, pending) is Some,
        pattern(position + 1, cfg, pending) is Some,
        ({
            let p = pattern(length, cfg, pending).unwrap().0;
            let before = pattern(position, cfg, pending).unwrap().1;
            let after = pattern(position + 1, cfg, pending).unwrap().1;
            1 <= after - before <= RETRY_CEILING + 1 && (after - before <= RETRY_CEILING
                ==> !rejected(cfg, p[position as int]))
        }),
{
    lemma_pattern_tables();
    lemma_pattern_prefix(position + 1, length, cfg, pending);
    lemma_pattern_prefix(position, position + 1, cfg, pending);
    let (p, n) = pattern(length, cfg, pending).unwrap();
    let (head, n0) = pattern(position, cfg, pending).unwrap();
    let (longer, n1) = pattern(position + 1, cfg, pending).unwrap();
    lemma_settle(slot_alphabet(cfg, position), cfg, pending.skip(n0 as int));
    lemma_pattern_shape(length, cfg, pending);
    let (c, k) = settle(slot_alphabet(cfg, position), cfg, pending.skip(n0 as int)).unwrap();
    assert(longer == head.push(c) && n1 == n0 + k);
    assert(longer[position as int] == c);
    assert(p[position as int] == p.take(position as int + 1)[position as int]);
}

/// What holds of every pronounceable password, pattern or not: it has the
/// requested length, is ASCII, and holds no uppercase letter where those
/// are forbidden.
pub proof fn lemma_memorable_shape(length: nat, cfg: Settings, pending: Seq<u8>)
    ensures
        memorable(length, cfg, pending) matches Some((p, n)) ==> {
            &&& p.len() == length
            &&& n <= pending.len()
            &&& is_ascii_bytes(p)
            &&& cfg.no_capitalize ==> forall|i: int| 0 <= i < p.len() ==> !is_upper(#[trigger] p[i])
        },
        pending.len() >= length * (RETRY_CEILING + 1) ==> memorable(length, cfg, pending) is Some,
{
    lemma_uniform_shape(length, cfg, pending);
    lemma_pattern_shape(length, cfg, pending);
    assert(length * (RETRY_CEILING + 1) >= length) by (nonlinear_arith);
}

} // verus!
