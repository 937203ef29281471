//! The uniform generator: every position is sampled independently from
//! the whole alphabet of the configuration.

use vstd::prelude::*;
use crate::charset::{
    admitted, build_charset, charset, is_upper, lemma_charset_classes, lemma_charset_members,
    pick, pick_byte,
};
use crate::config::{Config, Settings};
use crate::entropy::{EntropySource, EntropyUnavailable};
use crate::text::{ascii_text, is_ascii_bytes, text_of_ascii};

verus! {

/// The password given where the exclusions leave no alphabet: the letter
/// `a`, `length` times.
pub open spec fn fallback(length: nat) -> Seq<u8> {
    Seq::new(length, |i: int| 'a' as u8)
}

/// One byte of the alphabet for each draw, in the order of the draws.
pub open spec fn uniform_fill(alphabet: Seq<u8>, draws: Seq<u8>) -> Seq<u8> {
    Seq::new(draws.len(), |i: int| pick(alphabet, draws[i]))
}

/// The uniformly sampled password and the number of bytes drawn for it,
/// or `None` where the supply holds fewer than `length` bytes.
///
/// With an empty alphabet the result is the fallback, and nothing is
/// drawn.
pub open spec fn uniform(length: nat, cfg: Settings, pending: Seq<u8>) -> Option<(Seq<u8>, nat)> {
    if charset(cfg).len() == 0 {
        Some((fallback(length), 0nat))
    } else if pending.len() < length {
        None
    } else {
        Some((uniform_fill(charset(cfg), pending.take(length as int)), length))
    }
}

/// What holds of every uniformly sampled password: it has the requested
/// length and is ASCII; unless it is the fallback, each of its bytes
/// belongs to the alphabet, so that none is excluded, and none is an
/// uppercase letter where those are forbidden.
pub proof fn lemma_uniform_shape(length: nat, cfg: Settings, pending: Seq<u8>)
    ensures
        uniform(length, cfg, pending) matches Some((p, n)) ==> {
            &&& p.len() == length
            &&& n <= pending.len()
            &&& is_ascii_bytes(p)
            &&& charset(cfg).len() > 0 ==> forall|i: int|
                0 <= i < p.len() ==> charset(cfg).contains(#[trigger] p[i]) && admitted(cfg, p[i])
            &&& cfg.no_capitalize ==> forall|i: int| 0 <= i < p.len() ==> !is_upper(#[trigger] p[i])
        },
        pending.len() >= length ==> uniform(length, cfg, pending) is Some,
{
    if let Some((p, n)) = uniform(length, cfg, pending) {
        lemma_charset_members(cfg);
        lemma_charset_classes(cfg);
        let alphabet = charset(cfg);
        if alphabet.len() > 0 {
            assert forall|i: int| 0 <= i < p.len() implies alphabet.contains(#[trigger] p[i]) by {
                let k = (pending[i] as int) % (alphabet.len() as int);
                assert(alphabet[k] == p[i]);
            }
        }
    }
}

/// Generates a password of `length` bytes, each sampled from the
/// configuration's alphabet by one random byte, taken modulo the
/// alphabet's size.
///
/// Where the exclusions leave no alphabet, the password is `length` times
/// the letter `a`, and no byte is drawn.
pub fn generate_secure_password(length: usize, config: &Config, rng: &mut EntropySource) -> (r:
    Result<String, EntropyUnavailable>)
    ensures
        match uniform(length as nat, config@, old(rng)@) {
            Some((p, n)) => r matches Ok(s) && s@ == ascii_text(p) && s@.len() == length
                && final(rng)@ == old(rng)@.skip(n as int),
            None => r is Err && final(rng)@.len() == 0,
        },
{
    let alphabet = build_charset(config);
    let mut password: Vec<u8> = Vec::new();
    proof {
        lemma_uniform_shape(length as nat, config@, rng@);
    }
    if alphabet.len() == 0 {
        let mut i: usize = 0;
        while i < length
            invariant
                i <= length,
                password@ == fallback(i as nat),
            decreases length - i,
        {
            password.push(97u8);
            i += 1;
            assert(password@ =~= fallback(i as nat));
        }
        assert(rng@.skip(0) =~= rng@);
        return Ok(text_of_ascii(password));
    }
    let mut i: usize = 0;
    while i < length
        invariant
            i <= length,
            alphabet@ == charset(config@),
            alphabet@.len() > 0,
            i <= old(rng)@.len(),
            rng@ == old(rng)@.skip(i as int),
            password@ == uniform_fill(alphabet@, old(rng)@.take(i as int)),
        decreases length - i,
    {
        let byte = match rng.next_byte() {
            Ok(b) => b,
            Err(e) => {
                return Err(e);
            },
        };
        password.push(pick_byte(alphabet.as_slice(), byte));
        i += 1;
        proof {
            assert(old(rng)@.skip(i - 1).skip(1) =~= old(rng)@.skip(i as int));
            assert(password@ =~= uniform_fill(alphabet@, old(rng)@.take(i as int)));
        }
    }
    Ok(text_of_ascii(password))
}

} // verus!
