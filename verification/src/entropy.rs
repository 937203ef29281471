//! The supply of random bytes that every sampling step draws from.

use std::collections::VecDeque;
use vstd::prelude::*;

verus! {

/// The supply ran out before a draw could be served.
#[derive(Debug, Clone, Copy, PartialEq, Eq, Structural)]
pub struct EntropyUnavailable;

/// A finite supply of random bytes, handed out one by one in the order in
/// which they were supplied.
///
/// Its view is the sequence of bytes that have not been drawn yet.
pub struct EntropySource {
    pending: VecDeque<u8>,
}

impl View for EntropySource {
    type V = Seq<u8>;

    closed spec fn view(&self) -> Seq<u8> {
        self.pending@
    }
}

impl EntropySource {
    /// A supply that hands out `bytes` from first to last.
    pub fn new(bytes: Vec<u8>) -> (r: EntropySource)
        ensures
            r@ == bytes@,
    {
        let mut source = EntropySource { pending: VecDeque::new() };
        source.supply(bytes.as_slice());
        source
    }

    /// The number of bytes that can still be drawn.
    pub fn remaining(&self) -> (r: usize)
        ensures
            r == self@.len(),
    {
        self.pending.len()
    }

    /// Draws the next byte, or fails where none is left.
    pub fn next_byte(&mut self) -> (r: Result<u8, EntropyUnavailable>)
        ensures
            old(self)@.len() > 0 ==> r == Ok::<u8, EntropyUnavailable>(old(self)@[0])
                && final(self)@ == old(self)@.skip(1),
            old(self)@.len() == 0 ==> r is Err && final(self)@ == old(self)@,
    {
        match self.pending.pop_front() {
            Some(b) => Ok(b),
            None => Err(EntropyUnavailable),
        }
    }

    /// Adds `more` behind the bytes that are still to be drawn.
    pub fn supply(&mut self, more: &[u8])
        ensures
            final(self)@ == old(self)@ + more@,
    {
        let mut i: usize = 0;
        while i < more.len()
            invariant
                i <= more@.len(),
                self@ == old(self)@ + more@.take(i as int),
            decreases more@.len() - i,
        {
            self.pending.push_back(more[i]);
            i += 1;
        }
        assert(more@.take(i as int) =~= more@);
    }
}

} // verus!
