//! The random source that a caller supplies.

use vstd::prelude::*;

verus! {

/// A sequential source of random numbers. Nothing is assumed of what it
/// returns: every result of the library is stated for whatever was drawn.
pub trait RandomSource {
    /// The next number, meant to be uniform over all of `u32`. Read as a
    /// fraction of `2^32` it is a sample from `[0, 1)`.
    fn next_u32(&mut self) -> u32;
}

/// Draws `count` numbers, in order.
pub fn draw_samples<R: RandomSource>(rng: &mut R, count: usize) -> (samples: Vec<u32>)
    ensures
        samples@.len() == count,
{
    let mut samples: Vec<u32> = Vec::new();
    let mut i: usize = 0;
    while i < count
        invariant
            i <= count,
            samples@.len() == i,
        decreases count - i,
    {
        let raw: u32 = rng.next_u32();
        samples.push(raw);
        i += 1;
    }
    samples
}

} // verus!
