//! A small seeded pseudo-random generator (splitmix64).  Every index
//! draws its randomness from one of these, so a build with a fixed seed
//! is exactly reproducible.

use vstd::prelude::*;

verus! {

pub struct Random {
    state: u64,
}

impl Random {
    pub fn new(seed: u64) -> (r: Random) {
        Random { state: seed }
    }

    /// The next raw draw.
    pub fn next_u64(&mut self) -> (r: u64) {
        let s = #[verifier::truncate] ((self.state as u128 + 0x9E3779B97F4A7C15u128) as u64);
        self.state = s;
        let z1 = s ^ (s >> 30);
        let z2 = #[verifier::truncate] ((z1 as u128 * 0xBF58476D1CE4E5B9u128) as u64);
        let z3 = z2 ^ (z2 >> 27);
        let z4 = #[verifier::truncate] ((z3 as u128 * 0x94D049BB133111EBu128) as u64);
        z4 ^ (z4 >> 31)
    }

    /// A biased coin, as the flip the partition trees use.
    pub fn flip(&mut self) -> (r: bool) {
        let v = self.next_u64();
        v % 10 > 5
    }

    /// A draw below `n`.
    pub fn index(&mut self, n: usize) -> (r: usize)
        requires
            n > 0,
        ensures
            r < n,
    {
        let v = self.next_u64();
        (v % (n as u64)) as usize
    }
}

} // verus!
