use vstd::prelude::*;

verus! {

/// One step of the xorshift64 generator: the whole behaviour of the
/// Random Source is this function iterated from the seed.
pub open spec fn xorshift_step(s: u64) -> u64 {
    let a = s ^ (s << 13u64);
    let b = a ^ (a >> 7u64);
    b ^ (b << 17u64)
}

/// Deterministic, seedable Random Source.
///
/// Both the partition phase and the merge phase draw from an explicitly
/// passed generator, so a run with fixed seeds is reproducible draw by
/// draw. Drawing never blocks and never allocates.
pub struct Rand {
    state: u64,
}

impl Rand {
    /// The current generator state; every draw is a function of it.
    pub closed spec fn state(&self) -> u64 {
        self.state
    }

    /// A generator starting from an explicit seed.
    pub fn new(seed: u64) -> (r: Rand)
        ensures
            r.state() == seed,
    {
        Rand { state: seed }
    }

    /// The next raw 64-bit draw; advances the state by one xorshift step.
    pub fn rand_int(&mut self) -> (r: u64)
        ensures
            final(self).state() == xorshift_step(old(self).state()),
            r == xorshift_step(old(self).state()),
    {
        let mut s = self.state;
        s = s ^ (s << 13);
        s = s ^ (s >> 7);
        s = s ^ (s << 17);
        self.state = s;
        s
    }

    /// A uniform draw below `bound` (by reduction of the raw draw).
    pub fn rand_below(&mut self, bound: u64) -> (r: u64)
        requires
            bound > 0,
        ensures
            final(self).state() == xorshift_step(old(self).state()),
            r == xorshift_step(old(self).state()) % bound,
            r < bound,
    {
        let x = self.rand_int();
        x % bound
    }
}

} // verus!
