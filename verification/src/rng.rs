//! A seeded, deterministic pseudo-random generator (splitmix64). Every draw
//! is a pure function of the current state, which makes whole runs
//! reproducible from their seed.
use vstd::prelude::*;

verus! {

/// One step of the splitmix64 output function, as a mathematical function of
/// the incoming state. Exec code mirrors this expression exactly.
pub closed spec fn spec_mix(z0: u64) -> u64 {
    let z1 = ((((z0 ^ (z0 >> 30)) as int) * 0xBF58_476D_1CE4_E5B9) % 0x1_0000_0000_0000_0000) as u64;
    let z2 = ((((z1 ^ (z1 >> 27)) as int) * 0x94D0_49BB_1331_11EB) % 0x1_0000_0000_0000_0000) as u64;
    z2 ^ (z2 >> 31)
}

/// The state after one draw.
pub closed spec fn spec_step(s: u64) -> u64 {
    (((s as int) + 0x9E37_79B9_7F4A_7C15) % 0x1_0000_0000_0000_0000) as u64
}

/// Deterministic generator: state advances by `spec_step`, output is
/// `spec_mix` of the advanced state.
#[derive(Clone, Copy, PartialEq, Eq, Structural, Debug)]
pub struct Rng {
    pub state: u64,
}

impl Rng {
    pub fn seeded(seed: u64) -> (r: Rng)
        ensures
            r.state == seed,
    {
        Rng { state: seed }
    }

    /// Draws 64 bits. The result and the new state are functions of the old
    /// state alone, which is what the determinism of a whole run rests on.
    pub fn next_u64(&mut self) -> (r: u64)
        ensures
            final(self).state == spec_step(old(self).state),
            r == spec_mix(spec_step(old(self).state)),
    {
        let s: u64 = ((self.state as u128 + 0x9E37_79B9_7F4A_7C15u128) % 0x1_0000_0000_0000_0000u128) as u64;
        self.state = s;
        let z1: u64 = ((s ^ (s >> 30)) as u128 * 0xBF58_476D_1CE4_E5B9u128 % 0x1_0000_0000_0000_0000u128) as u64;
        let z2: u64 = ((z1 ^ (z1 >> 27)) as u128 * 0x94D0_49BB_1331_11EBu128 % 0x1_0000_0000_0000_0000u128) as u64;
        let r: u64 = z2 ^ (z2 >> 31);
        r
    }

    /// A draw below `n`, by reduction modulo `n`. The result is a function
    /// of the old state alone.
    pub fn below(&mut self, n: u64) -> (r: u64)
        requires
            n >= 1,
        ensures
            r < n,
            r == spec_mix(spec_step(old(self).state)) % n,
            final(self).state == spec_step(old(self).state),
    {
        let x = self.next_u64();
        x % n
    }

    /// True with probability `p` per mille of `scale` (`p <= scale` draws
    /// true whenever the draw below `scale` lands below `p`). The result is
    /// a function of the old state alone.
    pub fn chance(&mut self, p: u64, scale: u64) -> (r: bool)
        requires
            scale >= 1,
        ensures
            r == (spec_mix(spec_step(old(self).state)) % scale < p),
            final(self).state == spec_step(old(self).state),
    {
        let x = self.below(scale);
        x < p
    }
}

} // verus!
